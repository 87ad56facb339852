use vstd::prelude::*;

verus! {

/// The largest index an arena index type can hold.
pub const INDEX_LIMIT: u32 = 4294967294u32;

/// An index into an arena of nodes.
///
/// An index stands for a position `index()` in the arena; the conversions to
/// and from `usize` preserve that position.
pub trait NodeIndex: Copy + Sized {
    spec fn index(&self) -> nat;

    fn from_usize(i: usize) -> (r: Self)
        requires
            i <= INDEX_LIMIT,
        ensures
            r.index() == i,
    ;

    fn to_usize(self) -> (r: usize)
        ensures
            r as nat == self.index(),
    ;
}

/// Index of a node of the type graph.
#[derive(Copy, Clone, PartialEq, Eq, Structural, Hash, Debug)]
pub struct TypeNodeInd {
    i: u32,
}

impl TypeNodeInd {
    pub closed spec fn view(self) -> nat {
        self.i as nat
    }

    /// Indices at the same position are equal.
    pub proof fn lemma_view_injective(a: Self, b: Self)
        requires
            a.view() == b.view(),
        ensures
            a == b,
    {
    }

    /// The largest index.
    pub closed spec fn max_spec() -> Self {
        TypeNodeInd { i: INDEX_LIMIT }
    }

    /// The largest index; it stands for the top and bottom types.
    pub fn max() -> (r: Self)
        ensures
            r == Self::max_spec(),
            r.view() == INDEX_LIMIT,
    {
        TypeNodeInd { i: INDEX_LIMIT }
    }

    pub fn new(i: usize) -> (r: Self)
        requires
            i <= INDEX_LIMIT,
        ensures
            r.view() == i,
    {
        TypeNodeInd { i: i as u32 }
    }

    pub fn i(self) -> (r: usize)
        ensures
            r == self.view(),
    {
        self.i as usize
    }
}

impl NodeIndex for TypeNodeInd {
    open spec fn index(&self) -> nat {
        self.view()
    }

    fn from_usize(i: usize) -> (r: Self) {
        TypeNodeInd { i: i as u32 }
    }

    fn to_usize(self) -> (r: usize) {
        self.i as usize
    }
}

/// Index of a type constructor definition.
#[derive(Copy, Clone, PartialEq, Eq, Structural, Hash, Debug)]
pub struct TyConDefInd {
    i: u32,
}

impl TyConDefInd {
    pub closed spec fn view(self) -> nat {
        self.i as nat
    }

    pub fn new(i: usize) -> (r: Self)
        requires
            i <= INDEX_LIMIT,
        ensures
            r.view() == i,
    {
        TyConDefInd { i: i as u32 }
    }

    pub fn i(self) -> (r: usize)
        ensures
            r == self.view(),
    {
        self.i as usize
    }
}

} // verus!
