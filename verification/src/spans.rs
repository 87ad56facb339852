use vstd::prelude::*;

verus! {

/// A region of source text, identified by its position in the table of spans
/// that the parser builds.
#[derive(Debug, Clone, Copy, PartialEq, Eq, Structural, Hash)]
pub struct Span(pub usize);

/// A value together with the region of source text it came from.
pub type Spanned<T> = (T, Span);

/// One line of an error report.
#[derive(Debug)]
pub enum ErrorPart {
    /// A message on its own.
    Text(String),
    /// A message that points at a region of source text.
    At(String, Span),
    /// A suggestion to insert text around a region of source text.
    Insert(String, Span, String),
}

/// The mathematical content of an `ErrorPart`.
pub enum PartView {
    Text(Seq<char>),
    At(Seq<char>, Span),
    Insert(Seq<char>, Span, Seq<char>),
}

impl View for ErrorPart {
    type V = PartView;

    open spec fn view(&self) -> PartView {
        match self {
            ErrorPart::Text(s) => PartView::Text(s@),
            ErrorPart::At(s, span) => PartView::At(s@, *span),
            ErrorPart::Insert(a, span, b) => PartView::Insert(a@, *span, b@),
        }
    }
}

/// An error report: a sequence of messages, most of them pointing at source text.
#[derive(Debug)]
pub struct SpannedError {
    pub parts: Vec<ErrorPart>,
}

impl View for SpannedError {
    type V = Seq<PartView>;

    open spec fn view(&self) -> Seq<PartView> {
        self.parts@.map_values(|p: ErrorPart| p@)
    }
}

/// An internal compiler error: a state the compiler never expects to reach.
#[derive(Debug, Clone, Copy, PartialEq, Eq, Structural)]
pub struct ICE;

/// Makes an internal compiler error.
pub fn ice() -> (r: ICE)
    ensures
        r == ICE,
{
    ICE
}

/// The text of the report made from an internal compiler error.
pub open spec fn ice_message() -> Seq<char> {
    "Internal compiler error"@
}

impl SpannedError {
    /// An empty report.
    pub fn new() -> (r: Self)
        ensures
            r@ == Seq::<PartView>::empty(),
    {
        SpannedError { parts: Vec::new() }
    }

    /// A report of one message at one span.
    pub fn new1(msg: &str, span: Span) -> (r: Self)
        ensures
            r@ == seq![PartView::At(msg@, span)],
    {
        let mut e = Self::new();
        e.push(msg, span);
        e
    }

    /// A report of two messages, each at its span.
    pub fn new2(msg1: &str, span1: Span, msg2: &str, span2: Span) -> (r: Self)
        ensures
            r@ == seq![PartView::At(msg1@, span1), PartView::At(msg2@, span2)],
    {
        let mut e = Self::new1(msg1, span1);
        e.push(msg2, span2);
        e
    }

    /// A report of three messages, each at its span.
    pub fn new3(msg1: &str, span1: Span, msg2: &str, span2: Span, msg3: &str, span3: Span) -> (r: Self)
        ensures
            r@ == seq![PartView::At(msg1@, span1), PartView::At(msg2@, span2), PartView::At(msg3@, span3)],
    {
        let mut e = Self::new2(msg1, span1, msg2, span2);
        e.push(msg3, span3);
        e
    }

    /// Adds a message on its own.
    pub fn push_str(&mut self, msg: &str)
        ensures
            final(self)@ == old(self)@.push(PartView::Text(msg@)),
    {
        self.parts.push(ErrorPart::Text(msg.to_owned()));
        proof {
            assert(self@ =~= old(self)@.push(PartView::Text(msg@)));
        }
    }

    /// Adds a message that points at `span`.
    pub fn push(&mut self, msg: &str, span: Span)
        ensures
            final(self)@ == old(self)@.push(PartView::At(msg@, span)),
    {
        self.parts.push(ErrorPart::At(msg.to_owned(), span));
        proof {
            assert(self@ =~= old(self)@.push(PartView::At(msg@, span)));
        }
    }

    /// Adds a bare pointer at `span`.
    pub fn push_span(&mut self, span: Span)
        ensures
            final(self)@ == old(self)@.push(PartView::At(Seq::empty(), span)),
    {
        self.parts.push(ErrorPart::At(String::new(), span));
        proof {
            assert(self@ =~= old(self)@.push(PartView::At(Seq::empty(), span)));
        }
    }

    /// Adds a suggestion to write `before` and `after` around `span`.
    pub fn push_insert(&mut self, before: &str, span: Span, after: &str)
        ensures
            final(self)@ == old(self)@.push(PartView::Insert(before@, span, after@)),
    {
        self.parts.push(ErrorPart::Insert(before.to_owned(), span, after.to_owned()));
        proof {
            assert(self@ =~= old(self)@.push(PartView::Insert(before@, span, after@)));
        }
    }

    /// The report for an internal compiler error.
    pub fn from_ice(e: ICE) -> (r: Self)
        ensures
            r@ == seq![PartView::Text(ice_message())],
    {
        let mut r = Self::new();
        r.push_str("Internal compiler error");
        r
    }
}

} // verus!
