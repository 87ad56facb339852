use vstd::prelude::*;

verus! {

/// The string interner that names are kept in.
#[verifier::external_type_specification]
#[verifier::external_body]
#[verifier::reject_recursive_types(K)]
#[verifier::reject_recursive_types(S)]
pub struct ExRodeo<K, S>(lasso::Rodeo<K, S>);

/// The key of an interned string.
#[verifier::external_type_specification]
#[verifier::external_body]
pub struct ExSpur(lasso::Spur);

/// The strings an interner holds, in the order they were first interned.
pub uninterp spec fn interned(r: lasso::Rodeo) -> Seq<Seq<char>>;

/// The position, among the interned strings, of the string that a key stands for.
pub uninterp spec fn key_index(k: lasso::Spur) -> nat;

/// Whether `k` stands for one of the strings of `strings`.
pub open spec fn key_valid(strings: Seq<Seq<char>>, k: lasso::Spur) -> bool {
    key_index(k) < strings.len()
}

/// The string that `k` stands for in `strings`.
pub open spec fn key_text(strings: Seq<Seq<char>>, k: lasso::Spur) -> Seq<char> {
    strings[key_index(k) as int]
}

/// An empty interner (`lasso::Rodeo::new`).
#[verifier::external_body]
pub fn new_interner() -> (r: lasso::Rodeo)
    ensures
        interned(r) == Seq::<Seq<char>>::empty(),
{
    lasso::Rodeo::new()
}

/// The key of `s`, interning it first when it is new (`lasso::Rodeo::get_or_intern`).
///
/// A string already held keeps its key and leaves the interner unchanged; a new
/// string is appended and its key stands for the position it was appended at.
/// The interner gives out keys below `u32::MAX` only, and panics beyond that,
/// which the `requires` rules out. The arena that holds the strings may fail
/// to allocate; like any allocation failure, that is left unsaid.
#[verifier::external_body]
pub fn intern(strings: &mut lasso::Rodeo, s: &str) -> (k: lasso::Spur)
    requires
        interned(*old(strings)).len() < u32::MAX,
    ensures
        key_valid(interned(*final(strings)), k),
        key_text(interned(*final(strings)), k) == s@,
        interned(*old(strings)).contains(s@) ==> interned(*final(strings)) == interned(*old(strings)),
        !interned(*old(strings)).contains(s@) ==> interned(*final(strings)) == interned(*old(strings)).push(s@)
            && key_index(k) == interned(*old(strings)).len(),
{
    strings.get_or_intern(s)
}

/// The key of `s`, if it was interned (`lasso::Rodeo::get`).
#[verifier::external_body]
pub fn lookup(strings: &lasso::Rodeo, s: &str) -> (r: Option<lasso::Spur>)
    ensures
        r is Some <==> interned(*strings).contains(s@),
        r is Some ==> key_valid(interned(*strings), r->0) && key_text(interned(*strings), r->0) == s@,
{
    strings.get(s)
}

/// The string that `k` stands for (`lasso::Rodeo::resolve`); the interner
/// panics on a key beyond its strings, which the `requires` rules out.
#[verifier::external_body]
pub fn resolve<'a>(strings: &'a lasso::Rodeo, k: &lasso::Spur) -> (r: &'a str)
    requires
        key_valid(interned(*strings), *k),
    ensures
        r@ == key_text(interned(*strings), *k),
{
    strings.resolve(k)
}

/// The position that a key stands for (`lasso::Key::into_usize`): the
/// interner numbers its strings by the order they were first interned, and a
/// key holds that number.
#[verifier::external_body]
pub fn key_usize(k: &lasso::Spur) -> (r: usize)
    ensures
        r as nat == key_index(*k),
{
    lasso::Key::into_usize(*k)
}

/// Whether two keys stand for the same string (`==` on `lasso::Spur`, which
/// compares the positions the keys stand for).
#[verifier::external_body]
pub fn same_key(a: &lasso::Spur, b: &lasso::Spur) -> (r: bool)
    ensures
        r == (key_index(*a) == key_index(*b)),
{
    *a == *b
}

} // verus!
