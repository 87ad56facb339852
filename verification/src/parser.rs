use crate::text::{push_char, str_eq};
use vstd::prelude::*;

verus! {

/// The name that a parse error uses for a token class of the grammar: its
/// regular expression is replaced by a word, other tokens stand for themselves.
pub open spec fn friendly(raw: Seq<char>) -> Seq<char> {
    if raw == r###"r#"\"[^\\\\\"\\n\\r]*(?:\\\\[tn'\"\\\\][^\\\\\"\\n\\r]*)*\""#"###@ {
        "string literal"@
    } else if raw == r###"r#"-?(?:0|[1-9][0-9]*)[eE]-?[0-9]+"#"###@ {
        "number"@
    } else if raw == r###"r#"-?(?:0|[1-9][0-9]*)\\.[0-9]*(?:[eE]-?[0-9]+)?"#"###@ {
        "number"@
    } else if raw == r###"r#"-?(?:[0-9]+)"#"###@ {
        "number"@
    } else if raw == r###"r#"[A-Za-z_$][\\w$]*"#"###@ {
        "identifier"@
    } else if raw == r###"r#"(?:&&)|(?:\\|\\|)"#"###@ {
        r#""&&", "||""#@
    } else if raw == r###"r#"[<>]=?\\.?|[!=]="#"###@ {
        "comparison operator"@
    } else if raw == r###"r#"[\\*/%]\\.?"#"###@ {
        "operator"@
    } else if raw == r###"r#"[\\+\\-]\\.?|\\^"#"###@ {
        r#""+", "-", "^", operator"#@
    } else {
        raw
    }
}

pub fn friendly_token<'a>(raw: &'a str) -> (r: &'a str)
    ensures
        r@ == friendly(raw@),
{
    if str_eq(raw, r###"r#"\"[^\\\\\"\\n\\r]*(?:\\\\[tn'\"\\\\][^\\\\\"\\n\\r]*)*\""#"###) {
        "string literal"
    } else if str_eq(raw, r###"r#"-?(?:0|[1-9][0-9]*)[eE]-?[0-9]+"#"###) {
        "number"
    } else if str_eq(raw, r###"r#"-?(?:0|[1-9][0-9]*)\\.[0-9]*(?:[eE]-?[0-9]+)?"#"###) {
        "number"
    } else if str_eq(raw, r###"r#"-?(?:[0-9]+)"#"###) {
        "number"
    } else if str_eq(raw, r###"r#"[A-Za-z_$][\\w$]*"#"###) {
        "identifier"
    } else if str_eq(raw, r###"r#"(?:&&)|(?:\\|\\|)"#"###) {
        r#""&&", "||""#
    } else if str_eq(raw, r###"r#"[<>]=?\\.?|[!=]="#"###) {
        "comparison operator"
    } else if str_eq(raw, r###"r#"[\\*/%]\\.?"#"###) {
        "operator"
    } else if str_eq(raw, r###"r#"[\\+\\-]\\.?|\\^"#"###) {
        r#""+", "-", "^", operator"#
    } else {
        raw
    }
}

/// Whether `s` holds the separator `, ` at position `i`.
pub open spec fn sep_at(s: Seq<char>, i: int) -> bool {
    0 <= i && i + 1 < s.len() && s[i] == ',' && s[i + 1] == ' '
}

/// The first position from `i` on where `s` holds the separator `, `.
pub open spec fn first_sep(s: Seq<char>, i: nat) -> Option<nat>
    decreases s.len() - i,
{
    if i + 1 >= s.len() {
        None
    } else if sep_at(s, i as int) {
        Some(i)
    } else {
        first_sep(s, i + 1)
    }
}

/// The pieces of `s` between the separators `, `, as `str::split` gives them.
pub open spec fn split_names(s: Seq<char>) -> Seq<Seq<char>>
    decreases s.len(),
{
    match first_sep(s, 0) {
        None => seq![s],
        Some(i) => if i + 2 <= s.len() {
            seq![s.subrange(0, i as int)] + split_names(s.subrange(i as int + 2, s.len() as int))
        } else {
            seq![s]
        },
    }
}

/// The names that the expected tokens stand for, in order.
pub open spec fn expected_names(expected: Seq<Seq<char>>) -> Seq<Seq<char>>
    decreases expected.len(),
{
    if expected.len() == 0 {
        Seq::empty()
    } else {
        expected_names(expected.drop_last()) + split_names(friendly(expected.last()))
    }
}

/// Whether `a` comes before `b` in the order of strings: by the first character
/// where they differ, a prefix first.
pub open spec fn lex_lt(a: Seq<char>, b: Seq<char>) -> bool
    decreases a.len(),
{
    if a.len() == 0 {
        b.len() > 0
    } else if b.len() == 0 {
        false
    } else if a[0] != b[0] {
        a[0] < b[0]
    } else {
        lex_lt(a.drop_first(), b.drop_first())
    }
}

/// Each string of `names` comes before the next: the strings are sorted and distinct.
pub open spec fn strictly_sorted(names: Seq<Seq<char>>) -> bool {
    forall|a: int, b: int| 0 <= a < b < names.len() ==> lex_lt(#[trigger] names[a], #[trigger] names[b])
}

/// The strings `names`, with `, ` between each two.
pub open spec fn join_names(names: Seq<Seq<char>>) -> Seq<char>
    decreases names.len(),
{
    if names.len() == 0 {
        Seq::empty()
    } else if names.len() == 1 {
        names[0]
    } else {
        join_names(names.drop_last()) + ", "@ + names.last()
    }
}


proof fn lemma_lex_irreflexive(a: Seq<char>)
    ensures
        !lex_lt(a, a),
    decreases a.len(),
{
    if a.len() > 0 {
        lemma_lex_irreflexive(a.drop_first());
    }
}

proof fn lemma_lex_asymmetric(a: Seq<char>, b: Seq<char>)
    requires
        lex_lt(a, b),
    ensures
        !lex_lt(b, a),
    decreases a.len(),
{
    if a.len() > 0 && b.len() > 0 && a[0] == b[0] {
        lemma_lex_asymmetric(a.drop_first(), b.drop_first());
    }
}

proof fn lemma_lex_transitive(a: Seq<char>, b: Seq<char>, c: Seq<char>)
    requires
        lex_lt(a, b),
        lex_lt(b, c),
    ensures
        lex_lt(a, c),
    decreases a.len(),
{
    if a.len() > 0 && b.len() > 0 && c.len() > 0 && a[0] == b[0] && b[0] == c[0] {
        lemma_lex_transitive(a.drop_first(), b.drop_first(), c.drop_first());
    }
}

proof fn lemma_lex_total(a: Seq<char>, b: Seq<char>)
    requires
        a != b,
    ensures
        lex_lt(a, b) || lex_lt(b, a),
    decreases a.len(),
{
    if a.len() > 0 && b.len() > 0 {
        if a[0] == b[0] {
            if a.drop_first() == b.drop_first() {
                assert(a =~= seq![a[0]] + a.drop_first());
                assert(b =~= seq![b[0]] + b.drop_first());
            }
            lemma_lex_total(a.drop_first(), b.drop_first());
        }
    } else if a.len() == 0 && b.len() == 0 {
        assert(a =~= b);
    }
}

/// Whether `a` comes before `b` in the order of strings.
pub(crate) fn str_lt(a: &str, b: &str) -> (r: bool)
    ensures
        r == lex_lt(a@, b@),
{
    let n = a.unicode_len();
    let m = b.unicode_len();
    let mut i: usize = 0;
    proof {
        assert(a@.skip(0) =~= a@);
        assert(b@.skip(0) =~= b@);
    }
    while i < n && i < m
        invariant
            n == a@.len(),
            m == b@.len(),
            i <= n,
            i <= m,
            lex_lt(a@, b@) == lex_lt(a@.skip(i as int), b@.skip(i as int)),
        decreases n - i,
    {
        let x = a.get_char(i);
        let y = b.get_char(i);
        proof {
            assert(a@.skip(i as int)[0] == x);
            assert(b@.skip(i as int)[0] == y);
            assert(a@.skip(i as int).drop_first() =~= a@.skip(i as int + 1));
            assert(b@.skip(i as int).drop_first() =~= b@.skip(i as int + 1));
        }
        if x != y {
            return x < y;
        }
        i = i + 1;
    }
    i == n && i < m
}

/// The pieces of `s` between the separators `, `, as `str::split` gives them.
fn split_pieces(s: &str) -> (r: Vec<String>)
    ensures
        r@.map_values(|p: String| p@) == split_names(s@),
{
    let n = s.unicode_len();
    let mut out: Vec<String> = Vec::new();
    let mut start: usize = 0;
    proof {
        assert(s@.subrange(0, n as int) =~= s@);
        assert(out@.map_values(|p: String| p@) + split_names(s@.subrange(0, n as int)) =~= split_names(s@));
    }
    loop
        invariant
            n == s@.len(),
            start <= n,
            out@.map_values(|p: String| p@) + split_names(s@.subrange(start as int, n as int)) == split_names(s@),
        decreases n - start,
    {
        let ghost rest = s@.subrange(start as int, n as int);
        // Find the next separator.
        let mut i = start;
        let mut found = false;
        while !found && i < n && n - i > 1
            invariant
                n == s@.len(),
                start <= i <= n,
                rest == s@.subrange(start as int, n as int),
                first_sep(rest, 0) == first_sep(rest, (i - start) as nat),
                found ==> i + 1 < n && sep_at(rest, (i - start) as int),
            decreases n - i, if found {
                0int
            } else {
                1int
            },
        {
            if s.get_char(i) == ',' && s.get_char(i + 1) == ' ' {
                found = true;
                proof {
                    assert(rest[(i - start) as int] == s@[i as int]);
                    assert(rest[(i - start) as int + 1] == s@[i + 1]);
                }
            } else {
                proof {
                    assert(rest[(i - start) as int] == s@[i as int]);
                    assert(rest[(i - start) as int + 1] == s@[i + 1]);
                }
                i = i + 1;
            }
        }
        let mut piece = String::new();
        let end = if found {
            i
        } else {
            n
        };
        let mut k = start;
        while k < end
            invariant
                n == s@.len(),
                start <= k <= end <= n,
                piece@ == s@.subrange(start as int, k as int),
            decreases end - k,
        {
            push_char(&mut piece, s.get_char(k));
            k = k + 1;
            proof {
                assert(piece@ =~= s@.subrange(start as int, k as int));
            }
        }
        let ghost before = out@;
        out.push(piece);
        if !found {
            proof {
                assert(first_sep(rest, 0) is None);
                assert(out@.map_values(|p: String| p@) =~= before.map_values(|p: String| p@).push(rest));
                assert(split_names(rest) == seq![rest]);
            }
            return out;
        }
        proof {
            assert(first_sep(rest, 0) == Some((i - start) as nat));
            let j = (i - start) as int;
            assert(rest.subrange(0, j) =~= s@.subrange(start as int, i as int));
            assert(rest.subrange(j + 2, rest.len() as int) =~= s@.subrange(i as int + 2, n as int));
            assert(out@.map_values(|p: String| p@) =~= before.map_values(|p: String| p@).push(rest.subrange(0, j)));
        }
        start = i + 2;
    }
}


/// The texts of a list of strings.
pub open spec fn texts(v: Seq<String>) -> Seq<Seq<char>> {
    v.map_values(|s: String| s@)
}

/// Adds `x` to the sorted, distinct strings `names`, where it belongs.
fn insert_sorted(names: &mut Vec<String>, x: String)
    requires
        strictly_sorted(texts(old(names)@)),
    ensures
        strictly_sorted(texts(final(names)@)),
        texts(final(names)@).to_set() == texts(old(names)@).to_set().insert(x@),
{
    let mut j: usize = 0;
    while j < names.len() && str_lt(names[j].as_str(), x.as_str())
        invariant
            j <= names@.len(),
            names@ == old(names)@,
            forall|a: int| 0 <= a < j ==> lex_lt(#[trigger] texts(names@)[a], x@),
        decreases names@.len() - j,
    {
        j = j + 1;
    }
    let ghost t0 = texts(names@);
    if j < names.len() && str_eq(names[j].as_str(), x.as_str()) {
        proof {
            assert(t0[j as int] == x@);
            assert(t0.to_set().insert(x@) =~= t0.to_set());
        }
        return;
    }
    proof {
        if j < names@.len() {
            assert(!lex_lt(t0[j as int], x@));
            assert(t0[j as int] != x@);
            lemma_lex_total(t0[j as int], x@);
        }
    }
    let ghost xv = x@;
    names.insert(j, x);
    proof {
        let t1 = texts(names@);
        assert(t1 =~= t0.insert(j as int, xv));
        assert forall|a: int, b: int| 0 <= a < b < t1.len() implies lex_lt(#[trigger] t1[a], #[trigger] t1[b]) by {
            if b < j {
                assert(t1[a] == t0[a] && t1[b] == t0[b]);
            } else if b == j {
                assert(t1[a] == t0[a]);
            } else if a == j {
                assert(t1[b] == t0[b - 1]);
                if b - 1 > j {
                    assert(lex_lt(t0[j as int], t0[b - 1]));
                    lemma_lex_transitive(xv, t0[j as int], t0[b - 1]);
                }
            } else if a < j {
                assert(t1[a] == t0[a]);
                assert(t1[b] == t0[b - 1]);
            } else {
                assert(t1[a] == t0[a - 1]);
                assert(t1[b] == t0[b - 1]);
            }
        }
        assert forall|y: Seq<char>| t1.to_set().contains(y) <==> t0.to_set().insert(xv).contains(y) by {
            if t1.to_set().contains(y) {
                let k = choose|k: int| 0 <= k < t1.len() && t1[k] == y;
                if k < j {
                    assert(t0[k] == y);
                } else if k > j {
                    assert(t0[k - 1] == y);
                }
            }
            if t0.to_set().contains(y) {
                let k = choose|k: int| 0 <= k < t0.len() && t0[k] == y;
                if k < j {
                    assert(t1[k] == y);
                } else {
                    assert(t1[k + 1] == y);
                }
            }
            if y == xv {
                assert(t1[j as int] == y);
            }
        }
        assert(t1.to_set() =~= t0.to_set().insert(xv));
    }
}

/// The strings `names`, with `, ` between each two.
fn join(names: &Vec<String>) -> (r: String)
    ensures
        r@ == join_names(texts(names@)),
{
    let mut out = String::new();
    let mut i: usize = 0;
    while i < names.len()
        invariant
            i <= names@.len(),
            out@ == join_names(texts(names@).take(i as int)),
        decreases names@.len() - i,
    {
        if i > 0 {
            out.append(", ");
        }
        out.append(names[i].as_str());
        i = i + 1;
        proof {
            let t = texts(names@).take(i as int);
            assert(t.drop_last() =~= texts(names@).take(i as int - 1));
            assert(t.last() == names@[i - 1]@);
            if i == 1 {
                assert(t =~= seq![names@[0]@]);
            }
        }
    }
    proof {
        assert(texts(names@).take(names@.len() as int) =~= texts(names@));
    }
    out
}

/// The list of expected tokens in a parse error: their names, sorted, each once.
pub fn format_expected(expected: &[String]) -> (r: String)
    ensures
        exists|names: Seq<Seq<char>>|
            #[trigger] join_names(names) == r@ && strictly_sorted(names) && names.to_set() == expected_names(
                texts(expected@),
            ).to_set(),
{
    let mut names: Vec<String> = Vec::new();
    let mut i: usize = 0;
    proof {
        assert(texts(expected@).take(0) =~= Seq::<Seq<char>>::empty());
        assert(texts(names@).to_set() =~= expected_names(texts(expected@).take(0)).to_set());
    }
    while i < expected.len()
        invariant
            i <= expected@.len(),
            strictly_sorted(texts(names@)),
            texts(names@).to_set() == expected_names(texts(expected@).take(i as int)).to_set(),
        decreases expected@.len() - i,
    {
        let pieces = split_pieces(friendly_token(expected[i].as_str()));
        let ghost before = texts(names@).to_set();
        let mut k: usize = 0;
        while k < pieces.len()
            invariant
                k <= pieces@.len(),
                strictly_sorted(texts(names@)),
                texts(names@).to_set() == before + texts(pieces@).take(k as int).to_set(),
            decreases pieces@.len() - k,
        {
            let ghost prev = texts(names@).to_set();
            let piece = pieces[k].clone();
            insert_sorted(&mut names, piece);
            k = k + 1;
            proof {
                let t = texts(pieces@).take(k as int);
                assert(t =~= texts(pieces@).take(k as int - 1).push(pieces@[k - 1]@));
                assert(t.to_set() =~= texts(pieces@).take(k as int - 1).to_set().insert(pieces@[k - 1]@)) by {
                    texts(pieces@).take(k as int - 1).lemma_push_to_set_commute(pieces@[k - 1]@);
                }
                assert(texts(names@).to_set() =~= before + t.to_set());
            }
        }
        proof {
            let e = texts(expected@).take(i as int + 1);
            assert(e.drop_last() =~= texts(expected@).take(i as int));
            assert(e.last() == expected@[i as int]@);
            assert(texts(pieces@).take(pieces@.len() as int) =~= texts(pieces@));
            assert(texts(pieces@) == split_names(friendly(expected@[i as int]@)));
            vstd::seq_lib::seq_to_set_distributes_over_add(
                expected_names(texts(expected@).take(i as int)),
                split_names(friendly(expected@[i as int]@)),
            );
        }
        i = i + 1;
    }
    proof {
        assert(texts(expected@).take(expected@.len() as int) =~= texts(expected@));
    }
    join(&names)
}

} // verus!
