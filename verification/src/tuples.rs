use crate::ast::StringId;
use crate::strings::{interned, intern, key_text, key_valid, lookup, resolve};
use crate::text::{decimal, digit_char, push_decimal};
use vstd::prelude::*;

verus! {

/// The name of the `n`th tuple field: `_` and `n` in decimal.
pub open spec fn tuple_field(n: nat) -> Seq<char> {
    seq!['_'] + decimal(n)
}

/// Whether `c` is a decimal digit.
pub open spec fn is_digit(c: char) -> bool {
    '0' <= c <= '9'
}

/// The value of the decimal digits `d`.
pub open spec fn digits_value(d: Seq<char>) -> nat
    decreases d.len(),
{
    if d.len() == 0 {
        0
    } else {
        digits_value(d.drop_last()) * 10 + ((d.last() as nat) - ('0' as nat)) as nat
    }
}

/// What parsing `d` as a `u32` gives when it has no sign: one or more decimal
/// digits whose value fits in a `u32`.
pub open spec fn parse_digits(d: Seq<char>) -> Option<u32> {
    if d.len() > 0 && (forall|i: int| 0 <= i < d.len() ==> is_digit(#[trigger] d[i])) && digits_value(d)
        <= u32::MAX {
        Some(digits_value(d) as u32)
    } else {
        None
    }
}

/// What parsing `t` as a `u32` gives: an optional `+` followed by one or more
/// decimal digits whose value fits in a `u32`.
pub open spec fn parse_u32(t: Seq<char>) -> Option<u32> {
    if t.len() > 0 && t[0] == '+' {
        parse_digits(t.drop_first())
    } else {
        parse_digits(t)
    }
}

/// The position a field name gives a tuple field: `_` followed by a `u32`.
pub open spec fn tuple_index(t: Seq<char>) -> Option<u32> {
    if t.len() > 0 && t[0] == '_' {
        parse_u32(t.drop_first())
    } else {
        None
    }
}

fn tuple_field_string(n: u32) -> (r: String)
    ensures
        r@ == tuple_field(n as nat),
{
    let mut s = "_".to_owned();
    push_decimal(&mut s, n as usize);
    proof {
        reveal_strlit("_");
        assert(s@ =~= tuple_field(n as nat));
    }
    s
}

/// The key of the name of the `n`th tuple field, interned if need be.
pub fn tuple_name(strings: &mut lasso::Rodeo, n: u32) -> (k: StringId)
    requires
        interned(*old(strings)).len() < u32::MAX,
    ensures
        key_valid(interned(*final(strings)), k),
        key_text(interned(*final(strings)), k) == tuple_field(n as nat),
        interned(*old(strings)).contains(tuple_field(n as nat)) ==> interned(*final(strings)) == interned(
            *old(strings),
        ),
        !interned(*old(strings)).contains(tuple_field(n as nat)) ==> interned(*final(strings)) == interned(
            *old(strings),
        ).push(tuple_field(n as nat)),
{
    let s = tuple_field_string(n);
    intern(strings, s.as_str())
}

/// The key of the name of the `n`th tuple field, if that name was interned.
pub fn get_tuple_name(strings: &lasso::Rodeo, n: u32) -> (r: Option<StringId>)
    ensures
        r is Some <==> interned(*strings).contains(tuple_field(n as nat)),
        r is Some ==> key_valid(interned(*strings), r->0) && key_text(interned(*strings), r->0) == tuple_field(
            n as nat,
        ),
{
    let s = tuple_field_string(n);
    lookup(strings, s.as_str())
}

/// Parses the characters of `s` from position `start` on as a `u32`.
fn parse_u32_from(s: &str, start: usize) -> (r: Option<u32>)
    requires
        start <= s@.len(),
    ensures
        r == parse_u32(s@.subrange(start as int, s@.len() as int)),
{
    let ghost t = s@.subrange(start as int, s@.len() as int);
    let n = s.unicode_len();
    let mut i = start;
    if i < n && s.get_char(i) == '+' {
        i = i + 1;
    }
    let ghost d = s@.subrange(i as int, n as int);
    proof {
        if t.len() > 0 && t[0] == '+' {
            assert(d =~= t.drop_first());
        } else {
            assert(d =~= t);
        }
    }
    if i >= n {
        return None;
    }
    let first = i;
    let mut value: u64 = 0;
    while i < n
        invariant
            n == s@.len(),
            start <= first <= i <= n,
            d == s@.subrange(first as int, n as int),
            parse_u32(s@.subrange(start as int, n as int)) == parse_digits(d),
            forall|j: int| first <= j < i ==> is_digit(#[trigger] s@[j]),
            value == digits_value(s@.subrange(first as int, i as int)),
            value <= u32::MAX,
        decreases n - i,
    {
        let c = s.get_char(i);
        if !('0' <= c && c <= '9') {
            proof {
                assert(d[i - first] == c);
            }
            return None;
        }
        let digit = (c as u32 - '0' as u32) as u64;
        proof {
            let p = s@.subrange(first as int, i as int + 1);
            assert(p.drop_last() =~= s@.subrange(first as int, i as int));
            assert(p.last() == c);
        }
        value = value * 10 + digit;
        i = i + 1;
        if value > u32::MAX as u64 {
            proof {
                if forall|j: int| 0 <= j < d.len() ==> is_digit(#[trigger] d[j]) {
                    lemma_digits_value_prefix(d, (i - first) as nat);
                    assert(d.subrange(0, (i - first) as int) =~= s@.subrange(first as int, i as int));
                }
            }
            return None;
        }
    }
    proof {
        assert(s@.subrange(first as int, i as int) =~= d);
        assert forall|j: int| 0 <= j < d.len() implies is_digit(#[trigger] d[j]) by {
            assert(d[j] == s@[first + j]);
        }
    }
    Some(value as u32)
}

/// The value of digits only grows as digits are appended.
proof fn lemma_digits_value_prefix(d: Seq<char>, k: nat)
    requires
        k <= d.len(),
        forall|i: int| 0 <= i < d.len() ==> is_digit(#[trigger] d[i]),
    ensures
        digits_value(d.subrange(0, k as int)) <= digits_value(d),
    decreases d.len() - k,
{
    if k < d.len() {
        lemma_digits_value_prefix(d, k + 1);
        let p = d.subrange(0, k as int + 1);
        assert(p.drop_last() =~= d.subrange(0, k as int));
        assert(is_digit(p.last()));
    } else {
        assert(d.subrange(0, k as int) =~= d);
    }
}

/// The position of the tuple field that `s` names, if it names one.
pub fn is_tuple_name(strings: &lasso::Rodeo, s: StringId) -> (r: Option<u32>)
    requires
        key_valid(interned(*strings), s),
    ensures
        r == tuple_index(key_text(interned(*strings), s)),
{
    let text = resolve(strings, &s);
    if text.unicode_len() == 0 || text.get_char(0) != '_' {
        return None;
    }
    let r = parse_u32_from(text, 1);
    proof {
        assert(text@.subrange(1, text@.len() as int) =~= text@.drop_first());
    }
    r
}

/// The largest tuple position plus one among the first `n` field names, or
/// `None` when one of them is no tuple field name.
pub open spec fn tuple_span(names: Seq<Seq<char>>, n: nat) -> Option<nat>
    decreases n,
{
    if n == 0 || n > names.len() {
        Some(0)
    } else {
        match tuple_span(names, (n - 1) as nat) {
            None => None,
            Some(m) => match tuple_index(names[n - 1]) {
                None => None,
                Some(t) => Some(if m < t + 1 {
                    (t + 1) as nat
                } else {
                    m
                }),
            },
        }
    }
}

/// Whether the record with field names `names` is shown as a tuple, and of
/// which length: every field is a tuple field, the length is at least two,
/// and at least a third of the positions up to it are present.
pub open spec fn partial_tuple_len(names: Seq<Seq<char>>) -> Option<u32> {
    match tuple_span(names, names.len()) {
        None => None,
        Some(m) => if m <= 1 || m > names.len() * 3 {
            None
        } else {
            Some(m as u32)
        },
    }
}

/// The names that the keys `fields` stand for.
pub open spec fn field_names(strings: Seq<Seq<char>>, fields: Seq<StringId>) -> Seq<Seq<char>> {
    fields.map_values(|f: StringId| key_text(strings, f))
}

pub fn is_partial_tuple_record(strings: &lasso::Rodeo, fields: &[StringId]) -> (r: Option<u32>)
    requires
        forall|i: int| 0 <= i < fields@.len() ==> key_valid(interned(*strings), #[trigger] fields@[i]),
        forall|i: int|
            0 <= i < fields@.len() && tuple_span(field_names(interned(*strings), fields@), i as nat) is Some
                ==> tuple_index(key_text(interned(*strings), #[trigger] fields@[i])) != Some(u32::MAX),
    ensures
        r == partial_tuple_len(field_names(interned(*strings), fields@)),
{
    let ghost names = field_names(interned(*strings), fields@);
    let mut max: u32 = 0;
    let mut count: usize = 0;
    let mut i: usize = 0;
    while i < fields.len()
        invariant
            names == field_names(interned(*strings), fields@),
            forall|j: int| 0 <= j < fields@.len() ==> key_valid(interned(*strings), #[trigger] fields@[j]),
            forall|j: int|
                0 <= j < fields@.len() && tuple_span(names, j as nat) is Some ==> tuple_index(
                    key_text(interned(*strings), #[trigger] fields@[j]),
                ) != Some(u32::MAX),
            i <= fields@.len(),
            count == i,
            tuple_span(names, i as nat) == Some(max as nat),
        decreases fields@.len() - i,
    {
        let t = match is_tuple_name(strings, fields[i]) {
            Some(t) => t,
            None => {
                proof {
                    lemma_tuple_span_none(names, (i + 1) as nat, names.len());
                }
                return None;
            },
        };
        let next = t + 1;
        if max < next {
            max = next;
        }
        count = count + 1;
        i = i + 1;
    }
    proof {
        assert(names.len() == fields@.len());
    }
    if max <= 1 {
        return None;
    }
    if (max as u128) <= (count as u128) * 3 {
        Some(max)
    } else {
        None
    }
}

/// Once a name that is no tuple field is met, the whole record is no tuple.
proof fn lemma_tuple_span_none(names: Seq<Seq<char>>, n: nat, m: nat)
    requires
        n <= m <= names.len(),
        tuple_span(names, n) is None,
    ensures
        tuple_span(names, m) is None,
    decreases m - n,
{
    if n < m {
        assert(tuple_span(names, n + 1) is None);
        lemma_tuple_span_none(names, n + 1, m);
    }
}


proof fn lemma_digit_char(d: nat)
    requires
        d < 10,
    ensures
        is_digit(digit_char(d)),
        (digit_char(d) as nat) - ('0' as nat) == d,
{
}

proof fn lemma_decimal_digits(n: nat)
    ensures
        decimal(n).len() > 0,
        forall|i: int| 0 <= i < decimal(n).len() ==> is_digit(#[trigger] decimal(n)[i]),
        digits_value(decimal(n)) == n,
    decreases n,
{
    lemma_digit_char(n % 10);
    if n >= 10 {
        lemma_decimal_digits(n / 10);
        let d = decimal(n);
        assert(d.drop_last() =~= decimal(n / 10));
        assert(d.last() == digit_char(n % 10));
        assert(digits_value(d) == digits_value(d.drop_last()) * 10 + (((d.last() as nat) - ('0' as nat)) as nat));
        assert(digits_value(d.drop_last()) == n / 10);
        assert(((d.last() as nat) - ('0' as nat)) as nat == n % 10);
        assert((n / 10) * 10 + n % 10 == n);
        assert forall|i: int| 0 <= i < d.len() implies is_digit(#[trigger] d[i]) by {
            if i < d.len() - 1 {
                assert(d[i] == decimal(n / 10)[i]);
            }
        }
    } else {
        let d = decimal(n);
        assert(d.drop_last() =~= Seq::<char>::empty());
        assert(d.last() == digit_char(n));
        assert(digits_value(d) == digits_value(d.drop_last()) * 10 + (((d.last() as nat) - ('0' as nat)) as nat));
    }
}

/// The name of the `n`th tuple field is read back as position `n`.
pub proof fn law_tuple_field_round_trip(n: u32)
    ensures
        tuple_index(tuple_field(n as nat)) == Some(n),
{
    lemma_decimal_digits(n as nat);
    let t = tuple_field(n as nat);
    assert(t.drop_first() =~= decimal(n as nat));
    assert(decimal(n as nat)[0] != '+') by {
        assert(is_digit(decimal(n as nat)[0]));
    }
}

} // verus!
