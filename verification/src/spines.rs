use crate::ast::types::{Kind, KindView, ParamView, SKind, SVKind, TypeParam, Variance};
use crate::ast::StringId;
use crate::coercion::CoercionTargetCategory;
use crate::kinds::{kind_text, params_text, variance_sign, KindVar};
use crate::parser::{lex_lt, str_lt};
use crate::prune_unused_poly_vars::{sorted_insert_by, stable_sort_by};
use crate::spans::{ice, PartView, Span, SpannedError, ICE};
use crate::strings::key_index;
use crate::type_errors::DupNameChecker;
use crate::strings::{interned, key_text, key_valid, resolve};
use crate::templates::{
    is_inner, leaves, share, RecHeadData, rec_body_variance, template_leaves, Leaf, LeafKind, NamePair, ParsedType, ParsedTypeHead, RcParsedType,
    SourceLoc, VarianceInvPair,
};
use crate::text::{decimal, push_char, push_decimal};
use crate::tuples::{is_tuple_name, tuple_index};
use crate::types::FuncProperties;
use std::rc::Rc;
use vstd::prelude::*;

verus! {

/// The numbers given to the heads of recursive types, in the order they were
/// first written.
pub type RecTable = Seq<(SourceLoc, u32)>;

/// The outcome of writing part of a template: the text and the numbers of
/// recursive types after it; an internal error, for a node that cannot stand in
/// a template; or `Stuck`, where the serializer cannot go on at all, for a name
/// that the interner does not hold or a recursive variable met before its head.
pub enum Serialized {
    Text(Seq<char>, RecTable),
    Ice,
    Stuck,
}

/// `o` with `pre` written before its text.
pub open spec fn prepend(pre: Seq<char>, o: Serialized) -> Serialized {
    match o {
        Serialized::Text(x, t) => Serialized::Text(pre + x, t),
        _ => o,
    }
}

/// `o` between `pre` and `post`.
pub open spec fn wrap(pre: Seq<char>, o: Serialized, post: Seq<char>) -> Serialized {
    match o {
        Serialized::Text(x, t) => Serialized::Text(pre + x + post, t),
        _ => o,
    }
}

/// The position of the first entry for `loc`, from position `i` on.
pub open spec fn rec_pos(t: RecTable, loc: SourceLoc, i: nat) -> Option<nat>
    decreases t.len() - i,
{
    if i >= t.len() {
        None
    } else if t[i as int].0 == loc {
        Some(i)
    } else {
        rec_pos(t, loc, i + 1)
    }
}

/// A position found for `loc` holds an entry for `loc`.
proof fn lemma_rec_pos_bound(t: RecTable, loc: SourceLoc, i: nat)
    ensures
        rec_pos(t, loc, i) matches Some(j) ==> i <= j < t.len() && t[j as int].0 == loc,
    decreases t.len() - i,
{
    if i < t.len() && t[i as int].0 != loc {
        lemma_rec_pos_bound(t, loc, i + 1);
    }
}

/// The table with `loc` numbered `id`: its entry overwritten, or a new entry last.
pub open spec fn rec_insert(t: RecTable, loc: SourceLoc, id: u32) -> RecTable {
    match rec_pos(t, loc, 0) {
        Some(j) => t.update(j as int, (loc, id)),
        None => t.push((loc, id)),
    }
}

/// The text of a name, when the interner holds it.
pub open spec fn name_text(s: Seq<Seq<char>>, id: StringId) -> Option<Seq<char>> {
    if key_valid(s, id) {
        Some(key_text(s, id))
    } else {
        None
    }
}

/// The arrow of a function type: `=>` for an identity function.
pub open spec fn arrow_text(p: FuncProperties) -> Seq<char> {
    if p.is_identity {
        " => "@
    } else {
        " -> "@
    }
}

/// A polymorphic variable: its name, or for a pair of names the one that the
/// variance of the position reads, and both where it is invariant.
pub open spec fn ser_poly_var(s: Seq<Seq<char>>, names: NamePair, v: Variance, t: RecTable) -> Serialized {
    match names {
        NamePair::Single(n) => match name_text(s, n) {
            Some(x) => Serialized::Text(x, t),
            None => Serialized::Stuck,
        },
        NamePair::Pair(n1, n2) => match v {
            Variance::Covariant => match name_text(s, n1) {
                Some(x) => Serialized::Text(x, t),
                None => Serialized::Stuck,
            },
            Variance::Contravariant => match name_text(s, n2) {
                Some(x) => Serialized::Text(x, t),
                None => Serialized::Stuck,
            },
            Variance::Invariant => match (name_text(s, n1), name_text(s, n2)) {
                (Some(x), Some(y)) => Serialized::Text(x + seq!['/'] + y, t),
                _ => Serialized::Stuck,
            },
        },
    }
}

/// Whether every field name of a record is held by the interner.
pub open spec fn all_keys_valid(s: Seq<Seq<char>>, fs: Seq<(StringId, (Span, VarianceInvPair))>) -> bool {
    forall|i: int| 0 <= i < fs.len() ==> key_valid(s, #[trigger] fs[i].0)
}

/// The tuple position that field `i` gives, when the field is covariant and
/// its name is a tuple field name.
pub open spec fn tuple_pos(s: Seq<Seq<char>>, fs: Seq<(StringId, (Span, VarianceInvPair))>, i: int) -> Option<u32> {
    if fs[i].1.1 is Co {
        tuple_index(key_text(s, fs[i].0))
    } else {
        None
    }
}

/// Whether a record is written with tuple syntax: it has no type aliases and
/// at least two fields, every field is covariant with a tuple field name, no
/// two fields give the same position, and the positions cover `0..n`, where
/// `n` is the number of fields taken as a `u32`.
pub open spec fn tuple_shaped(
    s: Seq<Seq<char>>,
    fs: Seq<(StringId, (Span, VarianceInvPair))>,
    als: Seq<(StringId, (Span, (RcParsedType, KindVar)))>,
) -> bool {
    &&& als.len() == 0
    &&& fs.len() >= 2
    &&& forall|i: int| 0 <= i < fs.len() ==> (#[trigger] tuple_pos(s, fs, i)) is Some
    &&& forall|i: int, j: int| 0 <= i < j < fs.len() ==> tuple_pos(s, fs, i) != tuple_pos(s, fs, j)
    &&& forall|k: u32| k < (fs.len() as u32) ==> #[trigger] gives_pos(s, fs, k)
}

/// Whether some field gives tuple position `k`.
pub open spec fn gives_pos(s: Seq<Seq<char>>, fs: Seq<(StringId, (Span, VarianceInvPair))>, k: u32) -> bool {
    exists|i: int| 0 <= i < fs.len() && tuple_pos(s, fs, i) == Some(k)
}

/// The field that gives tuple position `k`.
pub open spec fn tuple_field_at(s: Seq<Seq<char>>, fs: Seq<(StringId, (Span, VarianceInvPair))>, k: u32) -> int {
    choose|i: int| 0 <= i < fs.len() && tuple_pos(s, fs, i) == Some(k)
}

/// The text of a template node at variance `v`, with the recursive types
/// numbered as in `t` so far.
#[verifier::opaque]
pub open spec fn ser_node(s: Seq<Seq<char>>, node: ParsedTypeHead, v: Variance, t: RecTable) -> Serialized
    decreases node, 0nat,
{
    match node {
        ParsedTypeHead::Case(bs) => wrap("["@, ser_cases(s, bs@, bs@.len(), v, t), "]"@),
        ParsedTypeHead::Func(a, r, p) => match ser_node(s, (*a).1, v.flipped(), t) {
            Serialized::Text(x, t1) => wrap("("@ + x + arrow_text(p), ser_node(s, (*r).1, v, t1), ")"@),
            o => o,
        },
        ParsedTypeHead::Record(fs, als, _) => if !all_keys_valid(s, fs@) {
            Serialized::Stuck
        } else if tuple_shaped(s, fs@, als@) {
            wrap("("@, ser_tuple(s, fs@, (fs@.len() as u32) as nat, v, t), ")"@)
        } else {
            match ser_fields(s, fs@, fs@.len(), v, t, false) {
                Serialized::Text(x, t1) => wrap("{"@ + x, ser_aliases(s, als@, als@.len(), t1, fs@.len() > 0), "}"@),
                o => o,
            }
        },
        ParsedTypeHead::Constructor(c, _, ps) => match ser_node(s, (*c).1, v, t) {
            Serialized::Text(x, t1) => wrap(x + "["@, ser_params(s, ps@, ps@.len(), v, t1), "]"@),
            o => o,
        },
        ParsedTypeHead::RecHead(r) => {
            let id = t.len() as u32;
            prepend(
                "rec #r"@ + decimal(id as nat) + " = "@,
                ser_node(s, (*r.body).1, rec_body_variance(r, v), rec_insert(t, r.loc, id)),
            )
        },
        ParsedTypeHead::RecVar(loc) => match rec_pos(t, loc, 0) {
            Some(j) => Serialized::Text("#r"@ + decimal(t[j as int].1 as nat), t),
            None => Serialized::Stuck,
        },
        ParsedTypeHead::SpineParam(i) => Serialized::Text(seq!['#'] + decimal(i as nat), t),
        ParsedTypeHead::SpinePolyVar(names) => ser_poly_var(s, names, v, t),
        _ => Serialized::Ice,
    }
}

/// The first `n` cases of a variant type, separated by ` | `.
#[verifier::opaque]
pub open spec fn ser_cases(s: Seq<Seq<char>>, bs: Seq<(StringId, (Span, RcParsedType))>, n: nat, v: Variance, t: RecTable) -> Serialized
    decreases bs, n,
{
    if n == 0 || n > bs.len() {
        Serialized::Text(Seq::empty(), t)
    } else {
        match ser_cases(s, bs, (n - 1) as nat, v, t) {
            Serialized::Text(x, t1) => {
                let sep = if n > 1 {
                    " | "@
                } else {
                    Seq::empty()
                };
                match name_text(s, bs[n - 1].0) {
                    Some(nm) => prepend(x + sep + seq!['`'] + nm + seq![' '], ser_node(s, (*bs[n - 1].1.1).1, v, t1)),
                    None => Serialized::Stuck,
                }
            },
            o => o,
        }
    }
}

/// One record field: `name: T`, `mut name: T` for an invariant field, and
/// `mut name: R <- W` for a pair of read and write types.
#[verifier::opaque]
pub open spec fn ser_field(s: Seq<Seq<char>>, f: (StringId, (Span, VarianceInvPair)), v: Variance, t: RecTable) -> Serialized
    decreases f, 0nat,
{
    match f.1.1 {
        VarianceInvPair::Contra(_) => Serialized::Ice,
        VarianceInvPair::Co(r) => match name_text(s, f.0) {
            Some(nm) => prepend(nm + ": "@, ser_node(s, (*r).1, v, t)),
            None => Serialized::Stuck,
        },
        VarianceInvPair::InvSingle(r) => match name_text(s, f.0) {
            Some(nm) => prepend("mut "@ + nm + ": "@, ser_node(s, (*r).1, Variance::Invariant, t)),
            None => Serialized::Stuck,
        },
        VarianceInvPair::InvPair(r, w) => match name_text(s, f.0) {
            Some(nm) => match ser_node(s, (*r).1, v, t) {
                Serialized::Text(x, t1) => prepend("mut "@ + nm + ": "@ + x + " <- "@, ser_node(s, (*w).1, v.flipped(), t1)),
                o => o,
            },
            None => Serialized::Stuck,
        },
    }
}

/// The first `n` fields of a record, each after `; ` unless it is the very
/// first item written (`lead` tells whether items came before).
#[verifier::opaque]
pub open spec fn ser_fields(
    s: Seq<Seq<char>>,
    fs: Seq<(StringId, (Span, VarianceInvPair))>,
    n: nat,
    v: Variance,
    t: RecTable,
    lead: bool,
) -> Serialized
    decreases fs, n,
{
    if n == 0 || n > fs.len() {
        Serialized::Text(Seq::empty(), t)
    } else {
        match ser_fields(s, fs, (n - 1) as nat, v, t, lead) {
            Serialized::Text(x, t1) => {
                let sep = if n > 1 || lead {
                    "; "@
                } else {
                    Seq::empty()
                };
                prepend(x + sep, ser_field(s, fs[n - 1], v, t1))
            },
            o => o,
        }
    }
}

/// The first `n` type aliases of a record, as `alias name: T`.
#[verifier::opaque]
pub open spec fn ser_aliases(
    s: Seq<Seq<char>>,
    als: Seq<(StringId, (Span, (RcParsedType, KindVar)))>,
    n: nat,
    t: RecTable,
    lead: bool,
) -> Serialized
    decreases als, n,
{
    if n == 0 || n > als.len() {
        Serialized::Text(Seq::empty(), t)
    } else {
        match ser_aliases(s, als, (n - 1) as nat, t, lead) {
            Serialized::Text(x, t1) => {
                let sep = if n > 1 || lead {
                    "; "@
                } else {
                    Seq::empty()
                };
                match name_text(s, als[n - 1].0) {
                    Some(nm) => prepend(
                        x + sep + "alias "@ + nm + ": "@,
                        ser_node(s, (*als[n - 1].1.1.0).1, Variance::Invariant, t1),
                    ),
                    None => Serialized::Stuck,
                }
            },
            o => o,
        }
    }
}

/// The first `k` positions of a record written as a tuple, separated by `, `.
#[verifier::opaque]
pub open spec fn ser_tuple(s: Seq<Seq<char>>, fs: Seq<(StringId, (Span, VarianceInvPair))>, k: nat, v: Variance, t: RecTable) -> Serialized
    decreases fs, k,
{
    if k == 0 || k > u32::MAX {
        Serialized::Text(Seq::empty(), t)
    } else {
        match ser_tuple(s, fs, (k - 1) as nat, v, t) {
            Serialized::Text(x, t1) => {
                let sep = if k > 1 {
                    ", "@
                } else {
                    Seq::empty()
                };
                if gives_pos(s, fs, (k - 1) as u32) {
                    let j = tuple_field_at(s, fs, (k - 1) as u32);
                    match fs[j].1.1 {
                        VarianceInvPair::Co(r) => prepend(x + sep, ser_node(s, (*r).1, v, t1)),
                        _ => Serialized::Ice,
                    }
                } else {
                    Serialized::Ice
                }
            },
            o => o,
        }
    }
}

/// One parameter of a constructor: its type at the variance of its position,
/// or `R <- W` for a pair of read and write types.
#[verifier::opaque]
pub open spec fn ser_param(s: Seq<Seq<char>>, p: VarianceInvPair, v: Variance, t: RecTable) -> Serialized
    decreases p, 0nat,
{
    match p {
        VarianceInvPair::Co(r) => ser_node(s, (*r).1, v, t),
        VarianceInvPair::Contra(r) => ser_node(s, (*r).1, v.flipped(), t),
        VarianceInvPair::InvSingle(r) => ser_node(s, (*r).1, Variance::Invariant, t),
        VarianceInvPair::InvPair(r, w) => match ser_node(s, (*r).1, v, t) {
            Serialized::Text(x, t1) => prepend(x + " <- "@, ser_node(s, (*w).1, v.flipped(), t1)),
            o => o,
        },
    }
}

/// The first `n` parameters of a constructor, separated by `; `.
#[verifier::opaque]
pub open spec fn ser_params(s: Seq<Seq<char>>, ps: Seq<VarianceInvPair>, n: nat, v: Variance, t: RecTable) -> Serialized
    decreases ps, n,
{
    if n == 0 || n > ps.len() {
        Serialized::Text(Seq::empty(), t)
    } else {
        match ser_params(s, ps, (n - 1) as nat, v, t) {
            Serialized::Text(x, t1) => {
                let sep = if n > 1 {
                    "; "@
                } else {
                    Seq::empty()
                };
                prepend(x + sep, ser_param(s, ps[n - 1], v, t1))
            },
            o => o,
        }
    }
}

/// A function type without its parentheses: argument, arrow, result.
pub open spec fn ser_func(s: Seq<Seq<char>>, a: ParsedType, r: ParsedType, p: FuncProperties, v: Variance, t: RecTable) -> Serialized {
    match ser_node(s, a.1, v.flipped(), t) {
        Serialized::Text(x, t1) => prepend(x + arrow_text(p), ser_node(s, r.1, v, t1)),
        o => o,
    }
}

/// The first `n` polymorphic parameters of a function template, each its name
/// and kind, separated by `; `; `None` when a name is not held.
pub open spec fn func_params_text(s: Seq<Seq<char>>, poly: Seq<(SKind, StringId)>, n: nat) -> Option<Seq<char>>
    decreases n,
{
    if n == 0 || n > poly.len() {
        Some(Seq::empty())
    } else {
        match (func_params_text(s, poly, (n - 1) as nat), name_text(s, poly[n - 1].1)) {
            (Some(x), Some(nm)) => Some(
                x + (if n > 1 {
                    "; "@
                } else {
                    Seq::empty()
                }) + nm + kind_text(poly[n - 1].0.0@),
            ),
            _ => None,
        }
    }
}

/// The first `n` polymorphic parameters of a record template, each as
/// `type name` and its kind, separated by `; `.
pub open spec fn record_params_text(s: Seq<Seq<char>>, poly: Seq<(SKind, StringId)>, n: nat) -> Option<Seq<char>>
    decreases n,
{
    if n == 0 || n > poly.len() {
        Some(Seq::empty())
    } else {
        match (record_params_text(s, poly, (n - 1) as nat), name_text(s, poly[n - 1].1)) {
            (Some(x), Some(nm)) => Some(
                x + (if n > 1 {
                    "; "@
                } else {
                    Seq::empty()
                }) + "type "@ + nm + kind_text(poly[n - 1].0.0@),
            ),
            _ => None,
        }
    }
}

/// A record written with braces: its polymorphic parameters, fields and type
/// aliases, separated by `; `.
pub open spec fn ser_record(
    s: Seq<Seq<char>>,
    poly: Seq<(SKind, StringId)>,
    fs: Seq<(StringId, (Span, VarianceInvPair))>,
    als: Seq<(StringId, (Span, (RcParsedType, KindVar)))>,
    v: Variance,
    t: RecTable,
) -> Serialized {
    match record_params_text(s, poly, poly.len()) {
        Some(x) => match ser_fields(s, fs, fs.len(), v, t, poly.len() > 0) {
            Serialized::Text(y, t1) => wrap(
                "{"@ + x + y,
                ser_aliases(s, als, als.len(), t1, poly.len() > 0 || fs.len() > 0),
                "}"@,
            ),
            o => o,
        },
        None => Serialized::Stuck,
    }
}


/// The head of a shared parsed type.
pub open spec fn head(r: &RcParsedType) -> ParsedTypeHead {
    (**r).1
}

/// Whether the executable outcome `r`, with the text `after` and the table
/// `t_after` it left, is the one that `o` describes for the text `before`.
pub open spec fn outcome_matches(o: Serialized, r: Result<(), ICE>, before: Seq<char>, after: Seq<char>, t_after: RecTable) -> bool {
    match o {
        Serialized::Text(x, t) => r is Ok && after == before + x && t_after == t,
        Serialized::Ice => r is Err,
        Serialized::Stuck => true,
    }
}

/// No cases, fields, aliases, tuple positions or parameters: nothing written.
proof fn lemma_lists_zero(
    s: Seq<Seq<char>>,
    bs: Seq<(StringId, (Span, RcParsedType))>,
    fs: Seq<(StringId, (Span, VarianceInvPair))>,
    als: Seq<(StringId, (Span, (RcParsedType, KindVar)))>,
    ps: Seq<VarianceInvPair>,
    v: Variance,
    t: RecTable,
    lead: bool,
)
    ensures
        ser_cases(s, bs, 0, v, t) == Serialized::Text(Seq::empty(), t),
        ser_fields(s, fs, 0, v, t, lead) == Serialized::Text(Seq::empty(), t),
        ser_aliases(s, als, 0, t, lead) == Serialized::Text(Seq::empty(), t),
        ser_tuple(s, fs, 0, v, t) == Serialized::Text(Seq::empty(), t),
        ser_params(s, ps, 0, v, t) == Serialized::Text(Seq::empty(), t),
{
    reveal(ser_cases);
    reveal(ser_fields);
    reveal(ser_aliases);
    reveal(ser_tuple);
    reveal(ser_params);
}

/// One step of writing a template node.
proof fn lemma_node_unfold(s: Seq<Seq<char>>, node: ParsedTypeHead, v: Variance, t: RecTable)
    ensures
        ser_node(s, node, v, t) == (match node {
            ParsedTypeHead::Case(bs) => wrap("["@, ser_cases(s, bs@, bs@.len(), v, t), "]"@),
            ParsedTypeHead::Func(a, r, p) => match ser_node(s, (*a).1, v.flipped(), t) {
                Serialized::Text(x, t1) => wrap("("@ + x + arrow_text(p), ser_node(s, (*r).1, v, t1), ")"@),
                o => o,
            },
            ParsedTypeHead::Record(fs, als, _) => if !all_keys_valid(s, fs@) {
                Serialized::Stuck
            } else if tuple_shaped(s, fs@, als@) {
                wrap("("@, ser_tuple(s, fs@, (fs@.len() as u32) as nat, v, t), ")"@)
            } else {
                match ser_fields(s, fs@, fs@.len(), v, t, false) {
                    Serialized::Text(x, t1) => wrap("{"@ + x, ser_aliases(s, als@, als@.len(), t1, fs@.len() > 0), "}"@),
                    o => o,
                }
            },
            ParsedTypeHead::Constructor(c, _, ps) => match ser_node(s, (*c).1, v, t) {
                Serialized::Text(x, t1) => wrap(x + "["@, ser_params(s, ps@, ps@.len(), v, t1), "]"@),
                o => o,
            },
            ParsedTypeHead::RecHead(r) => {
                let id = t.len() as u32;
                prepend(
                    "rec #r"@ + decimal(id as nat) + " = "@,
                    ser_node(s, (*r.body).1, rec_body_variance(r, v), rec_insert(t, r.loc, id)),
                )
            },
            ParsedTypeHead::RecVar(loc) => match rec_pos(t, loc, 0) {
                Some(j) => Serialized::Text("#r"@ + decimal(t[j as int].1 as nat), t),
                None => Serialized::Stuck,
            },
            ParsedTypeHead::SpineParam(i) => Serialized::Text(seq!['#'] + decimal(i as nat), t),
            ParsedTypeHead::SpinePolyVar(names) => ser_poly_var(s, names, v, t),
            _ => Serialized::Ice,
        }),
{
    reveal(ser_node);
    reveal(ser_cases);
    reveal(ser_field);
    reveal(ser_fields);
    reveal(ser_aliases);
    reveal(ser_tuple);
    reveal(ser_param);
    reveal(ser_params);
}

/// One more case: the cases before it, then its tag and type.
proof fn lemma_cases_step(s: Seq<Seq<char>>, bs: Seq<(StringId, (Span, RcParsedType))>, n: nat, v: Variance, t: RecTable)
    requires
        0 < n <= bs.len(),
        ser_cases(s, bs, (n - 1) as nat, v, t) is Text,
    ensures
        ser_cases(s, bs, 0, v, t) == Serialized::Text(Seq::empty(), t),
        ser_cases(s, bs, n, v, t) == (match name_text(s, bs[n - 1].0) {
            Some(nm) => prepend(
                ser_cases(s, bs, (n - 1) as nat, v, t)->Text_0 + (if n > 1 {
                    " | "@
                } else {
                    Seq::empty()
                }) + seq!['`'] + nm + seq![' '],
                ser_node(s, (*bs[n - 1].1.1).1, v, ser_cases(s, bs, (n - 1) as nat, v, t)->Text_1),
            ),
            None => Serialized::Stuck,
        }),
{
    reveal(ser_node);
    reveal(ser_cases);
    reveal(ser_field);
    reveal(ser_fields);
    reveal(ser_aliases);
    reveal(ser_tuple);
    reveal(ser_param);
    reveal(ser_params);
}

/// One step of writing a record field.
proof fn lemma_field_unfold(s: Seq<Seq<char>>, f: (StringId, (Span, VarianceInvPair)), v: Variance, t: RecTable)
    ensures
        ser_field(s, f, v, t) == (match f.1.1 {
            VarianceInvPair::Contra(_) => Serialized::Ice,
            VarianceInvPair::Co(r) => match name_text(s, f.0) {
                Some(nm) => prepend(nm + ": "@, ser_node(s, (*r).1, v, t)),
                None => Serialized::Stuck,
            },
            VarianceInvPair::InvSingle(r) => match name_text(s, f.0) {
                Some(nm) => prepend("mut "@ + nm + ": "@, ser_node(s, (*r).1, Variance::Invariant, t)),
                None => Serialized::Stuck,
            },
            VarianceInvPair::InvPair(r, w) => match name_text(s, f.0) {
                Some(nm) => match ser_node(s, (*r).1, v, t) {
                    Serialized::Text(x, t1) => prepend("mut "@ + nm + ": "@ + x + " <- "@, ser_node(s, (*w).1, v.flipped(), t1)),
                    o => o,
                },
                None => Serialized::Stuck,
            },
        }),
{
    reveal(ser_node);
    reveal(ser_cases);
    reveal(ser_field);
    reveal(ser_fields);
    reveal(ser_aliases);
    reveal(ser_tuple);
    reveal(ser_param);
    reveal(ser_params);
}

/// One more record field: the fields before it, then the field.
proof fn lemma_fields_step(
    s: Seq<Seq<char>>,
    fs: Seq<(StringId, (Span, VarianceInvPair))>,
    n: nat,
    v: Variance,
    t: RecTable,
    lead: bool,
)
    requires
        0 < n <= fs.len(),
        ser_fields(s, fs, (n - 1) as nat, v, t, lead) is Text,
    ensures
        ser_fields(s, fs, 0, v, t, lead) == Serialized::Text(Seq::empty(), t),
        ser_fields(s, fs, n, v, t, lead) == prepend(
            ser_fields(s, fs, (n - 1) as nat, v, t, lead)->Text_0 + (if n > 1 || lead {
                "; "@
            } else {
                Seq::empty()
            }),
            ser_field(s, fs[n - 1], v, ser_fields(s, fs, (n - 1) as nat, v, t, lead)->Text_1),
        ),
{
    reveal(ser_node);
    reveal(ser_cases);
    reveal(ser_field);
    reveal(ser_fields);
    reveal(ser_aliases);
    reveal(ser_tuple);
    reveal(ser_param);
    reveal(ser_params);
}

/// One more type alias: the aliases before it, then the alias.
proof fn lemma_aliases_step(
    s: Seq<Seq<char>>,
    als: Seq<(StringId, (Span, (RcParsedType, KindVar)))>,
    n: nat,
    t: RecTable,
    lead: bool,
)
    requires
        0 < n <= als.len(),
        ser_aliases(s, als, (n - 1) as nat, t, lead) is Text,
    ensures
        ser_aliases(s, als, 0, t, lead) == Serialized::Text(Seq::empty(), t),
        ser_aliases(s, als, n, t, lead) == (match name_text(s, als[n - 1].0) {
            Some(nm) => prepend(
                ser_aliases(s, als, (n - 1) as nat, t, lead)->Text_0 + (if n > 1 || lead {
                    "; "@
                } else {
                    Seq::empty()
                }) + "alias "@ + nm + ": "@,
                ser_node(s, (*als[n - 1].1.1.0).1, Variance::Invariant, ser_aliases(s, als, (n - 1) as nat, t, lead)->Text_1),
            ),
            None => Serialized::Stuck,
        }),
{
    reveal(ser_node);
    reveal(ser_cases);
    reveal(ser_field);
    reveal(ser_fields);
    reveal(ser_aliases);
    reveal(ser_tuple);
    reveal(ser_param);
    reveal(ser_params);
}

/// One more tuple position: the positions before it, then its type.
proof fn lemma_tuple_step(s: Seq<Seq<char>>, fs: Seq<(StringId, (Span, VarianceInvPair))>, k: nat, v: Variance, t: RecTable)
    requires
        0 < k <= u32::MAX,
        ser_tuple(s, fs, (k - 1) as nat, v, t) is Text,
    ensures
        ser_tuple(s, fs, 0, v, t) == Serialized::Text(Seq::empty(), t),
        ser_tuple(s, fs, k, v, t) == (if gives_pos(s, fs, (k - 1) as u32) {
            match fs[tuple_field_at(s, fs, (k - 1) as u32)].1.1 {
                VarianceInvPair::Co(r) => prepend(
                    ser_tuple(s, fs, (k - 1) as nat, v, t)->Text_0 + (if k > 1 {
                        ", "@
                    } else {
                        Seq::empty()
                    }),
                    ser_node(s, (*r).1, v, ser_tuple(s, fs, (k - 1) as nat, v, t)->Text_1),
                ),
                _ => Serialized::Ice,
            }
        } else {
            Serialized::Ice
        }),
{
    reveal(ser_node);
    reveal(ser_cases);
    reveal(ser_field);
    reveal(ser_fields);
    reveal(ser_aliases);
    reveal(ser_tuple);
    reveal(ser_param);
    reveal(ser_params);
}

/// One step of writing a constructor parameter.
proof fn lemma_param_unfold(s: Seq<Seq<char>>, p: VarianceInvPair, v: Variance, t: RecTable)
    ensures
        ser_param(s, p, v, t) == (match p {
            VarianceInvPair::Co(r) => ser_node(s, (*r).1, v, t),
            VarianceInvPair::Contra(r) => ser_node(s, (*r).1, v.flipped(), t),
            VarianceInvPair::InvSingle(r) => ser_node(s, (*r).1, Variance::Invariant, t),
            VarianceInvPair::InvPair(r, w) => match ser_node(s, (*r).1, v, t) {
                Serialized::Text(x, t1) => prepend(x + " <- "@, ser_node(s, (*w).1, v.flipped(), t1)),
                o => o,
            },
        }),
{
    reveal(ser_node);
    reveal(ser_cases);
    reveal(ser_field);
    reveal(ser_fields);
    reveal(ser_aliases);
    reveal(ser_tuple);
    reveal(ser_param);
    reveal(ser_params);
}

/// One more constructor parameter: the parameters before it, then the parameter.
proof fn lemma_params_step(s: Seq<Seq<char>>, ps: Seq<VarianceInvPair>, n: nat, v: Variance, t: RecTable)
    requires
        0 < n <= ps.len(),
        ser_params(s, ps, (n - 1) as nat, v, t) is Text,
    ensures
        ser_params(s, ps, 0, v, t) == Serialized::Text(Seq::empty(), t),
        ser_params(s, ps, n, v, t) == prepend(
            ser_params(s, ps, (n - 1) as nat, v, t)->Text_0 + (if n > 1 {
                "; "@
            } else {
                Seq::empty()
            }),
            ser_param(s, ps[n - 1], v, ser_params(s, ps, (n - 1) as nat, v, t)->Text_1),
        ),
{
    reveal(ser_node);
    reveal(ser_cases);
    reveal(ser_field);
    reveal(ser_fields);
    reveal(ser_aliases);
    reveal(ser_tuple);
    reveal(ser_param);
    reveal(ser_params);
}

/// Once a list of cases stops being written, the rest of the list changes nothing.
proof fn lemma_cases_stop(s: Seq<Seq<char>>, bs: Seq<(StringId, (Span, RcParsedType))>, k: nat, n: nat, v: Variance, t: RecTable)
    requires
        k <= n <= bs.len(),
        !(ser_cases(s, bs, k, v, t) is Text),
    ensures
        ser_cases(s, bs, n, v, t) == ser_cases(s, bs, k, v, t),
    decreases n,
{
    reveal(ser_cases);
    if n > k {
        lemma_cases_stop(s, bs, k, (n - 1) as nat, v, t);
    }
}

/// Once a list of fields stops being written, the rest of the list changes nothing.
proof fn lemma_fields_stop(
    s: Seq<Seq<char>>,
    fs: Seq<(StringId, (Span, VarianceInvPair))>,
    k: nat,
    n: nat,
    v: Variance,
    t: RecTable,
    lead: bool,
)
    requires
        k <= n <= fs.len(),
        !(ser_fields(s, fs, k, v, t, lead) is Text),
    ensures
        ser_fields(s, fs, n, v, t, lead) == ser_fields(s, fs, k, v, t, lead),
    decreases n,
{
    reveal(ser_fields);
    if n > k {
        lemma_fields_stop(s, fs, k, (n - 1) as nat, v, t, lead);
    }
}

/// Once a list of type aliases stops being written, the rest changes nothing.
proof fn lemma_aliases_stop(
    s: Seq<Seq<char>>,
    als: Seq<(StringId, (Span, (RcParsedType, KindVar)))>,
    k: nat,
    n: nat,
    t: RecTable,
    lead: bool,
)
    requires
        k <= n <= als.len(),
        !(ser_aliases(s, als, k, t, lead) is Text),
    ensures
        ser_aliases(s, als, n, t, lead) == ser_aliases(s, als, k, t, lead),
    decreases n,
{
    reveal(ser_aliases);
    if n > k {
        lemma_aliases_stop(s, als, k, (n - 1) as nat, t, lead);
    }
}

/// Once a tuple stops being written, the rest of its positions change nothing.
proof fn lemma_tuple_stop(s: Seq<Seq<char>>, fs: Seq<(StringId, (Span, VarianceInvPair))>, k: nat, n: nat, v: Variance, t: RecTable)
    requires
        k <= n <= u32::MAX,
        !(ser_tuple(s, fs, k, v, t) is Text),
    ensures
        ser_tuple(s, fs, n, v, t) == ser_tuple(s, fs, k, v, t),
    decreases n,
{
    reveal(ser_tuple);
    if n > k {
        lemma_tuple_stop(s, fs, k, (n - 1) as nat, v, t);
    }
}

/// Once a list of constructor parameters stops being written, the rest changes nothing.
proof fn lemma_params_stop(s: Seq<Seq<char>>, ps: Seq<VarianceInvPair>, k: nat, n: nat, v: Variance, t: RecTable)
    requires
        k <= n <= ps.len(),
        !(ser_params(s, ps, k, v, t) is Text),
    ensures
        ser_params(s, ps, n, v, t) == ser_params(s, ps, k, v, t),
    decreases n,
{
    reveal(ser_params);
    if n > k {
        lemma_params_stop(s, ps, k, (n - 1) as nat, v, t);
    }
}

/// Writes the items of a list with a separator between them.
struct SepListWriter {
    first: bool,
    sep: &'static str,
}

impl SepListWriter {
    fn new(sep: &'static str) -> (r: Self)
        ensures
            r.first,
            r.sep == sep,
    {
        SepListWriter { first: true, sep }
    }

    /// Starts the next item: writes the separator unless it is the first item.
    fn next(&mut self, out: &mut TemplateSerializer)
        ensures
            !final(self).first,
            final(self).sep == old(self).sep,
            final(out).strings == old(out).strings,
            final(out).rec_hashes == old(out).rec_hashes,
            final(out).s@ == old(out).s@ + (if old(self).first {
                Seq::empty()
            } else {
                old(self).sep@
            }),
    {
        if self.first {
            self.first = false;
            proof {
                assert(out.s@ =~= old(out).s@ + Seq::<char>::empty());
            }
        } else {
            out.w(self.sep);
        }
    }
}

/// Writes the text of a template, numbering recursive types as it meets them.
struct TemplateSerializer<'a> {
    strings: &'a lasso::Rodeo,
    s: String,
    rec_hashes: Vec<(SourceLoc, u32)>,
}

impl<'a> TemplateSerializer<'a> {
    fn new(strings: &'a lasso::Rodeo) -> (r: Self)
        ensures
            r.strings == strings,
            r.s@ == Seq::<char>::empty(),
            r.rec_hashes@ == Seq::<(SourceLoc, u32)>::empty(),
    {
        TemplateSerializer { strings, s: String::new(), rec_hashes: Vec::new() }
    }

    fn w(&mut self, x: &str)
        ensures
            final(self).strings == old(self).strings,
            final(self).rec_hashes == old(self).rec_hashes,
            final(self).s@ == old(self).s@ + x@,
    {
        self.s.append(x);
    }

    fn wstr(&mut self, id: StringId)
        requires
            key_valid(interned(*old(self).strings), id),
        ensures
            final(self).strings == old(self).strings,
            final(self).rec_hashes == old(self).rec_hashes,
            final(self).s@ == old(self).s@ + key_text(interned(*old(self).strings), id),
    {
        let x = resolve(self.strings, &id);
        self.s.append(x);
    }

    fn write_variance(&mut self, v: Variance)
        ensures
            final(self).strings == old(self).strings,
            final(self).rec_hashes == old(self).rec_hashes,
            final(self).s@ == old(self).s@.push(variance_sign(v)),
    {
        let c = match v {
            Variance::Covariant => '+',
            Variance::Contravariant => '-',
            Variance::Invariant => '^',
        };
        push_char(&mut self.s, c);
    }

    fn write_tycon_kind(&mut self, kind: &Vec<SVKind>)
        ensures
            final(self).strings == old(self).strings,
            final(self).rec_hashes == old(self).rec_hashes,
            final(self).s@ == old(self).s@ + seq!['['] + params_text(
                crate::ast::types::params_view(kind@),
                kind@.len(),
            ) + seq![']'],
        decreases kind,
    {
        let ghost ps = crate::ast::types::params_view(kind@);
        self.w("[");
        let ghost start = self.s@;
        let mut w = SepListWriter::new("; ");
        let mut i: usize = 0;
        while i < kind.len()
            invariant
                self.strings == old(self).strings,
                self.rec_hashes == old(self).rec_hashes,
                ps == crate::ast::types::params_view(kind@),
                ps.len() == kind@.len(),
                i <= kind@.len(),
                w.sep == "; ",
                w.first == (i == 0),
                self.s@ == start + params_text(ps, i as nat),
            decreases kind@.len() - i,
        {
            let param = &kind[i];
            proof {
                assert(ps[i as int] == param.param_view());
                reveal_strlit("; ");
            }
            w.next(self);
            self.write_variance(param.variance.0);
            proof {
                broadcast use vstd::std_specs::vec::axiom_vec_index_decreases;

                assert(decreases_to!(*kind => kind[i as int]));
            }
            self.write_kind(&param.kind.0);
            i = i + 1;
            proof {
                let sep = if i > 1 {
                    "; "@
                } else {
                    Seq::<char>::empty()
                };
                assert(self.s@ =~= start + params_text(ps, (i - 1) as nat) + sep + seq![
                    variance_sign(ps[i - 1].variance.0),
                ] + kind_text(ps[i - 1].kind));
            }
        }
        self.w("]");
        proof {
            reveal_strlit("[");
            reveal_strlit("]");
            assert(self.s@ =~= old(self).s@ + seq!['['] + params_text(ps, kind@.len()) + seq![']']);
        }
    }

    fn write_kind(&mut self, kind: &Kind)
        ensures
            final(self).strings == old(self).strings,
            final(self).rec_hashes == old(self).rec_hashes,
            final(self).s@ == old(self).s@ + kind_text(kind@),
        decreases kind,
    {
        match kind {
            Kind::Star => {
                proof {
                    assert(self.s@ =~= old(self).s@ + kind_text(kind@));
                }
            },
            Kind::Arrow(tycon_kind) => {
                self.write_tycon_kind(tycon_kind);
                proof {
                    assert(kind@->Arrow_0 =~= crate::ast::types::params_view(tycon_kind@));
                }
            },
        }
    }
}


/// The position of the first entry for `loc` in the table.
fn rec_find(t: &Vec<(SourceLoc, u32)>, loc: SourceLoc) -> (r: Option<usize>)
    ensures
        match rec_pos(t@, loc, 0) {
            Some(j) => r == Some(j as usize),
            None => r is None,
        },
        r matches Some(j) ==> j < t@.len() && t@[j as int].0 == loc && rec_pos(t@, loc, 0) == Some(j as nat),
{
    proof {
        lemma_rec_pos_bound(t@, loc, 0);
    }
    let mut i: usize = 0;
    while i < t.len()
        invariant
            i <= t@.len(),
            rec_pos(t@, loc, 0) == rec_pos(t@, loc, i as nat),
        decreases t@.len() - i,
    {
        if t[i].0 == loc {
            return Some(i);
        }
        i = i + 1;
    }
    None
}

/// The tuple position of each field, as `tuple_pos` gives it.
fn tuple_positions(strings: &lasso::Rodeo, fields: &Vec<(StringId, (Span, VarianceInvPair))>) -> (r: Vec<Option<u32>>)
    requires
        all_keys_valid(interned(*strings), fields@),
    ensures
        r@.len() == fields@.len(),
        forall|i: int| 0 <= i < fields@.len() ==> r@[i] == tuple_pos(interned(*strings), fields@, i),
{
    let mut r: Vec<Option<u32>> = Vec::new();
    let mut i: usize = 0;
    while i < fields.len()
        invariant
            all_keys_valid(interned(*strings), fields@),
            i <= fields@.len(),
            r@.len() == i,
            forall|j: int| 0 <= j < i ==> r@[j] == tuple_pos(interned(*strings), fields@, j),
        decreases fields@.len() - i,
    {
        let p = match &fields[i].1.1 {
            VarianceInvPair::Co(_) => {
                proof {
                    assert(key_valid(interned(*strings), fields@[i as int].0));
                }
                is_tuple_name(strings, fields[i].0)
            },
            _ => None,
        };
        r.push(p);
        i = i + 1;
    }
    r
}

/// The first field that gives tuple position `k`, if any.
fn find_tuple_pos(positions: &Vec<Option<u32>>, k: u32) -> (r: Option<usize>)
    ensures
        match r {
            Some(j) => j < positions@.len() && positions@[j as int] == Some(k) && forall|i: int|
                0 <= i < j ==> positions@[i] != Some(k),
            None => forall|i: int| 0 <= i < positions@.len() ==> positions@[i] != Some(k),
        },
{
    let mut i: usize = 0;
    while i < positions.len()
        invariant
            i <= positions@.len(),
            forall|j: int| 0 <= j < i ==> positions@[j] != Some(k),
        decreases positions@.len() - i,
    {
        match positions[i] {
            Some(p) => {
                if p == k {
                    return Some(i);
                }
            },
            None => {},
        }
        i = i + 1;
    }
    None
}

/// Whether a record with these tuple positions and this many type aliases is
/// written as a tuple.
fn check_tuple_shape(positions: &Vec<Option<u32>>, n_aliases: usize) -> (r: bool)
    ensures
        r == ({
            &&& n_aliases == 0
            &&& positions@.len() >= 2
            &&& forall|i: int| 0 <= i < positions@.len() ==> (#[trigger] positions@[i]) is Some
            &&& forall|i: int, j: int| 0 <= i < j < positions@.len() ==> positions@[i] != positions@[j]
            &&& forall|k: u32| k < (positions@.len() as u32) ==> #[trigger] has_pos(positions@, k)
        }),
{
    let n = positions.len();
    if n_aliases != 0 || n < 2 {
        return false;
    }
    let mut i: usize = 0;
    while i < n
        invariant
            n == positions@.len(),
            i <= n,
            forall|a: int| 0 <= a < i ==> (#[trigger] positions@[a]) is Some,
            forall|a: int, b: int| 0 <= a < b < n && a < i ==> positions@[a] != positions@[b],
        decreases n - i,
    {
        if positions[i].is_none() {
            return false;
        }
        let mut j: usize = i + 1;
        while j < n
            invariant
                n == positions@.len(),
                i < n,
                i < j <= n,
                forall|b: int| i < b < j ==> positions@[i as int] != positions@[b],
            decreases n - j,
        {
            if positions[i] == positions[j] {
                return false;
            }
            j = j + 1;
        }
        i = i + 1;
    }
    let limit: u32 = n as u32;
    let mut k: u32 = 0;
    while k < limit
        invariant
            n == positions@.len(),
            limit == (n as u32),
            k <= limit,
            forall|c: u32| c < k ==> #[trigger] has_pos(positions@, c),
        decreases limit - k,
    {
        let kk = k;
        match find_tuple_pos(positions, kk) {
            Some(j) => {
                proof {
                    assert(positions@[j as int] == Some(kk));
                    assert(has_pos(positions@, kk));
                }
            },
            None => {
                proof {
                    assert(!has_pos(positions@, kk));
                }
                return false;
            },
        }
        k = k + 1;
    }
    true
}

/// Whether some entry gives tuple position `k`.
pub open spec fn has_pos(positions: Seq<Option<u32>>, k: u32) -> bool {
    exists|i: int| 0 <= i < positions.len() && positions[i] == Some(k)
}


/// While the polymorphic parameters of a record are all written, so is each prefix of them.
proof fn lemma_record_params_prefix(s: Seq<Seq<char>>, poly: Seq<(SKind, StringId)>, k: nat, n: nat)
    requires
        k <= n <= poly.len(),
        record_params_text(s, poly, n) is Some,
    ensures
        record_params_text(s, poly, k) is Some,
        k < n ==> name_text(s, poly[k as int].1) is Some,
    decreases n,
{
    if k < n {
        lemma_record_params_prefix(s, poly, k, (n - 1) as nat);
        if k < n - 1 {
            lemma_record_params_prefix(s, poly, k + 1, (n - 1) as nat);
        }
    }
}

/// While the polymorphic parameters of a function are all written, so is each prefix of them.
proof fn lemma_func_params_prefix(s: Seq<Seq<char>>, poly: Seq<(SKind, StringId)>, k: nat, n: nat)
    requires
        k <= n <= poly.len(),
        func_params_text(s, poly, n) is Some,
    ensures
        func_params_text(s, poly, k) is Some,
        k < n ==> name_text(s, poly[k as int].1) is Some,
    decreases n,
{
    if k < n {
        lemma_func_params_prefix(s, poly, k, (n - 1) as nat);
        if k < n - 1 {
            lemma_func_params_prefix(s, poly, k + 1, (n - 1) as nat);
        }
    }
}

/// The positions found for the fields give the tuple shape exactly when the
/// fields do.
proof fn lemma_shape_matches(
    st: Seq<Seq<char>>,
    fields: Seq<(StringId, (Span, VarianceInvPair))>,
    aliases: Seq<(StringId, (Span, (RcParsedType, KindVar)))>,
    positions: Seq<Option<u32>>,
)
    requires
        positions.len() == fields.len(),
        forall|i: int| 0 <= i < fields.len() ==> positions[i] == tuple_pos(st, fields, i),
    ensures
        ({
            &&& aliases.len() == 0
            &&& positions.len() >= 2
            &&& forall|i: int| 0 <= i < positions.len() ==> (#[trigger] positions[i]) is Some
            &&& forall|i: int, j: int| 0 <= i < j < positions.len() ==> positions[i] != positions[j]
            &&& forall|k: u32| k < (positions.len() as u32) ==> #[trigger] has_pos(positions, k)
        }) == tuple_shaped(st, fields, aliases),
{
    assert forall|k: u32| has_pos(positions, k) <==> gives_pos(st, fields, k) by {
        if has_pos(positions, k) {
            let i = choose|i: int| 0 <= i < positions.len() && positions[i] == Some(k);
            assert(tuple_pos(st, fields, i) == Some(k));
        }
        if gives_pos(st, fields, k) {
            let i = choose|i: int| 0 <= i < fields.len() && tuple_pos(st, fields, i) == Some(k);
            assert(positions[i] == Some(k));
        }
    }
    let a = forall|i: int| 0 <= i < positions.len() ==> (#[trigger] positions[i]) is Some;
    let b = forall|i: int| 0 <= i < fields.len() ==> (#[trigger] tuple_pos(st, fields, i)) is Some;
    assert(a == b) by {
        if a {
            assert forall|i: int| 0 <= i < fields.len() implies (#[trigger] tuple_pos(st, fields, i)) is Some by {
                assert(positions[i] is Some);
            }
        }
        if b {
            assert forall|i: int| 0 <= i < positions.len() implies (#[trigger] positions[i]) is Some by {
                assert(tuple_pos(st, fields, i) is Some);
            }
        }
    }
    let c = forall|i: int, j: int| 0 <= i < j < positions.len() ==> positions[i] != positions[j];
    let d = forall|i: int, j: int| 0 <= i < j < fields.len() ==> tuple_pos(st, fields, i) != tuple_pos(st, fields, j);
    assert(c == d) by {
        if c {
            assert forall|i: int, j: int| 0 <= i < j < fields.len() implies tuple_pos(st, fields, i) != tuple_pos(
                st,
                fields,
                j,
            ) by {
                assert(positions[i] != positions[j]);
            }
        }
        if d {
            assert forall|i: int, j: int| 0 <= i < j < positions.len() implies positions[i] != positions[j] by {
                assert(tuple_pos(st, fields, i) != tuple_pos(st, fields, j));
            }
        }
    }
    let e = forall|k: u32| k < (positions.len() as u32) ==> #[trigger] has_pos(positions, k);
    let f = forall|k: u32| k < (fields.len() as u32) ==> #[trigger] gives_pos(st, fields, k);
    assert(e == f) by {
        if e {
            assert forall|k: u32| k < (fields.len() as u32) implies #[trigger] gives_pos(st, fields, k) by {
                assert(has_pos(positions, k));
            }
        }
        if f {
            assert forall|k: u32| k < (positions.len() as u32) implies #[trigger] has_pos(positions, k) by {
                assert(gives_pos(st, fields, k));
            }
        }
    }
}

impl<'a> TemplateSerializer<'a> {
    fn write_func(
        &mut self,
        arg: &RcParsedType,
        ret: &RcParsedType,
        prop: FuncProperties,
        variance: Variance,
        Ghost(parent): Ghost<ParsedTypeHead>,
    ) -> (r: Result<(), ICE>)
        requires
            parent == ParsedTypeHead::Func(*arg, *ret, prop),
            !(ser_func(interned(*old(self).strings), **arg, **ret, prop, variance, old(self).rec_hashes@) is Stuck),
        ensures
            final(self).strings == old(self).strings,
            outcome_matches(
                ser_func(interned(*old(self).strings), **arg, **ret, prop, variance, old(self).rec_hashes@),
                r,
                old(self).s@,
                final(self).s@,
                final(self).rec_hashes@,
            ),
        decreases parent, 4nat,
    {
        let ghost st = interned(*self.strings);
        let ghost t0 = self.rec_hashes@;
        proof {
            match parent {
                ParsedTypeHead::Func(a, b, _) => {
                    assert(decreases_to!(parent => a));
                    assert(decreases_to!(a => a.1));
                    assert(decreases_to!(parent => b));
                    assert(decreases_to!(b => b.1));
                },
                _ => {},
            }
        }
        let r1 = self.write_template_node(&(**arg).1, variance.flip());
        if r1.is_err() {
            return r1;
        }
        if prop.is_identity {
            self.w(" => ");
        } else {
            self.w(" -> ");
        }
        let r2 = self.write_template_node(&(**ret).1, variance);
        proof {
            reveal_strlit(" => ");
            reveal_strlit(" -> ");
            if let Serialized::Text(x, t1) = ser_node(st, head(arg), variance.flipped(), t0) {
                if let Serialized::Text(y, t2) = ser_node(st, head(ret), variance, t1) {
                    assert(self.s@ =~= old(self).s@ + (x + arrow_text(prop) + y));
                }
            }
        }
        r2
    }

    #[verifier::spinoff_prover]
    #[verifier::rlimit(60)]
    fn write_field(&mut self, f: &(StringId, (Span, VarianceInvPair)), variance: Variance) -> (r: Result<(), ICE>)
        requires
            !(ser_field(interned(*old(self).strings), *f, variance, old(self).rec_hashes@) is Stuck),
        ensures
            final(self).strings == old(self).strings,
            outcome_matches(
                ser_field(interned(*old(self).strings), *f, variance, old(self).rec_hashes@),
                r,
                old(self).s@,
                final(self).s@,
                final(self).rec_hashes@,
            ),
        decreases *f, 0nat,
    {
        proof {
            lemma_field_unfold(interned(*self.strings), *f, variance, self.rec_hashes@);
        }
        let ghost st = interned(*self.strings);
        let ghost t0 = self.rec_hashes@;
        proof {
            reveal_strlit(": ");
            reveal_strlit("mut ");
            reveal_strlit(" <- ");
        }
        match &f.1.1 {
            VarianceInvPair::Co(t) => {
                self.wstr(f.0);
                self.w(": ");
                let r = self.write_template_node(&(**t).1, variance);
                proof {
                    if r is Ok {
                        assert(self.s@ =~= old(self).s@ + (key_text(st, f.0) + ": "@ + ser_node(
                            st,
                            head(t),
                            variance,
                            t0,
                        )->Text_0));
                    }
                }
                r
            },
            VarianceInvPair::Contra(_) => Err(ice()),
            VarianceInvPair::InvSingle(t) => {
                self.w("mut ");
                self.wstr(f.0);
                self.w(": ");
                let r = self.write_template_node(&(**t).1, Variance::Invariant);
                proof {
                    if r is Ok {
                        assert(self.s@ =~= old(self).s@ + ("mut "@ + key_text(st, f.0) + ": "@ + ser_node(
                            st,
                            head(t),
                            Variance::Invariant,
                            t0,
                        )->Text_0));
                    }
                }
                r
            },
            VarianceInvPair::InvPair(rd, wt) => {
                self.w("mut ");
                self.wstr(f.0);
                self.w(": ");
                let r = self.write_template_node(&(**rd).1, variance);
                if r.is_err() {
                    return r;
                }
                let ghost t1 = self.rec_hashes@;
                let ghost s1 = self.s@;
                self.w(" <- ");
                let r = self.write_template_node(&(**wt).1, variance.flip());
                proof {
                    if r is Ok {
                        let x = ser_node(st, head(rd), variance, t0)->Text_0;
                        let y = ser_node(st, head(wt), variance.flipped(), t1)->Text_0;
                        assert(self.s@ =~= old(self).s@ + ("mut "@ + key_text(st, f.0) + ": "@ + x + " <- "@ + y));
                    }
                }
                r
            },
        }
    }

    fn write_fields(
        &mut self,
        w: &mut SepListWriter,
        fields: &Vec<(StringId, (Span, VarianceInvPair))>,
        variance: Variance,
        Ghost(lead): Ghost<bool>,
        Ghost(parent): Ghost<ParsedTypeHead>,
    ) -> (r: Result<(), ICE>)
        requires
            parent is Record,
            parent->Record_0 == *fields,
            old(w).sep == "; ",
            old(w).first == !lead,
            !(ser_fields(interned(*old(self).strings), fields@, fields@.len(), variance, old(self).rec_hashes@, lead) is Stuck),
        ensures
            final(self).strings == old(self).strings,
            final(w).sep == "; ",
            r is Ok ==> final(w).first == (!lead && fields@.len() == 0),
            outcome_matches(
                ser_fields(interned(*old(self).strings), fields@, fields@.len(), variance, old(self).rec_hashes@, lead),
                r,
                old(self).s@,
                final(self).s@,
                final(self).rec_hashes@,
            ),
        decreases parent, 3nat,
    {
        proof {
            lemma_lists_zero(interned(*self.strings), Seq::empty(), fields@, Seq::empty(), Seq::empty(), variance, self.rec_hashes@, lead);
        }
        let ghost st = interned(*self.strings);
        let ghost t0 = self.rec_hashes@;
        let ghost start = self.s@;
        let mut j: usize = 0;
        while j < fields.len()
            invariant
                parent is Record,
                parent->Record_0 == *fields,
                self.strings == old(self).strings,
                st == interned(*self.strings),
                t0 == old(self).rec_hashes@,
                j <= fields@.len(),
                w.sep == "; ",
                w.first == (!lead && j == 0),
                !(ser_fields(st, fields@, fields@.len(), variance, t0, lead) is Stuck),
                ser_fields(st, fields@, j as nat, variance, t0, lead) is Text,
                self.s@ == start + ser_fields(st, fields@, j as nat, variance, t0, lead)->Text_0,
                self.rec_hashes@ == ser_fields(st, fields@, j as nat, variance, t0, lead)->Text_1,
            decreases fields@.len() - j,
        {
            let ghost tj = self.rec_hashes@;
            proof {
                lemma_fields_step(st, fields@, (j + 1) as nat, variance, t0, lead);
                reveal_strlit("; ");
                broadcast use vstd::std_specs::vec::axiom_vec_index_decreases;

                assert(decreases_to!(*fields => fields[j as int]));
                match parent {
                    ParsedTypeHead::Record(fs, _, _) => {
                        assert(decreases_to!(parent => fs));
                        assert(fs == *fields);
                        assert(decreases_to!(parent => fields[j as int]));
                    },
                    _ => {},
                }
                if !(ser_fields(st, fields@, (j + 1) as nat, variance, t0, lead) is Text) {
                    lemma_fields_stop(st, fields@, (j + 1) as nat, fields@.len(), variance, t0, lead);
                }
            }
            w.next(self);
            let r = self.write_field(&fields[j], variance);
            if r.is_err() {
                proof {
                    lemma_fields_stop(st, fields@, (j + 1) as nat, fields@.len(), variance, t0, lead);
                }
                return r;
            }
            j = j + 1;
            proof {
                let x = ser_fields(st, fields@, (j - 1) as nat, variance, t0, lead)->Text_0;
                let sep = if j > 1 || lead {
                    "; "@
                } else {
                    Seq::<char>::empty()
                };
                let y = ser_field(st, fields@[j - 1], variance, tj)->Text_0;
                assert(self.s@ =~= start + (x + sep + y));
            }
        }
        Ok(())
    }

    fn write_aliases(
        &mut self,
        w: &mut SepListWriter,
        aliases: &Vec<(StringId, (Span, (RcParsedType, KindVar)))>,
        Ghost(lead): Ghost<bool>,
        Ghost(parent): Ghost<ParsedTypeHead>,
    ) -> (r: Result<(), ICE>)
        requires
            parent is Record,
            parent->Record_1 == *aliases,
            old(w).sep == "; ",
            old(w).first == !lead,
            !(ser_aliases(interned(*old(self).strings), aliases@, aliases@.len(), old(self).rec_hashes@, lead) is Stuck),
        ensures
            final(self).strings == old(self).strings,
            outcome_matches(
                ser_aliases(interned(*old(self).strings), aliases@, aliases@.len(), old(self).rec_hashes@, lead),
                r,
                old(self).s@,
                final(self).s@,
                final(self).rec_hashes@,
            ),
        decreases parent, 3nat,
    {
        proof {
            lemma_lists_zero(interned(*self.strings), Seq::empty(), Seq::empty(), aliases@, Seq::empty(), Variance::Invariant, self.rec_hashes@, lead);
        }
        let ghost st = interned(*self.strings);
        let ghost t0 = self.rec_hashes@;
        let ghost start = self.s@;
        let mut k: usize = 0;
        while k < aliases.len()
            invariant
                self.strings == old(self).strings,
                st == interned(*self.strings),
                t0 == old(self).rec_hashes@,
                parent is Record,
                parent->Record_1 == *aliases,
                k <= aliases@.len(),
                w.sep == "; ",
                w.first == (!lead && k == 0),
                !(ser_aliases(st, aliases@, aliases@.len(), t0, lead) is Stuck),
                ser_aliases(st, aliases@, k as nat, t0, lead) is Text,
                self.s@ == start + ser_aliases(st, aliases@, k as nat, t0, lead)->Text_0,
                self.rec_hashes@ == ser_aliases(st, aliases@, k as nat, t0, lead)->Text_1,
            decreases aliases@.len() - k,
        {
            let ghost tk = self.rec_hashes@;
            proof {
                lemma_aliases_step(st, aliases@, (k + 1) as nat, t0, lead);
                reveal_strlit("; ");
                reveal_strlit("alias ");
                reveal_strlit(": ");
                broadcast use vstd::std_specs::vec::axiom_vec_index_decreases;

                assert(decreases_to!(*aliases => aliases[k as int]));
                if !(ser_aliases(st, aliases@, (k + 1) as nat, t0, lead) is Text) {
                    lemma_aliases_stop(st, aliases@, (k + 1) as nat, aliases@.len(), t0, lead);
                }
            }
            w.next(self);
            self.w("alias ");
            self.wstr(aliases[k].0);
            self.w(": ");
            let r = self.write_template_node(&(*aliases[k].1.1.0).1, Variance::Invariant);
            if r.is_err() {
                proof {
                    lemma_aliases_stop(st, aliases@, (k + 1) as nat, aliases@.len(), t0, lead);
                }
                return r;
            }
            k = k + 1;
            proof {
                let x = ser_aliases(st, aliases@, (k - 1) as nat, t0, lead)->Text_0;
                let sep = if k > 1 || lead {
                    "; "@
                } else {
                    Seq::<char>::empty()
                };
                assert(self.s@ =~= start + (x + sep + "alias "@ + key_text(st, aliases@[k - 1].0) + ": "@ + ser_node(
                    st,
                    (*aliases@[k - 1].1.1.0).1,
                    Variance::Invariant,
                    tk,
                )->Text_0));
            }
        }
        Ok(())
    }

    fn write_record(
        &mut self,
        poly_params: &Vec<(SKind, StringId)>,
        fields: &Vec<(StringId, (Span, VarianceInvPair))>,
        aliases: &Vec<(StringId, (Span, (RcParsedType, KindVar)))>,
        variance: Variance,
        Ghost(parent): Ghost<ParsedTypeHead>,
    ) -> (r: Result<(), ICE>)
        requires
            parent is Record,
            parent->Record_0 == *fields,
            parent->Record_1 == *aliases,
            !(ser_record(interned(*old(self).strings), poly_params@, fields@, aliases@, variance, old(self).rec_hashes@) is Stuck),
        ensures
            final(self).strings == old(self).strings,
            outcome_matches(
                ser_record(interned(*old(self).strings), poly_params@, fields@, aliases@, variance, old(self).rec_hashes@),
                r,
                old(self).s@,
                final(self).s@,
                final(self).rec_hashes@,
            ),
        decreases parent, 4nat,
    {
        let ghost st = interned(*self.strings);
        let ghost t0 = self.rec_hashes@;
        let ghost np = poly_params@.len();
        proof {
            reveal_strlit("{");
            reveal_strlit("; ");
            reveal_strlit("type ");
            reveal_strlit("}");
        }
        self.w("{");
        let ghost start = self.s@;
        let mut w = SepListWriter::new("; ");
        let mut i: usize = 0;
        while i < poly_params.len()
            invariant
                self.strings == old(self).strings,
                st == interned(*self.strings),
                t0 == old(self).rec_hashes@,
                self.rec_hashes@ == t0,
                i <= poly_params@.len(),
                np == poly_params@.len(),
                w.sep == "; ",
                w.first == (i == 0),
                record_params_text(st, poly_params@, np) is Some,
                record_params_text(st, poly_params@, i as nat) is Some,
                self.s@ == start + record_params_text(st, poly_params@, i as nat)->0,
            decreases poly_params@.len() - i,
        {
            proof {
                lemma_record_params_prefix(st, poly_params@, i as nat, np);
                lemma_record_params_prefix(st, poly_params@, (i + 1) as nat, np);
            }
            w.next(self);
            self.w("type ");
            self.wstr(poly_params[i].1);
            self.write_kind(&poly_params[i].0.0);
            i = i + 1;
            proof {
                let prev = record_params_text(st, poly_params@, (i - 1) as nat)->0;
                let sep = if i > 1 {
                    "; "@
                } else {
                    Seq::<char>::empty()
                };
                assert(self.s@ =~= start + (prev + sep + "type "@ + key_text(st, poly_params@[i - 1].1) + kind_text(
                    poly_params@[i - 1].0.0@,
                )));
            }
        }
        let ghost s1 = self.s@;
        let ghost lead = np > 0;
        let r = self.write_fields(&mut w, fields, variance, Ghost(lead), Ghost(parent));
        if r.is_err() {
            return r;
        }
        let ghost s2 = self.s@;
        let ghost t2 = self.rec_hashes@;
        let ghost lead2 = np > 0 || fields@.len() > 0;
        let r = self.write_aliases(&mut w, aliases, Ghost(lead2), Ghost(parent));
        if r.is_err() {
            return r;
        }
        self.w("}");
        proof {
            let x = record_params_text(st, poly_params@, np)->0;
            let y = ser_fields(st, fields@, fields@.len(), variance, t0, np > 0)->Text_0;
            let z = ser_aliases(st, aliases@, aliases@.len(), t2, np > 0 || fields@.len() > 0)->Text_0;
            assert(self.s@ =~= old(self).s@ + ("{"@ + x + y + z + "}"@));
        }
        Ok(())
    }

    fn write_tuple(
        &mut self,
        fields: &Vec<(StringId, (Span, VarianceInvPair))>,
        positions: &Vec<Option<u32>>,
        variance: Variance,
        Ghost(parent): Ghost<ParsedTypeHead>,
    ) -> (r: Result<(), ICE>)
        requires
            parent is Record,
            parent->Record_0 == *fields,
            tuple_shaped(interned(*old(self).strings), fields@, parent->Record_1@),
            positions@.len() == fields@.len(),
            forall|i: int| 0 <= i < fields@.len() ==> positions@[i] == tuple_pos(interned(*old(self).strings), fields@, i),
            !(ser_tuple(interned(*old(self).strings), fields@, (fields@.len() as u32) as nat, variance, old(self).rec_hashes@) is Stuck),
        ensures
            final(self).strings == old(self).strings,
            outcome_matches(
                wrap("("@, ser_tuple(interned(*old(self).strings), fields@, (fields@.len() as u32) as nat, variance, old(self).rec_hashes@), ")"@),
                r,
                old(self).s@,
                final(self).s@,
                final(self).rec_hashes@,
            ),
        decreases parent, 4nat,
    {
        proof {
            lemma_lists_zero(interned(*self.strings), Seq::empty(), fields@, Seq::empty(), Seq::empty(), variance, self.rec_hashes@, false);
        }
        let ghost st = interned(*self.strings);
        let ghost t0 = self.rec_hashes@;
        proof {
            reveal_strlit("(");
            reveal_strlit(")");
            reveal_strlit(", ");
        }
        self.w("(");
        let ghost start = self.s@;
        let n = fields.len() as u32;
        let mut w = SepListWriter::new(", ");
        let mut k: u32 = 0;
        while k < n
            invariant
                self.strings == old(self).strings,
                st == interned(*self.strings),
                t0 == old(self).rec_hashes@,
                parent is Record,
                parent->Record_0 == *fields,
                tuple_shaped(st, fields@, parent->Record_1@),
                positions@.len() == fields@.len(),
                forall|i: int| 0 <= i < fields@.len() ==> positions@[i] == tuple_pos(st, fields@, i),
                n == (fields@.len() as u32),
                k <= n,
                w.sep == ", ",
                w.first == (k == 0),
                !(ser_tuple(st, fields@, n as nat, variance, t0) is Stuck),
                ser_tuple(st, fields@, k as nat, variance, t0) is Text,
                self.s@ == start + ser_tuple(st, fields@, k as nat, variance, t0)->Text_0,
                self.rec_hashes@ == ser_tuple(st, fields@, k as nat, variance, t0)->Text_1,
            decreases n - k,
        {
            let ghost tk = self.rec_hashes@;
            proof {
                lemma_tuple_step(st, fields@, (k + 1) as nat, variance, t0);
                reveal_strlit(", ");
                if !(ser_tuple(st, fields@, (k + 1) as nat, variance, t0) is Text) {
                    lemma_tuple_stop(st, fields@, (k + 1) as nat, n as nat, variance, t0);
                }
                assert(gives_pos(st, fields@, k));
            }
            w.next(self);
            let j = match find_tuple_pos(positions, k) {
                Some(j) => j,
                None => {
                    proof {
                        let c = choose|i: int| 0 <= i < fields@.len() && tuple_pos(st, fields@, i) == Some(k);
                        assert(positions@[c] == Some(k));
                    }
                    return Err(ice());
                },
            };
            proof {
                let c = tuple_field_at(st, fields@, k);
                assert(0 <= c < fields@.len() && tuple_pos(st, fields@, c) == Some(k));
                assert(tuple_pos(st, fields@, j as int) == Some(k));
                assert(c == j);
                broadcast use vstd::std_specs::vec::axiom_vec_index_decreases;

                assert(decreases_to!(*fields => fields[j as int]));
            }
            match &fields[j].1.1 {
                VarianceInvPair::Co(t) => {
                    let r = self.write_template_node(&(**t).1, variance);
                    if r.is_err() {
                        proof {
                            lemma_tuple_stop(st, fields@, (k + 1) as nat, n as nat, variance, t0);
                        }
                        return r;
                    }
                    proof {
                        let x = ser_tuple(st, fields@, k as nat, variance, t0)->Text_0;
                        let sep = if k > 0 {
                            ", "@
                        } else {
                            Seq::<char>::empty()
                        };
                        let y = ser_node(st, head(t), variance, tk)->Text_0;
                        assert(self.s@ =~= start + (x + sep + y));
                    }
                },
                _ => {
                    proof {
                        assert(tuple_pos(st, fields@, j as int) is Some);
                    }
                    return Err(ice());
                },
            }
            k = k + 1;
        }
        self.w(")");
        proof {
            let x = ser_tuple(st, fields@, n as nat, variance, t0)->Text_0;
            assert(self.s@ =~= old(self).s@ + ("("@ + x + ")"@));
        }
        Ok(())
    }

    fn write_cases(
        &mut self,
        branches: &Vec<(StringId, (Span, RcParsedType))>,
        variance: Variance,
        Ghost(parent): Ghost<ParsedTypeHead>,
    ) -> (r: Result<(), ICE>)
        requires
            parent is Case,
            parent->Case_0 == *branches,
            !(ser_cases(interned(*old(self).strings), branches@, branches@.len(), variance, old(self).rec_hashes@) is Stuck),
        ensures
            final(self).strings == old(self).strings,
            outcome_matches(
                wrap("["@, ser_cases(interned(*old(self).strings), branches@, branches@.len(), variance, old(self).rec_hashes@), "]"@),
                r,
                old(self).s@,
                final(self).s@,
                final(self).rec_hashes@,
            ),
        decreases parent, 4nat,
    {
        proof {
            lemma_lists_zero(interned(*self.strings), branches@, Seq::empty(), Seq::empty(), Seq::empty(), variance, self.rec_hashes@, false);
        }
        let ghost st = interned(*self.strings);
        let ghost t0 = self.rec_hashes@;
        proof {
            reveal_strlit("[");
            reveal_strlit("]");
            reveal_strlit(" | ");
            reveal_strlit("`");
            reveal_strlit(" ");
        }
        self.w("[");
        let ghost start = self.s@;
        let mut w = SepListWriter::new(" | ");
        let mut i: usize = 0;
        while i < branches.len()
            invariant
                self.strings == old(self).strings,
                st == interned(*self.strings),
                t0 == old(self).rec_hashes@,
                parent is Case,
                parent->Case_0 == *branches,
                i <= branches@.len(),
                w.sep == " | ",
                w.first == (i == 0),
                !(ser_cases(st, branches@, branches@.len(), variance, t0) is Stuck),
                ser_cases(st, branches@, i as nat, variance, t0) is Text,
                self.s@ == start + ser_cases(st, branches@, i as nat, variance, t0)->Text_0,
                self.rec_hashes@ == ser_cases(st, branches@, i as nat, variance, t0)->Text_1,
            decreases branches@.len() - i,
        {
            let ghost ti = self.rec_hashes@;
            proof {
                lemma_cases_step(st, branches@, (i + 1) as nat, variance, t0);
                reveal_strlit(" | ");
                reveal_strlit("`");
                reveal_strlit(" ");
                broadcast use vstd::std_specs::vec::axiom_vec_index_decreases;

                assert(decreases_to!(*branches => branches[i as int]));
                if !(ser_cases(st, branches@, (i + 1) as nat, variance, t0) is Text) {
                    lemma_cases_stop(st, branches@, (i + 1) as nat, branches@.len(), variance, t0);
                }
            }
            w.next(self);
            self.w("`");
            self.wstr(branches[i].0);
            self.w(" ");
            let ghost sb = self.s@;
            proof {
                let x0 = ser_cases(st, branches@, i as nat, variance, t0)->Text_0;
                let sep0 = if i > 0 {
                    " | "@
                } else {
                    Seq::<char>::empty()
                };
                assert(sb =~= start + (x0 + sep0 + seq!['`'] + key_text(st, branches@[i as int].0) + seq![' ']));
            }
            let r = self.write_template_node(&(*branches[i].1.1).1, variance);
            if r.is_err() {
                proof {
                    assert(!(ser_node(st, (*branches@[i as int].1.1).1, variance, ti) is Text));
                    assert(!(ser_cases(st, branches@, (i + 1) as nat, variance, t0) is Text));
                    lemma_cases_stop(st, branches@, (i + 1) as nat, branches@.len(), variance, t0);
                    assert(ser_cases(st, branches@, branches@.len(), variance, t0) is Ice);
                }
                return r;
            }
            proof {
                assert(self.s@ == sb + ser_node(st, (*branches@[i as int].1.1).1, variance, ti)->Text_0);
            }
            i = i + 1;
            proof {
                let x = ser_cases(st, branches@, (i - 1) as nat, variance, t0)->Text_0;
                let sep = if i > 1 {
                    " | "@
                } else {
                    Seq::<char>::empty()
                };
                assert(self.s@ =~= start + (x + sep + seq!['`'] + key_text(st, branches@[i - 1].0) + seq![' '] + ser_node(
                    st,
                    (*branches@[i - 1].1.1).1,
                    variance,
                    ti,
                )->Text_0));
            }
        }
        self.w("]");
        proof {
            let x = ser_cases(st, branches@, branches@.len(), variance, t0)->Text_0;
            assert(self.s@ =~= old(self).s@ + ("["@ + x + "]"@));
        }
        Ok(())
    }

    #[verifier::spinoff_prover]
    #[verifier::rlimit(60)]
    fn write_param(&mut self, p: &VarianceInvPair, variance: Variance) -> (r: Result<(), ICE>)
        requires
            !(ser_param(interned(*old(self).strings), *p, variance, old(self).rec_hashes@) is Stuck),
        ensures
            final(self).strings == old(self).strings,
            outcome_matches(
                ser_param(interned(*old(self).strings), *p, variance, old(self).rec_hashes@),
                r,
                old(self).s@,
                final(self).s@,
                final(self).rec_hashes@,
            ),
        decreases *p, 0nat,
    {
        proof {
            lemma_param_unfold(interned(*self.strings), *p, variance, self.rec_hashes@);
        }
        let ghost st = interned(*self.strings);
        let ghost t0 = self.rec_hashes@;
        match p {
            VarianceInvPair::Co(t) => self.write_template_node(&(**t).1, variance),
            VarianceInvPair::Contra(t) => self.write_template_node(&(**t).1, variance.flip()),
            VarianceInvPair::InvSingle(t) => self.write_template_node(&(**t).1, Variance::Invariant),
            VarianceInvPair::InvPair(rd, wt) => {
                let r = self.write_template_node(&(**rd).1, variance);
                if r.is_err() {
                    return r;
                }
                let ghost t1 = self.rec_hashes@;
                self.w(" <- ");
                let r = self.write_template_node(&(**wt).1, variance.flip());
                proof {
                    reveal_strlit(" <- ");
                    if r is Ok {
                        let x = ser_node(st, head(rd), variance, t0)->Text_0;
                        let y = ser_node(st, head(wt), variance.flipped(), t1)->Text_0;
                        assert(self.s@ =~= old(self).s@ + (x + " <- "@ + y));
                    }
                }
                r
            },
        }
    }

    fn write_params(&mut self, params: &Vec<VarianceInvPair>, variance: Variance, Ghost(parent): Ghost<ParsedTypeHead>) -> (r: Result<(), ICE>)
        requires
            parent is Constructor,
            parent->Constructor_2 == *params,
            !(ser_params(interned(*old(self).strings), params@, params@.len(), variance, old(self).rec_hashes@) is Stuck),
        ensures
            final(self).strings == old(self).strings,
            outcome_matches(
                wrap("["@, ser_params(interned(*old(self).strings), params@, params@.len(), variance, old(self).rec_hashes@), "]"@),
                r,
                old(self).s@,
                final(self).s@,
                final(self).rec_hashes@,
            ),
        decreases parent, 4nat,
    {
        proof {
            lemma_lists_zero(interned(*self.strings), Seq::empty(), Seq::empty(), Seq::empty(), params@, variance, self.rec_hashes@, false);
        }
        let ghost st = interned(*self.strings);
        let ghost t0 = self.rec_hashes@;
        proof {
            reveal_strlit("[");
            reveal_strlit("]");
            reveal_strlit("; ");
        }
        self.w("[");
        let ghost start = self.s@;
        let mut w = SepListWriter::new("; ");
        let mut i: usize = 0;
        while i < params.len()
            invariant
                self.strings == old(self).strings,
                st == interned(*self.strings),
                t0 == old(self).rec_hashes@,
                parent is Constructor,
                parent->Constructor_2 == *params,
                i <= params@.len(),
                w.sep == "; ",
                w.first == (i == 0),
                !(ser_params(st, params@, params@.len(), variance, t0) is Stuck),
                ser_params(st, params@, i as nat, variance, t0) is Text,
                self.s@ == start + ser_params(st, params@, i as nat, variance, t0)->Text_0,
                self.rec_hashes@ == ser_params(st, params@, i as nat, variance, t0)->Text_1,
            decreases params@.len() - i,
        {
            let ghost ti = self.rec_hashes@;
            proof {
                lemma_params_step(st, params@, (i + 1) as nat, variance, t0);
                reveal_strlit("; ");
                broadcast use vstd::std_specs::vec::axiom_vec_index_decreases;

                assert(decreases_to!(*params => params[i as int]));
                if !(ser_params(st, params@, (i + 1) as nat, variance, t0) is Text) {
                    lemma_params_stop(st, params@, (i + 1) as nat, params@.len(), variance, t0);
                }
            }
            w.next(self);
            let r = self.write_param(&params[i], variance);
            if r.is_err() {
                proof {
                    lemma_params_stop(st, params@, (i + 1) as nat, params@.len(), variance, t0);
                }
                return r;
            }
            i = i + 1;
            proof {
                let x = ser_params(st, params@, (i - 1) as nat, variance, t0)->Text_0;
                let sep = if i > 1 {
                    "; "@
                } else {
                    Seq::<char>::empty()
                };
                let y = ser_param(st, params@[i - 1], variance, ti)->Text_0;
                assert(self.s@ =~= start + (x + sep + y));
            }
        }
        self.w("]");
        proof {
            let y = ser_params(st, params@, params@.len(), variance, t0)->Text_0;
            assert(self.s@ =~= old(self).s@ + ("["@ + y + "]"@));
        }
        Ok(())
    }

    #[verifier::rlimit(40)]
    fn write_rec_head(&mut self, rh: &crate::templates::RecHeadData, variance: Variance, Ghost(parent): Ghost<ParsedTypeHead>) -> (r: Result<(), ICE>)
        requires
            parent == ParsedTypeHead::RecHead(*rh),
            !(ser_node(interned(*old(self).strings), parent, variance, old(self).rec_hashes@) is Stuck),
        ensures
            final(self).strings == old(self).strings,
            outcome_matches(
                ser_node(interned(*old(self).strings), parent, variance, old(self).rec_hashes@),
                r,
                old(self).s@,
                final(self).s@,
                final(self).rec_hashes@,
            ),
        decreases parent, 4nat,
    {
        let ghost st = interned(*self.strings);
        let ghost t0 = self.rec_hashes@;
        proof {
            lemma_node_unfold(st, parent, variance, t0);
            reveal_strlit("rec #r");
            reveal_strlit(" = ");
            assert(decreases_to!(parent => rh.body.1));
        }
        let id = self.rec_hashes.len() as u32;
        match rec_find(&self.rec_hashes, rh.loc) {
            Some(j) => {
                self.rec_hashes.set(j, (rh.loc, id));
                proof {
                    assert(rec_pos(t0, rh.loc, 0) == Some(j as nat));
                    assert(self.rec_hashes@ =~= rec_insert(t0, rh.loc, id));
                }
            },
            None => {
                self.rec_hashes.push((rh.loc, id));
                proof {
                    assert(rec_pos(t0, rh.loc, 0) is None);
                    assert(self.rec_hashes@ =~= rec_insert(t0, rh.loc, id));
                }
            },
        }
        proof {
            assert(self.rec_hashes@ == rec_insert(t0, rh.loc, id));
        }
        self.w("rec #r");
        push_decimal(&mut self.s, id as usize);
        self.w(" = ");
        let body_variance = if rh.rec_contravariantly {
            Variance::Invariant
        } else {
            variance
        };
        let r = self.write_template_node(&(*rh.body).1, body_variance);
        proof {
            match ser_node(st, head(&rh.body), body_variance, rec_insert(t0, rh.loc, id)) {
                Serialized::Text(x, t1) => {
                    assert(self.s@ =~= old(self).s@ + ("rec #r"@ + decimal(id as nat) + " = "@ + x));
                },
                _ => {},
            }
        }
        r
    }

    #[verifier::rlimit(40)]
    fn write_template_node(&mut self, node: &ParsedTypeHead, variance: Variance) -> (r: Result<(), ICE>)
        requires
            !(ser_node(interned(*old(self).strings), *node, variance, old(self).rec_hashes@) is Stuck),
        ensures
            final(self).strings == old(self).strings,
            outcome_matches(
                ser_node(interned(*old(self).strings), *node, variance, old(self).rec_hashes@),
                r,
                old(self).s@,
                final(self).s@,
                final(self).rec_hashes@,
            ),
        decreases node, 5nat,
    {
        let ghost st = interned(*self.strings);
        let ghost t0 = self.rec_hashes@;
        proof {
            lemma_node_unfold(st, *node, variance, t0);
        }
        match node {
            ParsedTypeHead::Case(branches) => {
                proof {
                    assert(ser_node(st, *node, variance, t0) == wrap("["@, ser_cases(st, branches@, branches@.len(), variance, t0), "]"@));
                }
                self.write_cases(branches, variance, Ghost(*node))
            },
            ParsedTypeHead::Func(arg, ret, prop) => {
                proof {
                    reveal_strlit("(");
                    reveal_strlit(")");
                }
                self.w("(");
                let r = self.write_func(arg, ret, *prop, variance, Ghost(*node));
                if r.is_err() {
                    return r;
                }
                self.w(")");
                proof {
                    let x = ser_node(st, head(arg), variance.flipped(), t0)->Text_0;
                    let t1 = ser_node(st, head(arg), variance.flipped(), t0)->Text_1;
                    let y = ser_node(st, head(ret), variance, t1)->Text_0;
                    assert(self.s@ =~= old(self).s@ + ("("@ + x + arrow_text(*prop) + y + ")"@));
                }
                Ok(())
            },
            ParsedTypeHead::Record(fields, aliases, _) => {
                let positions = tuple_positions(self.strings, fields);
                let shaped = check_tuple_shape(&positions, aliases.len());
                proof {
                    lemma_shape_matches(st, fields@, aliases@, positions@);
                }
                if shaped {
                    self.write_tuple(fields, &positions, variance, Ghost(*node))
                } else {
                    let empty: Vec<(SKind, StringId)> = Vec::new();
                    proof {
                        reveal_strlit("{");
                        reveal_strlit("}");
                        assert(record_params_text(st, empty@, 0) == Some(Seq::<char>::empty()));
                        match ser_fields(st, fields@, fields@.len(), variance, t0, false) {
                            Serialized::Text(x, t1) => {
                                assert("{"@ + Seq::<char>::empty() + x =~= "{"@ + x);
                            },
                            _ => {},
                        }
                        assert(ser_record(st, empty@, fields@, aliases@, variance, t0) == ser_node(st, *node, variance, t0));
                    }
                    self.write_record(&empty, fields, aliases, variance, Ghost(*node))
                }
            },
            ParsedTypeHead::Constructor(con, _, params) => {
                let r = self.write_template_node(&(**con).1, variance);
                if r.is_err() {
                    return r;
                }
                let ghost s1 = self.s@;
                let ghost t1 = self.rec_hashes@;
                let r = self.write_params(params, variance, Ghost(*node));
                proof {
                    reveal_strlit("[");
                    reveal_strlit("]");
                    if r is Ok {
                        let x = ser_node(st, head(con), variance, t0)->Text_0;
                        let y = ser_params(st, params@, params@.len(), variance, t1)->Text_0;
                        assert(self.s@ =~= old(self).s@ + (x + "["@ + y + "]"@));
                    }
                }
                r
            },
            ParsedTypeHead::RecHead(rh) => self.write_rec_head(rh, variance, Ghost(*node)),
            ParsedTypeHead::RecVar(loc) => {
                match rec_find(&self.rec_hashes, *loc) {
                    Some(j) => {
                        proof {
                            reveal_strlit("#r");
                        }
                        self.w("#r");
                        let id = self.rec_hashes[j].1;
                        push_decimal(&mut self.s, id as usize);
                        proof {
                            assert(self.s@ =~= old(self).s@ + ("#r"@ + decimal(id as nat)));
                        }
                        Ok(())
                    },
                    None => Err(ice()),
                }
            },
            ParsedTypeHead::SpineParam(i) => {
                push_char(&mut self.s, '#');
                push_decimal(&mut self.s, *i);
                proof {
                    assert(self.s@ =~= old(self).s@ + (seq!['#'] + decimal(*i as nat)));
                }
                Ok(())
            },
            ParsedTypeHead::SpinePolyVar(names) => {
                match names {
                    NamePair::Single(name) => {
                        self.wstr(*name);
                    },
                    NamePair::Pair(name1, name2) => {
                        match variance {
                            Variance::Covariant => {
                                self.wstr(*name1);
                            },
                            Variance::Contravariant => {
                                self.wstr(*name2);
                            },
                            Variance::Invariant => {
                                self.wstr(*name1);
                                push_char(&mut self.s, '/');
                                self.wstr(*name2);
                                proof {
                                    assert(self.s@ =~= old(self).s@ + (key_text(st, *name1) + seq!['/'] + key_text(st, *name2)));
                                }
                            },
                        }
                    },
                }
                Ok(())
            },
            _ => Err(ice()),
        }
    }
}


/// A key that stands for the structure of a spine template, so that two
/// templates compare equal exactly when their keys do.
pub type SpineStructureKey = String;

/// What a spine template is: a function type or a record type.
pub enum SpineContents {
    Func(RcParsedType),
    Record(RcParsedType),
}

/// A type constructor made from a polymorphic function or record type: its
/// template, the kind of the parameters it takes, and its polymorphic
/// parameters sorted by name.
pub struct SpineConstructor {
    pub template: SpineContents,
    pub template_kind: Kind,
    pub poly_params: Vec<(SKind, StringId)>,
}

/// The text of the key of a spine: `[T; U]. A -> B` for a function template
/// and `{type T; a: A}` for a record one, followed by ` as ` and the kind of
/// its parameters when it takes any.
pub open spec fn key_spec(s: Seq<Seq<char>>, sc: SpineConstructor) -> Serialized {
    let body = match sc.template {
        SpineContents::Func(tree) => match func_params_text(s, sc.poly_params@, sc.poly_params@.len()) {
            Some(x) => match (*tree).1 {
                ParsedTypeHead::Func(a, r, p) => prepend(
                    seq!['['] + x + "]. "@,
                    ser_func(s, *a, *r, p, Variance::Covariant, Seq::empty()),
                ),
                _ => Serialized::Ice,
            },
            None => Serialized::Stuck,
        },
        SpineContents::Record(tree) => match (*tree).1 {
            ParsedTypeHead::Record(fs, als, _) => ser_record(
                s,
                sc.poly_params@,
                fs@,
                als@,
                Variance::Covariant,
                Seq::empty(),
            ),
            _ => Serialized::Ice,
        },
    };
    match body {
        Serialized::Text(x, t) => Serialized::Text(
            x + (if sc.template_kind@ is Arrow {
                " as "@ + kind_text(sc.template_kind@)
            } else {
                Seq::empty()
            }),
            t,
        ),
        o => o,
    }
}

impl SpineConstructor {
    /// The key of the spine's structure: the text `key_spec` gives, or an
    /// internal error where the template holds a node that cannot stand in it.
    pub fn to_key(&self, strings: &lasso::Rodeo) -> (r: Result<SpineStructureKey, ICE>)
        requires
            !(key_spec(interned(*strings), *self) is Stuck),
        ensures
            match key_spec(interned(*strings), *self) {
                Serialized::Text(x, _) => r is Ok && r->Ok_0@ == x,
                _ => r is Err,
            },
    {
        let ghost st = interned(*strings);
        let mut out = TemplateSerializer::new(strings);
        proof {
            reveal_strlit("[");
            reveal_strlit("]. ");
            reveal_strlit("; ");
            reveal_strlit(" as ");
        }
        match &self.template {
            SpineContents::Func(tree) => {
                let ghost np = self.poly_params@.len();
                out.w("[");
                let mut w = SepListWriter::new("; ");
                let mut i: usize = 0;
                while i < self.poly_params.len()
                    invariant
                        out.strings == strings,
                        st == interned(*strings),
                        out.rec_hashes@ == Seq::<(SourceLoc, u32)>::empty(),
                        i <= self.poly_params@.len(),
                        np == self.poly_params@.len(),
                        w.sep == "; ",
                        w.first == (i == 0),
                        func_params_text(st, self.poly_params@, np) is Some,
                        func_params_text(st, self.poly_params@, i as nat) is Some,
                        out.s@ == seq!['['] + func_params_text(st, self.poly_params@, i as nat)->0,
                    decreases self.poly_params@.len() - i,
                {
                    proof {
                        reveal_strlit("; ");
                        lemma_func_params_prefix(st, self.poly_params@, i as nat, np);
                        lemma_func_params_prefix(st, self.poly_params@, (i + 1) as nat, np);
                    }
                    w.next(&mut out);
                    out.wstr(self.poly_params[i].1);
                    out.write_kind(&self.poly_params[i].0.0);
                    i = i + 1;
                    proof {
                        let prev = func_params_text(st, self.poly_params@, (i - 1) as nat)->0;
                        let sep = if i > 1 {
                            "; "@
                        } else {
                            Seq::<char>::empty()
                        };
                        assert(out.s@ =~= seq!['['] + (prev + sep + key_text(st, self.poly_params@[i - 1].1) + kind_text(
                            self.poly_params@[i - 1].0.0@,
                        )));
                    }
                }
                out.w("]. ");
                match &tree.1 {
                    ParsedTypeHead::Func(arg, ret, prop) => {
                        let ghost before = out.s@;
                        let r = out.write_func(arg, ret, *prop, Variance::Covariant, Ghost(head(tree)));
                        if r.is_err() {
                            return Err(ice());
                        }
                        proof {
                            let x = func_params_text(st, self.poly_params@, self.poly_params@.len())->0;
                            assert(before =~= seq!['['] + x + "]. "@);
                            assert(out.s@ =~= seq!['['] + x + "]. "@ + ser_func(
                                st,
                                **arg,
                                **ret,
                                *prop,
                                Variance::Covariant,
                                Seq::empty(),
                            )->Text_0);
                        }
                    },
                    _ => {
                        return Err(ice());
                    },
                }
            },
            SpineContents::Record(tree) => {
                match &tree.1 {
                    ParsedTypeHead::Record(fields, aliases, _) => {
                        let r = out.write_record(&self.poly_params, fields, aliases, Variance::Covariant, Ghost(head(tree)));
                        if r.is_err() {
                            return Err(ice());
                        }
                    },
                    _ => {
                        return Err(ice());
                    },
                }
            },
        }
        let ghost body = out.s@;
        match &self.template_kind {
            Kind::Arrow(params) => {
                out.w(" as ");
                out.write_tycon_kind(params);
                proof {
                    assert(self.template_kind@->Arrow_0 =~= crate::ast::types::params_view(params@));
                    assert(out.s@ =~= body + (" as "@ + kind_text(self.template_kind@)));
                }
            },
            Kind::Star => {
                proof {
                    assert(out.s@ =~= body + Seq::<char>::empty());
                }
            },
        }
        Ok(out.s)
    }

    /// What the spine makes: a function or a record.
    pub fn get_category(&self) -> (r: CoercionTargetCategory)
        ensures
            r == (match self.template {
                SpineContents::Func(_) => CoercionTargetCategory::Func,
                SpineContents::Record(_) => CoercionTargetCategory::Record,
            }),
    {
        match self.template {
            SpineContents::Func(..) => CoercionTargetCategory::Func,
            SpineContents::Record(..) => CoercionTargetCategory::Record,
        }
    }
}


/// Whether a leaf depends on the definition site `current_level`: a
/// recursive variable defined from that site down to the innermost recursive
/// type `top_rec`, or a temporary variable defined at that site.
pub open spec fn leaf_depends(l: Leaf, current_level: SourceLoc, top_rec: SourceLoc) -> bool {
    match l.kind {
        LeafKind::RecVar(loc) => current_level.0 <= loc.0 <= top_rec.0,
        LeafKind::TempPolyVar(loc, _) => loc == current_level,
        _ => false,
    }
}

/// A tree depends on the site `cur` inside the recursive type `top` exactly when
/// one of its leaves is a recursive variable defined from `cur` down to `top`,
/// the innermost recursive type included, or a temporary variable of `cur`.
pub proof fn law_deps_leaves(t: ParsedType, cur: SourceLoc, top: SourceLoc)
    ensures
        deps(t, cur, top) <==> exists|i: int|
            0 <= i < leaves(t, Variance::Covariant).len() && {
                let k = (#[trigger] leaves(t, Variance::Covariant)[i]).kind;
                ||| (k matches LeafKind::RecVar(l) && cur.0 <= l.0 && l.0 <= top.0)
                ||| (k matches LeafKind::TempPolyVar(l, _) && l == cur)
            },
{
}

/// Whether some leaf of `tree` depends on the definition site `current_level`.
pub fn has_current_level_deps(tree: &RcParsedType, current_level: SourceLoc, top_rec: SourceLoc) -> (r: bool)
    ensures
        r == deps(**tree, current_level, top_rec),
        r == exists|i: int|
            0 <= i < leaves(**tree, Variance::Covariant).len() && leaf_depends(
                #[trigger] leaves(**tree, Variance::Covariant)[i],
                current_level,
                top_rec,
            ),
{
    let ls = template_leaves(&**tree);
    let mut i: usize = 0;
    while i < ls.len()
        invariant
            ls@ == leaves(**tree, Variance::Covariant),
            i <= ls@.len(),
            forall|j: int| 0 <= j < i ==> !leaf_depends(#[trigger] ls@[j], current_level, top_rec),
        decreases ls@.len() - i,
    {
        let dep = match ls[i].kind {
            LeafKind::RecVar(loc) => current_level.0 <= loc.0 && loc.0 <= top_rec.0,
            LeafKind::TempPolyVar(loc, _) => loc == current_level,
            _ => false,
        };
        if dep {
            proof {
                assert(leaf_depends(ls@[i as int], current_level, top_rec));
            }
            return true;
        }
        i = i + 1;
    }
    false
}

/// A parameter of a spine as the builder collects it: the variance and kind of
/// its position, and the subtree it stands for.
pub type ParamEntry = (Variance, crate::ast::types::KindView, ParsedType);

/// Whether `t` depends on the definition site `cur`, inside the recursive type `top`.
pub open spec fn deps(t: ParsedType, cur: SourceLoc, top: SourceLoc) -> bool {
    exists|i: int|
        0 <= i < leaves(t, Variance::Covariant).len() && leaf_depends(#[trigger] leaves(t, Variance::Covariant)[i], cur, top)
}

/// The spine parameters collected from `t`, after those in `acc`: each
/// maximal subtree that does not depend on the site `cur`, in walk order, with
/// the variance `v` and kind `k` of its position; `top` is the innermost
/// recursive type around it.
pub open spec fn spine_params(t: ParsedType, v: Variance, k: crate::ast::types::KindView, top: SourceLoc, cur: SourceLoc, acc: Seq<ParamEntry>) -> Seq<ParamEntry>
    decreases t, 0nat,
{
    if !deps(t, cur, top) {
        acc.push((v, k, t))
    } else {
        match t.1 {
            ParsedTypeHead::Case(bs) => sp_cases(bs@, bs@.len(), v, k, top, cur, acc),
            ParsedTypeHead::Func(a, r, _) => spine_params(*r, v, k, top, cur, spine_params(*a, v.flipped(), k, top, cur, acc)),
            ParsedTypeHead::Record(fs, als, _) => sp_aliases(als@, als@.len(), k, top, cur, sp_fields(fs@, fs@.len(), v, k, top, cur, acc)),
            ParsedTypeHead::Constructor(c, ck, ps) => sp_params(
                ps@,
                if ps@.len() <= ck.0@.params().len() {
                    ps@.len()
                } else {
                    ck.0@.params().len()
                },
                v,
                ck.0@.params(),
                top,
                cur,
                spine_params(*c, v, ck.0@, top, cur, acc),
            ),
            ParsedTypeHead::RecHead(r) => spine_params(*r.body, rec_body_variance(r, v), k, r.loc, cur, acc),
            _ => acc,
        }
    }
}

/// The spine parameters of a parameter position.
pub open spec fn sp_pair(p: VarianceInvPair, v: Variance, k: crate::ast::types::KindView, top: SourceLoc, cur: SourceLoc, acc: Seq<ParamEntry>) -> Seq<ParamEntry>
    decreases p, 0nat,
{
    match p {
        VarianceInvPair::Co(x) => spine_params(*x, v, k, top, cur, acc),
        VarianceInvPair::Contra(x) => spine_params(*x, v.flipped(), k, top, cur, acc),
        VarianceInvPair::InvSingle(x) => spine_params(*x, Variance::Invariant, k, top, cur, acc),
        VarianceInvPair::InvPair(x, y) => spine_params(*y, v.flipped(), k, top, cur, spine_params(*x, v, k, top, cur, acc)),
    }
}

/// The spine parameters of the first `n` cases.
pub open spec fn sp_cases(bs: Seq<(StringId, (Span, RcParsedType))>, n: nat, v: Variance, k: crate::ast::types::KindView, top: SourceLoc, cur: SourceLoc, acc: Seq<ParamEntry>) -> Seq<ParamEntry>
    decreases bs, n,
{
    if n == 0 || n > bs.len() {
        acc
    } else {
        spine_params(*bs[n - 1].1.1, v, k, top, cur, sp_cases(bs, (n - 1) as nat, v, k, top, cur, acc))
    }
}

/// The spine parameters of the first `n` record fields.
pub open spec fn sp_fields(fs: Seq<(StringId, (Span, VarianceInvPair))>, n: nat, v: Variance, k: crate::ast::types::KindView, top: SourceLoc, cur: SourceLoc, acc: Seq<ParamEntry>) -> Seq<ParamEntry>
    decreases fs, n,
{
    if n == 0 || n > fs.len() {
        acc
    } else {
        sp_pair(fs[n - 1].1.1, v, k, top, cur, sp_fields(fs, (n - 1) as nat, v, k, top, cur, acc))
    }
}

/// The spine parameters of the first `n` type aliases, in invariant positions.
pub open spec fn sp_aliases(als: Seq<(StringId, (Span, (RcParsedType, KindVar)))>, n: nat, k: crate::ast::types::KindView, top: SourceLoc, cur: SourceLoc, acc: Seq<ParamEntry>) -> Seq<ParamEntry>
    decreases als, n,
{
    if n == 0 || n > als.len() {
        acc
    } else {
        spine_params(*als[n - 1].1.1.0, Variance::Invariant, k, top, cur, sp_aliases(als, (n - 1) as nat, k, top, cur, acc))
    }
}

/// The spine parameters of the first `n` constructor parameters, each at the
/// kind its constructor gives it.
pub open spec fn sp_params(ps: Seq<VarianceInvPair>, n: nat, v: Variance, kps: Seq<crate::ast::types::ParamView>, top: SourceLoc, cur: SourceLoc, acc: Seq<ParamEntry>) -> Seq<ParamEntry>
    decreases ps, n,
{
    if n == 0 || n > ps.len() || n > kps.len() {
        acc
    } else {
        sp_pair(ps[n - 1], v, kps[n - 1].kind, top, cur, sp_params(ps, (n - 1) as nat, v, kps, top, cur, acc))
    }
}

/// A leaf after the spine is built: a temporary variable of the site `cur`
/// becomes a spine variable.
pub open spec fn spine_leaf(h: ParsedTypeHead, cur: SourceLoc) -> ParsedTypeHead {
    match h {
        ParsedTypeHead::TempPolyVar(loc, names) => if loc == cur {
            ParsedTypeHead::SpinePolyVar(names)
        } else {
            h
        },
        _ => h,
    }
}

/// Whether `b` is the template the builder makes of `a`, with the parameters
/// `acc` collected before: a subtree that does not depend on `cur` becomes
/// the next spine parameter; otherwise the node keeps its kind, names, spans
/// and kinds, its children are related in walk order, and its leaves are
/// rewritten by `spine_leaf`.
pub open spec fn spine_rel(a: ParsedType, b: ParsedType, v: Variance, k: crate::ast::types::KindView, top: SourceLoc, cur: SourceLoc, acc: Seq<ParamEntry>) -> bool
    decreases a, 0nat,
{
    if !deps(a, cur, top) {
        b == (a.0, ParsedTypeHead::SpineParam(acc.len() as usize))
    } else {
        &&& a.0 == b.0
        &&& match (a.1, b.1) {
            (ParsedTypeHead::Case(xs), ParsedTypeHead::Case(ys)) => {
                &&& xs@.len() == ys@.len()
                &&& forall|i: int|
                    0 <= i < xs@.len() ==> {
                        &&& (#[trigger] ys@[i]).0 == xs@[i].0
                        &&& ys@[i].1.0 == xs@[i].1.0
                        &&& spine_rel(*xs@[i].1.1, *ys@[i].1.1, v, k, top, cur, sp_cases(xs@, i as nat, v, k, top, cur, acc))
                    }
            },
            (ParsedTypeHead::Func(x1, x2, p), ParsedTypeHead::Func(y1, y2, q)) => {
                &&& p == q
                &&& spine_rel(*x1, *y1, v.flipped(), k, top, cur, acc)
                &&& spine_rel(*x2, *y2, v, k, top, cur, spine_params(*x1, v.flipped(), k, top, cur, acc))
            },
            (ParsedTypeHead::Record(xs, xal, xe), ParsedTypeHead::Record(ys, yal, ye)) => {
                &&& xe@ == ye@
                &&& xs@.len() == ys@.len()
                &&& forall|i: int|
                    0 <= i < xs@.len() ==> {
                        &&& (#[trigger] ys@[i]).0 == xs@[i].0
                        &&& ys@[i].1.0 == xs@[i].1.0
                        &&& spine_pair_rel(xs@[i].1.1, ys@[i].1.1, v, k, top, cur, sp_fields(xs@, i as nat, v, k, top, cur, acc))
                    }
                &&& xal@.len() == yal@.len()
                &&& forall|i: int|
                    0 <= i < xal@.len() ==> {
                        &&& (#[trigger] yal@[i]).0 == xal@[i].0
                        &&& yal@[i].1.0 == xal@[i].1.0
                        &&& yal@[i].1.1.1@ == xal@[i].1.1.1@
                        &&& spine_rel(
                            *xal@[i].1.1.0,
                            *yal@[i].1.1.0,
                            Variance::Invariant,
                            k,
                            top,
                            cur,
                            sp_aliases(xal@, i as nat, k, top, cur, sp_fields(xs@, xs@.len(), v, k, top, cur, acc)),
                        )
                    }
            },
            (ParsedTypeHead::Constructor(xc, xk, xps), ParsedTypeHead::Constructor(yc, yk, yps)) => {
                &&& xk.0@ == yk.0@
                &&& xk.1 == yk.1
                &&& spine_rel(*xc, *yc, v, xk.0@, top, cur, acc)
                &&& xps@.len() == yps@.len()
                &&& forall|i: int|
                    0 <= i < xps@.len() ==> if i < xk.0@.params().len() {
                        spine_pair_rel(
                            #[trigger] xps@[i],
                            yps@[i],
                            v,
                            xk.0@.params()[i].kind,
                            top,
                            cur,
                            sp_params(xps@, i as nat, v, xk.0@.params(), top, cur, spine_params(*xc, v, xk.0@, top, cur, acc)),
                        )
                    } else {
                        yps@[i] == xps@[i]
                    }
            },
            (ParsedTypeHead::RecHead(x), ParsedTypeHead::RecHead(y)) => {
                &&& x.loc == y.loc
                &&& x.rec_contravariantly == y.rec_contravariantly
                &&& spine_rel(*x.body, *y.body, rec_body_variance(x, v), k, x.loc, cur, acc)
            },
            (h, g) => !is_inner(h) && g == spine_leaf(h, cur),
        }
    }
}

/// `spine_rel` for a parameter position.
pub open spec fn spine_pair_rel(p: VarianceInvPair, q: VarianceInvPair, v: Variance, k: crate::ast::types::KindView, top: SourceLoc, cur: SourceLoc, acc: Seq<ParamEntry>) -> bool
    decreases p, 0nat,
{
    match (p, q) {
        (VarianceInvPair::Co(x), VarianceInvPair::Co(y)) => spine_rel(*x, *y, v, k, top, cur, acc),
        (VarianceInvPair::Contra(x), VarianceInvPair::Contra(y)) => spine_rel(*x, *y, v.flipped(), k, top, cur, acc),
        (VarianceInvPair::InvSingle(x), VarianceInvPair::InvSingle(y)) => spine_rel(*x, *y, Variance::Invariant, k, top, cur, acc),
        (VarianceInvPair::InvPair(x1, x2), VarianceInvPair::InvPair(y1, y2)) => spine_rel(*x1, *y1, v, k, top, cur, acc)
            && spine_rel(*x2, *y2, v.flipped(), k, top, cur, spine_params(*x1, v, k, top, cur, acc)),
        _ => false,
    }
}

/// The parameters a spine builder collected, as values.
pub open spec fn entries_view(ps: Seq<(Variance, Kind, RcParsedType)>) -> Seq<ParamEntry> {
    ps.map_values(|e: (Variance, Kind, RcParsedType)| (e.0, e.1@, *e.2))
}

/// A copy of a parameter position that shares its types.
fn copy_pair(p: &VarianceInvPair) -> (r: VarianceInvPair)
    ensures
        r == *p,
{
    match p {
        VarianceInvPair::Co(x) => VarianceInvPair::Co(share(x)),
        VarianceInvPair::Contra(x) => VarianceInvPair::Contra(share(x)),
        VarianceInvPair::InvSingle(x) => VarianceInvPair::InvSingle(share(x)),
        VarianceInvPair::InvPair(x, y) => VarianceInvPair::InvPair(share(x), share(y)),
    }
}

/// Builds the template of a spine: it replaces each maximal subtree that does
/// not depend on the definition site being made polymorphic by a parameter.
struct SpineBuilder {
    current_level: SourceLoc,
    template_params: Vec<(Variance, Kind, RcParsedType)>,
}

impl SpineBuilder {
    /// The parameters collected so far, as values.
    spec fn entries(&self) -> Seq<ParamEntry> {
        entries_view(self.template_params@)
    }

    /// A subtree that does not depend on the site becomes the next parameter:
    /// the builder keeps the subtree and gives back the parameter node.
    fn visit_preorder(&mut self, tree: &RcParsedType, v: Variance, k: &Kind, top: SourceLoc) -> (r: Option<RcParsedType>)
        ensures
            final(self).current_level == old(self).current_level,
            !deps(**tree, old(self).current_level, top) ==> r == Some(
                Rc::new(((**tree).0, ParsedTypeHead::SpineParam(old(self).entries().len() as usize))),
            ) && final(self).entries() == old(self).entries().push((v, k@, **tree)),
            deps(**tree, old(self).current_level, top) ==> r is None && final(self).entries() == old(self).entries(),
    {
        if !has_current_level_deps(tree, self.current_level, top) {
            let index = self.template_params.len();
            let ghost before = self.template_params@;
            self.template_params.push((v, k.clone(), share(tree)));
            proof {
                assert(self.template_params@.drop_last() =~= before);
                assert(entries_view(self.template_params@) =~= entries_view(before).push((v, k@, **tree)));
            }
            return Some(Rc::new((tree.0, ParsedTypeHead::SpineParam(index))));
        }
        None
    }

    /// A leaf after the walk: a temporary variable of the site becomes a spine variable.
    fn visit_postorder(&self, h: &ParsedTypeHead) -> (r: ParsedTypeHead)
        requires
            !is_inner(*h),
        ensures
            r == spine_leaf(*h, self.current_level),
    {
        match h {
            ParsedTypeHead::TempPolyVar(loc, names) => {
                if *loc == self.current_level {
                    ParsedTypeHead::SpinePolyVar(*names)
                } else {
                    ParsedTypeHead::TempPolyVar(*loc, *names)
                }
            },
            ParsedTypeHead::RecVar(l) => ParsedTypeHead::RecVar(*l),
            ParsedTypeHead::Type(p) => ParsedTypeHead::Type(*p),
            ParsedTypeHead::Any => ParsedTypeHead::Any,
            ParsedTypeHead::Never => ParsedTypeHead::Never,
            ParsedTypeHead::SpinePolyVar(n) => ParsedTypeHead::SpinePolyVar(*n),
            ParsedTypeHead::SpineParam(i) => ParsedTypeHead::SpineParam(*i),
            _ => ParsedTypeHead::Any,
        }
    }

    /// The template made of `t`, at variance `v` and kind `k`, inside the
    /// recursive type `top`.
    #[verifier::rlimit(60)]
    fn walk_sub(&mut self, t: &RcParsedType, v: Variance, k: &Kind, top: SourceLoc) -> (r: RcParsedType)
        ensures
            final(self).current_level == old(self).current_level,
            spine_rel(**t, *r, v, k@, top, old(self).current_level, old(self).entries()),
            final(self).entries() == spine_params(**t, v, k@, top, old(self).current_level, old(self).entries()),
        decreases **t,
    {
        let ghost cur = self.current_level;
        let ghost e0 = self.entries();
        match self.visit_preorder(t, v, k, top) {
            Some(r) => {
                return r;
            },
            None => {},
        }
        match &t.1 {
            ParsedTypeHead::Case(bs) => {
                let mut out: Vec<(StringId, (Span, RcParsedType))> = Vec::new();
                let mut i: usize = 0;
                while i < bs.len()
                    invariant
                        t.1 is Case,
                        t.1->Case_0 == *bs,
                        self.current_level == cur,
                        i <= bs@.len(),
                        out@.len() == i,
                        self.entries() == sp_cases(bs@, i as nat, v, k@, top, cur, e0),
                        forall|j: int|
                            0 <= j < i ==> {
                                &&& (#[trigger] out@[j]).0 == bs@[j].0
                                &&& out@[j].1.0 == bs@[j].1.0
                                &&& spine_rel(*bs@[j].1.1, *out@[j].1.1, v, k@, top, cur, sp_cases(bs@, j as nat, v, k@, top, cur, e0))
                            },
                    decreases bs@.len() - i,
                {
                    proof {
                        broadcast use vstd::std_specs::vec::axiom_vec_index_decreases;

                        assert(decreases_to!(*bs => bs[i as int]));
                    }
                    let child = self.walk_sub(&bs[i].1.1, v, k, top);
                    out.push((bs[i].0, (bs[i].1.0, child)));
                    i = i + 1;
                }
                Rc::new((t.0, ParsedTypeHead::Case(out)))
            },
            ParsedTypeHead::Func(a, r, p) => {
                let a2 = self.walk_sub(a, v.flip(), k, top);
                let r2 = self.walk_sub(r, v, k, top);
                Rc::new((t.0, ParsedTypeHead::Func(a2, r2, *p)))
            },
            ParsedTypeHead::Record(fs, als, extra) => {
                let mut fs2: Vec<(StringId, (Span, VarianceInvPair))> = Vec::new();
                let mut i: usize = 0;
                while i < fs.len()
                    invariant
                        t.1 is Record,
                        t.1->Record_0 == *fs,
                        self.current_level == cur,
                        i <= fs@.len(),
                        fs2@.len() == i,
                        self.entries() == sp_fields(fs@, i as nat, v, k@, top, cur, e0),
                        forall|j: int|
                            0 <= j < i ==> {
                                &&& (#[trigger] fs2@[j]).0 == fs@[j].0
                                &&& fs2@[j].1.0 == fs@[j].1.0
                                &&& spine_pair_rel(fs@[j].1.1, fs2@[j].1.1, v, k@, top, cur, sp_fields(fs@, j as nat, v, k@, top, cur, e0))
                            },
                    decreases fs@.len() - i,
                {
                    proof {
                        broadcast use vstd::std_specs::vec::axiom_vec_index_decreases;

                        assert(decreases_to!(*fs => fs[i as int]));
                    }
                    let p2 = self.walk_pair(&fs[i].1.1, v, k, top);
                    fs2.push((fs[i].0, (fs[i].1.0, p2)));
                    i = i + 1;
                }
                let ghost e1 = self.entries();
                let mut als2: Vec<(StringId, (Span, (RcParsedType, KindVar)))> = Vec::new();
                let mut j: usize = 0;
                while j < als.len()
                    invariant
                        t.1 is Record,
                        t.1->Record_1 == *als,
                        self.current_level == cur,
                        j <= als@.len(),
                        als2@.len() == j,
                        self.entries() == sp_aliases(als@, j as nat, k@, top, cur, e1),
                        forall|m: int|
                            0 <= m < j ==> {
                                &&& (#[trigger] als2@[m]).0 == als@[m].0
                                &&& als2@[m].1.0 == als@[m].1.0
                                &&& als2@[m].1.1.1@ == als@[m].1.1.1@
                                &&& spine_rel(*als@[m].1.1.0, *als2@[m].1.1.0, Variance::Invariant, k@, top, cur, sp_aliases(als@, m as nat, k@, top, cur, e1))
                            },
                    decreases als@.len() - j,
                {
                    proof {
                        broadcast use vstd::std_specs::vec::axiom_vec_index_decreases;

                        assert(decreases_to!(*als => als[j as int]));
                    }
                    let tree2 = self.walk_sub(&als[j].1.1.0, Variance::Invariant, k, top);
                    let kv = als[j].1.1.1.clone();
                    als2.push((als[j].0, (als[j].1.0, (tree2, kv))));
                    j = j + 1;
                }
                let mut extra2: Vec<(StringId, crate::vec_index::TyConDefInd)> = Vec::new();
                let mut n: usize = 0;
                while n < extra.len()
                    invariant
                        n <= extra@.len(),
                        extra2@ == extra@.subrange(0, n as int),
                    decreases extra@.len() - n,
                {
                    extra2.push(extra[n]);
                    n = n + 1;
                    proof {
                        assert(extra2@ =~= extra@.subrange(0, n as int));
                    }
                }
                proof {
                    assert(extra2@ =~= extra@);
                }
                Rc::new((t.0, ParsedTypeHead::Record(fs2, als2, extra2)))
            },
            ParsedTypeHead::Constructor(c, ck, ps) => {
                let c2 = self.walk_sub(c, v, &ck.0, top);
                let ghost e1 = self.entries();
                let kps = ck.0.params();
                let ghost kv = ck.0@.params();
                let mut ps2: Vec<VarianceInvPair> = Vec::new();
                let mut i: usize = 0;
                while i < ps.len()
                    invariant
                        t.1 is Constructor,
                        t.1->Constructor_1 == *ck,
                        t.1->Constructor_2 == *ps,
                        kv == ck.0@.params(),
                        crate::ast::types::params_view(kps@) == kv,
                        self.current_level == cur,
                        i <= ps@.len(),
                        ps2@.len() == i,
                        self.entries() == sp_params(ps@, if i <= kv.len() { i as nat } else { kv.len() }, v, kv, top, cur, e1),
                        forall|j: int|
                            0 <= j < i ==> if j < kv.len() {
                                spine_pair_rel(#[trigger] ps@[j], ps2@[j], v, kv[j].kind, top, cur, sp_params(ps@, j as nat, v, kv, top, cur, e1))
                            } else {
                                ps2@[j] == ps@[j]
                            },
                    decreases ps@.len() - i,
                {
                    proof {
                        broadcast use vstd::std_specs::vec::axiom_vec_index_decreases;

                        assert(decreases_to!(*ps => ps[i as int]));
                    }
                    if i < kps.len() {
                        proof {
                            assert(kv[i as int].kind == kps@[i as int].kind.0@);
                        }
                        let p2 = self.walk_pair(&ps[i], v, &kps[i].kind.0, top);
                        ps2.push(p2);
                    } else {
                        let p2 = copy_pair(&ps[i]);
                        ps2.push(p2);
                    }
                    i = i + 1;
                }
                Rc::new((t.0, ParsedTypeHead::Constructor(c2, (ck.0.clone(), ck.1), ps2)))
            },
            ParsedTypeHead::RecHead(rh) => {
                let position = if rh.rec_contravariantly {
                    Variance::Invariant
                } else {
                    v
                };
                let body = self.walk_sub(&rh.body, position, k, rh.loc);
                Rc::new((t.0, ParsedTypeHead::RecHead(RecHeadData { loc: rh.loc, rec_contravariantly: rh.rec_contravariantly, body })))
            },
            _ => Rc::new((t.0, self.visit_postorder(&t.1))),
        }
    }

    /// The template made of a parameter position.
    fn walk_pair(&mut self, p: &VarianceInvPair, v: Variance, k: &Kind, top: SourceLoc) -> (r: VarianceInvPair)
        ensures
            final(self).current_level == old(self).current_level,
            spine_pair_rel(*p, r, v, k@, top, old(self).current_level, old(self).entries()),
            final(self).entries() == sp_pair(*p, v, k@, top, old(self).current_level, old(self).entries()),
        decreases *p,
    {
        match p {
            VarianceInvPair::Co(x) => VarianceInvPair::Co(self.walk_sub(x, v, k, top)),
            VarianceInvPair::Contra(x) => VarianceInvPair::Contra(self.walk_sub(x, v.flip(), k, top)),
            VarianceInvPair::InvSingle(x) => VarianceInvPair::InvSingle(self.walk_sub(x, Variance::Invariant, k, top)),
            VarianceInvPair::InvPair(x, y) => {
                let x2 = self.walk_sub(x, v, k, top);
                let y2 = self.walk_sub(y, v.flip(), k, top);
                VarianceInvPair::InvPair(x2, y2)
            },
        }
    }
}

/// The tree a shared pointer points to.
pub open spec fn head_tree(t: &RcParsedType) -> ParsedType {
    **t
}

/// The template tree of a spine.
pub open spec fn template_tree(c: SpineContents) -> ParsedType {
    match c {
        SpineContents::Func(t) => *t,
        SpineContents::Record(t) => *t,
    }
}

/// The kind parameter of a spine parameter: its variance and kind, with the
/// span of the subtree it stands for.
pub open spec fn param_kind(e: ParamEntry) -> ParamView {
    ParamView { variance: (e.0, e.2.0), kind: e.1, span: e.2.0 }
}

impl SpineConstructor {
    /// The spine of the polymorphic type `tree` defined at `source_loc`, with
    /// the trees its parameters stand for. Each maximal subtree that does not
    /// depend on the definition site becomes a parameter, and its temporary
    /// variables become spine variables. The template must be a function or a
    /// record; anything else is an internal error.
    pub fn new(source_loc: SourceLoc, tree: RcParsedType, poly_params: Vec<(StringId, Span, SKind)>) -> (r: Result<
        (Self, Vec<RcParsedType>),
        ICE,
    >)
        ensures
            ({
                let es = spine_params(*tree, Variance::Covariant, KindView::Star, source_loc, source_loc, Seq::empty());
                &&& r is Ok <==> (deps(*tree, source_loc, source_loc) && ((*tree).1 is Func || (*tree).1 is Record))
                &&& r matches Ok((sc, pts)) ==> {
                    &&& spine_rel(
                        *tree,
                        template_tree(sc.template),
                        Variance::Covariant,
                        KindView::Star,
                        source_loc,
                        source_loc,
                        Seq::empty(),
                    )
                    &&& (sc.template is Func <==> (*tree).1 is Func)
                    &&& pts@.len() == es.len()
                    &&& forall|i: int| 0 <= i < es.len() ==> *(#[trigger] pts@[i]) == es[i].2
                    &&& (sc.template_kind is Star <==> es.len() == 0)
                    &&& sc.template_kind@.params() == es.map_values(|e: ParamEntry| param_kind(e))
                    &&& sc.poly_params@.len() == poly_params@.len()
                    &&& forall|i: int|
                        0 <= i < poly_params@.len() ==> (#[trigger] sc.poly_params@[i]) == (poly_params@[i].2, poly_params@[i].0)
                }
            }),
    {
        let mut builder = SpineBuilder { current_level: source_loc, template_params: Vec::new() };
        proof {
            assert(builder.entries() =~= Seq::<ParamEntry>::empty());
        }
        let star = Kind::Star;
        let built = builder.walk_sub(&tree, Variance::Covariant, &star, source_loc);
        let ghost es = builder.entries();
        let is_func = match &built.1 {
            ParsedTypeHead::Func(..) => true,
            _ => false,
        };
        let is_record = match &built.1 {
            ParsedTypeHead::Record(..) => true,
            _ => false,
        };
        proof {
            if !deps(head_tree(&tree), source_loc, source_loc) {
                assert(!is_func && !is_record);
            }
        }
        let template = if is_func {
            SpineContents::Func(built)
        } else if is_record {
            SpineContents::Record(built)
        } else {
            return Err(ice());
        };
        let mut entries = builder.template_params;
        let ghost all = entries@;
        let mut param_trees: Vec<RcParsedType> = Vec::new();
        let mut kinds: Vec<SVKind> = Vec::new();
        let ghost mut i: int = 0;
        while entries.len() > 0
            invariant
                es == entries_view(all),
                0 <= i <= all.len(),
                entries@ == all.subrange(i, all.len() as int),
                param_trees@.len() == i,
                kinds@.len() == i,
                forall|j: int| 0 <= j < i ==> *(#[trigger] param_trees@[j]) == es[j].2,
                forall|j: int| 0 <= j < i ==> (#[trigger] kinds@[j]).param_view() == param_kind(es[j]),
            decreases entries@.len(),
        {
            let (variance, kind, t) = entries.remove(0);
            let span = t.0;
            proof {
                assert(all[i] == (variance, kind, t));
                assert(es[i] == (variance, kind@, *t));
            }
            let ghost kv = kind@;
            param_trees.push(t);
            let sv = SVKind::new_implicit(variance, kind, span);
            proof {
                assert(sv.param_view() == param_kind(es[i]));
            }
            kinds.push(sv);
            proof {
                i = i + 1;
                assert(entries@ =~= all.subrange(i, all.len() as int));
            }
        }
        let template_kind = Kind::new(kinds);
        proof {
            assert(crate::ast::types::params_view(kinds@) =~= es.map_values(|e: ParamEntry| param_kind(e)));
        }
        let mut rest = poly_params;
        let ghost ps = rest@;
        let mut pp: Vec<(SKind, StringId)> = Vec::new();
        let ghost mut n: int = 0;
        while rest.len() > 0
            invariant
                0 <= n <= ps.len(),
                rest@ == ps.subrange(n, ps.len() as int),
                pp@.len() == n,
                forall|j: int| 0 <= j < n ==> (#[trigger] pp@[j]) == (ps[j].2, ps[j].0),
            decreases rest@.len(),
        {
            let (name, _span, kind) = rest.remove(0);
            proof {
                assert(ps[n] == (name, _span, kind));
            }
            pp.push((kind, name));
            proof {
                n = n + 1;
                assert(rest@ =~= ps.subrange(n, ps.len() as int));
            }
        }
        let new = SpineConstructor { template, template_kind, poly_params: pp };
        Ok((new, param_trees))
    }
}

/// A type parameter entry as contracts read it: its name, span, and kind by its view.
pub type ParamEntryView = (StringId, Span, KindView, Span);

/// The view of a type parameter entry.
pub open spec fn pview(e: (StringId, Span, SKind)) -> ParamEntryView {
    (e.0, e.1, e.2.0@, e.2.1)
}

/// The name of a type parameter entry.
pub open spec fn pname(e: ParamEntryView) -> StringId {
    e.0
}

/// Sorting entries commutes with taking their views, the name being kept.
proof fn lemma_insert_view(st: Seq<Seq<char>>, sorted: Seq<(StringId, Span, SKind)>, x: (StringId, Span, SKind))
    ensures
        sorted_insert_by(st, sorted, x, |e: (StringId, Span, SKind)| e.0).map_values(|e: (StringId, Span, SKind)| pview(e))
            == sorted_insert_by(st, sorted.map_values(|e: (StringId, Span, SKind)| pview(e)), pview(x), |e: ParamEntryView| pname(e)),
    decreases sorted.len(),
{
    let f = |e: (StringId, Span, SKind)| pview(e);
    let k1 = |e: (StringId, Span, SKind)| e.0;
    let k2 = |e: ParamEntryView| pname(e);
    if sorted.len() == 0 {
        assert(sorted.map_values(f) =~= Seq::<ParamEntryView>::empty());
        assert(seq![x].map_values(f) =~= seq![pview(x)]);
    } else {
        let m = sorted.map_values(f);
        assert(m.last() == pview(sorted.last()));
        assert(m.drop_last() =~= sorted.drop_last().map_values(f));
        if lex_lt(key_text(st, k1(x)), key_text(st, k1(sorted.last()))) {
            lemma_insert_view(st, sorted.drop_last(), x);
            assert(sorted_insert_by(st, sorted.drop_last(), x, k1).push(sorted.last()).map_values(f)
                =~= sorted_insert_by(st, sorted.drop_last(), x, k1).map_values(f).push(pview(sorted.last())));
        } else {
            assert(sorted.push(x).map_values(f) =~= m.push(pview(x)));
        }
    }
}

proof fn lemma_sort_view(st: Seq<Seq<char>>, xs: Seq<(StringId, Span, SKind)>)
    ensures
        stable_sort_by(st, xs, |e: (StringId, Span, SKind)| e.0).map_values(|e: (StringId, Span, SKind)| pview(e))
            == stable_sort_by(st, xs.map_values(|e: (StringId, Span, SKind)| pview(e)), |e: ParamEntryView| pname(e)),
    decreases xs.len(),
{
    let f = |e: (StringId, Span, SKind)| pview(e);
    if xs.len() == 0 {
        assert(xs.map_values(f) =~= Seq::<ParamEntryView>::empty());
        assert(Seq::<(StringId, Span, SKind)>::empty().map_values(f) =~= Seq::<ParamEntryView>::empty());
    } else {
        let m = xs.map_values(f);
        assert(m.last() == pview(xs.last()));
        assert(m.drop_last() =~= xs.drop_last().map_values(f));
        lemma_sort_view(st, xs.drop_last());
        lemma_insert_view(st, stable_sort_by(st, xs.drop_last(), |e: (StringId, Span, SKind)| e.0), xs.last());
    }
}

/// Inserts the entry `x` into `out` after every entry whose name does not come after its name.
fn insert_param(strings: &lasso::Rodeo, out: &mut Vec<(StringId, Span, SKind)>, x: (StringId, Span, SKind))
    requires
        key_valid(interned(*strings), x.0),
        forall|i: int| 0 <= i < old(out)@.len() ==> key_valid(interned(*strings), #[trigger] old(out)@[i].0),
    ensures
        final(out)@ == sorted_insert_by(interned(*strings), old(out)@, x, |e: (StringId, Span, SKind)| e.0),
        forall|i: int| 0 <= i < final(out)@.len() ==> key_valid(interned(*strings), #[trigger] final(out)@[i].0),
{
    let ghost st = interned(*strings);
    let ghost o = out@;
    let ghost k = |e: (StringId, Span, SKind)| e.0;
    let xt = resolve(strings, &x.0);
    let mut p = out.len();
    proof {
        assert(o.subrange(0, p as int) =~= o);
        assert(o.subrange(p as int, o.len() as int) =~= Seq::<(StringId, Span, SKind)>::empty());
        assert(sorted_insert_by(st, o, x, k) =~= sorted_insert_by(st, o.subrange(0, p as int), x, k) + o.subrange(p as int, o.len() as int));
    }
    loop
        invariant
            *out == *old(out),
            o == old(out)@,
            st == interned(*strings),
            k == (|e: (StringId, Span, SKind)| e.0),
            xt@ == key_text(st, x.0),
            p <= o.len(),
            forall|i: int| 0 <= i < o.len() ==> key_valid(st, #[trigger] o[i].0),
            sorted_insert_by(st, o, x, k) == sorted_insert_by(st, o.subrange(0, p as int), x, k) + o.subrange(p as int, o.len() as int),
        ensures
            p <= o.len(),
            sorted_insert_by(st, o, x, k) == sorted_insert_by(st, o.subrange(0, p as int), x, k) + o.subrange(p as int, o.len() as int),
            p == 0 || !lex_lt(key_text(st, x.0), key_text(st, o[p - 1].0)),
        decreases p,
    {
        if p == 0 {
            break;
        }
        let yt = resolve(strings, &out[p - 1].0);
        if !str_lt(xt, yt) {
            break;
        }
        proof {
            let pre = o.subrange(0, p as int);
            assert(pre.drop_last() =~= o.subrange(0, p - 1));
            assert(pre.last() == o[p - 1]);
            assert(sorted_insert_by(st, pre, x, k) == sorted_insert_by(st, o.subrange(0, p - 1), x, k).push(o[p - 1]));
            assert(sorted_insert_by(st, o.subrange(0, p - 1), x, k).push(o[p - 1]) + o.subrange(p as int, o.len() as int)
                =~= sorted_insert_by(st, o.subrange(0, p - 1), x, k) + o.subrange(p - 1, o.len() as int));
        }
        p = p - 1;
    }
    out.insert(p, x);
    proof {
        let pre = o.subrange(0, p as int);
        if p == 0 {
            assert(pre =~= Seq::<(StringId, Span, SKind)>::empty());
        } else {
            assert(pre.last() == o[p - 1]);
            assert(sorted_insert_by(st, pre, x, k) == pre.push(x));
        }
        assert(out@ =~= sorted_insert_by(st, pre, x, k) + o.subrange(p as int, o.len() as int));
        assert(out@ == o.insert(p as int, x));
        assert forall|i: int| 0 <= i < out@.len() implies key_valid(st, #[trigger] out@[i].0) by {
            if i < p {
                assert(out@[i] == o[i]);
            } else if i > p {
                assert(out@[i] == o[i - 1]);
            }
        }
    }
}

/// Collects the type parameters of a definition, each pair parameter as two
/// entries, and rejects a name used twice.
pub struct TypeParamsBuilder(Vec<(StringId, Span, SKind)>, DupNameChecker);

impl TypeParamsBuilder {
    /// The entries collected, in order.
    pub closed spec fn entries(&self) -> Seq<ParamEntryView> {
        self.0@.map_values(|e: (StringId, Span, SKind)| pview(e))
    }

    /// The span recorded for each name seen, by its key.
    pub closed spec fn seen(&self) -> Map<nat, Span> {
        self.1.seen()
    }

    pub closed spec fn wf(&self) -> bool {
        &&& self.1.wf()
        &&& self.1.sort() == "type parameter"@
    }

    /// No parameters yet.
    pub fn new() -> (r: Self)
        ensures
            r.wf(),
            r.entries().len() == 0,
            r.seen() == Map::<nat, Span>::empty(),
    {
        let r = TypeParamsBuilder(Vec::new(), DupNameChecker::new("type parameter"));
        proof {
            assert(r.entries() =~= Seq::<ParamEntryView>::empty());
        }
        r
    }

    /// Adds the parameter `tp`, and its pair name after it where it has one,
    /// with the parameter's span and kind; a name seen before is an error.
    pub fn add(&mut self, tp: &TypeParam) -> (r: Result<(), SpannedError>)
        requires
            old(self).wf(),
        ensures
            final(self).wf(),
            ({
                let s0 = old(self).seen();
                let k1 = key_index(tp.name.0);
                let e1 = (tp.name.0, tp.name.1, tp.kind.0@, tp.kind.1);
                let s1 = s0.insert(k1, tp.name.1);
                if s0.contains_key(k1) {
                    &&& r matches Err(e) && e@ == dup_param_error(tp.name.1, s0[k1])
                    &&& final(self).entries() == old(self).entries()
                    &&& final(self).seen() == s1
                } else {
                    match tp.pair_name {
                        None => {
                            &&& r is Ok
                            &&& final(self).entries() == old(self).entries().push(e1)
                            &&& final(self).seen() == s1
                        },
                        Some(p) => {
                            let k2 = key_index(p);
                            &&& final(self).seen() == s1.insert(k2, tp.name.1)
                            &&& if s1.contains_key(k2) {
                                &&& r matches Err(e) && e@ == dup_param_error(tp.name.1, s1[k2])
                                &&& final(self).entries() == old(self).entries().push(e1)
                            } else {
                                &&& r is Ok
                                &&& final(self).entries() == old(self).entries().push(e1).push(
                                    (p, tp.name.1, tp.kind.0@, tp.kind.1),
                                )
                            }
                        },
                    }
                }
            }),
    {
        let ghost e0 = self.0@;
        proof {
            reveal_strlit("SyntaxError: Repeated ");
            reveal_strlit(" name.");
            reveal_strlit("type parameter");
            reveal_strlit("SyntaxError: Repeated type parameter name.");
            assert("SyntaxError: Repeated "@ + "type parameter"@ + " name."@ =~= "SyntaxError: Repeated type parameter name."@);
        }
        match self.1.add(tp.name.0, tp.name.1) {
            Err(e) => {
                return Err(e);
            },
            Ok(()) => {},
        }
        let k = tp.kind.0.clone();
        self.0.push((tp.name.0, tp.name.1, (k, tp.kind.1)));
        proof {
            assert(self.0@.map_values(|e: (StringId, Span, SKind)| pview(e)) =~= e0.map_values(
                |e: (StringId, Span, SKind)| pview(e),
            ).push((tp.name.0, tp.name.1, tp.kind.0@, tp.kind.1)));
        }
        if let Some(pair_name) = tp.pair_name {
            let ghost e1 = self.0@;
            match self.1.add(pair_name, tp.name.1) {
                Err(e) => {
                    return Err(e);
                },
                Ok(()) => {},
            }
            let k2 = tp.kind.0.clone();
            self.0.push((pair_name, tp.name.1, (k2, tp.kind.1)));
            proof {
                assert(self.0@.map_values(|e: (StringId, Span, SKind)| pview(e)) =~= e1.map_values(
                    |e: (StringId, Span, SKind)| pview(e),
                ).push((pair_name, tp.name.1, tp.kind.0@, tp.kind.1)));
            }
        }
        Ok(())
    }

    /// The parameters sorted by name; parameters of the same name keep their order.
    pub fn finish(self, strings: &lasso::Rodeo) -> (r: SortedTypeParams)
        requires
            forall|i: int| 0 <= i < self.entries().len() ==> key_valid(interned(*strings), #[trigger] self.entries()[i].0),
        ensures
            r.entries() == stable_sort_by(interned(*strings), self.entries(), |e: ParamEntryView| pname(e)),
    {
        let ghost st = interned(*strings);
        let ghost xs = self.0@;
        let ghost k = |e: (StringId, Span, SKind)| e.0;
        proof {
            assert forall|i: int| 0 <= i < xs.len() implies key_valid(st, #[trigger] xs[i].0) by {
                assert(self.entries()[i] == pview(xs[i]));
                assert(key_valid(interned(*strings), self.entries()[i].0));
            }
        }
        let TypeParamsBuilder(mut v, _) = self;
        let mut rev: Vec<(StringId, Span, SKind)> = Vec::new();
        while v.len() > 0
            invariant
                v@ == xs.take(v@.len() as int),
                v@.len() <= xs.len(),
                rev@.len() == xs.len() - v@.len(),
                forall|j: int| 0 <= j < rev@.len() ==> #[trigger] rev@[j] == xs[xs.len() - 1 - j],
            decreases v@.len(),
        {
            let e = v.pop().unwrap();
            rev.push(e);
            proof {
                assert(v@ =~= xs.take(v@.len() as int));
            }
        }
        let mut out: Vec<(StringId, Span, SKind)> = Vec::new();
        proof {
            assert(xs.take(0) =~= Seq::<(StringId, Span, SKind)>::empty());
        }
        while rev.len() > 0
            invariant
                st == interned(*strings),
                k == (|e: (StringId, Span, SKind)| e.0),
                rev@.len() <= xs.len(),
                forall|j: int| 0 <= j < rev@.len() ==> #[trigger] rev@[j] == xs[xs.len() - 1 - j],
                forall|i: int| 0 <= i < xs.len() ==> key_valid(st, #[trigger] xs[i].0),
                out@ == stable_sort_by(st, xs.take(xs.len() - rev@.len()), k),
                forall|i: int| 0 <= i < out@.len() ==> key_valid(st, #[trigger] out@[i].0),
            decreases rev@.len(),
        {
            let ghost n = xs.len() - rev@.len();
            let x = rev.pop().unwrap();
            proof {
                assert(x == xs[n]);
                assert(xs.take(n + 1).drop_last() =~= xs.take(n));
                assert(xs.take(n + 1).last() == xs[n]);
            }
            insert_param(strings, &mut out, x);
        }
        proof {
            assert(xs.take(xs.len() as int) =~= xs);
            lemma_sort_view(st, xs);
        }
        SortedTypeParams(out)
    }
}

/// The error for a type parameter name `span` used before at `prev`.
pub open spec fn dup_param_error(span: Span, prev: Span) -> Seq<PartView> {
    seq![
        PartView::At("SyntaxError: Repeated type parameter name."@, span),
        PartView::At("Note: Conflicts with previous definition here:"@, prev),
    ]
}

/// Type parameters sorted by name.
pub struct SortedTypeParams(pub Vec<(StringId, Span, SKind)>);

impl SortedTypeParams {
    /// The entries, in order.
    pub closed spec fn entries(&self) -> Seq<ParamEntryView> {
        self.0@.map_values(|e: (StringId, Span, SKind)| pview(e))
    }
}

/// The entries that the type parameters `tps` give, in order: each
/// parameter, then its pair name where it has one, with the parameter's span and kind.
pub open spec fn param_entries(tps: Seq<TypeParam>) -> Seq<ParamEntryView>
    decreases tps.len(),
{
    if tps.len() == 0 {
        Seq::empty()
    } else {
        let prev = param_entries(tps.drop_last());
        let tp = tps.last();
        let e1 = (tp.name.0, tp.name.1, tp.kind.0@, tp.kind.1);
        match tp.pair_name {
            None => prev.push(e1),
            Some(p) => prev.push(e1).push((p, tp.name.1, tp.kind.0@, tp.kind.1)),
        }
    }
}

/// The span last given to each name among the entries, by the name's key.
pub open spec fn seen_map(es: Seq<ParamEntryView>) -> Map<nat, Span>
    decreases es.len(),
{
    if es.len() == 0 {
        Map::empty()
    } else {
        seen_map(es.drop_last()).insert(key_index(es.last().0), es.last().1)
    }
}

/// The first entry whose name was given before: its span and the span of the
/// earlier entry of that name.
pub open spec fn first_dup(es: Seq<ParamEntryView>) -> Option<(Span, Span)>
    decreases es.len(),
{
    if es.len() == 0 {
        None
    } else {
        match first_dup(es.drop_last()) {
            Some(d) => Some(d),
            None => {
                let m = seen_map(es.drop_last());
                let k = key_index(es.last().0);
                if m.contains_key(k) {
                    Some((es.last().1, m[k]))
                } else {
                    None
                }
            },
        }
    }
}

proof fn lemma_first_dup_prefix(a: Seq<ParamEntryView>, b: Seq<ParamEntryView>)
    requires
        a.len() <= b.len(),
        b.take(a.len() as int) == a,
        first_dup(a) is Some,
    ensures
        first_dup(b) == first_dup(a),
    decreases b.len(),
{
    if b.len() > a.len() {
        assert(b.drop_last().take(a.len() as int) =~= a);
        lemma_first_dup_prefix(a, b.drop_last());
    } else {
        assert(b =~= a);
    }
}

proof fn lemma_param_entries_prefix(tps: Seq<TypeParam>, j: int)
    requires
        0 <= j <= tps.len(),
    ensures
        param_entries(tps.take(j)).len() <= param_entries(tps).len(),
        param_entries(tps).take(param_entries(tps.take(j)).len() as int) == param_entries(tps.take(j)),
    decreases tps.len(),
{
    if j == tps.len() {
        assert(tps.take(j) =~= tps);
        assert(param_entries(tps).take(param_entries(tps).len() as int) =~= param_entries(tps));
    } else {
        lemma_param_entries_prefix(tps.drop_last(), j);
        assert(tps.drop_last().take(j) =~= tps.take(j));
        let a = param_entries(tps.take(j));
        let m = param_entries(tps.drop_last());
        let b = param_entries(tps);
        assert(tps.drop_last() =~= tps.drop_last());
        assert(b.take(m.len() as int) =~= m);
        assert(b.take(a.len() as int) =~= m.take(a.len() as int));
    }
}

impl SortedTypeParams {
    /// The parameters `tparams`, sorted by name; an error at the first name
    /// given twice.
    pub fn from(tparams: &[TypeParam], strings: &lasso::Rodeo) -> (r: Result<Self, SpannedError>)
        requires
            first_dup(param_entries(tparams@)) is None ==> forall|i: int|
                0 <= i < param_entries(tparams@).len() ==> key_valid(interned(*strings), #[trigger] param_entries(tparams@)[i].0),
        ensures
            match first_dup(param_entries(tparams@)) {
                None => r matches Ok(sp) && sp.entries() == stable_sort_by(
                    interned(*strings),
                    param_entries(tparams@),
                    |e: ParamEntryView| pname(e),
                ),
                Some((a, b)) => r matches Err(e) && e@ == dup_param_error(a, b),
            },
    {
        let mut builder = TypeParamsBuilder::new();
        let mut k: usize = 0;
        proof {
            assert(tparams@.take(0) =~= Seq::<TypeParam>::empty());
        }
        while k < tparams.len()
            invariant
                k <= tparams@.len(),
                builder.wf(),
                builder.entries() == param_entries(tparams@.take(k as int)),
                builder.seen() == seen_map(param_entries(tparams@.take(k as int))),
                first_dup(param_entries(tparams@.take(k as int))) is None,
            decreases tparams@.len() - k,
        {
            let ghost before = builder.entries();
            let tp = &tparams[k];
            let res = builder.add(tp);
            let ghost next = param_entries(tparams@.take(k + 1));
            proof {
                assert(tparams@.take(k + 1).drop_last() =~= tparams@.take(k as int));
                assert(tparams@.take(k + 1).last() == tparams@[k as int]);
                let e1 = (tp.name.0, tp.name.1, tp.kind.0@, tp.kind.1);
                assert(before.push(e1).drop_last() =~= before);
                if let Some(p) = tp.pair_name {
                    assert(before.push(e1).push((p, tp.name.1, tp.kind.0@, tp.kind.1)).drop_last() =~= before.push(e1));
                }
            }
            match res {
                Err(e) => {
                    proof {
                        let e1 = (tp.name.0, tp.name.1, tp.kind.0@, tp.kind.1);
                        let s0 = seen_map(before);
                        let k1 = key_index(tp.name.0);
                        let b1 = before.push(e1);
                        assert(b1.drop_last() =~= before);
                        assert(seen_map(b1) == s0.insert(k1, tp.name.1));
                        if s0.contains_key(k1) {
                            assert(first_dup(b1) == Some((tp.name.1, s0[k1])));
                            if let Some(p) = tp.pair_name {
                                let b2 = b1.push((p, tp.name.1, tp.kind.0@, tp.kind.1));
                                assert(b2.drop_last() =~= b1);
                                assert(first_dup(b2) == first_dup(b1));
                            }
                        } else {
                            assert(first_dup(b1) is None);
                            let p = tp.pair_name->Some_0;
                            let b2 = b1.push((p, tp.name.1, tp.kind.0@, tp.kind.1));
                            assert(b2.drop_last() =~= b1);
                            let s1 = s0.insert(k1, tp.name.1);
                            assert(first_dup(b2) == Some((tp.name.1, s1[key_index(p)])));
                        }
                        assert(first_dup(next) is Some);
                        lemma_param_entries_prefix(tparams@, k + 1);
                        lemma_first_dup_prefix(next, param_entries(tparams@));
                    }
                    return Err(e);
                },
                Ok(()) => {
                    proof {
                        let e1 = (tp.name.0, tp.name.1, tp.kind.0@, tp.kind.1);
                        let s0 = seen_map(before);
                        let k1 = key_index(tp.name.0);
                        let b1 = before.push(e1);
                        assert(b1.drop_last() =~= before);
                        assert(seen_map(b1) == s0.insert(k1, tp.name.1));
                        assert(first_dup(b1) is None);
                        if let Some(p) = tp.pair_name {
                            let b2 = b1.push((p, tp.name.1, tp.kind.0@, tp.kind.1));
                            assert(b2.drop_last() =~= b1);
                            assert(seen_map(b2) == s0.insert(k1, tp.name.1).insert(key_index(p), tp.name.1));
                            assert(first_dup(b2) is None);
                        }
                    }
                },
            }
            k = k + 1;
        }
        proof {
            assert(tparams@.take(k as int) =~= tparams@);
        }
        Ok(builder.finish(strings))
    }
}
} // verus!
