use crate::ast::types::{params_view, Kind, KindView, ParamView, SKind, SVKind, Variance};
use crate::spans::{PartView, Span, SpannedError};
use crate::text::{concat3, decimal, decimal_string, push_char};
use vstd::prelude::*;

verus! {

/// Two kinds are equal when they have the same shape and the same variances,
/// whatever their spans.
pub open spec fn kinds_equal(a: KindView, b: KindView) -> bool
    decreases a,
{
    match a {
        KindView::Star => b is Star,
        KindView::Arrow(l) => match b {
            KindView::Star => false,
            KindView::Arrow(r) => l.len() == r.len() && forall|i: int|
                0 <= i < l.len() ==> (#[trigger] l[i]).variance.0 == r[i].variance.0 && kinds_equal(
                    l[i].kind,
                    r[i].kind,
                ),
        },
    }
}

pub fn kinds_are_equal(a: &Kind, b: &Kind) -> (r: bool)
    ensures
        r == kinds_equal(a@, b@),
    decreases a,
{
    match (a, b) {
        (Kind::Star, Kind::Star) => true,
        (Kind::Arrow(lkinds), Kind::Arrow(rkinds)) => {
            if lkinds.len() != rkinds.len() {
                return false;
            }
            let mut i: usize = 0;
            while i < lkinds.len()
                invariant
                    *a is Arrow,
                    a->Arrow_0 == *lkinds,
                    b->Arrow_0 == *rkinds,
                    *b is Arrow,
                    lkinds@.len() == rkinds@.len(),
                    i <= lkinds@.len(),
                    forall|j: int|
                        0 <= j < i ==> (#[trigger] a@->Arrow_0[j]).variance.0 == b@->Arrow_0[j].variance.0
                            && kinds_equal(a@->Arrow_0[j].kind, b@->Arrow_0[j].kind),
                decreases lkinds@.len() - i,
            {
                let l = &lkinds[i];
                let r = &rkinds[i];
                proof {
                    broadcast use vstd::std_specs::vec::axiom_vec_index_decreases;

                    assert(decreases_to!(*lkinds => lkinds[i as int]));
                    assert(decreases_to!(*a => a->Arrow_0));
                }
                if l.variance.0 != r.variance.0 || !kinds_are_equal(&l.kind.0, &r.kind.0) {
                    proof {
                        assert(a@->Arrow_0[i as int] == l.param_view());
                        assert(b@->Arrow_0[i as int] == r.param_view());
                    }
                    return false;
                }
                i = i + 1;
            }
            true
        },
        _ => false,
    }
}

/// The report that `check_kinds` gives when the kind `actual` (at `aspan`)
/// differs from the kind `expected` (at `espan`): the first difference found
/// when both are walked in order, parameter by parameter, depth first.
pub open spec fn kind_mismatch(actual: KindView, aspan: Span, expected: KindView, espan: Span) -> Option<Seq<PartView>>
    decreases actual, 0nat,
{
    let ep = expected.params();
    match actual {
        KindView::Star => if ep.len() != 0 {
            Some(arity_error(0, aspan, ep.len(), espan))
        } else {
            None
        },
        KindView::Arrow(ap) => if ap.len() != ep.len() {
            Some(arity_error(ap.len(), aspan, ep.len(), espan))
        } else {
            param_mismatch(ap, ep, 0)
        },
    }
}

/// The first difference among the parameters `ap[i..]` and `ep[i..]`.
pub open spec fn param_mismatch(ap: Seq<ParamView>, ep: Seq<ParamView>, i: nat) -> Option<Seq<PartView>>
    decreases ap, ap.len() - i,
{
    if i >= ap.len() || i >= ep.len() {
        None
    } else if ap[i as int].variance.0 != ep[i as int].variance.0 {
        Some(variance_error(ap[i as int].variance.0, ap[i as int].variance.1, ep[i as int].variance.0, ep[i as int].variance.1))
    } else {
        match kind_mismatch(ap[i as int].kind, ap[i as int].span, ep[i as int].kind, ep[i as int].span) {
            Some(e) => Some(e),
            None => param_mismatch(ap, ep, i + 1),
        }
    }
}

/// The report of a difference in the number of parameters.
pub open spec fn arity_error(actual: nat, aspan: Span, expected: nat, espan: Span) -> Seq<PartView> {
    seq![
        PartView::At("KindError: Type constructor has "@ + decimal(actual) + " parameters here:"@, aspan),
        PartView::At("Note: But it is expected to have "@ + decimal(expected) + " parameters here:"@, espan),
    ]
}

/// The report of a difference in variance.
pub open spec fn variance_error(actual: Variance, aspan: Span, expected: Variance, espan: Span) -> Seq<PartView> {
    seq![
        PartView::At(
            "KindError: Type constructor variance mismatch. Expected to be "@ + actual.display() + " here:"@,
            aspan,
        ),
        PartView::At("Note: But it is "@ + expected.display() + " here:"@, espan),
    ]
}

/// Checks that the kind `actual` is the kind `expected`, and reports the first
/// difference otherwise.
pub fn check_kinds(actual: &SKind, expected: &SKind) -> (r: Result<(), SpannedError>)
    ensures
        r is Ok <==> kind_mismatch(actual.0@, actual.1, expected.0@, expected.1) is None,
        r is Err ==> r->Err_0@ == kind_mismatch(actual.0@, actual.1, expected.0@, expected.1)->0,
    decreases actual.0, 0nat,
{
    let aspan = actual.1;
    let espan = expected.1;

    let eparams = expected.0.params();
    let aparams = actual.0.params();

    if eparams.len() != aparams.len() {
        let m1 = concat3("KindError: Type constructor has ", decimal_string(aparams.len()).as_str(), " parameters here:");
        let m2 = concat3("Note: But it is expected to have ", decimal_string(eparams.len()).as_str(), " parameters here:");
        return Err(SpannedError::new2(m1.as_str(), aspan, m2.as_str(), espan));
    }
    let mut i: usize = 0;
    while i < aparams.len()
        invariant
            params_view(aparams@) == actual.0@.params(),
            params_view(eparams@) == expected.0@.params(),
            aparams@.len() == eparams@.len(),
            i <= aparams@.len(),
            actual.0 is Arrow ==> actual.0->Arrow_0@ == aparams@,
            actual.0 is Star ==> aparams@.len() == 0,
            kind_mismatch(actual.0@, aspan, expected.0@, espan) == param_mismatch(
                actual.0@.params(),
                expected.0@.params(),
                i as nat,
            ),
        decreases aparams@.len() - i,
    {
        let l = &aparams[i];
        let r = &eparams[i];
        proof {
            assert(actual.0@.params()[i as int] == l.param_view());
            assert(expected.0@.params()[i as int] == r.param_view());
        }
        if l.variance.0 != r.variance.0 {
            let m1 = concat3(
                "KindError: Type constructor variance mismatch. Expected to be ",
                l.variance.0.to_display(),
                " here:",
            );
            let m2 = concat3("Note: But it is ", r.variance.0.to_display(), " here:");
            return Err(SpannedError::new2(m1.as_str(), l.variance.1, m2.as_str(), r.variance.1));
        }
        proof {
            broadcast use vstd::std_specs::vec::axiom_vec_index_decreases;

            assert(actual.0 is Arrow);
            let ps = actual.0->Arrow_0;
            assert(decreases_to!(ps => ps[i as int]));
            assert(decreases_to!(actual.0 => actual.0->Arrow_0));
        }
        match check_kinds(&l.kind, &r.kind) {
            Ok(()) => {},
            Err(e) => {
                return Err(e);
            },
        }
        i = i + 1;
    }
    Ok(())
}

/// The sign that marks a variance in printed kinds.
pub open spec fn variance_sign(v: Variance) -> char {
    match v {
        Variance::Covariant => '+',
        Variance::Contravariant => '-',
        Variance::Invariant => '^',
    }
}

/// The printed form of a kind inside brackets: nothing for `Star`, the
/// parameters between brackets for `Arrow`.
pub open spec fn kind_text(k: KindView) -> Seq<char>
    decreases k, 0nat,
{
    match k {
        KindView::Star => Seq::empty(),
        KindView::Arrow(ps) => seq!['['] + params_text(ps, ps.len()) + seq![']'],
    }
}

/// The printed form of the first `n` parameters, separated by `"; "`.
pub open spec fn params_text(ps: Seq<ParamView>, n: nat) -> Seq<char>
    decreases ps, n,
{
    if n == 0 || n > ps.len() {
        Seq::empty()
    } else {
        let sep = if n > 1 {
            "; "@
        } else {
            Seq::empty()
        };
        params_text(ps, (n - 1) as nat) + sep + seq![variance_sign(ps[n - 1].variance.0)] + kind_text(
            ps[n - 1].kind,
        )
    }
}

/// The printed form of a kind: `[]` for `Star`.
pub open spec fn kind_display(k: KindView) -> Seq<char> {
    match k {
        KindView::Star => "[]"@,
        _ => kind_text(k),
    }
}

fn print_kind_sub(k: &Kind, out: &mut String)
    ensures
        final(out)@ == old(out)@ + kind_text(k@),
    decreases k,
{
    match k {
        Kind::Star => {
            proof {
                assert(out@ =~= old(out)@ + kind_text(k@));
            }
        },
        Kind::Arrow(params) => {
            push_char(out, '[');
            let ghost start = out@;
            let ghost ps = k@->Arrow_0;
            let mut i: usize = 0;
            while i < params.len()
                invariant
                    *k is Arrow,
                    k->Arrow_0 == *params,
                    ps == k@->Arrow_0,
                    ps.len() == params@.len(),
                    i <= params@.len(),
                    out@ == start + params_text(ps, i as nat),
                decreases params@.len() - i,
            {
                let param = &params[i];
                proof {
                    assert(ps[i as int] == param.param_view());
                }
                if i > 0 {
                    out.append("; ");
                }
                let sign = match param.variance.0 {
                    Variance::Covariant => '+',
                    Variance::Contravariant => '-',
                    Variance::Invariant => '^',
                };
                push_char(out, sign);
                proof {
                    broadcast use vstd::std_specs::vec::axiom_vec_index_decreases;

                    assert(decreases_to!(*params => params[i as int]));
                    assert(decreases_to!(*k => k->Arrow_0));
                }
                print_kind_sub(&param.kind.0, out);
                i = i + 1;
                proof {
                    let sep = if i > 1 {
                        "; "@
                    } else {
                        Seq::<char>::empty()
                    };
                    assert(out@ =~= start + params_text(ps, (i - 1) as nat) + sep + seq![
                        variance_sign(ps[i - 1].variance.0),
                    ] + kind_text(ps[i - 1].kind));
                }
            }
            push_char(out, ']');
            proof {
                assert(start == old(out)@ + seq!['[']);
                assert(out@ =~= old(out)@ + kind_text(k@));
            }
        },
    }
}

pub fn print_kind(k: &Kind) -> (r: String)
    ensures
        r@ == kind_display(k@),
{
    match k {
        Kind::Star => "[]".to_owned(),
        _ => {
            let mut out = String::new();
            print_kind_sub(k, &mut out);
            proof {
                assert(out@ =~= kind_display(k@));
            }
            out
        },
    }
}

/// Kind equality is reflexive.
pub proof fn law_kinds_equal_reflexive(a: KindView)
    ensures
        kinds_equal(a, a),
    decreases a,
{
    if let KindView::Arrow(l) = a {
        assert forall|i: int| 0 <= i < l.len() implies kinds_equal(#[trigger] l[i].kind, l[i].kind) by {
            law_kinds_equal_reflexive(l[i].kind);
        }
    }
}

/// Kind equality is symmetric.
pub proof fn law_kinds_equal_symmetric(a: KindView, b: KindView)
    requires
        kinds_equal(a, b),
    ensures
        kinds_equal(b, a),
    decreases a,
{
    if let KindView::Arrow(l) = a {
        let r = b->Arrow_0;
        assert forall|i: int| 0 <= i < r.len() implies (#[trigger] r[i]).variance.0 == l[i].variance.0
            && kinds_equal(r[i].kind, l[i].kind) by {
            assert(l[i].variance.0 == r[i].variance.0 && kinds_equal(l[i].kind, r[i].kind));
            law_kinds_equal_symmetric(l[i].kind, r[i].kind);
        }
    }
}

/// Kind equality is transitive.
pub proof fn law_kinds_equal_transitive(a: KindView, b: KindView, c: KindView)
    requires
        kinds_equal(a, b),
        kinds_equal(b, c),
    ensures
        kinds_equal(a, c),
    decreases a,
{
    if let KindView::Arrow(l) = a {
        let m = b->Arrow_0;
        let r = c->Arrow_0;
        assert forall|i: int| 0 <= i < l.len() implies (#[trigger] l[i]).variance.0 == r[i].variance.0
            && kinds_equal(l[i].kind, r[i].kind) by {
            assert(l[i].variance.0 == m[i].variance.0 && kinds_equal(l[i].kind, m[i].kind));
            assert(m[i].variance.0 == r[i].variance.0 && kinds_equal(m[i].kind, r[i].kind));
            law_kinds_equal_transitive(l[i].kind, m[i].kind, r[i].kind);
        }
    }
}

/// On well formed kinds, `check_kinds` accepts exactly the pairs of kinds that
/// `kinds_are_equal` calls equal, whatever their spans.
pub proof fn law_check_kinds_accepts_equal_kinds(actual: KindView, aspan: Span, expected: KindView, espan: Span)
    requires
        actual.wf(),
        expected.wf(),
    ensures
        kind_mismatch(actual, aspan, expected, espan) is None <==> kinds_equal(actual, expected),
    decreases actual, 0nat,
{
    match actual {
        KindView::Star => {},
        KindView::Arrow(ap) => {
            let ep = expected.params();
            if ap.len() == ep.len() {
                lemma_param_mismatch(ap, ep, 0);
            }
        },
    }
}

proof fn lemma_param_mismatch(ap: Seq<ParamView>, ep: Seq<ParamView>, i: nat)
    requires
        ap.len() == ep.len(),
        forall|j: int| 0 <= j < ap.len() ==> (#[trigger] ap[j]).kind.wf(),
        forall|j: int| 0 <= j < ep.len() ==> (#[trigger] ep[j]).kind.wf(),
    ensures
        param_mismatch(ap, ep, i) is None <==> forall|j: int|
            i <= j < ap.len() ==> (#[trigger] ap[j]).variance.0 == ep[j].variance.0 && kinds_equal(
                ap[j].kind,
                ep[j].kind,
            ),
    decreases ap, ap.len() - i,
{
    if i < ap.len() {
        assert(ap[i as int].kind.wf());
        assert(ep[i as int].kind.wf());
        law_check_kinds_accepts_equal_kinds(ap[i as int].kind, ap[i as int].span, ep[i as int].kind, ep[i as int].span);
        lemma_param_mismatch(ap, ep, i + 1);
    }
}

/// A kind that is either known, or still to be inferred: a variable of the
/// `KindVarStore` that every copy of the variable shares.
pub enum KindVar {
    Known(SKind),
    Var(usize),
}

/// The mathematical content of a `KindVar`.
pub enum KindVarView {
    Known(KindView, Span),
    Var(nat),
}

impl View for KindVar {
    type V = KindVarView;

    open spec fn view(&self) -> KindVarView {
        match self {
            KindVar::Known(k) => KindVarView::Known(k.0@, k.1),
            KindVar::Var(i) => KindVarView::Var(*i as nat),
        }
    }
}

impl Clone for KindVar {
    fn clone(&self) -> (r: Self)
        ensures
            r@ == self@,
    {
        match self {
            KindVar::Known(k) => KindVar::Known((k.0.clone(), k.1)),
            KindVar::Var(i) => KindVar::Var(*i),
        }
    }
}

/// The kind variables: for each, the span that asks for it and the kind it was
/// set to, once set.
pub struct KindVarStore {
    vars: Vec<(Span, Option<SKind>)>,
}

impl View for KindVarStore {
    type V = Seq<(Span, Option<(KindView, Span)>)>;

    closed spec fn view(&self) -> Seq<(Span, Option<(KindView, Span)>)> {
        self.vars@.map_values(
            |v: (Span, Option<SKind>)|
                (
                    v.0,
                    match v.1 {
                        Some(k) => Some((k.0@, k.1)),
                        None => None,
                    },
                ),
        )
    }
}

impl KindVarStore {
    pub fn new() -> (r: Self)
        ensures
            r@ == Seq::<(Span, Option<(KindView, Span)>)>::empty(),
    {
        let r = KindVarStore { vars: Vec::new() };
        proof {
            assert(r@ =~= Seq::<(Span, Option<(KindView, Span)>)>::empty());
        }
        r
    }
}

impl KindVar {
    /// Whether the variable, if it is one, exists in `store`.
    pub open spec fn valid_in(self, store: Seq<(Span, Option<(KindView, Span)>)>) -> bool {
        self@ is Var ==> self@->Var_0 < store.len()
    }

    /// What the kind is once the variable is looked up in `store`: the kind the
    /// variable was set to, or still the variable.
    pub open spec fn resolved(self, store: Seq<(Span, Option<(KindView, Span)>)>) -> KindVarView {
        match self@ {
            KindVarView::Var(i) => match store[i as int].1 {
                Some(k) => KindVarView::Known(k.0, k.1),
                None => KindVarView::Var(i),
            },
            other => other,
        }
    }

    /// A new variable, unset, asked for at `span`.
    pub fn new_var(store: &mut KindVarStore, span: Span) -> (r: Self)
        requires
            old(store)@.len() < usize::MAX,
        ensures
            final(store)@ == old(store)@.push((span, None)),
            r@ == KindVarView::Var(old(store)@.len()),
    {
        let i = store.vars.len();
        store.vars.push((span, None));
        proof {
            assert(store@ =~= old(store)@.push((span, None)));
        }
        KindVar::Var(i)
    }

    /// Replaces a variable that was set by the kind it was set to.
    pub fn flatten(&mut self, store: &KindVarStore)
        requires
            old(self).valid_in(store@),
        ensures
            final(self)@ == old(self).resolved(store@),
    {
        if let KindVar::Var(i) = self {
            let i = *i;
            if let Some(k) = &store.vars[i].1 {
                proof {
                    assert(store@[i as int] == (store.vars@[i as int].0, Some((k.0@, k.1))));
                }
                *self = KindVar::Known((k.0.clone(), k.1));
            }
        }
    }

    /// The kind, which must be known by now.
    pub fn force(self, store: &KindVarStore) -> (r: Result<SKind, SpannedError>)
        requires
            self.valid_in(store@),
        ensures
            match self.resolved(store@) {
                KindVarView::Known(k, span) => r is Ok && r->Ok_0.0@ == k && r->Ok_0.1 == span,
                KindVarView::Var(i) => r is Err && r->Err_0@ == seq![
                    PartView::Text("KindError: An explicit kind annotation is required here."@),
                    PartView::Insert(""@, store@[i as int].0, " as [...] "@),
                ],
            },
    {
        let mut this = self;
        this.flatten(store);
        match this {
            KindVar::Known(k) => Ok(k),
            KindVar::Var(i) => {
                let mut e = SpannedError::new();
                e.push_str("KindError: An explicit kind annotation is required here.");
                proof {
                    assert(store@[i as int].0 == store.vars@[i as int].0);
                }
                e.push_insert("", store.vars[i].0, " as [...] ");
                Err(e)
            },
        }
    }

    /// Checks the kind against `expected`; a variable that is still unset is
    /// set to `expected`.
    pub fn check(&mut self, expected: &SKind, store: &mut KindVarStore) -> (r: Result<(), SpannedError>)
        requires
            old(self).valid_in(old(store)@),
        ensures
            final(self)@ == old(self).resolved(old(store)@),
            match old(self).resolved(old(store)@) {
                KindVarView::Known(k, span) => {
                    &&& final(store)@ == old(store)@
                    &&& (r is Ok <==> kind_mismatch(k, span, expected.0@, expected.1) is None)
                    &&& (r is Err ==> r->Err_0@ == kind_mismatch(k, span, expected.0@, expected.1)->0)
                },
                KindVarView::Var(i) => {
                    &&& r is Ok
                    &&& final(store)@ == old(store)@.update(
                        i as int,
                        (old(store)@[i as int].0, Some((expected.0@, expected.1))),
                    )
                },
            },
    {
        self.flatten(store);
        match self {
            KindVar::Known(actual) => check_kinds(actual, expected),
            KindVar::Var(i) => {
                let i = *i;
                let span = store.vars[i].0;
                store.vars.set(i, (span, Some((expected.0.clone(), expected.1))));
                proof {
                    assert(store@ =~= old(store)@.update(
                        i as int,
                        (old(store)@[i as int].0, Some((expected.0@, expected.1))),
                    ));
                }
                Ok(())
            },
        }
    }
}

} // verus!
