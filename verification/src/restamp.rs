use crate::introspect_types::{UseOrHole, ValOrHole};
use crate::spans::{Span, ICE};
use crate::type_core::{TypeCheckerCore, TypeNode};
use crate::types::{FuncProperties, ConstructorAppData, ConstructorAppParams, ConstructorData, UTypeHead, Use, UseSrc, VTypeHead, Value};
use crate::vec_index::INDEX_LIMIT;
use vstd::prelude::*;

verus! {

/// How many constructor applications are passed, from the value node `v`
/// through the constructor nodes of each, before a node that is none; `None`
/// where that takes more than `fuel` steps.
pub open spec fn v_app_depth(nodes: Seq<TypeNode>, v: Value, fuel: nat) -> Option<nat>
    decreases fuel,
{
    if v.0@ == INDEX_LIMIT || v.0@ >= nodes.len() {
        Some(0)
    } else {
        match nodes[v.0@ as int] {
            TypeNode::Value((VTypeHead::VConstructorApplication(d), _)) => if fuel == 0 {
                None
            } else {
                match v_app_depth(nodes, d.tycon, (fuel - 1) as nat) {
                    Some(k) => Some(k + 1),
                    None => None,
                }
            },
            _ => Some(0),
        }
    }
}

/// The same for the use node `u`.
pub open spec fn u_app_depth(nodes: Seq<TypeNode>, u: Use, fuel: nat) -> Option<nat>
    decreases fuel,
{
    if u.0@ == INDEX_LIMIT || u.0@ >= nodes.len() {
        Some(0)
    } else {
        match nodes[u.0@ as int] {
            TypeNode::Use((UTypeHead::UConstructorApplication(d), _, _)) => if fuel == 0 {
                None
            } else {
                match u_app_depth(nodes, d.tycon, (fuel - 1) as nat) {
                    Some(k) => Some(k + 1),
                    None => None,
                }
            },
            _ => Some(0),
        }
    }
}

/// The chain of constructor applications from `v` ends.
pub open spec fn v_chain_ends(nodes: Seq<TypeNode>, v: Value) -> bool {
    v_app_depth(nodes, v, nodes.len()) is Some
}

/// The chain of constructor applications from `u` ends.
pub open spec fn u_chain_ends(nodes: Seq<TypeNode>, u: Use) -> bool {
    u_app_depth(nodes, u, nodes.len()) is Some
}

/// The length of the chain of constructor applications from `v`.
pub open spec fn v_depth(nodes: Seq<TypeNode>, v: Value) -> nat {
    match v_app_depth(nodes, v, nodes.len()) {
        Some(k) => k,
        None => 0,
    }
}

/// The length of the chain of constructor applications from `u`.
pub open spec fn u_depth(nodes: Seq<TypeNode>, u: Use) -> nat {
    match u_app_depth(nodes, u, nodes.len()) {
        Some(k) => k,
        None => 0,
    }
}

proof fn lemma_v_fuel(nodes: Seq<TypeNode>, v: Value, f: nat, g: nat)
    requires
        v_app_depth(nodes, v, f) is Some,
        f <= g,
    ensures
        v_app_depth(nodes, v, g) == v_app_depth(nodes, v, f),
    decreases f,
{
    if v.0@ != INDEX_LIMIT && v.0@ < nodes.len() {
        if let TypeNode::Value((VTypeHead::VConstructorApplication(d), _)) = nodes[v.0@ as int] {
            lemma_v_fuel(nodes, d.tycon, (f - 1) as nat, (g - 1) as nat);
        }
    }
}

proof fn lemma_u_fuel(nodes: Seq<TypeNode>, u: Use, f: nat, g: nat)
    requires
        u_app_depth(nodes, u, f) is Some,
        f <= g,
    ensures
        u_app_depth(nodes, u, g) == u_app_depth(nodes, u, f),
    decreases f,
{
    if u.0@ != INDEX_LIMIT && u.0@ < nodes.len() {
        if let TypeNode::Use((UTypeHead::UConstructorApplication(d), _, _)) = nodes[u.0@ as int] {
            lemma_u_fuel(nodes, d.tycon, (f - 1) as nat, (g - 1) as nat);
        }
    }
}

/// `d2` is `d` with the constructor `t`: the same kind (by its view) and the same parameters.
pub open spec fn v_app_with(d2: ConstructorAppData<Value>, d: ConstructorAppData<Value>, t: Value) -> bool {
    &&& d2.tycon == t
    &&& d2.kind.0@ == d.kind.0@
    &&& d2.kind.1 == d.kind.1
    &&& d2.params.0@ == d.params.0@
}

/// `d2` is `d` with the constructor `t`: the same kind (by its view) and the same parameters.
pub open spec fn u_app_with(d2: ConstructorAppData<Use>, d: ConstructorAppData<Use>, t: Use) -> bool {
    &&& d2.tycon == t
    &&& d2.kind.0@ == d.kind.0@
    &&& d2.kind.1 == d.kind.1
    &&& d2.params.0@ == d.params.0@
}

/// Re-stamping the value `v` at `span` turns the nodes `n0` into `n1` and
/// gives `r`: a constructor marked to be re-stamped is copied unmarked; a
/// constructor application whose constructor was re-stamped is copied with
/// the new constructor; any other value type or hole is kept; an error
/// where `v` is no value type or hole. `fuel` bounds the depth of the chain
/// of applications.
pub open spec fn v_restamped(n0: Seq<TypeNode>, n1: Seq<TypeNode>, v: Value, r: Result<Value, ICE>, span: Span, fuel: nat) -> bool
    decreases fuel,
{
    if v.0@ == INDEX_LIMIT {
        n1 == n0 && r == Ok::<_, ICE>(v)
    } else if v.0@ >= n0.len() {
        n1 == n0 && r is Err
    } else {
        match n0[v.0@ as int] {
            TypeNode::Var(_) => n1 == n0 && r == Ok::<_, ICE>(v),
            TypeNode::Value((VTypeHead::VTypeConstructor(data), _)) => if data.restamp {
                &&& n1 == n0.push(
                    TypeNode::Value(
                        (VTypeHead::VTypeConstructor(data.unmarked()), span),
                    ),
                )
                &&& r matches Ok(nv) && nv.0@ == n0.len()
            } else {
                n1 == n0 && r == Ok::<_, ICE>(v)
            },
            TypeNode::Value((VTypeHead::VConstructorApplication(data), _)) => {
                &&& fuel > 0
                &&& {
                    ||| (r is Err && n1 == n0 && v_restamped(n0, n0, data.tycon, r, span, (fuel - 1) as nat))
                    ||| (r == Ok::<_, ICE>(v) && v_restamped(n0, n1, data.tycon, Ok::<_, ICE>(data.tycon), span, (fuel - 1) as nat))
                    ||| (n1.len() > n0.len() && (n1.last() matches TypeNode::Value((VTypeHead::VConstructorApplication(d2), s))
                        && s == span && d2.tycon != data.tycon && v_app_with(d2, data, d2.tycon)
                        && v_restamped(n0, n1.drop_last(), data.tycon, Ok::<_, ICE>(d2.tycon), span, (fuel - 1) as nat))
                        && (r matches Ok(nv) && nv.0@ + 1 == n1.len()))
                }
            },
            TypeNode::Value(_) => n1 == n0 && r == Ok::<_, ICE>(v),
            _ => n1 == n0 && r is Err,
        }
    }
}

/// Re-stamping the use `u` at `span`, as `v_restamped` does for values; a
/// use type with a source is kept as it is.
pub open spec fn u_restamped(n0: Seq<TypeNode>, n1: Seq<TypeNode>, u: Use, r: Result<Use, ICE>, span: Span, fuel: nat) -> bool
    decreases fuel,
{
    if u.0@ == INDEX_LIMIT {
        n1 == n0 && r == Ok::<_, ICE>(u)
    } else if u.0@ >= n0.len() {
        n1 == n0 && r is Err
    } else {
        match n0[u.0@ as int] {
            TypeNode::Var(_) | TypeNode::LazyUse(..) => n1 == n0 && r == Ok::<_, ICE>(u),
            TypeNode::Use((UTypeHead::UTypeConstructor(data), _, UseSrc::NoSrc)) => if data.restamp {
                &&& n1 == n0.push(
                    TypeNode::Use(
                        (UTypeHead::UTypeConstructor(data.unmarked()), span, UseSrc::NoSrc),
                    ),
                )
                &&& r matches Ok(nu) && nu.0@ == n0.len()
            } else {
                n1 == n0 && r == Ok::<_, ICE>(u)
            },
            TypeNode::Use((UTypeHead::UConstructorApplication(data), _, UseSrc::NoSrc)) => {
                &&& fuel > 0
                &&& {
                    ||| (r is Err && n1 == n0 && u_restamped(n0, n0, data.tycon, r, span, (fuel - 1) as nat))
                    ||| (r == Ok::<_, ICE>(u) && u_restamped(n0, n1, data.tycon, Ok::<_, ICE>(data.tycon), span, (fuel - 1) as nat))
                    ||| (n1.len() > n0.len() && (n1.last() matches TypeNode::Use((UTypeHead::UConstructorApplication(d2), s, src))
                        && s == span && src is NoSrc && d2.tycon != data.tycon && u_app_with(d2, data, d2.tycon)
                        && u_restamped(n0, n1.drop_last(), data.tycon, Ok::<_, ICE>(d2.tycon), span, (fuel - 1) as nat))
                        && (r matches Ok(nu) && nu.0@ + 1 == n1.len()))
                }
            },
            TypeNode::Use(_) => n1 == n0 && r == Ok::<_, ICE>(u),
            _ => n1 == n0 && r is Err,
        }
    }
}

/// What re-stamping does at one node: keep it, copy the constructor unmarked,
/// or copy the application with its constructor re-stamped.
enum VStep {
    Keep,
    Stamp(ConstructorData),
    App(ConstructorAppData<Value>),
}

enum UStep {
    Keep,
    Stamp(ConstructorData),
    App(ConstructorAppData<Use>),
}

impl TypeCheckerCore {
    /// Only nodes were added, and nothing else changed.
    pub open spec fn grows(old: &Self, new: &Self) -> bool {
        &&& new.wf()
        &&& new.r.len_spec() == new.nodes().len()
        &&& new.r.edges() == old.r.edges()
        &&& new.r.mark() == old.r.mark()
        &&& new.r.journal_log() == old.r.journal_log()
        &&& (old.r.closed() ==> new.r.closed())
        &&& new.tycons == old.tycons
        &&& new.pending_edges@ == old.pending_edges@
        &&& new.log() == old.log()
    }
}

/// Re-stamps the value `v`: a constructor marked to be re-stamped becomes an
/// unmarked copy, and so does, recursively, the constructor of an application.
fn restamp_vcon_app(core: &mut TypeCheckerCore, v: Value, span: Span) -> (r: Result<Value, ICE>)
    requires
        old(core).wf(),
        v_chain_ends(old(core).nodes(), v),
        old(core).nodes().len() + v_depth(old(core).nodes(), v) <= INDEX_LIMIT,
    ensures
        TypeCheckerCore::grows(old(core), final(core)),
        final(core).nodes().len() <= old(core).nodes().len() + v_depth(old(core).nodes(), v) + 1,
        v_restamped(old(core).nodes(), final(core).nodes(), v, r, span, v_depth(old(core).nodes(), v)),
    decreases v_depth(old(core).nodes(), v),
{
    proof {
        core.r.lemma_data_len();
    }
    let ghost n0 = core.nodes();
    let step = match core.get_val_or_hole(v) {
        Err(e) => {
            return Err(e);
        },
        Ok(ValOrHole::Val(VTypeHead::VTypeConstructor(data), _)) => {
            if data.restamp {
                VStep::Stamp(data.unmarked_copy())
            } else {
                VStep::Keep
            }
        },
        Ok(ValOrHole::Val(VTypeHead::VConstructorApplication(data), _)) => VStep::App(
            ConstructorAppData { tycon: data.tycon, kind: (data.kind.0.clone(), data.kind.1), params: data.params.copied() },
        ),
        _ => VStep::Keep,
    };
    match step {
        VStep::Keep => Ok(v),
        VStep::Stamp(d) => {
            let ghost dd = d;
            let nv = core.new_val(VTypeHead::VTypeConstructor(d), span);
            proof {
                core.r.lemma_data_len();
                assert(core.nodes() =~= n0.push(TypeNode::Value((VTypeHead::VTypeConstructor(dd), span))));
            }
            Ok(nv)
        },
        VStep::App(mut data) => {
            let ghost d0 = match n0[v.0@ as int] {
                TypeNode::Value((VTypeHead::VConstructorApplication(d), _)) => d,
                _ => data,
            };
            proof {
                let k = v_depth(n0, v);
                assert(v_app_depth(n0, d0.tycon, (n0.len() - 1) as nat) == Some((k - 1) as nat));
                lemma_v_fuel(n0, d0.tycon, (n0.len() - 1) as nat, n0.len());
            }
            let t = match restamp_vcon_app(core, data.tycon, span) {
                Ok(t) => t,
                Err(e) => {
                    proof {
                        assert(v_restamped(n0, core.nodes(), d0.tycon, Err::<Value, ICE>(e), span, (v_depth(n0, v) - 1) as nat));
                    }
                    return Err(e);
                },
            };
            let ghost mid = core.nodes();
            if t != data.tycon {
                data.tycon = t;
                let nv = core.new_val(VTypeHead::VConstructorApplication(data), span);
                proof {
                    core.r.lemma_data_len();
                    assert(core.nodes().drop_last() =~= mid);
                    assert(v_restamped(n0, mid, d0.tycon, Ok::<Value, ICE>(t), span, (v_depth(n0, v) - 1) as nat));
                    assert(v_restamped(n0, core.nodes(), v, Ok::<Value, ICE>(nv), span, v_depth(n0, v)));
                }
                Ok(nv)
            } else {
                proof {
                    assert(v_restamped(n0, mid, d0.tycon, Ok::<Value, ICE>(t), span, (v_depth(n0, v) - 1) as nat));
                }
                Ok(v)
            }
        },
    }
}

/// Re-stamps the use `u`, as `restamp_vcon_app` does for values; a use type
/// with a source is kept as it is.
fn restamp_ucon_app(core: &mut TypeCheckerCore, u: Use, span: Span) -> (r: Result<Use, ICE>)
    requires
        old(core).wf(),
        u_chain_ends(old(core).nodes(), u),
        old(core).nodes().len() + u_depth(old(core).nodes(), u) <= INDEX_LIMIT,
    ensures
        TypeCheckerCore::grows(old(core), final(core)),
        final(core).nodes().len() <= old(core).nodes().len() + u_depth(old(core).nodes(), u) + 1,
        u_restamped(old(core).nodes(), final(core).nodes(), u, r, span, u_depth(old(core).nodes(), u)),
    decreases u_depth(old(core).nodes(), u),
{
    proof {
        core.r.lemma_data_len();
    }
    let ghost n0 = core.nodes();
    let step = match core.get_use_or_hole(u) {
        Err(e) => {
            return Err(e);
        },
        Ok(UseOrHole::Use(UTypeHead::UTypeConstructor(data), _, UseSrc::NoSrc)) => {
            if data.restamp {
                UStep::Stamp(data.unmarked_copy())
            } else {
                UStep::Keep
            }
        },
        Ok(UseOrHole::Use(UTypeHead::UConstructorApplication(data), _, UseSrc::NoSrc)) => UStep::App(
            ConstructorAppData { tycon: data.tycon, kind: (data.kind.0.clone(), data.kind.1), params: data.params.copied() },
        ),
        _ => UStep::Keep,
    };
    match step {
        UStep::Keep => Ok(u),
        UStep::Stamp(d) => {
            let ghost dd = d;
            let nu = core.new_use(UTypeHead::UTypeConstructor(d), span);
            proof {
                core.r.lemma_data_len();
                assert(core.nodes() =~= n0.push(TypeNode::Use((UTypeHead::UTypeConstructor(dd), span, UseSrc::NoSrc))));
            }
            Ok(nu)
        },
        UStep::App(mut data) => {
            let ghost d0 = match n0[u.0@ as int] {
                TypeNode::Use((UTypeHead::UConstructorApplication(d), _, _)) => d,
                _ => data,
            };
            proof {
                let k = u_depth(n0, u);
                assert(u_app_depth(n0, d0.tycon, (n0.len() - 1) as nat) == Some((k - 1) as nat));
                lemma_u_fuel(n0, d0.tycon, (n0.len() - 1) as nat, n0.len());
            }
            let t = match restamp_ucon_app(core, data.tycon, span) {
                Ok(t) => t,
                Err(e) => {
                    proof {
                        assert(u_restamped(n0, core.nodes(), d0.tycon, Err::<Use, ICE>(e), span, (u_depth(n0, u) - 1) as nat));
                    }
                    return Err(e);
                },
            };
            let ghost mid = core.nodes();
            if t != data.tycon {
                data.tycon = t;
                let nu = core.new_use(UTypeHead::UConstructorApplication(data), span);
                proof {
                    core.r.lemma_data_len();
                    assert(core.nodes().drop_last() =~= mid);
                    assert(u_restamped(n0, mid, d0.tycon, Ok::<Use, ICE>(t), span, (u_depth(n0, u) - 1) as nat));
                }
                Ok(nu)
            } else {
                proof {
                    assert(u_restamped(n0, mid, d0.tycon, Ok::<Use, ICE>(t), span, (u_depth(n0, u) - 1) as nat));
                }
                Ok(u)
            }
        },
    }
}

/// What re-stamping a function or value type does at its node.
enum FStep {
    Keep,
    Func(Use, Value, FuncProperties),
    Con,
}

/// Whether re-stamping the value `v` ends and has room for the nodes it adds:
/// for a function, the chains of its argument and its result; for a
/// constructor or an application, its own chain.
pub open spec fn restamp_ok(n0: Seq<TypeNode>, v: Value) -> bool {
    v.0@ != INDEX_LIMIT && v.0@ < n0.len() ==> match n0[v.0@ as int] {
        TypeNode::Value((VTypeHead::VFunc { arg, ret, .. }, _)) => {
            &&& u_chain_ends(n0, arg)
            &&& v_chain_ends(n0, ret)
            &&& n0.len() + u_depth(n0, arg) + v_depth(n0, ret) + 2 <= INDEX_LIMIT
        },
        TypeNode::Value((VTypeHead::VConstructorApplication(_), _)) | TypeNode::Value(
            (VTypeHead::VTypeConstructor(_), _),
        ) => v_chain_ends(n0, v) && n0.len() + v_depth(n0, v) <= INDEX_LIMIT,
        _ => true,
    }
}

/// Re-stamping the function or value `v` at `span` turns the nodes `n0` into
/// `n1` and gives `r`: a function type has its argument and then its result
/// re-stamped, and is copied with them where either changed; a constructor or
/// an application is re-stamped as `v_restamped` says; any other value type or
/// hole is kept; an error where `v` is no value type or hole.
pub open spec fn func_or_val_restamped(n0: Seq<TypeNode>, n1: Seq<TypeNode>, v: Value, r: Result<Value, ICE>, span: Span) -> bool {
    if v.0@ == INDEX_LIMIT {
        n1 == n0 && r == Ok::<_, ICE>(v)
    } else if v.0@ >= n0.len() {
        n1 == n0 && r is Err
    } else {
        match n0[v.0@ as int] {
            TypeNode::Var(_) => n1 == n0 && r == Ok::<_, ICE>(v),
            TypeNode::Value((VTypeHead::VFunc { arg, ret, prop }, _)) => exists|m1: Seq<TypeNode>, ra: Result<Use, ICE>|
                #[trigger] u_restamped(n0, m1, arg, ra, span, u_depth(n0, arg)) && match ra {
                    Err(_) => n1 == m1 && r is Err,
                    Ok(a2) => exists|m2: Seq<TypeNode>, rr: Result<Value, ICE>|
                        #[trigger] v_restamped(m1, m2, ret, rr, span, v_depth(m1, ret)) && match rr {
                            Err(_) => n1 == m2 && r is Err,
                            Ok(r2) => if a2 != arg || r2 != ret {
                                &&& n1 == m2.push(TypeNode::Value((VTypeHead::VFunc { arg: a2, ret: r2, prop }, span)))
                                &&& r matches Ok(nv) && nv.0@ == m2.len()
                            } else {
                                n1 == m2 && r == Ok::<_, ICE>(v)
                            },
                        },
                },
            TypeNode::Value((VTypeHead::VConstructorApplication(_), _)) | TypeNode::Value(
                (VTypeHead::VTypeConstructor(_), _),
            ) => v_restamped(n0, n1, v, r, span, v_depth(n0, v)),
            TypeNode::Value(_) => n1 == n0 && r == Ok::<_, ICE>(v),
            _ => n1 == n0 && r is Err,
        }
    }
}

/// Re-stamping a use only adds use nodes.
proof fn lemma_u_restamped_adds_uses(n0: Seq<TypeNode>, n1: Seq<TypeNode>, u: Use, r: Result<Use, ICE>, span: Span, fuel: nat)
    requires
        u_restamped(n0, n1, u, r, span, fuel),
    ensures
        n1.len() >= n0.len(),
        n1.take(n0.len() as int) == n0,
        forall|j: int| n0.len() <= j < n1.len() ==> #[trigger] n1[j] is Use,
    decreases fuel,
{
    if u.0@ != INDEX_LIMIT && u.0@ < n0.len() {
        match n0[u.0@ as int] {
            TypeNode::Use((UTypeHead::UConstructorApplication(data), _, UseSrc::NoSrc)) => {
                if r is Err && n1 == n0 {
                } else if r == Ok::<_, ICE>(u) && u_restamped(n0, n1, data.tycon, Ok::<_, ICE>(data.tycon), span, (fuel - 1) as nat) {
                    lemma_u_restamped_adds_uses(n0, n1, data.tycon, Ok::<_, ICE>(data.tycon), span, (fuel - 1) as nat);
                } else {
                    let d2 = n1.last()->Use_0.0->UConstructorApplication_0;
                    lemma_u_restamped_adds_uses(n0, n1.drop_last(), data.tycon, Ok::<_, ICE>(d2.tycon), span, (fuel - 1) as nat);
                    assert forall|j: int| n0.len() <= j < n1.len() implies #[trigger] n1[j] is Use by {
                        if j < n1.len() - 1 {
                            assert(n1.drop_last()[j] == n1[j]);
                        }
                    }
                    assert(n1.take(n0.len() as int) =~= n1.drop_last().take(n0.len() as int));
                }
            },
            _ => {},
        }
    }
    assert(n1.take(n0.len() as int) =~= n0) by {
        if n1.len() >= n0.len() && n1.take(n0.len() as int) == n0 {
        }
    }
}

/// Nodes added after `n0` that are not values leave the chains of values as they were.
proof fn lemma_v_depth_extend(n0: Seq<TypeNode>, n1: Seq<TypeNode>, v: Value, f: nat)
    requires
        n1.len() >= n0.len(),
        n1.take(n0.len() as int) == n0,
        forall|j: int| n0.len() <= j < n1.len() ==> !(#[trigger] n1[j] is Value),
    ensures
        v_app_depth(n1, v, f) == v_app_depth(n0, v, f),
    decreases f,
{
    if v.0@ != INDEX_LIMIT && v.0@ < n1.len() {
        if v.0@ < n0.len() {
            assert(n1[v.0@ as int] == n0.take(n0.len() as int)[v.0@ as int]);
            assert(n1[v.0@ as int] == n0[v.0@ as int]);
            if let TypeNode::Value((VTypeHead::VConstructorApplication(d), _)) = n0[v.0@ as int] {
                if f > 0 {
                    lemma_v_depth_extend(n0, n1, d.tycon, (f - 1) as nat);
                }
            }
        } else {
            assert(!(n1[v.0@ as int] is Value));
        }
    }
}

/// Re-stamps the function or value `v`: a function has the constructors of
/// its argument and result re-stamped; a constructor or application is
/// re-stamped itself.
pub fn restamp_func_or_val(core: &mut TypeCheckerCore, v: Value, span: Span) -> (r: Result<Value, ICE>)
    requires
        old(core).wf(),
        restamp_ok(old(core).nodes(), v),
    ensures
        TypeCheckerCore::grows(old(core), final(core)),
        func_or_val_restamped(old(core).nodes(), final(core).nodes(), v, r, span),
{
    proof {
        core.r.lemma_data_len();
    }
    let ghost n0 = core.nodes();
    let step = match core.get_val_or_hole(v) {
        Err(e) => {
            return Err(e);
        },
        Ok(ValOrHole::Val(VTypeHead::VFunc { arg, ret, prop }, _)) => FStep::Func(*arg, *ret, *prop),
        Ok(ValOrHole::Val(VTypeHead::VConstructorApplication(..), _)) => FStep::Con,
        Ok(ValOrHole::Val(VTypeHead::VTypeConstructor(..), _)) => FStep::Con,
        _ => FStep::Keep,
    };
    match step {
        FStep::Keep => Ok(v),
        FStep::Con => restamp_vcon_app(core, v, span),
        FStep::Func(arg, ret, prop) => {
            let ra = restamp_ucon_app(core, arg, span);
            let ghost m1 = core.nodes();
            proof {
                lemma_u_restamped_adds_uses(n0, m1, arg, ra, span, u_depth(n0, arg));
                lemma_v_depth_extend(n0, m1, ret, n0.len());
                lemma_v_fuel(n0, ret, n0.len(), m1.len());
                lemma_v_depth_extend(n0, m1, ret, m1.len());
            }
            let arg2 = match ra {
                Ok(a) => a,
                Err(e) => {
                    return Err(e);
                },
            };
            let rr = restamp_vcon_app(core, ret, span);
            let ghost m2 = core.nodes();
            let ret2 = match rr {
                Ok(x) => x,
                Err(e) => {
                    return Err(e);
                },
            };
            if arg2 != arg || ret2 != ret {
                let nv = core.new_val(VTypeHead::VFunc { arg: arg2, ret: ret2, prop }, span);
                proof {
                    core.r.lemma_data_len();
                    assert(core.nodes() =~= m2.push(TypeNode::Value((VTypeHead::VFunc { arg: arg2, ret: ret2, prop }, span))));
                }
                Ok(nv)
            } else {
                Ok(v)
            }
        },
    }
}

} // verus!
