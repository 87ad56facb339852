use crate::ast::StringId;
use crate::spans::{ice, ICE};
use crate::spines::SpineConstructor;
use crate::type_core::{InferenceVarData, TypeCheckerCore, TypeNode};
use crate::typeck::TypeBinding;
use crate::types::{
    bot, top, ConstructorAppParams, ConstructorData, UTypeHead, Use, UseSrc, VTypeHead, Value,
};
use crate::vec_index::INDEX_LIMIT;
use std::rc::Rc;
use vstd::prelude::*;

verus! {

/// A value node as a type is read: the bottom type, a value type, or a hole.
pub enum ValOrHole<'a> {
    Never,
    Val(&'a VTypeHead, Span),
    Hole(&'a InferenceVarData),
}

/// A use node as a type is read: the top type, a use type, a hole, or a
/// lazy use node that unification has not filled in.
pub enum UseOrHole<'a> {
    Any,
    Use(&'a UTypeHead, Span, UseSrc),
    Hole(&'a InferenceVarData),
    Unification,
}

/// A value type that is a polymorphic spine applied to parameters, or any other type.
pub enum LoadedSpineOrType<T> {
    Spine(Rc<SpineConstructor>, ConstructorAppParams<Value>),
    Type(T),
}

/// The broad shape of a type, its parameters aside.
pub enum DissectedType {
    Never,
    Any,
    Func,
    Record,
    Variant,
    Constructor(ConstructorData),
    Hole(InferenceVarData),
    Unknown,
}

use crate::spans::Span;

/// The shape of the value node `v` where it is no constructor application;
/// an error where it is one, or is not a value type or a hole.
pub open spec fn v_base(nodes: Seq<TypeNode>, v: Value) -> Result<DissectedType, ICE> {
    if v.0@ == INDEX_LIMIT {
        Ok(DissectedType::Never)
    } else if v.0@ >= nodes.len() {
        Err(ICE)
    } else {
        match nodes[v.0@ as int] {
            TypeNode::Var(d) => Ok(DissectedType::Hole(d)),
            TypeNode::Value((h, _)) => match h {
                VTypeHead::VConstructorApplication(_) => Err(ICE),
                VTypeHead::VTypeConstructor(data) => Ok(DissectedType::Constructor(data)),
                VTypeHead::VCaseUnion(_) => Ok(DissectedType::Variant),
                VTypeHead::VTop => Ok(DissectedType::Any),
                VTypeHead::VFunc { .. } => Ok(DissectedType::Func),
                VTypeHead::VObj { .. } => Ok(DissectedType::Record),
                VTypeHead::VCase { .. } => Ok(DissectedType::Variant),
                VTypeHead::VEphemeralPoly(_) => Ok(DissectedType::Any),
            },
            _ => Err(ICE),
        }
    }
}

/// The shape of the value node `v`, and the parameters where it is a
/// constructor application: the shape is then that of its constructor node,
/// which must not be an application itself.
pub open spec fn v_dissect_spec(nodes: Seq<TypeNode>, v: Value) -> Result<(DissectedType, Option<ConstructorAppParams<Value>>), ICE> {
    let plain = match v_base(nodes, v) {
        Ok(dt) => Ok((dt, None)),
        Err(e) => Err(e),
    };
    if v.0@ != INDEX_LIMIT && v.0@ < nodes.len() {
        match nodes[v.0@ as int] {
            TypeNode::Value((VTypeHead::VConstructorApplication(data), _)) => match v_base(nodes, data.tycon) {
                Ok(dt) => Ok((dt, Some(data.params))),
                Err(e) => Err(e),
            },
            _ => plain,
        }
    } else {
        plain
    }
}

/// The shape of the use node `u` where it is no constructor application; an
/// error where it is one, is a lazy use node, or is not a use type or a hole.
pub open spec fn u_base(nodes: Seq<TypeNode>, u: Use) -> Result<DissectedType, ICE> {
    if u.0@ == INDEX_LIMIT {
        Ok(DissectedType::Any)
    } else if u.0@ >= nodes.len() {
        Err(ICE)
    } else {
        match nodes[u.0@ as int] {
            TypeNode::Var(d) => Ok(DissectedType::Hole(d)),
            TypeNode::Use((h, _, _)) => match h {
                UTypeHead::UConstructorApplication(_) => Err(ICE),
                UTypeHead::UTypeConstructor(data) => Ok(DissectedType::Constructor(data)),
                UTypeHead::UBot => Ok(DissectedType::Never),
                UTypeHead::UFunc { .. } => Ok(DissectedType::Func),
                UTypeHead::UObj { .. } => Ok(DissectedType::Record),
                UTypeHead::UCase(_) => Ok(DissectedType::Variant),
                UTypeHead::UEphemeralPoly(_) => Ok(DissectedType::Never),
                UTypeHead::UFilterOutConstructors(_) => Ok(DissectedType::Unknown),
                UTypeHead::UIntersection(_) => Ok(DissectedType::Unknown),
            },
            _ => Err(ICE),
        }
    }
}

/// The shape of the use node `u`, and the parameters where it is a
/// constructor application: the shape is then that of its constructor node,
/// which must not be an application itself.
pub open spec fn u_dissect_spec(nodes: Seq<TypeNode>, u: Use) -> Result<(DissectedType, Option<ConstructorAppParams<Use>>), ICE> {
    let plain = match u_base(nodes, u) {
        Ok(dt) => Ok((dt, None)),
        Err(e) => Err(e),
    };
    if u.0@ != INDEX_LIMIT && u.0@ < nodes.len() {
        match nodes[u.0@ as int] {
            TypeNode::Use((UTypeHead::UConstructorApplication(data), _, _)) => match u_base(nodes, data.tycon) {
                Ok(dt) => Ok((dt, Some(data.params))),
                Err(e) => Err(e),
            },
            _ => plain,
        }
    } else {
        plain
    }
}

/// The parameters behind an optional reference, as a value.
pub open spec fn deref_opt<T>(p: Option<&T>) -> Option<T> {
    match p {
        Some(x) => Some(*x),
        None => None,
    }
}

/// Where `d` is a spine constructor applied to parameters: the spine and the
/// parameters (none where there are none).
pub open spec fn spine_of(d: Result<(DissectedType, Option<ConstructorAppParams<Value>>), ICE>) -> Option<
    (Rc<SpineConstructor>, Seq<(Option<Value>, Option<Use>)>),
> {
    match d {
        Ok((DissectedType::Constructor(data), params)) => match data.spine {
            Some(s) => Some(
                (
                    s,
                    match params {
                        Some(p) => p.0@,
                        None => Seq::empty(),
                    },
                ),
            ),
            None => None,
        },
        _ => None,
    }
}

impl TypeCheckerCore {
    /// The value node `v` as a type: the bottom type, a value type with its
    /// span, or a hole; an error for any other node.
    pub fn get_val_or_hole(&self, v: Value) -> (r: Result<ValOrHole<'_>, ICE>)
        ensures
            v.0@ == INDEX_LIMIT ==> r matches Ok(ValOrHole::Never),
            v.0@ != INDEX_LIMIT ==> match r {
                Ok(ValOrHole::Never) => false,
                Ok(ValOrHole::Val(h, sp)) => v.0@ < self.nodes().len() && self.nodes()[v.0@ as int] == TypeNode::Value((*h, sp)),
                Ok(ValOrHole::Hole(d)) => v.0@ < self.nodes().len() && self.nodes()[v.0@ as int] == TypeNode::Var(*d),
                Err(_) => !(v.0@ < self.nodes().len() && (self.nodes()[v.0@ as int] is Value || self.nodes()[v.0@ as int] is Var)),
            },
    {
        proof {
            self.r.lemma_data_len();
        }
        let b = bot();
        if v.0.i() == b.0.i() {
            return Ok(ValOrHole::Never);
        }
        match self.r.get(v.0) {
            Some(TypeNode::Var(data)) => Ok(ValOrHole::Hole(data)),
            Some(TypeNode::Value(n)) => Ok(ValOrHole::Val(&n.0, n.1)),
            _ => Err(ice()),
        }
    }

    /// The head and span of the value type `v`; an error where `v` is not a value type.
    pub fn get_vhead(&self, v: Value) -> (r: Result<(&VTypeHead, Span), ICE>)
        ensures
            match r {
                Ok((h, sp)) => v.0@ != INDEX_LIMIT && v.0@ < self.nodes().len() && self.nodes()[v.0@ as int]
                    == TypeNode::Value((*h, sp)),
                Err(_) => !(v.0@ != INDEX_LIMIT && v.0@ < self.nodes().len() && self.nodes()[v.0@ as int] is Value),
            },
    {
        match self.get_val_or_hole(v) {
            Ok(ValOrHole::Val(h, sp)) => Ok((h, sp)),
            _ => Err(ice()),
        }
    }

    /// The use node `u` as a type: the top type, a use type with its span and
    /// source, a hole, or a lazy use node; an error for any other node.
    pub fn get_use_or_hole(&self, u: Use) -> (r: Result<UseOrHole<'_>, ICE>)
        ensures
            u.0@ == INDEX_LIMIT ==> r matches Ok(UseOrHole::Any),
            u.0@ != INDEX_LIMIT ==> match r {
                Ok(UseOrHole::Any) => false,
                Ok(UseOrHole::Use(h, sp, src)) => u.0@ < self.nodes().len() && self.nodes()[u.0@ as int] == TypeNode::Use((*h, sp, src)),
                Ok(UseOrHole::Hole(d)) => u.0@ < self.nodes().len() && self.nodes()[u.0@ as int] == TypeNode::Var(*d),
                Ok(UseOrHole::Unification) => u.0@ < self.nodes().len() && self.nodes()[u.0@ as int] is LazyUse,
                Err(_) => !(u.0@ < self.nodes().len() && (self.nodes()[u.0@ as int] is Use || self.nodes()[u.0@ as int] is Var
                    || self.nodes()[u.0@ as int] is LazyUse)),
            },
    {
        proof {
            self.r.lemma_data_len();
        }
        let t = top();
        if u.0.i() == t.0.i() {
            return Ok(UseOrHole::Any);
        }
        match self.r.get(u.0) {
            Some(TypeNode::Var(data)) => Ok(UseOrHole::Hole(data)),
            Some(TypeNode::Use(n)) => Ok(UseOrHole::Use(&n.0, n.1, n.2)),
            Some(TypeNode::LazyUse(..)) => Ok(UseOrHole::Unification),
            _ => Err(ice()),
        }
    }

    /// The head, span and source of the use type `u`; an error where `u` is not a use type.
    pub fn get_uhead(&self, u: Use) -> (r: Result<(&UTypeHead, Span, UseSrc), ICE>)
        ensures
            match r {
                Ok((h, sp, src)) => u.0@ != INDEX_LIMIT && u.0@ < self.nodes().len() && self.nodes()[u.0@ as int]
                    == TypeNode::Use((*h, sp, src)),
                Err(_) => !(u.0@ != INDEX_LIMIT && u.0@ < self.nodes().len() && self.nodes()[u.0@ as int] is Use),
            },
    {
        match self.get_use_or_hole(u) {
            Ok(UseOrHole::Use(h, sp, src)) => Ok((h, sp, src)),
            _ => Err(ice()),
        }
    }

    /// The shape of the value node `v`, which must not be a constructor application.
    fn v_dissect_base(&self, v: Value) -> (r: Result<DissectedType, ICE>)
        ensures
            r == v_base(self.nodes(), v),
    {
        let vhead = match self.get_val_or_hole(v) {
            Ok(ValOrHole::Never) => {
                return Ok(DissectedType::Never);
            },
            Ok(ValOrHole::Hole(d)) => {
                return Ok(DissectedType::Hole(*d));
            },
            Ok(ValOrHole::Val(h, _)) => h,
            Err(e) => {
                return Err(e);
            },
        };
        match vhead {
            VTypeHead::VConstructorApplication(_) => Err(ice()),
            VTypeHead::VTypeConstructor(data) => Ok(DissectedType::Constructor(data.clone())),
            VTypeHead::VCaseUnion(..) => Ok(DissectedType::Variant),
            VTypeHead::VTop => Ok(DissectedType::Any),
            VTypeHead::VFunc { .. } => Ok(DissectedType::Func),
            VTypeHead::VObj { .. } => Ok(DissectedType::Record),
            VTypeHead::VCase { .. } => Ok(DissectedType::Variant),
            VTypeHead::VEphemeralPoly(..) => Ok(DissectedType::Any),
        }
    }

    /// The shape of the value node `v`, with its parameters where it is a
    /// constructor application.
    pub fn v_dissect_sub(&self, v: Value) -> (r: Result<(DissectedType, Option<&ConstructorAppParams<Value>>), ICE>)
        ensures
            match r {
                Ok((dt, p)) => v_dissect_spec(self.nodes(), v) == Ok::<_, ICE>((dt, deref_opt(p))),
                Err(_) => v_dissect_spec(self.nodes(), v) is Err,
            },
    {
        match self.get_val_or_hole(v) {
            Ok(ValOrHole::Val(VTypeHead::VConstructorApplication(data), _)) => match self.v_dissect_base(data.tycon) {
                Ok(dt) => Ok((dt, Some(&data.params))),
                Err(e) => Err(e),
            },
            _ => match self.v_dissect_base(v) {
                Ok(dt) => Ok((dt, None)),
                Err(e) => Err(e),
            },
        }
    }

    /// The shape of the value node `v`, with its parameters where it is a
    /// constructor application.
    pub fn v_dissect(&self, v: Value) -> (r: Result<(DissectedType, Option<&ConstructorAppParams<Value>>), ICE>)
        ensures
            match r {
                Ok((dt, p)) => v_dissect_spec(self.nodes(), v) == Ok::<_, ICE>((dt, deref_opt(p))),
                Err(_) => v_dissect_spec(self.nodes(), v) is Err,
            },
    {
        self.v_dissect_sub(v)
    }

    /// The spine and parameters of `v` where it is a spine constructor
    /// applied to parameters, and otherwise `v` itself.
    pub fn v_as_spine_or_type(&self, v: Value) -> (r: Result<LoadedSpineOrType<Value>, ICE>)
        ensures
            match r {
                Err(_) => v_dissect_spec(self.nodes(), v) is Err,
                Ok(LoadedSpineOrType::Spine(s, p)) => spine_of(v_dissect_spec(self.nodes(), v)) == Some((s, p.0@)),
                Ok(LoadedSpineOrType::Type(t)) => t == v && v_dissect_spec(self.nodes(), v) is Ok && spine_of(
                    v_dissect_spec(self.nodes(), v),
                ) is None,
            },
    {
        match self.v_dissect(v) {
            Err(e) => Err(e),
            Ok((DissectedType::Constructor(data), params)) => match data.spine {
                Some(spine) => {
                    let p = match params {
                        Some(p) => p.copied(),
                        None => ConstructorAppParams::empty(),
                    };
                    Ok(LoadedSpineOrType::Spine(spine, p))
                },
                None => Ok(LoadedSpineOrType::Type(v)),
            },
            Ok(_) => Ok(LoadedSpineOrType::Type(v)),
        }
    }

    /// The shape of the use node `u`, which must not be a constructor application.
    fn u_dissect_base(&self, u: Use) -> (r: Result<DissectedType, ICE>)
        ensures
            r == u_base(self.nodes(), u),
    {
        let uhead = match self.get_use_or_hole(u) {
            Ok(UseOrHole::Any) => {
                return Ok(DissectedType::Any);
            },
            Ok(UseOrHole::Hole(d)) => {
                return Ok(DissectedType::Hole(*d));
            },
            Ok(UseOrHole::Unification) => {
                return Err(ice());
            },
            Ok(UseOrHole::Use(h, ..)) => h,
            Err(e) => {
                return Err(e);
            },
        };
        match uhead {
            UTypeHead::UConstructorApplication(_) => Err(ice()),
            UTypeHead::UTypeConstructor(data) => Ok(DissectedType::Constructor(data.clone())),
            UTypeHead::UBot => Ok(DissectedType::Never),
            UTypeHead::UFunc { .. } => Ok(DissectedType::Func),
            UTypeHead::UObj { .. } => Ok(DissectedType::Record),
            UTypeHead::UCase(..) => Ok(DissectedType::Variant),
            UTypeHead::UEphemeralPoly(..) => Ok(DissectedType::Never),
            UTypeHead::UFilterOutConstructors(..) => Ok(DissectedType::Unknown),
            UTypeHead::UIntersection(..) => Ok(DissectedType::Unknown),
        }
    }

    /// The shape of the use node `u`, with its parameters where it is a
    /// constructor application.
    pub fn u_dissect_sub(&self, u: Use) -> (r: Result<(DissectedType, Option<&ConstructorAppParams<Use>>), ICE>)
        ensures
            match r {
                Ok((dt, p)) => u_dissect_spec(self.nodes(), u) == Ok::<_, ICE>((dt, deref_opt(p))),
                Err(_) => u_dissect_spec(self.nodes(), u) is Err,
            },
    {
        match self.get_use_or_hole(u) {
            Ok(UseOrHole::Use(UTypeHead::UConstructorApplication(data), ..)) => match self.u_dissect_base(data.tycon) {
                Ok(dt) => Ok((dt, Some(&data.params))),
                Err(e) => Err(e),
            },
            _ => match self.u_dissect_base(u) {
                Ok(dt) => Ok((dt, None)),
                Err(e) => Err(e),
            },
        }
    }

    /// The shape of the use node `u`, with its parameters where it is a
    /// constructor application.
    pub fn u_dissect(&self, u: Use) -> (r: Result<(DissectedType, Option<&ConstructorAppParams<Use>>), ICE>)
        ensures
            match r {
                Ok((dt, p)) => u_dissect_spec(self.nodes(), u) == Ok::<_, ICE>((dt, deref_opt(p))),
                Err(_) => u_dissect_spec(self.nodes(), u) is Err,
            },
    {
        self.u_dissect_sub(u)
    }

    /// The type aliases of the record value `v`; an error where `v` is not a record value type.
    pub fn get_aliases(&self, v: Value) -> (r: Result<&Vec<(StringId, TypeBinding)>, ICE>)
        ensures
            match r {
                Ok(a) => v.0@ < self.nodes().len() && (self.nodes()[v.0@ as int] matches TypeNode::Value(
                    (VTypeHead::VObj { aliases, .. }, _),
                ) && aliases == *a),
                Err(_) => !(v.0@ < self.nodes().len() && self.nodes()[v.0@ as int] matches TypeNode::Value(
                    (VTypeHead::VObj { .. }, _),
                )),
            },
    {
        proof {
            self.r.lemma_data_len();
        }
        match self.r.get(v.0) {
            Some(TypeNode::Value((VTypeHead::VObj { aliases, .. }, _))) => Ok(aliases),
            _ => Err(ice()),
        }
    }
}

} // verus!
