use crate::ast::StringId;
use crate::introspect_types::ValOrHole;
use crate::kinds::{KindVar, KindVarStore, KindVarView};
use crate::spans::{ice_message, PartView, Span, SpannedError, ICE};
use crate::templates::ParsedTypeHead;
use crate::type_core::{TypeCheckerCore, TypeNode};
use crate::types::{bot, last_entry, top, TyConDef, UTypeHead, Use, VTypeHead, Value};
use crate::parse_types::ParsedBindings;
use crate::strings::{key_index, key_usize};
use crate::text::concat2;
use crate::type_core::ScopeLvl;
use crate::unwindmap::{apply_op, apply_ops, MapOp, UnwindMap, UnwindPoint};
use crate::vec_index::{TyConDefInd, INDEX_LIMIT};
use vstd::prelude::*;

verus! {

/// What a type name is bound to.
pub enum TypeBinding {
    Con(TyConDefInd),
    Types((Value, Use), KindVar),
}

/// What a value name is bound to: its type, where it was bound, and whether it
/// is a module.
#[derive(Debug, Clone, Copy)]
pub struct ValueBinding {
    pub val: Value,
    pub span: Span,
    pub is_mod: bool,
}

impl ValueBinding {
    /// The binding of an ordinary value (not a module).
    pub fn new(val: Value, span: Span) -> (r: Self)
        ensures
            r.val == val,
            r.span == span,
            !r.is_mod,
    {
        ValueBinding { val, span, is_mod: false }
    }
}

/// The constructor that a binding of the value `v` names: the one of a plain
/// constructor type (not made from a spine).
pub open spec fn plain_con(nodes: Seq<TypeNode>, v: Value) -> Option<TyConDefInd> {
    if v.0@ != INDEX_LIMIT && v.0@ < nodes.len() {
        match nodes[v.0@ as int] {
            TypeNode::Value((VTypeHead::VTypeConstructor(d), _)) => if d.spine is None {
                Some(d.category)
            } else {
                None
            },
            _ => None,
        }
    } else {
        None
    }
}

/// Whether the value `v` can be read as a type: the bottom type, a value type or a hole.
pub open spec fn readable(nodes: Seq<TypeNode>, v: Value) -> bool {
    v.0@ == INDEX_LIMIT || (v.0@ < nodes.len() && (nodes[v.0@ as int] is Value || nodes[v.0@ as int] is Var))
}

/// Two bindings that name the same constructor, or the same types with the same kind.
pub open spec fn same_binding(a: TypeBinding, b: TypeBinding) -> bool {
    match (a, b) {
        (TypeBinding::Con(i), TypeBinding::Con(j)) => i == j,
        (TypeBinding::Types(p, k), TypeBinding::Types(q, l)) => p == q && k@ == l@,
        _ => false,
    }
}

impl TypeBinding {
    /// A copy of the binding.
    pub fn copy(&self) -> (r: Self)
        ensures
            same_binding(r, *self),
    {
        match self {
            TypeBinding::Con(i) => TypeBinding::Con(*i),
            TypeBinding::Types(p, k) => TypeBinding::Types(*p, k.clone()),
        }
    }

    /// The binding for the types `p` of kind `kind`: the constructor itself
    /// where `p` is a plain constructor type; an error where the value cannot be read.
    pub fn inspect(core: &mut TypeCheckerCore, p: (Value, Use), kind: &KindVar) -> (r: Result<Self, ICE>)
        ensures
            *final(core) == *old(core),
            r is Ok <==> readable(old(core).nodes(), p.0),
            r is Ok ==> match plain_con(old(core).nodes(), p.0) {
                Some(c) => r == Ok::<_, ICE>(TypeBinding::Con(c)),
                None => r matches Ok(TypeBinding::Types(q, k)) && q == p && k@ == kind@,
            },
    {
        match core.get_val_or_hole(p.0) {
            Err(e) => {
                return Err(e);
            },
            Ok(ValOrHole::Val(VTypeHead::VTypeConstructor(data), _)) => {
                if data.spine.is_none() {
                    return Ok(TypeBinding::Con(data.category));
                }
            },
            Ok(_) => {},
        }
        Ok(TypeBinding::Types(p, kind.clone()))
    }

    /// The type the binding stands for, at `span`, and its kind: for a
    /// constructor, new value and use nodes of it, with the kind and span of its
    /// definition (`span` for a constructor defined outside the program).
    pub fn get(&self, core: &mut TypeCheckerCore, span: Span) -> (r: Result<(ParsedTypeHead, KindVar), SpannedError>)
        requires
            old(core).wf(),
            old(core).r.len_spec() < INDEX_LIMIT,
            match self {
                TypeBinding::Con(i) => i@ < old(core).tycons.defs().len(),
                _ => true,
            },
        ensures
            match self {
                TypeBinding::Con(i) => {
                    let d = old(core).tycons.defs()[i@ as int];
                    &&& (r matches Ok((ParsedTypeHead::Type((v, u)), k)) && v.0@ == old(core).r.len_spec() && u.0@
                        == old(core).r.len_spec() + 1 && k@ == KindVarView::Known(
                        d.kind_spec(),
                        match d.span_spec() {
                            Some(s) => s,
                            None => span,
                        },
                    ))
                    &&& TypeCheckerCore::extends(
                        old(core),
                        final(core),
                        seq![
                            TypeNode::Value((VTypeHead::VTypeConstructor(crate::types::ConstructorData::plain(*i)), span)),
                            TypeNode::Use(
                                (
                                    UTypeHead::UTypeConstructor(crate::types::ConstructorData::plain(*i)),
                                    span,
                                    crate::types::UseSrc::NoSrc,
                                ),
                            ),
                        ],
                    )
                },
                TypeBinding::Types(p, kind) => {
                    &&& (r matches Ok((ParsedTypeHead::Type(q), k)) && q == *p && k@ == kind@)
                    &&& *final(core) == *old(core)
                },
            },
    {
        match self {
            TypeBinding::Con(i) => {
                let tycon_def = core.tycons.get(*i);
                let kind = tycon_def.kind().clone();
                let kind_span = match tycon_def.span() {
                    Some(s) => s,
                    None => span,
                };
                let head = ParsedTypeHead::Type(core.simple(*i, span));
                Ok((head, KindVar::Known((kind, kind_span))))
            },
            TypeBinding::Types(p, kind) => Ok((ParsedTypeHead::Type(*p), kind.clone())),
        }
    }
}

/// Whether every type alias of the module value `v` that names a constructor
/// names one of `defs`.
pub open spec fn aliases_valid(nodes: Seq<TypeNode>, v: Value, ndefs: nat) -> bool {
    v.0@ < nodes.len() ==> match nodes[v.0@ as int] {
        TypeNode::Value((VTypeHead::VObj { aliases, .. }, _)) => forall|j: int|
            0 <= j < aliases@.len() ==> match (#[trigger] aliases@[j]).1 {
                TypeBinding::Con(c) => c@ < ndefs,
                _ => true,
            },
        _ => true,
    }
}

/// The type aliases of the record value `v`, where it is one.
pub open spec fn module_aliases(nodes: Seq<TypeNode>, v: Value) -> Option<Seq<(StringId, TypeBinding)>> {
    if v.0@ < nodes.len() {
        match nodes[v.0@ as int] {
            TypeNode::Value((VTypeHead::VObj { aliases, .. }, _)) => Some(aliases@),
            _ => None,
        }
    } else {
        None
    }
}

impl ValueBinding {
    /// The type member `name` of this module binding, at `path_span`: an error
    /// where the binding is no module or the module has no such member; any type
    /// pair, of a new kind variable, where the module is the bottom type.
    pub fn get_type_member(
        &self,
        core: &mut TypeCheckerCore,
        store: &mut KindVarStore,
        name: (StringId, Span),
        mod_span: Span,
        path_span: Span,
    ) -> (r: Result<(ParsedTypeHead, KindVar), SpannedError>)
        requires
            old(core).wf(),
            old(core).r.len_spec() < INDEX_LIMIT,
            old(store)@.len() < usize::MAX,
            aliases_valid(old(core).nodes(), self.val, old(core).tycons.defs().len()),
        ensures
            !self.is_mod ==> (r matches Err(e) && e@ == seq![
                PartView::At("SyntaxError: Expected module binding."@, mod_span),
                PartView::At("Note: Variable was defined as a non-module binding here:"@, self.span),
            ]) && *final(core) == *old(core) && final(store)@ == old(store)@,
            self.is_mod && self.val.0@ == INDEX_LIMIT ==> (r matches Ok((ParsedTypeHead::Type((v, u)), k)) && v.0@
                == INDEX_LIMIT && u.0@ == INDEX_LIMIT && k@ == KindVarView::Var(old(store)@.len())) && final(store)@
                == old(store)@.push((name.1, None)) && *final(core) == *old(core),
            self.is_mod && self.val.0@ != INDEX_LIMIT ==> final(store)@ == old(store)@ && match module_aliases(
                old(core).nodes(),
                self.val,
            ) {
                None => (r matches Err(e) && e@ == seq![PartView::Text(ice_message())]) && *final(core) == *old(core),
                Some(aliases) => match last_entry(aliases, name.0) {
                    None => (r matches Err(e) && e@ == seq![
                        PartView::At("TypeError: Undefined module type member:"@, name.1),
                        PartView::At("Note: Module was defined here:"@, self.span),
                    ]) && *final(core) == *old(core),
                    Some(TypeBinding::Con(i)) => (r matches Ok((ParsedTypeHead::Type((v, u)), k)) && v.0@
                        == old(core).r.len_spec() && u.0@ == old(core).r.len_spec() + 1 && k@ == KindVarView::Known(
                        old(core).tycons.defs()[i@ as int].kind_spec(),
                        match old(core).tycons.defs()[i@ as int].span_spec() {
                            Some(s) => s,
                            None => path_span,
                        },
                    )) && TypeCheckerCore::extends(
                        old(core),
                        final(core),
                        seq![
                            TypeNode::Value((VTypeHead::VTypeConstructor(crate::types::ConstructorData::plain(i)), path_span)),
                            TypeNode::Use(
                                (
                                    UTypeHead::UTypeConstructor(crate::types::ConstructorData::plain(i)),
                                    path_span,
                                    crate::types::UseSrc::NoSrc,
                                ),
                            ),
                        ],
                    ),
                    Some(TypeBinding::Types(p, kind)) => (r matches Ok((ParsedTypeHead::Type(q), k)) && q == p && k@
                        == kind@) && *final(core) == *old(core),
                },
            },
    {
        if !self.is_mod {
            return Err(
                SpannedError::new2(
                    "SyntaxError: Expected module binding.",
                    mod_span,
                    "Note: Variable was defined as a non-module binding here:",
                    self.span,
                ),
            );
        }
        if self.val.0.i() == INDEX_LIMIT as usize {
            let p = (bot(), top());
            proof {
                crate::vec_index::TypeNodeInd::lemma_view_injective(self.val.0, p.0.0);
            }
            return Ok((ParsedTypeHead::Type(p), KindVar::new_var(store, name.1)));
        }
        let binding = {
            let aliases = match core.get_aliases(self.val) {
                Ok(a) => a,
                Err(e) => {
                    return Err(SpannedError::from_ice(e));
                },
            };
            match find_binding(aliases, &name.0) {
                Some(b) => b,
                None => {
                    return Err(
                        SpannedError::new2(
                            "TypeError: Undefined module type member:",
                            name.1,
                            "Note: Module was defined here:",
                            self.span,
                        ),
                    );
                },
            }
        };
        proof {
            let aliases = module_aliases(core.nodes(), self.val)->Some_0;
            lemma_last_entry_in(aliases, name.0);
            if let Some(TypeBinding::Con(c)) = last_entry(aliases, name.0) {
                let j = choose|j: int| 0 <= j < aliases.len() && #[trigger] aliases[j].1 == TypeBinding::Con(c);
                assert(match aliases[j].1 {
                    TypeBinding::Con(c) => c@ < core.tycons.defs().len(),
                    _ => true,
                });
            }
        }
        binding.get(core, path_span)
    }
}

/// The entry that `last_entry` finds is an entry of the sequence.
proof fn lemma_last_entry_in<V>(s: Seq<(StringId, V)>, k: StringId)
    ensures
        last_entry(s, k) matches Some(b) ==> exists|j: int| 0 <= j < s.len() && #[trigger] s[j].1 == b,
    decreases s.len(),
{
    if s.len() > 0 {
        lemma_last_entry_in(s.drop_last(), k);
        if crate::strings::key_index(s.last().0) != crate::strings::key_index(k) {
            if let Some(b) = last_entry(s.drop_last(), k) {
                let j = choose|j: int| 0 <= j < s.drop_last().len() && #[trigger] s.drop_last()[j].1 == b;
                assert(s[j].1 == b);
            }
        } else {
            assert(s[s.len() - 1].1 == s.last().1);
        }
    }
}

/// A copy of the binding of the last entry named `k`, as a map keeps it.
fn find_binding(s: &Vec<(StringId, TypeBinding)>, k: &StringId) -> (r: Option<TypeBinding>)
    ensures
        match last_entry(s@, *k) {
            None => r is None,
            Some(b) => r matches Some(c) && same_binding(c, b),
        },
{
    let mut i = s.len();
    proof {
        assert(s@.subrange(0, i as int) =~= s@);
    }
    while i > 0
        invariant
            i <= s@.len(),
            last_entry(s@, *k) == last_entry(s@.subrange(0, i as int), *k),
        decreases i,
    {
        let ghost pre = s@.subrange(0, i as int);
        proof {
            assert(pre.drop_last() =~= s@.subrange(0, i - 1));
            assert(pre.last() == s@[i - 1]);
        }
        if crate::strings::same_key(&s[i - 1].0, k) {
            return Some(s[i - 1].1.copy());
        }
        i = i - 1;
    }
    None
}

/// A name's entry in a binding map: its binding, or where a binding of that
/// name was hidden, or where a definition could have been made recursive to
/// give it.
pub enum MaybeBinding<T> {
    Def(T),
    Hidden(Span),
    RecHint(Span),
}

/// The bindings of names, by the position of each name among the interned
/// strings, whose changes can be undone.
pub struct BindingMap<T>(pub UnwindMap<usize, MaybeBinding<T>>);

/// The key a binding map files the name `name` under.
pub open spec fn slot(name: StringId) -> usize {
    key_index(name) as usize
}

/// The message for an undefined name of the sort `msg`.
pub open spec fn undefined_msg(msg: Seq<char>) -> Seq<char> {
    "SyntaxError: Undefined "@ + msg
}

/// What looking up an entry gives: the binding, or the report of the error.
pub open spec fn lookup_result<T>(e: Option<MaybeBinding<T>>, msg: Seq<char>, span: Span) -> Result<T, Seq<PartView>> {
    match e {
        Some(MaybeBinding::Def(b)) => Ok(b),
        Some(MaybeBinding::Hidden(h)) => Err(
            seq![
                PartView::At(undefined_msg(msg), span),
                PartView::At("Note: A binding with this name was defined previously but was hidden here:"@, h),
            ],
        ),
        Some(MaybeBinding::RecHint(d)) => Err(
            seq![
                PartView::At(undefined_msg(msg), span),
                PartView::Text("Hint: Consider making the definition recursive like this:"@),
                PartView::Insert("rec "@, d, ""@),
            ],
        ),
        None => Err(seq![PartView::At(undefined_msg(msg), span)]),
    }
}

broadcast use vstd::std_specs::hash::axiom_usize_obeys_hash_table_key_model;

impl<T> BindingMap<T> {
    /// No bindings.
    pub fn new() -> (r: Self)
        ensures
            r.0@ == Map::<usize, MaybeBinding<T>>::empty(),
            r.0.log().len() == 0,
    {
        BindingMap(UnwindMap::new())
    }

    /// Binds `name` to `binding`.
    pub fn insert(&mut self, name: StringId, binding: T)
        ensures
            (final(self).0@, final(self).0.log()) == apply_op(
                old(self).0@,
                old(self).0.log(),
                MapOp::Insert(slot(name), MaybeBinding::Def(binding)),
            ),
    {
        let k = key_usize(&name);
        self.0.insert(k, MaybeBinding::Def(binding));
    }

    /// The binding of `name`, a name of the sort `msg` looked up at `span`;
    /// an error where it is not bound, with a note where it was hidden and a
    /// hint where its definition could be made recursive.
    pub fn get(&self, name: StringId, msg: &str, span: Span) -> (r: Result<&T, SpannedError>)
        ensures
            match lookup_result(self.0@.get(slot(name)), msg@, span) {
                Ok(b) => r matches Ok(x) && *x == b,
                Err(parts) => r matches Err(e) && e@ == parts,
            },
    {
        let k = key_usize(&name);
        proof {
            reveal_strlit("SyntaxError: Undefined ");
        }
        match self.0.get(&k) {
            Some(MaybeBinding::Def(b)) => Ok(b),
            Some(MaybeBinding::Hidden(hidden_by)) => {
                let m = concat2("SyntaxError: Undefined ", msg);
                Err(
                    SpannedError::new2(
                        m.as_str(),
                        span,
                        "Note: A binding with this name was defined previously but was hidden here:",
                        *hidden_by,
                    ),
                )
            },
            Some(MaybeBinding::RecHint(def_span)) => {
                let m = concat2("SyntaxError: Undefined ", msg);
                let mut e = SpannedError::new1(m.as_str(), span);
                e.push_str("Hint: Consider making the definition recursive like this:");
                e.push_insert("rec ", *def_span, "");
                Err(e)
            },
            None => {
                let m = concat2("SyntaxError: Undefined ", msg);
                Err(SpannedError::new1(m.as_str(), span))
            },
        }
    }

    /// Hides the binding of `name`, if there is one, noting that it was hidden at `hidden_by`.
    pub fn hide_name(&mut self, name: StringId, hidden_by: Span)
        ensures
            old(self).0@.contains_key(slot(name)) ==> (final(self).0@, final(self).0.log()) == apply_op(
                old(self).0@,
                old(self).0.log(),
                MapOp::Insert(slot(name), MaybeBinding::Hidden(hidden_by)),
            ),
            !old(self).0@.contains_key(slot(name)) ==> final(self).0@ == old(self).0@ && final(self).0.log()
                == old(self).0.log(),
    {
        let k = key_usize(&name);
        if self.0.get(&k).is_some() {
            self.0.insert(k, MaybeBinding::Hidden(hidden_by));
        }
    }

    /// Notes that a definition at `def_span` could be made recursive to bind
    /// `name`, unless `name` is bound.
    pub fn rec_hint(&mut self, name: StringId, def_span: Span)
        ensures
            !(old(self).0@.get(slot(name)) matches Some(MaybeBinding::Def(_))) ==> (final(self).0@, final(self).0.log())
                == apply_op(old(self).0@, old(self).0.log(), MapOp::Insert(slot(name), MaybeBinding::RecHint(def_span))),
            old(self).0@.get(slot(name)) matches Some(MaybeBinding::Def(_)) ==> final(self).0@ == old(self).0@
                && final(self).0.log() == old(self).0.log(),
    {
        let k = key_usize(&name);
        let is_def = match self.0.get(&k) {
            Some(MaybeBinding::Def(..)) => true,
            _ => false,
        };
        if !is_def {
            self.0.insert(k, MaybeBinding::RecHint(def_span));
        }
    }
}

/// The insertions that binding each `(name, binding)` of `s` in order makes.
pub open spec fn def_ops<T>(s: Seq<(StringId, T)>) -> Seq<MapOp<usize, MaybeBinding<T>>> {
    s.map_values(|e: (StringId, T)| MapOp::Insert(slot(e.0), MaybeBinding::Def(e.1)))
}

/// The value bindings of variables `(name, (span, type))`.
pub open spec fn var_entries(s: Seq<(StringId, (Span, Value))>) -> Seq<(StringId, ValueBinding)> {
    s.map_values(|e: (StringId, (Span, Value))| (e.0, ValueBinding { val: e.1.1, span: e.1.0, is_mod: false }))
}

/// The type bindings of constructors `(name, constructor)`.
pub open spec fn con_entries(s: Seq<(StringId, TyConDefInd)>) -> Seq<(StringId, TypeBinding)> {
    s.map_values(|e: (StringId, TyConDefInd)| (e.0, TypeBinding::Con(e.1)))
}

/// The names in scope: values and types, with the scope level.
pub struct Bindings {
    pub vars: BindingMap<ValueBinding>,
    pub types: BindingMap<TypeBinding>,
    pub scopelvl: ScopeLvl,
}

impl Bindings {
    /// No names, at the outermost scope level.
    pub fn new() -> (r: Self)
        ensures
            r.vars.0@ == Map::<usize, MaybeBinding<ValueBinding>>::empty(),
            r.types.0@ == Map::<usize, MaybeBinding<TypeBinding>>::empty(),
            r.vars.0.log().len() == 0,
            r.types.0.log().len() == 0,
            r.scopelvl.0 == 0,
    {
        Bindings { vars: BindingMap::new(), types: BindingMap::new(), scopelvl: ScopeLvl::min_level() }
    }

    /// The built-in types `types`, bound once and for all.
    pub fn new_with_builtins(types: &[(StringId, TyConDefInd)]) -> (r: Self)
        ensures
            r.vars.0@ == Map::<usize, MaybeBinding<ValueBinding>>::empty(),
            r.types.0@ == apply_ops(
                Map::<usize, MaybeBinding<TypeBinding>>::empty(),
                Seq::empty(),
                def_ops(con_entries(types@)),
            ).0,
            r.vars.0.log().len() == 0,
            r.types.0.log().len() == 0,
            r.scopelvl.0 == 0,
    {
        let mut this = Self::new();
        let mut i: usize = 0;
        while i < types.len()
            invariant
                i <= types@.len(),
                this.vars.0@ == Map::<usize, MaybeBinding<ValueBinding>>::empty(),
                this.vars.0.log().len() == 0,
                this.scopelvl.0 == 0,
                (this.types.0@, this.types.0.log()) == apply_ops(
                    Map::<usize, MaybeBinding<TypeBinding>>::empty(),
                    Seq::empty(),
                    def_ops(con_entries(types@.take(i as int))),
                ),
            decreases types@.len() - i,
        {
            let (name, ind) = types[i];
            this.types.insert(name, TypeBinding::Con(ind));
            proof {
                assert(def_ops(con_entries(types@.take(i + 1))).drop_last() =~= def_ops(con_entries(types@.take(i as int))));
                assert(def_ops(con_entries(types@.take(i + 1))).last() == MapOp::Insert(
                    slot(name),
                    MaybeBinding::Def(TypeBinding::Con(ind)),
                ));
            }
            i = i + 1;
        }
        proof {
            assert(types@.take(i as int) =~= types@);
        }
        this.make_permanent();
        this
    }

    /// Marks the present bindings and scope level, so that `unwind` can return to them.
    pub fn unwind_point(&mut self) -> (r: (UnwindPoint, UnwindPoint, ScopeLvl))
        ensures
            final(self).vars.0@ == old(self).vars.0@,
            final(self).types.0@ == old(self).types.0@,
            final(self).vars.0.log() == old(self).vars.0.log(),
            final(self).types.0.log() == old(self).types.0.log(),
            final(self).scopelvl == old(self).scopelvl,
            r.0@ == old(self).vars.0.log().len(),
            r.1@ == old(self).types.0.log().len(),
            r.2 == old(self).scopelvl,
    {
        (self.vars.0.unwind_point(), self.types.0.unwind_point(), self.scopelvl)
    }

    /// Returns the bindings and scope level to the point `n`.
    pub fn unwind(&mut self, n: (UnwindPoint, UnwindPoint, ScopeLvl))
        ensures
            final(self).vars.0@ == old(self).vars.0.state_at(n.0@),
            final(self).types.0@ == old(self).types.0.state_at(n.1@),
            n.0@ <= old(self).vars.0.log().len() ==> final(self).vars.0.log() == old(self).vars.0.log().take(n.0@ as int),
            n.1@ <= old(self).types.0.log().len() ==> final(self).types.0.log() == old(self).types.0.log().take(n.1@ as int),
            final(self).scopelvl == n.2,
    {
        self.vars.0.unwind(n.0);
        self.types.0.unwind(n.1);
        self.scopelvl = n.2;
    }

    /// Forgets the change logs: later unwinds cannot go back past this point.
    pub fn make_permanent(&mut self)
        ensures
            final(self).vars.0@ == old(self).vars.0@,
            final(self).types.0@ == old(self).types.0@,
            final(self).vars.0.log().len() == 0,
            final(self).types.0.log().len() == 0,
            final(self).scopelvl == old(self).scopelvl,
    {
        self.vars.0.make_permanent();
        self.types.0.make_permanent();
    }

    /// Binds the variables and the type constructors of `other`, in order.
    pub fn add_bindings(&mut self, other: ParsedBindings)
        ensures
            (final(self).vars.0@, final(self).vars.0.log()) == apply_ops(old(self).vars.0@, old(self).vars.0.log(), def_ops(other.vars@)),
            (final(self).types.0@, final(self).types.0.log()) == apply_ops(
                old(self).types.0@,
                old(self).types.0.log(),
                def_ops(con_entries(other.types@)),
            ),
            final(self).scopelvl == old(self).scopelvl,
    {
        let mut i: usize = 0;
        while i < other.vars.len()
            invariant
                i <= other.vars@.len(),
                (self.vars.0@, self.vars.0.log()) == apply_ops(old(self).vars.0@, old(self).vars.0.log(), def_ops(other.vars@.take(i as int))),
                self.types == old(self).types,
                self.scopelvl == old(self).scopelvl,
            decreases other.vars@.len() - i,
        {
            let (name, vb) = other.vars[i];
            self.vars.insert(name, vb);
            proof {
                assert(def_ops(other.vars@.take(i + 1)).drop_last() =~= def_ops(other.vars@.take(i as int)));
            }
            i = i + 1;
        }
        proof {
            assert(other.vars@.take(i as int) =~= other.vars@);
        }
        let mut j: usize = 0;
        while j < other.types.len()
            invariant
                j <= other.types@.len(),
                (self.vars.0@, self.vars.0.log()) == apply_ops(old(self).vars.0@, old(self).vars.0.log(), def_ops(other.vars@)),
                (self.types.0@, self.types.0.log()) == apply_ops(
                    old(self).types.0@,
                    old(self).types.0.log(),
                    def_ops(con_entries(other.types@.take(j as int))),
                ),
                self.scopelvl == old(self).scopelvl,
            decreases other.types@.len() - j,
        {
            let (name, tycon) = other.types[j];
            self.types.insert(name, TypeBinding::Con(tycon));
            proof {
                assert(def_ops(con_entries(other.types@.take(j + 1))).drop_last() =~= def_ops(con_entries(other.types@.take(j as int))));
                assert(def_ops(con_entries(other.types@.take(j + 1))).last() == MapOp::Insert(
                    slot(name),
                    MaybeBinding::Def(TypeBinding::Con(tycon)),
                ));
            }
            j = j + 1;
        }
        proof {
            assert(other.types@.take(j as int) =~= other.types@);
        }
    }

    /// Binds each variable `(name, (span, type))` of `other`, in order.
    pub fn add_var_bindings(&mut self, other: &[(StringId, (Span, Value))])
        ensures
            (final(self).vars.0@, final(self).vars.0.log()) == apply_ops(
                old(self).vars.0@,
                old(self).vars.0.log(),
                def_ops(var_entries(other@)),
            ),
            final(self).types == old(self).types,
            final(self).scopelvl == old(self).scopelvl,
    {
        let mut i: usize = 0;
        while i < other.len()
            invariant
                i <= other@.len(),
                (self.vars.0@, self.vars.0.log()) == apply_ops(
                    old(self).vars.0@,
                    old(self).vars.0.log(),
                    def_ops(var_entries(other@.take(i as int))),
                ),
                self.types == old(self).types,
                self.scopelvl == old(self).scopelvl,
            decreases other@.len() - i,
        {
            let (name, (span, v)) = other[i];
            self.vars.insert(name, ValueBinding::new(v, span));
            proof {
                assert(def_ops(var_entries(other@.take(i + 1))).drop_last() =~= def_ops(var_entries(other@.take(i as int))));
                assert(def_ops(var_entries(other@.take(i + 1))).last() == MapOp::Insert(
                    slot(name),
                    MaybeBinding::Def(ValueBinding { val: v, span, is_mod: false }),
                ));
            }
            i = i + 1;
        }
        proof {
            assert(other@.take(i as int) =~= other@);
        }
    }

    /// The binding of the variable `name`, looked up at `span`.
    pub fn lookup_var(&self, name: StringId, span: Span) -> (r: Result<&ValueBinding, SpannedError>)
        ensures
            match lookup_result(self.vars.0@.get(slot(name)), "variable"@, span) {
                Ok(b) => r matches Ok(x) && *x == b,
                Err(parts) => r matches Err(e) && e@ == parts,
            },
    {
        self.vars.get(name, "variable", span)
    }

    /// The binding of the type `name`, looked up at `span`.
    pub fn lookup_type(&self, name: StringId, span: Span) -> (r: Result<&TypeBinding, SpannedError>)
        ensures
            match lookup_result(self.types.0@.get(slot(name)), "type"@, span) {
                Ok(b) => r matches Ok(x) && *x == b,
                Err(parts) => r matches Err(e) && e@ == parts,
            },
    {
        self.types.get(name, "type", span)
    }
}

} // verus!
