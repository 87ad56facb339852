use crate::ast::StringId;
use crate::strings::{interned, key_index, key_text, key_valid, lookup, resolve, same_key};
use crate::text::push_char;
use crate::tuples::{field_names, get_tuple_name, is_partial_tuple_record, partial_tuple_len, tuple_field, tuple_index, tuple_span};
use vstd::prelude::*;

verus! {

/// One step of a path into a pattern: a record field or a variant case.
#[derive(Debug, Clone, Copy)]
pub enum PathComponent {
    Field(StringId),
    Case(StringId),
}

/// A pattern built by merging paths, for printing example patterns in error
/// messages: the fields met so far, in the order they were met, or the case.
pub struct MergedPathNode {
    fields: Vec<(StringId, MergedPathNode)>,
    case: Option<(StringId, Box<MergedPathNode>)>,
}

/// The mathematical content of a `MergedPathNode`.
pub struct MergedView {
    pub fields: Seq<(StringId, MergedView)>,
    pub case: Option<(StringId, Box<MergedView>)>,
}

/// The pattern with nothing merged in: a wildcard.
pub open spec fn empty_view() -> MergedView {
    MergedView { fields: Seq::empty(), case: None }
}

/// The position of the first field of `fields`, from `i` on, whose key stands
/// for the same string position as `k`.
pub open spec fn find_key(fields: Seq<(StringId, MergedView)>, k: StringId, i: nat) -> Option<nat>
    decreases fields.len() - i,
{
    if i >= fields.len() {
        None
    } else if key_index(fields[i as int].0) == key_index(k) {
        Some(i)
    } else {
        find_key(fields, k, i + 1)
    }
}

/// The subpattern that a path component leads to; a wildcard where there is none yet.
pub open spec fn child(v: MergedView, p: PathComponent) -> MergedView {
    match p {
        PathComponent::Field(f) => match find_key(v.fields, f, 0) {
            Some(j) => v.fields[j as int].1,
            None => empty_view(),
        },
        PathComponent::Case(c) => match v.case {
            Some((_, sub)) => *sub,
            None => empty_view(),
        },
    }
}

/// The pattern with the subpattern at `p` replaced by `ch`. A new field goes
/// last; an existing case keeps its tag.
pub open spec fn with_child(v: MergedView, p: PathComponent, ch: MergedView) -> MergedView {
    match p {
        PathComponent::Field(f) => match find_key(v.fields, f, 0) {
            Some(j) => MergedView { fields: v.fields.update(j as int, (v.fields[j as int].0, ch)), case: v.case },
            None => MergedView { fields: v.fields.push((f, ch)), case: v.case },
        },
        PathComponent::Case(c) => match v.case {
            Some((c0, _)) => MergedView { fields: v.fields, case: Some((c0, Box::new(ch))) },
            None => MergedView { fields: v.fields, case: Some((c, Box::new(ch))) },
        },
    }
}

/// The pattern after merging in `path` followed by the case `final_case`.
pub open spec fn merge_path_spec(v: MergedView, path: Seq<PathComponent>, final_case: StringId) -> MergedView
    decreases path.len(),
{
    if path.len() == 0 {
        let p = PathComponent::Case(final_case);
        with_child(v, p, child(v, p))
    } else {
        with_child(v, path[0], merge_path_spec(child(v, path[0]), path.drop_first(), final_case))
    }
}

/// The keys of the fields, in order.
pub open spec fn field_keys(fields: Seq<(StringId, MergedView)>) -> Seq<StringId> {
    fields.map_values(|f: (StringId, MergedView)| f.0)
}

/// The position of the first field whose name is `t`.
pub open spec fn find_text(strings: Seq<Seq<char>>, fields: Seq<(StringId, MergedView)>, t: Seq<char>, i: nat) -> Option<nat>
    decreases fields.len() - i,
{
    if i >= fields.len() {
        None
    } else if key_text(strings, fields[i as int].0) == t {
        Some(i)
    } else {
        find_text(strings, fields, t, i + 1)
    }
}

/// What `print` can work on: every name is interned, the field names of each
/// record are distinct, and no record that is checked for tuple syntax has a
/// field `_4294967295` among its leading tuple fields.
pub open spec fn printable(strings: Seq<Seq<char>>, v: MergedView) -> bool
    decreases v,
{
    &&& forall|i: int| 0 <= i < v.fields.len() ==> key_valid(strings, #[trigger] v.fields[i].0)
    &&& forall|i: int, j: int|
        0 <= i < j < v.fields.len() ==> key_index(#[trigger] v.fields[i].0) != key_index(#[trigger] v.fields[j].0)
    &&& forall|i: int|
        0 <= i < v.fields.len() && tuple_span(field_names(strings, field_keys(v.fields)), i as nat) is Some
            ==> tuple_index(key_text(strings, #[trigger] v.fields[i].0)) != Some(u32::MAX)
    &&& forall|i: int| 0 <= i < v.fields.len() ==> printable(strings, #[trigger] v.fields[i].1)
    &&& match v.case {
        Some((c, sub)) => key_valid(strings, c) && printable(strings, *sub),
        None => true,
    }
}

/// The printed form of a pattern.
pub open spec fn print_view(strings: Seq<Seq<char>>, v: MergedView) -> Seq<char>
    decreases v, 0nat,
{
    match v.case {
        Some((c, sub)) => {
            let rest = if sub.case is Some || sub.fields.len() > 0 {
                seq![' '] + print_view(strings, *sub)
            } else {
                Seq::empty()
            };
            seq!['`'] + key_text(strings, c) + rest
        },
        None => if v.fields.len() > 0 {
            match partial_tuple_len(field_names(strings, field_keys(v.fields))) {
                Some(len) => seq!['('] + tuple_items(strings, v.fields, len as nat) + seq![')'],
                None => seq!['{'] + record_items(strings, v.fields, v.fields.len()) + seq!['}'],
            }
        } else {
            seq!['_']
        },
    }
}

/// The printed positions `0..n` of a record shown as a tuple.
pub open spec fn tuple_items(strings: Seq<Seq<char>>, fields: Seq<(StringId, MergedView)>, n: nat) -> Seq<char>
    decreases fields, n,
{
    if n == 0 {
        Seq::empty()
    } else {
        let sep = if n > 1 {
            ", "@
        } else {
            Seq::empty()
        };
        let item = match find_text(strings, fields, tuple_field((n - 1) as nat), 0) {
            Some(j) => if j < fields.len() {
                print_view(strings, fields[j as int].1)
            } else {
                Seq::empty()
            },
            None => seq!['_'],
        };
        tuple_items(strings, fields, (n - 1) as nat) + sep + item
    }
}

/// The printed first `n` fields of a record.
pub open spec fn record_items(strings: Seq<Seq<char>>, fields: Seq<(StringId, MergedView)>, n: nat) -> Seq<char>
    decreases fields, n,
{
    if n == 0 || n > fields.len() {
        Seq::empty()
    } else {
        let sep = if n > 1 {
            ", "@
        } else {
            Seq::empty()
        };
        record_items(strings, fields, (n - 1) as nat) + sep + key_text(strings, fields[n - 1].0) + ": "@
            + print_view(strings, fields[n - 1].1)
    }
}

impl MergedPathNode {
    pub closed spec fn view(self) -> MergedView
        decreases self,
    {
        MergedView {
            fields: Seq::new(
                self.fields@.len(),
                |i: int|
                    if 0 <= i < self.fields@.len() {
                        (self.fields@[i].0, self.fields@[i].1.view())
                    } else {
                        (self.fields@[0].0, empty_view())
                    },
            ),
            case: match self.case {
                Some((c, sub)) => Some((c, Box::new(sub.view()))),
                None => None,
            },
        }
    }

    /// A wildcard pattern.
    pub fn new() -> (r: Self)
        ensures
            r.view() == empty_view(),
    {
        let r = MergedPathNode { fields: Vec::new(), case: None };
        proof {
            assert(r.view().fields =~= Seq::<(StringId, MergedView)>::empty());
        }
        r
    }

    fn find_field(&self, k: &StringId) -> (r: Option<usize>)
        ensures
            r is Some ==> r->0 < self.fields@.len(),
            r is Some <==> find_key(self.view().fields, *k, 0) is Some,
            r is Some ==> find_key(self.view().fields, *k, 0) == Some(r->0 as nat),
    {
        let mut i: usize = 0;
        while i < self.fields.len()
            invariant
                i <= self.fields@.len(),
                find_key(self.view().fields, *k, 0) == find_key(self.view().fields, *k, i as nat),
            decreases self.fields@.len() - i,
        {
            if same_key(&self.fields[i].0, k) {
                return Some(i);
            }
            i = i + 1;
        }
        None
    }

    /// Merges `path[i..]` followed by the case `final_case` into the pattern.
    fn merge_path_from(&mut self, path: &[PathComponent], i: usize, final_case: StringId)
        requires
            i <= path@.len(),
        ensures
            final(self).view() == merge_path_spec(old(self).view(), path@.skip(i as int), final_case),
        decreases path@.len() - i,
    {
        let ghost rest = path@.skip(i as int);
        if i == path.len() {
            if self.case.is_none() {
                self.case = Some((final_case, Box::new(MergedPathNode::new())));
            }
            proof {
                assert(rest.len() == 0);
                assert(self.view().fields =~= old(self).view().fields);
            }
            return;
        }
        proof {
            assert(rest.drop_first() =~= path@.skip(i as int + 1));
            assert(rest[0] == path@[i as int]);
        }
        match path[i] {
            PathComponent::Field(f) => {
                let ghost v0 = old(self).view();
                let found = self.find_field(&f);
                let j = match found {
                    Some(j) => j,
                    None => {
                        self.fields.push((f, MergedPathNode::new()));
                        proof {
                            assert(self.view().fields =~= v0.fields.push((f, empty_view())));
                        }
                        self.fields.len() - 1
                    },
                };
                let ghost mid = self.view();
                proof {
                    if found is Some {
                        assert(mid == v0);
                        assert(find_key(v0.fields, f, 0) == Some(j as nat));
                        assert(mid.fields[j as int].1 == child(v0, PathComponent::Field(f)));
                    } else {
                        assert(find_key(v0.fields, f, 0) is None);
                        assert(j == v0.fields.len());
                        assert(mid.fields[j as int] == (f, empty_view()));
                        assert(mid.fields[j as int].1 == child(v0, PathComponent::Field(f)));
                    }
                }
                self.fields[j].1.merge_path_from(path, i + 1, final_case);
                proof {
                    let ch = merge_path_spec(child(v0, PathComponent::Field(f)), rest.drop_first(), final_case);
                    assert(self.fields@[j as int].1.view() == ch);
                    assert(self.view().fields =~= mid.fields.update(j as int, (mid.fields[j as int].0, ch)));
                    assert(self.view().fields =~= with_child(v0, PathComponent::Field(f), ch).fields);
                    assert(self.view() == with_child(v0, PathComponent::Field(f), ch));
                }
            },
            PathComponent::Case(c) => {
                if self.case.is_none() {
                    self.case = Some((c, Box::new(MergedPathNode::new())));
                }
                let ghost mid = self.view();
                proof {
                    assert(*(mid.case->0).1 == child(old(self).view(), PathComponent::Case(c)));
                }
                match &mut self.case {
                    Some((_, sub)) => {
                        sub.merge_path_from(path, i + 1, final_case);
                    },
                    None => {},
                }
                proof {
                    let ch = merge_path_spec(child(old(self).view(), PathComponent::Case(c)), rest.drop_first(), final_case);
                    assert(self.view().fields =~= old(self).view().fields);
                    assert(self.view() == with_child(old(self).view(), PathComponent::Case(c), ch));
                }
            },
        }
    }

    /// Merges `path` followed by the case `final_case` into the pattern.
    pub fn merge_path(&mut self, path: &[PathComponent], final_case: StringId)
        ensures
            final(self).view() == merge_path_spec(old(self).view(), path@, final_case),
    {
        self.merge_path_from(path, 0, final_case);
        proof {
            assert(path@.skip(0) =~= path@);
        }
    }
}

/// A merged pattern whose names are all interned, whose record fields are
/// distinct, and none of whose fields is named `_4294967295`.
pub open spec fn good_tree(strings: Seq<Seq<char>>, v: MergedView) -> bool
    decreases v,
{
    &&& forall|i: int|
        0 <= i < v.fields.len() ==> key_valid(strings, #[trigger] v.fields[i].0) && tuple_index(
            key_text(strings, v.fields[i].0),
        ) != Some(u32::MAX)
    &&& forall|i: int, j: int|
        0 <= i < j < v.fields.len() ==> key_index(#[trigger] v.fields[i].0) != key_index(#[trigger] v.fields[j].0)
    &&& forall|i: int| 0 <= i < v.fields.len() ==> good_tree(strings, #[trigger] v.fields[i].1)
    &&& match v.case {
        Some((c, sub)) => key_valid(strings, c) && good_tree(strings, *sub),
        None => true,
    }
}

/// A path component whose name is interned, and which is no field `_4294967295`.
pub open spec fn good_component(strings: Seq<Seq<char>>, p: PathComponent) -> bool {
    match p {
        PathComponent::Field(f) => key_valid(strings, f) && tuple_index(key_text(strings, f)) != Some(u32::MAX),
        PathComponent::Case(c) => key_valid(strings, c),
    }
}

pub proof fn lemma_good_printable(strings: Seq<Seq<char>>, v: MergedView)
    requires
        good_tree(strings, v),
    ensures
        printable(strings, v),
    decreases v,
{
    assert forall|i: int| 0 <= i < v.fields.len() implies printable(strings, #[trigger] v.fields[i].1) by {
        lemma_good_printable(strings, v.fields[i].1);
    }
    if let Some((c, sub)) = v.case {
        lemma_good_printable(strings, *sub);
    }
}

proof fn lemma_find_key(fields: Seq<(StringId, MergedView)>, k: StringId, i: nat)
    ensures
        find_key(fields, k, i) is Some ==> i <= find_key(fields, k, i)->0 < fields.len() && key_index(
            fields[find_key(fields, k, i)->0 as int].0,
        ) == key_index(k),
        find_key(fields, k, i) is None ==> forall|j: int| i <= j < fields.len() ==> key_index(#[trigger] fields[j].0) != key_index(k),
    decreases fields.len() - i,
{
    if i < fields.len() {
        lemma_find_key(fields, k, i + 1);
    }
}

proof fn lemma_merge_good(strings: Seq<Seq<char>>, v: MergedView, path: Seq<PathComponent>, final_case: StringId)
    requires
        good_tree(strings, v),
        forall|i: int| 0 <= i < path.len() ==> good_component(strings, #[trigger] path[i]),
        key_valid(strings, final_case),
    ensures
        good_tree(strings, merge_path_spec(v, path, final_case)),
    decreases path.len(),
{
    if path.len() == 0 {
        lemma_with_child_good(strings, v, PathComponent::Case(final_case), child(v, PathComponent::Case(final_case)));
    } else {
        let p = path[0];
        lemma_child_good(strings, v, p);
        assert forall|i: int| 0 <= i < path.drop_first().len() implies good_component(
            strings,
            #[trigger] path.drop_first()[i],
        ) by {
            assert(path.drop_first()[i] == path[i + 1]);
        }
        lemma_merge_good(strings, child(v, p), path.drop_first(), final_case);
        lemma_with_child_good(strings, v, p, merge_path_spec(child(v, p), path.drop_first(), final_case));
    }
}

proof fn lemma_child_good(strings: Seq<Seq<char>>, v: MergedView, p: PathComponent)
    requires
        good_tree(strings, v),
    ensures
        good_tree(strings, child(v, p)),
{
    match p {
        PathComponent::Field(f) => {
            lemma_find_key(v.fields, f, 0);
            if let Some(j) = find_key(v.fields, f, 0) {
                assert(good_tree(strings, v.fields[j as int].1));
            } else {
                assert(good_tree(strings, empty_view()));
            }
        },
        PathComponent::Case(_) => {
            assert(good_tree(strings, empty_view()));
        },
    }
}

proof fn lemma_with_child_good(strings: Seq<Seq<char>>, v: MergedView, p: PathComponent, ch: MergedView)
    requires
        good_tree(strings, v),
        good_tree(strings, ch),
        good_component(strings, p),
    ensures
        good_tree(strings, with_child(v, p, ch)),
{
    match p {
        PathComponent::Field(f) => {
            lemma_find_key(v.fields, f, 0);
            let w = with_child(v, p, ch);
            if let Some(j) = find_key(v.fields, f, 0) {
                assert forall|i: int| 0 <= i < w.fields.len() implies good_tree(strings, #[trigger] w.fields[i].1) by {
                    if i != j {
                        assert(w.fields[i] == v.fields[i]);
                    }
                }
                assert forall|a: int, b: int|
                    0 <= a < b < w.fields.len() implies key_index(#[trigger] w.fields[a].0) != key_index(
                    #[trigger] w.fields[b].0,
                ) by {
                    assert(w.fields[a].0 == v.fields[a].0);
                    assert(w.fields[b].0 == v.fields[b].0);
                }
                assert forall|i: int| 0 <= i < w.fields.len() implies key_valid(strings, #[trigger] w.fields[i].0)
                    && tuple_index(key_text(strings, w.fields[i].0)) != Some(u32::MAX) by {
                    assert(w.fields[i].0 == v.fields[i].0);
                }
            } else {
                assert forall|i: int| 0 <= i < w.fields.len() implies good_tree(strings, #[trigger] w.fields[i].1) by {
                    if i < v.fields.len() {
                        assert(w.fields[i] == v.fields[i]);
                    }
                }
                assert forall|a: int, b: int|
                    0 <= a < b < w.fields.len() implies key_index(#[trigger] w.fields[a].0) != key_index(
                    #[trigger] w.fields[b].0,
                ) by {
                    assert(w.fields[a].0 == v.fields[a].0);
                    if b < v.fields.len() {
                        assert(w.fields[b].0 == v.fields[b].0);
                    }
                }
                assert forall|i: int| 0 <= i < w.fields.len() implies key_valid(strings, #[trigger] w.fields[i].0)
                    && tuple_index(key_text(strings, w.fields[i].0)) != Some(u32::MAX) by {
                    if i < v.fields.len() {
                        assert(w.fields[i].0 == v.fields[i].0);
                    }
                }
            }
        },
        PathComponent::Case(_) => {},
    }
}

/// Merging paths of good components into a good pattern keeps it printable.
pub proof fn lemma_merged_printable(strings: Seq<Seq<char>>, v: MergedView, path: Seq<PathComponent>, final_case: StringId)
    requires
        good_tree(strings, v),
        forall|i: int| 0 <= i < path.len() ==> good_component(strings, #[trigger] path[i]),
        key_valid(strings, final_case),
    ensures
        good_tree(strings, merge_path_spec(v, path, final_case)),
        printable(strings, merge_path_spec(v, path, final_case)),
{
    lemma_merge_good(strings, v, path, final_case);
    lemma_good_printable(strings, merge_path_spec(v, path, final_case));
}

/// The fields of the view are the views of the fields.
proof fn lemma_view_fields(n: MergedPathNode)
    ensures
        n.view().fields.len() == n.fields@.len(),
        forall|j: int|
            0 <= j < n.fields@.len() ==> #[trigger] n.view().fields[j] == (n.fields@[j].0, n.fields@[j].1.view()),
{
}

/// Under distinct interned strings, finding a field by key and finding it by
/// the key's text agree.
proof fn lemma_find_key_text(strings: Seq<Seq<char>>, fields: Seq<(StringId, MergedView)>, k: StringId, i: nat)
    requires
        strings.no_duplicates(),
        key_valid(strings, k),
        forall|j: int| 0 <= j < fields.len() ==> key_valid(strings, #[trigger] fields[j].0),
    ensures
        find_key(fields, k, i) == find_text(strings, fields, key_text(strings, k), i),
    decreases fields.len() - i,
{
    if i < fields.len() {
        let a = fields[i as int].0;
        assert(key_valid(strings, a));
        if key_text(strings, a) == key_text(strings, k) {
            assert(key_index(a) == key_index(k));
        }
        lemma_find_key_text(strings, fields, k, i + 1);
    }
}

/// A text that is not interned names no field.
proof fn lemma_find_text_absent(strings: Seq<Seq<char>>, fields: Seq<(StringId, MergedView)>, t: Seq<char>, i: nat)
    requires
        !strings.contains(t),
        forall|j: int| 0 <= j < fields.len() ==> key_valid(strings, #[trigger] fields[j].0),
    ensures
        find_text(strings, fields, t, i) is None,
    decreases fields.len() - i,
{
    if i < fields.len() {
        assert(key_valid(strings, fields[i as int].0));
        assert(strings[key_index(fields[i as int].0) as int] == key_text(strings, fields[i as int].0));
        lemma_find_text_absent(strings, fields, t, i + 1);
    }
}

/// The position found is that of a field.
proof fn lemma_find_text_bound(strings: Seq<Seq<char>>, fields: Seq<(StringId, MergedView)>, t: Seq<char>, i: nat)
    ensures
        find_text(strings, fields, t, i) is Some ==> find_text(strings, fields, t, i)->0 < fields.len(),
    decreases fields.len() - i,
{
    if i < fields.len() {
        lemma_find_text_bound(strings, fields, t, i + 1);
    }
}

impl MergedPathNode {
    #[verifier::spinoff_prover]
    fn print_sub(&self, strings: &lasso::Rodeo, out: &mut String)
        requires
            printable(interned(*strings), self.view()),
            interned(*strings).no_duplicates(),
        ensures
            final(out)@ == old(out)@ + print_view(interned(*strings), self.view()),
        decreases self, 2nat,
    {
        let ghost st = interned(*strings);
        let ghost v = self.view();
        if let Some((c, sub)) = &self.case {
            push_char(out, '`');
            out.append(resolve(strings, c));
            proof {
                assert(decreases_to!(*self => self.case));
            }
            if sub.case.is_some() || sub.fields.len() > 0 {
                push_char(out, ' ');
                sub.print_sub(strings, out);
            }
            proof {
                assert(out@ =~= old(out)@ + print_view(st, v));
            }
        } else if self.fields.len() > 0 {
            let mut keys: Vec<StringId> = Vec::new();
            let mut i: usize = 0;
            while i < self.fields.len()
                invariant
                    v == self.view(),
                    i <= self.fields@.len(),
                    keys@ == field_keys(v.fields).take(i as int),
                decreases self.fields@.len() - i,
            {
                keys.push(self.fields[i].0);
                i = i + 1;
                proof {
                    assert(keys@ =~= field_keys(v.fields).take(i as int));
                }
            }
            proof {
                assert(keys@ =~= field_keys(v.fields));
                assert forall|j: int| 0 <= j < keys@.len() implies key_valid(st, #[trigger] keys@[j]) by {
                    assert(keys@[j] == v.fields[j].0);
                }
                assert forall|j: int|
                    0 <= j < keys@.len() && tuple_span(field_names(st, keys@), j as nat) is Some implies tuple_index(
                    key_text(st, #[trigger] keys@[j]),
                ) != Some(u32::MAX) by {
                    assert(keys@[j] == v.fields[j].0);
                }
            }
            let tuple_len = is_partial_tuple_record(strings, keys.as_slice());
            match tuple_len {
                Some(len) => {
                    self.print_tuple(len, strings, out);
                },
                None => {
                    proof {
                        assert(decreases_to!(*self => self.fields));
                    }
                    self.print_record(strings, out);
                },
            }
        } else {
            push_char(out, '_');
            proof {
                assert(out@ =~= old(out)@ + print_view(st, v));
            }
        }
    }

    /// Prints a record shown as a tuple of length `len`.
    #[verifier::spinoff_prover]
    #[verifier::rlimit(40)]
    fn print_tuple(&self, len: u32, strings: &lasso::Rodeo, out: &mut String)
        requires
            printable(interned(*strings), self.view()),
            interned(*strings).no_duplicates(),
            self.view().case is None,
            self.view().fields.len() > 0,
            partial_tuple_len(field_names(interned(*strings), field_keys(self.view().fields))) == Some(len),
        ensures
            final(out)@ == old(out)@ + print_view(interned(*strings), self.view()),
        decreases self, 1nat,
    {
        let ghost st = interned(*strings);
        let ghost v = self.view();
        push_char(out, '(');
        let ghost start = out@;
        let mut i: u32 = 0;
        while i < len
            invariant
                v == self.view(),
                st == interned(*strings),
                st.no_duplicates(),
                printable(st, v),
                v.case is None,
                i <= len,
                out@ == start + tuple_items(st, v.fields, i as nat),
            decreases len - i,
        {
            if i > 0 {
                out.append(", ");
            }
            let ghost before = out@;
            let key = get_tuple_name(strings, i);
            let found = match key {
                Some(k) => self.find_field(&k),
                None => None,
            };
            proof {
                lemma_find_text_bound(st, v.fields, tuple_field(i as nat), 0);
                match key {
                    Some(k) => {
                        lemma_find_key_text(st, v.fields, k, 0);
                    },
                    None => {
                        lemma_find_text_absent(st, v.fields, tuple_field(i as nat), 0);
                    },
                }
            }
            match found {
                Some(j) => {
                    proof {
                        assert(v.fields[j as int].1 == self.fields@[j as int].1.view());
                        assert(printable(st, v.fields[j as int].1));
                        assert(decreases_to!(*self => self.fields));
                    }
                    self.fields[j].1.print_sub(strings, out);
                },
                None => {
                    push_char(out, '_');
                },
            }
            i = i + 1;
            proof {
                let sep = if i > 1 {
                    ", "@
                } else {
                    Seq::<char>::empty()
                };
                assert(before == start + tuple_items(st, v.fields, (i - 1) as nat) + sep);
                assert(out@ =~= start + tuple_items(st, v.fields, i as nat));
            }
        }
        push_char(out, ')');
        proof {
            assert(out@ =~= old(out)@ + print_view(st, v));
        }
    }

    /// Prints a record that is not shown as a tuple.
    #[verifier::spinoff_prover]
    #[verifier::rlimit(40)]
    fn print_record(&self, strings: &lasso::Rodeo, out: &mut String)
        requires
            printable(interned(*strings), self.view()),
            interned(*strings).no_duplicates(),
            self.view().case is None,
            self.view().fields.len() > 0,
            partial_tuple_len(field_names(interned(*strings), field_keys(self.view().fields))) is None,
        ensures
            final(out)@ == old(out)@ + print_view(interned(*strings), self.view()),
        decreases self, 1nat,
    {
        let ghost st = interned(*strings);
        let ghost v = self.view();
        proof {
            lemma_view_fields(*self);
        }
        push_char(out, '{');
        let ghost start = out@;
        let mut i: usize = 0;
        while i < self.fields.len()
            invariant
                st == interned(*strings),
                st.no_duplicates(),
                forall|j: int| 0 <= j < v.fields.len() ==> key_valid(st, #[trigger] v.fields[j].0),
                forall|j: int| 0 <= j < v.fields.len() ==> printable(st, #[trigger] v.fields[j].1),
                v.fields.len() == self.fields@.len(),
                forall|j: int|
                    0 <= j < v.fields.len() ==> #[trigger] v.fields[j] == (self.fields@[j].0, self.fields@[j].1.view()),
                i <= self.fields@.len(),
                out@ == start + record_items(st, v.fields, i as nat),
            decreases self.fields@.len() - i,
        {
            if i > 0 {
                out.append(", ");
            }
            proof {
                assert(v.fields[i as int] == (self.fields@[i as int].0, self.fields@[i as int].1.view()));
                assert(key_valid(st, v.fields[i as int].0));
                assert(printable(st, v.fields[i as int].1));
                assert(decreases_to!(*self => self.fields));
            }
            self.print_field(i, strings, out);
            i = i + 1;
        }
        push_char(out, '}');
        proof {
            assert(out@ =~= old(out)@ + print_view(st, v));
        }
    }

    /// Prints field `i` of a record: its name and its pattern.
    fn print_field(&self, i: usize, strings: &lasso::Rodeo, out: &mut String)
        requires
            i < self.fields@.len(),
            key_valid(interned(*strings), self.fields@[i as int].0),
            printable(interned(*strings), self.fields@[i as int].1.view()),
            interned(*strings).no_duplicates(),
        ensures
            final(out)@ == old(out)@ + key_text(interned(*strings), self.fields@[i as int].0) + ": "@ + print_view(
                interned(*strings),
                self.fields@[i as int].1.view(),
            ),
        decreases self, 0nat,
    {
        out.append(resolve(strings, &self.fields[i].0));
        out.append(": ");
        proof {
            assert(decreases_to!(*self => self.fields));
        }
        self.fields[i].1.print_sub(strings, out);
    }

    /// The printed form of the pattern.
    pub fn print(&self, strings: &lasso::Rodeo) -> (r: String)
        requires
            printable(interned(*strings), self.view()),
            interned(*strings).no_duplicates(),
        ensures
            r@ == print_view(interned(*strings), self.view()),
    {
        let mut s = String::new();
        self.print_sub(strings, &mut s);
        proof {
            assert(s@ =~= print_view(interned(*strings), self.view()));
        }
        s
    }
}

} // verus!
