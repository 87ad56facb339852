use std::collections::hash_map::Entry;
use std::collections::HashMap;
use std::hash::Hash;
use vstd::prelude::*;
use vstd::std_specs::hash::{obeys_key_model, spec_keys_iter};
use vstd::std_specs::iter::IteratorSpec;

verus! {

/// A hash map that remembers the order in which its keys were first inserted.
///
/// `keys` lists the keys in insertion order; `m` holds the entries.
/// Raw removals from `m` may leave stale keys in `keys` until `retain` tidies it.
#[derive(Debug)]
pub struct OrderedMap<K, V> {
    pub keys: Vec<K>,
    pub m: HashMap<K, V>,
}

/// The subsequence of `keys` whose keys have an entry in `m`.
pub open spec fn present_keys<K, V>(keys: Seq<K>, m: Map<K, V>) -> Seq<K> {
    keys.filter(|k: K| m.contains_key(k))
}

impl<K: Copy + Eq + Hash, V> OrderedMap<K, V> {
    /// The entries of the map.
    pub open spec fn view(&self) -> Map<K, V> {
        self.m@
    }

    /// The keys of the entries, in the order in which they were inserted.
    pub open spec fn order(&self) -> Seq<K> {
        present_keys(self.keys@, self.m@)
    }

    /// Every listed key is listed once, and every entry's key is listed.
    pub open spec fn loose(&self) -> bool {
        &&& self.keys@.no_duplicates()
        &&& forall|k: K| self.m@.contains_key(k) ==> #[trigger] self.keys@.contains(k)
    }

    /// The listed keys are exactly the keys of the entries, each listed once.
    pub open spec fn wf(&self) -> bool {
        &&& self.loose()
        &&& forall|i: int| 0 <= i < self.keys@.len() ==> self.m@.contains_key(#[trigger] self.keys@[i])
    }

    pub fn new() -> (r: Self)
        ensures
            r.wf(),
            r@ == Map::<K, V>::empty(),
            r.keys@ == Seq::<K>::empty(),
    {
        Self { keys: Vec::new(), m: HashMap::new() }
    }

    /// Inserts `v` under `k`, returning the value that was there before.
    /// A key seen for the first time goes to the end of the order.
    pub fn insert(&mut self, k: K, v: V) -> (old_v: Option<V>)
        requires
            obeys_key_model::<K>(),
        ensures
            final(self)@ == old(self)@.insert(k, v),
            old_v == old(self)@.get(k),
            old(self)@.contains_key(k) ==> final(self).keys@ == old(self).keys@,
            !old(self)@.contains_key(k) ==> final(self).keys@ == old(self).keys@.push(k),
            old(self).wf() ==> final(self).wf(),
    {
        let ghost old_keys = self.keys@;
        let ghost was_wf = self.wf();
        let old = self.m.insert(k, v);
        if old.is_none() {
            self.keys.push(k);
            proof {
                if was_wf {
                    assert(!old_keys.contains(k));
                    assert forall|j: K| self.m@.contains_key(j) implies #[trigger] self.keys@.contains(j) by {
                        if j != k {
                            assert(old_keys.contains(j));
                            let idx = choose|idx: int| 0 <= idx < old_keys.len() && old_keys[idx] == j;
                            assert(self.keys@[idx] == j);
                        } else {
                            assert(self.keys@[old_keys.len() as int] == k);
                        }
                    }
                }
            }
        }
        old
    }

    /// Returns a mutable reference to the value under `k`, inserting the value
    /// made by `f` first if there is none.
    pub fn entry_or_insert_with<F: FnOnce() -> V>(&mut self, k: K, f: F) -> (r: &mut V)
        requires
            obeys_key_model::<K>(),
            !old(self)@.contains_key(k) ==> f.requires(()),
        ensures
            old(self).wf() ==> final(self).wf(),
            old(self)@.contains_key(k) ==> {
                &&& *r == old(self)@[k]
                &&& final(self).keys@ == old(self).keys@
            },
            !old(self)@.contains_key(k) ==> {
                &&& f.ensures((), *r)
                &&& final(self).keys@ == old(self).keys@.push(k)
            },
            final(self)@ == old(self)@.insert(k, *final(r)),
    {
        if !self.m.contains_key(&k) {
            let v = f();
            self.insert(k, v);
        }
        let ghost mid = self.m@;
        match self.m.entry(k) {
            Entry::Occupied(o) => o.into_mut(),
            Entry::Vacant(_) => {
                proof {
                    assert(mid.contains_key(k));
                    assert(false);
                }
                vstd::pervasive::unreached()
            },
        }
    }

    /// The entries in insertion order.
    pub fn iter(&self) -> (r: Vec<(K, &V)>)
        requires
            obeys_key_model::<K>(),
        ensures
            r@.len() == self.order().len(),
            forall|i: int|
                0 <= i < r@.len() ==> {
                    &&& #[trigger] r@[i].0 == self.order()[i]
                    &&& *r@[i].1 == self@[self.order()[i]]
                },
    {
        let mut r: Vec<(K, &V)> = Vec::new();
        let n = self.keys.len();
        let mut i: usize = 0;
        while i < n
            invariant
                n == self.keys@.len(),
                0 <= i <= n,
                obeys_key_model::<K>(),
                r@.len() == present_keys(self.keys@.take(i as int), self.m@).len(),
                forall|j: int|
                    0 <= j < r@.len() ==> {
                        &&& #[trigger] r@[j].0 == present_keys(self.keys@.take(i as int), self.m@)[j]
                        &&& *r@[j].1 == self.m@[r@[j].0]
                    },
            decreases n - i,
        {
            let k = self.keys[i];
            let ghost pre = self.keys@.take(i as int);
            proof {
                assert(self.keys@.take(i + 1) =~= pre.push(k));
                lemma_filter_push(pre, k, |x: K| self.m@.contains_key(x));
            }
            match self.m.get(&k) {
                Some(v) => {
                    r.push((k, v));
                },
                None => {},
            }
            i = i + 1;
        }
        proof {
            assert(self.keys@.take(n as int) =~= self.keys@);
        }
        r
    }

    /// Consumes the map, giving its entries in insertion order.
    pub fn into_iter(self) -> (r: Vec<(K, V)>)
        requires
            self.keys@.no_duplicates(),
            forall|i: int| 0 <= i < self.keys@.len() ==> self@.contains_key(#[trigger] self.keys@[i]),
            obeys_key_model::<K>(),
        ensures
            self.order() == self.keys@,
            r@.len() == self.keys@.len(),
            forall|i: int|
                0 <= i < r@.len() ==> {
                    &&& #[trigger] r@[i].0 == self.keys@[i]
                    &&& r@[i].1 == self@[self.keys@[i]]
                },
    {
        let ghost orig = self.m@;
        proof {
            lemma_filter_all(self.keys@, |x: K| self.m@.contains_key(x));
        }
        let OrderedMap { keys, mut m } = self;
        let mut r: Vec<(K, V)> = Vec::new();
        let n = keys.len();
        let mut i: usize = 0;
        while i < n
            invariant
                n == keys@.len(),
                0 <= i <= n,
                obeys_key_model::<K>(),
                keys@.no_duplicates(),
                forall|j: int| 0 <= j < keys@.len() ==> orig.contains_key(#[trigger] keys@[j]),
                r@.len() == i,
                forall|j: int|
                    0 <= j < i ==> {
                        &&& #[trigger] r@[j].0 == keys@[j]
                        &&& r@[j].1 == orig[keys@[j]]
                    },
                forall|j: int| i <= j < n ==> m@.contains_key(#[trigger] keys@[j]),
                forall|k: K| #[trigger] m@.contains_key(k) ==> orig.contains_key(k) && m@[k] == orig[k],
            decreases n - i,
        {
            let k = keys[i];
            let ghost before = m@;
            let v = m.remove(&k);
            proof {
                assert(m@ == before.remove(k));
                assert forall|j: int| i + 1 <= j < n implies m@.contains_key(#[trigger] keys@[j]) by {
                    assert(keys@[j] != keys@[i as int]);
                }
            }
            match v {
                Some(v) => {
                    r.push((k, v));
                },
                None => {
                    proof {
                        assert(false);
                    }
                },
            }
            i = i + 1;
        }
        r
    }

    /// Keeps the entries whose key `f` accepts, and drops stale keys from the order.
    pub fn retain<F: Fn(&K) -> bool>(&mut self, f: F)
        requires
            obeys_key_model::<K>(),
            forall|k: K| #[trigger] f.requires((&k,)),
        ensures
            forall|k: K|
                #[trigger] final(self)@.contains_key(k) ==> old(self)@.contains_key(k) && final(self)@[k]
                    == old(self)@[k] && f.ensures((&k,), true),
            forall|k: K|
                old(self)@.contains_key(k) && !#[trigger] final(self)@.contains_key(k) ==> f.ensures(
                    (&k,),
                    false,
                ),
            final(self).keys@ == present_keys(old(self).keys@, final(self)@),
            old(self).loose() ==> final(self).wf(),
    {
        let ghost orig = self.m@;
        let ghost keys0 = self.keys@;
        let all = entry_keys(&self.m);
        let n = all.len();
        proof {
            assert forall|j: int| 0 <= j < n implies self.m@.contains_key(#[trigger] all@[j]) by {
                assert(all@.contains(all@[j]));
            }
        }
        let mut i: usize = 0;
        while i < n
            invariant
                n == all@.len(),
                0 <= i <= n,
                obeys_key_model::<K>(),
                self.keys@ == keys0,
                keys0 == old(self).keys@,
                orig == old(self)@,
                all@.no_duplicates(),
                forall|k: K| #[trigger] f.requires((&k,)),
                forall|k: K| orig.contains_key(k) <==> #[trigger] all@.contains(k),
                forall|k: K|
                    #[trigger] self.m@.contains_key(k) ==> orig.contains_key(k) && self.m@[k] == orig[k],
                forall|j: int| i <= j < n ==> self.m@.contains_key(#[trigger] all@[j]),
                forall|j: int|
                    0 <= j < i && self.m@.contains_key(#[trigger] all@[j]) ==> f.ensures((&all@[j],), true),
                forall|j: int|
                    0 <= j < i && !self.m@.contains_key(#[trigger] all@[j]) ==> f.ensures((&all@[j],), false),
            decreases n - i,
        {
            let k = all[i];
            proof {
                assert(all@.contains(k));
            }
            let keep = f(&k);
            if !keep {
                let ghost before = self.m@;
                self.m.remove(&k);
                proof {
                    assert(self.m@ == before.remove(k));
                    assert forall|j: int| i + 1 <= j < n implies self.m@.contains_key(#[trigger] all@[j]) by {
                        assert(all@[j] != all@[i as int]);
                    }
                    assert forall|j: int|
                        0 <= j < i && self.m@.contains_key(#[trigger] all@[j]) implies f.ensures((&all@[j],), true) by {
                        assert(all@[j] != all@[i as int]);
                    }
                    assert forall|j: int|
                        0 <= j < i && !self.m@.contains_key(#[trigger] all@[j]) implies f.ensures((&all@[j],), false) by {
                        assert(all@[j] != all@[i as int]);
                        assert(!before.contains_key(all@[j]));
                    }
                }
            }
            i = i + 1;
        }
        proof {
            assert forall|k: K| #[trigger] self.m@.contains_key(k) implies f.ensures((&k,), true) by {
                assert(all@.contains(k));
                let j = choose|j: int| 0 <= j < n && all@[j] == k;
            }
            assert forall|k: K| orig.contains_key(k) && !#[trigger] self.m@.contains_key(k) implies f.ensures(
                (&k,),
                false,
            ) by {
                assert(all@.contains(k));
                let j = choose|j: int| 0 <= j < n && all@[j] == k;
            }
        }
        let n = self.keys.len();
        let ghost old_keys = self.keys@;
        let mut new_keys: Vec<K> = Vec::new();
        let mut i: usize = 0;
        while i < n
            invariant
                n == self.keys@.len(),
                old_keys == self.keys@,
                old_keys == old(self).keys@,
                0 <= i <= n,
                obeys_key_model::<K>(),
                new_keys@ == present_keys(old_keys.take(i as int), self.m@),
            decreases n - i,
        {
            let k = self.keys[i];
            proof {
                assert(old_keys.take(i + 1) =~= old_keys.take(i as int).push(k));
                lemma_filter_push(old_keys.take(i as int), k, |x: K| self.m@.contains_key(x));
            }
            if self.m.contains_key(&k) {
                new_keys.push(k);
            }
            i = i + 1;
        }
        proof {
            assert(old_keys.take(n as int) =~= old_keys);
            if old(self).loose() {
                lemma_filter_no_duplicates(old_keys, |x: K| self.m@.contains_key(x));
                assert forall|k: K| self.m@.contains_key(k) implies #[trigger] new_keys@.contains(k) by {
                    lemma_filter_contains(old_keys, |x: K| self.m@.contains_key(x), k);
                }
            }
            assert forall|j: int| 0 <= j < new_keys@.len() implies self.m@.contains_key(#[trigger] new_keys@[j]) by {
                lemma_filter_contains(old_keys, |x: K| self.m@.contains_key(x), new_keys@[j]);
            }
        }
        self.keys = new_keys;
    }
}

/// Filtering a sequence extended by one element.
pub proof fn lemma_filter_push<A>(s: Seq<A>, a: A, p: spec_fn(A) -> bool)
    ensures
        s.push(a).filter(p) == (if p(a) { s.filter(p).push(a) } else { s.filter(p) }),
{
    reveal(Seq::filter);
    assert(s.push(a).drop_last() =~= s);
}

/// The keys of the entries of `m`, each once, in the order the map walks them.
fn entry_keys<K: Copy + Eq + Hash, V>(m: &HashMap<K, V>) -> (r: Vec<K>)
    requires
        obeys_key_model::<K>(),
    ensures
        r@.no_duplicates(),
        forall|k: K| m@.contains_key(k) <==> #[trigger] r@.contains(k),
{
    broadcast use vstd::std_specs::hash::axiom_spec_keys_iter;
    broadcast use vstd::std_specs::hash::axiom_random_state_builds_valid_hashers;

    let mut r: Vec<K> = Vec::new();
    for k in it: m.keys()
        invariant
            r@.len() == it.index(),
            forall|j: int| 0 <= j < it.index() ==> r@[j] == *it.seq()[j],
    {
        r.push(*k);
    }
    proof {
        let s = IteratorSpec::remaining(&spec_keys_iter(m));
        assert(r@ =~= s.unref());
        assert forall|k: K| m@.contains_key(k) <==> #[trigger] r@.contains(k) by {
            assert(m@.dom().contains(k) == s.unref().to_set().contains(k));
        }
    }
    r
}

/// Filtering with a test that every element passes keeps the whole sequence.
pub proof fn lemma_filter_all<A>(s: Seq<A>, p: spec_fn(A) -> bool)
    requires
        forall|i: int| 0 <= i < s.len() ==> p(#[trigger] s[i]),
    ensures
        s.filter(p) == s,
    decreases s.len(),
{
    if s.len() == 0 {
        assert(s.filter(p) =~= s) by {
            reveal(Seq::filter);
        }
    } else {
        let t = s.drop_last();
        assert(s =~= t.push(s.last()));
        assert(p(s[s.len() - 1]));
        lemma_filter_push(t, s.last(), p);
        assert forall|i: int| 0 <= i < t.len() implies p(#[trigger] t[i]) by {
            assert(t[i] == s[i]);
        }
        lemma_filter_all(t, p);
    }
}

/// An element is in a filtered sequence exactly when it is in the sequence and passes the filter.
pub proof fn lemma_filter_contains<A>(s: Seq<A>, p: spec_fn(A) -> bool, a: A)
    ensures
        s.filter(p).contains(a) <==> s.contains(a) && p(a),
    decreases s.len(),
{
    if s.len() == 0 {
        assert(s.filter(p) =~= Seq::<A>::empty()) by {
            reveal(Seq::filter);
        }
    } else {
        let t = s.drop_last();
        assert(s =~= t.push(s.last()));
        lemma_filter_push(t, s.last(), p);
        lemma_filter_contains(t, p, a);
        if p(s.last()) {
            assert(t.filter(p).push(s.last()).contains(a) <==> t.filter(p).contains(a) || a == s.last()) by {
                let tp = t.filter(p).push(s.last());
                if t.filter(p).contains(a) {
                    let j = choose|j: int| 0 <= j < t.filter(p).len() && t.filter(p)[j] == a;
                    assert(tp[j] == a);
                }
                if a == s.last() {
                    assert(tp[tp.len() - 1] == a);
                }
                if tp.contains(a) {
                    let j = choose|j: int| 0 <= j < tp.len() && tp[j] == a;
                    if j < tp.len() - 1 {
                        assert(t.filter(p)[j] == a);
                    }
                }
            }
        }
        assert(s.contains(a) <==> t.contains(a) || a == s.last()) by {
            if s.contains(a) {
                let j = choose|j: int| 0 <= j < s.len() && s[j] == a;
                if j < s.len() - 1 {
                    assert(t[j] == a);
                }
            }
            if t.contains(a) {
                let j = choose|j: int| 0 <= j < t.len() && t[j] == a;
                assert(s[j] == a);
            }
            if a == s.last() {
                assert(s[s.len() - 1] == a);
            }
        }
    }
}

/// Filtering keeps a sequence free of duplicates.
pub proof fn lemma_filter_no_duplicates<A>(s: Seq<A>, p: spec_fn(A) -> bool)
    requires
        s.no_duplicates(),
    ensures
        s.filter(p).no_duplicates(),
    decreases s.len(),
{
    if s.len() == 0 {
        assert(s.filter(p) =~= Seq::<A>::empty()) by {
            reveal(Seq::filter);
        }
    } else {
        let t = s.drop_last();
        assert(s =~= t.push(s.last()));
        assert(t.no_duplicates()) by {
            assert forall|i: int, j: int| 0 <= i < t.len() && 0 <= j < t.len() && i != j implies t[i] != t[j] by {
                assert(s[i] == t[i] && s[j] == t[j]);
            }
        }
        lemma_filter_push(t, s.last(), p);
        lemma_filter_no_duplicates(t, p);
        if p(s.last()) {
            lemma_filter_contains(t, p, s.last());
            assert(!t.contains(s.last())) by {
                if t.contains(s.last()) {
                    let j = choose|j: int| 0 <= j < t.len() && t[j] == s.last();
                    assert(s[j] == s[s.len() - 1]);
                }
            }
            let tp = t.filter(p);
            assert forall|i: int, j: int|
                0 <= i < tp.push(s.last()).len() && 0 <= j < tp.push(s.last()).len() && i != j implies tp.push(
                s.last(),
            )[i] != tp.push(s.last())[j] by {
                if i == tp.len() {
                    assert(tp[j] != s.last()) by {
                        if tp[j] == s.last() {
                            assert(tp.contains(s.last()));
                        }
                    }
                } else if j == tp.len() {
                    assert(tp[i] != s.last()) by {
                        if tp[i] == s.last() {
                            assert(tp.contains(s.last()));
                        }
                    }
                }
            }
        }
    }
}

} // verus!
