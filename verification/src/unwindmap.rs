use std::collections::HashMap;
use std::hash::Hash;
use vstd::prelude::*;
use vstd::std_specs::hash::obeys_key_model;

verus! {

/// A position in the change log of an `UnwindMap`.
pub struct UnwindPoint(usize);

impl UnwindPoint {
    pub closed spec fn view(self) -> nat {
        self.0 as nat
    }
}

/// A hash map whose changes can be undone back to an earlier point.
pub struct UnwindMap<K, V> {
    pub m: HashMap<K, V>,
    changes: Vec<(K, Option<V>)>,
}

/// Undoes one logged change: the key gets back the value it had before.
pub open spec fn undo_change<K, V>(m: Map<K, V>, change: (K, Option<V>)) -> Map<K, V> {
    match change.1 {
        Some(v) => m.insert(change.0, v),
        None => m.remove(change.0),
    }
}

/// The map as it was when the log had `n` entries: the changes after the first `n`
/// are undone, latest first.
pub open spec fn rewind<K, V>(m: Map<K, V>, log: Seq<(K, Option<V>)>, n: nat) -> Map<K, V>
    decreases log.len(),
{
    if log.len() <= n {
        m
    } else {
        rewind(undo_change(m, log.last()), log.drop_last(), n)
    }
}

/// An insertion or a removal, as a caller performs it on an `UnwindMap`.
pub enum MapOp<K, V> {
    Insert(K, V),
    Remove(K),
}

/// The map and its log after one operation.
pub open spec fn apply_op<K, V>(m: Map<K, V>, log: Seq<(K, Option<V>)>, op: MapOp<K, V>) -> (
    Map<K, V>,
    Seq<(K, Option<V>)>,
) {
    match op {
        MapOp::Insert(k, v) => (m.insert(k, v), log.push((k, m.get(k)))),
        MapOp::Remove(k) => (m.remove(k), log.push((k, m.get(k)))),
    }
}

/// The map and its log after a sequence of operations.
pub open spec fn apply_ops<K, V>(m: Map<K, V>, log: Seq<(K, Option<V>)>, ops: Seq<MapOp<K, V>>) -> (
    Map<K, V>,
    Seq<(K, Option<V>)>,
)
    decreases ops.len(),
{
    if ops.len() == 0 {
        (m, log)
    } else {
        let (m2, log2) = apply_ops(m, log, ops.drop_last());
        apply_op(m2, log2, ops.last())
    }
}

impl<K: Copy + Eq + Hash, V> UnwindMap<K, V> {
    pub closed spec fn view(&self) -> Map<K, V> {
        self.m@
    }

    /// The change log: each key changed, with the value it had before the change.
    pub closed spec fn log(&self) -> Seq<(K, Option<V>)> {
        self.changes@
    }

    /// The map as it was at unwind point `n`.
    pub open spec fn state_at(&self, n: nat) -> Map<K, V> {
        rewind(self@, self.log(), n)
    }

    pub fn new() -> (r: Self)
        ensures
            r@ == Map::<K, V>::empty(),
            r.log() == Seq::<(K, Option<V>)>::empty(),
    {
        Self { m: HashMap::new(), changes: Vec::new() }
    }

    pub fn get(&self, k: &K) -> (r: Option<&V>)
        requires
            obeys_key_model::<K>(),
        ensures
            match r {
                Some(v) => self@.contains_key(*k) && *v == self@[*k],
                None => !self@.contains_key(*k),
            },
    {
        self.m.get(k)
    }

    pub fn insert(&mut self, k: K, v: V)
        requires
            obeys_key_model::<K>(),
        ensures
            (final(self)@, final(self).log()) == apply_op(old(self)@, old(self).log(), MapOp::Insert(k, v)),
    {
        let old = self.m.insert(k, v);
        self.changes.push((k, old));
    }

    pub fn remove(&mut self, k: &K)
        requires
            obeys_key_model::<K>(),
        ensures
            (final(self)@, final(self).log()) == apply_op(old(self)@, old(self).log(), MapOp::Remove(*k)),
    {
        let old = self.m.remove(k);
        self.changes.push((*k, old));
    }

    /// Marks the present state, so that `unwind` can return to it.
    pub fn unwind_point(&mut self) -> (r: UnwindPoint)
        ensures
            final(self)@ == old(self)@,
            final(self).log() == old(self).log(),
            r@ == old(self).log().len(),
            final(self).state_at(r@) == final(self)@,
    {
        UnwindPoint(self.changes.len())
    }

    /// Undoes every change made since point `n`.
    pub fn unwind(&mut self, n: UnwindPoint)
        requires
            obeys_key_model::<K>(),
        ensures
            final(self)@ == old(self).state_at(n@),
            n@ <= old(self).log().len() ==> final(self).log() == old(self).log().take(n@ as int),
            n@ > old(self).log().len() ==> final(self).log() == old(self).log(),
    {
        let n = n.0;
        let ghost target = self.state_at(n as nat);
        let ghost log0 = self.changes@;
        while self.changes.len() > n
            invariant
                obeys_key_model::<K>(),
                rewind(self.m@, self.changes@, n as nat) == target,
                self.changes@.len() >= n ==> self.changes@ == log0.take(self.changes@.len() as int),
                self.changes@.len() < n ==> self.changes@ == log0,
                self.changes@.len() <= log0.len(),
            decreases self.changes@.len(),
        {
            let ghost before = self.changes@;
            let (k, old) = self.changes.pop().unwrap();
            proof {
                assert(self.changes@ == before.drop_last());
                assert(before.last() == (k, old));
                assert(log0.take(self.changes@.len() as int) =~= log0.take(before.len() as int).drop_last());
            }
            match old {
                Some(v) => {
                    self.m.insert(k, v);
                },
                None => {
                    self.m.remove(&k);
                },
            };
        }
        proof {
            if n <= log0.len() {
                assert(self.changes@.len() == n);
            } else {
                assert(log0.take(log0.len() as int) =~= log0);
            }
        }
    }

    /// Forgets the change log: later unwinds cannot go back past this point.
    pub fn make_permanent(&mut self)
        ensures
            final(self)@ == old(self)@,
            final(self).log() == Seq::<(K, Option<V>)>::empty(),
    {
        self.changes.clear();
    }
}

/// Operations performed after an unwind point never change the state recorded
/// at that point: the rewound map is the map as it stood there.
pub proof fn lemma_rewind_ops<K, V>(m: Map<K, V>, log: Seq<(K, Option<V>)>, ops: Seq<MapOp<K, V>>)
    ensures
        apply_ops(m, log, ops).1.len() == log.len() + ops.len(),
        rewind(apply_ops(m, log, ops).0, apply_ops(m, log, ops).1, log.len()) == rewind(m, log, log.len()),
        rewind(m, log, log.len()) == m,
    decreases ops.len(),
{
    if ops.len() > 0 {
        lemma_rewind_ops(m, log, ops.drop_last());
        let (m2, log2) = apply_ops(m, log, ops.drop_last());
        let (m3, log3) = apply_op(m2, log2, ops.last());
        assert(log3.drop_last() =~= log2);
        let k = match ops.last() {
            MapOp::Insert(k, _) => k,
            MapOp::Remove(k) => k,
        };
        assert(undo_change(m3, log3.last()) =~= m2);
    }
}

/// Undoing back to an unwind point restores the map as it was there, whatever
/// insertions and removals happened since.
pub proof fn law_unwind_restores<K, V>(m: Map<K, V>, log: Seq<(K, Option<V>)>, ops: Seq<MapOp<K, V>>)
    ensures
        ({
            let (m2, log2) = apply_ops(m, log, ops);
            rewind(m2, log2, log.len()) == m
        }),
{
    lemma_rewind_ops(m, log, ops);
}

} // verus!
