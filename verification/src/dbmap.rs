//! A key/value store whose writes are staged in a log and become visible to
//! readers only when the log is committed.

use vstd::prelude::*;
use std::collections::HashMap;

verus! {

broadcast use vstd::std_specs::hash::group_hash_axioms;

/// One staged write.
pub enum Write<V> {
    /// Bind `key` to `value`.
    Insert { key: u64, value: V },
    /// Unbind `key`.
    Remove { key: u64 },
}

impl<V> Write<V> {
    /// The key this write is about.
    pub open spec fn key(self) -> u64 {
        match self {
            Write::Insert { key, .. } => key,
            Write::Remove { key } => key,
        }
    }

    /// What a reader finds under this write's key once it is applied.
    pub open spec fn outcome(self) -> Option<V> {
        match self {
            Write::Insert { value, .. } => Some(value),
            Write::Remove { .. } => None,
        }
    }
}

/// The readable view after one write has been applied to it.
pub open spec fn apply_write<V>(view: Map<u64, V>, w: Write<V>) -> Map<u64, V> {
    match w {
        Write::Insert { key, value } => view.insert(key, value),
        Write::Remove { key } => view.remove(key),
    }
}

/// The readable view after a whole log has been applied to it, oldest entry
/// first.
pub open spec fn apply_log<V>(view: Map<u64, V>, log: Seq<Write<V>>) -> Map<u64, V>
    decreases log.len(),
{
    if log.len() == 0 {
        view
    } else {
        apply_write(apply_log(view, log.drop_last()), log.last())
    }
}

/// The youngest entry of `log` that is about `key`, if there is one.
pub open spec fn last_write<V>(log: Seq<Write<V>>, key: u64) -> Option<Write<V>>
    decreases log.len(),
{
    if log.len() == 0 {
        None
    } else if log.last().key() == key {
        Some(log.last())
    } else {
        last_write(log.drop_last(), key)
    }
}

/// The mathematical content of a [`DBMap`]: what readers see, and the writes
/// waiting for the next commit.
pub struct Buffered<V> {
    /// The stable view, as of the last commit.
    pub committed: Map<u64, V>,
    /// The writes staged since the last commit, oldest first.
    pub staged: Seq<Write<V>>,
}

impl<V> Buffered<V> {
    /// Nothing bound, nothing staged.
    pub open spec fn empty() -> Self {
        Buffered { committed: Map::empty(), staged: Seq::empty() }
    }

    /// What a reader finds under `key`.
    pub open spec fn read(self, key: u64) -> Option<V> {
        if self.committed.contains_key(key) {
            Some(self.committed[key])
        } else {
            None
        }
    }

    /// The state after `w` has been staged.
    pub open spec fn stage(self, w: Write<V>) -> Self {
        Buffered { committed: self.committed, staged: self.staged.push(w) }
    }

    /// The state after all of `ws` have been staged, oldest first.
    pub open spec fn stage_all(self, ws: Seq<Write<V>>) -> Self {
        Buffered { committed: self.committed, staged: self.staged + ws }
    }

    /// The state after a commit.
    pub open spec fn commit(self) -> Self {
        Buffered { committed: apply_log(self.committed, self.staged), staged: Seq::empty() }
    }
}

/// A map from `u64` keys to values with a stable read view and a write log.
///
/// Reads take `&self` and may run side by side; writes and the commit take
/// `&mut self`, so the borrow rules keep them apart from every read.
pub struct DBMap<V> {
    read: HashMap<u64, V>,
    log: Vec<Write<V>>,
}

impl<V> View for DBMap<V> {
    type V = Buffered<V>;

    closed spec fn view(&self) -> Buffered<V> {
        Buffered { committed: self.read@, staged: self.log@ }
    }
}

impl<V> DBMap<V> {
    /// An empty map with nothing staged.
    pub fn new() -> (m: Self)
        ensures
            m@ == Buffered::<V>::empty(),
    {
        DBMap { read: HashMap::new(), log: Vec::new() }
    }

    /// Reads `key` from the stable view.
    pub fn get(&self, key: u64) -> (r: Option<&V>)
        ensures
            match r {
                Some(v) => self@.read(key) == Some(*v),
                None => self@.read(key) is None,
            },
    {
        self.read.get(&key)
    }

    /// Whether the stable view binds `key`.
    pub fn contains_key(&self, key: u64) -> (r: bool)
        ensures
            r == self@.committed.contains_key(key),
    {
        self.read.contains_key(&key)
    }

    /// Number of keys bound in the stable view.
    pub fn len(&self) -> (n: usize)
        ensures
            n == self@.committed.len(),
    {
        self.read.len()
    }

    /// Number of writes staged since the last commit.
    pub fn staged_len(&self) -> (n: usize)
        ensures
            n == self@.staged.len(),
    {
        self.log.len()
    }

    /// Stages the binding of `key` to `value`.
    pub fn insert(&mut self, key: u64, value: V)
        ensures
            final(self)@ == old(self)@.stage(Write::Insert { key, value }),
    {
        self.log.push(Write::Insert { key, value });
    }

    /// Stages the removal of `key`.
    pub fn remove(&mut self, key: u64)
        ensures
            final(self)@ == old(self)@.stage(Write::Remove { key }),
    {
        self.log.push(Write::Remove { key });
    }

    /// Applies the staged writes to the stable view in log order and clears
    /// the log.
    pub fn commit(&mut self)
        ensures
            final(self)@ == old(self)@.commit(),
    {
        let mut log: Vec<Write<V>> = Vec::new();
        std::mem::swap(&mut self.log, &mut log);
        let ghost start = self.read@;
        let ghost all = log@;
        for w in it: log
            invariant
                it.seq() == all,
                self.read@ == apply_log(start, all.take(it.index() as int)),
                self.log@ == Seq::<Write<V>>::empty(),
        {
            proof {
                let i = it.index() as int;
                assert(all.take(i + 1).drop_last() == all.take(i));
                assert(all.take(i + 1).last() == w);
            }
            match w {
                Write::Insert { key, value } => {
                    self.read.insert(key, value);
                },
                Write::Remove { key } => {
                    self.read.remove(&key);
                },
            }
        }
        proof {
            assert(all.take(all.len() as int) == all);
        }
    }
}

/// Staging never changes what a reader finds: whatever is staged after a
/// commit, every read until the next commit answers as of that commit.
pub proof fn lemma_reads_ignore_staged<V>(m: Buffered<V>, ws: Seq<Write<V>>, key: u64)
    ensures
        m.stage_all(ws).read(key) == m.read(key),
        m.stage_all(ws).committed == m.committed,
{
}

/// Staging writes one after the other is staging them all.
pub proof fn lemma_stage_all_push<V>(m: Buffered<V>, ws: Seq<Write<V>>, w: Write<V>)
    ensures
        m.stage_all(ws).stage(w) == m.stage_all(ws.push(w)),
        m.stage_all(Seq::empty()) == m,
{
    assert((m.staged + ws).push(w) == m.staged + ws.push(w));
    assert(m.staged + Seq::<Write<V>>::empty() == m.staged);
}

/// Last logged write wins: after a commit a key holds what the youngest
/// staged write about it says, and what it held before where no staged write
/// is about it.
pub proof fn lemma_last_write_wins<V>(m: Buffered<V>, key: u64)
    ensures
        m.commit().read(key) == (match last_write(m.staged, key) {
            Some(w) => w.outcome(),
            None => m.read(key),
        }),
    decreases m.staged.len(),
{
    if m.staged.len() > 0 {
        let shorter = Buffered { committed: m.committed, staged: m.staged.drop_last() };
        lemma_last_write_wins(shorter, key);
    }
}

/// A commit leaves nothing staged, so a second commit changes nothing.
pub proof fn lemma_commit_settles<V>(m: Buffered<V>)
    ensures
        m.commit().staged.len() == 0,
        m.commit().commit() == m.commit(),
{
}

} // verus!
