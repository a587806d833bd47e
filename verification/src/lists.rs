//! Lists of agent identifiers stored under integer keys: the building block
//! of the inverse indexes.

use vstd::prelude::*;
use std::collections::HashMap;
use crate::agent::AgentId;

verus! {

broadcast use vstd::std_specs::hash::group_hash_axioms;

/// `s` without any occurrence of `agent`.
pub open spec fn without(s: Seq<AgentId>, agent: AgentId) -> Seq<AgentId> {
    s.filter(|x: AgentId| x != agent)
}

/// Striking an agent from a list leaves the other entries, each as often as
/// before, and changes nothing where the agent is not listed.
pub proof fn lemma_without(s: Seq<AgentId>, agent: AgentId)
    ensures
        forall|x: AgentId| #[trigger] without(s, agent).contains(x) <==> x != agent && s.contains(x),
        s.no_duplicates() ==> without(s, agent).no_duplicates(),
        !s.contains(agent) ==> without(s, agent) == s,
    decreases s.len(),
{
    reveal(Seq::filter);
    if s.len() > 0 {
        let front = s.drop_last();
        let last = s.last();
        lemma_without(front, agent);
        let sub = without(front, agent);
        let out = without(s, agent);
        assert forall|i: int| 0 <= i < front.len() implies front[i] == s[i] by {}
        assert forall|x: AgentId| #[trigger] out.contains(x) <==> x != agent && s.contains(x) by {
            if out.contains(x) {
                let i = choose|i: int| 0 <= i < out.len() && out[i] == x;
                if i < sub.len() {
                    assert(sub[i] == x);
                    assert(sub.contains(x));
                    let j = choose|j: int| 0 <= j < front.len() && front[j] == x;
                    assert(s[j] == x);
                } else {
                    assert(s[s.len() - 1] == x);
                }
            }
            if x != agent && s.contains(x) {
                let j = choose|j: int| 0 <= j < s.len() && s[j] == x;
                if j < front.len() {
                    assert(front[j] == x);
                    assert(front.contains(x));
                    assert(without(front, agent).contains(x));
                    let i = choose|i: int| 0 <= i < sub.len() && sub[i] == x;
                    assert(out == if last != agent { sub.push(last) } else { sub });
                    assert(out[i] == x);
                } else {
                    assert(out[out.len() - 1] == x);
                }
            }
        }
        if s.no_duplicates() {
            assert(front.no_duplicates());
            if last != agent {
                assert(!sub.contains(last)) by {
                    if sub.contains(last) {
                        let j = choose|j: int| 0 <= j < front.len() && front[j] == last;
                        assert(s[j] == s[s.len() - 1]);
                    }
                }
                assert forall|i: int, j: int| 0 <= i < out.len() && 0 <= j < out.len() && i
                    != j implies out[i] != out[j] by {
                    if i < sub.len() && j < sub.len() {
                        assert(sub[i] != sub[j]);
                    } else if i < sub.len() {
                        assert(sub.contains(sub[i]));
                    } else {
                        assert(sub.contains(sub[j]));
                    }
                }
            }
        }
        if !s.contains(agent) {
            assert(!front.contains(agent)) by {
                if front.contains(agent) {
                    let j = choose|j: int| 0 <= j < front.len() && front[j] == agent;
                    assert(s[j] == agent);
                }
            }
            assert(s[s.len() - 1] != agent);
            assert(front.push(last) =~= s);
        }
    }
}

/// Appending an agent that is not listed keeps a list free of repetitions,
/// and adds that agent and no other.
pub proof fn lemma_push_fresh(s: Seq<AgentId>, agent: AgentId)
    ensures
        forall|x: AgentId| #[trigger] s.push(agent).contains(x) <==> x == agent || s.contains(x),
        s.no_duplicates() && !s.contains(agent) ==> s.push(agent).no_duplicates(),
{
    let grown = s.push(agent);
    assert forall|x: AgentId| #[trigger] grown.contains(x) <==> x == agent || s.contains(x) by {
        if grown.contains(x) {
            let i = choose|i: int| 0 <= i < grown.len() && grown[i] == x;
            if i < s.len() {
                assert(s[i] == x);
            }
        }
        if x == agent {
            assert(grown[grown.len() - 1] == x);
        }
        if s.contains(x) {
            let i = choose|i: int| 0 <= i < s.len() && s[i] == x;
            assert(grown[i] == x);
        }
    }
    if s.no_duplicates() && !s.contains(agent) {
        assert forall|i: int, j: int| 0 <= i < grown.len() && 0 <= j < grown.len() && i
            != j implies grown[i] != grown[j] by {
            if i < s.len() && j < s.len() {
                assert(s[i] != s[j]);
            } else if i < s.len() {
                assert(s.contains(s[i]));
            } else {
                assert(s.contains(s[j]));
            }
        }
    }
}

/// A copy of `list` without any occurrence of `agent`.
pub fn list_without(list: &Vec<AgentId>, agent: AgentId) -> (out: Vec<AgentId>)
    ensures
        out@ == without(list@, agent),
{
    let mut out: Vec<AgentId> = Vec::new();
    let mut i: usize = 0;
    proof {
        reveal(Seq::filter);
        assert(list@.take(0) =~= Seq::<AgentId>::empty());
    }
    while i < list.len()
        invariant
            i <= list.len(),
            out@ == without(list@.take(i as int), agent),
        decreases list.len() - i,
    {
        proof {
            reveal(Seq::filter);
            assert(list@.take(i + 1).drop_last() =~= list@.take(i as int));
            assert(list@.take(i + 1).last() == list@[i as int]);
        }
        if list[i] != agent {
            out.push(list[i]);
        }
        i += 1;
    }
    proof {
        assert(list@.take(list.len() as int) =~= list@);
    }
    out
}

/// A copy of `list`.
pub fn list_copy(list: &Vec<AgentId>) -> (out: Vec<AgentId>)
    ensures
        out@ == list@,
{
    let mut out: Vec<AgentId> = Vec::new();
    let mut i: usize = 0;
    while i < list.len()
        invariant
            i <= list.len(),
            out@ == list@.take(i as int),
        decreases list.len() - i,
    {
        out.push(list[i]);
        proof {
            assert(list@.take(i + 1) =~= list@.take(i as int).push(list@[i as int]));
        }
        i += 1;
    }
    proof {
        assert(list@.take(list.len() as int) =~= list@);
    }
    out
}

/// Whether `list` holds `agent`.
pub fn list_contains(list: &Vec<AgentId>, agent: AgentId) -> (r: bool)
    ensures
        r == list@.contains(agent),
{
    let mut i: usize = 0;
    while i < list.len()
        invariant
            i <= list.len(),
            forall|j: int| 0 <= j < i ==> list@[j] != agent,
        decreases list.len() - i,
    {
        if list[i] == agent {
            return true;
        }
        i += 1;
    }
    false
}

/// Lists of agent identifiers under `u64` keys; a key without a list has the
/// empty one.
pub struct Lists {
    map: HashMap<u64, Vec<AgentId>>,
}

impl Lists {
    /// The list under `key`.
    pub closed spec fn at(&self, key: u64) -> Seq<AgentId> {
        if self.map@.contains_key(key) {
            self.map@[key]@
        } else {
            Seq::empty()
        }
    }

    /// No key has an entry.
    pub fn new() -> (s: Self)
        ensures
            forall|key: u64| #[trigger] s.at(key) == Seq::<AgentId>::empty(),
    {
        Lists { map: HashMap::new() }
    }

    /// A copy of the list under `key`.
    pub fn get(&self, key: u64) -> (r: Vec<AgentId>)
        ensures
            r@ == self.at(key),
    {
        match self.map.get(&key) {
            Some(list) => list_copy(list),
            None => Vec::new(),
        }
    }

    /// Whether the list under `key` holds `agent`.
    pub fn holds(&self, key: u64, agent: AgentId) -> (r: bool)
        ensures
            r == self.at(key).contains(agent),
    {
        match self.map.get(&key) {
            Some(list) => list_contains(list, agent),
            None => false,
        }
    }

    /// Appends `agent` to the list under `key`.
    pub fn add(&mut self, key: u64, agent: AgentId)
        ensures
            final(self).at(key) == old(self).at(key).push(agent),
            forall|other: u64| other != key ==> final(self).at(other) == old(self).at(other),
    {
        let mut list = match self.map.remove(&key) {
            Some(list) => list,
            None => Vec::new(),
        };
        list.push(agent);
        self.map.insert(key, list);
    }

    /// Strikes `agent` from the list under `key`.
    pub fn strike(&mut self, key: u64, agent: AgentId)
        ensures
            final(self).at(key) == without(old(self).at(key), agent),
            forall|other: u64| other != key ==> final(self).at(other) == old(self).at(other),
    {
        match self.map.remove(&key) {
            Some(list) => {
                let rest = list_without(&list, agent);
                if rest.len() > 0 {
                    self.map.insert(key, rest);
                }
            },
            None => {
                proof {
                    reveal(Seq::filter);
                }
            },
        }
    }
}

} // verus!
