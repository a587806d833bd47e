//! Facts about the scheduler's model that the scheduler's code and the laws
//! of the timeline are proved from.

use vstd::prelude::*;
use crate::timeline::{due, has_id, distinct_ids, insert_entry, later, ordered, precedes, rank, Entry};

verus! {

/// In an ordered sequence the entries that precede `e` are exactly those in
/// front of its rank.
pub proof fn lemma_rank_splits(s: Seq<Entry>, e: Entry)
    requires
        ordered(s),
    ensures
        0 <= rank(s, e) <= s.len(),
        forall|i: int| 0 <= i < rank(s, e) ==> precedes(#[trigger] s[i], e),
        forall|i: int| rank(s, e) <= i < s.len() ==> !precedes(#[trigger] s[i], e),
    decreases s.len(),
{
    if s.len() > 0 {
        let front = s.drop_last();
        assert(ordered(front)) by {
            assert forall|i: int, j: int| 0 <= i < j < front.len() implies precedes(
                #[trigger] front[i],
                #[trigger] front[j],
            ) by {
                assert(front[i] == s[i] && front[j] == s[j]);
            }
        }
        lemma_rank_splits(front, e);
        let r = rank(front, e);
        if precedes(s.last(), e) {
            if r < front.len() {
                assert(front[r] == s[r]);
                assert(precedes(s[r], s[s.len() - 1]));
                assert(!precedes(front[r], e));
            }
            assert forall|i: int| 0 <= i < rank(s, e) implies precedes(#[trigger] s[i], e) by {
                if i < front.len() {
                    assert(front[i] == s[i]);
                }
            }
        } else {
            assert forall|i: int| 0 <= i < rank(s, e) implies precedes(#[trigger] s[i], e) by {
                assert(front[i] == s[i]);
            }
            assert forall|i: int| rank(s, e) <= i < s.len() implies !precedes(
                #[trigger] s[i],
                e,
            ) by {
                if i < front.len() {
                    assert(front[i] == s[i]);
                }
            }
        }
    }
}

/// Inserting an entry with a fresh handle keeps the sequence ordered and its
/// handles distinct, and adds that entry and nothing else.
pub proof fn lemma_insert_entry(s: Seq<Entry>, e: Entry)
    requires
        ordered(s),
        distinct_ids(s),
        !has_id(s, e.id),
    ensures
        ordered(insert_entry(s, e)),
        distinct_ids(insert_entry(s, e)),
        insert_entry(s, e).len() == s.len() + 1,
        forall|x: Entry|
            #![trigger insert_entry(s, e).contains(x)]
            #![trigger s.contains(x)]
            insert_entry(s, e).contains(x) <==> (x == e || s.contains(x)),
        forall|id: u64|
            #![trigger has_id(insert_entry(s, e), id)]
            #![trigger has_id(s, id)]
            has_id(insert_entry(s, e), id) <==> (id == e.id || has_id(s, id)),
{
    lemma_rank_splits(s, e);
    let r = rank(s, e);
    let t = insert_entry(s, e);
    assert forall|i: int| 0 <= i < s.len() implies (#[trigger] s[i]).id != e.id by {}
    assert forall|i: int, j: int| 0 <= i < j < t.len() implies precedes(
        #[trigger] t[i],
        #[trigger] t[j],
    ) by {
        if j < r {
            assert(t[i] == s[i] && t[j] == s[j]);
        } else if j == r {
            assert(t[i] == s[i]);
        } else if i < r {
            assert(t[i] == s[i] && t[j] == s[j - 1]);
        } else if i == r {
            assert(t[j] == s[j - 1]);
            assert(!precedes(s[j - 1], e));
            assert(s[j - 1].id != e.id);
        } else {
            assert(t[i] == s[i - 1] && t[j] == s[j - 1]);
        }
    }
    assert forall|i: int, j: int| 0 <= i < j < t.len() implies (#[trigger] t[i]).id != (
    #[trigger] t[j]).id by {
        let a = if i < r { i } else { i - 1 };
        let b = if j < r { j } else { j - 1 };
        if i != r {
            assert(t[i] == s[a]);
        }
        if j != r {
            assert(t[j] == s[b]);
        }
    }
    assert forall|x: Entry| t.contains(x) <==> (x == e || s.contains(x)) by {
        if t.contains(x) {
            let i = choose|i: int| 0 <= i < t.len() && t[i] == x;
            if i < r {
                assert(s[i] == x);
            } else if i > r {
                assert(s[i - 1] == x);
            }
        }
        if x == e {
            assert(t[r] == x);
        }
        if s.contains(x) {
            let i = choose|i: int| 0 <= i < s.len() && s[i] == x;
            if i < r {
                assert(t[i] == x);
            } else {
                assert(t[i + 1] == x);
            }
        }
    }
    assert forall|id: u64| has_id(t, id) <==> (id == e.id || has_id(s, id)) by {
        if has_id(t, id) {
            let i = choose|i: int| 0 <= i < t.len() && (#[trigger] t[i]).id == id;
            if i < r {
                assert(s[i].id == id);
            } else if i > r {
                assert(s[i - 1].id == id);
            }
        }
        if id == e.id {
            assert(t[r].id == id);
        }
        if has_id(s, id) {
            let i = choose|i: int| 0 <= i < s.len() && (#[trigger] s[i]).id == id;
            if i < r {
                assert(t[i].id == id);
            } else {
                assert(t[i + 1].id == id);
            }
        }
    }
}

/// A filter that holds on a prefix and fails behind it returns that prefix,
/// and its complement returns what is behind.
pub proof fn lemma_filter_prefix(s: Seq<Entry>, p: spec_fn(Entry) -> bool, k: int)
    requires
        0 <= k <= s.len(),
        forall|i: int| 0 <= i < k ==> p(#[trigger] s[i]),
        forall|i: int| k <= i < s.len() ==> !p(#[trigger] s[i]),
    ensures
        s.filter(p) == s.take(k),
        s.filter(|e: Entry| !p(e)) == s.skip(k),
    decreases s.len(),
{
    reveal(Seq::filter);
    let q = |e: Entry| !p(e);
    if s.len() > 0 {
        let front = s.drop_last();
        assert forall|i: int| 0 <= i < front.len() implies front[i] == s[i] by {}
        if k == s.len() {
            lemma_filter_prefix(front, p, k - 1);
            assert(p(s[s.len() - 1]));
            assert(front.take(k - 1).push(s.last()) =~= s.take(k));
            assert(front.skip(k - 1) =~= s.skip(k));
        } else {
            lemma_filter_prefix(front, p, k);
            assert(!p(s[s.len() - 1]));
            assert(front.take(k) =~= s.take(k));
            assert(front.skip(k).push(s.last()) =~= s.skip(k));
        }
    } else {
        assert(s.take(k) =~= s);
        assert(s.skip(k) =~= s);
    }
}

/// In an ordered sequence the due bucket is the prefix up to the first entry
/// of a later tick.
pub proof fn lemma_due_is_prefix(s: Seq<Entry>, k: int)
    requires
        ordered(s),
        0 < k <= s.len(),
        forall|i: int| 0 <= i < k ==> (#[trigger] s[i]).time == s[0].time,
        k < s.len() ==> s[k].time != s[0].time,
    ensures
        due(s) == s.take(k),
        later(s) == s.skip(k),
{
    let t = s[0].time;
    let p = |e: Entry| e.time == t;
    assert forall|i: int| k <= i < s.len() implies !p(#[trigger] s[i]) by {
        assert(precedes(s[0], s[k]));
        if i > k {
            assert(precedes(s[k], s[i]));
        }
    }
    lemma_filter_prefix(s, p, k);
    assert((|e: Entry| !p(e)) =~= (|e: Entry| e.time != s[0].time));
    assert(p =~= (|e: Entry| e.time == s[0].time));
}

/// A scan that stops at the first entry that does not precede `e` stops at
/// the rank of `e`.
pub proof fn lemma_rank_found(s: Seq<Entry>, e: Entry, k: int)
    requires
        ordered(s),
        0 <= k <= s.len(),
        forall|i: int| 0 <= i < k ==> precedes(#[trigger] s[i], e),
        k < s.len() ==> !precedes(s[k], e),
    ensures
        rank(s, e) == k,
{
    lemma_rank_splits(s, e);
    let r = rank(s, e);
    if r < k {
        assert(precedes(s[r], e));
    }
    if k < r {
        assert(precedes(s[k], e));
    }
}

/// Taking entries out of a well-formed timeline leaves it well formed.
pub proof fn lemma_remove_keeps_order(s: Seq<Entry>, k: int)
    requires
        ordered(s),
        distinct_ids(s),
        0 <= k < s.len(),
    ensures
        ordered(s.remove(k)),
        distinct_ids(s.remove(k)),
        forall|id: u64| has_id(s.remove(k), id) <==> (id != s[k].id && has_id(s, id)),
{
    let t = s.remove(k);
    assert forall|i: int| 0 <= i < t.len() implies #[trigger] t[i] == s[if i < k { i } else { i + 1 }] by {}
    assert forall|i: int, j: int| 0 <= i < j < t.len() implies precedes(
        #[trigger] t[i],
        #[trigger] t[j],
    ) by {
        let a = if i < k { i } else { i + 1 };
        let b = if j < k { j } else { j + 1 };
        assert(precedes(s[a], s[b]));
    }
    assert forall|i: int, j: int| 0 <= i < j < t.len() implies (#[trigger] t[i]).id != (
    #[trigger] t[j]).id by {
        let a = if i < k { i } else { i + 1 };
        let b = if j < k { j } else { j + 1 };
        assert(s[a].id != s[b].id);
    }
    assert forall|id: u64| has_id(t, id) <==> (id != s[k].id && has_id(s, id)) by {
        if has_id(t, id) {
            let i = choose|i: int| 0 <= i < t.len() && (#[trigger] t[i]).id == id;
            let a = if i < k { i } else { i + 1 };
            assert(s[a].id == id);
            if a < k {
                assert(s[a].id != s[k].id);
            } else {
                assert(s[k].id != s[a].id);
            }
        }
        if id != s[k].id && has_id(s, id) {
            let a = choose|a: int| 0 <= a < s.len() && (#[trigger] s[a]).id == id;
            if a < k {
                assert(t[a].id == id);
            } else {
                assert(t[a - 1].id == id);
            }
        }
    }
}

/// Cancelling a handle that is pending takes out the one entry that has it;
/// cancelling any other handle changes nothing.
pub proof fn lemma_cancel(s: Seq<Entry>, id: u64)
    requires
        distinct_ids(s),
    ensures
        !has_id(s, id) ==> s.filter(|e: Entry| e.id != id) == s,
        forall|k: int| 0 <= k < s.len() && (#[trigger] s[k]).id == id ==> s.filter(|e: Entry| e.id != id) == s.remove(k),
    decreases s.len(),
{
    reveal(Seq::filter);
    let p = |e: Entry| e.id != id;
    if s.len() > 0 {
        let front = s.drop_last();
        assert forall|i: int| 0 <= i < front.len() implies front[i] == s[i] by {}
        assert(distinct_ids(front));
        lemma_cancel(front, id);
        if has_id(front, id) {
            let j = choose|j: int| 0 <= j < front.len() && (#[trigger] front[j]).id == id;
            assert(s[j].id == id);
            assert(has_id(s, id));
        }
        if !has_id(s, id) {
            assert(!has_id(front, id)) by {
                if has_id(front, id) {
                    let j = choose|j: int| 0 <= j < front.len() && (#[trigger] front[j]).id == id;
                    assert(s[j].id == id);
                }
            }
            assert(p(s.last()));
            assert(front.push(s.last()) =~= s);
        }
        assert forall|k: int| 0 <= k < s.len() && (#[trigger] s[k]).id == id implies s.filter(p)
            == s.remove(k) by {
            if k == s.len() - 1 {
                assert(!has_id(front, id)) by {
                    if has_id(front, id) {
                        let j = choose|j: int| 0 <= j < front.len() && (#[trigger] front[j]).id == id;
                        assert(s[j].id == s[k].id);
                    }
                }
                assert(s.remove(k) =~= front);
            } else {
                assert(front[k].id == id);
                assert(s[k].id != s[s.len() - 1].id);
                assert(p(s.last()));
                assert(front.remove(k).push(s.last()) =~= s.remove(k));
            }
        }
    }
}

} // verus!
