//! What holds of every timeline: the laws of the scheduler, stated over its
//! model and proved.

use vstd::prelude::*;
use crate::timeline::{
    distinct_ids, due, has_id, insert_entry, later, ordered, precedes, renewed, settle, Entry,
    Timeline,
};
use crate::timeline_lemmas::{
    lemma_cancel, lemma_due_is_prefix, lemma_insert_entry, lemma_remove_keeps_order,
};

verus! {

/// The first position from `from` on whose entry is not due with the first.
pub open spec fn bucket_end(s: Seq<Entry>, from: int) -> int
    decreases s.len() - from,
{
    if from < s.len() && s[from].time == s[0].time {
        bucket_end(s, from + 1)
    } else {
        from
    }
}

/// The scan for the end of the bucket stops behind the last entry that is
/// due with the first.
proof fn lemma_bucket_end(s: Seq<Entry>, from: int)
    requires
        0 < from <= s.len(),
        forall|i: int| 0 <= i < from ==> (#[trigger] s[i]).time == s[0].time,
    ensures
        from <= bucket_end(s, from) <= s.len(),
        forall|i: int| 0 <= i < bucket_end(s, from) ==> (#[trigger] s[i]).time == s[0].time,
        bucket_end(s, from) < s.len() ==> s[bucket_end(s, from)].time != s[0].time,
    decreases s.len() - from,
{
    if from < s.len() && s[from].time == s[0].time {
        lemma_bucket_end(s, from + 1);
    }
}

/// The due bucket of a non-empty ordered sequence is a non-empty prefix of
/// it: the entries of the smallest pending time, with every later entry
/// strictly later in time.
pub proof fn lemma_bucket_is_prefix(s: Seq<Entry>) -> (k: int)
    requires
        ordered(s),
        s.len() > 0,
    ensures
        0 < k <= s.len(),
        due(s) == s.take(k),
        later(s) == s.skip(k),
        forall|i: int| 0 <= i < k ==> (#[trigger] s[i]).time == s[0].time,
        forall|i: int| k <= i < s.len() ==> (#[trigger] s[i]).time > s[0].time,
{
    let k = bucket_end(s, 1);
    lemma_bucket_end(s, 1);
    lemma_due_is_prefix(s, k);
    assert forall|i: int| k <= i < s.len() implies (#[trigger] s[i]).time > s[0].time by {
        assert(precedes(s[0], s[k]));
        if i > k {
            assert(precedes(s[k], s[i]));
        }
    }
    k
}

/// Tie-break law: the due bucket holds exactly the pending events of the
/// smallest pending time, and lists them by priority, lower first, and among
/// equal priorities by handle, that is in the order of their enrollment.
pub proof fn lemma_bucket_order(t: Timeline)
    requires
        t.wf(),
        t.pending.len() > 0,
    ensures
        forall|e: Entry| #[trigger]
            t.due().contains(e) <==> t.pending.contains(e) && e.time == t.pending[0].time,
        forall|e: Entry| #[trigger] t.pending.contains(e) ==> t.pending[0].time <= e.time,
        forall|i: int, j: int|
            0 <= i < j < t.due().len() ==> {
                let a = #[trigger] t.due()[i];
                let b = #[trigger] t.due()[j];
                a.priority < b.priority || (a.priority == b.priority && a.id < b.id)
            },
{
    let s = t.pending;
    let k = lemma_bucket_is_prefix(s);
    assert forall|e: Entry| #[trigger] t.due().contains(e) <==> s.contains(e) && e.time == s[0].time by {
        if t.due().contains(e) {
            let i = choose|i: int| 0 <= i < t.due().len() && t.due()[i] == e;
            assert(s[i] == e);
        }
        if s.contains(e) && e.time == s[0].time {
            let i = choose|i: int| 0 <= i < s.len() && s[i] == e;
            assert(i < k);
            assert(t.due()[i] == e);
        }
    }
    assert forall|e: Entry| #[trigger] s.contains(e) implies s[0].time <= e.time by {
        let i = choose|i: int| 0 <= i < s.len() && s[i] == e;
        if i > 0 {
            assert(precedes(s[0], s[i]));
        }
    }
    assert forall|i: int, j: int| 0 <= i < j < t.due().len() implies {
        let a = #[trigger] t.due()[i];
        let b = #[trigger] t.due()[j];
        a.priority < b.priority || (a.priority == b.priority && a.id < b.id)
    } by {
        assert(precedes(s[i], s[j]));
    }
}

/// Taking the due bucket out leaves a well-formed timeline whose pending
/// events are all strictly later than its current time, and the bucket's
/// events are admitted by it, with handles that are not pending.
pub proof fn lemma_advance(t: Timeline)
    requires
        t.wf(),
    ensures
        t.advance().wf(),
        t.advance().now >= t.now,
        t.advance().next_id == t.next_id,
        t.pending.len() > 0 ==> t.advance().now == t.pending[0].time,
        forall|i: int|
            0 <= i < t.advance().pending.len() ==> (#[trigger] t.advance().pending[i]).time
                > t.advance().now,
        forall|j: int|
            0 <= j < t.due().len() ==> {
                &&& t.advance().admits(#[trigger] t.due()[j])
                &&& t.due()[j].time == t.advance().now
                &&& !has_id(t.advance().pending, t.due()[j].id)
            },
        distinct_ids(t.due()),
        forall|id: u64| has_id(t.advance().pending, id) ==> has_id(t.pending, id),
        forall|id: u64| has_id(t.due(), id) ==> has_id(t.pending, id),
{
    let s = t.pending;
    if s.len() > 0 {
        let k = lemma_bucket_is_prefix(s);
        let rest = t.advance().pending;
        assert(t.admits(s[0]));
        assert forall|i: int, j: int| 0 <= i < j < rest.len() implies precedes(
            #[trigger] rest[i],
            #[trigger] rest[j],
        ) by {
            assert(precedes(s[i + k], s[j + k]));
        }
        assert forall|i: int, j: int| 0 <= i < j < rest.len() implies (#[trigger] rest[i]).id != (
        #[trigger] rest[j]).id by {
            assert(s[i + k].id != s[j + k].id);
        }
        assert forall|i: int| 0 <= i < rest.len() implies t.advance().admits(#[trigger] rest[i])
            && rest[i].time > t.advance().now by {
            assert(t.admits(s[i + k]));
            assert(rest[i] == s[i + k]);
        }
        assert forall|j: int| 0 <= j < t.due().len() implies {
            &&& t.advance().admits(#[trigger] t.due()[j])
            &&& t.due()[j].time == t.advance().now
            &&& !has_id(t.advance().pending, t.due()[j].id)
        } by {
            assert(t.admits(s[j]));
            assert(t.due()[j] == s[j]);
            if has_id(rest, s[j].id) {
                let i = choose|i: int| 0 <= i < rest.len() && (#[trigger] rest[i]).id == s[j].id;
                assert(s[j].id != s[i + k].id);
            }
        }
        assert forall|i: int, j: int| 0 <= i < j < t.due().len() implies (#[trigger] t.due()[i]).id
            != (#[trigger] t.due()[j]).id by {
            assert(s[i].id != s[j].id);
        }
        assert forall|id: u64| has_id(rest, id) implies has_id(s, id) by {
            let i = choose|i: int| 0 <= i < rest.len() && (#[trigger] rest[i]).id == id;
            assert(s[i + k].id == id);
        }
        assert forall|id: u64| has_id(t.due(), id) implies has_id(s, id) by {
            let i = choose|i: int| 0 <= i < t.due().len() && (#[trigger] t.due()[i]).id == id;
            assert(s[i].id == id);
        }
    }
}

/// Settling a bucket keeps the timeline well formed. Each pending event
/// afterwards was pending before or is the renewal of a settled event, and
/// a settled event is pending afterwards exactly where it was renewed.
pub proof fn lemma_settle(base: Timeline, ran: Seq<Entry>, stops: Seq<bool>)
    requires
        base.wf(),
        stops.len() == ran.len(),
        distinct_ids(ran),
        forall|j: int|
            0 <= j < ran.len() ==> base.admits(#[trigger] ran[j]) && !has_id(
                base.pending,
                ran[j].id,
            ),
    ensures
        (Timeline { pending: settle(base.pending, ran, stops), ..base }).wf(),
        forall|e: Entry| #[trigger]
            settle(base.pending, ran, stops).contains(e) <==> base.pending.contains(e) || exists|
                j: int,
            |
                0 <= j < ran.len() && renewed(#[trigger] ran[j], stops[j]) == Some(e),
        forall|id: u64| #[trigger]
            has_id(settle(base.pending, ran, stops), id) <==> has_id(base.pending, id) || exists|
                j: int,
            |
                0 <= j < ran.len() && (#[trigger] ran[j]).id == id && renewed(ran[j], stops[j])
                    is Some,
    decreases ran.len(),
{
    let out = settle(base.pending, ran, stops);
    if ran.len() > 0 {
        let n = ran.len() - 1;
        let ran0 = ran.drop_last();
        let stops0 = stops.drop_last();
        let mid = settle(base.pending, ran0, stops0);
        assert forall|j: int| 0 <= j < ran0.len() implies #[trigger] ran0[j] == ran[j] by {}
        assert(distinct_ids(ran0));
        lemma_settle(base, ran0, stops0);
        let last = ran[n];
        assert(ran.last() == last && stops.last() == stops[n]);
        assert(!has_id(mid, last.id)) by {
            if has_id(mid, last.id) {
                assert(!has_id(base.pending, last.id));
                let j = choose|j: int|
                    0 <= j < ran0.len() && (#[trigger] ran0[j]).id == last.id && renewed(
                        ran0[j],
                        stops0[j],
                    ) is Some;
                assert(ran[j].id != ran[n].id);
            }
        }
        match renewed(last, stops[n]) {
            Some(next) => {
                assert(next.id == last.id);
                lemma_insert_entry(mid, next);
                assert(out == insert_entry(mid, next));
                assert(base.admits(last));
                assert(base.admits(next));
                assert forall|i: int| 0 <= i < out.len() implies base.admits(#[trigger] out[i]) by {
                    assert(out.contains(out[i]));
                    if out[i] != next {
                        let k = choose|k: int| 0 <= k < mid.len() && mid[k] == out[i];
                        assert(base.admits(mid[k]));
                    }
                }
            },
            None => {
                assert(out == mid);
            },
        }
        assert forall|e: Entry| #[trigger]
            out.contains(e) <==> base.pending.contains(e) || exists|j: int|
                0 <= j < ran.len() && renewed(#[trigger] ran[j], stops[j]) == Some(e) by {
            if out.contains(e) {
                if mid.contains(e) {
                    if !base.pending.contains(e) {
                        let j = choose|j: int|
                            0 <= j < ran0.len() && renewed(#[trigger] ran0[j], stops0[j]) == Some(
                                e,
                            );
                        assert(renewed(ran[j], stops[j]) == Some(e));
                    }
                } else {
                    assert(renewed(ran[n], stops[n]) == Some(e));
                }
            }
            if base.pending.contains(e) {
                assert(mid.contains(e));
            }
            if exists|j: int| 0 <= j < ran.len() && renewed(#[trigger] ran[j], stops[j]) == Some(e) {
                let j = choose|j: int|
                    0 <= j < ran.len() && renewed(#[trigger] ran[j], stops[j]) == Some(e);
                if j < n {
                    assert(renewed(ran0[j], stops0[j]) == Some(e));
                    assert(mid.contains(e));
                }
            }
        }
        assert forall|id: u64| #[trigger]
            has_id(out, id) <==> has_id(base.pending, id) || exists|j: int|
                0 <= j < ran.len() && (#[trigger] ran[j]).id == id && renewed(ran[j], stops[j])
                    is Some by {
            if has_id(out, id) {
                if has_id(mid, id) {
                    if !has_id(base.pending, id) {
                        let j = choose|j: int|
                            0 <= j < ran0.len() && (#[trigger] ran0[j]).id == id && renewed(
                                ran0[j],
                                stops0[j],
                            ) is Some;
                        assert(ran[j].id == id && renewed(ran[j], stops[j]) is Some);
                    }
                } else {
                    assert(ran[n].id == id && renewed(ran[n], stops[n]) is Some);
                }
            }
            if has_id(base.pending, id) {
                assert(has_id(mid, id));
            }
            if exists|j: int|
                0 <= j < ran.len() && (#[trigger] ran[j]).id == id && renewed(ran[j], stops[j])
                    is Some {
                let j = choose|j: int|
                    0 <= j < ran.len() && (#[trigger] ran[j]).id == id && renewed(
                        ran[j],
                        stops[j],
                    ) is Some;
                if j < n {
                    assert(ran0[j].id == id && renewed(ran0[j], stops0[j]) is Some);
                    assert(has_id(mid, id));
                }
            }
        }
    }
}

/// A step keeps the timeline well formed, never moves the current time
/// back, gives out no handle, and leaves only events that are strictly
/// later than the bucket it ran.
pub proof fn lemma_step(t: Timeline, stops: Seq<bool>)
    requires
        t.wf(),
        stops.len() == t.due().len(),
    ensures
        t.step(stops).wf(),
        t.step(stops).now >= t.now,
        t.step(stops).next_id == t.next_id,
        t.pending.len() > 0 ==> t.step(stops).now == t.pending[0].time,
        t.pending.len() == 0 ==> t.step(stops) == t,
        forall|i: int|
            0 <= i < t.step(stops).pending.len() ==> (#[trigger] t.step(stops).pending[i]).time
                > t.step(stops).now || t.pending.len() == 0,
        forall|id: u64| has_id(t.step(stops).pending, id) ==> has_id(t.pending, id),
{
    lemma_advance(t);
    let base = t.advance();
    lemma_settle(base, t.due(), stops);
    let out = t.step(stops).pending;
    if t.pending.len() == 0 {
        assert(t.due().len() == 0);
    } else {
        assert forall|i: int| 0 <= i < out.len() implies (#[trigger] out[i]).time > base.now by {
            assert(out.contains(out[i]));
            if base.pending.contains(out[i]) {
                let k = choose|k: int| 0 <= k < base.pending.len() && base.pending[k] == out[i];
                assert(base.pending[k].time > base.now);
            } else {
                let j = choose|j: int|
                    0 <= j < t.due().len() && renewed(#[trigger] t.due()[j], stops[j]) == Some(
                        out[i],
                    );
                assert(base.admits(t.due()[j]));
            }
        }
    }
    assert forall|id: u64| has_id(out, id) implies has_id(t.pending, id) by {
        if !has_id(base.pending, id) {
            let j = choose|j: int|
                0 <= j < t.due().len() && (#[trigger] t.due()[j]).id == id && renewed(
                    t.due()[j],
                    stops[j],
                ) is Some;
            assert(has_id(t.due(), id));
        }
    }
}

/// Time-order law: while an event of an earlier time is pending, no event
/// of a later time is run; a step leaves the later one pending as it is.
pub proof fn lemma_earlier_runs_first(t: Timeline, a: Entry, b: Entry, stops: Seq<bool>)
    requires
        t.wf(),
        t.pending.contains(a),
        t.pending.contains(b),
        a.time < b.time,
        stops.len() == t.due().len(),
    ensures
        !t.due().contains(b),
        t.step(stops).pending.contains(b),
        t.step(stops).now < b.time,
{
    lemma_bucket_order(t);
    lemma_advance(t);
    lemma_settle(t.advance(), t.due(), stops);
    let s = t.pending;
    let k = lemma_bucket_is_prefix(s);
    let i = choose|i: int| 0 <= i < s.len() && s[i] == b;
    assert(i >= k);
    assert(t.advance().pending[i - k] == b);
}

/// Stop law: an event whose agent reported that it stops is not pending
/// after the step, repeating or not. The law is about the enrollment: an
/// event of another handle stays pending whatever its agent is.
pub proof fn lemma_stopped_is_dropped(t: Timeline, stops: Seq<bool>, j: int)
    requires
        t.wf(),
        stops.len() == t.due().len(),
        0 <= j < t.due().len(),
        stops[j],
    ensures
        !has_id(t.step(stops).pending, t.due()[j].id),
{
    lemma_advance(t);
    lemma_settle(t.advance(), t.due(), stops);
    let id = t.due()[j].id;
    if has_id(t.step(stops).pending, id) {
        let i = choose|i: int|
            0 <= i < t.due().len() && (#[trigger] t.due()[i]).id == id && renewed(
                t.due()[i],
                stops[i],
            ) is Some;
        if i < j {
            assert(t.due()[i].id != t.due()[j].id);
        } else if j < i {
            assert(t.due()[j].id != t.due()[i].id);
        }
    }
}

/// Handles are never given out twice: a handle that is not pending, and was
/// given out before, is not pending after an enrollment, a cancellation or a
/// step either. With the stop law: a stopped event never runs again.
pub proof fn lemma_handles_never_return(
    t: Timeline,
    id: u64,
    time: u64,
    priority: i32,
    interval: Option<u64>,
    cancelled: u64,
    stops: Seq<bool>,
)
    requires
        t.wf(),
        t.next_id < u64::MAX,
        id < t.next_id,
        !has_id(t.pending, id),
        stops.len() == t.due().len(),
    ensures
        !has_id(t.enroll(time, priority, interval).pending, id),
        !has_id(t.cancel(cancelled).pending, id),
        !has_id(t.step(stops).pending, id),
{
    lemma_step(t, stops);
    lemma_cancel_keeps(t, cancelled);
    let e = Entry { id: t.next_id, time, priority, interval };
    assert(!has_id(t.pending, e.id)) by {
        if has_id(t.pending, e.id) {
            let k = choose|k: int| 0 <= k < t.pending.len() && (#[trigger] t.pending[k]).id == e.id;
            assert(t.admits(t.pending[k]));
        }
    }
    lemma_insert_entry(t.pending, e);
}

/// An enrollment at a time that is not past, with a positive interval where
/// there is one, keeps the timeline well formed, and adds the one event.
pub proof fn lemma_enroll(t: Timeline, time: u64, priority: i32, interval: Option<u64>)
    requires
        t.wf(),
        t.next_id < u64::MAX,
        time >= t.now,
        interval matches Some(step) ==> step > 0,
    ensures
        t.enroll(time, priority, interval).wf(),
        t.enroll(time, priority, interval).now == t.now,
        forall|id: u64|
            has_id(t.enroll(time, priority, interval).pending, id) <==> id == t.next_id || has_id(
                t.pending,
                id,
            ),
        forall|e: Entry| #[trigger]
            t.enroll(time, priority, interval).pending.contains(e) <==> e == (Entry {
                id: t.next_id,
                time,
                priority,
                interval,
            }) || t.pending.contains(e),
{
    let e = Entry { id: t.next_id, time, priority, interval };
    assert(!has_id(t.pending, e.id)) by {
        if has_id(t.pending, e.id) {
            let k = choose|k: int| 0 <= k < t.pending.len() && (#[trigger] t.pending[k]).id == e.id;
            assert(t.admits(t.pending[k]));
        }
    }
    lemma_insert_entry(t.pending, e);
    let u = t.enroll(time, priority, interval);
    assert(u.pending == insert_entry(t.pending, e));
    assert forall|i: int| 0 <= i < u.pending.len() implies u.admits(#[trigger] u.pending[i]) by {
        assert(u.pending.contains(u.pending[i]));
        if u.pending[i] != e {
            let k = choose|k: int| 0 <= k < t.pending.len() && t.pending[k] == u.pending[i];
            assert(t.admits(t.pending[k]));
        }
    }
}

/// A cancellation keeps the timeline well formed and takes out the event
/// with that handle and no other.
pub proof fn lemma_cancel_keeps(t: Timeline, id: u64)
    requires
        t.wf(),
    ensures
        t.cancel(id).wf(),
        forall|x: u64| has_id(t.cancel(id).pending, x) <==> x != id && has_id(t.pending, x),
{
    let s = t.pending;
    lemma_cancel(s, id);
    if has_id(s, id) {
        let k = choose|k: int| 0 <= k < s.len() && (#[trigger] s[k]).id == id;
        lemma_remove_keeps_order(s, k);
        let out = t.cancel(id).pending;
        assert(out == s.remove(k));
        assert forall|i: int| 0 <= i < out.len() implies t.cancel(id).admits(#[trigger] out[i]) by {
            let a = if i < k { i } else { i + 1 };
            assert(out[i] == s[a]);
            assert(t.admits(s[a]));
        }
    }
}

/// Every event of a run is due later than a tick that all pending events
/// are later than.
proof fn lemma_trace_is_later(t: Timeline, stops: Seq<Seq<bool>>, bound: int)
    requires
        t.wf(),
        t.fits(stops),
        forall|i: int| 0 <= i < t.pending.len() ==> (#[trigger] t.pending[i]).time > bound,
    ensures
        forall|k: int| 0 <= k < t.trace(stops).len() ==> (#[trigger] t.trace(stops)[k]).time > bound,
    decreases stops.len(),
{
    if stops.len() > 0 {
        let next = t.step(stops[0]);
        lemma_step(t, stops[0]);
        if t.pending.len() > 0 {
            lemma_bucket_is_prefix(t.pending);
            assert(t.pending[0].time > bound);
        }
        lemma_trace_is_later(next, stops.skip(1), bound);
        let tail = next.trace(stops.skip(1));
        assert forall|k: int| 0 <= k < t.trace(stops).len() implies (#[trigger] t.trace(
            stops,
        )[k]).time > bound by {
            if k < t.due().len() {
                assert(t.due()[k] == t.pending[k]);
            } else {
                assert(t.trace(stops)[k] == tail[k - t.due().len()]);
            }
        }
    }
}

/// Time-order law over whole runs: whatever the agents answer, the events of
/// a run of steps run in execution order, that is by time, within one tick
/// by priority, and within one priority by enrollment. So every event of an
/// earlier tick runs strictly before any event of a later one.
pub proof fn lemma_trace_in_order(t: Timeline, stops: Seq<Seq<bool>>)
    requires
        t.wf(),
        t.fits(stops),
    ensures
        forall|i: int, j: int|
            0 <= i < j < t.trace(stops).len() ==> precedes(
                #[trigger] t.trace(stops)[i],
                #[trigger] t.trace(stops)[j],
            ),
    decreases stops.len(),
{
    if stops.len() > 0 {
        let next = t.step(stops[0]);
        let tail = next.trace(stops.skip(1));
        let head = t.due();
        lemma_step(t, stops[0]);
        lemma_trace_in_order(next, stops.skip(1));
        if t.pending.len() > 0 {
            let k = lemma_bucket_is_prefix(t.pending);
            lemma_trace_is_later(next, stops.skip(1), t.pending[0].time as int);
            assert forall|i: int, j: int| 0 <= i < j < t.trace(stops).len() implies precedes(
                #[trigger] t.trace(stops)[i],
                #[trigger] t.trace(stops)[j],
            ) by {
                if j < head.len() {
                    assert(precedes(t.pending[i], t.pending[j]));
                } else if i < head.len() {
                    assert(head[i] == t.pending[i]);
                    assert(t.trace(stops)[j] == tail[j - head.len()]);
                } else {
                    assert(t.trace(stops)[i] == tail[i - head.len()]);
                    assert(t.trace(stops)[j] == tail[j - head.len()]);
                }
            }
        } else {
            assert(t.trace(stops) =~= tail);
        }
    }
}

/// Repeating-event law: a timeline whose one pending event repeats runs
/// that event once at every step, one interval after the other, for as long
/// as its agent goes on and the next tick exists: after `n` steps the event
/// has run `n` times and is due at its `n`-th next tick.
pub proof fn lemma_repeating_runs_every_interval(t: Timeline, n: nat)
    requires
        t.wf(),
        t.pending.len() == 1,
        t.pending[0].interval is Some,
        t.pending[0].time + n * t.pending[0].interval->0 <= u64::MAX,
    ensures
        t.run_on(n).wf(),
        t.run_on(n).pending == seq![
            Entry {
                time: (t.pending[0].time + n * t.pending[0].interval->0) as u64,
                ..t.pending[0]
            },
        ],
        t.run_on(n).due() == t.run_on(n).pending,
        n > 0 ==> t.run_on(n).now == t.pending[0].time + (n - 1) * t.pending[0].interval->0,
    decreases n,
{
    let e = t.pending[0];
    let d = e.interval->0;
    assert(t.admits(e));
    if n == 0 {
        assert(n * d == 0) by (nonlinear_arith)
            requires
                n == 0,
        ;
        assert(t.pending =~= seq![e]);
        lemma_single_bucket(t);
    } else {
        let m = (n - 1) as nat;
        assert(n * d == m * d + d) by (nonlinear_arith)
            requires
                n == m + 1,
        ;
        assert(m * d >= 0) by (nonlinear_arith)
            requires
                m >= 0,
                d >= 0,
        ;
        lemma_repeating_runs_every_interval(t, m);
        let before = t.run_on(m);
        let x = before.pending[0];
        lemma_single_bucket(before);
        let stops = before.all_go_on();
        lemma_step(before, stops);
        let after = before.step(stops);
        reveal_with_fuel(settle, 2);
        assert(before.due() =~= seq![x]);
        assert(before.due().drop_last() =~= Seq::<Entry>::empty());
        assert(before.due().last() == x);
        assert(stops.last() == false);
        let y = Entry { time: (x.time + d) as u64, ..x };
        assert(renewed(x, false) == Some(y));
        assert(before.advance().pending.len() == 0);
        assert(after.pending == insert_entry(before.advance().pending, y));
        lemma_rank_empty(before.advance().pending, y);
        assert(after.pending =~= seq![y]);
        assert(after == t.run_on(n));
        assert(x.time == e.time + m * d);
        assert(y == Entry { time: (e.time + n * d) as u64, ..e });
        lemma_single_bucket(after);
    }
}

/// Nothing precedes anything in an empty sequence.
proof fn lemma_rank_empty(s: Seq<Entry>, e: Entry)
    requires
        s.len() == 0,
    ensures
        crate::timeline::rank(s, e) == 0,
{
}

/// The bucket of a timeline with one pending event is that event, and
/// nothing is left behind it.
proof fn lemma_single_bucket(t: Timeline)
    requires
        t.wf(),
        t.pending.len() == 1,
    ensures
        t.due() == t.pending,
        t.advance().pending.len() == 0,
{
    let k = lemma_bucket_is_prefix(t.pending);
    assert(t.pending.take(1) =~= t.pending);
    assert(t.pending.skip(1).len() == 0);
}

} // verus!
