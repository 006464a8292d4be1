//! What the counters of a transfer add up to.
use vstd::prelude::*;
use crate::progress;
use crate::progress::Metrics;

verus! {

/// One call on the counters.
pub enum Call {
    /// An attempt at a file begins.
    Track,
    /// The attempt of that number is over.
    Untrack(u64),
    /// Bytes came from S3 for an attempt.
    Read { id: u64, len: u64 },
    /// The upload took bytes of an attempt.
    Ingested { id: u64, len: u64 },
}

/// The call leads from `m` to `next`.
pub open spec fn performs(m: Metrics, call: Call, next: Metrics) -> bool {
    match call {
        Call::Track => m.registers(next),
        Call::Untrack(id) => m.forgets(id, next),
        Call::Read { id, len } => exists|now: u64| #[trigger] m.credits(next, id, len, now, true),
        Call::Ingested { id, len } => exists|now: u64| #[trigger]
            m.credits(next, id, len, now, false),
    }
}

/// The attempts begun.
pub open spec fn begun(calls: Seq<Call>) -> nat
    decreases calls.len(),
{
    if calls.len() == 0 {
        0
    } else {
        begun(calls.drop_last()) + if calls.last() is Track {
            1nat
        } else {
            0nat
        }
    }
}

/// The attempt of that number was begun and is not over.
pub open spec fn under_way(calls: Seq<Call>, id: u64) -> bool
    decreases calls.len(),
{
    if calls.len() == 0 {
        false
    } else {
        let before = under_way(calls.drop_last(), id);
        match calls.last() {
            Call::Track => before || id == begun(calls.drop_last()),
            Call::Untrack(over) => before && over != id,
            _ => before,
        }
    }
}

/// The attempts begun and not over.
pub open spec fn in_flight(calls: Seq<Call>) -> int
    decreases calls.len(),
{
    if calls.len() == 0 {
        0
    } else {
        let before = in_flight(calls.drop_last());
        match calls.last() {
            Call::Track => before + 1,
            Call::Untrack(id) => if under_way(calls.drop_last(), id) {
                before - 1
            } else {
                before
            },
            _ => before,
        }
    }
}

/// The bytes that came from S3.
pub open spec fn read(calls: Seq<Call>) -> nat
    decreases calls.len(),
{
    if calls.len() == 0 {
        0
    } else {
        read(calls.drop_last()) + match calls.last() {
            Call::Read { len, .. } => len as nat,
            _ => 0nat,
        }
    }
}

/// The bytes that the upload took.
pub open spec fn ingested(calls: Seq<Call>) -> nat
    decreases calls.len(),
{
    if calls.len() == 0 {
        0
    } else {
        ingested(calls.drop_last()) + match calls.last() {
            Call::Ingested { len, .. } => len as nat,
            _ => 0nat,
        }
    }
}

/// The counters are those of the calls: the bytes of each side (wrapping
/// around as counters do), and the attempts under way.
pub open spec fn describes(m: Metrics, calls: Seq<Call>) -> bool {
    &&& m.wf()
    &&& m.next_id == begun(calls)
    &&& m.s3_bytes == read(calls) % 0x1_0000_0000_0000_0000
    &&& m.hf_bytes == ingested(calls) % 0x1_0000_0000_0000_0000
    &&& m.inflight@.len() == in_flight(calls)
    &&& forall|id: u64| #[trigger]
        progress::tracked_as(m.inflight@, id) <==> under_way(calls, id)
}

/// New counters describe no calls.
pub proof fn new_counters_are_empty(m: Metrics)
    requires
        m.wf(),
        m.next_id == 0,
        m.s3_bytes == 0,
        m.hf_bytes == 0,
        m.inflight@.len() == 0,
    ensures
        describes(m, Seq::empty()),
{
}

/// The counters stay those of the calls made: how many attempts are in flight
/// and which, and the bytes of each side.
pub proof fn counters_add_up(m: Metrics, calls: Seq<Call>, call: Call, next: Metrics)
    requires
        describes(m, calls),
        performs(m, call, next),
    ensures
        describes(next, calls.push(call)),
{
    let all = calls.push(call);
    assert(all.drop_last() =~= calls);
    assert(all.last() == call);
    let a = m.inflight@;
    let b = next.inflight@;
    match call {
        Call::Track => {
            assert(b =~= a.push(b.last()));
            assert forall|id: u64| #[trigger] progress::tracked_as(b, id) <==> under_way(
                all,
                id,
            ) by {
                assert(progress::tracked_as(a, id) <==> under_way(calls, id));
                if progress::tracked_as(a, id) {
                    let i = choose|i: int| 0 <= i < a.len() && (#[trigger] a[i]).0 == id;
                    assert(b[i].0 == id);
                }
                if id == m.next_id {
                    assert(b[a.len() as int].0 == id);
                }
                if progress::tracked_as(b, id) && id != m.next_id {
                    let i = choose|i: int| 0 <= i < b.len() && (#[trigger] b[i]).0 == id;
                    assert(a[i].0 == id);
                }
            }
        },
        Call::Untrack(over) => {
            assert(progress::tracked_as(a, over) <==> under_way(calls, over));
            progress::untracking_removes_one(a, over);
            assert forall|id: u64| #[trigger] progress::tracked_as(b, id) <==> under_way(
                all,
                id,
            ) by {
                assert(progress::tracked_as(a, id) <==> under_way(calls, id));
            }
        },
        Call::Read { id, len } => {
            let now = choose|now: u64| #[trigger] m.credits(next, id, len, now, true);
            lemma_same_ids(m, next, id, len, now, true);
            assert forall|other: u64| #[trigger] progress::tracked_as(b, other) <==> under_way(
                all,
                other,
            ) by {
                assert(progress::tracked_as(a, other) <==> under_way(calls, other));
            }
        },
        Call::Ingested { id, len } => {
            let now = choose|now: u64| #[trigger] m.credits(next, id, len, now, false);
            lemma_same_ids(m, next, id, len, now, false);
            assert forall|other: u64| #[trigger] progress::tracked_as(b, other) <==> under_way(
                all,
                other,
            ) by {
                assert(progress::tracked_as(a, other) <==> under_way(calls, other));
            }
        },
    }
}

/// Crediting bytes changes no attempt's number.
proof fn lemma_same_ids(m: Metrics, next: Metrics, id: u64, len: u64, now: u64, from_s3: bool)
    requires
        m.wf(),
        m.credits(next, id, len, now, from_s3),
    ensures
        next.wf(),
        forall|other: u64| #[trigger]
            progress::tracked_as(next.inflight@, other) <==> progress::tracked_as(
                m.inflight@,
                other,
            ),
{
    let a = m.inflight@;
    let b = next.inflight@;
    assert forall|i: int| 0 <= i < a.len() implies (#[trigger] b[i]).0 == a[i].0 by {}
    assert forall|other: u64| #[trigger] progress::tracked_as(b, other)
        <==> progress::tracked_as(a, other) by {
        if progress::tracked_as(a, other) {
            let i = choose|i: int| 0 <= i < a.len() && (#[trigger] a[i]).0 == other;
            assert(b[i].0 == other);
        }
        if progress::tracked_as(b, other) {
            let i = choose|i: int| 0 <= i < b.len() && (#[trigger] b[i]).0 == other;
            assert(a[i].0 == other);
        }
    }
    assert forall|i: int, j: int| 0 <= i < j < b.len() implies (#[trigger] b[i]).0 < (
    #[trigger] b[j]).0 by {
        assert(a[i].0 < a[j].0);
    }
    assert forall|i: int| 0 <= i < b.len() implies (#[trigger] b[i]).0 < next.next_id by {
        assert(a[i].0 < m.next_id);
    }
}

} // verus!
