//! What a plan promises: its ranges are a partition of the keys.
use vstd::prelude::*;
use crate::listing;
use crate::planner;
use crate::planner::{PlanView, RangeLimits, RangeView};
use crate::text;

verus! {

/// `key` lies in the range: after its lower bound, at or before its upper.
pub open spec fn in_range(r: RangeView, key: Seq<char>) -> bool {
    &&& r.start_after is Some ==> text::key_lt(r.start_after->0, key)
    &&& text::key_le(key, r.stop_at)
}

/// The keys come in ascending order, each once.
pub open spec fn ascending(items: Seq<(Seq<char>, u64)>) -> bool {
    forall|i: int, j: int|
        0 <= i < j < items.len() ==> text::key_lt(#[trigger] items[i].0, #[trigger] items[j].0)
}

/// The `j`-th range starts where the one before it stops; the first has no
/// lower bound.
pub open spec fn starts_after_previous(ranges: Seq<RangeView>, j: int) -> bool {
    ranges[j].start_after == if j == 0 {
        None
    } else {
        Some(ranges[j - 1].stop_at)
    }
}

/// Neighbouring ranges share a bound, and the bounds ascend.
pub open spec fn contiguous(ranges: Seq<RangeView>) -> bool {
    &&& forall|j: int| 0 <= j < ranges.len() ==> #[trigger] starts_after_previous(ranges, j)
    &&& forall|i: int, j: int|
        0 <= i < j < ranges.len() ==> text::key_lt(
            #[trigger] ranges[i].stop_at,
            #[trigger] ranges[j].stop_at,
        )
}

/// The files of the first `j` ranges.
pub open spec fn offset(ranges: Seq<RangeView>, j: int) -> nat
    decreases j,
{
    if j <= 0 {
        0
    } else {
        offset(ranges, j - 1) + ranges[j - 1].files
    }
}

/// The bytes of the objects from `a` on, before `b`.
pub open spec fn size_sum(items: Seq<(Seq<char>, u64)>, a: int, b: int) -> nat
    decreases b - a,
{
    if b <= a {
        0
    } else {
        size_sum(items, a, b - 1) + items[b - 1].1 as nat
    }
}

/// The `j`-th range holds the next run of objects: it ends at the run's last
/// key and has the run's bytes.
pub open spec fn holds_run(ranges: Seq<RangeView>, items: Seq<(Seq<char>, u64)>, j: int) -> bool {
    &&& ranges[j].files > 0
    &&& ranges[j].stop_at == items[offset(ranges, j + 1) - 1].0
    &&& ranges[j].bytes == listing::saturated(
        size_sum(items, offset(ranges, j) as int, offset(ranges, j + 1) as int),
    )
}

/// How a plan is made of its objects: run by run, with the rest in the range
/// being filled.
pub open spec fn made_of(p: PlanView, items: Seq<(Seq<char>, u64)>) -> bool {
    let n = p.ranges.len() as int;
    &&& offset(p.ranges, n) + p.files == items.len()
    &&& p.bytes == listing::saturated(
        size_sum(items, offset(p.ranges, n) as int, items.len() as int),
    )
    &&& p.start_after == if n == 0 {
        None
    } else {
        Some(p.ranges[n - 1].stop_at)
    }
    &&& forall|j: int| 0 <= j < n ==> #[trigger] starts_after_previous(p.ranges, j)
    &&& forall|j: int| 0 <= j < n ==> #[trigger] holds_run(p.ranges, items, j)
}

/// The offsets of the earlier ranges do not depend on a later one.
proof fn lemma_offset_push(ranges: Seq<RangeView>, r: RangeView, j: int)
    requires
        0 <= j <= ranges.len(),
    ensures
        offset(ranges.push(r), j) == offset(ranges, j),
    decreases j,
{
    if j > 0 {
        lemma_offset_push(ranges, r, j - 1);
    }
}

/// Offsets ascend.
pub proof fn offsets_ascend(ranges: Seq<RangeView>, i: int, j: int)
    requires
        0 <= i <= j <= ranges.len(),
    ensures
        offset(ranges, i) <= offset(ranges, j),
    decreases j - i,
{
    if i < j {
        offsets_ascend(ranges, i, j - 1);
    }
}

/// Sums over the first objects do not depend on a later one.
proof fn lemma_size_sum_same(
    items: Seq<(Seq<char>, u64)>,
    more: Seq<(Seq<char>, u64)>,
    a: int,
    b: int,
)
    requires
        0 <= a,
        b <= items.len() <= more.len(),
        forall|i: int| 0 <= i < items.len() ==> #[trigger] more[i] == items[i],
    ensures
        size_sum(items, a, b) == size_sum(more, a, b),
    decreases b - a,
{
    if a < b {
        lemma_size_sum_same(items, more, a, b - 1);
        assert(more[b - 1] == items[b - 1]);
    }
}

/// Closing a range that holds objects keeps the plan made of its objects.
proof fn lemma_cut(p: PlanView, items: Seq<(Seq<char>, u64)>)
    requires
        made_of(p, items),
        p.files > 0,
    ensures
        made_of(p.cut(items.last().0), items),
        p.cut(items.last().0).files == 0,
{
    let q = p.cut(items.last().0);
    let n = p.ranges.len() as int;
    let r = q.ranges[n];
    assert(q.ranges =~= p.ranges.push(r));
    assert forall|j: int| 0 <= j <= n implies offset(q.ranges, j) == #[trigger] offset(
        p.ranges,
        j,
    ) by {
        lemma_offset_push(p.ranges, r, j);
    }
    assert(offset(q.ranges, n + 1) == offset(p.ranges, n) + p.files);
    assert forall|j: int| 0 <= j < n + 1 implies #[trigger] starts_after_previous(
        q.ranges,
        j,
    ) by {
        if j < n {
            assert(starts_after_previous(p.ranges, j));
        }
    }
    assert forall|j: int| 0 <= j < n + 1 implies #[trigger] holds_run(q.ranges, items, j) by {
        assert(offset(q.ranges, j) == offset(p.ranges, j));
        if j < n {
            assert(holds_run(p.ranges, items, j));
            assert(offset(q.ranges, j + 1) == offset(p.ranges, j + 1));
        }
    }
}

/// A plan is made of its objects.
proof fn lemma_planned(items: Seq<(Seq<char>, u64)>, limits: RangeLimits)
    ensures
        made_of(planner::planned(items, limits), items),
    decreases items.len(),
{
    if items.len() > 0 {
        let before = items.drop_last();
        lemma_planned(before, limits);
        let p = planner::planned(before, limits);
        let next = p.counted(items.last().1);
        let n = p.ranges.len() as int;
        assert forall|i: int| 0 <= i < before.len() implies #[trigger] items[i] == before[i] by {}
        lemma_size_sum_same(before, items, offset(p.ranges, n) as int, before.len() as int);
        assert(next.ranges == p.ranges);
        assert forall|j: int| 0 <= j < n implies #[trigger] holds_run(p.ranges, items, j) by {
            assert(holds_run(p.ranges, before, j));
            offsets_ascend(p.ranges, j + 1, n);
            lemma_size_sum_same(
                before,
                items,
                offset(p.ranges, j) as int,
                offset(p.ranges, j + 1) as int,
            );
        }
        assert(size_sum(items, offset(p.ranges, n) as int, items.len() as int) == size_sum(
            before,
            offset(p.ranges, n) as int,
            before.len() as int,
        ) + items.last().1);
        assert(made_of(next, items));
        if limits.full(next.bytes, next.files) {
            lemma_cut(next, items);
        }
    }
}

/// The plan accounts for everything: no object is left over, the files of the
/// ranges add up to the objects, and each range's bytes are those of its run.
pub proof fn plan_accounts_for_everything(items: Seq<(Seq<char>, u64)>, limits: RangeLimits)
    ensures
        made_of(planner::plan_of(items, limits), items),
        planner::plan_of(items, limits).files == 0,
        offset(
            planner::plan_of(items, limits).ranges,
            planner::plan_of(items, limits).ranges.len() as int,
        ) == items.len(),
{
    lemma_planned(items, limits);
    let p = planner::planned(items, limits);
    if p.files > 0 {
        lemma_cut(p, items);
    }
}

/// The ranges of a plan over ascending keys share their bounds, and the
/// bounds ascend.
pub proof fn plan_is_contiguous(items: Seq<(Seq<char>, u64)>, limits: RangeLimits)
    requires
        ascending(items),
    ensures
        contiguous(planner::plan_of(items, limits).ranges),
{
    plan_accounts_for_everything(items, limits);
    let ranges = planner::plan_of(items, limits).ranges;
    let n = ranges.len() as int;
    assert forall|i: int, j: int| 0 <= i < j < n implies text::key_lt(
        #[trigger] ranges[i].stop_at,
        #[trigger] ranges[j].stop_at,
    ) by {
        assert(holds_run(ranges, items, i) && holds_run(ranges, items, j));
        offsets_ascend(ranges, 0, i);
        offsets_ascend(ranges, i + 1, j);
        offsets_ascend(ranges, j + 1, n);
        let a = offset(ranges, i + 1) - 1;
        let b = offset(ranges, j + 1) - 1;
        assert(0 <= a < b < items.len());
        assert(text::key_lt(items[a].0, items[b].0));
    }
}

/// Each range copies exactly its run of the listing: the `i`-th object lies in
/// the `j`-th range if and only if it is in that range's run.
pub proof fn ranges_split_the_listing(
    items: Seq<(Seq<char>, u64)>,
    limits: RangeLimits,
    i: int,
    j: int,
)
    requires
        ascending(items),
        0 <= i < items.len(),
        0 <= j < planner::plan_of(items, limits).ranges.len(),
    ensures
        in_range(planner::plan_of(items, limits).ranges[j], items[i].0) <==> offset(
            planner::plan_of(items, limits).ranges,
            j,
        ) <= i < offset(planner::plan_of(items, limits).ranges, j + 1),
{
    plan_accounts_for_everything(items, limits);
    let ranges = planner::plan_of(items, limits).ranges;
    let n = ranges.len() as int;
    let key = items[i].0;
    assert(holds_run(ranges, items, j));
    assert(starts_after_previous(ranges, j));
    offsets_ascend(ranges, 0, j);
    offsets_ascend(ranges, j + 1, n);
    let from = offset(ranges, j) as int;
    let to = offset(ranges, j + 1) as int;
    assert(0 <= from < to <= items.len());
    if i < to {
        if i < to - 1 {
            assert(text::key_lt(items[i].0, items[to - 1].0));
        }
    } else {
        assert(text::key_lt(items[to - 1].0, items[i].0));
        text::key_not_lt(items[to - 1].0, key);
    }
    if j > 0 {
        assert(holds_run(ranges, items, j - 1));
        offsets_ascend(ranges, 0, j - 1);
        if i >= from {
            assert(text::key_lt(items[from - 1].0, items[i].0));
        } else {
            text::key_not_lt(items[from - 1].0, key);
            if i < from - 1 {
                assert(text::key_lt(items[i].0, items[from - 1].0));
            }
        }
    }
}

/// Ranges that share their bounds do not overlap: no key lies in two.
pub proof fn ranges_do_not_overlap(ranges: Seq<RangeView>, i: int, j: int, key: Seq<char>)
    requires
        contiguous(ranges),
        0 <= i < j < ranges.len(),
    ensures
        !(in_range(ranges[i], key) && in_range(ranges[j], key)),
{
    if in_range(ranges[i], key) && in_range(ranges[j], key) {
        let bound = ranges[j - 1].stop_at;
        assert(starts_after_previous(ranges, j));
        assert(text::key_lt(bound, key));
        if i < j - 1 {
            assert(text::key_lt(ranges[i].stop_at, ranges[j - 1].stop_at));
            text::key_lt_transitive(ranges[i].stop_at, bound, key);
        }
        assert(text::key_lt(ranges[i].stop_at, key));
        text::key_not_lt(ranges[i].stop_at, key);
    }
}

/// Ranges that share their bounds leave no gap: every key up to the last
/// bound, listed or not, lies in one.
pub proof fn ranges_leave_no_gap(ranges: Seq<RangeView>, key: Seq<char>)
    requires
        contiguous(ranges),
        ranges.len() > 0,
        text::key_le(key, ranges.last().stop_at),
    ensures
        exists|j: int| 0 <= j < ranges.len() && #[trigger] in_range(ranges[j], key),
{
    lemma_first_holding(ranges, key, ranges.len() - 1);
}

/// Among the ranges up to `j`, one holds a key that is within `j`'s bound.
proof fn lemma_first_holding(ranges: Seq<RangeView>, key: Seq<char>, j: int)
    requires
        contiguous(ranges),
        0 <= j < ranges.len(),
        text::key_le(key, ranges[j].stop_at),
    ensures
        exists|k: int| 0 <= k < ranges.len() && #[trigger] in_range(ranges[k], key),
    decreases j,
{
    if j == 0 {
        assert(starts_after_previous(ranges, 0));
        assert(in_range(ranges[0], key));
    } else {
        assert(starts_after_previous(ranges, j));
        text::key_not_lt(ranges[j - 1].stop_at, key);
        if text::key_lt(ranges[j - 1].stop_at, key) {
            assert(in_range(ranges[j], key));
        } else {
            lemma_first_holding(ranges, key, j - 1);
        }
    }
}

/// Every listed key is copied by one range's copier and no other.
pub proof fn every_key_has_one_range(items: Seq<(Seq<char>, u64)>, limits: RangeLimits, i: int)
    requires
        ascending(items),
        0 <= i < items.len(),
    ensures
        exists|j: int|
            0 <= j < planner::plan_of(items, limits).ranges.len() && #[trigger] in_range(
                planner::plan_of(items, limits).ranges[j],
                items[i].0,
            ),
        forall|j: int, k: int|
            0 <= j < planner::plan_of(items, limits).ranges.len() && 0 <= k < planner::plan_of(
                items,
                limits,
            ).ranges.len() && #[trigger] in_range(
                planner::plan_of(items, limits).ranges[j],
                items[i].0,
            ) && #[trigger] in_range(planner::plan_of(items, limits).ranges[k], items[i].0) ==> j
                == k,
{
    let ranges = planner::plan_of(items, limits).ranges;
    let n = ranges.len() as int;
    plan_accounts_for_everything(items, limits);
    plan_is_contiguous(items, limits);
    assert(n > 0) by {
        if n == 0 {
            assert(offset(ranges, 0) == 0);
        }
    }
    assert(holds_run(ranges, items, n - 1));
    if i < items.len() - 1 {
        assert(text::key_lt(items[i].0, items[items.len() - 1].0));
    }
    ranges_leave_no_gap(ranges, items[i].0);
    assert forall|j: int, k: int|
        0 <= j < n && 0 <= k < n && #[trigger] in_range(ranges[j], items[i].0)
            && #[trigger] in_range(ranges[k], items[i].0) implies j == k by {
        if j < k {
            ranges_do_not_overlap(ranges, j, k, items[i].0);
        } else if k < j {
            ranges_do_not_overlap(ranges, k, j, items[i].0);
        }
    }
}

/// Folding in one object after the others is planning with it as the last.
pub proof fn adding_extends_the_plan(
    items: Seq<(Seq<char>, u64)>,
    key: Seq<char>,
    size: u64,
    limits: RangeLimits,
)
    ensures
        planner::planned(items.push((key, size)), limits) == planner::planned(items, limits).fed(
            key,
            size,
            limits,
        ),
{
    assert(items.push((key, size)).drop_last() =~= items);
}

/// A range is never left full: the object that fills it closes it.
pub proof fn full_ranges_close_at_once(
    p: PlanView,
    key: Seq<char>,
    size: u64,
    limits: RangeLimits,
)
    ensures
        !limits.full(p.fed(key, size, limits).bytes, p.fed(key, size, limits).files),
{
    assert(!limits.full(0, 0));
}

/// The `j`-th range is full.
pub open spec fn is_full(ranges: Seq<RangeView>, limits: RangeLimits, j: int) -> bool {
    limits.full(ranges[j].bytes, ranges[j].files)
}

/// The `j`-th range is full without its last object.
pub open spec fn full_before_last(
    ranges: Seq<RangeView>,
    items: Seq<(Seq<char>, u64)>,
    limits: RangeLimits,
    j: int,
) -> bool {
    limits.full(
        listing::saturated(
            size_sum(items, offset(ranges, j) as int, offset(ranges, j + 1) - 1),
        ),
        (ranges[j].files - 1) as nat,
    )
}

/// While objects are folded in, the closed ranges are full, none of them
/// without its last object, and the range being filled is not.
proof fn lemma_filled(items: Seq<(Seq<char>, u64)>, limits: RangeLimits)
    ensures
        ({
            let p = planner::planned(items, limits);
            &&& !limits.full(p.bytes, p.files)
            &&& forall|j: int| 0 <= j < p.ranges.len() ==> #[trigger] is_full(p.ranges, limits, j)
            &&& forall|j: int|
                0 <= j < p.ranges.len() ==> !#[trigger] full_before_last(p.ranges, items, limits, j)
        }),
    decreases items.len(),
{
    if items.len() > 0 {
        let before = items.drop_last();
        lemma_filled(before, limits);
        lemma_planned(before, limits);
        let p = planner::planned(before, limits);
        let next = p.counted(items.last().1);
        let q = planner::planned(items, limits);
        let n = p.ranges.len() as int;
        assert forall|i: int| 0 <= i < before.len() implies #[trigger] items[i] == before[i] by {}
        lemma_size_sum_same(before, items, offset(p.ranges, n) as int, before.len() as int);
        let cut = limits.full(next.bytes, next.files);
        if cut {
            assert(q.ranges =~= p.ranges.push(q.ranges[n]));
            lemma_offset_push(p.ranges, q.ranges[n], n);
            assert(offset(q.ranges, n + 1) == offset(p.ranges, n) + next.files);
        } else {
            assert(q == next);
        }
        assert forall|j: int| 0 <= j < q.ranges.len() implies #[trigger] is_full(
            q.ranges,
            limits,
            j,
        ) by {
            if j < n {
                assert(is_full(p.ranges, limits, j));
            }
        }
        assert forall|j: int| 0 <= j < q.ranges.len() implies !#[trigger] full_before_last(
            q.ranges,
            items,
            limits,
            j,
        ) by {
            if j < n {
                assert(!full_before_last(p.ranges, before, limits, j));
                if cut {
                    lemma_offset_push(p.ranges, q.ranges[n], j);
                    lemma_offset_push(p.ranges, q.ranges[n], j + 1);
                }
                offsets_ascend(p.ranges, j + 1, n);
                lemma_size_sum_same(
                    before,
                    items,
                    offset(p.ranges, j) as int,
                    offset(p.ranges, j + 1) - 1,
                );
            }
        }
    }
}

/// Ranges are closed exactly when they are full: every range of a plan but the
/// last is full, and no range is full without its last object.
pub proof fn ranges_close_when_full(items: Seq<(Seq<char>, u64)>, limits: RangeLimits, j: int)
    requires
        0 <= j < planner::plan_of(items, limits).ranges.len(),
    ensures
        j + 1 < planner::plan_of(items, limits).ranges.len() ==> is_full(
            planner::plan_of(items, limits).ranges,
            limits,
            j,
        ),
        !full_before_last(planner::plan_of(items, limits).ranges, items, limits, j),
{
    lemma_filled(items, limits);
    lemma_planned(items, limits);
    let p = planner::planned(items, limits);
    let ranges = planner::plan_of(items, limits).ranges;
    let n = p.ranges.len() as int;
    if p.files > 0 {
        assert(ranges =~= p.ranges.push(ranges[n]));
        lemma_offset_push(p.ranges, ranges[n], n);
        if j < n {
            lemma_offset_push(p.ranges, ranges[n], j);
            lemma_offset_push(p.ranges, ranges[n], j + 1);
        } else {
            assert(offset(ranges, n + 1) == items.len());
            assert(size_sum(items, offset(p.ranges, n) as int, items.len() as int) >= size_sum(
                items,
                offset(p.ranges, n) as int,
                items.len() - 1,
            ));
        }
    }
    if j < n {
        assert(is_full(p.ranges, limits, j));
        assert(!full_before_last(p.ranges, items, limits, j));
    }
}

/// A range ends where a limit is met, in the numbers of the limits: every range
/// of a plan but the last has the bytes or the keys that fill it, and without
/// its last object every range has fewer bytes and fewer keys than that.
pub proof fn ranges_meet_the_limits(items: Seq<(Seq<char>, u64)>, limits: RangeLimits, j: int)
    requires
        0 <= j < planner::plan_of(items, limits).ranges.len(),
    ensures
        ({
            let ranges = planner::plan_of(items, limits).ranges;
            let from = offset(ranges, j) as int;
            let to = offset(ranges, j + 1) as int;
            &&& j + 1 < ranges.len() ==> {
                ||| limits.bytes > 0 && ranges[j].bytes >= limits.bytes
                ||| limits.keys > 0 && ranges[j].files >= limits.keys
            }
            &&& limits.bytes > 0 ==> size_sum(items, from, to - 1) < limits.bytes
            &&& limits.keys > 0 ==> ranges[j].files <= limits.keys
            &&& ranges[j].files == to - from
            &&& from < to
        }),
{
    ranges_close_when_full(items, limits, j);
    plan_accounts_for_everything(items, limits);
    assert(holds_run(planner::plan_of(items, limits).ranges, items, j));
}

/// Without limits there is one range at most.
pub proof fn without_limits_nothing_is_cut(items: Seq<(Seq<char>, u64)>)
    ensures
        planner::plan_of(items, RangeLimits { bytes: 0, keys: 0 }).ranges.len() == if items.len()
            > 0 {
            1int
        } else {
            0int
        },
{
    let limits = RangeLimits { bytes: 0, keys: 0 };
    let ranges = planner::plan_of(items, limits).ranges;
    plan_accounts_for_everything(items, limits);
    if ranges.len() > 1 {
        ranges_meet_the_limits(items, limits, 0);
    }
    if ranges.len() == 0 {
        assert(offset(ranges, 0) == 0);
    } else {
        assert(holds_run(ranges, items, 0));
        assert(offset(ranges, 1) == offset(ranges, 0) + ranges[0].files);
    }
}

/// One object closes the range that it brings to a limit, and only then, in
/// the numbers of the limits.
pub proof fn an_object_closes_at_the_limit(
    p: PlanView,
    key: Seq<char>,
    size: u64,
    limits: RangeLimits,
)
    ensures
        ({
            let next = p.fed(key, size, limits);
            let closed = {
                ||| limits.bytes > 0 && p.bytes + size >= limits.bytes
                ||| limits.keys > 0 && p.files + 1 >= limits.keys
            };
            &&& limits.full(p.counted(size).bytes, p.counted(size).files) == closed
            &&& closed ==> next.ranges.len() == p.ranges.len() + 1 && next.ranges.drop_last()
                == p.ranges && next.ranges.last().stop_at == key && next.ranges.last().start_after
                == p.start_after && next.ranges.last().files == p.files + 1 && next.start_after
                == Some(key) && next.files == 0 && next.bytes == 0 && next.le16 == 0
            &&& !closed ==> next.ranges == p.ranges && next.start_after == p.start_after
                && next.files == p.files + 1
            &&& p.bytes + size <= u64::MAX ==> p.counted(size).bytes == p.bytes + size
            &&& p.bytes + size > u64::MAX ==> p.counted(size).bytes == u64::MAX
        }),
{
    let cut = p.counted(size).cut(key);
    assert(cut.ranges.drop_last() =~= p.ranges);
}

/// The small objects (16 MiB at most) from `a` on, before `b`.
pub open spec fn small_in(items: Seq<(Seq<char>, u64)>, a: int, b: int) -> nat
    decreases b - a,
{
    if b <= a {
        0
    } else {
        small_in(items, a, b - 1) + if items[b - 1].1 <= 16 * 1024 * 1024 {
            1nat
        } else {
            0nat
        }
    }
}

/// Small objects among the first ones do not depend on a later one.
proof fn lemma_small_same(
    items: Seq<(Seq<char>, u64)>,
    more: Seq<(Seq<char>, u64)>,
    a: int,
    b: int,
)
    requires
        0 <= a,
        b <= items.len() <= more.len(),
        forall|i: int| 0 <= i < items.len() ==> #[trigger] more[i] == items[i],
    ensures
        small_in(items, a, b) == small_in(more, a, b),
    decreases b - a,
{
    if a < b {
        lemma_small_same(items, more, a, b - 1);
        assert(more[b - 1] == items[b - 1]);
    }
}

/// The files in flight of the `j`-th range go by its small objects.
pub open spec fn goes_by_size(ranges: Seq<RangeView>, items: Seq<(Seq<char>, u64)>, j: int) -> bool {
    ranges[j].pf == if 2 * small_in(
        items,
        offset(ranges, j) as int,
        offset(ranges, j + 1) as int,
    ) >= ranges[j].files {
        128usize
    } else {
        32usize
    }
}

/// Closing a range that holds objects keeps the files in flight by size.
proof fn lemma_cut_by_size(p: PlanView, items: Seq<(Seq<char>, u64)>)
    requires
        made_of(p, items),
        p.files > 0,
        p.le16 == small_in(
            items,
            offset(p.ranges, p.ranges.len() as int) as int,
            items.len() as int,
        ),
        forall|j: int| 0 <= j < p.ranges.len() ==> #[trigger] goes_by_size(p.ranges, items, j),
    ensures
        ({
            let q = p.cut(items.last().0);
            forall|j: int| 0 <= j < q.ranges.len() ==> #[trigger] goes_by_size(q.ranges, items, j)
        }),
{
    let q = p.cut(items.last().0);
    let n = p.ranges.len() as int;
    assert(q.ranges =~= p.ranges.push(q.ranges[n]));
    lemma_offset_push(p.ranges, q.ranges[n], n);
    assert(offset(q.ranges, n + 1) == offset(p.ranges, n) + p.files);
    assert forall|j: int| 0 <= j < q.ranges.len() implies #[trigger] goes_by_size(
        q.ranges,
        items,
        j,
    ) by {
        if j < n {
            lemma_offset_push(p.ranges, q.ranges[n], j);
            lemma_offset_push(p.ranges, q.ranges[n], j + 1);
            assert(goes_by_size(p.ranges, items, j));
        }
    }
}

/// While objects are folded in, the files in flight go by size.
proof fn lemma_by_size(items: Seq<(Seq<char>, u64)>, limits: RangeLimits)
    ensures
        ({
            let p = planner::planned(items, limits);
            &&& p.le16 == small_in(
                items,
                offset(p.ranges, p.ranges.len() as int) as int,
                items.len() as int,
            )
            &&& forall|j: int|
                0 <= j < p.ranges.len() ==> #[trigger] goes_by_size(p.ranges, items, j)
        }),
    decreases items.len(),
{
    if items.len() > 0 {
        let before = items.drop_last();
        lemma_by_size(before, limits);
        lemma_planned(before, limits);
        lemma_planned(items, limits);
        let p = planner::planned(before, limits);
        let next = p.counted(items.last().1);
        let n = p.ranges.len() as int;
        let from = offset(p.ranges, n) as int;
        assert forall|i: int| 0 <= i < before.len() implies #[trigger] items[i] == before[i] by {}
        lemma_small_same(before, items, from, before.len() as int);
        lemma_size_sum_same(before, items, from, before.len() as int);
        assert forall|j: int| 0 <= j < n implies #[trigger] goes_by_size(p.ranges, items, j) by {
            assert(goes_by_size(p.ranges, before, j));
            offsets_ascend(p.ranges, j + 1, n);
            lemma_small_same(
                before,
                items,
                offset(p.ranges, j) as int,
                offset(p.ranges, j + 1) as int,
            );
        }
        assert forall|j: int| 0 <= j < n implies #[trigger] holds_run(p.ranges, items, j) by {
            assert(holds_run(p.ranges, before, j));
            offsets_ascend(p.ranges, j + 1, n);
            lemma_size_sum_same(
                before,
                items,
                offset(p.ranges, j) as int,
                offset(p.ranges, j + 1) as int,
            );
        }
        assert(next.le16 == small_in(items, from, items.len() as int));
        if limits.full(next.bytes, next.files) {
            assert(made_of(next, items));
            lemma_cut_by_size(next, items);
            let q = next.cut(items.last().0);
            assert(offset(q.ranges, n + 1) == items.len()) by {
                assert(q.ranges =~= p.ranges.push(q.ranges[n]));
                lemma_offset_push(p.ranges, q.ranges[n], n);
            }
        }
    }
}

/// A range in which at least half of the objects are small is copied with 128
/// files in flight, any other with 32.
pub proof fn small_files_go_in_parallel(items: Seq<(Seq<char>, u64)>, limits: RangeLimits, j: int)
    requires
        0 <= j < planner::plan_of(items, limits).ranges.len(),
    ensures
        ({
            let ranges = planner::plan_of(items, limits).ranges;
            let small = small_in(
                items,
                offset(ranges, j) as int,
                offset(ranges, j + 1) as int,
            );
            &&& 2 * small >= ranges[j].files ==> ranges[j].pf == 128
            &&& 2 * small < ranges[j].files ==> ranges[j].pf == 32
        }),
{
    lemma_by_size(items, limits);
    lemma_planned(items, limits);
    let p = planner::planned(items, limits);
    if p.files > 0 {
        lemma_cut_by_size(p, items);
    }
    assert(goes_by_size(planner::plan_of(items, limits).ranges, items, j));
}

} // verus!
