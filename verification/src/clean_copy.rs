//! A faithful copy passes the destination check, and a lossy one does not.
use vstd::prelude::*;
use crate::census;
use crate::census::{Frame, Slot};
use crate::keys;
use crate::partition;
use crate::planner;
use crate::planner::{RangeLimits, RangeView};
use crate::text;
use crate::verify;
use crate::verify::{PlannedRange, Tally};

verus! {

/// How many of the objects fall in the `j`-th range.
pub open spec fn files_in(
    ranges: Seq<PlannedRange>,
    items: Seq<(Seq<char>, u64)>,
    j: int,
) -> nat
    decreases items.len(),
{
    if items.len() == 0 {
        0
    } else {
        files_in(ranges, items.drop_last(), j) + if verify::located(ranges, items.last().0)
            == Some(j) {
            1nat
        } else {
            0nat
        }
    }
}

/// The bytes of the objects that fall in the `j`-th range.
pub open spec fn bytes_in(
    ranges: Seq<PlannedRange>,
    items: Seq<(Seq<char>, u64)>,
    j: int,
) -> nat
    decreases items.len(),
{
    if items.len() == 0 {
        0
    } else {
        bytes_in(ranges, items.drop_last(), j) + if verify::located(ranges, items.last().0)
            == Some(j) {
            items.last().1 as nat
        } else {
            0nat
        }
    }
}

/// The tally has counted exactly these objects into the ranges.
pub open spec fn tallies(t: Tally, ranges: Seq<PlannedRange>, items: Seq<(Seq<char>, u64)>) -> bool {
    &&& t.files@.len() == ranges.len()
    &&& t.bytes@.len() == ranges.len()
    &&& forall|j: int|
        0 <= j < ranges.len() ==> #[trigger] t.files@[j] == files_in(ranges, items, j)
    &&& forall|j: int|
        0 <= j < ranges.len() ==> #[trigger] t.bytes@[j] == bytes_in(ranges, items, j)
}

/// Counting one listed file keeps the tally that of the files listed.
pub proof fn tally_counts_what_is_listed(
    t: Tally,
    ranges: Seq<PlannedRange>,
    items: Seq<(Seq<char>, u64)>,
    key: Seq<char>,
    size: u64,
    next: Tally,
)
    requires
        tallies(t, ranges, items),
        t.wf(ranges.len()),
        t.dest_files < u64::MAX,
        t.dest_bytes + size <= u64::MAX,
        t.counts(verify::located(ranges, key), size, next),
    ensures
        tallies(next, ranges, items.push((key, size))),
{
    let all = items.push((key, size));
    assert(all.drop_last() =~= items);
    let at = verify::located(ranges, key);
    if at is Some {
        verify::located_range_covers(ranges, key);
        lemma_part(t.files@, at->0);
        lemma_part(t.bytes@, at->0);
    }
    assert forall|j: int| 0 <= j < ranges.len() implies #[trigger] next.files@[j] == files_in(
        ranges,
        all,
        j,
    ) by {
        assert(t.files@[j] == files_in(ranges, items, j));
    }
    assert forall|j: int| 0 <= j < ranges.len() implies #[trigger] next.bytes@[j] == bytes_in(
        ranges,
        all,
        j,
    ) by {
        assert(t.bytes@[j] == bytes_in(ranges, items, j));
    }
}

/// A copied file is counted as the key it came from: where the destination
/// lists the path that a copied key landed on, the tally stays that of the keys
/// listed. (Under a prefix without a trailing slash, the key that is the
/// prefix, a slash and the prefix again is set aside.)
pub proof fn copied_files_are_tallied(
    t: Tally,
    ranges: Seq<PlannedRange>,
    items: Seq<(Seq<char>, u64)>,
    key: Seq<char>,
    size: u64,
    dest_prefix: Seq<char>,
    src_prefix: Seq<char>,
    next: Tally,
)
    requires
        tallies(t, ranges, items),
        t.wf(ranges.len()),
        t.dest_files < u64::MAX,
        t.dest_bytes + size <= u64::MAX,
        keys::belongs(key, src_prefix),
        !keys::has_empty_segment(key),
        key != src_prefix + seq!['/'] + src_prefix,
        t.observes(
            keys::landed(key, dest_prefix, src_prefix),
            size,
            dest_prefix,
            src_prefix,
            ranges,
            next,
        ),
    ensures
        tallies(next, ranges, items.push((key, size))),
{
    keys::source_key_inverts_the_mapping(key, dest_prefix, src_prefix);
    tally_counts_what_is_listed(t, ranges, items, key, size, next);
}

/// No count exceeds the sum of all.
proof fn lemma_part(counts: Seq<u64>, at: int)
    requires
        0 <= at < counts.len(),
    ensures
        counts[at] <= verify::total(counts),
    decreases counts.len(),
{
    if at < counts.len() - 1 {
        lemma_part(counts.drop_last(), at);
    }
}

/// The ranges of a plan over ascending keys are in key order.
proof fn lemma_ordered(ranges: Seq<PlannedRange>, plan: Seq<RangeView>)
    requires
        planner::are_those_of(ranges, plan),
        partition::contiguous(plan),
    ensures
        verify::ordered(ranges),
{
    assert forall|i: int, j: int|
        #![trigger ranges[i], ranges[j]]
        0 <= i < j < ranges.len() implies ranges[i].stop_at is Some && (ranges[j].stop_at is Some
        ==> text::key_le(ranges[i].stop_at->0@, ranges[j].stop_at->0@)) by {
        assert(planner::is_that(ranges[i], plan[i]) && planner::is_that(ranges[j], plan[j]));
        assert(text::key_lt(plan[i].stop_at, plan[j].stop_at));
    }
}

/// The check finds the range that a planned key was planned in.
pub proof fn planned_keys_are_located(
    items: Seq<(Seq<char>, u64)>,
    limits: RangeLimits,
    ranges: Seq<PlannedRange>,
    i: int,
    j: int,
)
    requires
        partition::ascending(items),
        planner::are_those_of(ranges, planner::plan_of(items, limits).ranges),
        0 <= i < items.len(),
        0 <= j < ranges.len(),
    ensures
        verify::ordered(ranges),
        verify::located(ranges, items[i].0) == Some(j) <==> partition::offset(
            planner::plan_of(items, limits).ranges,
            j,
        ) <= i < partition::offset(planner::plan_of(items, limits).ranges, j + 1),
{
    let plan = planner::plan_of(items, limits).ranges;
    let key = items[i].0;
    partition::plan_is_contiguous(items, limits);
    lemma_ordered(ranges, plan);
    partition::ranges_split_the_listing(items, limits, i, j);
    partition::every_key_has_one_range(items, limits, i);
    assert(planner::is_that(ranges[j], plan[j]));
    let k = choose|k: int| 0 <= k < plan.len() && #[trigger] partition::in_range(plan[k], key);
    lemma_locates(ranges, plan, key, k);
    if partition::in_range(plan[j], key) {
        assert(j == k);
    }
}

/// The range that a key lies in is the one located.
proof fn lemma_locates(
    ranges: Seq<PlannedRange>,
    plan: Seq<RangeView>,
    key: Seq<char>,
    k: int,
)
    requires
        planner::are_those_of(ranges, plan),
        partition::contiguous(plan),
        0 <= k < plan.len(),
        partition::in_range(plan[k], key),
    ensures
        verify::located(ranges, key) == Some(k),
{
    assert(planner::is_that(ranges[k], plan[k]));
    assert forall|i: int| 0 <= i < k implies verify::before(#[trigger] ranges[i], key) by {
        assert(planner::is_that(ranges[i], plan[i]));
        assert(partition::starts_after_previous(plan, k));
        let bound = plan[k - 1].stop_at;
        if i < k - 1 {
            assert(text::key_lt(plan[i].stop_at, plan[k - 1].stop_at));
            text::key_lt_transitive(plan[i].stop_at, bound, key);
        }
    }
    text::key_not_lt(plan[k].stop_at, key);
    verify::first_not_before(ranges, key, k);
    lemma_ordered(ranges, plan);
    verify::halving_finds_the_first(ranges, key);
}

/// `n`, held between the bounds.
pub open spec fn within(n: int, low: int, high: int) -> int {
    if n < low {
        low
    } else if n > high {
        high
    } else {
        n
    }
}

/// Of the first `n` planned objects, those in a range are the part of its run
/// among them.
proof fn lemma_in_run(
    items: Seq<(Seq<char>, u64)>,
    limits: RangeLimits,
    ranges: Seq<PlannedRange>,
    j: int,
    n: int,
)
    requires
        partition::ascending(items),
        planner::are_those_of(ranges, planner::plan_of(items, limits).ranges),
        0 <= j < ranges.len(),
        0 <= n <= items.len(),
    ensures
        ({
            let plan = planner::plan_of(items, limits).ranges;
            let from = partition::offset(plan, j) as int;
            let to = partition::offset(plan, j + 1) as int;
            let upto = within(n, from, to);
            &&& files_in(ranges, items.take(n), j) == upto - from
            &&& bytes_in(ranges, items.take(n), j) == partition::size_sum(items, from, upto)
        }),
    decreases n,
{
    if n > 0 {
        lemma_in_run(items, limits, ranges, j, n - 1);
        planned_keys_are_located(items, limits, ranges, n - 1, j);
        assert(items.take(n).drop_last() =~= items.take(n - 1));
        assert(items.take(n).last() == items[n - 1]);
    }
}

/// A faithful copy raises no suspicion: where the destination holds exactly
/// the planned objects, with their sizes, no range's count or bytes differ
/// from the plan. (Where a range holds more bytes than can be counted, its
/// plan is held at the largest count.)
pub proof fn faithful_copies_raise_no_suspicion(
    items: Seq<(Seq<char>, u64)>,
    limits: RangeLimits,
    ranges: Seq<PlannedRange>,
    t: Tally,
    j: int,
)
    requires
        partition::ascending(items),
        planner::are_those_of(ranges, planner::plan_of(items, limits).ranges),
        tallies(t, ranges, items),
        0 <= j < ranges.len(),
    ensures
        !t.differs(ranges, j),
{
    let plan = planner::plan_of(items, limits).ranges;
    lemma_in_run(items, limits, ranges, j, items.len() as int);
    assert(items.take(items.len() as int) =~= items);
    partition::plan_accounts_for_everything(items, limits);
    assert(partition::holds_run(plan, items, j));
    assert(planner::is_that(ranges[j], plan[j]));
    partition::offsets_ascend(plan, j + 1, plan.len() as int);
    assert(t.files@[j] == files_in(ranges, items, j));
    assert(t.bytes@[j] == bytes_in(ranges, items, j));
}

/// The objects that are not marked as lost, in order.
pub open spec fn kept(items: Seq<(Seq<char>, u64)>, lost: Seq<bool>) -> Seq<(Seq<char>, u64)>
    decreases items.len(),
{
    if items.len() == 0 || lost.len() == 0 {
        Seq::empty()
    } else {
        let before = kept(items.drop_last(), lost.drop_last());
        if lost.last() {
            before
        } else {
            before.push(items.last())
        }
    }
}

/// What is kept has no more files in a range than all had, and fewer where one
/// of the range's is lost.
proof fn lemma_kept_fewer(
    ranges: Seq<PlannedRange>,
    items: Seq<(Seq<char>, u64)>,
    lost: Seq<bool>,
    j: int,
)
    requires
        items.len() == lost.len(),
    ensures
        files_in(ranges, kept(items, lost), j) <= files_in(ranges, items, j),
        forall|i: int|
            0 <= i < items.len() && #[trigger] lost[i] && verify::located(ranges, items[i].0)
                == Some(j) ==> files_in(ranges, kept(items, lost), j) < files_in(ranges, items, j),
    decreases items.len(),
{
    if items.len() > 0 {
        let front = items.drop_last();
        let marks = lost.drop_last();
        lemma_kept_fewer(ranges, front, marks, j);
        if !lost.last() {
            assert(kept(items, lost).drop_last() =~= kept(front, marks));
        }
        assert forall|i: int|
            0 <= i < items.len() && #[trigger] lost[i] && verify::located(ranges, items[i].0)
                == Some(j) implies files_in(ranges, kept(items, lost), j) < files_in(
            ranges,
            items,
            j,
        ) by {
            if i < front.len() {
                assert(marks[i] && front[i] == items[i]);
            }
        }
    }
}

/// A lost file does not go unnoticed: where the destination holds planned
/// objects only and lacks some, every range that lacks one differs from the
/// plan.
pub proof fn lost_files_raise_suspicion(
    items: Seq<(Seq<char>, u64)>,
    limits: RangeLimits,
    ranges: Seq<PlannedRange>,
    lost: Seq<bool>,
    t: Tally,
    i: int,
    j: int,
)
    requires
        partition::ascending(items),
        planner::are_those_of(ranges, planner::plan_of(items, limits).ranges),
        items.len() == lost.len(),
        tallies(t, ranges, kept(items, lost)),
        0 <= i < items.len(),
        lost[i],
        0 <= j < ranges.len(),
        verify::located(ranges, items[i].0) == Some(j),
    ensures
        t.differs(ranges, j),
{
    let plan = planner::plan_of(items, limits).ranges;
    lemma_in_run(items, limits, ranges, j, items.len() as int);
    assert(items.take(items.len() as int) =~= items);
    lemma_kept_fewer(ranges, items, lost, j);
    partition::plan_accounts_for_everything(items, limits);
    assert(partition::holds_run(plan, items, j));
    assert(planner::is_that(ranges[j], plan[j]));
    partition::offsets_ascend(plan, j + 1, plan.len() as int);
    assert(t.files@[j] == files_in(ranges, kept(items, lost), j));
}

/// The key is one that a copier copies. (Under a prefix without a trailing
/// slash, the key that is the prefix, a slash and the prefix again is set
/// aside: it lands where the prefix itself would.)
pub open spec fn is_copied(key: Seq<char>, src_prefix: Seq<char>) -> bool {
    &&& keys::belongs(key, src_prefix)
    &&& !keys::has_empty_segment(key)
    &&& key != src_prefix + seq!['/'] + src_prefix
}

/// Every object is one that a copier copies.
pub open spec fn all_copied(items: Seq<(Seq<char>, u64)>, src_prefix: Seq<char>) -> bool {
    forall|i: int| 0 <= i < items.len() ==> is_copied((#[trigger] items[i]).0, src_prefix)
}

/// The objects as the destination holds them: at the paths they landed on.
pub open spec fn all_landed(
    items: Seq<(Seq<char>, u64)>,
    dest_prefix: Seq<char>,
    src_prefix: Seq<char>,
) -> Seq<(Seq<char>, u64)> {
    items.map_values(
        |e: (Seq<char>, u64)| (keys::landed(e.0, dest_prefix, src_prefix), e.1),
    )
}

/// Landed objects are counted in the ranges that their keys fall in.
proof fn lemma_landed(frame: Frame, items: Seq<(Seq<char>, u64)>, j: int)
    requires
        all_copied(items, frame.src_prefix),
    ensures
        ({
            let landed = all_landed(items, frame.dest_prefix, frame.src_prefix);
            &&& census::files_in(frame, Slot::Range(j), landed) == files_in(frame.ranges, items, j)
            &&& census::bytes_in(frame, Slot::Range(j), landed) == bytes_in(frame.ranges, items, j)
        }),
    decreases items.len(),
{
    if items.len() > 0 {
        let front = items.drop_last();
        let key = items.last().0;
        assert(all_copied(front, frame.src_prefix)) by {
            assert forall|i: int| 0 <= i < front.len() implies is_copied(
                (#[trigger] front[i]).0,
                frame.src_prefix,
            ) by {
                assert(front[i] == items[i]);
            }
        }
        lemma_landed(frame, front, j);
        assert(all_landed(items, frame.dest_prefix, frame.src_prefix).drop_last() =~= all_landed(
            front,
            frame.dest_prefix,
            frame.src_prefix,
        ));
        assert(items[items.len() - 1] == items.last());
        assert(is_copied(key, frame.src_prefix));
        keys::source_key_inverts_the_mapping(key, frame.dest_prefix, frame.src_prefix);
    }
}

/// A run over the landed objects, in whatever order, tallies the objects.
proof fn lemma_run_tallies(
    frame: Frame,
    items: Seq<(Seq<char>, u64)>,
    listing: Seq<(Seq<char>, u64)>,
    tallies_of: Seq<Tally>,
)
    requires
        all_copied(items, frame.src_prefix),
        listing.to_multiset() == all_landed(
            items,
            frame.dest_prefix,
            frame.src_prefix,
        ).to_multiset(),
        census::is_run(tallies_of, frame, listing),
    ensures
        tallies(tallies_of.last(), frame.ranges, items),
{
    let t = tallies_of.last();
    let landed = all_landed(items, frame.dest_prefix, frame.src_prefix);
    census::a_run_counts_the_listing(tallies_of, frame, listing);
    assert forall|j: int| 0 <= j < frame.ranges.len() implies #[trigger] t.files@[j] == files_in(
        frame.ranges,
        items,
        j,
    ) by {
        census::same_files_same_counts(frame, Slot::Range(j), listing, landed);
        lemma_landed(frame, items, j);
    }
    assert forall|j: int| 0 <= j < frame.ranges.len() implies #[trigger] t.bytes@[j] == bytes_in(
        frame.ranges,
        items,
        j,
    ) by {
        census::same_files_same_counts(frame, Slot::Range(j), listing, landed);
        lemma_landed(frame, items, j);
    }
}

/// What is kept of copied objects is copied.
proof fn lemma_kept_copied(
    items: Seq<(Seq<char>, u64)>,
    lost: Seq<bool>,
    src_prefix: Seq<char>,
)
    requires
        all_copied(items, src_prefix),
    ensures
        all_copied(kept(items, lost), src_prefix),
    decreases items.len(),
{
    if items.len() > 0 && lost.len() > 0 {
        let front = items.drop_last();
        assert(all_copied(front, src_prefix)) by {
            assert forall|i: int| 0 <= i < front.len() implies is_copied(
                (#[trigger] front[i]).0,
                src_prefix,
            ) by {
                assert(front[i] == items[i]);
            }
        }
        lemma_kept_copied(front, lost.drop_last(), src_prefix);
        assert(items[items.len() - 1] == items.last());
        assert(is_copied(items.last().0, src_prefix));
    }
}

/// From the plan to the check: where the destination lists exactly the planned
/// objects, at the paths they landed on and in whatever order, the first pass
/// of the check suspects no range.
pub proof fn a_faithful_copy_passes(
    items: Seq<(Seq<char>, u64)>,
    limits: RangeLimits,
    frame: Frame,
    listing: Seq<(Seq<char>, u64)>,
    tallies_of: Seq<Tally>,
    j: int,
)
    requires
        partition::ascending(items),
        all_copied(items, frame.src_prefix),
        planner::are_those_of(frame.ranges, planner::plan_of(items, limits).ranges),
        listing.to_multiset() == all_landed(
            items,
            frame.dest_prefix,
            frame.src_prefix,
        ).to_multiset(),
        census::is_run(tallies_of, frame, listing),
        0 <= j < frame.ranges.len(),
    ensures
        !tallies_of.last().differs(frame.ranges, j),
{
    lemma_run_tallies(frame, items, listing, tallies_of);
    faithful_copies_raise_no_suspicion(items, limits, frame.ranges, tallies_of.last(), j);
}

/// From the plan to the check: where the destination lists planned objects
/// only, at the paths they landed on and in whatever order, and lacks some,
/// the first pass suspects every range that lacks one.
pub proof fn a_lossy_copy_is_noticed(
    items: Seq<(Seq<char>, u64)>,
    limits: RangeLimits,
    frame: Frame,
    lost: Seq<bool>,
    listing: Seq<(Seq<char>, u64)>,
    tallies_of: Seq<Tally>,
    i: int,
    j: int,
)
    requires
        partition::ascending(items),
        all_copied(items, frame.src_prefix),
        planner::are_those_of(frame.ranges, planner::plan_of(items, limits).ranges),
        items.len() == lost.len(),
        listing.to_multiset() == all_landed(
            kept(items, lost),
            frame.dest_prefix,
            frame.src_prefix,
        ).to_multiset(),
        census::is_run(tallies_of, frame, listing),
        0 <= i < items.len(),
        lost[i],
        0 <= j < frame.ranges.len(),
        verify::located(frame.ranges, items[i].0) == Some(j),
    ensures
        tallies_of.last().differs(frame.ranges, j),
{
    lemma_kept_copied(items, lost, frame.src_prefix);
    lemma_run_tallies(frame, kept(items, lost), listing, tallies_of);
    lost_files_raise_suspicion(items, limits, frame.ranges, lost, tallies_of.last(), i, j);
}

} // verus!
