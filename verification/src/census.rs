//! What the first pass of the destination check counts.
use vstd::prelude::*;
use crate::keys;
use crate::verify;
use crate::verify::{PlannedRange, Tally};

verus! {

/// What a listing is counted against.
pub struct Frame {
    pub dest_prefix: Seq<char>,
    pub src_prefix: Seq<char>,
    pub ranges: Seq<PlannedRange>,
}

/// Where a listed file is counted.
pub enum Slot {
    /// At the destination.
    Any,
    /// At the destination, outside every range.
    Outside,
    /// In that range.
    Range(int),
}

/// A file of that path is counted there.
pub open spec fn counted_in(frame: Frame, slot: Slot, path: Seq<char>) -> bool {
    match keys::origin(path, frame.dest_prefix, frame.src_prefix) {
        None => false,
        Some(key) => match slot {
            Slot::Any => true,
            Slot::Outside => verify::located(frame.ranges, key) is None,
            Slot::Range(i) => verify::located(frame.ranges, key) == Some(i),
        },
    }
}

/// How many of the listed files are counted there.
pub open spec fn files_in(frame: Frame, slot: Slot, listing: Seq<(Seq<char>, u64)>) -> nat
    decreases listing.len(),
{
    if listing.len() == 0 {
        0
    } else {
        files_in(frame, slot, listing.drop_last()) + if counted_in(
            frame,
            slot,
            listing.last().0,
        ) {
            1nat
        } else {
            0nat
        }
    }
}

/// The bytes of the listed files that are counted there.
pub open spec fn bytes_in(frame: Frame, slot: Slot, listing: Seq<(Seq<char>, u64)>) -> nat
    decreases listing.len(),
{
    if listing.len() == 0 {
        0
    } else {
        bytes_in(frame, slot, listing.drop_last()) + if counted_in(
            frame,
            slot,
            listing.last().0,
        ) {
            listing.last().1 as nat
        } else {
            0nat
        }
    }
}

/// The tally is that of the listing: all its files at the destination, those
/// in each range, and those outside of all.
pub open spec fn describes(t: Tally, frame: Frame, listing: Seq<(Seq<char>, u64)>) -> bool {
    &&& t.wf(frame.ranges.len())
    &&& t.dest_files == files_in(frame, Slot::Any, listing)
    &&& t.dest_bytes == bytes_in(frame, Slot::Any, listing)
    &&& t.outside == files_in(frame, Slot::Outside, listing)
    &&& forall|i: int|
        0 <= i < frame.ranges.len() ==> #[trigger] t.files@[i] == files_in(
            frame,
            Slot::Range(i),
            listing,
        )
    &&& forall|i: int|
        0 <= i < frame.ranges.len() ==> #[trigger] t.bytes@[i] == bytes_in(
            frame,
            Slot::Range(i),
            listing,
        )
}

/// A tally that describes a listing and observes one more file describes the
/// listing with that file.
pub proof fn observing_extends_the_listing(
    t: Tally,
    frame: Frame,
    listing: Seq<(Seq<char>, u64)>,
    path: Seq<char>,
    size: u64,
    next: Tally,
)
    requires
        describes(t, frame, listing),
        t.observes(path, size, frame.dest_prefix, frame.src_prefix, frame.ranges, next),
    ensures
        describes(next, frame, listing.push((path, size))),
{
    let all = listing.push((path, size));
    assert(all.drop_last() =~= listing);
    assert(all.last() == (path, size));
    if let Some(key) = keys::origin(path, frame.dest_prefix, frame.src_prefix) {
        let at = verify::located(frame.ranges, key);
        if at is Some {
            verify::located_range_covers(frame.ranges, key);
        }
        verify::counting_keeps_the_sums(t, frame.ranges.len(), at, size, next);
    }
    assert forall|i: int| 0 <= i < frame.ranges.len() implies #[trigger] next.files@[i] == files_in(
        frame,
        Slot::Range(i),
        all,
    ) by {
        assert(t.files@[i] == files_in(frame, Slot::Range(i), listing));
    }
    assert forall|i: int| 0 <= i < frame.ranges.len() implies #[trigger] next.bytes@[i] == bytes_in(
        frame,
        Slot::Range(i),
        all,
    ) by {
        assert(t.bytes@[i] == bytes_in(frame, Slot::Range(i), listing));
    }
}

/// `tallies` are the tallies of one run: a new one, then one after each listed
/// file.
pub open spec fn is_run(
    tallies: Seq<Tally>,
    frame: Frame,
    listing: Seq<(Seq<char>, u64)>,
) -> bool {
    &&& tallies.len() == listing.len() + 1
    &&& tallies[0].is_empty(frame.ranges.len())
    &&& forall|k: int| 0 <= k < listing.len() ==> #[trigger] is_step(tallies, frame, listing, k)
}

/// The tally after `k` files observes the next.
pub open spec fn is_step(
    tallies: Seq<Tally>,
    frame: Frame,
    listing: Seq<(Seq<char>, u64)>,
    k: int,
) -> bool {
    tallies[k].observes(
        listing[k].0,
        listing[k].1,
        frame.dest_prefix,
        frame.src_prefix,
        frame.ranges,
        tallies[k + 1],
    )
}

/// After any run, the tally is that of the files listed: those at the
/// destination, and no others, each in the range it is located in or outside
/// of all, so that the counts of the ranges and of what is outside add up to
/// the files at the destination.
pub proof fn a_run_counts_the_listing(
    tallies: Seq<Tally>,
    frame: Frame,
    listing: Seq<(Seq<char>, u64)>,
)
    requires
        is_run(tallies, frame, listing),
    ensures
        describes(tallies.last(), frame, listing),
        verify::total(tallies.last().files@) + tallies.last().outside
            == tallies.last().dest_files,
{
    lemma_run(tallies, frame, listing, listing.len() as int);
    assert(listing.take(listing.len() as int) =~= listing);
}

/// The tally after `k` files describes those.
proof fn lemma_run(
    tallies: Seq<Tally>,
    frame: Frame,
    listing: Seq<(Seq<char>, u64)>,
    k: int,
)
    requires
        is_run(tallies, frame, listing),
        0 <= k <= listing.len(),
    ensures
        describes(tallies[k], frame, listing.take(k)),
    decreases k,
{
    if k > 0 {
        lemma_run(tallies, frame, listing, k - 1);
        assert(is_step(tallies, frame, listing, k - 1));
        observing_extends_the_listing(
            tallies[k - 1],
            frame,
            listing.take(k - 1),
            listing[k - 1].0,
            listing[k - 1].1,
            tallies[k],
        );
        assert(listing.take(k) =~= listing.take(k - 1).push(listing[k - 1]));
    }
}

/// Taking one file out of a listing takes its part off the counts.
proof fn lemma_remove(frame: Frame, slot: Slot, listing: Seq<(Seq<char>, u64)>, at: int)
    requires
        0 <= at < listing.len(),
    ensures
        files_in(frame, slot, listing) == files_in(frame, slot, listing.remove(at)) + (
        if counted_in(frame, slot, listing[at].0) {
            1nat
        } else {
            0nat
        }),
        bytes_in(frame, slot, listing) == bytes_in(frame, slot, listing.remove(at)) + (
        if counted_in(frame, slot, listing[at].0) {
            listing[at].1 as nat
        } else {
            0nat
        }),
    decreases listing.len(),
{
    let rest = listing.remove(at);
    if at == listing.len() - 1 {
        assert(rest =~= listing.drop_last());
    } else {
        lemma_remove(frame, slot, listing.drop_last(), at);
        assert(rest.drop_last() =~= listing.drop_last().remove(at));
        assert(rest.last() == listing.last());
    }
}

/// Listings of the same files have the same counts, whatever their order.
pub proof fn same_files_same_counts(
    frame: Frame,
    slot: Slot,
    a: Seq<(Seq<char>, u64)>,
    b: Seq<(Seq<char>, u64)>,
)
    requires
        a.to_multiset() == b.to_multiset(),
    ensures
        files_in(frame, slot, a) == files_in(frame, slot, b),
        bytes_in(frame, slot, a) == bytes_in(frame, slot, b),
    decreases a.len(),
{
    broadcast use vstd::seq_lib::group_to_multiset_ensures;

    assert(a.to_multiset().len() == a.len() && b.to_multiset().len() == b.len());
    if a.len() > 0 {
        let last = a.last();
        assert(a[a.len() - 1] == last);
        assert(a.contains(last));
        assert(b.to_multiset().count(last) > 0);
        assert(b.contains(last));
        let at = choose|i: int| 0 <= i < b.len() && b[i] == last;
        let front = a.drop_last();
        let rest = b.remove(at);
        assert(a.remove(a.len() - 1) =~= front);
        assert(front.to_multiset() =~= a.to_multiset().remove(last));
        assert(rest.to_multiset() =~= b.to_multiset().remove(last));
        same_files_same_counts(frame, slot, front, rest);
        lemma_remove(frame, slot, b, at);
    } else {
        assert(a =~= b);
    }
}

/// The order of the destination's listing does not matter: runs over the same
/// files, in whatever order, end in the same tally.
pub proof fn listing_order_does_not_matter(
    frame: Frame,
    a: Seq<(Seq<char>, u64)>,
    b: Seq<(Seq<char>, u64)>,
    after_a: Seq<Tally>,
    after_b: Seq<Tally>,
)
    requires
        a.to_multiset() == b.to_multiset(),
        is_run(after_a, frame, a),
        is_run(after_b, frame, b),
    ensures
        after_a.last().files@ == after_b.last().files@,
        after_a.last().bytes@ == after_b.last().bytes@,
        after_a.last().outside == after_b.last().outside,
        after_a.last().dest_files == after_b.last().dest_files,
        after_a.last().dest_bytes == after_b.last().dest_bytes,
{
    a_run_counts_the_listing(after_a, frame, a);
    a_run_counts_the_listing(after_b, frame, b);
    let t = after_a.last();
    let u = after_b.last();
    same_files_same_counts(frame, Slot::Any, a, b);
    same_files_same_counts(frame, Slot::Outside, a, b);
    assert forall|i: int| 0 <= i < frame.ranges.len() implies #[trigger] t.files@[i]
        == u.files@[i] by {
        same_files_same_counts(frame, Slot::Range(i), a, b);
        assert(u.files@[i] == files_in(frame, Slot::Range(i), b));
    }
    assert forall|i: int| 0 <= i < frame.ranges.len() implies #[trigger] t.bytes@[i]
        == u.bytes@[i] by {
        same_files_same_counts(frame, Slot::Range(i), a, b);
        assert(u.bytes@[i] == bytes_in(frame, Slot::Range(i), b));
    }
    assert(t.files@ =~= u.files@);
    assert(t.bytes@ =~= u.bytes@);
}

} // verus!
