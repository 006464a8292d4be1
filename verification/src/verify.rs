//! The destination check after a copy: what landed, against what was planned.
//!
//! The first pass compares counts and bytes per range, not names: a missing
//! file and an unplanned file of the same size in the same range cancel out.
//! The second pass looks at the ranges that differ, key by key.
use vstd::prelude::*;
use crate::keymap::KeyMap;
use crate::keys;
use crate::listing::Listing;
use crate::text;

verus! {

/// One planned range: its window of keys and what the listing kept in it.
#[derive(Debug, Clone, PartialEq, Eq)]
pub struct PlannedRange {
    /// The bound before the range; `None` for no lower bound.
    pub start_after: Option<String>,
    /// The last key of the range; `None` for no upper bound.
    pub stop_at: Option<String>,
    pub files: u64,
    pub bytes: u64,
}

/// The source: where a range is listed again.
#[derive(Debug, Clone, PartialEq, Eq)]
pub struct Source {
    pub url: String,
    pub bucket: String,
    pub prefix: String,
    pub exclude_globs: Vec<String>,
}

/// The range `r` is the one that a run is checked as.
pub open spec fn is_checked(
    r: Option<PlannedRange>,
    bounded: bool,
    listing: Listing,
    last_key: Option<String>,
) -> bool {
    &&& r is None <==> bounded
    &&& r is Some ==> r->0 == (PlannedRange {
        start_after: None,
        stop_at: if listing.limit_hit {
            last_key
        } else {
            None
        },
        files: listing.kept,
        bytes: listing.bytes,
    })
}

/// A run without bounds is checked for all that it kept: its range covers every
/// key, or, where a byte limit ended it, every key up to the last one kept. A
/// run with bounds is not checked.
pub proof fn unbounded_runs_are_checked_whole(
    r: Option<PlannedRange>,
    bounded: bool,
    listing: Listing,
    last_key: Option<String>,
    key: Seq<char>,
)
    requires
        is_checked(r, bounded, listing, last_key),
    ensures
        bounded <==> r is None,
        !bounded ==> r->0.files == listing.kept && r->0.bytes == listing.bytes,
        !bounded && (!listing.limit_hit || last_key is None) ==> covers(r->0, key),
        !bounded && listing.limit_hit && last_key is Some ==> (covers(r->0, key) <==> text::key_le(
            key,
            last_key->0@,
        )),
{
}

/// The range that a run in one process is checked as, with `last_key` the last
/// key it kept: all it kept, up to that key where a byte limit ended it. A run
/// with bounds is one of many on the same destination and is not checked by
/// itself: whoever cut the ranges checks them all.
pub fn checked_range(bounded: bool, listing: &Listing, last_key: Option<String>) -> (r: Option<
    PlannedRange,
>)
    ensures
        is_checked(r, bounded, *listing, last_key),
{
    if bounded {
        return None;
    }
    let stop_at = if listing.limit_hit {
        last_key
    } else {
        None
    };
    Some(PlannedRange { start_after: None, stop_at, files: listing.kept, bytes: listing.bytes })
}

// ---------------------------------------------------------------------------
// Which range a key falls in
// ---------------------------------------------------------------------------
/// The whole range sorts before `key`.
pub open spec fn before(r: PlannedRange, key: Seq<char>) -> bool {
    r.stop_at is Some && text::key_lt(r.stop_at->0@, key)
}

/// `key` lies in the range: after its lower bound, at or before its upper.
pub open spec fn covers(r: PlannedRange, key: Seq<char>) -> bool {
    &&& r.start_after is Some ==> text::key_lt(r.start_after->0@, key)
    &&& r.stop_at is Some ==> text::key_le(key, r.stop_at->0@)
}

/// The ranges are in key order: only the last may lack an upper bound.
pub open spec fn ordered(ranges: Seq<PlannedRange>) -> bool {
    forall|i: int, j: int|
        #![trigger ranges[i], ranges[j]]
        0 <= i < j < ranges.len() ==> ranges[i].stop_at is Some && (ranges[j].stop_at is Some
            ==> text::key_le(ranges[i].stop_at->0@, ranges[j].stop_at->0@))
}

/// The number of ranges at the front that sort before `key`.
pub open spec fn passed(ranges: Seq<PlannedRange>, key: Seq<char>) -> int
    decreases ranges.len(),
{
    if ranges.len() == 0 || !before(ranges[0], key) {
        0
    } else {
        1 + passed(ranges.drop_first(), key)
    }
}

/// Where halving the ranges from `lo` to `hi` ends: past a middle one that
/// sorts before `key`, else at or before it.
pub open spec fn halved(ranges: Seq<PlannedRange>, key: Seq<char>, lo: int, hi: int) -> int
    decreases hi - lo,
{
    if lo >= hi {
        lo
    } else {
        let mid = lo + (hi - lo) / 2;
        if before(ranges[mid], key) {
            halved(ranges, key, mid + 1, hi)
        } else {
            halved(ranges, key, lo, mid)
        }
    }
}

/// The range that `key` falls in: the one that halving finds (in ordered
/// ranges the first that does not sort before it), unless the key is not past
/// that one's lower bound.
pub open spec fn located(ranges: Seq<PlannedRange>, key: Seq<char>) -> Option<int> {
    let i = halved(ranges, key, 0, ranges.len() as int);
    if i < ranges.len() && (ranges[i].start_after is Some ==> text::key_lt(
        ranges[i].start_after->0@,
        key,
    )) {
        Some(i)
    } else {
        None
    }
}

/// The ranges passed are those before the first that does not sort before
/// `key`.
pub proof fn first_not_before(ranges: Seq<PlannedRange>, key: Seq<char>, at: int)
    requires
        0 <= at <= ranges.len(),
        forall|i: int| 0 <= i < at ==> before(#[trigger] ranges[i], key),
        at < ranges.len() ==> !before(ranges[at], key),
    ensures
        passed(ranges, key) == at,
    decreases ranges.len(),
{
    if at > 0 {
        let rest = ranges.drop_first();
        assert(before(ranges[0], key));
        assert forall|i: int| 0 <= i < at - 1 implies before(#[trigger] rest[i], key) by {
            assert(rest[i] == ranges[i + 1]);
        }
        first_not_before(rest, key, at - 1);
    }
}

/// In ordered ranges, what comes before one that sorts before a key does so
/// too.
proof fn lemma_before_down(ranges: Seq<PlannedRange>, key: Seq<char>, i: int, j: int)
    requires
        ordered(ranges),
        0 <= i <= j < ranges.len(),
        before(ranges[j], key),
    ensures
        before(ranges[i], key),
{
    if i < j {
        assert(ranges[i].stop_at is Some);
        let a = ranges[i].stop_at->0@;
        let b = ranges[j].stop_at->0@;
        if text::key_lt(a, b) {
            text::key_lt_transitive(a, b, key);
        }
    }
}

/// Halving stays within its bounds, and ends at a range that does not sort
/// before the key, or at the upper bound.
proof fn lemma_halved(ranges: Seq<PlannedRange>, key: Seq<char>, lo: int, hi: int)
    requires
        0 <= lo <= hi <= ranges.len(),
    ensures
        lo <= halved(ranges, key, lo, hi) <= hi,
        halved(ranges, key, lo, hi) < hi ==> !before(ranges[halved(ranges, key, lo, hi)], key),
        halved(ranges, key, lo, hi) > lo ==> before(ranges[halved(ranges, key, lo, hi) - 1], key),
    decreases hi - lo,
{
    if lo < hi {
        let mid = lo + (hi - lo) / 2;
        if before(ranges[mid], key) {
            lemma_halved(ranges, key, mid + 1, hi);
        } else {
            lemma_halved(ranges, key, lo, mid);
        }
    }
}

/// In ordered ranges, halving finds the first that does not sort before the
/// key.
pub proof fn halving_finds_the_first(ranges: Seq<PlannedRange>, key: Seq<char>)
    requires
        ordered(ranges),
    ensures
        halved(ranges, key, 0, ranges.len() as int) == passed(ranges, key),
{
    let at = halved(ranges, key, 0, ranges.len() as int);
    lemma_halved(ranges, key, 0, ranges.len() as int);
    assert forall|i: int| 0 <= i < at implies before(#[trigger] ranges[i], key) by {
        lemma_before_down(ranges, key, i, at - 1);
    }
    first_not_before(ranges, key, at);
}

/// The range that a source key falls in. The ranges are in key order; keys
/// compare as S3 sorts them, so that the order of the destination's listing
/// does not matter.
pub fn locate(ranges: &[PlannedRange], key: &str) -> (r: Option<usize>)
    ensures
        r is Some <==> located(ranges@, key@) is Some,
        r is Some ==> r->0 < ranges@.len() && r->0 == located(ranges@, key@)->0,
{
    let mut lo: usize = 0;
    let mut hi: usize = ranges.len();
    while lo < hi
        invariant
            lo <= hi <= ranges@.len(),
            halved(ranges@, key@, 0, ranges@.len() as int) == halved(
                ranges@,
                key@,
                lo as int,
                hi as int,
            ),
        decreases hi - lo,
    {
        let mid: usize = lo + (hi - lo) / 2;
        let is_before = match &ranges[mid].stop_at {
            Some(stop) => text::sorts_before(stop.as_str(), key),
            None => false,
        };
        if is_before {
            lo = mid + 1;
        } else {
            hi = mid;
        }
    }
    if lo >= ranges.len() {
        return None;
    }
    if let Some(start) = &ranges[lo].start_after {
        if !text::sorts_before(start.as_str(), key) {
            return None;
        }
    }
    Some(lo)
}

/// The range that a key is located in covers it.
pub proof fn located_range_covers(ranges: Seq<PlannedRange>, key: Seq<char>)
    requires
        located(ranges, key) is Some,
    ensures
        0 <= located(ranges, key)->0 < ranges.len(),
        covers(ranges[located(ranges, key)->0], key),
{
    lemma_halved(ranges, key, 0, ranges.len() as int);
    let i = halved(ranges, key, 0, ranges.len() as int);
    if ranges[i].stop_at is Some {
        text::key_not_lt(ranges[i].stop_at->0@, key);
    }
}

// ---------------------------------------------------------------------------
// First pass
// ---------------------------------------------------------------------------
/// The sum of the counts.
pub open spec fn total(counts: Seq<u64>) -> nat
    decreases counts.len(),
{
    if counts.len() == 0 {
        0
    } else {
        total(counts.drop_last()) + counts.last() as nat
    }
}

/// Raising one count raises the sum by as much.
proof fn lemma_total_update(counts: Seq<u64>, at: int, v: u64)
    requires
        0 <= at < counts.len(),
    ensures
        total(counts.update(at, v)) == total(counts) + v - counts[at],
        counts[at] <= total(counts),
    decreases counts.len(),
{
    let after = counts.update(at, v);
    if at == counts.len() - 1 {
        assert(after.drop_last() =~= counts.drop_last());
    } else {
        lemma_total_update(counts.drop_last(), at, v);
        assert(after.drop_last() =~= counts.drop_last().update(at, v));
    }
}

/// Zeros sum to nothing.
proof fn lemma_total_zero(counts: Seq<u64>)
    requires
        forall|i: int| 0 <= i < counts.len() ==> counts[i] == 0,
    ensures
        total(counts) == 0,
    decreases counts.len(),
{
    if counts.len() > 0 {
        lemma_total_zero(counts.drop_last());
    }
}

/// `n` zeros.
fn zeros(n: usize) -> (v: Vec<u64>)
    ensures
        v@.len() == n,
        forall|i: int| 0 <= i < n ==> v@[i] == 0,
{
    let mut v: Vec<u64> = Vec::new();
    let mut i: usize = 0;
    while i < n
        invariant
            i <= n,
            v@.len() == i,
            forall|j: int| 0 <= j < i ==> v@[j] == 0,
        decreases n - i,
    {
        v.push(0);
        i = i + 1;
    }
    v
}

/// Files and bytes per range, as the destination lists them.
#[derive(Debug, Clone, PartialEq, Eq)]
pub struct Tally {
    pub files: Vec<u64>,
    pub bytes: Vec<u64>,
    /// Files outside every range.
    pub outside: u64,
    pub dest_files: u64,
    pub dest_bytes: u64,
}

impl Tally {
    /// Every file counted is in one range or outside of all.
    pub open spec fn wf(&self, ranges: nat) -> bool {
        &&& self.files@.len() == ranges
        &&& self.bytes@.len() == ranges
        &&& total(self.files@) + self.outside == self.dest_files
        &&& total(self.bytes@) <= self.dest_bytes
    }

    /// `next` counts one file more: in the range `at`, or outside.
    pub open spec fn counts(&self, at: Option<int>, size: u64, next: Tally) -> bool {
        &&& next.dest_files == self.dest_files + 1
        &&& next.dest_bytes == self.dest_bytes + size
        &&& match at {
            Some(i) => {
                &&& next.files@ == self.files@.update(i, (self.files@[i] + 1) as u64)
                &&& next.bytes@ == self.bytes@.update(i, (self.bytes@[i] + size) as u64)
                &&& next.outside == self.outside
            },
            None => {
                &&& next.files@ == self.files@
                &&& next.bytes@ == self.bytes@
                &&& next.outside == self.outside + 1
            },
        }
    }

    /// `next` counts one listed file more: in the range that the key of its
    /// path is located in, or outside of all. A path outside the destination
    /// changes nothing.
    pub open spec fn observes(
        &self,
        path: Seq<char>,
        size: u64,
        dest_prefix: Seq<char>,
        src_prefix: Seq<char>,
        ranges: Seq<PlannedRange>,
        next: Tally,
    ) -> bool {
        match keys::origin(path, dest_prefix, src_prefix) {
            None => next == *self,
            Some(key) => self.counts(located(ranges, key), size, next),
        }
    }

    /// Nothing is counted.
    pub open spec fn is_empty(&self, ranges: nat) -> bool {
        &&& self.wf(ranges)
        &&& forall|i: int| 0 <= i < ranges ==> #[trigger] self.files@[i] == 0
        &&& forall|i: int| 0 <= i < ranges ==> #[trigger] self.bytes@[i] == 0
        &&& self.outside == 0
        &&& self.dest_files == 0
        &&& self.dest_bytes == 0
    }

    /// Nothing counted yet.
    pub fn new(ranges: usize) -> (t: Self)
        ensures
            t.is_empty(ranges as nat),
    {
        let t = Tally {
            files: zeros(ranges),
            bytes: zeros(ranges),
            outside: 0,
            dest_files: 0,
            dest_bytes: 0,
        };
        proof {
            lemma_total_zero(t.files@);
            lemma_total_zero(t.bytes@);
        }
        t
    }

    /// Whether one more file of that size can be counted.
    pub fn has_room(&self, size: u64) -> (r: bool)
        ensures
            r == (self.dest_files < u64::MAX && self.dest_bytes + size <= u64::MAX),
    {
        self.dest_files < u64::MAX && size <= u64::MAX - self.dest_bytes
    }

    /// Count one listed file into the range its source key falls in. The
    /// listing matches the destination as a string prefix, so that it also
    /// returns files of sibling directories: those are ignored.
    pub fn observe(
        &mut self,
        path: &str,
        size: u64,
        dest_prefix: &str,
        src_prefix: &str,
        ranges: &[PlannedRange],
    )
        requires
            old(self).wf(ranges@.len()),
            old(self).dest_files < u64::MAX,
            old(self).dest_bytes + size <= u64::MAX,
        ensures
            final(self).wf(ranges@.len()),
            old(self).observes(
                path@,
                size,
                dest_prefix@,
                src_prefix@,
                ranges@,
                *final(self),
            ),
    {
        let key: String = match keys::source_key(path, dest_prefix, src_prefix) {
            None => {
                return ;
            },
            Some(key) => key,
        };
        let ghost before = *self;
        self.dest_files = self.dest_files + 1;
        self.dest_bytes = self.dest_bytes + size;
        match locate(ranges, key.as_str()) {
            Some(i) => {
                proof {
                    lemma_total_update(
                        before.files@,
                        i as int,
                        (before.files@[i as int] + 1) as u64,
                    );
                    lemma_total_update(
                        before.bytes@,
                        i as int,
                        (before.bytes@[i as int] + size) as u64,
                    );
                }
                let files: u64 = self.files[i] + 1;
                let bytes: u64 = self.bytes[i] + size;
                self.files[i] = files;
                self.bytes[i] = bytes;
                assert(before.counts(Some(i as int), size, *self));
            },
            None => {
                self.outside = self.outside + 1;
                assert(before.counts(None, size, *self));
            },
        }
    }

    /// The range's count or bytes differ from the plan.
    pub open spec fn differs(&self, ranges: Seq<PlannedRange>, i: int) -> bool {
        self.files@[i] != ranges[i].files || self.bytes@[i] != ranges[i].bytes
    }

    /// The suspects are the ranges that differ from the plan, in order.
    pub open spec fn suspects_are(&self, ranges: Seq<PlannedRange>, r: Seq<usize>) -> bool {
        &&& forall|a: int, b: int| 0 <= a < b < r.len() ==> r[a] < r[b]
        &&& forall|i: usize| #[trigger]
            r.contains(i) <==> i < ranges.len() && self.differs(ranges, i as int)
    }

    /// The ranges whose file count or byte total differs from the plan, in
    /// order.
    pub fn suspects(&self, ranges: &[PlannedRange]) -> (r: Vec<usize>)
        requires
            self.files@.len() == ranges@.len(),
            self.bytes@.len() == ranges@.len(),
        ensures
            self.suspects_are(ranges@, r@),
    {
        let mut r: Vec<usize> = Vec::new();
        let mut i: usize = 0;
        while i < ranges.len()
            invariant
                0 <= i <= ranges@.len(),
                self.files@.len() == ranges@.len(),
                self.bytes@.len() == ranges@.len(),
                forall|a: int, b: int| 0 <= a < b < r@.len() ==> r@[a] < r@[b],
                forall|a: int| 0 <= a < r@.len() ==> #[trigger] r@[a] < i,
                forall|k: usize| #[trigger]
                    r@.contains(k) <==> k < i && self.differs(ranges@, k as int),
            decreases ranges@.len() - i,
        {
            let ghost was = r@;
            if self.files[i] != ranges[i].files || self.bytes[i] != ranges[i].bytes {
                r.push(i);
                assert(r@[was.len() as int] == i);
                assert forall|k: usize| #[trigger] r@.contains(k) <==> k < i + 1 && self.differs(
                    ranges@,
                    k as int,
                ) by {
                    if r@.contains(k) {
                        let a = choose|a: int| 0 <= a < r@.len() && r@[a] == k;
                        if a < was.len() {
                            assert(was[a] == k);
                            assert(was.contains(k));
                        }
                    }
                    if was.contains(k) {
                        let a = choose|a: int| 0 <= a < was.len() && was[a] == k;
                        assert(r@[a] == k);
                    }
                }
            }
            i = i + 1;
        }
        r
    }
}

/// Counting a file keeps the sums: what is counted in the ranges and outside
/// of them stays what is counted at all, and no count runs over.
pub proof fn counting_keeps_the_sums(
    t: Tally,
    ranges: nat,
    at: Option<int>,
    size: u64,
    next: Tally,
)
    requires
        t.wf(ranges),
        at is Some ==> 0 <= at->0 < ranges,
        t.counts(at, size, next),
    ensures
        next.wf(ranges),
        at is Some ==> next.files@[at->0] == t.files@[at->0] + 1,
        at is Some ==> next.bytes@[at->0] == t.bytes@[at->0] + size,
{
    if let Some(i) = at {
        lemma_total_update(t.files@, i, (t.files@[i] + 1) as u64);
        lemma_total_update(t.bytes@, i, (t.bytes@[i] + size) as u64);
    }
}

// ---------------------------------------------------------------------------
// Second pass
// ---------------------------------------------------------------------------
/// An object of the source, and where it should have landed.
#[derive(Debug, Clone, PartialEq, Eq)]
pub struct SourceObject {
    pub key: String,
    pub dest_path: String,
    pub size: u64,
}

/// One range, key by key.
#[derive(Debug, Clone, PartialEq, Eq)]
pub struct RangeDiff {
    /// At the destination with the planned size.
    pub present: u64,
    pub missing: Vec<SourceObject>,
    /// At the destination with another size: that size.
    pub short: Vec<(SourceObject, u64)>,
    /// Deleted from the source during the run.
    pub raced: Vec<SourceObject>,
    /// Listed in the range and not planned.
    pub extra: u64,
}

impl Default for RangeDiff {
    fn default() -> (d: Self)
        ensures
            d.present == 0,
            d.missing@.len() == 0,
            d.short@.len() == 0,
            d.raced@.len() == 0,
            d.extra == 0,
    {
        RangeDiff {
            present: 0,
            missing: Vec::new(),
            short: Vec::new(),
            raced: Vec::new(),
            extra: 0,
        }
    }
}

impl RangeDiff {
    /// A file is missing or short.
    pub open spec fn fails(&self) -> bool {
        self.missing@.len() > 0 || self.short@.len() > 0
    }

    /// `next` has taken in the lookups' answers for the first missing objects.
    pub open spec fn settles(&self, gone: Seq<bool>, next: RangeDiff) -> bool {
        let first = self.missing@.take(gone.len() as int);
        &&& next.missing@ == picked(first, gone, false) + self.missing@.skip(gone.len() as int)
        &&& next.raced@ == self.raced@ + picked(first, gone, true)
        &&& next.present == self.present
        &&& next.short == self.short
        &&& next.extra == self.extra
    }

    /// `next` has one planned object more, by what was found at its path.
    pub open spec fn sorts(
        &self,
        obj: SourceObject,
        found: Map<Seq<char>, u64>,
        next: RangeDiff,
    ) -> bool {
        &&& next.raced == self.raced
        &&& next.extra == self.extra
        &&& if !found.contains_key(obj.dest_path@) {
            &&& next.missing@ == self.missing@.push(obj)
            &&& next.short == self.short
            &&& next.present == self.present
        } else if found[obj.dest_path@] == obj.size {
            &&& next.missing == self.missing
            &&& next.short == self.short
            &&& next.present == self.present + 1
        } else {
            &&& next.missing == self.missing
            &&& next.short@ == self.short@.push((obj, found[obj.dest_path@]))
            &&& next.present == self.present
        }
    }

    /// Sort one planned object by what was found at its path: nothing is
    /// missing, another size is short. What is found are files with a size: a
    /// directory at a planned path is not the planned file.
    pub fn observe(&mut self, obj: SourceObject, found: &KeyMap<u64>)
        requires
            found.wf(),
            old(self).present < u64::MAX,
        ensures
            old(self).sorts(obj, found@, *final(self)),
    {
        match found.get(obj.dest_path.as_str()) {
            None => {
                self.missing.push(obj);
            },
            Some(size) => {
                let size: u64 = *size;
                if size == obj.size {
                    self.present = self.present + 1;
                } else {
                    self.short.push((obj, size));
                }
            },
        }
    }

    /// Whether a file is missing or short.
    pub fn failed(&self) -> (r: bool)
        ensures
            r == self.fails(),
    {
        self.missing.len() > 0 || self.short.len() > 0
    }

    /// What the first pass listed in the range beyond the planned files it
    /// holds. A short file is there: it is not an extra. A listing behind the
    /// lookups leaves none.
    pub fn set_extra(&mut self, listed: u64)
        requires
            old(self).present + old(self).short@.len() <= u64::MAX,
        ensures
            final(self).extra == extra_of(listed, old(self).present, old(self).short@.len()),
            final(self).present == old(self).present,
            final(self).missing == old(self).missing,
            final(self).short == old(self).short,
            final(self).raced == old(self).raced,
    {
        let there: u64 = self.present + self.short.len() as u64;
        self.extra = if listed > there {
            listed - there
        } else {
            0
        };
    }

    /// How many of the missing objects are looked up on the source, with
    /// `heads_left` lookups left.
    pub fn checks(&self, heads_left: usize) -> (n: usize)
        ensures
            n == looked_up(self.missing@.len(), heads_left as nat),
    {
        if self.missing.len() < heads_left {
            self.missing.len()
        } else {
            heads_left
        }
    }

    /// Take the lookups' answers for the first missing objects: one gone from
    /// the source is raced; the others, and those not looked up, stay missing.
    pub fn settle_raced(&mut self, gone: &Vec<bool>)
        requires
            gone@.len() <= old(self).missing@.len(),
        ensures
            old(self).settles(gone@, *final(self)),
    {
        let mut rest: Vec<SourceObject> = Vec::new();
        let mut i: usize = 0;
        let ghost all = self.missing@;
        let ghost raced = self.raced@;
        let n: usize = self.missing.len();
        assert(self.raced@ =~= raced + picked(all.take(0), gone@.take(0), true));
        assert(rest@ =~= picked(all.take(0), gone@.take(0), false));
        while i < n
            invariant
                0 <= i <= n,
                n == all.len(),
                gone@.len() <= all.len(),
                self.missing@ == all,
                self.present == old(self).present,
                self.short == old(self).short,
                self.extra == old(self).extra,
                i <= gone@.len() ==> rest@ == picked(
                    all.take(i as int),
                    gone@.take(i as int),
                    false,
                ),
                i <= gone@.len() ==> self.raced@ == raced + picked(
                    all.take(i as int),
                    gone@.take(i as int),
                    true,
                ),
                i >= gone@.len() ==> rest@ == picked(
                    all.take(gone@.len() as int),
                    gone@,
                    false,
                ) + all.subrange(gone@.len() as int, i as int),
                i >= gone@.len() ==> self.raced@ == raced + picked(
                    all.take(gone@.len() as int),
                    gone@,
                    true,
                ),
            decreases n - i,
        {
            let obj = SourceObject {
                key: self.missing[i].key.clone(),
                dest_path: self.missing[i].dest_path.clone(),
                size: self.missing[i].size,
            };
            assert(obj == all[i as int]);
            proof {
                if i < gone@.len() {
                    assert(all.take(i + 1).drop_last() =~= all.take(i as int));
                    assert(gone@.take(i + 1).drop_last() =~= gone@.take(i as int));
                    assert(all.take(i + 1).last() == all[i as int]);
                    assert(gone@.take(i + 1).last() == gone@[i as int]);
                }
            }
            let ghost rest_before = rest@;
            let ghost raced_before = self.raced@;
            if i < gone.len() && gone[i] {
                self.raced.push(obj);
                assert(self.raced@ =~= raced + picked(
                    all.take(i + 1),
                    gone@.take(i + 1),
                    true,
                ));
            } else {
                rest.push(obj);
            }
            proof {
                if i + 1 == gone@.len() {
                    assert(gone@.take(i + 1) =~= gone@);
                    assert(all.subrange(i + 1, i + 1) =~= Seq::empty());
                    assert(rest@ =~= picked(all.take(i + 1), gone@, false) + all.subrange(
                        i + 1,
                        i + 1,
                    ));
                } else if i >= gone@.len() {
                    assert(all.subrange(gone@.len() as int, i + 1) =~= all.subrange(
                        gone@.len() as int,
                        i as int,
                    ).push(all[i as int]));
                    assert(rest@ =~= picked(all.take(gone@.len() as int), gone@, false)
                        + all.subrange(gone@.len() as int, i + 1));
                }
            }
            i = i + 1;
        }
        assert(all.subrange(gone@.len() as int, n as int) =~= all.skip(gone@.len() as int));
        assert(gone@.len() == 0 ==> gone@.take(0) =~= gone@);
        self.missing = rest;
    }
}

/// Every planned object is sorted once, and none is passed over: it counts as
/// present, missing or short, and the range fails from the first one that is
/// not at its path with its size.
pub proof fn every_object_is_sorted_once(
    before: RangeDiff,
    obj: SourceObject,
    found: Map<Seq<char>, u64>,
    after: RangeDiff,
)
    requires
        before.sorts(obj, found, after),
    ensures
        after.present + after.missing@.len() + after.short@.len() == before.present
            + before.missing@.len() + before.short@.len() + 1,
        after.fails() <==> before.fails() || !(found.contains_key(obj.dest_path@)
            && found[obj.dest_path@] == obj.size),
{
}

/// What is listed in a range beyond the planned files that it holds.
pub open spec fn extra_of(listed: u64, present: u64, short: nat) -> int {
    if listed > present + short {
        listed - present - short
    } else {
        0
    }
}

/// How many of the missing objects are looked up.
pub open spec fn looked_up(missing: nat, heads_left: nat) -> nat {
    if missing < heads_left {
        missing
    } else {
        heads_left
    }
}

/// The objects whose answer is `answer`, in order.
pub open spec fn picked(objects: Seq<SourceObject>, gone: Seq<bool>, answer: bool) -> Seq<
    SourceObject,
>
    decreases objects.len(),
{
    if objects.len() == 0 || gone.len() == 0 {
        Seq::empty()
    } else {
        let before = picked(objects.drop_last(), gone.drop_last(), answer);
        if gone.last() == answer {
            before.push(objects.last())
        } else {
            before
        }
    }
}

/// Settling loses no object: each one looked up is raced or still missing.
pub proof fn settling_loses_nothing(objects: Seq<SourceObject>, gone: Seq<bool>)
    requires
        objects.len() == gone.len(),
    ensures
        picked(objects, gone, true).len() + picked(objects, gone, false).len() == objects.len(),
    decreases objects.len(),
{
    if objects.len() > 0 {
        settling_loses_nothing(objects.drop_last(), gone.drop_last());
    }
}

/// A failed lookup means that the object is gone.
pub open spec fn means_gone(not_found: bool, status: Option<u16>) -> bool {
    not_found || status == Some(404u16)
}

/// Whether a failed lookup means that the object is gone: the service says so
/// or answers 404. Any other failure keeps it missing, the direction that
/// fails the run.
pub fn is_gone(not_found: bool, status: Option<u16>) -> (r: bool)
    ensures
        r == means_gone(not_found, status),
{
    if not_found {
        return true;
    }
    match status {
        Some(code) => code == 404,
        None => false,
    }
}

/// In ranges that follow on each other, the one that covers a key is the one
/// that is found.
pub proof fn the_covering_range_is_found(ranges: Seq<PlannedRange>, key: Seq<char>, j: int)
    requires
        0 <= j < ranges.len(),
        forall|i: int, k: int|
            #![trigger ranges[i], ranges[k]]
            0 <= i < k < ranges.len() ==> ranges[i].stop_at is Some && ranges[k].start_after is Some
                && text::key_le(ranges[i].stop_at->0@, ranges[k].start_after->0@),
        ordered(ranges),
        ranges[j].start_after is Some ==> text::key_lt(ranges[j].start_after->0@, key),
        ranges[j].stop_at is Some ==> text::key_le(key, ranges[j].stop_at->0@),
    ensures
        located(ranges, key) == Some(j),
{
    assert forall|i: int| 0 <= i < j implies before(#[trigger] ranges[i], key) by {
        let a = ranges[i].stop_at->0@;
        let b = ranges[j].start_after->0@;
        assert(text::key_le(a, b) && text::key_lt(b, key));
        if a != b {
            text::key_lt_transitive(a, b, key);
        }
    }
    if ranges[j].stop_at is Some {
        text::key_not_lt(ranges[j].stop_at->0@, key);
    }
    first_not_before(ranges, key, j);
    halving_finds_the_first(ranges, key);
}

/// A key that no range covers is found in none, and a key that is found is
/// after the range's lower bound and not after its upper.
pub proof fn keys_outside_are_not_found(ranges: Seq<PlannedRange>, key: Seq<char>)
    requires
        forall|j: int|
            0 <= j < ranges.len() ==> ((#[trigger] ranges[j]).start_after is Some && text::key_le(
                key,
                ranges[j].start_after->0@,
            )) || (ranges[j].stop_at is Some && text::key_lt(ranges[j].stop_at->0@, key)),
    ensures
        located(ranges, key) is None,
{
    if located(ranges, key) is Some {
        located_range_covers(ranges, key);
        let j = located(ranges, key)->0;
        assert(ranges[j] == ranges[j]);
        if ranges[j].start_after is Some {
            text::key_not_lt(ranges[j].start_after->0@, key);
        }
        if ranges[j].stop_at is Some {
            text::key_not_lt(ranges[j].stop_at->0@, key);
        }
    }
}

/// A range is suspect when its files or its bytes are not those planned.
pub proof fn ranges_are_suspect_by_either_count(t: Tally, ranges: Seq<PlannedRange>, i: int)
    ensures
        t.files@[i] != ranges[i].files ==> t.differs(ranges, i),
        t.bytes@[i] != ranges[i].bytes ==> t.differs(ranges, i),
        t.files@[i] == ranges[i].files && t.bytes@[i] == ranges[i].bytes ==> !t.differs(ranges, i),
{
}

/// A planned object is missing where nothing is found at its path, present
/// where its size is found, and short, with the size found, where another is.
pub proof fn objects_are_sorted_by_what_is_found(
    before: RangeDiff,
    obj: SourceObject,
    found: Map<Seq<char>, u64>,
    after: RangeDiff,
)
    requires
        before.sorts(obj, found, after),
    ensures
        ({
            let there = found.contains_key(obj.dest_path@);
            let size = found[obj.dest_path@];
            &&& !there ==> after.missing@ == before.missing@.push(obj)
            &&& there ==> after.missing@ == before.missing@
            &&& there && size != obj.size ==> after.short@ == before.short@.push((obj, size))
            &&& !there || size == obj.size ==> after.short@ == before.short@
            &&& there && size == obj.size ==> after.present == before.present + 1
            &&& !there || size != obj.size ==> after.present == before.present
            &&& after.raced == before.raced
            &&& after.extra == before.extra
            &&& after.fails() <==> after.missing@.len() > 0 || after.short@.len() > 0
        }),
{
}

/// An object is picked exactly when its own answer is the one asked for, after
/// those before it.
pub proof fn objects_are_picked_by_their_answer(
    objects: Seq<SourceObject>,
    gone: Seq<bool>,
    o: SourceObject,
    g: bool,
    answer: bool,
)
    requires
        objects.len() == gone.len(),
    ensures
        picked(Seq::empty(), Seq::empty(), answer).len() == 0,
        g == answer ==> picked(objects.push(o), gone.push(g), answer) == picked(
            objects,
            gone,
            answer,
        ).push(o),
        g != answer ==> picked(objects.push(o), gone.push(g), answer) == picked(
            objects,
            gone,
            answer,
        ),
{
    assert(objects.push(o).drop_last() =~= objects);
    assert(gone.push(g).drop_last() =~= gone);
}

/// The object whose answer is `answer` is among those picked.
proof fn lemma_picked_holds(objects: Seq<SourceObject>, gone: Seq<bool>, answer: bool, i: int)
    requires
        objects.len() == gone.len(),
        0 <= i < objects.len(),
        gone[i] == answer,
    ensures
        picked(objects, gone, answer).contains(objects[i]),
    decreases objects.len(),
{
    let all = picked(objects, gone, answer);
    let before = picked(objects.drop_last(), gone.drop_last(), answer);
    if i == objects.len() - 1 {
        assert(all[before.len() as int] == objects[i]);
    } else {
        lemma_picked_holds(objects.drop_last(), gone.drop_last(), answer, i);
        let k = choose|k: int| 0 <= k < before.len() && before[k] == objects.drop_last()[i];
        assert(all[k] == objects[i]);
    }
}

/// A missing object that is gone from the source is raced; one that is there,
/// or was not looked up, stays missing; and no object comes or goes.
pub proof fn gone_objects_are_raced(before: RangeDiff, gone: Seq<bool>, after: RangeDiff, i: int)
    requires
        gone.len() <= before.missing@.len(),
        before.settles(gone, after),
        0 <= i < before.missing@.len(),
    ensures
        i < gone.len() && gone[i] ==> after.raced@.contains(before.missing@[i]),
        i < gone.len() && !gone[i] ==> after.missing@.contains(before.missing@[i]),
        i >= gone.len() ==> after.missing@.contains(before.missing@[i]),
        after.missing@.len() + after.raced@.len() == before.missing@.len() + before.raced@.len(),
        after.present == before.present,
        after.short == before.short,
        after.extra == before.extra,
{
    let n = gone.len() as int;
    let first = before.missing@.take(n);
    settling_loses_nothing(first, gone);
    if i < n {
        lemma_picked_holds(first, gone, gone[i], i);
        let some = picked(first, gone, gone[i]);
        let k = choose|k: int| 0 <= k < some.len() && some[k] == first[i];
        if gone[i] {
            assert(after.raced@[before.raced@.len() + k] == before.missing@[i]);
        } else {
            assert(after.missing@[k] == before.missing@[i]);
        }
    } else {
        let kept = picked(first, gone, false);
        assert(after.missing@[kept.len() + (i - n)] == before.missing@[i]);
    }
}

/// What is extra, what is present and what is short are what is listed, unless
/// the listing is behind: then nothing is extra.
pub proof fn extras_are_what_is_left(listed: u64, present: u64, short: nat)
    ensures
        listed >= present + short ==> extra_of(listed, present, short) + present + short == listed,
        listed <= present + short ==> extra_of(listed, present, short) == 0,
{
}

/// As many objects are looked up as are missing and lookups are left.
pub proof fn lookups_are_bounded(missing: nat, heads_left: nat)
    ensures
        looked_up(missing, heads_left) <= missing,
        looked_up(missing, heads_left) <= heads_left,
        looked_up(missing, heads_left) == missing || looked_up(missing, heads_left) == heads_left,
{
}

/// An object is gone when the service says so or the answer is 404, and by no
/// other answer.
pub proof fn only_a_404_means_gone(not_found: bool, status: Option<u16>)
    ensures
        not_found ==> means_gone(not_found, status),
        status is Some && status->0 == 404 ==> means_gone(not_found, status),
        !not_found && (status is None || status->0 != 404) ==> !means_gone(not_found, status),
{
}

/// The second pass looks at every range whose files or bytes are not those
/// planned, at no other, and at each once.
pub proof fn every_differing_range_is_suspect(
    t: Tally,
    ranges: Seq<PlannedRange>,
    suspects: Seq<usize>,
    i: usize,
)
    requires
        t.suspects_are(ranges, suspects),
    ensures
        suspects.contains(i) <==> i < ranges.len() && (t.files@[i as int] != ranges[i as int].files
            || t.bytes@[i as int] != ranges[i as int].bytes),
        suspects.no_duplicates(),
        suspects.len() == 0 && i < ranges.len() ==> t.files@[i as int] == ranges[i as int].files
            && t.bytes@[i as int] == ranges[i as int].bytes,
{
    if suspects.len() == 0 && i < ranges.len() {
        assert(!suspects.contains(i));
    }
}

} // verus!
