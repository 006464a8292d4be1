//! The verdict of the destination check, and what leads to it.
use globset::GlobSet;
use vstd::prelude::*;
use crate::bucket_client::BatchOp;
use crate::globs;
use crate::keys;
use crate::keys::KeyFilter;
use crate::listing;
use crate::sync;
use crate::text;
use crate::verify::{PlannedRange, RangeDiff, SourceObject, Tally};

verus! {

/// Paths that a report names.
pub const SAMPLE: usize = 10;

/// Lookups on the source per run, to tell raced objects from missing ones.
pub const MAX_SOURCE_HEADS: usize = 1000;

// ---------------------------------------------------------------------------
// The report
// ---------------------------------------------------------------------------
/// The outcome of the destination check. Extra, raced and outside files do
/// not fail it.
#[derive(Debug, Clone, PartialEq, Eq)]
pub struct Report {
    /// No missing and no short file.
    pub ok: bool,
    /// The destination held still before it was listed.
    pub settled: bool,
    pub planned_files: u64,
    pub planned_bytes: u64,
    pub dest_files: u64,
    pub dest_bytes: u64,
    pub missing: u64,
    /// At the destination with another size.
    pub short: u64,
    pub extra: u64,
    pub raced: u64,
    pub outside: u64,
    pub failed_ranges: Vec<usize>,
    /// The first missing, then short, destination paths.
    pub sample: Vec<String>,
}

/// The sums of files and bytes over the ranges.
pub open spec fn sums(ranges: Seq<PlannedRange>) -> (nat, nat)
    decreases ranges.len(),
{
    if ranges.len() == 0 {
        (0, 0)
    } else {
        let before = sums(ranges.drop_last());
        (before.0 + ranges.last().files as nat, before.1 + ranges.last().bytes as nat)
    }
}

/// The first ranges have no more files and bytes than all of them.
proof fn lemma_sums_grow(ranges: Seq<PlannedRange>, i: int)
    requires
        0 <= i <= ranges.len(),
    ensures
        sums(ranges.take(i)).0 <= sums(ranges).0,
        sums(ranges.take(i)).1 <= sums(ranges).1,
    decreases ranges.len() - i,
{
    if i == ranges.len() {
        assert(ranges.take(i) =~= ranges);
    } else {
        lemma_sums_grow(ranges, i + 1);
        assert(ranges.take(i + 1).drop_last() =~= ranges.take(i));
    }
}

/// The planned files and bytes; `None` where a sum is too large.
pub fn planned_totals(ranges: &[PlannedRange]) -> (r: Option<(u64, u64)>)
    ensures
        r is Some <==> sums(ranges@).0 <= u64::MAX && sums(ranges@).1 <= u64::MAX,
        r is Some ==> r->0 == (sums(ranges@).0 as u64, sums(ranges@).1 as u64),
{
    let mut files: u64 = 0;
    let mut bytes: u64 = 0;
    let mut i: usize = 0;
    while i < ranges.len()
        invariant
            0 <= i <= ranges@.len(),
            sums(ranges@.take(i as int)) == (files as nat, bytes as nat),
        decreases ranges@.len() - i,
    {
        proof {
            assert(ranges@.take(i + 1).drop_last() =~= ranges@.take(i as int));
            assert(ranges@.take(i + 1).last() == ranges@[i as int]);
            lemma_sums_grow(ranges@, i + 1);
        }
        match (files.checked_add(ranges[i].files), bytes.checked_add(ranges[i].bytes)) {
            (Some(f), Some(b)) => {
                files = f;
                bytes = b;
            },
            _ => {
                return None;
            },
        }
        i = i + 1;
    }
    assert(ranges@.take(ranges@.len() as int) =~= ranges@);
    Some((files, bytes))
}

/// The destination paths that a range lacks: the missing ones, then the short
/// ones.
pub open spec fn gaps(diff: RangeDiff) -> Seq<Seq<char>> {
    diff.missing@.map_values(|o: SourceObject| o.dest_path@) + diff.short@.map_values(
        |p: (SourceObject, u64)| p.0.dest_path@,
    )
}

/// The sample with the gaps after it, as far as there is room.
pub open spec fn sampled(sample: Seq<Seq<char>>, gaps: Seq<Seq<char>>) -> Seq<Seq<char>> {
    if sample.len() >= SAMPLE {
        sample
    } else if sample.len() + gaps.len() <= SAMPLE {
        sample + gaps
    } else {
        sample + gaps.take(SAMPLE - sample.len())
    }
}

/// A list of range numbers in brackets.
pub open spec fn range_list(ranges: Seq<usize>) -> Seq<char> {
    seq!['['] + text::joined(
        ranges.map_values(|i: usize| text::decimal(i as nat)),
        ", "@,
    ) + seq![']']
}

impl Report {
    /// The verdict is the absence of missing and short files, and of failed
    /// ranges.
    pub open spec fn wf(&self) -> bool {
        &&& self.ok == (self.missing == 0 && self.short == 0)
        &&& self.ok == (self.failed_ranges@.len() == 0)
    }

    /// The report of a tally without suspects.
    pub fn new(settled: bool, ranges: &[PlannedRange], tally: &Tally) -> (r: Self)
        requires
            sums(ranges@).0 <= u64::MAX,
            sums(ranges@).1 <= u64::MAX,
        ensures
            r.wf(),
            r.sums_up(Seq::empty()),
            r.ok,
            r.settled == settled,
            r.planned_files == sums(ranges@).0,
            r.planned_bytes == sums(ranges@).1,
            r.dest_files == tally.dest_files,
            r.dest_bytes == tally.dest_bytes,
            r.outside == tally.outside,
            r.missing == 0,
            r.short == 0,
            r.extra == 0,
            r.raced == 0,
            r.failed_ranges@.len() == 0,
            r.sample@.len() == 0,
    {
        let (planned_files, planned_bytes): (u64, u64) = match planned_totals(ranges) {
            Some(t) => t,
            None => (0, 0),
        };
        let r = Report {
            ok: true,
            settled,
            planned_files,
            planned_bytes,
            dest_files: tally.dest_files,
            dest_bytes: tally.dest_bytes,
            missing: 0,
            short: 0,
            extra: 0,
            raced: 0,
            outside: tally.outside,
            failed_ranges: Vec::new(),
            sample: Vec::new(),
        };
        assert(text::texts(r.sample@) =~= first_gaps(all_gaps(Seq::empty())));
        assert(r.failed_ranges@ =~= failing(Seq::empty()));
        r
    }

    /// The counts of another range fit.
    pub open spec fn room_for(&self, diff: RangeDiff) -> bool {
        &&& self.missing + diff.missing@.len() <= u64::MAX
        &&& self.short + diff.short@.len() <= u64::MAX
        &&& self.extra + diff.extra <= u64::MAX
        &&& self.raced + diff.raced@.len() <= u64::MAX
    }

    /// Whether the counts of another range fit.
    pub fn has_room(&self, diff: &RangeDiff) -> (r: bool)
        ensures
            r == self.room_for(*diff),
    {
        diff.missing.len() as u64 <= u64::MAX - self.missing && diff.short.len() as u64 <= u64::MAX
            - self.short && diff.extra <= u64::MAX - self.extra && diff.raced.len() as u64
            <= u64::MAX - self.raced
    }

    /// `next` has taken in the range `idx` as well.
    pub open spec fn takes_in(&self, idx: usize, diff: RangeDiff, next: Report) -> bool {
        &&& next.ok == (self.ok && !diff.fails())
        &&& next.missing == self.missing + diff.missing@.len()
        &&& next.short == self.short + diff.short@.len()
        &&& next.extra == self.extra + diff.extra
        &&& next.raced == self.raced + diff.raced@.len()
        &&& next.failed_ranges@ == if diff.fails() {
            self.failed_ranges@.push(idx)
        } else {
            self.failed_ranges@
        }
        &&& text::texts(next.sample@) == sampled(text::texts(self.sample@), gaps(diff))
        &&& next.settled == self.settled
        &&& next.planned_files == self.planned_files
        &&& next.planned_bytes == self.planned_bytes
        &&& next.dest_files == self.dest_files
        &&& next.dest_bytes == self.dest_bytes
        &&& next.outside == self.outside
    }

    /// Take in the range `idx`: its counts, its failure where it has missing
    /// or short files, and the first of those paths.
    pub fn add(&mut self, idx: usize, diff: &RangeDiff)
        requires
            old(self).room_for(*diff),
        ensures
            old(self).wf() ==> final(self).wf(),
            old(self).takes_in(idx, *diff, *final(self)),
    {
        self.missing = self.missing + diff.missing.len() as u64;
        self.short = self.short + diff.short.len() as u64;
        self.extra = self.extra + diff.extra;
        self.raced = self.raced + diff.raced.len() as u64;
        if diff.failed() {
            self.ok = false;
            self.failed_ranges.push(idx);
        }
        let ghost first = text::texts(self.sample@);
        let ghost all = gaps(*diff);
        let ghost counts = *self;
        let n: usize = diff.missing.len();
        let m: usize = diff.short.len();
        let mut i: usize = 0;
        assert(first + all.take(0) =~= first);
        while i < n && self.sample.len() < SAMPLE
            invariant
                0 <= i <= n,
                n == diff.missing@.len(),
                m == diff.short@.len(),
                all == gaps(*diff),
                i > 0 ==> first.len() < SAMPLE,
                text::texts(self.sample@) == first + all.take(i as int),
                first.len() < SAMPLE ==> self.sample@.len() <= SAMPLE,
                first.len() >= SAMPLE ==> i == 0,
                *self == (Report { sample: self.sample, ..counts }),
            decreases n - i,
        {
            let ghost was = text::texts(self.sample@);
            let path = diff.missing[i].dest_path.clone();
            assert(all[i as int] == path@);
            self.sample.push(path);
            assert(text::texts(self.sample@) =~= was.push(path@));
            assert(text::texts(self.sample@) =~= first + all.take(i + 1));
            i = i + 1;
        }
        let mut j: usize = 0;
        while i == n && j < m && self.sample.len() < SAMPLE
            invariant
                0 <= i <= n,
                0 <= j <= m,
                n == diff.missing@.len(),
                m == diff.short@.len(),
                all == gaps(*diff),
                j > 0 ==> i == n,
                i + j > 0 ==> first.len() < SAMPLE,
                i < n ==> self.sample@.len() >= SAMPLE,
                text::texts(self.sample@) == first + all.take(i + j),
                first.len() < SAMPLE ==> self.sample@.len() <= SAMPLE,
                *self == (Report { sample: self.sample, ..counts }),
            decreases m - j,
        {
            let ghost was = text::texts(self.sample@);
            let path = diff.short[j].0.dest_path.clone();
            assert(all[n + j] == path@);
            self.sample.push(path);
            assert(text::texts(self.sample@) =~= was.push(path@));
            assert(text::texts(self.sample@) =~= first + all.take(n + j + 1));
            j = j + 1;
        }
        proof {
            assert(all.len() == n + m);
            assert(text::texts(self.sample@).len() == self.sample@.len());
            if first.len() >= SAMPLE {
                assert(text::texts(self.sample@) =~= first);
            } else if first.len() + all.len() <= SAMPLE {
                assert(i + j == all.len());
                assert(text::texts(self.sample@) =~= first + all);
            } else {
                assert(self.sample@.len() == SAMPLE);
            }
        }
    }

    /// The words for a report that is not ok.
    pub open spec fn failure_words(&self) -> Seq<char> {
        "destination check failed: "@ + text::decimal(self.missing as nat) + " missing, "@
            + text::decimal(self.short as nat) + " short file(s) in range(s) "@ + range_list(
            self.failed_ranges@,
        ) + " (see the VERIFY line and the re-run commands above)"@
    }

    /// The words for a report that is not ok.
    pub fn failure(&self) -> (r: String)
        ensures
            r@ == self.failure_words(),
    {
        let mut r = String::new();
        r.append("destination check failed: ");
        r.append(text::decimal_text(self.missing).as_str());
        r.append(" missing, ");
        r.append(text::decimal_text(self.short).as_str());
        r.append(" short file(s) in range(s) ");
        r.append(range_text(&self.failed_ranges).as_str());
        r.append(" (see the VERIFY line and the re-run commands above)");
        assert(r@ =~= self.failure_words());
        r
    }
}

/// A list of range numbers in brackets.
fn range_text(ranges: &Vec<usize>) -> (r: String)
    ensures
        r@ == range_list(ranges@),
{
    let ghost words = ranges@.map_values(|i: usize| text::decimal(i as nat));
    let mut list: Vec<String> = Vec::new();
    let mut i: usize = 0;
    while i < ranges.len()
        invariant
            0 <= i <= ranges@.len(),
            words == ranges@.map_values(|i: usize| text::decimal(i as nat)),
            text::texts(list@) == words.take(i as int),
        decreases ranges@.len() - i,
    {
        let ghost was = text::texts(list@);
        let word = text::decimal_text(ranges[i] as u64);
        list.push(word);
        assert(text::texts(list@) =~= was.push(word@));
        assert(text::texts(list@) =~= words.take(i + 1));
        i = i + 1;
    }
    assert(words.take(words.len() as int) =~= words);
    let mut r = String::new();
    r.push('[');
    r.append(text::join(&list, ", ").as_str());
    r.push(']');
    assert(r@ =~= range_list(ranges@));
    r
}

/// What the ranges count together: missing, short, extra and raced files.
pub open spec fn counts_of(diffs: Seq<(usize, RangeDiff)>) -> (nat, nat, nat, nat)
    decreases diffs.len(),
{
    if diffs.len() == 0 {
        (0, 0, 0, 0)
    } else {
        let before = counts_of(diffs.drop_last());
        let diff = diffs.last().1;
        (
            before.0 + diff.missing@.len(),
            before.1 + diff.short@.len(),
            before.2 + diff.extra as nat,
            before.3 + diff.raced@.len(),
        )
    }
}

/// The numbers of the ranges that fail, in order.
pub open spec fn failing(diffs: Seq<(usize, RangeDiff)>) -> Seq<usize>
    decreases diffs.len(),
{
    if diffs.len() == 0 {
        Seq::empty()
    } else if diffs.last().1.fails() {
        failing(diffs.drop_last()).push(diffs.last().0)
    } else {
        failing(diffs.drop_last())
    }
}

/// The destination paths that the ranges lack, range by range.
pub open spec fn all_gaps(diffs: Seq<(usize, RangeDiff)>) -> Seq<Seq<char>>
    decreases diffs.len(),
{
    if diffs.len() == 0 {
        Seq::empty()
    } else {
        all_gaps(diffs.drop_last()) + gaps(diffs.last().1)
    }
}

/// The first paths, as many as a report names.
pub open spec fn first_gaps(paths: Seq<Seq<char>>) -> Seq<Seq<char>> {
    if paths.len() <= SAMPLE {
        paths
    } else {
        paths.take(SAMPLE as int)
    }
}

impl Report {
    /// The report is that of these ranges: their counts, the ranges that fail
    /// and the first of the paths they lack, and it is ok where none fails.
    pub open spec fn sums_up(&self, diffs: Seq<(usize, RangeDiff)>) -> bool {
        &&& (
            self.missing as nat,
            self.short as nat,
            self.extra as nat,
            self.raced as nat,
        ) == counts_of(diffs)
        &&& self.failed_ranges@ == failing(diffs)
        &&& self.ok == (failing(diffs).len() == 0)
        &&& text::texts(self.sample@) == first_gaps(all_gaps(diffs))
    }
}

/// The sample holds the first paths: taking in more gaps keeps it the first
/// ones of all.
pub proof fn the_sample_holds_the_first(paths: Seq<Seq<char>>, more: Seq<Seq<char>>)
    ensures
        sampled(first_gaps(paths), more) == first_gaps(paths + more),
{
    let first = first_gaps(paths);
    if paths.len() >= SAMPLE {
        assert(first =~= first_gaps(paths + more));
    } else {
        assert(sampled(first, more) =~= first_gaps(paths + more));
    }
}

/// A report that takes in another range sums that up as well: so a report fails
/// exactly when a range in it does, and counts, ranges and sample are those of
/// all its ranges.
pub proof fn reports_sum_up_their_ranges(
    before: Report,
    diffs: Seq<(usize, RangeDiff)>,
    idx: usize,
    diff: RangeDiff,
    after: Report,
)
    requires
        before.sums_up(diffs),
        before.takes_in(idx, diff, after),
    ensures
        after.sums_up(diffs.push((idx, diff))),
{
    let all = diffs.push((idx, diff));
    assert(all.drop_last() =~= diffs);
    the_sample_holds_the_first(all_gaps(diffs), gaps(diff));
}

// ---------------------------------------------------------------------------
// Waiting for the destination
// ---------------------------------------------------------------------------
/// Seconds between polls.
pub const SETTLE_POLL_S: u64 = 10;

/// Unchanged polls after which the destination holds still.
pub const SETTLE_QUIET_POLLS: u32 = 2;

/// Seconds after which the destination is listed anyway.
pub const SETTLE_MAX_S: u64 = 120;

/// What follows a poll.
#[derive(Debug, Clone, Copy, PartialEq, Eq, Structural)]
pub enum SettleStep {
    /// It holds still.
    Settled,
    /// It cannot be polled: it is listed without waiting.
    Unreadable,
    /// It still changes: it is listed anyway.
    Restless,
    /// Poll again after `SETTLE_POLL_S`.
    Wait,
}

/// The polls of a destination's time of change.
#[derive(Debug, Clone, PartialEq, Eq)]
pub struct Settle {
    pub last: Option<String>,
    /// Unchanged polls in a row.
    pub quiet: u32,
}

impl Settle {
    /// Fewer unchanged polls than end the wait.
    pub open spec fn wf(&self) -> bool {
        self.quiet < SETTLE_QUIET_POLLS
    }

    /// Not polled yet.
    pub fn new() -> (s: Self)
        ensures
            s.wf(),
            s.last is None,
            s.quiet == 0,
    {
        Settle { last: None, quiet: 0 }
    }

    /// The unchanged polls in a row, this one counted.
    pub open spec fn quiet_after(&self, at: Seq<char>) -> nat {
        if self.last is Some && self.last->0@ == at {
            (self.quiet + 1) as nat
        } else {
            0
        }
    }

    /// The answer of a poll leads to `step`, and `next` has heard it.
    pub open spec fn hears(
        &self,
        updated_at: Option<Seq<char>>,
        elapsed_s: u64,
        step: SettleStep,
        next: Settle,
    ) -> bool {
        match updated_at {
            None => step == SettleStep::Unreadable && next == *self,
            Some(at) => {
                &&& step == if self.quiet_after(at) >= SETTLE_QUIET_POLLS {
                    SettleStep::Settled
                } else if elapsed_s >= SETTLE_MAX_S {
                    SettleStep::Restless
                } else {
                    SettleStep::Wait
                }
                &&& next.last is Some
                &&& next.last->0@ == at
                &&& next.quiet == self.quiet_after(at)
            },
        }
    }

    /// What a poll's answer leads to, `elapsed_s` seconds after the first:
    /// enough unchanged answers end the wait, an unreadable one skips it, and
    /// the time limit cuts it short.
    pub fn observe(&mut self, updated_at: Option<&str>, elapsed_s: u64) -> (step: SettleStep)
        requires
            old(self).wf(),
        ensures
            old(self).hears(
                listing::str_or_none(updated_at),
                elapsed_s,
                step,
                *final(self),
            ),
            step != SettleStep::Settled ==> final(self).wf(),
    {
        let at: &str = match updated_at {
            None => {
                return SettleStep::Unreadable;
            },
            Some(at) => at,
        };
        let unchanged = match &self.last {
            Some(last) => text::same(last.as_str(), at),
            None => false,
        };
        if unchanged {
            self.quiet = self.quiet + 1;
            if self.quiet >= SETTLE_QUIET_POLLS {
                return SettleStep::Settled;
            }
        } else {
            self.quiet = 0;
            self.last = Some(at.to_owned());
        }
        if elapsed_s >= SETTLE_MAX_S {
            SettleStep::Restless
        } else {
            SettleStep::Wait
        }
    }
}

// ---------------------------------------------------------------------------
// Listing a range again
// ---------------------------------------------------------------------------
/// One entry of a source listing page.
#[derive(Debug, Clone, PartialEq, Eq)]
pub struct PageEntry {
    pub key: Option<String>,
    pub size: Option<i64>,
}

/// What one page holds of a range.
#[derive(Debug, Clone, PartialEq, Eq)]
pub struct PageObjects {
    pub objects: Vec<SourceObject>,
    /// A key past the range was reached.
    pub range_end: bool,
}

/// The entry's key sorts after the range.
pub open spec fn ends_range(e: PageEntry, stop_at: Option<String>) -> bool {
    e.key is Some && listing::past(stop_at, e.key->0@)
}

/// The place of the first entry past the range; the page's length where there
/// is none.
pub open spec fn range_end(page: Seq<PageEntry>, stop_at: Option<String>) -> int
    decreases page.len(),
{
    if page.len() == 0 || ends_range(page[0], stop_at) {
        0
    } else {
        1 + range_end(page.drop_first(), stop_at)
    }
}

/// An object as the check sees it: key, destination path, size.
pub open spec fn object_view(o: SourceObject) -> (Seq<char>, Seq<char>, u64) {
    (o.key@, o.dest_path@, o.size)
}

/// The objects that a copier of the range would copy, in order.
pub open spec fn copied(
    page: Seq<PageEntry>,
    src_prefix: Seq<char>,
    dest_prefix: Seq<char>,
    exclude: Option<GlobSet>,
) -> Seq<(Seq<char>, Seq<char>, u64)>
    decreases page.len(),
{
    if page.len() == 0 {
        Seq::empty()
    } else {
        let before = copied(page.drop_last(), src_prefix, dest_prefix, exclude);
        let e = page.last();
        if e.key is Some && keys::filtered(e.key->0@, src_prefix, exclude) == KeyFilter::Keep {
            before.push(
                (
                    e.key->0@,
                    keys::landed(e.key->0@, dest_prefix, src_prefix),
                    listing::bytes_of(e.size),
                ),
            )
        } else {
            before
        }
    }
}

/// The objects of one source page that belong to the range, by the copier's
/// own filter, and whether the range ends in it.
pub fn select_page(
    page: &Vec<PageEntry>,
    src_prefix: &str,
    dest_prefix: &str,
    exclude: &Option<GlobSet>,
    stop_at: &Option<String>,
) -> (r: PageObjects)
    ensures
        r.range_end == (range_end(page@, *stop_at) < page@.len()),
        r.objects@.map_values(|o: SourceObject| object_view(o)) == copied(
            page@.take(range_end(page@, *stop_at)),
            src_prefix@,
            dest_prefix@,
            *exclude,
        ),
{
    let ghost view = |o: SourceObject| object_view(o);
    let mut objects: Vec<SourceObject> = Vec::new();
    let mut i: usize = 0;
    assert(page@.skip(0) =~= page@);
    assert(objects@.map_values(view) =~= copied(
        page@.take(0),
        src_prefix@,
        dest_prefix@,
        *exclude,
    ));
    while i < page.len()
        invariant
            0 <= i <= page@.len(),
            view == |o: SourceObject| object_view(o),
            range_end(page@, *stop_at) == i + range_end(page@.skip(i as int), *stop_at),
            objects@.map_values(view) == copied(
                page@.take(i as int),
                src_prefix@,
                dest_prefix@,
                *exclude,
            ),
        decreases page@.len() - i,
    {
        let ghost was = objects@;
        assert(page@.skip(i as int)[0] == page@[i as int]);
        assert(page@.skip(i as int).drop_first() =~= page@.skip(i + 1));
        assert(page@.take(i + 1).drop_last() =~= page@.take(i as int));
        assert(page@.take(i + 1).last() == page@[i as int]);
        if let Some(key) = &page[i].key {
            if listing::is_past(stop_at, key.as_str()) {
                return PageObjects { objects, range_end: true };
            }
            if keys::filter_key(key.as_str(), src_prefix, exclude) == KeyFilter::Keep {
                let rel = keys::relative_key_path(key.as_str(), src_prefix);
                let o = SourceObject {
                    key: key.clone(),
                    dest_path: keys::destination_path(dest_prefix, rel.as_str()),
                    size: listing::object_size(page[i].size),
                };
                objects.push(o);
                assert(objects@.map_values(view) =~= was.map_values(view).push(object_view(o)));
            }
        }
        i = i + 1;
    }
    assert(page@.take(page@.len() as int) =~= page@);
    assert(page@.skip(i as int) =~= Seq::empty());
    PageObjects { objects, range_end: false }
}

/// Every object of a page is that of an entry.
proof fn lemma_copied_from(
    page: Seq<PageEntry>,
    src_prefix: Seq<char>,
    dest_prefix: Seq<char>,
    exclude: Option<GlobSet>,
    i: int,
)
    requires
        0 <= i < copied(page, src_prefix, dest_prefix, exclude).len(),
    ensures
        exists|k: int|
            0 <= k < page.len() && is_object_of(
                #[trigger] page[k],
                copied(page, src_prefix, dest_prefix, exclude)[i],
                src_prefix,
                dest_prefix,
                exclude,
            ),
    decreases page.len(),
{
    if page.len() > 0 {
        let front = page.drop_last();
        let before = copied(front, src_prefix, dest_prefix, exclude);
        if i < before.len() {
            lemma_copied_from(front, src_prefix, dest_prefix, exclude, i);
            let k = choose|k: int|
                0 <= k < front.len() && is_object_of(
                    #[trigger] front[k],
                    before[i],
                    src_prefix,
                    dest_prefix,
                    exclude,
                );
            assert(page[k] == front[k]);
        } else {
            assert(page[page.len() - 1] == page.last());
        }
    }
}

/// The object is that of the entry: its key, which a copier keeps, its size,
/// and the path that the copier's operation for the key registers.
pub open spec fn is_object_of(
    e: PageEntry,
    o: (Seq<char>, Seq<char>, u64),
    src_prefix: Seq<char>,
    dest_prefix: Seq<char>,
    exclude: Option<GlobSet>,
) -> bool {
    &&& e.key is Some && o.0 == e.key->0@
    &&& keys::belongs(o.0, src_prefix)
    &&& !keys::has_empty_segment(o.0)
    &&& !globs::excluded(exclude, o.0)
    &&& o.2 == match e.size {
        Some(n) => if n >= 0 {
            n as int
        } else {
            0
        },
        None => 0,
    }
    &&& forall|op: BatchOp, hash: String, mtime: u64| #[trigger]
        sync::registers(op, o.0, src_prefix, dest_prefix, hash, mtime) ==> op.dest() == o.1
}

/// The second pass looks for an object where the copier put it: every object of
/// a page is that of an entry, at the path that the copier's operation for its
/// key registers, and, read back, that path is the key.
pub proof fn objects_are_looked_for_where_they_land(
    page: Seq<PageEntry>,
    src_prefix: Seq<char>,
    dest_prefix: Seq<char>,
    exclude: Option<GlobSet>,
    i: int,
)
    requires
        0 <= i < copied(page, src_prefix, dest_prefix, exclude).len(),
    ensures
        ({
            let o = copied(page, src_prefix, dest_prefix, exclude)[i];
            &&& exists|k: int|
                0 <= k < page.len() && is_object_of(
                    #[trigger] page[k],
                    o,
                    src_prefix,
                    dest_prefix,
                    exclude,
                )
            &&& o.0 != src_prefix + seq!['/'] + src_prefix ==> keys::origin(
                o.1,
                dest_prefix,
                src_prefix,
            ) == Some(o.0)
        }),
{
    let o = copied(page, src_prefix, dest_prefix, exclude)[i];
    lemma_copied_from(page, src_prefix, dest_prefix, exclude, i);
    lemma_copied_lands(page, src_prefix, dest_prefix, exclude, i);
    if o.0 != src_prefix + seq!['/'] + src_prefix {
        keys::source_key_inverts_the_mapping(o.0, dest_prefix, src_prefix);
    }
}

/// An object of a page is at the path its key lands on.
proof fn lemma_copied_lands(
    page: Seq<PageEntry>,
    src_prefix: Seq<char>,
    dest_prefix: Seq<char>,
    exclude: Option<GlobSet>,
    i: int,
)
    requires
        0 <= i < copied(page, src_prefix, dest_prefix, exclude).len(),
    ensures
        copied(page, src_prefix, dest_prefix, exclude)[i].1 == keys::landed(
            copied(page, src_prefix, dest_prefix, exclude)[i].0,
            dest_prefix,
            src_prefix,
        ),
    decreases page.len(),
{
    if page.len() > 0 {
        let before = copied(page.drop_last(), src_prefix, dest_prefix, exclude);
        if i < before.len() {
            lemma_copied_lands(page.drop_last(), src_prefix, dest_prefix, exclude, i);
        }
    }
}

/// An entry adds its object, after those before it, exactly when its key is one
/// that a copier keeps; it adds nothing else and changes nothing.
pub proof fn an_entry_adds_its_object(
    page: Seq<PageEntry>,
    e: PageEntry,
    src_prefix: Seq<char>,
    dest_prefix: Seq<char>,
    exclude: Option<GlobSet>,
)
    ensures
        ({
            let before = copied(page, src_prefix, dest_prefix, exclude);
            let after = copied(page.push(e), src_prefix, dest_prefix, exclude);
            let keeps = e.key is Some && keys::belongs(e.key->0@, src_prefix)
                && !keys::has_empty_segment(e.key->0@) && !globs::excluded(exclude, e.key->0@);
            &&& !keeps ==> after == before
            &&& keeps ==> after.len() == before.len() + 1 && after.drop_last() == before
                && is_object_of(e, after.last(), src_prefix, dest_prefix, exclude)
            &&& copied(Seq::empty(), src_prefix, dest_prefix, exclude).len() == 0
        }),
{
    assert(page.push(e).drop_last() =~= page);
    let before = copied(page, src_prefix, dest_prefix, exclude);
    let after = copied(page.push(e), src_prefix, dest_prefix, exclude);
    if e.key is Some && keys::filtered(e.key->0@, src_prefix, exclude) == KeyFilter::Keep {
        assert(after.drop_last() =~= before);
    }
}

/// The second pass passes over no object: every entry whose key a copier keeps
/// has its object.
pub proof fn no_object_is_passed_over(
    page: Seq<PageEntry>,
    src_prefix: Seq<char>,
    dest_prefix: Seq<char>,
    exclude: Option<GlobSet>,
    k: int,
)
    requires
        0 <= k < page.len(),
        page[k].key is Some,
        keys::belongs(page[k].key->0@, src_prefix),
        !keys::has_empty_segment(page[k].key->0@),
        !globs::excluded(exclude, page[k].key->0@),
    ensures
        exists|i: int|
            0 <= i < copied(page, src_prefix, dest_prefix, exclude).len() && is_object_of(
                page[k],
                #[trigger] copied(page, src_prefix, dest_prefix, exclude)[i],
                src_prefix,
                dest_prefix,
                exclude,
            ),
    decreases page.len(),
{
    let all = copied(page, src_prefix, dest_prefix, exclude);
    let before = copied(page.drop_last(), src_prefix, dest_prefix, exclude);
    if k < page.len() - 1 {
        let front = page.drop_last();
        assert(front[k] == page[k]);
        no_object_is_passed_over(front, src_prefix, dest_prefix, exclude, k);
        let i = choose|i: int|
            0 <= i < before.len() && is_object_of(
                front[k],
                #[trigger] before[i],
                src_prefix,
                dest_prefix,
                exclude,
            );
        assert(all[i] == before[i]);
    } else {
        assert(page.last() == page[k]);
        assert(is_object_of(page[k], all[before.len() as int], src_prefix, dest_prefix, exclude));
    }
}

/// A page is cut at the first key past the range: no key before the cut is,
/// and the one at the cut is.
pub proof fn a_page_is_cut_at_the_bound(page: Seq<PageEntry>, stop_at: Option<String>)
    ensures
        0 <= range_end(page, stop_at) <= page.len(),
        stop_at is None ==> range_end(page, stop_at) == page.len(),
        forall|i: int|
            0 <= i < range_end(page, stop_at) && (#[trigger] page[i]).key is Some && stop_at is Some
                ==> text::key_le(page[i].key->0@, stop_at->0@),
        range_end(page, stop_at) < page.len() ==> stop_at is Some && page[range_end(
            page,
            stop_at,
        )].key is Some && text::key_lt(
            stop_at->0@,
            page[range_end(page, stop_at)].key->0@,
        ),
    decreases page.len(),
{
    if page.len() > 0 && !ends_range(page[0], stop_at) {
        let rest = page.drop_first();
        a_page_is_cut_at_the_bound(rest, stop_at);
        let n = range_end(rest, stop_at);
        assert forall|i: int|
            0 <= i < range_end(page, stop_at) && (#[trigger] page[i]).key is Some && stop_at is Some
            implies text::key_le(page[i].key->0@, stop_at->0@) by {
            if i > 0 {
                assert(rest[i - 1] == page[i]);
            } else {
                text::key_not_lt(stop_at->0@, page[0].key->0@);
            }
        }
        if n < rest.len() {
            assert(rest[n] == page[n + 1]);
        }
    }
}

/// The missing paths come first, then the short ones, each list in its order.
pub proof fn gaps_are_missing_then_short(diff: RangeDiff, i: int)
    ensures
        gaps(diff).len() == diff.missing@.len() + diff.short@.len(),
        0 <= i < diff.missing@.len() ==> gaps(diff)[i] == diff.missing@[i].dest_path@,
        0 <= i < diff.short@.len() ==> gaps(diff)[diff.missing@.len() + i]
            == diff.short@[i].0.dest_path@,
{
}

/// A report names ten paths at most: all of them where there are no more, else
/// the first ten.
pub proof fn ten_paths_are_named(paths: Seq<Seq<char>>)
    ensures
        paths.len() <= 10 ==> first_gaps(paths) == paths,
        paths.len() > 10 ==> first_gaps(paths) == paths.take(10),
{
}

/// The planned totals add up the ranges.
pub proof fn planned_totals_add_the_ranges(ranges: Seq<PlannedRange>, r: PlannedRange)
    ensures
        sums(Seq::empty()) == (0nat, 0nat),
        sums(ranges.push(r)).0 == sums(ranges).0 + r.files,
        sums(ranges.push(r)).1 == sums(ranges).1 + r.bytes,
{
    assert(ranges.push(r).drop_last() =~= ranges);
}

/// Taking in a range changes nothing of what the first pass found, and one file
/// missing or short fails the report for good.
pub proof fn a_failed_range_fails_the_report(
    before: Report,
    idx: usize,
    diff: RangeDiff,
    after: Report,
)
    requires
        before.takes_in(idx, diff, after),
    ensures
        diff.missing@.len() > 0 || diff.short@.len() > 0 ==> !after.ok
            && after.failed_ranges@.last() == idx,
        !before.ok ==> !after.ok,
        before.ok && diff.missing@.len() == 0 && diff.short@.len() == 0 ==> after.ok,
        after.settled == before.settled,
        after.planned_files == before.planned_files,
        after.planned_bytes == before.planned_bytes,
        after.dest_files == before.dest_files,
        after.dest_bytes == before.dest_bytes,
        after.outside == before.outside,
{
}

/// The ranges stand between brackets, their numbers in order with a comma and a
/// space between neighbours.
pub proof fn ranges_are_listed_in_brackets(ranges: Seq<usize>)
    ensures
        range_list(ranges).len() >= 2,
        range_list(ranges)[0] == '[',
        range_list(ranges).last() == ']',
        range_list(ranges).subrange(1, range_list(ranges).len() - 1) == text::joined(
            Seq::new(ranges.len(), |i: int| text::decimal(ranges[i] as nat)),
            ", "@,
        ),
{
    assert(ranges.map_values(|i: usize| text::decimal(i as nat)) =~= Seq::new(
        ranges.len(),
        |i: int| text::decimal(ranges[i] as nat),
    ));
    let inner = text::joined(
        Seq::new(ranges.len(), |i: int| text::decimal(ranges[i] as nat)),
        ", "@,
    );
    assert(range_list(ranges).subrange(1, range_list(ranges).len() - 1) =~= inner);
}

/// The words of a failed report give how many files are missing, how many are
/// short, and the ranges.
pub proof fn failures_give_counts_and_ranges(r: Report)
    ensures
        text::holds(r.failure_words(), text::decimal(r.missing as nat) + " missing"@),
        text::holds(r.failure_words(), text::decimal(r.short as nat) + " short"@),
        text::holds(r.failure_words(), range_list(r.failed_ranges@)),
{
    reveal_strlit(" missing, ");
    reveal_strlit(" missing");
    reveal_strlit(", ");
    reveal_strlit(" short file(s) in range(s) ");
    reveal_strlit(" short");
    reveal_strlit(" file(s) in range(s) ");
    let w = r.failure_words();
    let head = "destination check failed: "@;
    let m = text::decimal(r.missing as nat);
    let s = text::decimal(r.short as nat);
    let list = range_list(r.failed_ranges@);
    let end = " (see the VERIFY line and the re-run commands above)"@;
    let mid = " short file(s) in range(s) "@;
    assert(" missing, "@ =~= " missing"@ + ", "@);
    assert(mid =~= " short"@ + " file(s) in range(s) "@);
    assert(w =~= head + (m + " missing"@) + (", "@ + s + mid + list + end));
    text::texts_hold_what_is_inside(w, m + " missing"@, head, ", "@ + s + mid + list + end);
    assert(w =~= (head + m + " missing, "@) + (s + " short"@) + (" file(s) in range(s) "@ + list
        + end));
    text::texts_hold_what_is_inside(
        w,
        s + " short"@,
        head + m + " missing, "@,
        " file(s) in range(s) "@ + list + end,
    );
    assert(w =~= (head + m + " missing, "@ + s + mid) + list + end);
    text::texts_hold_what_is_inside(w, list, head + m + " missing, "@ + s + mid, end);
}

/// How many answers at the end repeat the one before them.
pub open spec fn repeats(answers: Seq<Seq<char>>) -> nat
    decreases answers.len(),
{
    if answers.len() < 2 || answers[answers.len() - 2] != answers.last() {
        0
    } else {
        1 + repeats(answers.drop_last())
    }
}

/// What was heard are these answers.
pub open spec fn heard(s: Settle, answers: Seq<Seq<char>>) -> bool {
    &&& s.last is Some <==> answers.len() > 0
    &&& answers.len() > 0 ==> s.last->0@ == answers.last()
    &&& s.quiet == repeats(answers)
}

/// The destination holds still exactly when three answers in a row are the
/// same; until then it is polled again for two minutes and listed anyway after
/// them. A destination that cannot be polled is listed at once.
pub proof fn three_same_answers_settle(
    s: Settle,
    answers: Seq<Seq<char>>,
    at: Seq<char>,
    elapsed_s: u64,
    step: SettleStep,
    next: Settle,
)
    requires
        s.wf(),
        heard(s, answers),
        s.hears(Some(at), elapsed_s, step, next),
    ensures
        heard(next, answers.push(at)),
        step == SettleStep::Settled <==> {
            let n = answers.len() as int;
            n >= 2 && answers[n - 1] == at && answers[n - 2] == at
        },
        step == SettleStep::Restless <==> step != SettleStep::Settled && elapsed_s >= 120,
        step == SettleStep::Wait <==> step != SettleStep::Settled && elapsed_s < 120,
{
    reveal_with_fuel(repeats, 3);
    let all = answers.push(at);
    assert(all.drop_last() =~= answers);
    if answers.len() > 0 {
        assert(all[all.len() - 2] == answers.last());
    }
}

/// A destination that cannot be polled is listed at once, whatever was heard.
pub proof fn unreadable_destinations_do_not_wait(
    s: Settle,
    elapsed_s: u64,
    step: SettleStep,
    next: Settle,
)
    requires
        s.hears(None, elapsed_s, step, next),
    ensures
        step == SettleStep::Unreadable,
        next == s,
{
}

/// A run looks up a thousand objects at most on the source, and polls the
/// destination every ten seconds, twelve times at most.
pub proof fn waits_and_lookups_are_bounded()
    ensures
        MAX_SOURCE_HEADS == 1000,
        SETTLE_POLL_S == 10,
        12 * SETTLE_POLL_S == SETTLE_MAX_S,
{
}

/// An object is read as it is: its key, its destination path and its size.
pub proof fn objects_are_read_as_they_are(objects: Seq<SourceObject>, i: int)
    requires
        0 <= i < objects.len(),
    ensures
        ({
            let views = objects.map_values(|o: SourceObject| object_view(o));
            &&& views.len() == objects.len()
            &&& views[i].0 == objects[i].key@
            &&& views[i].1 == objects[i].dest_path@
            &&& views[i].2 == objects[i].size
        }),
{
}

} // verus!
