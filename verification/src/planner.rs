//! The plan of a large copy: the keyspace cut into ranges, a copier for each.
use vstd::prelude::*;
use crate::jobs_client;
use crate::jobs_client::JobInfo;
use crate::listing;
use crate::listing::SMALL_FILE;
use crate::text;
use crate::verify::PlannedRange;

verus! {

/// Launches of one range's copier, the first one included.
pub const MAX_COPIER_ATTEMPTS: u32 = 3;

/// Files in flight for a range of mostly small files.
pub const PARALLEL_SMALL: usize = 128;

/// Files in flight for a range of mostly large files.
pub const PARALLEL_LARGE: usize = 32;

/// One planned range and the job that copies it.
#[derive(Debug, Clone, PartialEq, Eq)]
pub struct Copier {
    pub idx: u64,
    /// The bound before the range; `None` for the first range.
    pub start_after: Option<String>,
    /// The last key of the range.
    pub stop_at: String,
    pub files: u64,
    pub bytes: u64,
    /// Files in flight, by the range's share of small files.
    pub pf: usize,
    pub job_id: Option<String>,
    /// Launches so far.
    pub attempts: u32,
    /// The job's last known stage; empty before the first launch.
    pub stage: String,
}

/// What a range amounts to.
pub struct RangeView {
    pub start_after: Option<Seq<char>>,
    pub stop_at: Seq<char>,
    pub files: nat,
    pub bytes: u64,
    pub pf: usize,
}

/// The ranges closed so far, and the one being filled.
pub struct PlanView {
    pub ranges: Seq<RangeView>,
    pub start_after: Option<Seq<char>>,
    pub files: nat,
    pub bytes: u64,
    pub le16: nat,
}

/// When a range is full.
#[derive(Debug, Clone, Copy, PartialEq, Eq)]
pub struct RangeLimits {
    /// Bytes; 0 for no limit.
    pub bytes: u64,
    /// Keys; 0 for no limit.
    pub keys: u64,
}

impl RangeLimits {
    /// A range of that many bytes and files is full.
    pub open spec fn full(&self, bytes: u64, files: nat) -> bool {
        (self.bytes > 0 && bytes >= self.bytes) || (self.keys > 0 && files >= self.keys)
    }
}

/// The files in flight for a range with that many small files.
pub open spec fn parallel_files(le16: nat, files: nat) -> usize {
    if le16 * 2 >= if files > 1 {
        files
    } else {
        1
    } {
        PARALLEL_SMALL
    } else {
        PARALLEL_LARGE
    }
}

impl PlanView {
    /// Nothing listed yet.
    pub open spec fn start() -> PlanView {
        PlanView { ranges: Seq::empty(), start_after: None, files: 0, bytes: 0, le16: 0 }
    }

    /// The current range closed at `stop_at`.
    pub open spec fn cut(self, stop_at: Seq<char>) -> PlanView {
        PlanView {
            ranges: self.ranges.push(
                RangeView {
                    start_after: self.start_after,
                    stop_at,
                    files: self.files,
                    bytes: self.bytes,
                    pf: parallel_files(self.le16, self.files),
                },
            ),
            start_after: Some(stop_at),
            files: 0,
            bytes: 0,
            le16: 0,
        }
    }

    /// One object counted into the current range.
    pub open spec fn counted(self, size: u64) -> PlanView {
        PlanView {
            files: self.files + 1,
            bytes: listing::saturated(self.bytes as nat + size as nat),
            le16: if size <= SMALL_FILE {
                self.le16 + 1
            } else {
                self.le16
            },
            ..self
        }
    }

    /// The listing over: what is left over closed at the last key.
    pub open spec fn finished(self, last_key: Option<Seq<char>>) -> PlanView {
        if self.files > 0 && last_key is Some {
            self.cut(last_key->0)
        } else {
            self
        }
    }

    /// One object folded in; a range that is full with it is closed at it.
    pub open spec fn fed(self, key: Seq<char>, size: u64, limits: RangeLimits) -> PlanView {
        let next = self.counted(size);
        if limits.full(next.bytes, next.files) {
            next.cut(key)
        } else {
            next
        }
    }
}

/// The plan after the objects, in order.
pub open spec fn planned(items: Seq<(Seq<char>, u64)>, limits: RangeLimits) -> PlanView
    decreases items.len(),
{
    if items.len() == 0 {
        PlanView::start()
    } else {
        planned(items.drop_last(), limits).fed(items.last().0, items.last().1, limits)
    }
}

/// The complete plan: what is left over makes a last range, closed at the
/// last key.
pub open spec fn plan_of(items: Seq<(Seq<char>, u64)>, limits: RangeLimits) -> PlanView {
    planned(items, limits).finished(
        if items.len() > 0 {
            Some(items.last().0)
        } else {
            None
        },
    )
}

// ---------------------------------------------------------------------------
// The planner
// ---------------------------------------------------------------------------
/// What a copier's range amounts to.
pub open spec fn range_of(c: Copier) -> RangeView {
    RangeView {
        start_after: match c.start_after {
            Some(s) => Some(s@),
            None => None,
        },
        stop_at: c.stop_at@,
        files: c.files as nat,
        bytes: c.bytes,
        pf: c.pf,
    }
}

/// No job was launched for the range yet.
pub open spec fn is_new(c: Copier) -> bool {
    &&& c.attempts == 0
    &&& c.job_id is None
    &&& c.stage@.len() == 0
}

/// The job runs, as far as is known.
pub open spec fn is_active(c: Copier) -> bool {
    c.job_id is Some && !jobs_client::terminal(c.stage@)
}

/// The job failed and may be launched again.
pub open spec fn is_respawnable(c: Copier) -> bool {
    c.stage@ == "ERROR"@ && c.attempts < MAX_COPIER_ATTEMPTS
}

/// The range is not done with.
pub open spec fn is_pending(c: Copier) -> bool {
    !jobs_client::terminal(c.stage@) || is_respawnable(c)
}

/// The copy is complete.
pub open spec fn is_completed(c: Copier) -> bool {
    c.stage@ == "COMPLETED"@
}

/// The copy failed.
pub open spec fn is_failed(c: Copier) -> bool {
    c.stage@ == "ERROR"@
}

/// The copy was stopped from outside.
pub open spec fn is_canceled(c: Copier) -> bool {
    c.stage@ == "CANCELED"@ || c.stage@ == "DELETED"@
}

/// How many of the copiers satisfy `p`.
pub open spec fn number_of(copiers: Seq<Copier>, p: spec_fn(Copier) -> bool) -> nat {
    copiers.filter(p).len()
}

/// The places of the copiers that satisfy `p`, in order.
pub open spec fn lists_places(
    places: Seq<usize>,
    copiers: Seq<Copier>,
    p: spec_fn(Copier) -> bool,
) -> bool {
    &&& forall|a: int, b: int| 0 <= a < b < places.len() ==> places[a] < places[b]
    &&& forall|i: int|
        #![trigger copiers[i]]
        0 <= i < copiers.len() ==> (p(copiers[i]) <==> places.contains(i as usize))
    &&& forall|a: int| 0 <= a < places.len() ==> #[trigger] places[a] < copiers.len()
}

/// The copiers that may run at a time: a cap of zero counts as one.
pub open spec fn cap_of(max_inflight: usize) -> usize {
    if max_inflight > 1 {
        max_inflight
    } else {
        1
    }
}

/// The sums of files and bytes over the copiers.
pub open spec fn sums(copiers: Seq<Copier>) -> (nat, nat)
    decreases copiers.len(),
{
    if copiers.len() == 0 {
        (0, 0)
    } else {
        let before = sums(copiers.drop_last());
        (before.0 + copiers.last().files as nat, before.1 + copiers.last().bytes as nat)
    }
}

/// How the copies ended.
#[derive(Debug, Clone, Copy, PartialEq, Eq)]
pub struct PlanOutcome {
    pub ranges: u64,
    pub completed: u64,
    pub failed: u64,
    pub canceled: u64,
}

/// The ranges, the copiers, and the range being filled.
#[derive(Debug, Clone, PartialEq, Eq)]
pub struct Planner {
    pub limits: RangeLimits,
    /// Copiers that may run at a time.
    pub max_inflight: usize,
    pub copiers: Vec<Copier>,
    pub cur_start_after: Option<String>,
    pub cur_files: u64,
    pub cur_bytes: u64,
    pub cur_le16: u64,
}

impl View for Planner {
    type V = PlanView;

    open spec fn view(&self) -> PlanView {
        PlanView {
            ranges: self.copiers@.map_values(|c: Copier| range_of(c)),
            start_after: match self.cur_start_after {
                Some(s) => Some(s@),
                None => None,
            },
            files: self.cur_files as nat,
            bytes: self.cur_bytes,
            le16: self.cur_le16 as nat,
        }
    }
}

impl Planner {
    /// Copiers are numbered in order, and none is launched too often.
    pub open spec fn wf(&self) -> bool {
        &&& self.cur_le16 <= self.cur_files
        &&& forall|i: int|
            #![trigger self.copiers@[i]]
            0 <= i < self.copiers@.len() ==> self.copiers@[i].idx == i
                && self.copiers@[i].attempts <= MAX_COPIER_ATTEMPTS && (
            self.copiers@[i].job_id is Some <==> self.copiers@[i].attempts > 0)
    }

    /// A plan that was not begun.
    pub fn new(limits: RangeLimits, max_inflight: usize) -> (p: Self)
        ensures
            p.wf(),
            p@ == PlanView::start(),
            p.limits == limits,
            p.max_inflight == max_inflight,
            p.copiers@.len() == 0,
    {
        let p = Planner {
            limits,
            max_inflight,
            copiers: Vec::new(),
            cur_start_after: None,
            cur_files: 0,
            cur_bytes: 0,
            cur_le16: 0,
        };
        assert(p@.ranges =~= Seq::empty());
        p
    }

    /// Fold one listed object into the current range; a range that is full
    /// with it is closed at its key. Whether one was.
    pub fn add(&mut self, key: &str, size: u64) -> (closed: bool)
        requires
            old(self).wf(),
            old(self).cur_files < u64::MAX,
        ensures
            final(self).wf(),
            final(self)@ == old(self)@.fed(key@, size, old(self).limits),
            final(self).limits == old(self).limits,
            final(self).max_inflight == old(self).max_inflight,
            closed == old(self).limits.full(
                old(self)@.counted(size).bytes,
                old(self)@.counted(size).files,
            ),
            closed == ((old(self).limits.bytes > 0 && old(self).cur_bytes + size >= old(
                self,
            ).limits.bytes) || (old(self).limits.keys > 0 && old(self).cur_files + 1 >= old(
                self,
            ).limits.keys)),
            closed == (final(self).copiers@.len() == old(self).copiers@.len() + 1),
            !closed ==> final(self).copiers@ == old(self).copiers@,
            closed ==> final(self).copiers@.drop_last() == old(self).copiers@,
            closed ==> is_new(final(self).copiers@.last()),
    {
        self.cur_files = self.cur_files + 1;
        self.cur_bytes = self.cur_bytes.saturating_add(size);
        if size <= SMALL_FILE {
            self.cur_le16 = self.cur_le16 + 1;
        }
        let by_bytes = self.limits.bytes > 0 && self.cur_bytes >= self.limits.bytes;
        let by_keys = self.limits.keys > 0 && self.cur_files >= self.limits.keys;
        assert(self@ == old(self)@.counted(size));
        if by_bytes || by_keys {
            self.cut(key.to_owned());
            true
        } else {
            false
        }
    }

    /// Close the current range at `stop_at`; the next one starts after it. A
    /// majority of small files is copied with more files in flight.
    pub fn cut(&mut self, stop_at: String)
        requires
            old(self).wf(),
        ensures
            final(self).wf(),
            final(self)@ == old(self)@.cut(stop_at@),
            final(self).limits == old(self).limits,
            final(self).max_inflight == old(self).max_inflight,
            final(self).copiers@.len() == old(self).copiers@.len() + 1,
            final(self).copiers@.drop_last() == old(self).copiers@,
            is_new(final(self).copiers@.last()),
    {
        let least: u64 = if self.cur_files > 1 {
            self.cur_files
        } else {
            1
        };
        let pf: usize = if self.cur_le16 as u128 * 2 >= least as u128 {
            PARALLEL_SMALL
        } else {
            PARALLEL_LARGE
        };
        let ghost before = *self;
        let next = Some(stop_at.clone());
        let start_after = match &self.cur_start_after {
            Some(s) => Some(s.clone()),
            None => None,
        };
        let c = Copier {
            idx: self.copiers.len() as u64,
            start_after,
            stop_at,
            files: self.cur_files,
            bytes: self.cur_bytes,
            pf,
            job_id: None,
            attempts: 0,
            stage: String::new(),
        };
        self.copiers.push(c);
        self.cur_start_after = next;
        self.cur_files = 0;
        self.cur_bytes = 0;
        self.cur_le16 = 0;
        assert(self.copiers@.drop_last() =~= before.copiers@);
        assert(range_of(c).start_after == before@.start_after);
        assert(self@.ranges =~= before@.cut(stop_at@).ranges);
        assert(self@.start_after == Some(stop_at@));
        assert forall|i: int| 0 <= i < self.copiers@.len() implies (#[trigger] self.copiers@[i]).idx
            == i && self.copiers@[i].attempts <= MAX_COPIER_ATTEMPTS && (
        self.copiers@[i].job_id is Some <==> self.copiers@[i].attempts > 0) by {
            if i < before.copiers@.len() {
                assert(self.copiers@[i] == before.copiers@[i]);
            }
        }
    }

    /// The listing is over: what is left over makes a last range, closed at
    /// the last key. Whether there was any.
    pub fn finish(&mut self, last_key: Option<&str>) -> (closed: bool)
        requires
            old(self).wf(),
        ensures
            final(self).wf(),
            final(self)@ == old(self)@.finished(listing::str_or_none(last_key)),
            closed == (old(self).cur_files > 0 && last_key is Some),
            closed ==> final(self)@ == old(self)@.cut(last_key->0@),
            !closed ==> *final(self) == *old(self),
            final(self).limits == old(self).limits,
            final(self).max_inflight == old(self).max_inflight,
            closed ==> final(self).copiers@.drop_last() == old(self).copiers@,
            closed ==> is_new(final(self).copiers@.last()),
    {
        if self.cur_files > 0 {
            if let Some(stop) = last_key {
                self.cut(stop.to_owned());
                return true;
            }
        }
        false
    }

    /// The files and bytes of all ranges; `None` where a sum is too large.
    pub fn totals(&self) -> (r: Option<(u64, u64)>)
        ensures
            r is Some <==> sums(self.copiers@).0 <= u64::MAX && sums(self.copiers@).1 <= u64::MAX,
            r is Some ==> (r->0) == (sums(self.copiers@).0 as u64, sums(self.copiers@).1 as u64),
    {
        let mut files: u64 = 0;
        let mut bytes: u64 = 0;
        let mut i: usize = 0;
        while i < self.copiers.len()
            invariant
                0 <= i <= self.copiers@.len(),
                sums(self.copiers@.take(i as int)) == (files as nat, bytes as nat),
            decreases self.copiers@.len() - i,
        {
            proof {
                assert(self.copiers@.take(i + 1).drop_last() =~= self.copiers@.take(i as int));
                assert(self.copiers@.take(i + 1).last() == self.copiers@[i as int]);
                lemma_sums_grow(self.copiers@, i + 1);
            }
            match (
                files.checked_add(self.copiers[i].files),
                bytes.checked_add(self.copiers[i].bytes),
            ) {
                (Some(f), Some(b)) => {
                    files = f;
                    bytes = b;
                },
                _ => {
                    return None;
                },
            }
            i = i + 1;
        }
        assert(self.copiers@.take(self.copiers@.len() as int) =~= self.copiers@);
        Some((files, bytes))
    }
}

/// The ranges that are checked are those of the plan.
pub open spec fn are_those_of(ranges: Seq<PlannedRange>, plan: Seq<RangeView>) -> bool {
    &&& ranges.len() == plan.len()
    &&& forall|j: int| 0 <= j < plan.len() ==> #[trigger] is_that(ranges[j], plan[j])
}

/// The checked range is the planned one.
pub open spec fn is_that(r: PlannedRange, p: RangeView) -> bool {
    &&& r.stop_at is Some && r.stop_at->0@ == p.stop_at
    &&& r.start_after is Some <==> p.start_after is Some
    &&& r.start_after is Some ==> r.start_after->0@ == p.start_after->0
    &&& r.files == p.files
    &&& r.bytes == p.bytes
}

impl Planner {
    /// The ranges, as the destination check takes them.
    pub fn planned_ranges(&self) -> (r: Vec<PlannedRange>)
        ensures
            are_those_of(r@, self@.ranges),
    {
        let mut r: Vec<PlannedRange> = Vec::new();
        let mut i: usize = 0;
        while i < self.copiers.len()
            invariant
                0 <= i <= self.copiers@.len(),
                r@.len() == i,
                forall|j: int| 0 <= j < i ==> #[trigger] is_that(r@[j], self@.ranges[j]),
            decreases self.copiers@.len() - i,
        {
            let c: &Copier = &self.copiers[i];
            let start_after = match &c.start_after {
                Some(s) => Some(s.clone()),
                None => None,
            };
            let ghost was = r@;
            r.push(
                PlannedRange {
                    start_after,
                    stop_at: Some(c.stop_at.clone()),
                    files: c.files,
                    bytes: c.bytes,
                },
            );
            assert forall|j: int| 0 <= j < i + 1 implies #[trigger] is_that(
                r@[j],
                self@.ranges[j],
            ) by {
                if j < i {
                    assert(r@[j] == was[j]);
                } else {
                    assert(self@.ranges[j] == range_of(self.copiers@[j]));
                }
            }
            i = i + 1;
        }
        r
    }
}

/// The first copiers have no more files and bytes than all of them.
proof fn lemma_sums_grow(copiers: Seq<Copier>, i: int)
    requires
        0 <= i <= copiers.len(),
    ensures
        sums(copiers.take(i)).0 <= sums(copiers).0,
        sums(copiers.take(i)).1 <= sums(copiers).1,
    decreases copiers.len() - i,
{
    if i == copiers.len() {
        assert(copiers.take(i) =~= copiers);
    } else {
        lemma_sums_grow(copiers, i + 1);
        assert(copiers.take(i + 1).drop_last() =~= copiers.take(i));
    }
}

// ---------------------------------------------------------------------------
// The fleet
// ---------------------------------------------------------------------------
/// Only the copier at `at` differs.
pub open spec fn differ_at(before: Seq<Copier>, at: int, after: Seq<Copier>) -> bool {
    &&& after.len() == before.len()
    &&& forall|i: int| 0 <= i < before.len() && i != at ==> #[trigger] after[i] == before[i]
}

/// A poll of the copier at `at` was answered with `stage`; whether it has just
/// failed.
pub open spec fn polled(
    before: Seq<Copier>,
    at: int,
    stage: Option<Seq<char>>,
    after: Seq<Copier>,
    failed_now: bool,
) -> bool {
    let was = before[at];
    let is = after[at];
    &&& differ_at(before, at, after)
    &&& is.stage@ == match stage {
        Some(s) => s,
        None => was.stage@,
    }
    &&& is.job_id == was.job_id
    &&& is.attempts == was.attempts
    &&& is.idx == was.idx
    &&& failed_now == (stage is Some && stage->0 == "ERROR"@ && was.stage@ != "ERROR"@)
}

/// The copier at `at` was launched.
pub open spec fn is_launch(
    before: Seq<Copier>,
    at: int,
    job_id: String,
    stage: String,
    after: Seq<Copier>,
) -> bool {
    &&& differ_at(before, at, after)
    &&& after[at].job_id == Some(job_id)
    &&& after[at].stage == stage
    &&& after[at].attempts == before[at].attempts + 1
}

/// A launch uses up one of a copier's three attempts: a copier that fails
/// after it may be launched again exactly when fewer than three were, and no
/// other copier changes.
pub proof fn launches_use_up_attempts(
    before: Seq<Copier>,
    at: int,
    job_id: String,
    stage: String,
    after: Seq<Copier>,
    failed: Copier,
    i: int,
)
    requires
        0 <= at < before.len(),
        is_launch(before, at, job_id, stage, after),
        failed == (Copier { stage: failed.stage, ..after[at] }),
        failed.stage@ == "ERROR"@,
    ensures
        is_respawnable(failed) <==> before[at].attempts + 1 < 3,
        after[at].job_id == Some(job_id) && after[at].stage == stage,
        0 <= i < before.len() && i != at ==> after[i] == before[i],
        after.len() == before.len(),
{
}

/// A poll changes the stage of the copier it is about and nothing else; no
/// answer changes nothing; and a copier has just failed when it is in error now
/// and was not before.
pub proof fn polls_change_the_stage_alone(
    before: Seq<Copier>,
    at: int,
    stage: Option<Seq<char>>,
    after: Seq<Copier>,
    failed_now: bool,
    i: int,
)
    requires
        0 <= at < before.len(),
        polled(before, at, stage, after, failed_now),
    ensures
        stage is Some ==> after[at].stage@ == stage->0,
        stage is None ==> after[at].stage@ == before[at].stage@ && !failed_now,
        failed_now <==> after[at].stage@ == "ERROR"@ && before[at].stage@ != "ERROR"@,
        after[at].job_id == before[at].job_id,
        after[at].attempts == before[at].attempts,
        0 <= i < before.len() && i != at ==> after[i] == before[i],
        after.len() == before.len(),
{
}

/// Counting one more copier.
proof fn lemma_number_step(copiers: Seq<Copier>, p: spec_fn(Copier) -> bool, i: int)
    requires
        0 <= i < copiers.len(),
    ensures
        number_of(copiers.take(i + 1), p) == number_of(copiers.take(i), p) + (if p(copiers[i]) {
            1nat
        } else {
            0nat
        }),
        number_of(copiers.take(i), p) <= i,
{
    reveal(Seq::filter);
    assert(copiers.take(i + 1).drop_last() =~= copiers.take(i));
    assert(copiers.take(i + 1).last() == copiers[i]);
    copiers.take(i).lemma_filter_len(p);
}

/// Changing one copier changes the count by at most one.
proof fn lemma_number_update(
    copiers: Seq<Copier>,
    p: spec_fn(Copier) -> bool,
    at: int,
    c: Copier,
    n: int,
)
    requires
        0 <= at < copiers.len(),
        0 <= n <= copiers.len(),
    ensures
        number_of(copiers.update(at, c).take(n), p) == number_of(copiers.take(n), p) + (if at < n
            && p(c) && !p(copiers[at]) {
            1int
        } else if at < n && !p(c) && p(copiers[at]) {
            -1int
        } else {
            0int
        }),
    decreases n,
{
    let after = copiers.update(at, c);
    if n == 0 {
        assert(after.take(0) =~= copiers.take(0));
    } else {
        lemma_number_update(copiers, p, at, c, n - 1);
        lemma_number_step(copiers, p, n - 1);
        lemma_number_step(after, p, n - 1);
    }
}

/// Launching into a free slot keeps the cap: where fewer copiers than the cap
/// run, one launch leaves at most as many as the cap running.
pub proof fn launch_keeps_the_cap(copiers: Seq<Copier>, at: int, c: Copier, cap: nat)
    requires
        0 <= at < copiers.len(),
        number_of(copiers, |c: Copier| is_active(c)) < cap,
    ensures
        number_of(copiers.update(at, c), |c: Copier| is_active(c)) <= cap,
{
    let p = |c: Copier| is_active(c);
    let n = copiers.len() as int;
    lemma_number_update(copiers, p, at, c, n);
    assert(copiers.take(n) =~= copiers);
    assert(copiers.update(at, c).take(n) =~= copiers.update(at, c));
}

/// Nothing is pending exactly when every range is done with: completed,
/// canceled, deleted, or failed with its attempts spent.
pub proof fn nothing_pending_means_all_ended(copiers: Seq<Copier>)
    ensures
        number_of(copiers, |c: Copier| is_pending(c)) == 0 <==> forall|i: int|
            0 <= i < copiers.len() ==> jobs_client::terminal((#[trigger] copiers[i]).stage@)
                && !is_respawnable(copiers[i]),
{
    let p = |c: Copier| is_pending(c);
    lemma_none_of(copiers, p);
    if number_of(copiers, p) == 0 {
        assert forall|i: int| 0 <= i < copiers.len() implies jobs_client::terminal(
            (#[trigger] copiers[i]).stage@,
        ) && !is_respawnable(copiers[i]) by {
            assert(!p(copiers[i]));
        }
    } else {
        let i = choose|i: int| 0 <= i < copiers.len() && p(#[trigger] copiers[i]);
        assert(is_pending(copiers[i]));
    }
}

/// A count is zero exactly when no copier qualifies.
proof fn lemma_none_of(copiers: Seq<Copier>, p: spec_fn(Copier) -> bool)
    ensures
        number_of(copiers, p) == 0 <==> forall|i: int|
            0 <= i < copiers.len() ==> !p(#[trigger] copiers[i]),
    decreases copiers.len(),
{
    reveal(Seq::filter);
    if copiers.len() > 0 {
        let before = copiers.drop_last();
        lemma_none_of(before, p);
        if number_of(copiers, p) == 0 {
            assert forall|i: int| 0 <= i < copiers.len() implies !p(#[trigger] copiers[i]) by {
                if i < before.len() {
                    assert(!p(before[i]));
                }
            }
        } else if number_of(before, p) > 0 {
            let i = choose|i: int| 0 <= i < before.len() && p(#[trigger] before[i]);
            assert(p(copiers[i]));
        } else {
            assert(p(copiers[copiers.len() - 1]));
        }
    }
}

impl Planner {
    /// Launched copiers whose stage may still change.
    pub fn active(&self) -> (n: usize)
        ensures
            n == number_of(self.copiers@, |c: Copier| is_active(c)),
    {
        let ghost p = |c: Copier| is_active(c);
        let mut n: usize = 0;
        let mut i: usize = 0;
        proof {
            reveal(Seq::filter);
        }
        while i < self.copiers.len()
            invariant
                0 <= i <= self.copiers@.len(),
                n <= i,
                p == |c: Copier| is_active(c),
                n == number_of(self.copiers@.take(i as int), p),
            decreases self.copiers@.len() - i,
        {
            proof {
                lemma_number_step(self.copiers@, p, i as int);
            }
            if self.copiers[i].job_id.is_some() && !JobInfo::is_terminal(
                self.copiers[i].stage.as_str(),
            ) {
                n = n + 1;
            }
            i = i + 1;
        }
        assert(self.copiers@.take(self.copiers@.len() as int) =~= self.copiers@);
        n
    }

    /// Whether another copier may be launched: fewer than the cap run. A cap
    /// of zero counts as one.
    pub fn slot_free(&self) -> (r: bool)
        ensures
            r == (number_of(self.copiers@, |c: Copier| is_active(c)) < cap_of(self.max_inflight)),
    {
        let cap: usize = if self.max_inflight > 1 {
            self.max_inflight
        } else {
            1
        };
        self.active() < cap
    }

    /// The copiers to poll: those that are active.
    pub fn to_poll(&self) -> (places: Vec<usize>)
        ensures
            lists_places(places@, self.copiers@, |c: Copier| is_active(c)),
    {
        let ghost p = |c: Copier| is_active(c);
        let mut places: Vec<usize> = Vec::new();
        let mut i: usize = 0;
        assert(self.copiers@.take(0) =~= Seq::empty());
        while i < self.copiers.len()
            invariant
                0 <= i <= self.copiers@.len(),
                p == |c: Copier| is_active(c),
                lists_places(places@, self.copiers@.take(i as int), p),
            decreases self.copiers@.len() - i,
        {
            let ghost before = places@;
            let hit = self.copiers[i].job_id.is_some() && !JobInfo::is_terminal(
                self.copiers[i].stage.as_str(),
            );
            if hit {
                places.push(i);
            }
            proof {
                lemma_places_step(before, places@, self.copiers@, p, i);
            }
            i = i + 1;
        }
        assert(self.copiers@.take(self.copiers@.len() as int) =~= self.copiers@);
        places
    }

    /// The copiers to launch again: those that failed and have attempts left.
    pub fn to_respawn(&self) -> (places: Vec<usize>)
        ensures
            lists_places(places@, self.copiers@, |c: Copier| is_respawnable(c)),
    {
        let ghost p = |c: Copier| is_respawnable(c);
        let mut places: Vec<usize> = Vec::new();
        let mut i: usize = 0;
        assert(self.copiers@.take(0) =~= Seq::empty());
        while i < self.copiers.len()
            invariant
                0 <= i <= self.copiers@.len(),
                p == |c: Copier| is_respawnable(c),
                lists_places(places@, self.copiers@.take(i as int), p),
            decreases self.copiers@.len() - i,
        {
            let ghost before = places@;
            let hit = text::same(self.copiers[i].stage.as_str(), "ERROR")
                && self.copiers[i].attempts < MAX_COPIER_ATTEMPTS;
            if hit {
                places.push(i);
            }
            proof {
                lemma_places_step(before, places@, self.copiers@, p, i);
            }
            i = i + 1;
        }
        assert(self.copiers@.take(self.copiers@.len() as int) =~= self.copiers@);
        places
    }

    /// Take a poll's answer: a stage replaces the last known one, none leaves
    /// it. Whether the copier has just failed.
    pub fn record_stage(&mut self, at: usize, stage: Option<&str>) -> (failed_now: bool)
        requires
            old(self).wf(),
            at < old(self).copiers@.len(),
        ensures
            final(self).wf(),
            final(self)@ == old(self)@,
            final(self).limits == old(self).limits,
            final(self).max_inflight == old(self).max_inflight,
            polled(
                old(self).copiers@,
                at as int,
                listing::str_or_none(stage),
                final(self).copiers@,
                failed_now,
            ),
    {
        match stage {
            None => false,
            Some(s) => {
                let failed_now = text::same(s, "ERROR") && !text::same(
                    self.copiers[at].stage.as_str(),
                    "ERROR",
                );
                let ghost before = *self;
                self.copiers[at].stage = s.to_owned();
                assert(self@.ranges =~= before@.ranges);
                assert forall|i: int| 0 <= i < self.copiers@.len() implies (
                #[trigger] self.copiers@[i]).idx == i && self.copiers@[i].attempts
                    <= MAX_COPIER_ATTEMPTS && (self.copiers@[i].job_id is Some
                    <==> self.copiers@[i].attempts > 0) by {
                    assert(before.copiers@[i].idx == i);
                }
                failed_now
            },
        }
    }

    /// A copier was launched: it has one attempt more, a job, and the job's
    /// first stage. At most one more copier is active than before.
    pub fn launched(&mut self, at: usize, job_id: String, stage: String)
        requires
            old(self).wf(),
            at < old(self).copiers@.len(),
            old(self).copiers@[at as int].attempts < MAX_COPIER_ATTEMPTS,
        ensures
            final(self).wf(),
            final(self)@ == old(self)@,
            final(self).limits == old(self).limits,
            final(self).max_inflight == old(self).max_inflight,
            is_launch(old(self).copiers@, at as int, job_id, stage, final(self).copiers@),
            number_of(final(self).copiers@, |c: Copier| is_active(c)) <= number_of(
                old(self).copiers@,
                |c: Copier| is_active(c),
            ) + 1,
    {
        let ghost before = *self;
        let attempts: u32 = self.copiers[at].attempts + 1;
        self.copiers[at].attempts = attempts;
        self.copiers[at].job_id = Some(job_id);
        self.copiers[at].stage = stage;
        assert(self@.ranges =~= before@.ranges);
        proof {
            let p = |c: Copier| is_active(c);
            let n = before.copiers@.len() as int;
            assert(self.copiers@ =~= before.copiers@.update(at as int, self.copiers@[at as int]));
            lemma_number_update(before.copiers@, p, at as int, self.copiers@[at as int], n);
            assert(self.copiers@.take(n) =~= self.copiers@);
            assert(before.copiers@.take(n) =~= before.copiers@);
        }
        assert forall|i: int| 0 <= i < self.copiers@.len() implies (#[trigger] self.copiers@[i]).idx
            == i && self.copiers@[i].attempts <= MAX_COPIER_ATTEMPTS && (
        self.copiers@[i].job_id is Some <==> self.copiers@[i].attempts > 0) by {
            assert(before.copiers@[i].idx == i);
        }
    }

    /// Ranges not done with: running, or failed with attempts left.
    pub fn pending(&self) -> (n: usize)
        ensures
            n == number_of(self.copiers@, |c: Copier| is_pending(c)),
    {
        let ghost p = |c: Copier| is_pending(c);
        let mut n: usize = 0;
        let mut i: usize = 0;
        proof {
            reveal(Seq::filter);
        }
        while i < self.copiers.len()
            invariant
                0 <= i <= self.copiers@.len(),
                n <= i,
                p == |c: Copier| is_pending(c),
                n == number_of(self.copiers@.take(i as int), p),
            decreases self.copiers@.len() - i,
        {
            proof {
                lemma_number_step(self.copiers@, p, i as int);
            }
            if !JobInfo::is_terminal(self.copiers[i].stage.as_str()) || (text::same(
                self.copiers[i].stage.as_str(),
                "ERROR",
            ) && self.copiers[i].attempts < MAX_COPIER_ATTEMPTS) {
                n = n + 1;
            }
            i = i + 1;
        }
        assert(self.copiers@.take(self.copiers@.len() as int) =~= self.copiers@);
        n
    }

    /// How many copies ended in which way.
    pub fn outcome(&self) -> (r: PlanOutcome)
        ensures
            r.ranges == self.copiers@.len(),
            r.completed == number_of(self.copiers@, |c: Copier| is_completed(c)),
            r.failed == number_of(self.copiers@, |c: Copier| is_failed(c)),
            r.canceled == number_of(self.copiers@, |c: Copier| is_canceled(c)),
    {
        let ghost done = |c: Copier| is_completed(c);
        let ghost lost = |c: Copier| is_failed(c);
        let ghost gone = |c: Copier| is_canceled(c);
        let mut completed: u64 = 0;
        let mut failed: u64 = 0;
        let mut canceled: u64 = 0;
        let mut i: usize = 0;
        proof {
            reveal(Seq::filter);
        }
        while i < self.copiers.len()
            invariant
                0 <= i <= self.copiers@.len(),
                completed <= i,
                failed <= i,
                canceled <= i,
                done == |c: Copier| is_completed(c),
                lost == |c: Copier| is_failed(c),
                gone == |c: Copier| is_canceled(c),
                completed == number_of(self.copiers@.take(i as int), done),
                failed == number_of(self.copiers@.take(i as int), lost),
                canceled == number_of(self.copiers@.take(i as int), gone),
            decreases self.copiers@.len() - i,
        {
            proof {
                lemma_number_step(self.copiers@, done, i as int);
                lemma_number_step(self.copiers@, lost, i as int);
                lemma_number_step(self.copiers@, gone, i as int);
            }
            let stage: &str = self.copiers[i].stage.as_str();
            if text::same(stage, "COMPLETED") {
                completed = completed + 1;
            }
            if text::same(stage, "ERROR") {
                failed = failed + 1;
            }
            if text::same(stage, "CANCELED") || text::same(stage, "DELETED") {
                canceled = canceled + 1;
            }
            i = i + 1;
        }
        assert(self.copiers@.take(self.copiers@.len() as int) =~= self.copiers@);
        PlanOutcome { ranges: self.copiers.len() as u64, completed, failed, canceled }
    }
}

/// Listing one more place.
proof fn lemma_places_step(
    before: Seq<usize>,
    after: Seq<usize>,
    copiers: Seq<Copier>,
    p: spec_fn(Copier) -> bool,
    i: usize,
)
    requires
        0 <= i < copiers.len(),
        lists_places(before, copiers.take(i as int), p),
        after == if p(copiers[i as int]) {
            before.push(i)
        } else {
            before
        },
    ensures
        lists_places(after, copiers.take(i + 1), p),
{
    let now = copiers.take(i + 1);
    let was = copiers.take(i as int);
    assert forall|k: int|
        #![trigger now[k]]
        0 <= k < now.len() implies (p(now[k]) <==> after.contains(k as usize)) by {
        if k < i {
            assert(was[k] == now[k]);
            if before.contains(k as usize) {
                let a = choose|a: int| 0 <= a < before.len() && before[a] == k as usize;
                assert(after[a] == k as usize);
            }
            if after.contains(k as usize) {
                let a = choose|a: int| 0 <= a < after.len() && after[a] == k as usize;
                assert(a < before.len());
                assert(before[a] == k as usize);
            }
        } else {
            if p(now[k]) {
                assert(after[before.len() as int] == i);
            }
            if after.contains(k as usize) {
                let a = choose|a: int| 0 <= a < after.len() && after[a] == k as usize;
                if a < before.len() {
                    assert(before[a] < was.len());
                }
            }
        }
    }
    assert forall|a: int| 0 <= a < after.len() implies #[trigger] after[a] < now.len() by {
        if a < before.len() {
            assert(before[a] < was.len());
        }
    }
    assert forall|a: int, b: int| 0 <= a < b < after.len() implies after[a] < after[b] by {
        if b == before.len() {
            assert(before[a] < was.len());
        }
    }
}

impl PlanOutcome {
    /// The verdict `r` on the plan.
    pub open spec fn ruled(&self, r: Result<(), String>) -> bool {
        &&& r is Ok <==> self.failed == 0
        &&& r is Err ==> r->Err_0@ == text::decimal(self.failed as nat) + "/"@ + text::decimal(
            self.ranges as nat,
        ) + " copier(s) failed after "@ + text::decimal(MAX_COPIER_ATTEMPTS as nat)
            + " attempts"@
    }

    /// The plan succeeded unless a copier failed for good.
    pub fn verdict(&self) -> (r: Result<(), String>)
        ensures
            self.ruled(r),
    {
        if self.failed == 0 {
            return Ok(());
        }
        let mut r = text::decimal_text(self.failed);
        r.append("/");
        r.append(text::decimal_text(self.ranges).as_str());
        r.append(" copier(s) failed after ");
        r.append(text::decimal_text(MAX_COPIER_ATTEMPTS as u64).as_str());
        r.append(" attempts");
        Err(r)
    }
}

/// What a copier's stage means: it runs from its launch to one of the four
/// final stages; a failed one is launched again up to three times; and it is
/// done with once it is complete, canceled, deleted, or failed three times.
pub proof fn stages_rule_the_copiers(c: Copier)
    ensures
        ({
            let ended = c.stage@ == "COMPLETED"@ || c.stage@ == "CANCELED"@ || c.stage@
                == "DELETED"@;
            let failed = c.stage@ == "ERROR"@;
            &&& is_active(c) <==> c.job_id is Some && !ended && !failed
            &&& is_respawnable(c) <==> failed && c.attempts < 3
            &&& is_pending(c) <==> !ended && (failed ==> c.attempts < 3)
            &&& is_active(c) ==> is_pending(c) && !is_respawnable(c)
            &&& is_completed(c) || is_failed(c) || is_canceled(c) <==> ended || failed
            &&& is_completed(c) ==> !is_failed(c) && !is_canceled(c)
            &&& is_failed(c) ==> !is_canceled(c)
            &&& is_failed(c) <==> failed
            &&& is_completed(c) <==> c.stage@ == "COMPLETED"@
        }),
{
    reveal_strlit("COMPLETED");
    reveal_strlit("ERROR");
    reveal_strlit("CANCELED");
    reveal_strlit("DELETED");
    assert("COMPLETED"@.len() == 9 && "ERROR"@.len() == 5 && "CANCELED"@.len() == 8
        && "DELETED"@.len() == 7);
}

/// A copier more counts exactly when it qualifies.
pub proof fn copiers_are_counted(copiers: Seq<Copier>, p: spec_fn(Copier) -> bool, c: Copier)
    ensures
        number_of(Seq::empty(), p) == 0,
        p(c) ==> number_of(copiers.push(c), p) == number_of(copiers, p) + 1,
        !p(c) ==> number_of(copiers.push(c), p) == number_of(copiers, p),
{
    reveal(Seq::filter);
    assert(copiers.push(c).drop_last() =~= copiers);
}

/// Once every copy has ended, each is counted once: complete, failed or
/// canceled.
pub proof fn every_copy_ends_in_one_way(copiers: Seq<Copier>)
    requires
        forall|i: int|
            0 <= i < copiers.len() ==> jobs_client::terminal((#[trigger] copiers[i]).stage@),
    ensures
        number_of(copiers, |c: Copier| is_completed(c)) + number_of(
            copiers,
            |c: Copier| is_failed(c),
        ) + number_of(copiers, |c: Copier| is_canceled(c)) == copiers.len(),
    decreases copiers.len(),
{
    let done = |c: Copier| is_completed(c);
    let lost = |c: Copier| is_failed(c);
    let gone = |c: Copier| is_canceled(c);
    reveal(Seq::filter);
    if copiers.len() > 0 {
        let front = copiers.drop_last();
        let c = copiers.last();
        assert(copiers[copiers.len() - 1] == c);
        assert forall|i: int| 0 <= i < front.len() implies jobs_client::terminal(
            (#[trigger] front[i]).stage@,
        ) by {
            assert(copiers[i] == front[i]);
        }
        every_copy_ends_in_one_way(front);
        assert(front.push(c) =~= copiers);
        copiers_are_counted(front, done, c);
        copiers_are_counted(front, lost, c);
        copiers_are_counted(front, gone, c);
        stages_rule_the_copiers(c);
    }
}

/// A cap lets as many copiers run as it says, and one where it says none.
pub proof fn one_copier_may_always_run(max_inflight: usize)
    ensures
        max_inflight >= 1 ==> cap_of(max_inflight) == max_inflight,
        max_inflight == 0 ==> cap_of(max_inflight) == 1,
{
}

/// The totals of a plan are its ranges': one more adds its files and bytes.
pub proof fn totals_add_the_ranges(copiers: Seq<Copier>, c: Copier)
    ensures
        sums(Seq::empty()) == (0nat, 0nat),
        sums(copiers.push(c)).0 == sums(copiers).0 + c.files,
        sums(copiers.push(c)).1 == sums(copiers).1 + c.bytes,
{
    assert(copiers.push(c).drop_last() =~= copiers);
}

/// The ranges that are checked are the copiers': bound by bound, file by file
/// and byte by byte.
pub proof fn the_checked_ranges_are_the_copiers(
    ranges: Seq<PlannedRange>,
    copiers: Seq<Copier>,
    j: int,
)
    requires
        are_those_of(ranges, copiers.map_values(|c: Copier| range_of(c))),
        0 <= j < copiers.len(),
    ensures
        ranges.len() == copiers.len(),
        ranges[j].stop_at is Some,
        ranges[j].stop_at->0@ == copiers[j].stop_at@,
        ranges[j].start_after is Some <==> copiers[j].start_after is Some,
        ranges[j].start_after is Some ==> ranges[j].start_after->0@ == copiers[j].start_after->0@,
        ranges[j].files == copiers[j].files,
        ranges[j].bytes == copiers[j].bytes,
{
    let plan = copiers.map_values(|c: Copier| range_of(c));
    assert(is_that(ranges[j], plan[j]));
}

/// A new copier has no job, no stage and no attempt, so that it is pending and
/// not running.
pub proof fn new_copiers_wait(c: Copier)
    requires
        is_new(c),
    ensures
        c.job_id is None,
        c.attempts == 0,
        c.stage@.len() == 0,
        is_pending(c),
        !is_active(c),
{
    reveal_strlit("COMPLETED");
    reveal_strlit("ERROR");
    reveal_strlit("CANCELED");
    reveal_strlit("DELETED");
}

/// One failed copier fails the plan, whatever the others; the words begin with
/// how many failed of how many, after three attempts.
pub proof fn one_failed_copier_fails_the_plan(o: PlanOutcome, r: Result<(), String>)
    requires
        o.ruled(r),
    ensures
        r is Err <==> o.failed > 0,
        r is Err ==> ({
            let counts = text::decimal(o.failed as nat) + "/"@ + text::decimal(o.ranges as nat);
            r->Err_0@.take(counts.len() as int) == counts
        }),
        r is Err ==> text::holds(r->Err_0@, text::decimal(3) + " attempts"@),
{
    if r is Err {
        let counts = text::decimal(o.failed as nat) + "/"@ + text::decimal(o.ranges as nat);
        let mid = " copier(s) failed after "@;
        let end = text::decimal(3) + " attempts"@;
        let w = r->Err_0@;
        assert(w.take(counts.len() as int) =~= counts);
        assert(w =~= (counts + mid) + end + Seq::<char>::empty());
        text::texts_hold_what_is_inside(w, end, counts + mid, Seq::empty());
    }
}

/// The places listed are those of the copiers that qualify, each once and in
/// order.
pub proof fn the_qualifying_places_are_listed(
    places: Seq<usize>,
    copiers: Seq<Copier>,
    p: spec_fn(Copier) -> bool,
    i: usize,
)
    requires
        lists_places(places, copiers, p),
        i < copiers.len(),
    ensures
        p(copiers[i as int]) <==> exists|a: int|
            0 <= a < places.len() && #[trigger] places[a] == i,
        places.no_duplicates(),
        forall|a: int| 0 <= a < places.len() ==> #[trigger] places[a] < copiers.len(),
{
    assert(copiers[i as int] == copiers[i as int]);
    if places.contains(i) {
        let a = choose|a: int| 0 <= a < places.len() && places[a] == i;
        assert(places[a] == i);
    }
}

/// A plan's ranges are read off its copiers, one for one and field by field,
/// and the range being filled off the planner's own counts.
pub proof fn the_plan_is_read_off_the_copiers(p: Planner, i: int)
    requires
        0 <= i < p.copiers@.len(),
    ensures
        ({
            let c = p.copiers@[i];
            let r = p@.ranges[i];
            &&& p@.ranges.len() == p.copiers@.len()
            &&& r.stop_at == c.stop_at@
            &&& r.start_after is Some <==> c.start_after is Some
            &&& c.start_after is Some ==> r.start_after == Some(c.start_after->0@)
            &&& r.files == c.files
            &&& r.bytes == c.bytes
            &&& r.pf == c.pf
        }),
        p@.files == p.cur_files && p@.bytes == p.cur_bytes && p@.le16 == p.cur_le16,
        p@.start_after is Some <==> p.cur_start_after is Some,
        p.cur_start_after is Some ==> p@.start_after == Some(p.cur_start_after->0@),
{
}

} // verus!
