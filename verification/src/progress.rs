//! Live counters of a transfer, and the watchdog that names what stalls.
//!
//! Bytes are counted twice: as S3 delivers them and as the upload takes them,
//! so that a stall shows which side stands still. The clock is the caller's:
//! every reading is in milliseconds.
use vstd::prelude::*;

verus! {

/// What the uploading side is at.
#[derive(Debug, Clone, Copy, PartialEq, Eq, Structural)]
pub enum Phase {
    /// Waiting for the listing.
    Idle,
    /// Uploading files.
    Uploading,
    /// Flushing a session.
    Finalizing,
    /// Committing a batch.
    Committing,
}

impl Phase {
    /// The phase's number.
    pub open spec fn number(self) -> u8 {
        match self {
            Phase::Idle => 0,
            Phase::Uploading => 1,
            Phase::Finalizing => 2,
            Phase::Committing => 3,
        }
    }

    /// The phase of a number; any other number is idle.
    pub open spec fn of(v: u8) -> Phase {
        if v == 1 {
            Phase::Uploading
        } else if v == 2 {
            Phase::Finalizing
        } else if v == 3 {
            Phase::Committing
        } else {
            Phase::Idle
        }
    }

    /// The phase's number.
    pub fn as_u8(self) -> (r: u8)
        ensures
            r == self.number(),
    {
        match self {
            Phase::Idle => 0,
            Phase::Uploading => 1,
            Phase::Finalizing => 2,
            Phase::Committing => 3,
        }
    }

    /// The phase of a number.
    pub fn from_u8(v: u8) -> (p: Phase)
        ensures
            p == Phase::of(v),
    {
        match v {
            1 => Phase::Uploading,
            2 => Phase::Finalizing,
            3 => Phase::Committing,
            _ => Phase::Idle,
        }
    }

    /// The phase's name.
    pub open spec fn title(self) -> Seq<char> {
        match self {
            Phase::Idle => "idle"@,
            Phase::Uploading => "uploading"@,
            Phase::Finalizing => "finalizing"@,
            Phase::Committing => "committing"@,
        }
    }

    /// The phase's name.
    pub fn name(self) -> (r: &'static str)
        ensures
            r@ == self.title(),
    {
        match self {
            Phase::Idle => "idle",
            Phase::Uploading => "uploading",
            Phase::Finalizing => "finalizing",
            Phase::Committing => "committing",
        }
    }
}

/// A phase kept as its number is read back.
pub proof fn phases_read_back(p: Phase)
    ensures
        Phase::of(p.number()) == p,
{
}

/// One attempt at one file.
#[derive(Debug, Clone, PartialEq, Eq)]
pub struct InflightFile {
    pub key: String,
    pub size: u64,
    /// Bytes received from S3.
    pub read: u64,
    /// Bytes taken by the upload.
    pub ingested: u64,
    /// When a byte last moved, on either side.
    pub last_progress_ms: u64,
    pub started_ms: u64,
}

impl InflightFile {
    /// An attempt at the file that begins at `now`.
    pub open spec fn begins(&self, key: Seq<char>, size: u64, now: u64) -> bool {
        &&& self.key@ == key
        &&& self.size == size
        &&& self.read == 0 && self.ingested == 0
        &&& self.last_progress_ms == now && self.started_ms == now
    }
}

/// A file in flight, and how long it has stood still.
#[derive(Debug, Clone, PartialEq, Eq)]
pub struct StalledFile {
    pub key: String,
    pub size: u64,
    pub read: u64,
    pub ingested: u64,
    /// Seconds since a byte last moved.
    pub idle_s: u64,
    /// Seconds since the attempt began.
    pub age_s: u64,
}

/// The registration of one attempt.
#[derive(Debug, Clone, Copy, PartialEq, Eq)]
pub struct InflightGuard {
    pub id: u64,
}

impl InflightGuard {
    /// The number under which the file is tracked.
    pub fn file(&self) -> (id: u64)
        ensures
            id == self.id,
    {
        self.id
    }
}

/// The counters of a transfer.
#[derive(Debug, Clone, PartialEq, Eq)]
pub struct Metrics {
    /// The clock when counting began.
    pub started_ms: u64,
    /// Bytes received from S3; what a retry reads counts again.
    pub s3_bytes: u64,
    /// Bytes taken by the upload.
    pub hf_bytes: u64,
    /// Files uploaded.
    pub files_done: u64,
    /// Files kept by the listing so far.
    pub kept_total: u64,
    /// Ranged reads that failed and were retried.
    pub s3_part_retries: u64,
    /// Files that failed and were retried.
    pub file_retries: u64,
    /// The phase's number.
    pub phase: u8,
    /// When the phase began.
    pub phase_since_ms: u64,
    /// The attempts under way, by number.
    pub inflight: Vec<(u64, InflightFile)>,
    /// The next attempt's number.
    pub next_id: u64,
}

/// `a - b`, or 0.
pub open spec fn less(a: u64, b: u64) -> u64 {
    if a > b {
        (a - b) as u64
    } else {
        0
    }
}

/// `a + b`, wrapping around as counters do.
pub open spec fn wrapped(a: u64, b: u64) -> u64 {
    ((a + b) % 0x1_0000_0000_0000_0000) as u64
}

/// The attempts but for that of one number, in order.
pub open spec fn without(inflight: Seq<(u64, InflightFile)>, id: u64) -> Seq<
    (u64, InflightFile),
> {
    inflight.filter(|e: (u64, InflightFile)| e.0 != id)
}

/// Some attempt has that number.
pub open spec fn tracked_as(inflight: Seq<(u64, InflightFile)>, id: u64) -> bool {
    exists|i: int| 0 <= i < inflight.len() && (#[trigger] inflight[i]).0 == id
}

impl Metrics {
    /// The attempts have ascending numbers, all given out before.
    pub open spec fn wf(&self) -> bool {
        &&& forall|i: int, j: int|
            0 <= i < j < self.inflight@.len() ==> (#[trigger] self.inflight@[i]).0 < (
            #[trigger] self.inflight@[j]).0
        &&& forall|i: int|
            0 <= i < self.inflight@.len() ==> (#[trigger] self.inflight@[i]).0 < self.next_id
    }

    /// Counting begins.
    pub fn new(clock_ms: u64) -> (m: Self)
        ensures
            m.wf(),
            m == (Metrics {
                started_ms: clock_ms,
                s3_bytes: 0,
                hf_bytes: 0,
                files_done: 0,
                kept_total: 0,
                s3_part_retries: 0,
                file_retries: 0,
                phase: 0,
                phase_since_ms: 0,
                inflight: m.inflight,
                next_id: 0,
            }),
            m.inflight@.len() == 0,
    {
        Metrics {
            started_ms: clock_ms,
            s3_bytes: 0,
            hf_bytes: 0,
            files_done: 0,
            kept_total: 0,
            s3_part_retries: 0,
            file_retries: 0,
            phase: 0,
            phase_since_ms: 0,
            inflight: Vec::new(),
            next_id: 0,
        }
    }

    /// Milliseconds since counting began.
    pub fn elapsed(&self, clock_ms: u64) -> (r: u64)
        ensures
            r == less(clock_ms, self.started_ms),
    {
        clock_ms.saturating_sub(self.started_ms)
    }

    /// Enter a phase.
    pub fn set_phase(&mut self, p: Phase, clock_ms: u64)
        ensures
            old(self).enters(p, clock_ms, *final(self)),
    {
        self.phase = p.as_u8();
        self.phase_since_ms = self.elapsed(clock_ms);
    }

    /// The current phase.
    pub fn phase(&self) -> (p: Phase)
        ensures
            p == Phase::of(self.phase),
    {
        Phase::from_u8(self.phase)
    }

    /// Seconds in the current phase.
    pub open spec fn phase_age(&self, clock_ms: u64) -> u64 {
        less(less(clock_ms, self.started_ms), self.phase_since_ms) / 1000
    }

    /// `next` has entered a phase.
    pub open spec fn enters(&self, p: Phase, clock_ms: u64, next: Metrics) -> bool {
        next == (Metrics {
            phase: p.number(),
            phase_since_ms: less(clock_ms, self.started_ms),
            ..*self
        })
    }

    /// Seconds in the current phase.
    pub fn phase_age_s(&self, clock_ms: u64) -> (r: u64)
        ensures
            r == self.phase_age(clock_ms),
    {
        self.elapsed(clock_ms).saturating_sub(self.phase_since_ms) / 1000
    }

    /// `next` has one attempt more, the last, under the next number.
    pub open spec fn registers(&self, next: Metrics) -> bool {
        &&& next == (Metrics { inflight: next.inflight, next_id: next.next_id, ..*self })
        &&& next.next_id == self.next_id + 1
        &&& next.inflight@.len() == self.inflight@.len() + 1
        &&& next.inflight@.drop_last() == self.inflight@
        &&& next.inflight@.last().0 == self.next_id
    }

    /// `next` has not the attempt of that number, and the others as before.
    pub open spec fn forgets(&self, id: u64, next: Metrics) -> bool {
        &&& next == (Metrics { inflight: next.inflight, ..*self })
        &&& next.inflight@ == without(self.inflight@, id)
    }

    /// Register one attempt at a file.
    pub fn track(&mut self, key: &str, size: u64, clock_ms: u64) -> (g: InflightGuard)
        requires
            old(self).wf(),
            old(self).next_id < u64::MAX,
        ensures
            final(self).wf(),
            g.id == old(self).next_id,
            old(self).registers(*final(self)),
            final(self).inflight@.last().1.begins(key@, size, less(clock_ms, old(self).started_ms)),
    {
        let now: u64 = self.elapsed(clock_ms);
        let id: u64 = self.next_id;
        let ghost before = self.inflight@;
        self.next_id = id + 1;
        self.inflight.push(
            (
                id,
                InflightFile {
                    key: key.to_owned(),
                    size,
                    read: 0,
                    ingested: 0,
                    last_progress_ms: now,
                    started_ms: now,
                },
            ),
        );
        assert(self.inflight@.drop_last() =~= before);
        InflightGuard { id }
    }

    /// The place of an attempt among those under way; their number where it is
    /// not under way.
    fn place_of(&self, id: u64) -> (at: usize)
        ensures
            at <= self.inflight@.len(),
            at < self.inflight@.len() ==> self.inflight@[at as int].0 == id,
            at == self.inflight@.len() ==> !tracked_as(self.inflight@, id),
    {
        let mut i: usize = 0;
        while i < self.inflight.len()
            invariant
                0 <= i <= self.inflight@.len(),
                forall|j: int| 0 <= j < i ==> (#[trigger] self.inflight@[j]).0 != id,
            decreases self.inflight@.len() - i,
        {
            if self.inflight[i].0 == id {
                return i;
            }
            i = i + 1;
        }
        i
    }

    /// The attempt is over, in whichever way.
    pub fn untrack(&mut self, id: u64)
        requires
            old(self).wf(),
        ensures
            final(self).wf(),
            !tracked_as(final(self).inflight@, id),
            forall|other: u64|
                other != id ==> (#[trigger] tracked_as(final(self).inflight@, other) <==> tracked_as(
                    old(self).inflight@,
                    other,
                )),
            old(self).forgets(id, *final(self)),
    {
        let at: usize = self.place_of(id);
        proof {
            lemma_without(self.inflight@, id, at as int);
            untracking_removes_one(self.inflight@, id);
        }
        if at < self.inflight.len() {
            let _gone = self.inflight.remove(at);
        }
    }

    /// The counters after `len` bytes moved on one side of an attempt: the
    /// total, and, where the attempt is under way, its own count and clock.
    pub open spec fn credits(&self, next: Metrics, id: u64, len: u64, now: u64, from_s3: bool) -> bool {
        &&& next == (Metrics {
            s3_bytes: if from_s3 {
                wrapped(self.s3_bytes, len)
            } else {
                self.s3_bytes
            },
            hf_bytes: if from_s3 {
                self.hf_bytes
            } else {
                wrapped(self.hf_bytes, len)
            },
            inflight: next.inflight,
            ..*self
        })
        &&& next.inflight@.len() == self.inflight@.len()
        &&& forall|i: int|
            #![trigger next.inflight@[i]]
            0 <= i < self.inflight@.len() ==> next.inflight@[i] == if self.inflight@[i].0 != id {
                self.inflight@[i]
            } else {
                (
                    id,
                    InflightFile {
                        read: if from_s3 {
                            wrapped(self.inflight@[i].1.read, len)
                        } else {
                            self.inflight@[i].1.read
                        },
                        ingested: if from_s3 {
                            self.inflight@[i].1.ingested
                        } else {
                            wrapped(self.inflight@[i].1.ingested, len)
                        },
                        last_progress_ms: now,
                        ..self.inflight@[i].1
                    },
                )
            }
    }

    /// `len` bytes came from S3 for an attempt.
    pub fn on_s3_chunk(&mut self, id: u64, len: u64, clock_ms: u64)
        requires
            old(self).wf(),
        ensures
            final(self).wf(),
            old(self).credits(*final(self), id, len, less(clock_ms, old(self).started_ms), true),
    {
        let now: u64 = self.elapsed(clock_ms);
        let ghost before = *self;
        self.s3_bytes = self.s3_bytes.wrapping_add(len);
        let at: usize = self.place_of(id);
        if at < self.inflight.len() {
            let read: u64 = self.inflight[at].1.read.wrapping_add(len);
            self.inflight[at].1.read = read;
            self.inflight[at].1.last_progress_ms = now;
        }
        assert(before.credits(*self, id, len, now, true));
    }

    /// The upload took `len` bytes of an attempt.
    pub fn on_ingest(&mut self, id: u64, len: u64, clock_ms: u64)
        requires
            old(self).wf(),
        ensures
            final(self).wf(),
            old(self).credits(*final(self), id, len, less(clock_ms, old(self).started_ms), false),
    {
        let now: u64 = self.elapsed(clock_ms);
        let ghost before = *self;
        self.hf_bytes = self.hf_bytes.wrapping_add(len);
        let at: usize = self.place_of(id);
        if at < self.inflight.len() {
            let ingested: u64 = self.inflight[at].1.ingested.wrapping_add(len);
            self.inflight[at].1.ingested = ingested;
            self.inflight[at].1.last_progress_ms = now;
        }
        assert(before.credits(*self, id, len, now, false));
    }

    /// The attempts under way.
    pub fn inflight_len(&self) -> (n: usize)
        ensures
            n == self.inflight@.len(),
    {
        self.inflight.len()
    }
}

/// Untracking takes out the attempt of that number, where there is one, and no
/// other.
pub proof fn untracking_removes_one(all: Seq<(u64, InflightFile)>, id: u64)
    requires
        forall|i: int, j: int|
            0 <= i < j < all.len() ==> (#[trigger] all[i]).0 < (#[trigger] all[j]).0,
    ensures
        ({
            let rest = without(all, id);
            &&& rest.len() == all.len() - if tracked_as(all, id) {
                1int
            } else {
                0int
            }
            &&& !tracked_as(rest, id)
            &&& forall|other: u64|
                other != id ==> (#[trigger] tracked_as(rest, other) <==> tracked_as(all, other))
            &&& forall|i: int, j: int|
                0 <= i < j < rest.len() ==> (#[trigger] rest[i]).0 < (#[trigger] rest[j]).0
            &&& forall|i: int|
                0 <= i < rest.len() ==> all.contains(#[trigger] rest[i])
        }),
{
    let rest = without(all, id);
    let at = if tracked_as(all, id) {
        choose|i: int| 0 <= i < all.len() && (#[trigger] all[i]).0 == id
    } else {
        all.len() as int
    };
    lemma_without(all, id, at);
    let moved = |i: int| if i < at {
        i
    } else {
        i + 1
    };
    assert forall|i: int| 0 <= i < rest.len() implies #[trigger] rest[i] == all[moved(i)] by {}
    assert forall|i: int| 0 <= i < rest.len() implies all.contains(#[trigger] rest[i]) by {
        assert(rest[i] == all[moved(i)]);
    }
    assert forall|i: int, j: int| 0 <= i < j < rest.len() implies (#[trigger] rest[i]).0 < (
    #[trigger] rest[j]).0 by {
        assert(all[moved(i)].0 < all[moved(j)].0);
    }
    assert forall|other: u64| other != id implies (#[trigger] tracked_as(rest, other)
        <==> tracked_as(all, other)) by {
        if tracked_as(rest, other) {
            let i = choose|i: int| 0 <= i < rest.len() && (#[trigger] rest[i]).0 == other;
            assert(all[moved(i)].0 == other);
        }
        if tracked_as(all, other) {
            let i = choose|i: int| 0 <= i < all.len() && (#[trigger] all[i]).0 == other;
            if i < at {
                assert(rest[i].0 == other);
            } else {
                assert(rest[i - 1].0 == other);
            }
        }
    }
    if tracked_as(rest, id) {
        let i = choose|i: int| 0 <= i < rest.len() && (#[trigger] rest[i]).0 == id;
        assert(all[moved(i)].0 == id);
        assert(all[at].0 == id);
    }
}

/// Without one number, the others stay in their order.
proof fn lemma_without(all: Seq<(u64, InflightFile)>, id: u64, at: int)
    requires
        0 <= at <= all.len(),
        at < all.len() ==> all[at].0 == id,
        at == all.len() ==> !tracked_as(all, id),
        forall|i: int, j: int|
            0 <= i < j < all.len() ==> (#[trigger] all[i]).0 < (#[trigger] all[j]).0,
    ensures
        without(all, id) == if at < all.len() {
            all.remove(at)
        } else {
            all
        },
    decreases all.len(),
{
    reveal(Seq::filter);
    if all.len() > 0 {
        let front = all.drop_last();
        if at == all.len() - 1 {
            if tracked_as(front, id) {
                let i = choose|i: int| 0 <= i < front.len() && (#[trigger] front[i]).0 == id;
                assert(all[i].0 == id && all[at].0 == id);
            }
            lemma_without(front, id, front.len() as int);
            assert(all.remove(at) =~= front);
        } else if at < all.len() {
            lemma_without(front, id, at);
            assert(all[at].0 < all[all.len() - 1].0);
            assert(all.remove(at) =~= front.remove(at).push(all.last()));
        } else {
            assert(all[all.len() - 1].0 != id);
            if tracked_as(front, id) {
                let i = choose|i: int| 0 <= i < front.len() && (#[trigger] front[i]).0 == id;
                assert(all[i].0 == id);
            }
            lemma_without(front, id, front.len() as int);
            assert(all =~= front.push(all.last()));
        }
    }
}

// ---------------------------------------------------------------------------
// Stalls
// ---------------------------------------------------------------------------
/// A file in flight as seen at `now`.
pub open spec fn seen_at(f: InflightFile, now: u64) -> StalledFile {
    StalledFile {
        key: f.key,
        size: f.size,
        read: f.read,
        ingested: f.ingested,
        idle_s: less(now, f.last_progress_ms) / 1000,
        age_s: less(now, f.started_ms) / 1000,
    }
}

/// How many at the front have stood still at least as long as `f`.
pub open spec fn rank(ranked: Seq<StalledFile>, f: StalledFile) -> int
    decreases ranked.len(),
{
    if ranked.len() == 0 || ranked[0].idle_s < f.idle_s {
        0
    } else {
        1 + rank(ranked.drop_first(), f)
    }
}

/// The files by how long they have stood still, the longest first; of equals,
/// the one that began first.
pub open spec fn by_idleness(files: Seq<StalledFile>) -> Seq<StalledFile>
    decreases files.len(),
{
    if files.len() == 0 {
        Seq::empty()
    } else {
        let before = by_idleness(files.drop_last());
        before.insert(rank(before, files.last()), files.last())
    }
}

/// The files in flight as seen at `now`.
pub open spec fn all_seen(inflight: Seq<(u64, InflightFile)>, now: u64) -> Seq<StalledFile> {
    inflight.map_values(|e: (u64, InflightFile)| seen_at(e.1, now))
}

/// The first `max` of the files.
pub open spec fn first_of(files: Seq<StalledFile>, max: usize) -> Seq<StalledFile> {
    if files.len() <= max {
        files
    } else {
        files.take(max as int)
    }
}

/// A rank is a place.
proof fn lemma_rank(ranked: Seq<StalledFile>, f: StalledFile)
    ensures
        0 <= rank(ranked, f) <= ranked.len(),
        forall|i: int| 0 <= i < rank(ranked, f) ==> (#[trigger] ranked[i]).idle_s >= f.idle_s,
        rank(ranked, f) < ranked.len() ==> ranked[rank(ranked, f)].idle_s < f.idle_s,
    decreases ranked.len(),
{
    if ranked.len() > 0 && ranked[0].idle_s >= f.idle_s {
        let rest = ranked.drop_first();
        lemma_rank(rest, f);
        let n = rank(rest, f);
        assert forall|i: int| 0 <= i < rank(ranked, f) implies (#[trigger] ranked[i]).idle_s
            >= f.idle_s by {
            if i > 0 {
                assert(ranked[i] == rest[i - 1]);
            }
        }
        if n < rest.len() {
            assert(ranked[n + 1] == rest[n]);
        }
    }
}

/// The place of a file among ranked ones.
fn rank_of(ranked: &Vec<StalledFile>, idle_s: u64, Ghost(f): Ghost<StalledFile>) -> (at: usize)
    requires
        f.idle_s == idle_s,
    ensures
        at == rank(ranked@, f),
        at <= ranked@.len(),
{
    let mut i: usize = 0;
    assert(ranked@.skip(0) =~= ranked@);
    while i < ranked.len() && ranked[i].idle_s >= idle_s
        invariant
            0 <= i <= ranked@.len(),
            f.idle_s == idle_s,
            rank(ranked@, f) == i + rank(ranked@.skip(i as int), f),
        decreases ranked@.len() - i,
    {
        assert(ranked@.skip(i as int)[0] == ranked@[i as int]);
        assert(ranked@.skip(i as int).drop_first() =~= ranked@.skip(i + 1));
        i = i + 1;
    }
    proof {
        if i < ranked@.len() {
            assert(ranked@.skip(i as int)[0] == ranked@[i as int]);
        }
    }
    i
}

impl Metrics {
    /// The `max` files in flight that have gone longest without moving a byte,
    /// the longest first.
    pub fn stalled_files(&self, max: usize, clock_ms: u64) -> (r: Vec<StalledFile>)
        ensures
            r@ == first_of(
                by_idleness(all_seen(self.inflight@, less(clock_ms, self.started_ms))),
                max,
            ),
    {
        let now: u64 = self.elapsed(clock_ms);
        let ghost all = all_seen(self.inflight@, now);
        let mut ranked: Vec<StalledFile> = Vec::new();
        let mut i: usize = 0;
        while i < self.inflight.len()
            invariant
                0 <= i <= self.inflight@.len(),
                all == all_seen(self.inflight@, now),
                ranked@ == by_idleness(all.take(i as int)),
            decreases self.inflight@.len() - i,
        {
            let e: &InflightFile = &self.inflight[i].1;
            let f = StalledFile {
                key: e.key.clone(),
                size: e.size,
                read: e.read,
                ingested: e.ingested,
                idle_s: now.saturating_sub(e.last_progress_ms) / 1000,
                age_s: now.saturating_sub(e.started_ms) / 1000,
            };
            assert(f == all[i as int]);
            assert(all.take(i + 1).drop_last() =~= all.take(i as int));
            assert(all.take(i + 1).last() == f);
            let at: usize = rank_of(&ranked, f.idle_s, Ghost(f));
            ranked.insert(at, f);
            i = i + 1;
        }
        assert(all.take(all.len() as int) =~= all);
        if ranked.len() > max {
            ranked.truncate(max);
            assert(ranked@ =~= by_idleness(all).take(max as int));
        }
        ranked
    }
}

/// Ranking keeps every file, and orders them: none is followed by one that
/// has stood still longer.
pub proof fn ranking_orders_every_file(files: Seq<StalledFile>)
    ensures
        by_idleness(files).to_multiset() == files.to_multiset(),
        by_idleness(files).len() == files.len(),
        forall|i: int, j: int|
            0 <= i < j < files.len() ==> (#[trigger] by_idleness(files)[i]).idle_s >= (
            #[trigger] by_idleness(files)[j]).idle_s,
    decreases files.len(),
{
    broadcast use vstd::seq_lib::group_to_multiset_ensures;

    if files.len() > 0 {
        let front = files.drop_last();
        let f = files.last();
        ranking_orders_every_file(front);
        let before = by_idleness(front);
        let at = rank(before, f);
        lemma_rank(before, f);
        let ranked = before.insert(at, f);
        assert(files =~= front.push(f));
        assert(ranked.to_multiset() == before.to_multiset().insert(f));
        assert forall|i: int, j: int| 0 <= i < j < files.len() implies (#[trigger] ranked[i]).idle_s
            >= (#[trigger] ranked[j]).idle_s by {
            let oi = if i < at {
                i
            } else {
                i - 1
            };
            let oj = if j < at {
                j
            } else {
                j - 1
            };
            if i != at && j != at {
                assert(before[oi].idle_s >= before[oj].idle_s);
            } else if j == at {
                assert(before[i].idle_s >= f.idle_s);
            } else {
                assert(before[at].idle_s < f.idle_s);
                if oj > at {
                    assert(before[at].idle_s >= before[oj].idle_s);
                }
            }
        }
    } else {
        assert(by_idleness(files) =~= files);
    }
}

/// Flat ticks before the watchdog first speaks.
pub const STALL_TICKS: u32 = 4;

/// Flat ticks between the times it speaks.
pub const STALL_RELOG_TICKS: u32 = 6;

/// Seconds between ticks.
pub const TICK_S: u64 = 5;

/// What stands still.
#[derive(Debug, Clone, Copy, PartialEq, Eq, Structural)]
pub enum Stall {
    /// The flush of a session.
    Finalizing,
    /// The commit of a batch.
    Committing,
    /// The files in flight.
    Files,
}

/// The watchdog's memory of the last tick.
#[derive(Debug, Clone, Copy, PartialEq, Eq)]
pub struct Watchdog {
    pub last_s3: u64,
    pub last_hf: u64,
    /// Ticks in a row without a byte moving while there was work.
    pub flat_ticks: u32,
}

/// What stands still in a phase.
pub open spec fn stall_in(phase: Phase) -> Stall {
    match phase {
        Phase::Finalizing => Stall::Finalizing,
        Phase::Committing => Stall::Committing,
        Phase::Uploading | Phase::Idle => Stall::Files,
    }
}

/// The watchdog speaks after that many flat ticks.
pub open spec fn speaks(flat_ticks: int) -> bool {
    flat_ticks >= STALL_TICKS && (flat_ticks - STALL_TICKS) % (STALL_RELOG_TICKS as int) == 0
}

impl Watchdog {
    /// No tick yet.
    pub fn new() -> (w: Self)
        ensures
            w == (Watchdog { last_s3: 0, last_hf: 0, flat_ticks: 0 }),
    {
        Watchdog { last_s3: 0, last_hf: 0, flat_ticks: 0 }
    }

    /// Both counters stand where they stood, with work in flight.
    pub open spec fn flat(&self, s3: u64, hf: u64, inflight: usize, phase: Phase) -> bool {
        &&& s3 == self.last_s3
        &&& hf == self.last_hf
        &&& inflight > 0 || phase != Phase::Idle
    }

    /// One tick leads to `r`, and `next` remembers it.
    pub open spec fn ticks(
        &self,
        s3: u64,
        hf: u64,
        inflight: usize,
        phase: Phase,
        r: Option<(Stall, u64)>,
        next: Watchdog,
    ) -> bool {
        &&& next.last_s3 == s3
        &&& next.last_hf == hf
        &&& next.flat_ticks == if self.flat(s3, hf, inflight, phase) {
            (self.flat_ticks + 1) as u32
        } else {
            0
        }
        &&& r == if speaks(next.flat_ticks as int) {
            Some((stall_in(phase), (next.flat_ticks * TICK_S) as u64))
        } else {
            None
        }
    }

    /// One tick: what stands still and for how many seconds, where that is to
    /// be said.
    pub fn observe(&mut self, s3: u64, hf: u64, inflight: usize, phase: Phase) -> (r: Option<
        (Stall, u64),
    >)
        requires
            old(self).flat_ticks < u32::MAX,
        ensures
            old(self).ticks(s3, hf, inflight, phase, r, *final(self)),
    {
        let working = inflight > 0 || phase != Phase::Idle;
        if s3 == self.last_s3 && hf == self.last_hf && working {
            self.flat_ticks = self.flat_ticks + 1;
        } else {
            self.flat_ticks = 0;
        }
        self.last_s3 = s3;
        self.last_hf = hf;
        if self.flat_ticks >= STALL_TICKS && (self.flat_ticks - STALL_TICKS) % STALL_RELOG_TICKS
            == 0 {
            let secs: u64 = self.flat_ticks as u64 * TICK_S;
            match phase {
                Phase::Finalizing => Some((Stall::Finalizing, secs)),
                Phase::Committing => Some((Stall::Committing, secs)),
                Phase::Uploading => Some((Stall::Files, secs)),
                Phase::Idle => Some((Stall::Files, secs)),
            }
        } else {
            None
        }
    }
}

/// The watchdog first speaks after twenty seconds without a byte, then every
/// thirty, and never while bytes move.
pub proof fn watchdog_speaks_in_time(flat_ticks: int)
    requires
        flat_ticks >= 0,
    ensures
        flat_ticks * TICK_S < 20 ==> !speaks(flat_ticks),
        speaks(STALL_TICKS as int) && STALL_TICKS * TICK_S == 20,
        speaks(flat_ticks) ==> speaks(flat_ticks + STALL_RELOG_TICKS) && STALL_RELOG_TICKS * TICK_S
            == 30,
        speaks(flat_ticks) ==> forall|k: int|
            flat_ticks < k < flat_ticks + STALL_RELOG_TICKS ==> !#[trigger] speaks(k),
{
}

/// The phases are numbered from 0 in the order of a session, any other number
/// is idle, and no two phases have one name.
pub proof fn phases_are_numbered(p: Phase, q: Phase, v: u8)
    ensures
        Phase::Idle.number() == 0,
        Phase::Uploading.number() == 1,
        Phase::Finalizing.number() == 2,
        Phase::Committing.number() == 3,
        v > 3 ==> Phase::of(v) == Phase::Idle,
        v <= 3 ==> Phase::of(v).number() == v,
        p.title() == q.title() ==> p == q,
        Phase::Idle.title() == "idle"@,
        Phase::Uploading.title() == "uploading"@,
        Phase::Finalizing.title() == "finalizing"@,
        Phase::Committing.title() == "committing"@,
{
    reveal_strlit("idle");
    reveal_strlit("uploading");
    reveal_strlit("finalizing");
    reveal_strlit("committing");
    assert("idle"@.len() == 4 && "uploading"@.len() == 9 && "finalizing"@.len() == 10
        && "committing"@.len() == 10);
    assert("finalizing"@[0] != "committing"@[0]);
}

/// What is left of one number after another, and the sum of two, where it can
/// be held.
pub proof fn counters_are_counted(a: u64, b: u64)
    ensures
        a >= b ==> less(a, b) + b == a,
        a <= b ==> less(a, b) == 0,
        a + b <= u64::MAX ==> wrapped(a, b) == a + b,
        a + b > u64::MAX ==> wrapped(a, b) + 0x1_0000_0000_0000_0000 == a + b,
{
}

/// Bytes are credited to the attempt they belong to, on the side they moved on,
/// and to that side's total; every other attempt, and the other side, stay as
/// they are.
pub proof fn bytes_are_credited_to_their_attempt(
    m: Metrics,
    next: Metrics,
    id: u64,
    len: u64,
    now: u64,
    from_s3: bool,
    i: int,
)
    requires
        m.credits(next, id, len, now, from_s3),
        0 <= i < m.inflight@.len(),
    ensures
        ({
            let (was_id, was) = m.inflight@[i];
            let (is_id, is) = next.inflight@[i];
            &&& next.inflight@.len() == m.inflight@.len()
            &&& is_id == was_id
            &&& was_id != id ==> is == was
            &&& was_id == id ==> is.last_progress_ms == now && is.key == was.key && is.size
                == was.size && is.started_ms == was.started_ms
            &&& was_id == id && from_s3 && was.read + len <= u64::MAX ==> is.read == was.read + len
                && is.ingested == was.ingested
            &&& was_id == id && !from_s3 && was.ingested + len <= u64::MAX ==> is.ingested
                == was.ingested + len && is.read == was.read
            &&& from_s3 ==> next.hf_bytes == m.hf_bytes
            &&& from_s3 && m.s3_bytes + len <= u64::MAX ==> next.s3_bytes == m.s3_bytes + len
            &&& !from_s3 ==> next.s3_bytes == m.s3_bytes
            &&& !from_s3 && m.hf_bytes + len <= u64::MAX ==> next.hf_bytes == m.hf_bytes + len
            &&& next.files_done == m.files_done && next.kept_total == m.kept_total
            &&& next.phase == m.phase && next.phase_since_ms == m.phase_since_ms
        }),
{
    assert(next.inflight@[i] == next.inflight@[i]);
}

/// A file is seen as it is, idle for the whole seconds since a byte last moved
/// and as old as the whole seconds since the attempt began.
pub proof fn files_are_seen_as_they_are(f: InflightFile, now: u64)
    requires
        f.started_ms <= f.last_progress_ms <= now,
    ensures
        ({
            let s = seen_at(f, now);
            &&& s.key == f.key && s.size == f.size && s.read == f.read && s.ingested == f.ingested
            &&& 1000 * s.idle_s <= now - f.last_progress_ms < 1000 * (s.idle_s + 1)
            &&& 1000 * s.age_s <= now - f.started_ms < 1000 * (s.age_s + 1)
            &&& s.idle_s <= s.age_s
        }),
{
}

/// Every file in flight is seen, in the order in which the attempts began.
pub proof fn every_file_is_seen(inflight: Seq<(u64, InflightFile)>, now: u64, i: int)
    ensures
        all_seen(inflight, now).len() == inflight.len(),
        0 <= i < inflight.len() ==> all_seen(inflight, now)[i] == seen_at(inflight[i].1, now),
{
}

/// The first files are shown: all of them, or as many as asked for.
pub proof fn the_first_files_are_shown(files: Seq<StalledFile>, max: usize)
    ensures
        files.len() <= max ==> first_of(files, max) == files,
        files.len() >= max ==> first_of(files, max) == files.take(max as int),
{
    if files.len() == max {
        assert(files.take(max as int) =~= files);
    }
}

/// A file that began later comes after those that have stood still as long: it
/// is put in behind them, and the others stay in their order.
pub proof fn equals_stay_in_their_order(files: Seq<StalledFile>, f: StalledFile)
    ensures
        ({
            let before = by_idleness(files);
            let after = by_idleness(files.push(f));
            let at = rank(before, f);
            &&& 0 <= at <= before.len()
            &&& after == before.insert(at, f)
            &&& forall|i: int| 0 <= i < at ==> (#[trigger] before[i]).idle_s >= f.idle_s
            &&& forall|i: int| at <= i < before.len() ==> (#[trigger] before[i]).idle_s < f.idle_s
        }),
{
    let before = by_idleness(files);
    let at = rank(before, f);
    assert(files.push(f).drop_last() =~= files);
    lemma_rank(before, f);
    ranking_orders_every_file(files);
    assert forall|i: int| at <= i < before.len() implies (#[trigger] before[i]).idle_s < f.idle_s by {
        if i > at {
            assert(before[at].idle_s >= before[i].idle_s);
        }
    }
}

/// The watchdog is silent on a tick on which a byte has moved on either side,
/// or there is no work, and then counts anew. Else it counts one tick more, and
/// what it says names the phase's work and five seconds a tick.
pub proof fn moving_bytes_silence_the_watchdog(
    w: Watchdog,
    s3: u64,
    hf: u64,
    inflight: usize,
    phase: Phase,
    r: Option<(Stall, u64)>,
    next: Watchdog,
)
    requires
        w.ticks(s3, hf, inflight, phase, r, next),
        w.flat_ticks < u32::MAX,
    ensures
        ({
            let moved = s3 != w.last_s3 || hf != w.last_hf || (inflight == 0 && phase
                == Phase::Idle);
            &&& moved ==> r is None && next.flat_ticks == 0
            &&& !moved ==> next.flat_ticks == w.flat_ticks + 1
            &&& next.last_s3 == s3 && next.last_hf == hf
            &&& r is Some ==> (r->0).1 == 5 * next.flat_ticks && (r->0).1 >= 20
            &&& r is Some && phase == Phase::Finalizing ==> (r->0).0 == Stall::Finalizing
            &&& r is Some && phase == Phase::Committing ==> (r->0).0 == Stall::Committing
            &&& r is Some && (phase == Phase::Uploading || phase == Phase::Idle) ==> (r->0).0
                == Stall::Files
            &&& next.flat_ticks == 4 ==> r is Some
        }),
{
}

/// A phase that was entered is the current one, for the whole seconds since
/// then; entering it moves no counter.
pub proof fn phases_last_from_their_entry(
    m: Metrics,
    p: Phase,
    clock_ms: u64,
    next: Metrics,
    later_ms: u64,
)
    requires
        m.enters(p, clock_ms, next),
        m.started_ms <= clock_ms <= later_ms,
    ensures
        Phase::of(next.phase) == p,
        1000 * next.phase_age(later_ms) <= later_ms - clock_ms < 1000 * (next.phase_age(later_ms)
            + 1),
        next.s3_bytes == m.s3_bytes && next.hf_bytes == m.hf_bytes && next.files_done
            == m.files_done && next.kept_total == m.kept_total && next.inflight == m.inflight
            && next.next_id == m.next_id && next.started_ms == m.started_ms,
{
    phases_read_back(p);
}

/// An attempt begins with no byte moved and no second idle.
pub proof fn attempts_begin_at_nothing(f: InflightFile, key: Seq<char>, size: u64, now: u64)
    requires
        f.begins(key, size, now),
    ensures
        seen_at(f, now).key@ == key,
        seen_at(f, now).size == size,
        seen_at(f, now).read == 0 && seen_at(f, now).ingested == 0,
        seen_at(f, now).idle_s == 0 && seen_at(f, now).age_s == 0,
{
}

} // verus!
