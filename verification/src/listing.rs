//! The source listing: which objects a run keeps, and what it counts.
use globset::GlobSet;
use vstd::prelude::*;
use crate::globs;
use crate::keys;
use crate::keys::KeyFilter;
use crate::text;

verus! {

/// A file of at most this many bytes counts as small.
pub const SMALL_FILE: u64 = 16_777_216;

/// What a run takes of a listing.
#[derive(Debug, Clone, PartialEq, Eq)]
pub struct Bounds {
    pub prefix: String,
    /// The last key of the range; `None` for no upper bound.
    pub stop_at: Option<String>,
    /// Bytes after which the run stops; 0 for no limit.
    pub limit_bytes: u64,
}

/// What becomes of one listed object.
#[derive(Debug, Clone, Copy, PartialEq, Eq)]
pub enum Listed {
    /// The entry has no key: ignored, not counted.
    Nameless,
    /// The key sorts after the range: the listing is over.
    Past,
    /// The key is not copied.
    Skipped(KeyFilter),
    /// The byte limit is reached: the listing is over.
    Limit,
    /// Copied: its size.
    Kept(u64),
}

/// The size of a listed object: none, or a negative one, is zero.
pub open spec fn bytes_of(size: Option<i64>) -> u64 {
    match size {
        Some(n) if n > 0 => n as u64,
        _ => 0,
    }
}

/// The size of a listed object.
pub fn object_size(size: Option<i64>) -> (r: u64)
    ensures
        r == bytes_of(size),
{
    match size {
        Some(n) => if n > 0 {
            n as u64
        } else {
            0
        },
        None => 0,
    }
}

/// `key` sorts after the upper bound.
pub open spec fn past(stop_at: Option<String>, key: Seq<char>) -> bool {
    stop_at is Some && text::key_lt(stop_at->0@, key)
}

/// Whether `key` sorts after the upper bound: the bound itself is inside.
pub fn is_past(stop_at: &Option<String>, key: &str) -> (r: bool)
    ensures
        r == past(*stop_at, key@),
{
    match stop_at {
        Some(stop) => text::sorts_before(stop.as_str(), key),
        None => false,
    }
}

/// `a`, held at the largest count.
pub open spec fn saturated(a: nat) -> u64 {
    if a <= u64::MAX {
        a as u64
    } else {
        u64::MAX
    }
}

/// What becomes of an object once `bytes` are kept, given whether a pattern
/// excludes its key.
pub open spec fn ruling(
    key: Option<Seq<char>>,
    size: Option<i64>,
    bounds: Bounds,
    excluded: bool,
    bytes: u64,
) -> Listed {
    match key {
        None => Listed::Nameless,
        Some(k) => {
            let filter = keys::verdict(
                keys::belongs(k, bounds.prefix@),
                keys::has_empty_segment(k),
                excluded,
            );
            if past(bounds.stop_at, k) {
                Listed::Past
            } else if filter != KeyFilter::Keep {
                Listed::Skipped(filter)
            } else if bounds.limit_bytes > 0 && bytes >= bounds.limit_bytes {
                Listed::Limit
            } else {
                Listed::Kept(bytes_of(size))
            }
        },
    }
}

/// The counts of a listing so far.
#[derive(Debug, Clone, Copy, PartialEq, Eq)]
pub struct Listing {
    pub listed: u64,
    pub kept: u64,
    /// Keys with an empty path segment.
    pub skipped_invalid: u64,
    /// Bytes kept.
    pub bytes: u64,
    /// Small files kept.
    pub le16: u64,
    pub limit_hit: bool,
}

impl Listing {
    /// What is kept or skipped was listed.
    pub open spec fn wf(&self) -> bool {
        &&& self.kept + self.skipped_invalid <= self.listed
        &&& self.le16 <= self.kept
    }

    /// The counts after one object.
    pub open spec fn counted(&self, l: Listed) -> Listing {
        match l {
            Listed::Nameless | Listed::Past => *self,
            Listed::Skipped(KeyFilter::Invalid) => Listing {
                listed: (self.listed + 1) as u64,
                skipped_invalid: (self.skipped_invalid + 1) as u64,
                ..*self
            },
            Listed::Skipped(_) => Listing { listed: (self.listed + 1) as u64, ..*self },
            Listed::Limit => Listing {
                listed: (self.listed + 1) as u64,
                limit_hit: true,
                ..*self
            },
            Listed::Kept(size) => Listing {
                listed: (self.listed + 1) as u64,
                kept: (self.kept + 1) as u64,
                bytes: saturated(self.bytes as nat + size as nat),
                le16: if size <= SMALL_FILE {
                    (self.le16 + 1) as u64
                } else {
                    self.le16
                },
                ..*self
            },
        }
    }

    /// A listing that was not begun.
    pub fn new() -> (l: Self)
        ensures
            l.wf(),
            l == (Listing {
                listed: 0,
                kept: 0,
                skipped_invalid: 0,
                bytes: 0,
                le16: 0,
                limit_hit: false,
            }),
    {
        Listing { listed: 0, kept: 0, skipped_invalid: 0, bytes: 0, le16: 0, limit_hit: false }
    }

    /// Count one object, given whether a pattern excludes its key.
    pub fn observe_with(
        &mut self,
        key: Option<&str>,
        size: Option<i64>,
        bounds: &Bounds,
        excluded: bool,
    ) -> (r: Listed)
        requires
            old(self).wf(),
            old(self).listed < u64::MAX,
        ensures
            final(self).wf(),
            *final(self) == old(self).counted(r),
            r == ruling(
                match key {
                    Some(k) => Some(k@),
                    None => None,
                },
                size,
                *bounds,
                excluded,
                old(self).bytes,
            ),
    {
        let key: &str = match key {
            None => {
                return Listed::Nameless;
            },
            Some(k) => k,
        };
        if is_past(&bounds.stop_at, key) {
            return Listed::Past;
        }
        self.listed = self.listed + 1;
        let filter = keys::filter_key_with(key, bounds.prefix.as_str(), excluded);
        if filter != KeyFilter::Keep {
            if filter == KeyFilter::Invalid {
                self.skipped_invalid = self.skipped_invalid + 1;
            }
            return Listed::Skipped(filter);
        }
        if bounds.limit_bytes > 0 && self.bytes >= bounds.limit_bytes {
            self.limit_hit = true;
            return Listed::Limit;
        }
        let size: u64 = object_size(size);
        self.bytes = self.bytes.saturating_add(size);
        self.kept = self.kept + 1;
        if size <= SMALL_FILE {
            self.le16 = self.le16 + 1;
        }
        Listed::Kept(size)
    }

    /// Count one object and say what becomes of it. Keys come in ascending
    /// order, so that the first one past the range ends it.
    pub fn observe(
        &mut self,
        key: Option<&str>,
        size: Option<i64>,
        bounds: &Bounds,
        exclude: &Option<GlobSet>,
    ) -> (r: Listed)
        requires
            old(self).wf(),
            old(self).listed < u64::MAX,
        ensures
            final(self).wf(),
            *final(self) == old(self).counted(r),
            r == ruling(
                match key {
                    Some(k) => Some(k@),
                    None => None,
                },
                size,
                *bounds,
                key is Some && globs::excluded(*exclude, key->0@),
                old(self).bytes,
            ),
    {
        let excluded = match key {
            Some(k) => globs::excludes(exclude, k),
            None => false,
        };
        self.observe_with(key, size, bounds, excluded)
    }

    /// Whether a progress line is due.
    pub fn reports(&self) -> (r: bool)
        ensures
            r == report_due(self.listed),
    {
        self.listed % 100_000 == 0
    }

    /// Whether a skipped key is still named in the log: the first ten are.
    pub fn names_invalid(&self) -> (r: bool)
        ensures
            r == still_named(self.skipped_invalid),
    {
        self.skipped_invalid <= 10
    }
}

/// A progress line is due after that many objects.
pub open spec fn report_due(listed: u64) -> bool {
    listed % 100_000 == 0
}

/// After that many skipped keys the last one is named.
pub open spec fn still_named(skipped: u64) -> bool {
    skipped <= 10
}

/// A progress line is due once in a hundred thousand objects, and ten skipped
/// keys are named.
pub proof fn progress_is_told(listed: u64, k: nat, skipped: u64)
    ensures
        listed == 100_000 * k ==> report_due(listed),
        100_000 * k < listed < 100_000 * (k + 1) ==> !report_due(listed),
        still_named(skipped) <==> skipped < 11,
{
}

/// Where a listing page starts.
#[derive(Debug, Clone, PartialEq, Eq)]
pub enum PageStart {
    /// At the first key of the prefix.
    Begin,
    /// After a key: the range's lower bound.
    After(String),
    /// Where the page before it ended.
    Token(String),
}

/// The page starts there, given the token and the lower bound.
pub open spec fn starts_at(
    r: PageStart,
    token: Option<Seq<char>>,
    start_after: Option<Seq<char>>,
) -> bool {
    match token {
        Some(t) => r matches PageStart::Token(s) && s@ == t,
        None => match start_after {
            Some(a) => r matches PageStart::After(s) && s@ == a,
            None => r is Begin,
        },
    }
}

/// A page starts at its token whatever the lower bound; the first page, which
/// has none, starts after the lower bound, or at the beginning without one.
pub proof fn pages_go_on_where_they_ended(
    r: PageStart,
    token: Option<Seq<char>>,
    start_after: Option<Seq<char>>,
)
    requires
        starts_at(r, token, start_after),
    ensures
        r is Token <==> token is Some,
        r matches PageStart::Token(t) ==> token == Some(t@),
        r is After <==> token is None && start_after is Some,
        r matches PageStart::After(a) ==> start_after == Some(a@),
        r is Begin <==> token is None && start_after is None,
{
}

/// An optional text.
pub open spec fn str_or_none(s: Option<&str>) -> Option<Seq<char>> {
    match s {
        Some(s) => Some(s@),
        None => None,
    }
}

/// Where a listing page starts: a token carries the position once there is
/// one, so that the lower bound counts for the first page only.
pub fn page_start(token: Option<&str>, start_after: Option<&str>) -> (r: PageStart)
    ensures
        starts_at(r, str_or_none(token), str_or_none(start_after)),
{
    match token {
        Some(t) => PageStart::Token(t.to_owned()),
        None => match start_after {
            Some(a) => PageStart::After(a.to_owned()),
            None => PageStart::Begin,
        },
    }
}

/// What a copier keeps is its share: every kept key belongs to the prefix, has
/// no empty segment, is not excluded, and lies at or before the upper bound.
pub proof fn kept_keys_are_in_bounds(
    key: Seq<char>,
    size: Option<i64>,
    bounds: Bounds,
    excluded: bool,
    bytes: u64,
)
    requires
        ruling(Some(key), size, bounds, excluded, bytes) is Kept,
    ensures
        keys::belongs(key, bounds.prefix@),
        !keys::has_empty_segment(key),
        !excluded,
        bounds.stop_at is Some ==> text::key_le(key, bounds.stop_at->0@),
{
    if bounds.stop_at is Some {
        text::key_not_lt(bounds.stop_at->0@, key);
    }
}

/// Once a key is past the range, every later key of an ascending listing is:
/// stopping at the first loses nothing.
pub proof fn past_stays_past(stop_at: Option<String>, key: Seq<char>, later: Seq<char>)
    requires
        past(stop_at, key),
        text::key_lt(key, later),
    ensures
        past(stop_at, later),
{
    text::key_lt_transitive(stop_at->0@, key, later);
}

/// With a byte limit, an object is kept only while fewer bytes than the limit
/// are; without one, the limit stops nothing.
pub proof fn limit_bounds_what_is_kept(
    key: Seq<char>,
    size: Option<i64>,
    bounds: Bounds,
    excluded: bool,
    bytes: u64,
)
    ensures
        ruling(Some(key), size, bounds, excluded, bytes) is Kept && bounds.limit_bytes > 0
            ==> bytes < bounds.limit_bytes,
        bounds.limit_bytes == 0 ==> !(ruling(Some(key), size, bounds, excluded, bytes) is Limit),
{
}

/// The objects that were listed, before the listing was over.
pub open spec fn listed_in(outcomes: Seq<Listed>) -> nat {
    outcomes.filter(|l: Listed| !(l is Nameless) && !(l is Past)).len()
}

/// The sizes of the objects that are kept, in order.
pub open spec fn kept_in(outcomes: Seq<Listed>) -> Seq<u64>
    decreases outcomes.len(),
{
    if outcomes.len() == 0 {
        Seq::empty()
    } else {
        match outcomes.last() {
            Listed::Kept(size) => kept_in(outcomes.drop_last()).push(size),
            _ => kept_in(outcomes.drop_last()),
        }
    }
}

impl Listing {
    /// The counts are those of the outcomes.
    pub open spec fn describes(&self, outcomes: Seq<Listed>) -> bool {
        &&& self.wf()
        &&& self.listed == listed_in(outcomes)
        &&& self.kept == kept_in(outcomes).len()
        &&& self.bytes == saturated(bytes_sum(kept_in(outcomes)))
        &&& self.le16 == kept_in(outcomes).filter(|size: u64| size <= SMALL_FILE).len()
        &&& self.skipped_invalid == outcomes.filter(
            |l: Listed| l == Listed::Skipped(KeyFilter::Invalid),
        ).len()
        &&& self.limit_hit == outcomes.contains(Listed::Limit)
    }
}

/// A listing that was not begun describes no outcomes.
pub proof fn a_new_listing_is_empty(l: Listing)
    requires
        l == (Listing {
            listed: 0,
            kept: 0,
            skipped_invalid: 0,
            bytes: 0,
            le16: 0,
            limit_hit: false,
        }),
    ensures
        l.describes(Seq::empty()),
{
    reveal(Seq::filter);
}

/// The counts stay those of the objects seen: how many were listed, how many
/// and how many bytes were kept, how many of those are small, how many keys
/// were invalid, and whether the limit was reached.
pub proof fn a_listing_counts_its_objects(l: Listing, outcomes: Seq<Listed>, next: Listed)
    requires
        l.describes(outcomes),
        l.listed < u64::MAX,
    ensures
        l.counted(next).describes(outcomes.push(next)),
{
    reveal(Seq::filter);
    let all = outcomes.push(next);
    assert(all.drop_last() =~= outcomes);
    assert(all.last() == next);
    if let Listed::Kept(size) = next {
        let kept = kept_in(outcomes);
        assert(kept_in(all) == kept.push(size));
        assert(kept.push(size).drop_last() =~= kept);
    }
    if outcomes.contains(Listed::Limit) {
        let i = choose|i: int| 0 <= i < outcomes.len() && outcomes[i] == Listed::Limit;
        assert(all[i] == Listed::Limit);
    }
    if next is Limit {
        assert(all[outcomes.len() as int] == Listed::Limit);
    }
    if all.contains(Listed::Limit) && !(next is Limit) {
        let i = choose|i: int| 0 <= i < all.len() && all[i] == Listed::Limit;
        assert(outcomes[i] == Listed::Limit);
    }
}

// ---------------------------------------------------------------------------
// Dry run
// ---------------------------------------------------------------------------
/// The number of binary digits of `n`.
pub open spec fn bit_length(n: nat) -> nat
    decreases n,
{
    if n == 0 {
        0
    } else {
        1 + bit_length(n / 2)
    }
}

/// The bucket of a size: its bit length, the two longest ones together.
pub open spec fn bucket(size: u64) -> nat {
    let n = bit_length(if size == 0 {
        1
    } else {
        size as nat
    });
    if n < 63 {
        n
    } else {
        63
    }
}

/// A number with more bits than another is larger.
proof fn lemma_bit_length(n: nat)
    ensures
        n > 0 ==> bit_length(n) > 0 && vstd::arithmetic::power2::pow2(
            (bit_length(n) - 1) as nat,
        ) <= n < vstd::arithmetic::power2::pow2(bit_length(n)),
        n == 0 ==> bit_length(n) == 0,
    decreases n,
{
    if n > 0 {
        lemma_bit_length(n / 2);
        vstd::arithmetic::power2::lemma2_to64();
        vstd::arithmetic::power2::lemma_pow2_unfold(bit_length(n));
        if n / 2 > 0 {
            vstd::arithmetic::power2::lemma_pow2_unfold((bit_length(n) - 1) as nat);
        }
    }
}

/// A bucket names a size to within a factor of two: every size in it, but for
/// the largest bucket, is at least the bucket's floor and less than twice
/// that. An empty file counts as one byte.
pub proof fn bucket_spans_a_factor_of_two(size: u64)
    ensures
        ({
            let n = if size == 0 {
                1
            } else {
                size as int
            };
            let floor = bucket_floor(bucket(size) as int);
            &&& floor <= n
            &&& bucket(size) < 63 ==> n < 2 * floor
        }),
{
    let n = if size == 0 {
        1nat
    } else {
        size as nat
    };
    lemma_bit_length(n);
    let length = bit_length(n);
    vstd::arithmetic::power2::lemma_pow2_unfold(length);
    if length > 63 {
        vstd::arithmetic::power2::lemma_pow2_strictly_increases(62, (length - 1) as nat);
    }
}

/// The bucket of a size.
fn bucket_of(size: u64) -> (b: usize)
    ensures
        b == bucket(size),
        1 <= b <= 63,
{
    let start: u64 = if size == 0 {
        1
    } else {
        size
    };
    let mut rest: u64 = start;
    let mut n: usize = 0;
    while rest > 0 && n < 63
        invariant
            n <= 63,
            bit_length(start as nat) == n + bit_length(rest as nat),
        decreases 63 - n,
    {
        rest = rest / 2;
        n = n + 1;
    }
    assert(bit_length(start as nat) >= 1);
    n
}

/// The sizes in a dry run: how many, and their distribution.
#[derive(Debug, Clone, PartialEq, Eq)]
pub struct SizeStats {
    pub count: u64,
    /// Bytes in all.
    pub total: u64,
    pub smallest: u64,
    pub largest: u64,
    /// Sizes per bucket.
    pub hist: Vec<u64>,
}

/// The sum of the first `n` buckets.
pub open spec fn hist_sum(hist: Seq<u64>, n: int) -> nat
    decreases n,
{
    if n <= 0 {
        0
    } else {
        hist_sum(hist, n - 1) + hist[n - 1] as nat
    }
}

/// Raising one bucket raises the sums that hold it.
proof fn lemma_hist_bump(hist: Seq<u64>, at: int, v: u64, n: int)
    requires
        0 <= at < hist.len(),
        0 <= n <= hist.len(),
        v == hist[at] + 1,
    ensures
        hist_sum(hist.update(at, v), n) == hist_sum(hist, n) + (if at < n {
            1nat
        } else {
            0nat
        }),
    decreases n,
{
    if n > 0 {
        lemma_hist_bump(hist, at, v, n - 1);
    }
}

/// No bucket exceeds the sum of all.
proof fn lemma_hist_part(hist: Seq<u64>, at: int, n: int)
    requires
        0 <= at < n <= hist.len(),
    ensures
        hist[at] <= hist_sum(hist, n),
        hist_sum(hist, at) <= hist_sum(hist, n),
    decreases n,
{
    if at < n - 1 {
        lemma_hist_part(hist, at, n - 1);
    }
}

/// How many of the sizes are in the bucket.
pub open spec fn in_bucket(sizes: Seq<u64>, b: int) -> nat {
    sizes.filter(|s: u64| bucket(s) == b).len()
}

/// The bytes of the sizes.
pub open spec fn bytes_sum(sizes: Seq<u64>) -> nat
    decreases sizes.len(),
{
    if sizes.len() == 0 {
        0
    } else {
        bytes_sum(sizes.drop_last()) + sizes.last() as nat
    }
}

/// `b` is the first bucket with which half of the sizes are covered.
pub open spec fn median_bucket(hist: Seq<u64>, count: u64, b: int) -> bool {
    &&& 0 <= b < hist.len()
    &&& 2 * hist_sum(hist, b + 1) >= count
    &&& forall|k: int| 0 <= k < b ==> 2 * #[trigger] hist_sum(hist, k + 1) < count
}

/// The least size in a bucket.
pub open spec fn bucket_floor(b: int) -> nat {
    if b <= 0 {
        0
    } else {
        vstd::arithmetic::power2::pow2((b - 1) as nat)
    }
}

impl SizeStats {
    /// Every size is in one of the buckets.
    pub open spec fn wf(&self) -> bool {
        &&& self.hist@.len() == 64
        &&& hist_sum(self.hist@, 64) == self.count
    }

    /// The statistics are those of `sizes`.
    pub open spec fn describes(&self, sizes: Seq<u64>) -> bool {
        &&& self.wf()
        &&& self.count == sizes.len()
        &&& self.total == saturated(bytes_sum(sizes))
        &&& forall|i: int|
            0 <= i < sizes.len() ==> self.smallest <= #[trigger] sizes[i] <= self.largest
        &&& sizes.len() > 0 ==> sizes.contains(self.smallest) && sizes.contains(self.largest)
        &&& sizes.len() == 0 ==> self.smallest == u64::MAX && self.largest == 0
        &&& forall|b: int| 0 <= b < 64 ==> #[trigger] self.hist@[b] == in_bucket(sizes, b)
    }

    /// `next` counts `size` as well.
    pub open spec fn counts(&self, size: u64, next: SizeStats) -> bool {
        let b = bucket(size) as int;
        &&& next.count == self.count + 1
        &&& next.total == saturated(self.total as nat + size as nat)
        &&& next.smallest == if size < self.smallest {
            size
        } else {
            self.smallest
        }
        &&& next.largest == if size > self.largest {
            size
        } else {
            self.largest
        }
        &&& next.hist@ == self.hist@.update(b, (self.hist@[b] + 1) as u64)
    }

    /// Statistics of no sizes.
    pub fn new() -> (s: Self)
        ensures
            s.describes(Seq::empty()),
    {
        let mut hist: Vec<u64> = Vec::new();
        let mut i: usize = 0;
        while i < 64
            invariant
                i <= 64,
                hist@.len() == i,
                forall|b: int| 0 <= b < i ==> hist@[b] == 0,
            decreases 64 - i,
        {
            hist.push(0);
            i = i + 1;
        }
        let s = SizeStats { count: 0, total: 0, smallest: u64::MAX, largest: 0, hist };
        proof {
            lemma_hist_zero(s.hist@, 64);
            assert forall|b: int| 0 <= b < 64 implies #[trigger] s.hist@[b] == in_bucket(
                Seq::empty(),
                b,
            ) by {
                reveal(Seq::filter);
            }
        }
        s
    }

    /// Count one size.
    pub fn observe(&mut self, size: u64)
        requires
            old(self).wf(),
            old(self).count < u64::MAX,
        ensures
            final(self).wf(),
            old(self).counts(size, *final(self)),
    {
        let b: usize = bucket_of(size);
        proof {
            lemma_hist_part(self.hist@, b as int, 64);
            lemma_hist_bump(self.hist@, b as int, (self.hist@[b as int] + 1) as u64, 64);
        }
        self.count = self.count + 1;
        self.total = self.total.saturating_add(size);
        if size < self.smallest {
            self.smallest = size;
        }
        if size > self.largest {
            self.largest = size;
        }
        let n: u64 = self.hist[b] + 1;
        self.hist[b] = n;
    }

    /// The smallest size; 0 where there is none.
    pub fn min(&self) -> (r: u64)
        ensures
            r == if self.count > 0 {
                self.smallest
            } else {
                0
            },
    {
        if self.count > 0 {
            self.smallest
        } else {
            0
        }
    }

    /// The median to an order of magnitude: the least size of the bucket that
    /// holds it; 0 where there are no sizes.
    pub fn median(&self) -> (r: u64)
        requires
            self.wf(),
        ensures
            self.count == 0 ==> r == 0,
            self.count > 0 ==> exists|b: int|
                #[trigger] median_bucket(self.hist@, self.count, b) && r == bucket_floor(b),
    {
        if self.count == 0 {
            return 0;
        }
        let mut covered: u128 = 0;
        let mut b: usize = 0;
        let mut floor: u64 = 0;
        proof {
            vstd::arithmetic::power2::lemma2_to64();
        }
        while b < 64
            invariant
                self.wf(),
                self.count > 0,
                b <= 64,
                covered == hist_sum(self.hist@, b as int),
                covered <= u64::MAX,
                forall|k: int|
                    0 <= k < b ==> 2 * #[trigger] hist_sum(self.hist@, k + 1) < self.count,
                b < 64 ==> floor == bucket_floor(b as int),
            decreases 64 - b,
        {
            proof {
                if b + 1 < 64 {
                    lemma_hist_part(self.hist@, b + 1, 64);
                } else {
                    assert(hist_sum(self.hist@, b + 1) == self.count);
                }
                assert(hist_sum(self.hist@, b + 1) == covered + self.hist@[b as int]);
            }
            covered = covered + self.hist[b] as u128;
            if covered * 2 >= self.count as u128 {
                assert(median_bucket(self.hist@, self.count, b as int));
                return floor;
            }
            proof {
                vstd::arithmetic::power2::lemma2_to64();
                vstd::arithmetic::power2::lemma_pow2_unfold((b + 1) as nat);
                if b >= 1 && b < 63 {
                    vstd::arithmetic::power2::lemma_pow2_unfold(b as nat);
                    vstd::arithmetic::power2::lemma_pow2_strictly_increases(b as nat, 64);
                }
            }
            if b == 0 {
                floor = 1;
            } else if b < 63 {
                floor = floor * 2;
            }
            b = b + 1;
        }
        assert(hist_sum(self.hist@, 63int + 1) == self.count);
        0
    }
}

/// Empty buckets sum to nothing.
proof fn lemma_hist_zero(hist: Seq<u64>, n: int)
    requires
        0 <= n <= hist.len(),
        forall|b: int| 0 <= b < n ==> hist[b] == 0,
    ensures
        hist_sum(hist, n) == 0,
    decreases n,
{
    if n > 0 {
        lemma_hist_zero(hist, n - 1);
    }
}

/// The statistics stay those of the sizes seen, whatever their order: count,
/// bytes, extremes and histogram.
pub proof fn stats_describe_the_sizes(
    before: SizeStats,
    sizes: Seq<u64>,
    size: u64,
    after: SizeStats,
)
    requires
        before.describes(sizes),
        before.count < u64::MAX,
        before.counts(size, after),
    ensures
        after.describes(sizes.push(size)),
{
    let all = sizes.push(size);
    let at = bucket(size) as int;
    lemma_bit_length(if size == 0 {
        1
    } else {
        size as nat
    });
    assert(0 <= at < 64);
    lemma_hist_part(before.hist@, at, 64);
    lemma_hist_bump(before.hist@, at, (before.hist@[at] + 1) as u64, 64);
    assert(all.drop_last() =~= sizes);
    assert(all.last() == size);
    assert(all[sizes.len() as int] == size);
    assert forall|i: int| 0 <= i < all.len() implies after.smallest <= #[trigger] all[i]
        <= after.largest by {
        if i < sizes.len() {
            assert(all[i] == sizes[i]);
        }
    }
    if sizes.contains(before.smallest) {
        let i = choose|i: int| 0 <= i < sizes.len() && sizes[i] == before.smallest;
        assert(all[i] == before.smallest);
    }
    if sizes.contains(before.largest) {
        let i = choose|i: int| 0 <= i < sizes.len() && sizes[i] == before.largest;
        assert(all[i] == before.largest);
    }
    assert(all.contains(after.smallest)) by {
        if sizes.len() == 0 || size < before.smallest {
            assert(all[sizes.len() as int] == after.smallest);
        }
    }
    assert(all.contains(after.largest)) by {
        if sizes.len() == 0 || size > before.largest {
            assert(all[sizes.len() as int] == after.largest);
        }
    }
    assert forall|b: int| 0 <= b < 64 implies #[trigger] after.hist@[b] == in_bucket(all, b) by {
        reveal(Seq::filter);
        assert(before.hist@[b] == in_bucket(sizes, b));
    }
}

/// What is to be copied is kept: a key that belongs to the prefix, has no empty
/// segment, is not excluded and is not past the upper bound is kept with its
/// size, unless a byte limit is set and reached.
pub proof fn every_eligible_key_is_kept(
    key: Seq<char>,
    size: Option<i64>,
    bounds: Bounds,
    excluded: bool,
    bytes: u64,
)
    requires
        keys::belongs(key, bounds.prefix@),
        !keys::has_empty_segment(key),
        !excluded,
        bounds.stop_at is Some ==> text::key_le(key, bounds.stop_at->0@),
        bounds.limit_bytes > 0 ==> bytes < bounds.limit_bytes,
    ensures
        ruling(Some(key), size, bounds, excluded, bytes) is Kept,
        size is Some && size->0 >= 0 ==> ruling(Some(key), size, bounds, excluded, bytes)->Kept_0
            == size->0,
        size is None || size->0 < 0 ==> ruling(Some(key), size, bounds, excluded, bytes)->Kept_0
            == 0,
{
    if bounds.stop_at is Some {
        text::key_not_lt(bounds.stop_at->0@, key);
    }
}

/// Nothing is left out without its reason, and the first reason counts: past
/// the upper bound, outside the prefix, an empty segment, a pattern, the byte
/// limit.
pub proof fn keys_are_left_out_for_a_reason(
    key: Seq<char>,
    size: Option<i64>,
    bounds: Bounds,
    excluded: bool,
    bytes: u64,
)
    ensures
        ({
            let r = ruling(Some(key), size, bounds, excluded, bytes);
            let is_past = bounds.stop_at is Some && text::key_lt(bounds.stop_at->0@, key);
            let outside = !keys::belongs(key, bounds.prefix@);
            let invalid = keys::has_empty_segment(key);
            &&& r is Past <==> is_past
            &&& r == Listed::Skipped(KeyFilter::Outside) <==> !is_past && outside
            &&& r == Listed::Skipped(KeyFilter::Invalid) <==> !is_past && !outside && invalid
            &&& r == Listed::Skipped(KeyFilter::Excluded) <==> !is_past && !outside && !invalid
                && excluded
            &&& r is Limit <==> !is_past && !outside && !invalid && !excluded && bounds.limit_bytes
                > 0 && bytes >= bounds.limit_bytes
            &&& !(r is Nameless)
            &&& r != Listed::Skipped(KeyFilter::Keep)
        }),
        ruling(None, size, bounds, excluded, bytes) is Nameless,
{
}

/// A count is held at the largest: below it, it is what was counted.
pub proof fn counts_are_held_at_the_largest(a: nat)
    ensures
        a <= u64::MAX ==> saturated(a) == a,
        a >= u64::MAX ==> saturated(a) == u64::MAX,
{
}

/// How many of the sizes are less than `x`, an empty file counting as one byte.
pub open spec fn count_below(sizes: Seq<u64>, x: nat) -> nat
    decreases sizes.len(),
{
    if sizes.len() == 0 {
        0
    } else {
        let s = if sizes.last() == 0 {
            1nat
        } else {
            sizes.last() as nat
        };
        count_below(sizes.drop_last(), x) + if s < x {
            1nat
        } else {
            0nat
        }
    }
}

/// How many of the sizes are in the first `k` buckets.
pub open spec fn in_first_buckets(sizes: Seq<u64>, k: int) -> nat
    decreases k,
{
    if k <= 0 {
        0
    } else {
        in_first_buckets(sizes, k - 1) + in_bucket(sizes, k - 1)
    }
}

/// One size more is in the first buckets when its bucket is.
proof fn lemma_first_buckets_push(sizes: Seq<u64>, s: u64, k: int)
    requires
        0 <= k,
    ensures
        in_first_buckets(sizes.push(s), k) == in_first_buckets(sizes, k) + if bucket(s) < k {
            1nat
        } else {
            0nat
        },
    decreases k,
{
    if k > 0 {
        lemma_first_buckets_push(sizes, s, k - 1);
        reveal(Seq::filter);
        assert(sizes.push(s).drop_last() =~= sizes);
    }
}

/// A size is in the first `k` buckets exactly when it is less than the least
/// size of the next one.
proof fn lemma_bucket_below(size: u64, k: int)
    requires
        1 <= k <= 63,
    ensures
        ({
            let n = if size == 0 {
                1nat
            } else {
                size as nat
            };
            bucket(size) < k <==> n < bucket_floor(k)
        }),
{
    let n = if size == 0 {
        1nat
    } else {
        size as nat
    };
    lemma_bit_length(n);
    let length = bit_length(n);
    if length < k {
        if length < k - 1 {
            vstd::arithmetic::power2::lemma_pow2_strictly_increases(length, (k - 1) as nat);
        }
    } else {
        if k < length {
            vstd::arithmetic::power2::lemma_pow2_strictly_increases(
                (k - 1) as nat,
                (length - 1) as nat,
            );
        }
    }
}

/// The first buckets hold the sizes below the least size of the next one.
proof fn lemma_first_buckets(sizes: Seq<u64>, k: int)
    requires
        1 <= k <= 63,
    ensures
        in_first_buckets(sizes, k) == count_below(sizes, bucket_floor(k)),
    decreases sizes.len(),
{
    if sizes.len() > 0 {
        let front = sizes.drop_last();
        lemma_first_buckets(front, k);
        lemma_first_buckets_push(front, sizes.last(), k);
        assert(front.push(sizes.last()) =~= sizes);
        lemma_bucket_below(sizes.last(), k);
    } else {
        lemma_no_buckets(sizes, k);
    }
}

/// No sizes are in no buckets.
proof fn lemma_no_buckets(sizes: Seq<u64>, k: int)
    requires
        sizes.len() == 0,
        0 <= k,
    ensures
        in_first_buckets(sizes, k) == 0,
    decreases k,
{
    reveal(Seq::filter);
    if k > 0 {
        lemma_no_buckets(sizes, k - 1);
    }
}

/// The sums of the histogram are those of the sizes.
proof fn lemma_hist_is_sizes(hist: Seq<u64>, sizes: Seq<u64>, k: int)
    requires
        0 <= k <= 64,
        hist.len() == 64,
        forall|b: int| 0 <= b < 64 ==> #[trigger] hist[b] == in_bucket(sizes, b),
    ensures
        hist_sum(hist, k) == in_first_buckets(sizes, k),
    decreases k,
{
    if k > 0 {
        lemma_hist_is_sizes(hist, sizes, k - 1);
        assert(hist[k - 1] == in_bucket(sizes, k - 1));
    }
}

/// The median of a dry run is the sizes', to within a factor of two: fewer than
/// half of the sizes are smaller, and, but for the largest bucket, at least
/// half are less than twice as large.
pub proof fn the_median_splits_the_sizes(stats: SizeStats, sizes: Seq<u64>, b: int)
    requires
        stats.describes(sizes),
        sizes.len() > 0,
        median_bucket(stats.hist@, stats.count, b),
    ensures
        bucket_floor(b) >= 1,
        2 * count_below(sizes, bucket_floor(b)) < sizes.len(),
        b < 63 ==> 2 * count_below(sizes, 2 * bucket_floor(b)) >= sizes.len(),
{
    let hist = stats.hist@;
    lemma_no_zero_bucket(sizes);
    lemma_hist_is_sizes(hist, sizes, 1);
    reveal_with_fuel(in_first_buckets, 2);
    assert(b >= 1) by {
        if b == 0 {
            assert(hist_sum(hist, b + 1) == 0);
        }
    }
    vstd::arithmetic::power2::lemma_pow2_pos((b - 1) as nat);
    lemma_hist_is_sizes(hist, sizes, b);
    lemma_first_buckets(sizes, b);
    assert(2 * hist_sum(hist, (b - 1) + 1) < stats.count);
    if b < 63 {
        lemma_hist_is_sizes(hist, sizes, b + 1);
        lemma_first_buckets(sizes, b + 1);
        vstd::arithmetic::power2::lemma_pow2_unfold(b as nat);
        assert(bucket_floor(b + 1) == 2 * bucket_floor(b));
    }
}

/// No size is in the bucket of no bytes.
proof fn lemma_no_zero_bucket(sizes: Seq<u64>)
    ensures
        in_bucket(sizes, 0) == 0,
    decreases sizes.len(),
{
    reveal(Seq::filter);
    if sizes.len() > 0 {
        lemma_no_zero_bucket(sizes.drop_last());
        lemma_bit_length(if sizes.last() == 0 {
            1
        } else {
            sizes.last() as nat
        });
    }
}

/// An optional slice is read as its text.
pub proof fn optional_slices_are_read(s: Option<&str>)
    ensures
        str_or_none(s) is Some <==> s is Some,
        s is Some ==> str_or_none(s) == Some(s->0@),
{
}

} // verus!
