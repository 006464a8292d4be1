//! The rules of a copy: where it reads, how it splits the work, what it
//! commits, and what a copier job is asked to run.
use bytes::Bytes;
use std::time::Duration;
use vstd::prelude::*;
use crate::bucket_client::BatchOp;
use crate::dest::BucketRef;
use crate::jobs_client::JobSpec;
use crate::keymap;
use crate::keymap::KeyMap;
use crate::keys;
use crate::listing;
use crate::planner::Copier;
use crate::text;
use crate::urls;
use crate::urls::UrlParts;

verus! {

/// One copy.
pub struct Config {
    pub source_s3_url: String,
    pub dest_bucket: BucketRef,
    pub hub_endpoint: String,
    pub hf_token: String,
    /// The source bucket's region; `None` to detect it.
    pub aws_region: Option<String>,
    pub parallel_files: usize,
    /// Ranged reads per file at a time; 1 for a single read.
    pub s3_part_concurrency: usize,
    /// Bytes per ranged read.
    pub s3_part_size: u64,
    /// Every byte is XORed with this; 0 leaves the data as it is.
    pub xor_byte: u8,
    /// Bytes after which the copy stops; 0 for no limit.
    pub limit_bytes: u64,
    /// A key that any of these matches is not copied.
    pub exclude_globs: Vec<String>,
    /// The bound before the range; `None` for no lower bound.
    pub start_after: Option<String>,
    /// The last key of the range; `None` for no upper bound.
    pub stop_at: Option<String>,
    pub dry_run: bool,
    /// Files per commit.
    pub commit_chunk: usize,
    /// Bytes after which a commit is made as well; 0 for none.
    pub commit_bytes: u64,
}

/// One plan: a listing cut into ranges, with a copier job for each.
pub struct PlanConfig {
    pub source_s3_url: String,
    /// As it was given: handed on to each copier.
    pub dest: String,
    pub hub_endpoint: String,
    pub hf_token: String,
    pub aws_region: Option<String>,
    pub exclude_globs: Vec<String>,
    /// Bytes after which the planning stops; 0 for no limit.
    pub limit_bytes: u64,
    /// Bytes that fill a range; 0 for no limit.
    pub range_bytes: u64,
    /// Keys that fill a range; 0 for no limit.
    pub range_keys: u64,
    pub copier_image: String,
    pub copier_flavor: String,
    /// Where jobs are started; `None` for the token's own namespace.
    pub jobs_namespace: Option<String>,
    /// Copiers that may run at a time.
    pub max_inflight: usize,
    /// The pause between launches.
    pub launch_stagger: Duration,
    /// The label by which a run's copiers are found.
    pub run_label: String,
    pub commit_chunk: usize,
    pub s3_part_concurrency: usize,
    pub s3_part_size_mib: usize,
    /// Handed on to every copier, never on its command line.
    pub copier_secrets: KeyMap<String>,
    pub copier_env: KeyMap<String>,
}

// ---------------------------------------------------------------------------
// The source
// ---------------------------------------------------------------------------
/// Why a text names no source.
#[derive(Debug, Clone, PartialEq, Eq)]
pub enum SourceError {
    /// It is no URL: the parser's words.
    Parse { url: String, error: String },
    /// Its scheme is not `s3`.
    Scheme { url: String },
    /// It names no bucket.
    NoBucket { url: String },
}

impl SourceError {
    /// The message of the error.
    pub open spec fn words(&self) -> Seq<char> {
        match self {
            SourceError::Parse { url, error } => "parse "@ + url@ + ": "@ + error@,
            SourceError::Scheme { url } => "source must be s3:// URL, got "@ + url@,
            SourceError::NoBucket { url } => "S3 URL missing bucket: "@ + url@,
        }
    }

    /// The message of the error.
    pub fn message(&self) -> (r: String)
        ensures
            r@ == self.words(),
    {
        let mut r = String::new();
        match self {
            SourceError::Parse { url, error } => {
                r.append("parse ");
                r.append(url.as_str());
                r.append(": ");
                r.append(error.as_str());
            },
            SourceError::Scheme { url } => {
                r.append("source must be s3:// URL, got ");
                r.append(url.as_str());
            },
            SourceError::NoBucket { url } => {
                r.append("S3 URL missing bucket: ");
                r.append(url.as_str());
            },
        }
        assert(r@ =~= self.words());
        r
    }
}

/// The outcome `r` of reading a source off a parsed URL: the host is the
/// bucket, the path without its leading slashes the prefix.
pub open spec fn source_read(
    r: Result<(String, String), SourceError>,
    url: Seq<char>,
    parts: (Seq<char>, Option<Seq<char>>, Seq<char>, Seq<(Seq<char>, Seq<char>)>),
) -> bool {
    if parts.0 != "s3"@ {
        r matches Err(SourceError::Scheme { url: u }) && u@ == url
    } else {
        match parts.1 {
            None => r matches Err(SourceError::NoBucket { url: u }) && u@ == url,
            Some(host) => r matches Ok((bucket, prefix)) && bucket@ == host && prefix@
                == keys::without_slashes(parts.2),
        }
    }
}

/// The outcome `r` of reading a source, given what its URL was parsed as.
pub open spec fn names_source(
    r: Result<(String, String), SourceError>,
    url: Seq<char>,
    parsed: Result<
        (Seq<char>, Option<Seq<char>>, Seq<char>, Seq<(Seq<char>, Seq<char>)>),
        Seq<char>,
    >,
) -> bool {
    match parsed {
        Err(e) => r matches Err(SourceError::Parse { url: u, error }) && u@ == url && error@ == e,
        Ok(parts) => source_read(r, url, parts),
    }
}

/// A text that is no URL is refused with the parser's words, and only such a
/// text; a source is read exactly off a URL of the scheme `s3` with a host.
pub proof fn sources_are_urls(
    r: Result<(String, String), SourceError>,
    url: Seq<char>,
    parsed: Result<
        (Seq<char>, Option<Seq<char>>, Seq<char>, Seq<(Seq<char>, Seq<char>)>),
        Seq<char>,
    >,
)
    requires
        names_source(r, url, parsed),
    ensures
        (r matches Err(SourceError::Parse { .. })) <==> parsed is Err,
        r matches Err(SourceError::Parse { url: u, error }) ==> u@ == url && error@
            == parsed->Err_0,
        r is Ok <==> parsed is Ok && parsed->Ok_0.0 == "s3"@ && parsed->Ok_0.1 is Some,
{
}

/// The bucket and the prefix that a parsed URL names.
pub fn source_of(url: &str, parts: &UrlParts) -> (r: Result<(String, String), SourceError>)
    ensures
        source_read(r, url@, parts@),
{
    if !text::same(parts.scheme.as_str(), "s3") {
        return Err(SourceError::Scheme { url: url.to_owned() });
    }
    match &parts.host {
        None => Err(SourceError::NoBucket { url: url.to_owned() }),
        Some(host) => Ok((host.clone(), keys::strip_slashes(parts.path.as_str()))),
    }
}

/// The bucket and the prefix of `s3://bucket/prefix`.
pub fn parse_s3_url(url: &str) -> (r: Result<(String, String), SourceError>)
    ensures
        names_source(r, url@, urls::url_parts(url@)),
{
    match urls::parse_url(url) {
        Err(error) => Err(SourceError::Parse { url: url.to_owned(), error }),
        Ok(parts) => source_of(url, &parts),
    }
}

/// A value that is given and not blank, without the white space around it.
pub open spec fn given(value: Option<Seq<char>>) -> Option<Seq<char>> {
    match value {
        Some(v) => if text::trimmed(v).len() > 0 {
            Some(text::trimmed(v))
        } else {
            None
        },
        None => None,
    }
}

/// A region or a namespace that was given: not blank, without the white space
/// around it.
pub fn explicit_value(value: Option<&str>) -> (r: Option<String>)
    ensures
        urls::text_or_none(r) == given(
            match value {
                Some(v) => Some(v@),
                None => None,
            },
        ),
{
    match value {
        Some(v) => {
            let t = text::trim(v);
            if t.as_str().is_empty() {
                None
            } else {
                Some(t)
            }
        },
        None => None,
    }
}

/// The region where none is given or found.
pub open spec fn default_region() -> Seq<char> {
    "us-east-1"@
}

/// The region that a bucket's location constraint names.
pub open spec fn region_of(constraint: Option<Seq<char>>) -> Seq<char> {
    match constraint {
        None => default_region(),
        Some(c) => if c.len() == 0 {
            default_region()
        } else if c == "EU"@ {
            "eu-west-1"@
        } else {
            c
        },
    }
}

/// A constraint that names a region is that region, but for the old name `EU`;
/// without one it is the first region.
pub proof fn constraints_name_regions(constraint: Option<Seq<char>>)
    ensures
        constraint is None || constraint->0.len() == 0 ==> region_of(constraint) == "us-east-1"@,
        constraint == Some("EU"@) ==> region_of(constraint) == "eu-west-1"@,
        constraint is Some && constraint->0.len() > 0 && constraint->0 != "EU"@ ==> region_of(
            constraint,
        ) == constraint->0,
        default_region() == "us-east-1"@,
{
    reveal_strlit("EU");
}

/// The region that a bucket's location constraint names: none or an empty one
/// is the first region, and `EU` is the old name of another.
pub fn region_of_constraint(constraint: Option<&str>) -> (r: String)
    ensures
        r@ == region_of(
            match constraint {
                Some(c) => Some(c@),
                None => None,
            },
        ),
{
    match constraint {
        None => "us-east-1".to_owned(),
        Some(c) => if c.is_empty() {
            "us-east-1".to_owned()
        } else if text::same(c, "EU") {
            "eu-west-1".to_owned()
        } else {
            c.to_owned()
        },
    }
}

/// The region to use: the one found, else the first.
pub fn region_or_default(detected: Option<String>) -> (r: String)
    ensures
        r@ == match detected {
            Some(d) => d@,
            None => default_region(),
        },
{
    match detected {
        Some(d) => d,
        None => "us-east-1".to_owned(),
    }
}

// ---------------------------------------------------------------------------
// Reading an object
// ---------------------------------------------------------------------------
/// An object of the source.
#[derive(Debug, Clone, PartialEq, Eq)]
pub struct S3Object {
    /// The key as S3 has it.
    pub key: String,
    /// The key as an object path, encoded once.
    pub path: String,
    pub size: u64,
}

/// A path segment as `PathPart::from` encodes it.
pub uninterp spec fn encoded_segment(segment: Seq<char>) -> Seq<char>;

/// Calls `Path::from_iter`, which encodes each segment that is not empty and
/// joins them with slashes. The encoding of a segment is named, not described.
#[verifier::external_body]
fn encode_path(segments: &Vec<String>) -> (r: String)
    ensures
        r@ == text::joined(
            text::texts(segments@).filter(|s: Seq<char>| s.len() > 0).map_values(
                |s: Seq<char>| encoded_segment(s),
            ),
            "/"@,
        ),
{
    let path = object_store::path::Path::from_iter(segments.iter().map(|s| s.as_str()));
    path.to_string()
}

/// The object path of a key.
pub open spec fn object_path(key: Seq<char>) -> Seq<char> {
    text::joined(
        text::pieces(key, '/').filter(|s: Seq<char>| s.len() > 0).map_values(
            |s: Seq<char>| encoded_segment(s),
        ),
        "/"@,
    )
}

impl S3Object {
    /// A listed object.
    pub fn new(key: &str, size: u64) -> (o: Self)
        ensures
            o.key@ == key@,
            o.path@ == object_path(key@),
            o.size == size,
    {
        let segments = text::pieces_of(key, '/');
        S3Object { key: key.to_owned(), path: encode_path(&segments), size }
    }
}

/// The bounds of the `i`-th part.
pub open spec fn part_bounds(total: u64, part_size: u64, i: int) -> (int, int) {
    let from = i * part_size;
    let to = from + part_size;
    (from, if to < total {
        to
    } else {
        total as int
    })
}

/// The number of parts.
pub open spec fn part_count(total: u64, part_size: u64) -> int {
    (total + part_size - 1) / (part_size as int)
}

/// The parts are those of the object, in order.
pub open spec fn is_split(parts: Seq<(u64, u64)>, total: u64, part_size: u64) -> bool {
    &&& parts.len() == part_count(total, part_size)
    &&& forall|i: int|
        #![trigger parts[i]]
        0 <= i < parts.len() ==> (parts[i].0 as int, parts[i].1 as int) == part_bounds(
            total,
            part_size,
            i,
        )
}

/// `[0, total_size)` split into ranges of `part_size` bytes, the last of what
/// is left.
pub fn split_ranges(total_size: u64, part_size: u64) -> (out: Vec<(u64, u64)>)
    requires
        part_size > 0,
    ensures
        is_split(out@, total_size, part_size),
        out@.len() == 0 <==> total_size == 0,
        total_size > 0 ==> out@[0].0 == 0 && out@.last().1 == total_size,
        forall|i: int| 1 <= i < out@.len() ==> #[trigger] out@[i].0 == out@[i - 1].1,
{
    let mut out: Vec<(u64, u64)> = Vec::new();
    let mut start: u64 = 0;
    assert(0 * part_size == 0) by (nonlinear_arith);
    while start < total_size
        invariant
            part_size > 0,
            start <= total_size,
            start == total_size || start == out@.len() * part_size,
            start < total_size ==> out@.len() * part_size < total_size,
            start == total_size ==> total_size <= out@.len() * part_size < total_size + part_size,
            forall|i: int|
                #![trigger out@[i]]
                0 <= i < out@.len() ==> (out@[i].0 as int, out@[i].1 as int) == part_bounds(
                    total_size,
                    part_size,
                    i,
                ),
        decreases total_size - start,
    {
        let end: u64 = if total_size - start < part_size {
            total_size
        } else {
            start + part_size
        };
        let ghost n = out@.len();
        out.push((start, end));
        assert((n + 1) * part_size == n * part_size + part_size) by (nonlinear_arith);
        start = end;
    }
    proof {
        lemma_count(total_size as int, part_size as int, out@.len() as int);
        the_parts_are_the_object(out@, total_size, part_size);
    }
    out
}

/// The count of parts that just cover the total.
proof fn lemma_count(total: int, part: int, n: int)
    requires
        part > 0,
        total >= 0,
        n >= 0,
        total <= n * part < total + part,
    ensures
        n == (total + part - 1) / part,
{
    let x = total + part - 1;
    assert(n * part <= x < n * part + part);
    vstd::arithmetic::div_mod::lemma_fundamental_div_mod_converse(x, part, n, x - n * part);
}

/// The parts cover the object once, in order: each starts where the one before
/// it ends, the first at 0 and the last ending with the object.
pub proof fn parts_cover_the_object(total: u64, part_size: u64, i: int)
    requires
        part_size > 0,
        0 <= i < part_count(total, part_size),
    ensures
        part_bounds(total, part_size, 0).0 == 0,
        part_bounds(total, part_size, i).0 < part_bounds(total, part_size, i).1
            <= part_bounds(total, part_size, i).0 + part_size,
        part_bounds(total, part_size, i).1 == if i + 1 < part_count(total, part_size) {
            part_bounds(total, part_size, i + 1).0
        } else {
            total as int
        },
{
    let part = part_size as int;
    let x = total + part - 1;
    let n = part_count(total, part_size);
    vstd::arithmetic::div_mod::lemma_fundamental_div_mod(x, part);
    assert(0 * part == 0) by (nonlinear_arith);
    assert((i + 1) * part == i * part + part) by (nonlinear_arith);
    assert(part * n == n * part) by (nonlinear_arith);
    assert((i + 1) * part <= n * part) by (nonlinear_arith)
        requires
            i + 1 <= n,
            part > 0,
    ;
    if i + 1 < n {
        assert((i + 2) * part <= n * part) by (nonlinear_arith)
            requires
                i + 2 <= n,
                part > 0,
        ;
        assert((i + 2) * part == (i + 1) * part + part) by (nonlinear_arith);
    }
}

/// The bytes of the parts.
pub open spec fn part_bytes(parts: Seq<(u64, u64)>) -> int
    decreases parts.len(),
{
    if parts.len() == 0 {
        0
    } else {
        part_bytes(parts.drop_last()) + (parts.last().1 - parts.last().0)
    }
}

/// The parts are the object: an object with bytes has parts; the first starts
/// at 0, each of the others where the one before it ends, and the last ends
/// with the object; none is empty, each but the last has `part_size` bytes and
/// the last no more; so their bytes are the object's.
pub proof fn the_parts_are_the_object(parts: Seq<(u64, u64)>, total: u64, part_size: u64)
    requires
        part_size > 0,
        is_split(parts, total, part_size),
    ensures
        parts.len() == 0 <==> total == 0,
        total > 0 ==> parts[0].0 == 0 && parts.last().1 == total,
        forall|i: int| 1 <= i < parts.len() ==> #[trigger] parts[i].0 == parts[i - 1].1,
        forall|i: int|
            0 <= i < parts.len() - 1 ==> (#[trigger] parts[i]).1 - parts[i].0 == part_size,
        total > 0 ==> 0 < parts.last().1 - parts.last().0 <= part_size,
        part_bytes(parts) == total,
        total > part_size ==> parts.len() > 1,
{
    let part = part_size as int;
    let n = parts.len() as int;
    let x = total + part - 1;
    vstd::arithmetic::div_mod::lemma_fundamental_div_mod(x, part);
    assert(part * n == n * part) by (nonlinear_arith);
    assert(0 * part == 0) by (nonlinear_arith);
    assert(n >= 1 ==> n * part >= part) by (nonlinear_arith)
        requires
            part > 0,
    ;
    if total > 0 && n <= 0 {
        assert(n * part <= 0) by (nonlinear_arith)
            requires
                n <= 0,
                part > 0,
        ;
    }
    if n == 1 {
        assert(1 * part == part) by (nonlinear_arith);
    }
    assert forall|i: int| 0 <= i < n implies {
        &&& (#[trigger] parts[i]).0 < parts[i].1
        &&& i + 1 < n ==> parts[i].1 == parts[i + 1].0 && parts[i].1 - parts[i].0 == part_size
        &&& i + 1 == n ==> parts[i].1 == total
    } by {
        parts_cover_the_object(total, part_size, i);
        if i + 1 < n {
            parts_cover_the_object(total, part_size, i + 1);
            assert(parts[i + 1].0 == part_bounds(total, part_size, i + 1).0);
            assert((i + 1) * part == i * part + part) by (nonlinear_arith);
        }
    }
    assert forall|i: int| 1 <= i < n implies #[trigger] parts[i].0 == parts[i - 1].1 by {
        assert(parts[i - 1].0 < parts[i - 1].1);
    }
    if total > 0 {
        parts_cover_the_object(total, part_size, 0);
        parts_cover_the_object(total, part_size, n - 1);
        assert(parts[0].0 == part_bounds(total, part_size, 0).0);
        lemma_part_bytes(parts, n);
        assert(parts.take(n) =~= parts);
    }
}

/// Parts that follow on each other have the bytes up to the end of the last.
proof fn lemma_part_bytes(parts: Seq<(u64, u64)>, k: int)
    requires
        1 <= k <= parts.len(),
        parts[0].0 == 0,
        forall|i: int| 1 <= i < parts.len() ==> #[trigger] parts[i].0 == parts[i - 1].1,
    ensures
        part_bytes(parts.take(k)) == parts[k - 1].1,
    decreases k,
{
    reveal_with_fuel(part_bytes, 2);
    assert(parts.take(k).drop_last() =~= parts.take(k - 1));
    assert(parts.take(k).last() == parts[k - 1]);
    if k > 1 {
        lemma_part_bytes(parts, k - 1);
        assert(parts[k - 1].0 == parts[k - 2].1);
    } else {
        assert(parts.take(0) =~= Seq::empty());
    }
}

/// How an object is read.
#[derive(Debug, Clone, PartialEq, Eq)]
pub enum ReadPlan {
    /// One read of the whole object.
    Single,
    /// Ranged reads, taken in order.
    Ranges(Vec<(u64, u64)>),
}

/// The object is read that way.
pub open spec fn reads(r: ReadPlan, size: u64, part_concurrency: usize, part_size: u64) -> bool {
    &&& r is Single <==> part_concurrency <= 1 || size <= part_size
    &&& r is Ranges ==> is_split(r->0@, size, part_size)
}

/// An object is read in ranges exactly when it is larger than one and more than
/// one may be read at a time; the ranges then are at least two and have its
/// bytes.
pub proof fn large_objects_are_read_in_ranges(
    r: ReadPlan,
    size: u64,
    part_concurrency: usize,
    part_size: u64,
)
    requires
        part_size > 0,
        reads(r, size, part_concurrency, part_size),
    ensures
        r is Ranges <==> part_concurrency >= 2 && size > part_size,
        r matches ReadPlan::Ranges(ranges) ==> ranges@.len() >= 2 && part_bytes(ranges@) == size
            && ranges@[0].0 == 0 && ranges@.last().1 == size,
{
    if let ReadPlan::Ranges(ranges) = r {
        the_parts_are_the_object(ranges@, size, part_size);
    }
}

/// How an object is read: in ranges where more than one may be read at a time
/// and it is larger than one.
pub fn read_plan(size: u64, part_concurrency: usize, part_size: u64) -> (r: ReadPlan)
    requires
        part_size > 0,
    ensures
        reads(r, size, part_concurrency, part_size),
        r is Ranges ==> r->0@.len() > 1 && r->0@[0].0 == 0 && r->0@.last().1 == size,
{
    if part_concurrency <= 1 || size <= part_size {
        ReadPlan::Single
    } else {
        let ranges = split_ranges(size, part_size);
        proof {
            the_parts_are_the_object(ranges@, size, part_size);
        }
        ReadPlan::Ranges(ranges)
    }
}

/// A count that is at least one.
pub open spec fn one_or_more(n: usize) -> usize {
    if n > 1 {
        n
    } else {
        1
    }
}

/// A count is what was given, but that none counts as one.
pub proof fn counts_are_one_or_more(n: usize)
    ensures
        n >= 1 ==> one_or_more(n) == n,
        n == 0 ==> one_or_more(n) == 1,
{
}

/// A count that is at least one.
pub fn at_least_one(n: usize) -> (r: usize)
    ensures
        r == one_or_more(n),
{
    if n > 1 {
        n
    } else {
        1
    }
}

// ---------------------------------------------------------------------------
// Masking
// ---------------------------------------------------------------------------
#[verifier::external_type_specification]
#[verifier::external_body]
pub struct ExBytes(bytes::Bytes);

/// What a buffer holds.
pub uninterp spec fn contents(b: Bytes) -> Seq<u8>;

/// Calls `Bytes::as_ref`: the buffer's bytes.
#[verifier::external_body]
fn bytes_of(b: &Bytes) -> (s: &[u8])
    ensures
        s@ == contents(*b),
{
    b.as_ref()
}

/// Calls `Bytes::from` on a vector: a buffer of its bytes.
#[verifier::external_body]
fn buffer_of(v: Vec<u8>) -> (b: Bytes)
    ensures
        contents(b) == v@,
{
    Bytes::from(v)
}

/// Every byte XORed with `byte`.
pub open spec fn masked(data: Seq<u8>, byte: u8) -> Seq<u8> {
    data.map_values(|b: u8| b ^ byte)
}

/// The bytes XORed with `byte`, one for one.
pub fn xor_bytes(data: &[u8], byte: u8) -> (r: Vec<u8>)
    ensures
        r@ == masked(data@, byte),
{
    let mut r: Vec<u8> = Vec::new();
    let mut i: usize = 0;
    while i < data.len()
        invariant
            0 <= i <= data@.len(),
            r@ == masked(data@, byte).take(i as int),
        decreases data@.len() - i,
    {
        r.push(data[i] ^ byte);
        assert(masked(data@, byte).take(i + 1) =~= masked(data@, byte).take(i as int).push(
            data@[i as int] ^ byte,
        ));
        i = i + 1;
    }
    assert(masked(data@, byte).take(data@.len() as int) =~= masked(data@, byte));
    r
}

/// Every byte of the chunk XORed with `byte`; 0 passes the chunk through. It
/// defeats deduplication in benchmarks and keeps lengths and offsets.
pub fn xor_chunk(chunk: Bytes, byte: u8) -> (r: Bytes)
    ensures
        contents(r) == masked(contents(chunk), byte),
        byte == 0 ==> r == chunk,
{
    if byte == 0 {
        proof {
            masking_with_zero_changes_nothing(contents(chunk));
        }
        return chunk;
    }
    let r = xor_bytes(bytes_of(&chunk), byte);
    buffer_of(r)
}

/// Masking with zero changes nothing.
pub proof fn masking_with_zero_changes_nothing(data: Seq<u8>)
    ensures
        masked(data, 0) == data,
{
    assert forall|i: int| 0 <= i < data.len() implies masked(data, 0)[i] == data[i] by {
        let b = data[i];
        assert(b ^ 0u8 == b) by (bit_vector);
    }
    assert(masked(data, 0) =~= data);
}

/// Masking keeps the length, and masking again gives the data back.
pub proof fn masking_twice_restores(data: Seq<u8>, byte: u8)
    ensures
        masked(data, byte).len() == data.len(),
        masked(masked(data, byte), byte) == data,
{
    let twice = masked(masked(data, byte), byte);
    assert forall|i: int| 0 <= i < data.len() implies twice[i] == data[i] by {
        let b = data[i];
        assert((b ^ byte) ^ byte == b) by (bit_vector);
    }
    assert(twice =~= data);
}

// ---------------------------------------------------------------------------
// Committing
// ---------------------------------------------------------------------------
/// The objects that may wait between the listing and the upload.
pub open spec fn waiting_room(commit_chunk: usize) -> usize {
    if commit_chunk < 256 {
        256
    } else if commit_chunk > 100_000 {
        100_000
    } else {
        commit_chunk
    }
}

/// As many objects may wait as a commit has files, from 256 to 100,000; more
/// files never make less room.
pub proof fn the_waiting_room_is_bounded(commit_chunk: usize, more: usize)
    ensures
        256 <= waiting_room(commit_chunk) <= 100_000,
        256 <= commit_chunk <= 100_000 ==> waiting_room(commit_chunk) == commit_chunk,
        commit_chunk <= more ==> waiting_room(commit_chunk) <= waiting_room(more),
{
}

/// The objects that may wait between the listing and the upload.
pub fn channel_capacity(commit_chunk: usize) -> (r: usize)
    ensures
        r == waiting_room(commit_chunk),
{
    if commit_chunk < 256 {
        256
    } else if commit_chunk > 100_000 {
        100_000
    } else {
        commit_chunk
    }
}

/// The files and bytes handed to one commit session so far.
#[derive(Debug, Clone, Copy, PartialEq, Eq)]
pub struct Session {
    pub files: usize,
    pub bytes: u64,
}

impl Session {
    /// The session takes no more: it has its files, or, where bytes are
    /// limited, its bytes.
    pub open spec fn closed(&self, commit_chunk: usize, commit_bytes: u64) -> bool {
        ||| self.files >= if commit_chunk > 1 {
            commit_chunk
        } else {
            1
        }
        ||| commit_bytes > 0 && self.bytes >= commit_bytes
    }

    /// `next` has one file more.
    pub open spec fn takes(&self, size: u64, next: Session) -> bool {
        &&& next.files == self.files + 1
        &&& next.bytes == if self.bytes + size <= u64::MAX {
            (self.bytes + size) as u64
        } else {
            u64::MAX
        }
    }

    /// The session has these files.
    pub open spec fn holds(&self, sizes: Seq<u64>) -> bool {
        &&& self.files == sizes.len()
        &&& self.bytes == listing::saturated(listing::bytes_sum(sizes))
    }

    /// A session without files.
    pub fn new() -> (s: Self)
        ensures
            s.files == 0,
            s.bytes == 0,
    {
        Session { files: 0, bytes: 0 }
    }

    /// Hand one file to the session; whether it takes no more after that. A
    /// session always takes its first file.
    pub fn add(&mut self, size: u64, commit_chunk: usize, commit_bytes: u64) -> (full: bool)
        requires
            old(self).files < usize::MAX,
        ensures
            old(self).takes(size, *final(self)),
            full == final(self).closed(commit_chunk, commit_bytes),
    {
        self.files = self.files + 1;
        self.bytes = self.bytes.saturating_add(size);
        self.files >= commit_chunk || (commit_bytes > 0 && self.bytes >= commit_bytes)
    }
}

/// A session that is closed as soon as it takes no more holds at most
/// `commit_chunk` files, and one file at least.
pub proof fn sessions_are_bounded(
    before: Session,
    after: Session,
    commit_chunk: usize,
    commit_bytes: u64,
)
    requires
        before.files == 0 || !before.closed(commit_chunk, commit_bytes),
        after.files == before.files + 1,
    ensures
        1 <= after.files <= if commit_chunk > 1 {
            commit_chunk as int
        } else {
            1
        },
{
}

/// A session has the files that were handed to it, and takes no more exactly
/// when they are as many as a commit has, or, where bytes are limited, have as
/// many bytes.
pub proof fn sessions_hold_their_files(
    before: Session,
    sizes: Seq<u64>,
    size: u64,
    after: Session,
    commit_chunk: usize,
    commit_bytes: u64,
)
    requires
        before.holds(sizes),
        before.takes(size, after),
    ensures
        after.holds(sizes.push(size)),
        after.closed(commit_chunk, commit_bytes) <==> sizes.len() + 1 >= commit_chunk || (
        commit_bytes > 0 && listing::bytes_sum(sizes) + size >= commit_bytes),
{
    assert(sizes.push(size).drop_last() =~= sizes);
}

/// What came of one file.
#[derive(Debug, Clone, PartialEq, Eq)]
pub enum UploadOutcome {
    Uploaded,
    /// The source object is gone: skipped without failing the batch.
    Skipped { key: String, reason: String },
}

/// The outcome is the skip of an object that the source no longer has.
pub open spec fn is_skip(r: UploadOutcome, key: Seq<char>) -> bool {
    r matches UploadOutcome::Skipped { key: k, reason } && k@ == key && reason@
        == "S3 GET returned 404 (likely a phantom listing entry)"@
}

/// The outcome for an object that the source no longer has.
pub fn source_vanished(key: &str) -> (r: UploadOutcome)
    ensures
        is_skip(r, key@),
{
    UploadOutcome::Skipped {
        key: key.to_owned(),
        reason: "S3 GET returned 404 (likely a phantom listing entry)".to_owned(),
    }
}

/// `op` registers the object `key`, uploaded as `xet_hash`, at its destination
/// path.
pub open spec fn registers(
    op: BatchOp,
    key: Seq<char>,
    src_prefix: Seq<char>,
    dest_prefix: Seq<char>,
    xet_hash: String,
    mtime_ms: u64,
) -> bool {
    &&& op.dest() == keys::landed(key, dest_prefix, src_prefix)
    &&& op matches BatchOp::AddFile { path, xet_hash: h, mtime, content_type }
    &&& h == xet_hash
    &&& mtime == mtime_ms
    &&& content_type is None
}

/// The operation that registers an uploaded object at its destination path.
pub fn file_op(
    key: &str,
    src_prefix: &str,
    dest_prefix: &str,
    xet_hash: String,
    mtime_ms: u64,
) -> (r: BatchOp)
    ensures
        registers(r, key@, src_prefix@, dest_prefix@, xet_hash, mtime_ms),
{
    let rel = keys::relative_key_path(key, src_prefix);
    BatchOp::AddFile {
        path: keys::destination_path(dest_prefix, rel.as_str()),
        xet_hash,
        mtime: mtime_ms,
        content_type: None,
    }
}

/// How the read and upload of one object ended.
#[derive(Debug, Clone, PartialEq, Eq)]
pub enum ReadEnd {
    /// All of it was taken: the hash it is stored under.
    Taken { hash: String },
    /// The source does not have it.
    Gone,
    /// Anything else, in words.
    Failed(String),
}

/// What comes of one object that ended so, and the operation to queue.
pub open spec fn comes_of(
    r: (Result<UploadOutcome, String>, Option<BatchOp>),
    key: Seq<char>,
    src_prefix: Seq<char>,
    dest_prefix: Seq<char>,
    end: ReadEnd,
    mtime_ms: u64,
) -> bool {
    match end {
        ReadEnd::Taken { hash } => {
            &&& r.0 == Ok::<UploadOutcome, String>(UploadOutcome::Uploaded)
            &&& r.1 is Some
            &&& registers(r.1->0, key, src_prefix, dest_prefix, hash, mtime_ms)
        },
        ReadEnd::Gone => {
            &&& r.0 is Ok
            &&& is_skip(r.0->Ok_0, key)
            &&& r.1 is None
        },
        ReadEnd::Failed(e) => {
            &&& r.0 == Err::<UploadOutcome, String>(e)
            &&& r.1 is None
        },
    }
}

/// An object is queued exactly when all of it was taken, under its hash; it is
/// skipped exactly when it is gone; and any other end fails, with its words.
pub proof fn only_what_was_taken_is_queued(
    r: (Result<UploadOutcome, String>, Option<BatchOp>),
    key: Seq<char>,
    src_prefix: Seq<char>,
    dest_prefix: Seq<char>,
    end: ReadEnd,
    mtime_ms: u64,
)
    requires
        comes_of(r, key, src_prefix, dest_prefix, end, mtime_ms),
    ensures
        r.1 is Some <==> end is Taken,
        r.0 is Err <==> end is Failed,
        (r.0 matches Ok(UploadOutcome::Skipped { .. })) <==> end is Gone,
        (r.0 matches Ok(UploadOutcome::Uploaded)) <==> end is Taken,
        end matches ReadEnd::Failed(e) ==> r.0->Err_0 == e,
        end matches ReadEnd::Taken { hash } ==> (r.1->0 matches BatchOp::AddFile { xet_hash, .. }
            && xet_hash == hash),
        r.0 matches Ok(UploadOutcome::Skipped { key: k, .. }) ==> k@ == key,
{
}

/// What comes of one object, and the operation to queue: an object that is
/// gone is skipped, any other failure is the file's error, and only an object
/// that was taken is registered.
pub fn upload_outcome(
    key: &str,
    src_prefix: &str,
    dest_prefix: &str,
    end: ReadEnd,
    mtime_ms: u64,
) -> (r: (Result<UploadOutcome, String>, Option<BatchOp>))
    ensures
        comes_of(r, key@, src_prefix@, dest_prefix@, end, mtime_ms),
{
    match end {
        ReadEnd::Taken { hash } => {
            let op = file_op(key, src_prefix, dest_prefix, hash, mtime_ms);
            (Ok(UploadOutcome::Uploaded), Some(op))
        },
        ReadEnd::Gone => (Ok(source_vanished(key)), None),
        ReadEnd::Failed(e) => (Err(e), None),
    }
}

/// How many files failed, and how many were skipped.
pub open spec fn tally(results: Seq<Result<UploadOutcome, String>>) -> (nat, nat)
    decreases results.len(),
{
    if results.len() == 0 {
        (0, 0)
    } else {
        let before = tally(results.drop_last());
        match results.last() {
            Ok(UploadOutcome::Uploaded) => before,
            Ok(UploadOutcome::Skipped { .. }) => (before.0, before.1 + 1),
            Err(_) => (before.0 + 1, before.1),
        }
    }
}

/// One file more counts as failed, as skipped or as neither, by its own result.
pub proof fn results_are_counted(
    results: Seq<Result<UploadOutcome, String>>,
    r: Result<UploadOutcome, String>,
)
    ensures
        tally(Seq::empty()) == (0nat, 0nat),
        r is Err ==> tally(results.push(r)) == (tally(results).0 + 1, tally(results).1),
        r is Ok && r->Ok_0 is Skipped ==> tally(results.push(r)) == (
            tally(results).0,
            tally(results).1 + 1,
        ),
        r is Ok && r->Ok_0 is Uploaded ==> tally(results.push(r)) == tally(results),
{
    assert(results.push(r).drop_last() =~= results);
}

/// A session is committed exactly when no file of it failed: a skipped file
/// fails nothing.
pub proof fn one_failure_stops_the_commit(results: Seq<Result<UploadOutcome, String>>)
    ensures
        tally(results).0 == 0 <==> forall|i: int|
            0 <= i < results.len() ==> (#[trigger] results[i]) is Ok,
        tally(results).0 + tally(results).1 <= results.len(),
    decreases results.len(),
{
    if results.len() > 0 {
        let front = results.drop_last();
        one_failure_stops_the_commit(front);
        assert(results[results.len() - 1] == results.last());
        if tally(results).0 == 0 {
            assert forall|i: int| 0 <= i < results.len() implies (#[trigger] results[i]) is Ok by {
                if i < front.len() {
                    assert(front[i] == results[i]);
                }
            }
        }
        if forall|i: int| 0 <= i < results.len() ==> (#[trigger] results[i]) is Ok {
            assert forall|i: int| 0 <= i < front.len() implies (#[trigger] front[i]) is Ok by {
                assert(results[i] == front[i]);
            }
        }
    }
}

/// The outcome `r` of asking whether a session may be committed.
pub open spec fn may_commit(
    r: Result<u64, String>,
    results: Seq<Result<UploadOutcome, String>>,
) -> bool {
    &&& r is Ok <==> tally(results).0 == 0
    &&& r is Ok ==> r->Ok_0 == tally(results).1
    &&& r is Err ==> r->Err_0@ == text::decimal(tally(results).0)
        + " files failed in chunk (non-recoverable); aborting ("@ + text::decimal(
        tally(results).1,
    ) + " skipped)"@
}

/// A session is committed exactly when every file of it was uploaded or
/// skipped, and then says how many were skipped; otherwise the words begin with
/// how many failed and give how many were skipped.
pub proof fn sessions_are_committed_without_failures(
    r: Result<u64, String>,
    results: Seq<Result<UploadOutcome, String>>,
)
    requires
        may_commit(r, results),
    ensures
        r is Ok <==> forall|i: int| 0 <= i < results.len() ==> (#[trigger] results[i]) is Ok,
        r is Ok ==> r->Ok_0 == tally(results).1,
        r is Err ==> r->Err_0@.take(text::decimal(tally(results).0).len() as int) == text::decimal(
            tally(results).0,
        ),
        r is Err ==> text::holds(r->Err_0@, text::decimal(tally(results).1) + " skipped"@),
{
    one_failure_stops_the_commit(results);
    if r is Err {
        reveal_strlit(" skipped)");
        reveal_strlit(" skipped");
        reveal_strlit(")");
        let w = r->Err_0@;
        let f = text::decimal(tally(results).0);
        let s = text::decimal(tally(results).1);
        let mid = " files failed in chunk (non-recoverable); aborting ("@;
        assert(w.take(f.len() as int) =~= f);
        assert(" skipped)"@ =~= " skipped"@ + ")"@);
        assert(w =~= (f + mid) + (s + " skipped"@) + ")"@);
        text::texts_hold_what_is_inside(w, s + " skipped"@, f + mid, ")"@);
    }
}

/// Whether a session may be committed: how many files it skipped, or, where
/// any file failed, the words that abort the run.
pub fn session_verdict(results: &Vec<Result<UploadOutcome, String>>) -> (r: Result<u64, String>)
    ensures
        may_commit(r, results@),
{
    let mut failed: u64 = 0;
    let mut skipped: u64 = 0;
    let mut i: usize = 0;
    while i < results.len()
        invariant
            0 <= i <= results@.len(),
            failed <= i,
            skipped <= i,
            tally(results@.take(i as int)) == (failed as nat, skipped as nat),
        decreases results@.len() - i,
    {
        assert(results@.take(i + 1).drop_last() =~= results@.take(i as int));
        assert(results@.take(i + 1).last() == results@[i as int]);
        match &results[i] {
            Ok(UploadOutcome::Uploaded) => {},
            Ok(UploadOutcome::Skipped { .. }) => {
                skipped = skipped + 1;
            },
            Err(_) => {
                failed = failed + 1;
            },
        }
        i = i + 1;
    }
    assert(results@.take(results@.len() as int) =~= results@);
    if failed == 0 {
        return Ok(skipped);
    }
    let mut words = text::decimal_text(failed);
    words.append(" files failed in chunk (non-recoverable); aborting (");
    words.append(text::decimal_text(skipped).as_str());
    words.append(" skipped)");
    Err(words)
}

// ---------------------------------------------------------------------------
// Copier jobs
// ---------------------------------------------------------------------------
/// The seconds that a copier of that many bytes and files is given: by the
/// slower of a bandwidth of 80 MiB/s and a rate of 300 files/s, with ten
/// minutes on top and a quarter of an hour at least.
pub open spec fn timeout_of(bytes: u64, files: u64) -> int {
    let by_bytes = bytes as int / 83_886_080;
    let by_files = files as int / 300;
    let most = 600 + if by_bytes > by_files {
        by_bytes
    } else {
        by_files
    };
    if most > 900 {
        most
    } else {
        900
    }
}

/// The seconds that a copier is given. A job is stopped only at its limit, so
/// that too long a limit costs nothing and too short a one kills a copy.
pub fn copier_timeout_s(bytes: u64, files: u64) -> (r: u64)
    ensures
        r == timeout_of(bytes, files),
{
    let by_bytes: u64 = bytes / 83_886_080;
    let by_files: u64 = files / 300;
    let most: u64 = 600 + if by_bytes > by_files {
        by_bytes
    } else {
        by_files
    };
    if most > 900 {
        most
    } else {
        900
    }
}

/// A larger range is never given less time.
pub proof fn timeouts_grow_with_the_range(
    bytes: u64,
    files: u64,
    more_bytes: u64,
    more_files: u64,
)
    requires
        bytes <= more_bytes,
        files <= more_files,
    ensures
        900 <= timeout_of(bytes, files) <= timeout_of(more_bytes, more_files),
{
}

/// The exclude flags of a copier.
pub open spec fn exclude_args(globs: Seq<Seq<char>>) -> Seq<Seq<char>>
    decreases globs.len(),
{
    if globs.len() == 0 {
        Seq::empty()
    } else {
        exclude_args(globs.drop_last()) + seq!["--exclude"@, globs.last()]
    }
}

/// The command line of a copier: this program on one range.
pub open spec fn copier_command(cfg: PlanConfig, region: Seq<char>, c: Copier) -> Seq<Seq<char>> {
    seq![
        "hf-s3ream"@,
        cfg.source_s3_url@,
        cfg.dest@,
        "--hub-endpoint"@,
        cfg.hub_endpoint@,
        "--aws-region"@,
        region,
        "--stop-at"@,
        c.stop_at@,
        "--parallel-files"@,
        text::decimal(c.pf as nat),
        "--s3-part-concurrency"@,
        text::decimal(cfg.s3_part_concurrency as nat),
        "--s3-part-size-mib"@,
        text::decimal(cfg.s3_part_size_mib as nat),
        "--commit-chunk"@,
        text::decimal(cfg.commit_chunk as nat),
    ] + (match c.start_after {
        Some(s) => seq!["--start-after"@, s@],
        None => Seq::empty(),
    }) + exclude_args(text::texts(cfg.exclude_globs@))
}

/// Append one word to a command line.
fn push_arg(command: &mut Vec<String>, arg: &str)
    ensures
        text::texts(final(command)@) == text::texts(old(command)@).push(arg@),
{
    let ghost was = text::texts(command@);
    let arg = arg.to_owned();
    command.push(arg);
    assert(text::texts(command@) =~= was.push(arg@));
}

/// The job is what the copier of the range is asked to run.
pub open spec fn asks_for(spec: JobSpec, cfg: PlanConfig, region: Seq<char>, c: Copier) -> bool {
    &&& text::texts(spec.command@) == copier_command(cfg, region, c)
    &&& spec.arguments@.len() == 0
    &&& spec.environment.entries@ == cfg.copier_env.entries@
    &&& spec.flavor == cfg.copier_flavor
    &&& spec.docker_image == cfg.copier_image
    &&& spec.secrets.entries@ == cfg.copier_secrets.entries@
    &&& spec.timeout_seconds is Some
    &&& spec.timeout_seconds->0 == timeout_of(c.bytes, c.files)
    &&& spec.labels@ == Map::empty().insert("hf-s3ream-run"@, cfg.run_label)
}

/// What the copier job of one range is asked to run: its command line, the
/// environment and secrets handed on to it, the time it is given and the
/// label of the run.
pub fn build_copier_spec(cfg: &PlanConfig, region: &str, c: &Copier) -> (spec: JobSpec)
    ensures
        asks_for(spec, *cfg, region@, *c),
{
    let mut command: Vec<String> = Vec::new();
    push_arg(&mut command, "hf-s3ream");
    push_arg(&mut command, cfg.source_s3_url.as_str());
    push_arg(&mut command, cfg.dest.as_str());
    push_arg(&mut command, "--hub-endpoint");
    push_arg(&mut command, cfg.hub_endpoint.as_str());
    push_arg(&mut command, "--aws-region");
    push_arg(&mut command, region);
    push_arg(&mut command, "--stop-at");
    push_arg(&mut command, c.stop_at.as_str());
    push_arg(&mut command, "--parallel-files");
    push_arg(&mut command, text::decimal_text(c.pf as u64).as_str());
    push_arg(&mut command, "--s3-part-concurrency");
    push_arg(&mut command, text::decimal_text(cfg.s3_part_concurrency as u64).as_str());
    push_arg(&mut command, "--s3-part-size-mib");
    push_arg(&mut command, text::decimal_text(cfg.s3_part_size_mib as u64).as_str());
    push_arg(&mut command, "--commit-chunk");
    push_arg(&mut command, text::decimal_text(cfg.commit_chunk as u64).as_str());
    if let Some(start) = &c.start_after {
        push_arg(&mut command, "--start-after");
        push_arg(&mut command, start.as_str());
    }
    let ghost head = text::texts(command@);
    let ghost globs = text::texts(cfg.exclude_globs@);
    assert(head + exclude_args(globs) =~= copier_command(*cfg, region@, *c));
    let mut i: usize = 0;
    assert(head + exclude_args(globs.take(0)) =~= head);
    while i < cfg.exclude_globs.len()
        invariant
            0 <= i <= cfg.exclude_globs@.len(),
            globs == text::texts(cfg.exclude_globs@),
            text::texts(command@) == head + exclude_args(globs.take(i as int)),
        decreases cfg.exclude_globs@.len() - i,
    {
        push_arg(&mut command, "--exclude");
        push_arg(&mut command, cfg.exclude_globs[i].as_str());
        assert(globs.take(i + 1).drop_last() =~= globs.take(i as int));
        assert(globs.take(i + 1).last() == cfg.exclude_globs@[i as int]@);
        assert(text::texts(command@) =~= head + exclude_args(globs.take(i + 1)));
        i = i + 1;
    }
    assert(globs.take(globs.len() as int) =~= globs);
    let mut labels: KeyMap<String> = KeyMap::new();
    labels.insert("hf-s3ream-run".to_owned(), cfg.run_label.clone());
    JobSpec {
        command,
        arguments: Vec::new(),
        environment: keymap::copy_of(&cfg.copier_env),
        flavor: cfg.copier_flavor.clone(),
        docker_image: cfg.copier_image.clone(),
        secrets: keymap::copy_of(&cfg.copier_secrets),
        timeout_seconds: Some(copier_timeout_s(c.bytes, c.files)),
        labels,
    }
}

/// Secrets stay off the command line: what a copier is asked to run does not
/// depend on them.
pub proof fn secrets_stay_off_the_command_line(
    a: PlanConfig,
    b: PlanConfig,
    region: Seq<char>,
    c: Copier,
)
    requires
        b == (PlanConfig {
            hf_token: b.hf_token,
            copier_secrets: b.copier_secrets,
            ..a
        }),
    ensures
        copier_command(a, region, c) == copier_command(b, region, c),
{
}

/// At its place, a command line excludes the pattern.
pub open spec fn excludes_at(words: Seq<Seq<char>>, at: int, pattern: Seq<char>) -> bool {
    &&& 0 <= at
    &&& at + 1 < words.len()
    &&& words[at] == "--exclude"@
    &&& words[at + 1] == pattern
}

/// The exclude flags name every pattern, in order, and nothing else.
pub proof fn every_pattern_is_excluded(globs: Seq<Seq<char>>)
    ensures
        exclude_args(globs).len() == 2 * globs.len(),
        forall|i: int|
            0 <= i < globs.len() ==> excludes_at(exclude_args(globs), 2 * i, #[trigger] globs[i]),
    decreases globs.len(),
{
    if globs.len() > 0 {
        let front = globs.drop_last();
        let before = exclude_args(front);
        let all = exclude_args(globs);
        every_pattern_is_excluded(front);
        assert(all =~= before + seq!["--exclude"@, globs.last()]);
        assert forall|i: int| 0 <= i < globs.len() implies excludes_at(
            all,
            2 * i,
            #[trigger] globs[i],
        ) by {
            if i < front.len() {
                assert(excludes_at(before, 2 * i, front[i]));
            }
        }
    }
}

/// Read from its front, a copier's command line gives back what it was made
/// from: the program, the source and the destination, then flags with their
/// values. Each copier stops at its range's last key and starts after its
/// range's lower bound, where it has one, and every copier, with or without a
/// lower bound, excludes every pattern of the plan.
pub proof fn the_copier_gets_its_range(cfg: PlanConfig, region: Seq<char>, c: Copier)
    ensures
        ({
            let command = copier_command(cfg, region, c);
            let globs = text::texts(cfg.exclude_globs@);
            let bounded: int = if c.start_after is Some {
                2
            } else {
                0
            };
            &&& command.len() == 17 + bounded + 2 * globs.len()
            &&& command[0] == "hf-s3ream"@
            &&& command[1] == cfg.source_s3_url@
            &&& command[2] == cfg.dest@
            &&& command[3] == "--hub-endpoint"@ && command[4] == cfg.hub_endpoint@
            &&& command[5] == "--aws-region"@ && command[6] == region
            &&& command[7] == "--stop-at"@ && command[8] == c.stop_at@
            &&& command[9] == "--parallel-files"@ && command[10] == text::decimal(c.pf as nat)
            &&& command[11] == "--s3-part-concurrency"@ && command[12] == text::decimal(
                cfg.s3_part_concurrency as nat,
            )
            &&& command[13] == "--s3-part-size-mib"@ && command[14] == text::decimal(
                cfg.s3_part_size_mib as nat,
            )
            &&& command[15] == "--commit-chunk"@ && command[16] == text::decimal(
                cfg.commit_chunk as nat,
            )
            &&& c.start_after is Some ==> command[17] == "--start-after"@ && command[18]
                == c.start_after->0@
            &&& forall|i: int|
                0 <= i < globs.len() ==> excludes_at(
                    command,
                    17 + bounded + 2 * i,
                    #[trigger] globs[i],
                )
        }),
{
    let globs = text::texts(cfg.exclude_globs@);
    let command = copier_command(cfg, region, c);
    let flags = exclude_args(globs);
    let at = command.len() - flags.len();
    every_pattern_is_excluded(globs);
    assert forall|i: int| 0 <= i < globs.len() implies excludes_at(
        command,
        at + 2 * i,
        #[trigger] globs[i],
    ) by {
        assert(excludes_at(flags, 2 * i, globs[i]));
        assert(command[at + 2 * i] == flags[2 * i]);
        assert(command[at + 2 * i + 1] == flags[2 * i + 1]);
    }
}

/// A copier's time is enough for its range at 80 MiB and 300 files a second,
/// with ten minutes to spare, and no longer than that, but for a quarter of an
/// hour at least.
pub proof fn timeouts_fit_the_range(bytes: u64, files: u64)
    ensures
        ({
            let t = timeout_of(bytes, files);
            &&& t >= 900
            &&& bytes < (t - 600 + 1) * 80 * 1024 * 1024
            &&& files < (t - 600 + 1) * 300
            &&& t > 900 ==> (t - 600) * 80 * 1024 * 1024 <= bytes || (t - 600) * 300 <= files
        }),
{
}

/// A source is read off a URL with the scheme `s3` and a host: the host is the
/// bucket, and the prefix is what follows the slashes that the path begins
/// with. Any other URL is refused by name.
pub proof fn sources_are_read(
    r: Result<(String, String), SourceError>,
    url: Seq<char>,
    parts: (Seq<char>, Option<Seq<char>>, Seq<char>, Seq<(Seq<char>, Seq<char>)>),
)
    requires
        source_read(r, url, parts),
    ensures
        r is Ok <==> parts.0 == "s3"@ && parts.1 is Some,
        (r matches Err(SourceError::Scheme { .. })) <==> parts.0 != "s3"@,
        (r matches Err(SourceError::NoBucket { .. })) <==> parts.0 == "s3"@ && parts.1 is None,
        r is Ok ==> (r->Ok_0).0@ == parts.1->0,
        r is Ok ==> {
            let prefix = (r->Ok_0).1@;
            let n = parts.2.len() - prefix.len();
            &&& 0 <= n
            &&& parts.2.skip(n) == prefix
            &&& forall|i: int| 0 <= i < n ==> #[trigger] parts.2[i] == '/'
            &&& prefix.len() > 0 ==> prefix[0] != '/'
        },
        r matches Err(SourceError::Scheme { url: u }) ==> u@ == url,
        r matches Err(SourceError::NoBucket { url: u }) ==> u@ == url,
{
    keys::only_slashes_are_stripped(parts.2);
}

/// The message of a source that is refused names it.
pub proof fn refusals_name_the_source(e: SourceError)
    ensures
        match e {
            SourceError::Parse { url, error } => text::holds(e.words(), url@) && e.words().skip(
                e.words().len() - error@.len(),
            ) == error@,
            SourceError::Scheme { url } => e.words().skip(e.words().len() - url@.len()) == url@,
            SourceError::NoBucket { url } => e.words().skip(e.words().len() - url@.len()) == url@,
        },
{
    let w = e.words();
    match e {
        SourceError::Parse { url, error } => {
            assert(w =~= "parse "@ + url@ + (": "@ + error@));
            text::texts_hold_what_is_inside(w, url@, "parse "@, ": "@ + error@);
            assert(w.skip(w.len() - error@.len()) =~= error@);
        },
        SourceError::Scheme { url } => {
            assert(w.skip(w.len() - url@.len()) =~= url@);
        },
        SourceError::NoBucket { url } => {
            assert(w.skip(w.len() - url@.len()) =~= url@);
        },
    }
}

/// A value with white space around it is the value; white space alone, like no
/// value, is none.
pub proof fn blank_values_are_not_given(a: Seq<char>, core: Seq<char>, b: Seq<char>)
    requires
        forall|i: int| 0 <= i < a.len() ==> text::is_white_space(#[trigger] a[i]),
        forall|i: int| 0 <= i < b.len() ==> text::is_white_space(#[trigger] b[i]),
        core.len() > 0,
        !text::is_white_space(core[0]),
        !text::is_white_space(core.last()),
    ensures
        given(Some(a + core + b)) == Some(core),
        given(Some(a)) is None,
        given(None) is None,
{
    text::trimming_leaves_the_core(a, core, b);
    text::trimming_takes_the_white_space(a);
    if text::trimmed(a).len() > 0 {
        let (x, y): (int, int) = choose|x: int, y: int|
            0 <= x <= y <= a.len() && text::trimmed(a) == #[trigger] a.subrange(x, y) && (forall|
                i: int,
            |
                0 <= i < x ==> text::is_white_space(#[trigger] a[i])) && (forall|i: int|
                y <= i < a.len() ==> text::is_white_space(#[trigger] a[i]));
        assert(text::trimmed(a)[0] == a[x]);
    }
}

/// The path of an object is its key with each segment encoded, segment by
/// segment.
pub proof fn paths_keep_the_segments(segments: Seq<Seq<char>>)
    requires
        segments.len() > 0,
        forall|i: int| 0 <= i < segments.len() ==> !(#[trigger] segments[i]).contains('/'),
        forall|i: int| 0 <= i < segments.len() ==> (#[trigger] segments[i]).len() > 0,
    ensures
        object_path(text::joined(segments, seq!['/'])) == text::joined(
            Seq::new(segments.len(), |i: int| encoded_segment(segments[i])),
            "/"@,
        ),
{
    text::joined_texts_are_split(segments, '/');
    let keep = |s: Seq<char>| s.len() > 0;
    lemma_filter_all(segments, keep);
    assert(segments.map_values(|s: Seq<char>| encoded_segment(s)) =~= Seq::new(
        segments.len(),
        |i: int| encoded_segment(segments[i]),
    ));
}

/// One segment more is encoded and joined on behind the others; an empty one
/// changes nothing.
pub proof fn empty_segments_leave_no_trace(segments: Seq<Seq<char>>, more: Seq<char>)
    requires
        segments.len() > 0,
        forall|i: int| 0 <= i < segments.len() ==> !(#[trigger] segments[i]).contains('/'),
        !more.contains('/'),
    ensures
        ({
            let key = text::joined(segments, seq!['/']);
            let longer = text::joined(segments.push(more), seq!['/']);
            &&& more.len() == 0 ==> object_path(longer) == object_path(key)
            &&& more.len() > 0 && (exists|i: int|
                0 <= i < segments.len() && (#[trigger] segments[i]).len() > 0) ==> object_path(
                longer,
            ) == object_path(key) + "/"@ + encoded_segment(more)
        }),
{
    let keep = |s: Seq<char>| s.len() > 0;
    let encode = |s: Seq<char>| encoded_segment(s);
    let all = segments.push(more);
    assert forall|i: int| 0 <= i < all.len() implies !(#[trigger] all[i]).contains('/') by {
        if i < segments.len() {
            assert(all[i] == segments[i]);
        }
    }
    text::joined_texts_are_split(segments, '/');
    text::joined_texts_are_split(all, '/');
    reveal(Seq::filter);
    assert(all.drop_last() =~= segments);
    let kept = segments.filter(keep);
    if more.len() > 0 && exists|i: int|
        0 <= i < segments.len() && (#[trigger] segments[i]).len() > 0 {
        let i = choose|i: int| 0 <= i < segments.len() && (#[trigger] segments[i]).len() > 0;
        broadcast use vstd::seq_lib::group_filter_ensures;

        assert(keep(segments[i]));
        assert(kept.contains(segments[i]));
        assert(kept.len() > 0);
        assert(kept.push(more).map_values(encode) =~= kept.map_values(encode).push(
            encoded_segment(more),
        ));
        text::texts_are_joined_in_order(kept.map_values(encode), encoded_segment(more), "/"@);
    }
}

/// A filter that refuses nothing changes nothing.
proof fn lemma_filter_all(list: Seq<Seq<char>>, keep: spec_fn(Seq<char>) -> bool)
    requires
        forall|i: int| 0 <= i < list.len() ==> keep(#[trigger] list[i]),
    ensures
        list.filter(keep) == list,
    decreases list.len(),
{
    reveal(Seq::filter);
    if list.len() > 0 {
        let front = list.drop_last();
        assert forall|i: int| 0 <= i < front.len() implies keep(#[trigger] front[i]) by {
            assert(list[i] == front[i]);
        }
        lemma_filter_all(front, keep);
        assert(keep(list[list.len() - 1]));
        assert(list =~= front.push(list.last()));
    } else {
        assert(list.filter(keep) =~= list);
    }
}

/// Each byte is masked by itself, at its own place.
pub proof fn bytes_are_masked_in_place(data: Seq<u8>, byte: u8, i: int)
    requires
        0 <= i < data.len(),
    ensures
        masked(data, byte).len() == data.len(),
        masked(data, byte)[i] == data[i] ^ byte,
{
}

/// A session that has a file takes no more exactly when it has as many files as
/// a commit, or, where bytes are limited, as many bytes.
pub proof fn sessions_close_at_their_limits(s: Session, commit_chunk: usize, commit_bytes: u64)
    requires
        s.files >= 1,
    ensures
        s.closed(commit_chunk, commit_bytes) <==> s.files >= commit_chunk || (commit_bytes > 0
            && s.bytes >= commit_bytes),
        commit_bytes == 0 && s.files < commit_chunk ==> !s.closed(commit_chunk, commit_bytes),
{
}

/// An uploaded object is registered under the path that reads back as its key,
/// with the hash and the time it was uploaded with; two keys that are copied
/// are registered under two paths.
pub proof fn uploads_are_registered_where_they_belong(
    op: BatchOp,
    key: Seq<char>,
    src_prefix: Seq<char>,
    dest_prefix: Seq<char>,
    xet_hash: String,
    mtime_ms: u64,
)
    requires
        registers(op, key, src_prefix, dest_prefix, xet_hash, mtime_ms),
    ensures
        op matches BatchOp::AddFile { path, xet_hash: h, mtime, content_type } && path@ == op.dest()
            && h == xet_hash && mtime == mtime_ms && content_type is None,
        keys::belongs(key, src_prefix) && !keys::has_empty_segment(key) && key != src_prefix
            + seq!['/'] + src_prefix ==> keys::origin(op.dest(), dest_prefix, src_prefix) == Some(
            key,
        ),
        dest_prefix.len() == 0 ==> op.dest() == keys::relative(key, src_prefix),
        dest_prefix.len() > 0 ==> op.dest() == dest_prefix + seq!['/'] + keys::relative(
            key,
            src_prefix,
        ),
{
    if keys::belongs(key, src_prefix) && !keys::has_empty_segment(key) && key != src_prefix
        + seq!['/'] + src_prefix {
        keys::source_key_inverts_the_mapping(key, dest_prefix, src_prefix);
    }
}

/// A skip names the key it skips and says that the source answered 404.
pub proof fn skips_name_the_key(r: UploadOutcome, key: Seq<char>)
    requires
        is_skip(r, key),
    ensures
        r is Skipped,
        r->key@ == key,
        text::holds(r->reason@, "404"@),
{
    reveal_strlit("S3 GET returned 404 (likely a phantom listing entry)");
    reveal_strlit("404");
    let words = "S3 GET returned 404 (likely a phantom listing entry)"@;
    let head = words.take(16);
    let tail = words.skip(19);
    assert("404"@ =~= words.subrange(16, 19));
    assert(words =~= head + "404"@ + tail);
    text::texts_hold_what_is_inside(words, "404"@, head, tail);
}

/// The job of a range runs its copier, in the image and on the machine of the
/// plan, with the plan's environment and secrets as they are, for as long as
/// the range may take, and is found by the run's label; all that the program
/// is told stands in the command.
pub proof fn jobs_run_their_copier(
    spec: JobSpec,
    cfg: PlanConfig,
    region: Seq<char>,
    c: Copier,
    key: Seq<char>,
)
    requires
        asks_for(spec, cfg, region, c),
    ensures
        spec.command@.len() == 17 + (if c.start_after is Some {
            2int
        } else {
            0int
        }) + 2 * cfg.exclude_globs@.len(),
        spec.command@[1]@ == cfg.source_s3_url@,
        spec.command@[2]@ == cfg.dest@,
        spec.command@[7]@ == "--stop-at"@ && spec.command@[8]@ == c.stop_at@,
        c.start_after is Some ==> spec.command@[17]@ == "--start-after"@ && spec.command@[18]@
            == c.start_after->0@,
        spec.arguments@.len() == 0,
        spec.docker_image == cfg.copier_image,
        spec.flavor == cfg.copier_flavor,
        spec.environment@ == cfg.copier_env@,
        spec.secrets@ == cfg.copier_secrets@,
        spec.timeout_seconds is Some,
        spec.timeout_seconds->0 >= 900,
        c.bytes < (spec.timeout_seconds->0 - 599) * 80 * 1024 * 1024,
        c.files < (spec.timeout_seconds->0 - 599) * 300,
        spec.labels@.contains_key(key) <==> key == "hf-s3ream-run"@,
        spec.labels@["hf-s3ream-run"@] == cfg.run_label,
{
    the_copier_gets_its_range(cfg, region, c);
    timeouts_fit_the_range(c.bytes, c.files);
    let words = text::texts(spec.command@);
    assert(words.len() == spec.command@.len());
    assert(words[1] == spec.command@[1]@ && words[2] == spec.command@[2]@ && words[7]
        == spec.command@[7]@ && words[8] == spec.command@[8]@);
    if c.start_after is Some {
        assert(words[17] == spec.command@[17]@ && words[18] == spec.command@[18]@);
    }
    assert(text::texts(cfg.exclude_globs@).len() == cfg.exclude_globs@.len());
    assert(spec.environment@ =~= cfg.copier_env@);
    assert(spec.secrets@ =~= cfg.copier_secrets@);
}

} // verus!
