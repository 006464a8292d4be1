//! The guard around one file's upload.
use vstd::prelude::*;
use crate::text;

verus! {

/// The bytes of one file that the upload has taken so far.
#[derive(Debug, Clone, Copy, PartialEq, Eq)]
pub struct Ingest {
    pub total: u64,
}

/// The words for a file that ended too early, or too late.
pub open spec fn truncated_words(total: u64, expected_size: u64) -> Seq<char> {
    "read truncated: ingested "@ + text::decimal(total as nat) + " of "@ + text::decimal(
        expected_size as nat,
    )
        + " bytes before end-of-stream — refusing to finalize (reader died, partial S3 response, or source mutated)"@
}

impl Ingest {
    /// Nothing taken yet.
    pub fn new() -> (i: Self)
        ensures
            i.total == 0,
    {
        Ingest { total: 0 }
    }

    /// Whether a chunk of `n` bytes can be counted.
    pub fn has_room(&self, n: u64) -> (r: bool)
        ensures
            r == (self.total + n <= u64::MAX),
    {
        n <= u64::MAX - self.total
    }

    /// Count one chunk of `n` bytes.
    pub fn add(&mut self, n: u64)
        requires
            old(self).total + n <= u64::MAX,
        ensures
            final(self).total == old(self).total + n,
    {
        self.total = self.total + n;
    }

    /// The outcome `r` of the check at the end of a file.
    pub open spec fn checks(&self, expected_size: u64, r: Result<(), String>) -> bool {
        &&& r is Ok <==> self.total == expected_size
        &&& r is Err ==> r->Err_0@ == truncated_words(self.total, expected_size)
    }

    /// Whether the file may be finalized: only where exactly the source's
    /// bytes were taken. A reader that dies looks like the end of the stream,
    /// and finalizing then would store a truncated file under a hash that
    /// fits it.
    pub fn check(&self, expected_size: u64) -> (r: Result<(), String>)
        ensures
            self.checks(expected_size, r),
    {
        if self.total == expected_size {
            return Ok(());
        }
        let mut words = String::new();
        words.append("read truncated: ingested ");
        words.append(text::decimal_text(self.total).as_str());
        words.append(" of ");
        words.append(text::decimal_text(expected_size).as_str());
        words.append(
            " bytes before end-of-stream — refusing to finalize (reader died, partial S3 response, or source mutated)",
        );
        assert(words@ =~= truncated_words(self.total, expected_size));
        Err(words)
    }
}

/// The bytes of the chunks.
pub open spec fn chunk_sum(chunks: Seq<u64>) -> nat
    decreases chunks.len(),
{
    if chunks.len() == 0 {
        0
    } else {
        chunk_sum(chunks.drop_last()) + chunks.last() as nat
    }
}

/// Counting one more chunk keeps the count that of the chunks taken.
pub proof fn ingest_counts_the_chunks(i: Ingest, chunks: Seq<u64>, n: u64, next: Ingest)
    requires
        i.total == chunk_sum(chunks),
        next.total == i.total + n,
    ensures
        next.total == chunk_sum(chunks.push(n)),
{
    assert(chunks.push(n).drop_last() =~= chunks);
}

/// A file is finalized only whole: where the chunks taken are not exactly the
/// source's bytes, the check refuses it.
pub proof fn only_whole_files_are_finalized(
    i: Ingest,
    chunks: Seq<u64>,
    expected_size: u64,
    r: Result<(), String>,
)
    requires
        i.total == chunk_sum(chunks),
        i.checks(expected_size, r),
    ensures
        r is Ok <==> chunk_sum(chunks) == expected_size,
{
}

/// The words for a truncated file give the bytes taken and the bytes expected.
pub proof fn truncations_give_both_counts(total: u64, expected_size: u64)
    ensures
        text::holds(
            truncated_words(total, expected_size),
            text::decimal(total as nat) + " of "@ + text::decimal(expected_size as nat),
        ),
{
    let words = truncated_words(total, expected_size);
    let head = "read truncated: ingested "@;
    let counts = text::decimal(total as nat) + " of "@ + text::decimal(expected_size as nat);
    let tail =
        " bytes before end-of-stream — refusing to finalize (reader died, partial S3 response, or source mutated)"@;
    assert(words =~= head + counts + tail);
    text::texts_hold_what_is_inside(words, counts, head, tail);
}

} // verus!
