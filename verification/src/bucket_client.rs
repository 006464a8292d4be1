//! Batches of operations on a bucket: what is sent, what can go wrong with it,
//! and what is sent again.
use vstd::prelude::*;
use crate::http;
use crate::keymap;
use crate::keymap::KeyMap;
use crate::text;

verus! {

/// Where and with what a CAS write is authorised.
#[derive(Debug, Clone, PartialEq, Eq)]
pub struct CasTokenInfo {
    pub cas_url: String,
    /// Unix seconds.
    pub exp: u64,
    pub access_token: String,
}

/// One operation of a batch. Only adds are issued.
#[derive(Debug, Clone, PartialEq, Eq)]
pub enum BatchOp {
    AddFile {
        path: String,
        xet_hash: String,
        /// Milliseconds since the Unix epoch.
        mtime: u64,
        content_type: Option<String>,
    },
}

impl BatchOp {
    /// The destination path this operation registers.
    pub open spec fn dest(&self) -> Seq<char> {
        match self {
            BatchOp::AddFile { path, .. } => path@,
        }
    }

    /// The destination path this operation registers: the key the server
    /// echoes back for an operation that failed.
    pub fn path(&self) -> (p: &str)
        ensures
            p@ == self.dest(),
    {
        match self {
            BatchOp::AddFile { path, .. } => path.as_str(),
        }
    }
}

/// The server's verdict on a batch.
#[derive(Debug, Clone, PartialEq, Eq)]
pub struct BatchReport {
    /// Whether every operation was applied.
    pub success: bool,
    /// The operations that were not: empty for a clean batch.
    pub failed: Vec<FailedOp>,
    /// Operations attempted.
    pub processed: Option<i64>,
    /// Operations applied.
    pub succeeded: Option<i64>,
}

/// One operation that was not applied.
#[derive(Debug, Clone, PartialEq, Eq)]
pub struct FailedOp {
    pub path: String,
    pub error: String,
}

/// One batch response reduced to what settlement needs.
#[derive(Debug, Clone, PartialEq, Eq)]
pub struct BatchResponse {
    pub status: u16,
    /// The server's handle on this response, named in every error about it.
    pub request_id: String,
    pub body: String,
    /// The report decoded from `body`; `None` where it does not decode.
    pub report: Option<BatchReport>,
}

/// Why a batch fails for good.
#[derive(Debug, Clone, PartialEq, Eq)]
pub enum BatchError {
    /// A status that is final, with its body.
    Status { status: u16, request_id: String, body: String },
    /// The report counts another number of operations than were sent.
    Processed {
        processed: i64,
        sent: u64,
        succeeded: Option<i64>,
        failed: u64,
        request_id: String,
    },
    /// The report names paths that were never sent.
    UnknownPaths { unknown: Vec<String>, sent: u64 },
    /// The report's successes and named failures do not add up.
    Succeeded { succeeded: i64, sent: u64, named: u64, expected: u64, request_id: String },
    /// Not everything was applied, and nothing is named.
    Unnamed {
        sent: u64,
        processed: Option<i64>,
        succeeded: Option<i64>,
        request_id: String,
    },
    /// Operations still failing after the last attempt.
    Exhausted { pending: Vec<String> },
}

// ---------------------------------------------------------------------------
// Words
// ---------------------------------------------------------------------------
/// Paths that one message names.
pub const SHOW: usize = 5;

/// A few paths, quoted, then an ellipsis.
pub open spec fn some_of(paths: Seq<Seq<char>>) -> Seq<char> {
    let shown = if paths.len() > SHOW {
        paths.take(SHOW as int)
    } else {
        paths
    };
    some_line(shown.map_values(|p: Seq<char>| text::quoted(p)), paths.len() > SHOW)
}

/// The texts of a list of string slices.
pub open spec fn str_texts(v: Seq<&str>) -> Seq<Seq<char>> {
    v.map_values(|s: &str| s@)
}

/// Quoted paths in one line; an ellipsis where there are more.
pub open spec fn some_line(quoted: Seq<Seq<char>>, more: bool) -> Seq<char> {
    let list = text::joined(quoted, ", "@);
    if more {
        list + ", …"@
    } else {
        list
    }
}

/// Quoted paths in one line; an ellipsis where there are more.
pub fn name_some_with(quoted: &Vec<String>, more: bool) -> (r: String)
    ensures
        r@ == some_line(text::texts(quoted@), more),
{
    let mut r = text::join(quoted, ", ");
    if more {
        r.append(", …");
    }
    r
}

/// A few paths, quoted, then an ellipsis: enough to find them in a log
/// without one line carrying a whole chunk.
pub fn name_some(paths: &[&str]) -> (r: String)
    ensures
        r@ == some_of(str_texts(paths@)),
{
    let n: usize = if paths.len() > SHOW {
        SHOW
    } else {
        paths.len()
    };
    let mut list: Vec<String> = Vec::new();
    let mut i: usize = 0;
    let ghost shown = str_texts(paths@).take(n as int).map_values(
        |p: Seq<char>| text::quoted(p),
    );
    while i < n
        invariant
            0 <= i <= n <= paths@.len(),
            shown == str_texts(paths@).take(n as int).map_values(|p: Seq<char>| text::quoted(p)),
            text::texts(list@) == shown.take(i as int),
        decreases n - i,
    {
        let ghost before = text::texts(list@);
        let q = text::quote(paths[i]);
        list.push(q);
        assert(shown[i as int] == text::quoted(str_texts(paths@)[i as int]));
        assert(text::texts(list@) =~= before.push(q@));
        assert(text::texts(list@) =~= shown.take(i + 1));
        i = i + 1;
    }
    assert(shown.take(n as int) =~= shown);
    proof {
        if paths@.len() <= SHOW {
            assert(str_texts(paths@).take(n as int) =~= str_texts(paths@));
        }
    }
    name_some_with(&list, paths.len() > SHOW)
}

/// Characters of a body that one log line may carry.
pub const SNIPPET: usize = 300;

/// The start of a body: whole, or its first characters and an ellipsis.
pub open spec fn snippet(body: Seq<char>) -> Seq<char> {
    if body.len() > SNIPPET {
        body.take(SNIPPET as int) + "…"@
    } else {
        body
    }
}

/// A snippet begins as the body does, and is the body up to 300 characters;
/// from there on it is those and an ellipsis.
pub proof fn snippets_begin_as_the_body(body: Seq<char>)
    ensures
        body.len() <= 300 ==> snippet(body) == body,
        body.len() > 300 ==> snippet(body).len() == 301 && snippet(body).take(300) == body.take(300)
            && snippet(body)[300] == '…',
{
    reveal_strlit("…");
    if body.len() > 300 {
        assert(snippet(body).take(300) =~= body.take(300));
    }
}

/// The start of a body: whole, or its first characters and an ellipsis.
pub fn body_snippet(body: &str) -> (r: String)
    ensures
        r@ == snippet(body@),
        r@ == if body@.len() > SNIPPET {
            body@.take(SNIPPET as int) + "…"@
        } else {
            body@
        },
{
    let x = text::chars_of(body);
    if x.len() > SNIPPET {
        let mut r = text::text_of(&x, 0, SNIPPET);
        r.append("…");
        assert(x@.subrange(0, SNIPPET as int) =~= body@.take(SNIPPET as int));
        r
    } else {
        let r = text::text_of(&x, 0, x.len());
        assert(r@ =~= body@);
        r
    }
}

/// An optional count as `Some(..)` or `None`.
pub open spec fn option_words(o: Option<i64>) -> Seq<char> {
    match o {
        Some(i) => "Some("@ + text::signed_decimal(i as int) + ")"@,
        None => "None"@,
    }
}

/// Append an optional count as `Some(..)` or `None`.
fn append_option(s: &mut String, o: Option<i64>)
    ensures
        final(s)@ == old(s)@ + option_words(o),
{
    match o {
        Some(i) => {
            s.append("Some(");
            s.append(text::signed_decimal_text(i).as_str());
            s.append(")");
            assert(s@ =~= old(s)@ + option_words(o));
        },
        None => {
            s.append("None");
        },
    }
}

impl BatchError {
    /// The message of the error.
    pub open spec fn words(&self) -> Seq<char> {
        match self {
            BatchError::Status { status, request_id, body } => "bucket batch failed: HTTP "@
                + http::status_words(*status) + " (x-request-id: "@ + request_id@ + "): "@ + body@,
            BatchError::Processed { processed, sent, succeeded, failed, request_id } =>
                "bucket batch reported processed="@ + text::signed_decimal(*processed as int)
                + " for "@ + text::decimal(*sent as nat) + " ops sent (succeeded="@ + option_words(
                *succeeded,
            ) + ", failed="@ + text::decimal(*failed as nat) + ", x-request-id: "@ + request_id@
                + ")"@,
            BatchError::UnknownPaths { unknown, sent } => "bucket batch reported "@ + text::decimal(
                unknown@.len(),
            ) + " failed path(s) that are not among the "@ + text::decimal(*sent as nat)
                + " ops we sent: "@ + some_of(text::texts(unknown@)),
            BatchError::Succeeded { succeeded, sent, named, expected, request_id } =>
                "bucket batch reported succeeded="@ + text::signed_decimal(*succeeded as int)
                + " for "@ + text::decimal(*sent as nat) + " ops sent with "@ + text::decimal(
                *named as nat,
            ) + " named failed (expected "@ + text::decimal(*expected as nat)
                + ", x-request-id: "@ + request_id@ + ")"@,
            BatchError::Unnamed { sent, processed, succeeded, request_id } =>
                "bucket batch reported success=false with an empty failed[] ("@ + text::decimal(
                *sent as nat,
            ) + " ops, processed="@ + option_words(*processed) + ", succeeded="@ + option_words(
                *succeeded,
            ) + ", x-request-id: "@ + request_id@ + ")"@,
            BatchError::Exhausted { pending } => "bucket batch: "@ + text::decimal(pending@.len())
                + " operation(s) still failing after "@ + text::decimal(BATCH_ATTEMPTS as nat)
                + " attempts: "@ + some_of(text::texts(pending@)),
        }
    }

    /// The message of the error.
    pub fn message(&self) -> (r: String)
        ensures
            r@ == self.words(),
    {
        let mut r = String::new();
        match self {
            BatchError::Status { status, request_id, body } => {
                r.append("bucket batch failed: HTTP ");
                r.append(http::status_text(*status).as_str());
                r.append(" (x-request-id: ");
                r.append(request_id.as_str());
                r.append("): ");
                r.append(body.as_str());
            },
            BatchError::Processed { processed, sent, succeeded, failed, request_id } => {
                r.append("bucket batch reported processed=");
                r.append(text::signed_decimal_text(*processed).as_str());
                r.append(" for ");
                r.append(text::decimal_text(*sent).as_str());
                r.append(" ops sent (succeeded=");
                append_option(&mut r, *succeeded);
                r.append(", failed=");
                r.append(text::decimal_text(*failed).as_str());
                r.append(", x-request-id: ");
                r.append(request_id.as_str());
                r.append(")");
            },
            BatchError::UnknownPaths { unknown, sent } => {
                r.append("bucket batch reported ");
                r.append(text::decimal_text(unknown.len() as u64).as_str());
                r.append(" failed path(s) that are not among the ");
                r.append(text::decimal_text(*sent).as_str());
                r.append(" ops we sent: ");
                r.append(name_some_strings(unknown).as_str());
            },
            BatchError::Succeeded { succeeded, sent, named, expected, request_id } => {
                r.append("bucket batch reported succeeded=");
                r.append(text::signed_decimal_text(*succeeded).as_str());
                r.append(" for ");
                r.append(text::decimal_text(*sent).as_str());
                r.append(" ops sent with ");
                r.append(text::decimal_text(*named).as_str());
                r.append(" named failed (expected ");
                r.append(text::decimal_text(*expected).as_str());
                r.append(", x-request-id: ");
                r.append(request_id.as_str());
                r.append(")");
            },
            BatchError::Unnamed { sent, processed, succeeded, request_id } => {
                r.append("bucket batch reported success=false with an empty failed[] (");
                r.append(text::decimal_text(*sent).as_str());
                r.append(" ops, processed=");
                append_option(&mut r, *processed);
                r.append(", succeeded=");
                append_option(&mut r, *succeeded);
                r.append(", x-request-id: ");
                r.append(request_id.as_str());
                r.append(")");
            },
            BatchError::Exhausted { pending } => {
                r.append("bucket batch: ");
                r.append(text::decimal_text(pending.len() as u64).as_str());
                r.append(" operation(s) still failing after ");
                r.append(text::decimal_text(BATCH_ATTEMPTS as u64).as_str());
                r.append(" attempts: ");
                r.append(name_some_strings(pending).as_str());
            },
        }
        assert(r@ =~= self.words());
        r
    }
}

/// A few paths, quoted, then an ellipsis.
fn name_some_strings(paths: &Vec<String>) -> (r: String)
    ensures
        r@ == some_of(text::texts(paths@)),
{
    let mut list: Vec<&str> = Vec::new();
    let mut i: usize = 0;
    while i < paths.len()
        invariant
            0 <= i <= paths@.len(),
            str_texts(list@) == text::texts(paths@).take(i as int),
        decreases paths@.len() - i,
    {
        let ghost before = str_texts(list@);
        let p: &str = paths[i].as_str();
        list.push(p);
        assert(str_texts(list@) =~= before.push(p@));
        assert(str_texts(list@) =~= text::texts(paths@).take(i + 1));
        i = i + 1;
    }
    assert(text::texts(paths@).take(paths@.len() as int) =~= text::texts(paths@));
    name_some(list.as_slice())
}

// ---------------------------------------------------------------------------
// Which operations to send again
// ---------------------------------------------------------------------------
/// `path` is among the failures.
pub open spec fn named(failed: Seq<FailedOp>, path: Seq<char>) -> bool {
    exists|j: int| 0 <= j < failed.len() && (#[trigger] failed[j]).path@ == path
}

/// Some operation registers `path`.
pub open spec fn sends(sent: Seq<&BatchOp>, path: Seq<char>) -> bool {
    exists|i: int| 0 <= i < sent.len() && (#[trigger] sent[i]).dest() == path
}

/// The operations whose paths are among the failures, in send order.
pub open spec fn named_ops<'a>(sent: Seq<&'a BatchOp>, failed: Seq<FailedOp>) -> Seq<
    &'a BatchOp,
> {
    sent.filter(|op: &'a BatchOp| named(failed, op.dest()))
}

/// Every failure names an operation that was sent.
pub open spec fn all_known(sent: Seq<&BatchOp>, failed: Seq<FailedOp>) -> bool {
    forall|j: int| 0 <= j < failed.len() ==> sends(sent, (#[trigger] failed[j]).path@)
}

/// `unknown` lists the failures that were never sent, once each, in key order.
pub open spec fn lists_unknown(
    unknown: Seq<Seq<char>>,
    sent: Seq<&BatchOp>,
    failed: Seq<FailedOp>,
) -> bool {
    &&& forall|i: int, j: int|
        0 <= i < j < unknown.len() ==> text::key_lt(#[trigger] unknown[i], #[trigger] unknown[j])
    &&& forall|p: Seq<char>| #[trigger]
        unknown.contains(p) <==> named(failed, p) && !sends(sent, p)
}

/// The paths among the failures.
fn named_set(failed: &[FailedOp]) -> (want: KeyMap<()>)
    ensures
        want.wf(),
        forall|p: Seq<char>| #[trigger] want@.contains_key(p) <==> named(failed@, p),
{
    let mut want: KeyMap<()> = KeyMap::new();
    let mut j: usize = 0;
    while j < failed.len()
        invariant
            0 <= j <= failed@.len(),
            want.wf(),
            forall|p: Seq<char>| #[trigger]
                want@.contains_key(p) <==> named(failed@.take(j as int), p),
        decreases failed@.len() - j,
    {
        let ghost before = want@;
        want.insert(failed[j].path.clone(), ());
        assert forall|p: Seq<char>| #[trigger] want@.contains_key(p) <==> named(
            failed@.take(j + 1),
            p,
        ) by {
            let now = failed@.take(j + 1);
            let was = failed@.take(j as int);
            assert(now[j as int].path@ == failed@[j as int].path@);
            if named(now, p) {
                let k = choose|k: int| 0 <= k < now.len() && (#[trigger] now[k]).path@ == p;
                if k < j {
                    assert(was[k].path@ == p);
                }
            }
            if named(was, p) {
                let k = choose|k: int| 0 <= k < was.len() && (#[trigger] was[k]).path@ == p;
                assert(now[k].path@ == p);
            }
            assert(want@.contains_key(p) <==> before.contains_key(p) || p
                == failed@[j as int].path@);
        }
        j = j + 1;
    }
    assert(failed@.take(failed@.len() as int) =~= failed@);
    want
}

/// The paths that the operations register.
fn sent_set(sent: &[&BatchOp]) -> (have: KeyMap<()>)
    ensures
        have.wf(),
        forall|p: Seq<char>| #[trigger] have@.contains_key(p) <==> sends(sent@, p),
{
    let mut have: KeyMap<()> = KeyMap::new();
    let mut j: usize = 0;
    while j < sent.len()
        invariant
            0 <= j <= sent@.len(),
            have.wf(),
            forall|p: Seq<char>| #[trigger]
                have@.contains_key(p) <==> sends(sent@.take(j as int), p),
        decreases sent@.len() - j,
    {
        let ghost before = have@;
        have.insert(sent[j].path().to_owned(), ());
        assert forall|p: Seq<char>| #[trigger] have@.contains_key(p) <==> sends(
            sent@.take(j + 1),
            p,
        ) by {
            let now = sent@.take(j + 1);
            let was = sent@.take(j as int);
            assert(now[j as int].dest() == sent@[j as int].dest());
            if sends(now, p) {
                let k = choose|k: int| 0 <= k < now.len() && (#[trigger] now[k]).dest() == p;
                if k < j {
                    assert(was[k].dest() == p);
                }
            }
            if sends(was, p) {
                let k = choose|k: int| 0 <= k < was.len() && (#[trigger] was[k]).dest() == p;
                assert(now[k].dest() == p);
            }
            assert(have@.contains_key(p) <==> before.contains_key(p) || p
                == sent@[j as int].dest());
        }
        j = j + 1;
    }
    assert(sent@.take(sent@.len() as int) =~= sent@);
    have
}

/// The operations that the server named as failed, in the order they were
/// sent. A named path that was never sent cannot be sent again, and dropping
/// it would lose a file, so that is an error that names such paths.
pub fn retry_ops<'a>(sent: &[&'a BatchOp], failed: &[FailedOp]) -> (r: Result<
    Vec<&'a BatchOp>,
    BatchError,
>)
    ensures
        r is Ok <==> all_known(sent@, failed@),
        r is Ok ==> r->Ok_0@ == named_ops(sent@, failed@),
        r is Err ==> (r->Err_0 matches BatchError::UnknownPaths { unknown, sent: n } && n
            == sent@.len() && lists_unknown(text::texts(unknown@), sent@, failed@)),
{
    let want = named_set(failed);
    let have = sent_set(sent);
    let mut unknown: Vec<String> = Vec::new();
    let mut j: usize = 0;
    while j < want.entries.len()
        invariant
            0 <= j <= want.entries@.len(),
            want.wf(),
            have.wf(),
            forall|p: Seq<char>| #[trigger] have@.contains_key(p) <==> sends(sent@, p),
            forall|i: int|
                #![trigger unknown@[i]]
                0 <= i < unknown@.len() ==> exists|k: int|
                    0 <= k < j && (#[trigger] want.entries@[k]).0@ == unknown@[i]@ && !sends(
                        sent@,
                        unknown@[i]@,
                    ),
            forall|k: int|
                #![trigger want.entries@[k]]
                0 <= k < j && !sends(sent@, want.entries@[k].0@) ==> text::texts(
                    unknown@,
                ).contains(want.entries@[k].0@),
            forall|a: int, b: int|
                0 <= a < b < unknown@.len() ==> text::key_lt(
                    #[trigger] unknown@[a]@,
                    #[trigger] unknown@[b]@,
                ),
        decreases want.entries@.len() - j,
    {
        let ghost before = unknown@;
        if have.get(want.entries[j].0.as_str()).is_none() {
            let p = want.entries[j].0.clone();
            unknown.push(p);
            assert(text::texts(unknown@) =~= text::texts(before).push(p@));
            assert(text::texts(unknown@)[before.len() as int] == p@);
            assert forall|k: int|
                #![trigger want.entries@[k]]
                0 <= k < j + 1 && !sends(sent@, want.entries@[k].0@) implies text::texts(
                unknown@,
            ).contains(want.entries@[k].0@) by {
                if k < j {
                    let q = want.entries@[k].0@;
                    let i = choose|i: int|
                        0 <= i < text::texts(before).len() && text::texts(before)[i] == q;
                    assert(text::texts(unknown@)[i] == q);
                }
            }
            assert forall|a: int, b: int| 0 <= a < b < unknown@.len() implies text::key_lt(
                #[trigger] unknown@[a]@,
                #[trigger] unknown@[b]@,
            ) by {
                if b == before.len() {
                    assert(unknown@[a] == before[a]);
                    let k = choose|k: int|
                        0 <= k < j && (#[trigger] want.entries@[k]).0@ == before[a]@;
                    assert(text::key_lt(want.entries@[k].0@, want.entries@[j as int].0@));
                } else {
                    assert(unknown@[a] == before[a] && unknown@[b] == before[b]);
                }
            }
            assert forall|i: int|
                #![trigger unknown@[i]]
                0 <= i < unknown@.len() implies exists|k: int|
                    0 <= k < j + 1 && (#[trigger] want.entries@[k]).0@ == unknown@[i]@ && !sends(
                        sent@,
                        unknown@[i]@,
                    ) by {
                if i < before.len() {
                    assert(unknown@[i] == before[i]);
                    let k = choose|k: int|
                        0 <= k < j && (#[trigger] want.entries@[k]).0@ == before[i]@;
                    assert(want.entries@[k].0@ == unknown@[i]@);
                } else {
                    assert(want.entries@[j as int].0@ == unknown@[i]@);
                }
            }
        }
        j = j + 1;
    }
    proof {
        assert forall|p: Seq<char>| #[trigger]
            text::texts(unknown@).contains(p) <==> named(failed@, p) && !sends(sent@, p) by {
            if text::texts(unknown@).contains(p) {
                let i = choose|i: int|
                    0 <= i < text::texts(unknown@).len() && text::texts(unknown@)[i] == p;
                assert(unknown@[i]@ == p);
                let k = choose|k: int|
                    0 <= k < want.entries@.len() && (#[trigger] want.entries@[k]).0@
                        == unknown@[i]@;
                assert(keymap::has_key(want.entries@, p));
                assert(want@.contains_key(p));
            }
            if named(failed@, p) && !sends(sent@, p) {
                assert(want@.contains_key(p));
                assert(keymap::has_key(want.entries@, p));
                let k = keymap::place_of(want.entries@, p);
                assert(want.entries@[k].0@ == p);
            }
        }
    }
    if unknown.len() > 0 {
        proof {
            let p = unknown@[0]@;
            assert(text::texts(unknown@)[0] == p);
            assert(text::texts(unknown@).contains(p));
            assert(named(failed@, p) && !sends(sent@, p));
            let k = choose|k: int| 0 <= k < failed@.len() && (#[trigger] failed@[k]).path@ == p;
            assert(!sends(sent@, failed@[k].path@));
        }
        return Err(BatchError::UnknownPaths { unknown, sent: sent.len() as u64 });
    }
    assert forall|k: int| 0 <= k < failed@.len() implies sends(
        sent@,
        (#[trigger] failed@[k]).path@,
    ) by {
        let p = failed@[k].path@;
        assert(named(failed@, p));
        assert(!text::texts(unknown@).contains(p));
    }
    let ghost keep = |op: &'a BatchOp| named(failed@, op.dest());
    let mut retry: Vec<&'a BatchOp> = Vec::new();
    let mut i: usize = 0;
    assert(sent@.take(0).filter(keep) =~= Seq::<&'a BatchOp>::empty()) by {
        reveal(Seq::filter);
    }
    while i < sent.len()
        invariant
            0 <= i <= sent@.len(),
            want.wf(),
            forall|p: Seq<char>| #[trigger] want@.contains_key(p) <==> named(failed@, p),
            keep == |op: &'a BatchOp| named(failed@, op.dest()),
            retry@ == sent@.take(i as int).filter(keep),
        decreases sent@.len() - i,
    {
        let op: &'a BatchOp = sent[i];
        proof {
            reveal(Seq::filter);
            assert(sent@.take(i + 1).drop_last() =~= sent@.take(i as int));
            assert(sent@.take(i + 1).last() == op);
        }
        if want.get(op.path()).is_some() {
            retry.push(op);
        }
        i = i + 1;
    }
    assert(sent@.take(sent@.len() as int) =~= sent@);
    Ok(retry)
}

/// Attempts of one batch: the first send and the re-sends of what the server
/// named as failed.
pub const BATCH_ATTEMPTS: u32 = 3;

/// The lines of a request body, each ended by a newline.
pub open spec fn framed(lines: Seq<Seq<char>>) -> Seq<char>
    decreases lines.len(),
{
    if lines.len() == 0 {
        Seq::<char>::empty()
    } else {
        framed(lines.drop_last()) + lines.last().push('\n')
    }
}

/// The body of a batch request: one operation per line.
pub fn ndjson(lines: &Vec<String>) -> (body: String)
    ensures
        body@ == framed(text::texts(lines@)),
{
    let mut body = String::new();
    let mut i: usize = 0;
    while i < lines.len()
        invariant
            0 <= i <= lines@.len(),
            body@ == framed(text::texts(lines@).take(i as int)),
        decreases lines@.len() - i,
    {
        body.append(lines[i].as_str());
        body.push('\n');
        assert(text::texts(lines@).take(i + 1).drop_last() =~= text::texts(lines@).take(i as int));
        assert(body@ =~= framed(text::texts(lines@).take(i + 1)));
        i = i + 1;
    }
    assert(text::texts(lines@).take(lines@.len() as int) =~= text::texts(lines@));
    body
}

/// The body of a request splits back into its lines.
pub proof fn bodies_split_into_their_lines(lines: Seq<Seq<char>>)
    requires
        forall|i: int| 0 <= i < lines.len() ==> !(#[trigger] lines[i]).contains('\n'),
    ensures
        text::pieces(framed(lines), '\n') == lines.push(Seq::<char>::empty()),
    decreases lines.len(),
{
    let all = lines.push(Seq::<char>::empty());
    assert forall|i: int| 0 <= i < all.len() implies !(#[trigger] all[i]).contains('\n') by {
        if i < lines.len() {
            assert(all[i] == lines[i]);
        }
    }
    text::joined_texts_are_split(all, '\n');
    lemma_framed(lines);
}

/// The lines of a request body, joined by newlines with an empty one at the end.
proof fn lemma_framed(lines: Seq<Seq<char>>)
    ensures
        framed(lines) == text::joined(lines.push(Seq::<char>::empty()), seq!['\n']),
    decreases lines.len(),
{
    let all = lines.push(Seq::<char>::empty());
    assert(all.drop_last() =~= lines);
    if lines.len() > 0 {
        let front = lines.drop_last();
        lemma_framed(front);
        let before = front.push(Seq::<char>::empty());
        assert(before.drop_last() =~= front);
        if front.len() > 0 {
            text::texts_are_joined_in_order(front, Seq::empty(), seq!['\n']);
            text::texts_are_joined_in_order(front, lines.last(), seq!['\n']);
            assert(front.push(lines.last()) =~= lines);
            assert(framed(front) =~= text::joined(front, seq!['\n']) + seq!['\n']);
        } else {
            assert(text::joined(before, seq!['\n']) =~= Seq::empty());
            assert(text::joined(lines, seq!['\n']) == lines[0]);
        }
        assert(framed(lines) =~= text::joined(lines, seq!['\n']) + seq!['\n']);
        assert(text::joined(all, seq!['\n']) =~= text::joined(lines, seq!['\n']) + seq!['\n']);
    } else {
        assert(text::joined(all, seq!['\n']) =~= Seq::empty());
    }
}

/// An operation is sent again exactly when a failure names its path, after
/// those that were sent before it.
pub proof fn named_operations_are_sent_again<'a>(
    sent: Seq<&'a BatchOp>,
    op: &'a BatchOp,
    failed: Seq<FailedOp>,
)
    ensures
        named_ops(Seq::empty(), failed).len() == 0,
        (exists|j: int| 0 <= j < failed.len() && (#[trigger] failed[j]).path@ == op.dest())
            ==> named_ops(sent.push(op), failed) == named_ops(sent, failed).push(op),
        (forall|j: int| 0 <= j < failed.len() ==> (#[trigger] failed[j]).path@ != op.dest())
            ==> named_ops(sent.push(op), failed) == named_ops(sent, failed),
{
    reveal(Seq::filter);
    assert(sent.push(op).drop_last() =~= sent);
    assert(named_ops(Seq::empty(), failed) =~= Seq::empty());
}

/// A failure is known exactly when an operation with its path was sent, and
/// then that operation is among those that are sent again.
pub proof fn no_failure_is_dropped(sent: Seq<&BatchOp>, failed: Seq<FailedOp>, j: int)
    requires
        0 <= j < failed.len(),
        exists|i: int| 0 <= i < sent.len() && (#[trigger] sent[i]).dest() == failed[j].path@,
    ensures
        exists|i: int|
            0 <= i < named_ops(sent, failed).len() && (#[trigger] named_ops(sent, failed)[i]).dest()
                == failed[j].path@,
    decreases sent.len(),
{
    let op = sent.last();
    let front = sent.drop_last();
    let all = named_ops(sent, failed);
    assert(front.push(op) =~= sent);
    named_operations_are_sent_again(front, op, failed);
    if op.dest() == failed[j].path@ {
        assert(all.last().dest() == failed[j].path@);
        assert(all[all.len() - 1].dest() == failed[j].path@);
    } else {
        let i = choose|i: int|
            0 <= i < sent.len() && (#[trigger] sent[i]).dest() == failed[j].path@;
        assert(front[i].dest() == failed[j].path@);
        no_failure_is_dropped(front, failed, j);
        let before = named_ops(front, failed);
        let k = choose|k: int|
            0 <= k < before.len() && (#[trigger] before[k]).dest() == failed[j].path@;
        assert(all[k] == before[k]);
    }
}

/// Whether every failure is known, and which are not, by the paths alone.
pub proof fn failures_are_known_by_their_paths(
    sent: Seq<&BatchOp>,
    failed: Seq<FailedOp>,
    unknown: Seq<Seq<char>>,
    p: Seq<char>,
    j: int,
)
    ensures
        all_known(sent, failed) && 0 <= j < failed.len() ==> exists|i: int|
            0 <= i < sent.len() && (#[trigger] sent[i]).dest() == failed[j].path@,
        !all_known(sent, failed) ==> exists|k: int|
            0 <= k < failed.len() && !sent.map_values(|op: &BatchOp| op.dest()).contains(
                (#[trigger] failed[k]).path@,
            ),
        lists_unknown(unknown, sent, failed) ==> (unknown.contains(p) <==> (exists|j: int|
            0 <= j < failed.len() && (#[trigger] failed[j]).path@ == p) && forall|i: int|
            0 <= i < sent.len() ==> (#[trigger] sent[i]).dest() != p),
        lists_unknown(unknown, sent, failed) ==> (unknown.len() == 0 <==> all_known(sent, failed)),
{
    if all_known(sent, failed) && 0 <= j < failed.len() {
        assert(sends(sent, failed[j].path@));
    }
    if !all_known(sent, failed) {
        let k = choose|k: int| 0 <= k < failed.len() && !sends(sent, (#[trigger] failed[k]).path@);
        let paths = sent.map_values(|op: &BatchOp| op.dest());
        assert(!paths.contains(failed[k].path@)) by {
            if paths.contains(failed[k].path@) {
                let i = choose|i: int| 0 <= i < paths.len() && paths[i] == failed[k].path@;
                assert(sent[i].dest() == failed[k].path@);
            }
        }
    }
    if lists_unknown(unknown, sent, failed) {
        if unknown.len() > 0 {
            let q = unknown[0];
            assert(unknown.contains(q));
            let j = choose|j: int| 0 <= j < failed.len() && (#[trigger] failed[j]).path@ == q;
            assert(!sends(sent, failed[j].path@));
        }
        if !all_known(sent, failed) {
            let j = choose|j: int|
                0 <= j < failed.len() && !sends(sent, (#[trigger] failed[j]).path@);
            assert(named(failed, failed[j].path@));
            assert(unknown.contains(failed[j].path@));
        }
    }
}

/// Up to five paths are all named; of more, the first five are, and an ellipsis.
pub proof fn messages_name_up_to_five(paths: Seq<Seq<char>>)
    ensures
        paths.len() <= 5 ==> some_of(paths) == text::joined(
            paths.map_values(|p: Seq<char>| text::quoted(p)),
            ", "@,
        ),
        paths.len() > 5 ==> some_of(paths) == some_of(paths.take(5)) + ", …"@,
{
}

/// The message of an error holds what it is about: the status and the body, the
/// numbers that do not agree, the paths, and the server's handle on the
/// response.
pub proof fn messages_hold_what_they_are_about(e: BatchError)
    ensures
        match e {
            BatchError::Status { status, request_id, body } => {
                &&& text::holds(e.words(), http::status_words(status))
                &&& text::holds(e.words(), request_id@)
                &&& e.words().skip(e.words().len() - body@.len()) == body@
            },
            BatchError::Processed { processed, sent, succeeded, failed, request_id } => {
                &&& text::holds(e.words(), "processed="@ + text::signed_decimal(processed as int))
                &&& text::holds(e.words(), text::decimal(sent as nat) + " ops sent"@)
                &&& text::holds(e.words(), "succeeded="@ + option_words(succeeded))
                &&& text::holds(e.words(), "failed="@ + text::decimal(failed as nat))
                &&& text::holds(e.words(), request_id@)
            },
            BatchError::UnknownPaths { unknown, sent } => {
                let list = some_of(text::texts(unknown@));
                &&& text::holds(e.words(), text::decimal(unknown@.len()) + " failed path(s)"@)
                &&& text::holds(e.words(), text::decimal(sent as nat) + " ops we sent"@)
                &&& e.words().skip(e.words().len() - list.len()) == list
            },
            BatchError::Succeeded { succeeded, sent, named, expected, request_id } => {
                &&& text::holds(e.words(), "succeeded="@ + text::signed_decimal(succeeded as int))
                &&& text::holds(e.words(), text::decimal(sent as nat) + " ops sent"@)
                &&& text::holds(e.words(), text::decimal(named as nat) + " named failed"@)
                &&& text::holds(e.words(), "expected "@ + text::decimal(expected as nat))
                &&& text::holds(e.words(), request_id@)
            },
            BatchError::Unnamed { sent, processed, succeeded, request_id } => {
                &&& text::holds(e.words(), text::decimal(sent as nat) + " ops"@)
                &&& text::holds(e.words(), "processed="@ + option_words(processed))
                &&& text::holds(e.words(), "succeeded="@ + option_words(succeeded))
                &&& text::holds(e.words(), request_id@)
            },
            BatchError::Exhausted { pending } => {
                let list = some_of(text::texts(pending@));
                &&& text::holds(e.words(), text::decimal(pending@.len()) + " operation(s)"@)
                &&& e.words().skip(e.words().len() - list.len()) == list
            },
        },
{
    match e {
        BatchError::Status { .. } => {
            lemma_status_words(e);
        },
        BatchError::Processed { .. } => {
            lemma_processed_words(e);
        },
        BatchError::UnknownPaths { .. } => {
            lemma_unknown_paths_words(e);
        },
        BatchError::Succeeded { .. } => {
            lemma_succeeded_words(e);
        },
        BatchError::Unnamed { .. } => {
            lemma_unnamed_words(e);
        },
        BatchError::Exhausted { .. } => {
            lemma_exhausted_words(e);
        },
    }
}

/// What the message of a batch error holds.
proof fn lemma_status_words(e: BatchError)
    requires
        e is Status,
    ensures
        match e {
            BatchError::Status { status, request_id, body } => {
                &&& text::holds(e.words(), http::status_words(status))
                &&& text::holds(e.words(), request_id@)
                &&& e.words().skip(e.words().len() - body@.len()) == body@
            },
            _ => true,
        },
{
    let w = e.words();
    if let BatchError::Status { status, request_id, body } = e {
        let a = "bucket batch failed: HTTP "@;
        let s = http::status_words(status);
        let b = " (x-request-id: "@;
        let c = "): "@;
        lemma_inside(w, a, s, b + request_id@ + c + body@);
        lemma_inside(w, a + s + b, request_id@, c + body@);
        assert(w.skip(w.len() - body@.len()) =~= body@);
    }
}

/// What the message of a batch error holds.
proof fn lemma_processed_words(e: BatchError)
    requires
        e is Processed,
    ensures
        match e {
            BatchError::Processed { processed, sent, succeeded, failed, request_id } => {
                &&& text::holds(e.words(), "processed="@ + text::signed_decimal(processed as int))
                &&& text::holds(e.words(), text::decimal(sent as nat) + " ops sent"@)
                &&& text::holds(e.words(), "succeeded="@ + option_words(succeeded))
                &&& text::holds(e.words(), "failed="@ + text::decimal(failed as nat))
                &&& text::holds(e.words(), request_id@)
            },
            _ => true,
        },
{
    let w = e.words();
    if let BatchError::Processed { processed, sent, succeeded, failed, request_id } = e {
        reveal_strlit("bucket batch reported processed=");
        reveal_strlit("bucket batch reported ");
        reveal_strlit("processed=");
        reveal_strlit(" ops sent (succeeded=");
        reveal_strlit(" ops sent");
        reveal_strlit(" (");
        reveal_strlit("succeeded=");
        reveal_strlit(", failed=");
        reveal_strlit(", ");
        reveal_strlit("failed=");
        let p = text::signed_decimal(processed as int);
        let n = text::decimal(sent as nat);
        let s = option_words(succeeded);
        let f = text::decimal(failed as nat);
        let id = request_id@;
        let end = ", x-request-id: "@;
        let h = "bucket batch reported processed="@;
        let ops = " ops sent (succeeded="@;
        let tail_f = end + id + ")"@;
        let tail_s = ", failed="@ + f + tail_f;
        let tail_n = ops + s + tail_s;
        assert(w =~= h + p + " for "@ + n + tail_n);
        assert(h =~= "bucket batch reported "@ + "processed="@);
        assert(ops =~= " ops sent"@ + " ("@ + "succeeded="@);
        assert(", failed="@ =~= ", "@ + "failed="@);
        lemma_inside(w, "bucket batch reported "@, "processed="@ + p, " for "@ + n + tail_n);
        lemma_inside(
            w,
            h + p + " for "@,
            n + " ops sent"@,
            " ("@ + "succeeded="@ + s + tail_s,
        );
        lemma_inside(
            w,
            h + p + " for "@ + n + " ops sent"@ + " ("@,
            "succeeded="@ + s,
            tail_s,
        );
        lemma_inside(w, h + p + " for "@ + n + ops + s + ", "@, "failed="@ + f, tail_f);
        lemma_inside(w, h + p + " for "@ + n + ops + s + ", failed="@ + f + end, id, ")"@);
    }
}

/// What the message of a batch error holds.
proof fn lemma_unknown_paths_words(e: BatchError)
    requires
        e is UnknownPaths,
    ensures
        match e {
            BatchError::UnknownPaths { unknown, sent } => {
                let list = some_of(text::texts(unknown@));
                &&& text::holds(e.words(), text::decimal(unknown@.len()) + " failed path(s)"@)
                &&& text::holds(e.words(), text::decimal(sent as nat) + " ops we sent"@)
                &&& e.words().skip(e.words().len() - list.len()) == list
            },
            _ => true,
        },
{
    let w = e.words();
    if let BatchError::UnknownPaths { unknown, sent } = e {
        reveal_strlit(" failed path(s) that are not among the ");
        reveal_strlit(" failed path(s)");
        reveal_strlit(" that are not among the ");
        reveal_strlit(" ops we sent: ");
        reveal_strlit(" ops we sent");
        reveal_strlit(": ");
        let u = text::decimal(unknown@.len());
        let n = text::decimal(sent as nat);
        let list = some_of(text::texts(unknown@));
        let h = "bucket batch reported "@;
        let mid = " failed path(s) that are not among the "@;
        assert(mid =~= " failed path(s)"@ + " that are not among the "@);
        assert(" ops we sent: "@ =~= " ops we sent"@ + ": "@);
        lemma_inside(
            w,
            h,
            u + " failed path(s)"@,
            " that are not among the "@ + n + " ops we sent: "@ + list,
        );
        lemma_inside(w, h + u + mid, n + " ops we sent"@, ": "@ + list);
        assert(w.skip(w.len() - list.len()) =~= list);
    }
}

/// What the message of a batch error holds.
proof fn lemma_succeeded_words(e: BatchError)
    requires
        e is Succeeded,
    ensures
        match e {
            BatchError::Succeeded { succeeded, sent, named, expected, request_id } => {
                &&& text::holds(e.words(), "succeeded="@ + text::signed_decimal(succeeded as int))
                &&& text::holds(e.words(), text::decimal(sent as nat) + " ops sent"@)
                &&& text::holds(e.words(), text::decimal(named as nat) + " named failed"@)
                &&& text::holds(e.words(), "expected "@ + text::decimal(expected as nat))
                &&& text::holds(e.words(), request_id@)
            },
            _ => true,
        },
{
    let w = e.words();
    if let BatchError::Succeeded { succeeded, sent, named, expected, request_id } = e {
        reveal_strlit("bucket batch reported succeeded=");
        reveal_strlit("bucket batch reported ");
        reveal_strlit("succeeded=");
        reveal_strlit(" ops sent with ");
        reveal_strlit(" ops sent");
        reveal_strlit(" with ");
        reveal_strlit(" named failed (expected ");
        reveal_strlit(" named failed");
        reveal_strlit(" (");
        reveal_strlit("expected ");
        let s = text::signed_decimal(succeeded as int);
        let n = text::decimal(sent as nat);
        let m = text::decimal(named as nat);
        let x = text::decimal(expected as nat);
        let id = request_id@;
        let end = ", x-request-id: "@;
        let h = "bucket batch reported succeeded="@;
        let ops = " ops sent with "@;
        let exp = " named failed (expected "@;
        let tail_x = end + id + ")"@;
        let tail_m = exp + x + tail_x;
        let tail_n = ops + m + tail_m;
        assert(w =~= h + s + " for "@ + n + tail_n);
        assert(h =~= "bucket batch reported "@ + "succeeded="@);
        assert(ops =~= " ops sent"@ + " with "@);
        assert(exp =~= " named failed"@ + " ("@ + "expected "@);
        lemma_inside(w, "bucket batch reported "@, "succeeded="@ + s, " for "@ + n + tail_n);
        lemma_inside(w, h + s + " for "@, n + " ops sent"@, " with "@ + m + tail_m);
        lemma_inside(
            w,
            h + s + " for "@ + n + ops,
            m + " named failed"@,
            " ("@ + "expected "@ + x + tail_x,
        );
        lemma_inside(
            w,
            h + s + " for "@ + n + ops + m + " named failed"@ + " ("@,
            "expected "@ + x,
            tail_x,
        );
        lemma_inside(w, h + s + " for "@ + n + ops + m + exp + x + end, id, ")"@);
    }
}

/// What the message of a batch error holds.
proof fn lemma_unnamed_words(e: BatchError)
    requires
        e is Unnamed,
    ensures
        match e {
            BatchError::Unnamed { sent, processed, succeeded, request_id } => {
                &&& text::holds(e.words(), text::decimal(sent as nat) + " ops"@)
                &&& text::holds(e.words(), "processed="@ + option_words(processed))
                &&& text::holds(e.words(), "succeeded="@ + option_words(succeeded))
                &&& text::holds(e.words(), request_id@)
            },
            _ => true,
        },
{
    let w = e.words();
    if let BatchError::Unnamed { sent, processed, succeeded, request_id } = e {
        reveal_strlit(" ops, processed=");
        reveal_strlit(" ops");
        reveal_strlit(", ");
        reveal_strlit("processed=");
        reveal_strlit(", succeeded=");
        reveal_strlit("succeeded=");
        let n = text::decimal(sent as nat);
        let p = option_words(processed);
        let s = option_words(succeeded);
        let id = request_id@;
        let end = ", x-request-id: "@;
        let h = "bucket batch reported success=false with an empty failed[] ("@;
        let ops = " ops, processed="@;
        let tail_s = end + id + ")"@;
        let tail_p = ", succeeded="@ + s + tail_s;
        assert(w =~= h + n + ops + p + tail_p);
        assert(ops =~= " ops"@ + ", "@ + "processed="@);
        assert(", succeeded="@ =~= ", "@ + "succeeded="@);
        lemma_inside(w, h, n + " ops"@, ", "@ + "processed="@ + p + tail_p);
        lemma_inside(w, h + n + " ops"@ + ", "@, "processed="@ + p, tail_p);
        lemma_inside(w, h + n + ops + p + ", "@, "succeeded="@ + s, tail_s);
        lemma_inside(w, h + n + ops + p + ", succeeded="@ + s + end, id, ")"@);
    }
}

/// What the message of a batch error holds.
proof fn lemma_exhausted_words(e: BatchError)
    requires
        e is Exhausted,
    ensures
        match e {
            BatchError::Exhausted { pending } => {
                let list = some_of(text::texts(pending@));
                &&& text::holds(e.words(), text::decimal(pending@.len()) + " operation(s)"@)
                &&& e.words().skip(e.words().len() - list.len()) == list
            },
            _ => true,
        },
{
    let w = e.words();
    if let BatchError::Exhausted { pending } = e {
        reveal_strlit(" operation(s) still failing after ");
        reveal_strlit(" operation(s)");
        reveal_strlit(" still failing after ");
        let n = text::decimal(pending@.len());
        let list = some_of(text::texts(pending@));
        let tries = text::decimal(BATCH_ATTEMPTS as nat);
        assert(" operation(s) still failing after "@ =~= " operation(s)"@
            + " still failing after "@);
        lemma_inside(
            w,
            "bucket batch: "@,
            n + " operation(s)"@,
            " still failing after "@ + tries + " attempts: "@ + list,
        );
        assert(w.skip(w.len() - list.len()) =~= list);
    }
}

/// A text holds each of the parts that it is made of.
proof fn lemma_inside(s: Seq<char>, a: Seq<char>, p: Seq<char>, b: Seq<char>)
    requires
        s =~= a + p + b,
    ensures
        text::holds(s, p),
{
    text::texts_hold_what_is_inside(s, p, a, b);
}

/// A line of paths is the paths with a comma and a space between neighbours,
/// and, where there are more, another comma and an ellipsis.
pub proof fn lines_say_when_there_are_more(quoted: Seq<Seq<char>>)
    ensures
        some_line(quoted, false) == text::joined(quoted, ", "@),
        some_line(quoted, true) == some_line(quoted, false) + ", …"@,
{
}

/// A count is given as `Some` of it, a missing one as `None`.
pub proof fn optional_counts_are_given(n: i64)
    ensures
        option_words(Some(n)) == "Some("@ + text::signed_decimal(n as int) + ")"@,
        option_words(None) == "None"@,
{
}

/// The texts of a list of slices are theirs, one for one; the path of an
/// operation is the one it adds.
pub proof fn slices_and_operations_are_read(v: Seq<&str>, i: int, op: BatchOp)
    ensures
        str_texts(v).len() == v.len(),
        0 <= i < v.len() ==> str_texts(v)[i] == v[i]@,
        op matches BatchOp::AddFile { path, .. } && op.dest() == path@,
{
}

} // verus!
