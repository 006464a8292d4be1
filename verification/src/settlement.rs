//! What a batch response means for the operations it answers.
//!
//! A success can carry a report that names operations which were not applied;
//! those are sent again, and a report that does not add up is an error.
use vstd::prelude::*;
use crate::bucket_client;
use crate::bucket_client::{
    BatchError, BatchOp, BatchReport, BatchResponse, FailedOp, BATCH_ATTEMPTS,
};
use crate::http;
use crate::text;

verus! {

/// What follows a batch response.
#[derive(Debug, Clone, Copy, PartialEq, Eq)]
pub enum Step {
    /// Every operation is accounted for: how many there are.
    Done(u64),
    /// Wait this many seconds, then send the pending operations again.
    Retry(u64),
}

/// What a batch response means for the pending operations.
pub enum Ruling {
    /// The status is final, or a 422 names nothing to send again.
    Refused,
    /// A success without a readable report, on the first attempt: trusted.
    Trusted,
    /// A success without a readable report, on a re-send: not trusted.
    Unconfirmed,
    /// The report counts another number of operations than were sent.
    WrongProcessed,
    /// The report names a path that was not sent.
    UnknownPaths,
    /// The applied operations and the named ones are not those sent.
    WrongSucceeded,
    /// Not everything was applied, and nothing is named.
    Unnamed,
    /// Everything was applied.
    Clean,
    /// Some operations are named as failed.
    Partial,
}

/// The ruling on one response to `pending`, after `attempt` earlier ones. The
/// report is acted on only where it agrees with what was sent.
pub open spec fn ruling(pending: Seq<&BatchOp>, attempt: nat, resp: BatchResponse) -> Ruling {
    if !http::success(resp.status) && resp.status != 422 {
        Ruling::Refused
    } else {
        match resp.report {
            None => if !http::success(resp.status) {
                Ruling::Refused
            } else if attempt == 0 {
                Ruling::Trusted
            } else {
                Ruling::Unconfirmed
            },
            Some(report) => {
                let named = bucket_client::named_ops(pending, report.failed@).len();
                if report.processed is Some && report.processed->0 != pending.len() {
                    Ruling::WrongProcessed
                } else if !bucket_client::all_known(pending, report.failed@) {
                    Ruling::UnknownPaths
                } else if report.succeeded is Some && report.succeeded->0 != pending.len()
                    - named {
                    Ruling::WrongSucceeded
                } else if named > 0 {
                    Ruling::Partial
                } else if report.success {
                    Ruling::Clean
                } else {
                    Ruling::Unnamed
                }
            },
        }
    }
}

/// What is pending after a response: the named operations, where some are
/// named.
pub open spec fn next_pending<'a>(
    pending: Seq<&'a BatchOp>,
    attempt: nat,
    resp: BatchResponse,
) -> Seq<&'a BatchOp> {
    if ruling(pending, attempt, resp) is Partial {
        bucket_client::named_ops(pending, resp.report->0.failed@)
    } else {
        pending
    }
}

/// Whether a ruling leaves operations to send again.
pub open spec fn unsettled(ruling: Ruling) -> bool {
    ruling is Unconfirmed || ruling is Partial
}

/// The paths of the operations.
pub open spec fn dests(ops: Seq<&BatchOp>) -> Seq<Seq<char>> {
    ops.map_values(|op: &BatchOp| op.dest())
}

/// What follows once `attempt` responses left `pending` unsettled: a wait of
/// `2^attempt` seconds, or the error that names what never landed.
pub open spec fn follows(
    r: Result<Step, BatchError>,
    pending: Seq<&BatchOp>,
    attempt: nat,
) -> bool {
    if attempt >= BATCH_ATTEMPTS {
        r matches Err(BatchError::Exhausted { pending: paths }) && text::texts(paths@) == dests(
            pending,
        )
    } else {
        r == Ok::<Step, BatchError>(
            Step::Retry(vstd::arithmetic::power2::pow2(attempt) as u64),
        )
    }
}

/// The outcome `r` of one response to `pending`, after `attempt` earlier ones,
/// in a batch of `total` operations.
pub open spec fn answers(
    r: Result<Step, BatchError>,
    pending: Seq<&BatchOp>,
    attempt: nat,
    total: u64,
    resp: BatchResponse,
) -> bool {
    let sent = pending.len();
    match ruling(pending, attempt, resp) {
        Ruling::Refused => r == Err::<Step, BatchError>(
            BatchError::Status {
                status: resp.status,
                request_id: resp.request_id,
                body: resp.body,
            },
        ),
        Ruling::WrongProcessed => r == Err::<Step, BatchError>(
            BatchError::Processed {
                processed: resp.report->0.processed->0,
                sent: sent as u64,
                succeeded: resp.report->0.succeeded,
                failed: resp.report->0.failed@.len() as u64,
                request_id: resp.request_id,
            },
        ),
        Ruling::UnknownPaths => r matches Err(BatchError::UnknownPaths { unknown, sent: n }) && n
            == sent && bucket_client::lists_unknown(
            text::texts(unknown@),
            pending,
            resp.report->0.failed@,
        ),
        Ruling::WrongSucceeded => {
            let named = bucket_client::named_ops(pending, resp.report->0.failed@).len();
            r == Err::<Step, BatchError>(
                BatchError::Succeeded {
                    succeeded: resp.report->0.succeeded->0,
                    sent: sent as u64,
                    named: named as u64,
                    expected: (sent - named) as u64,
                    request_id: resp.request_id,
                },
            )
        },
        Ruling::Unnamed => r == Err::<Step, BatchError>(
            BatchError::Unnamed {
                sent: sent as u64,
                processed: resp.report->0.processed,
                succeeded: resp.report->0.succeeded,
                request_id: resp.request_id,
            },
        ),
        Ruling::Trusted | Ruling::Clean => r == Ok::<Step, BatchError>(Step::Done(total)),
        Ruling::Unconfirmed | Ruling::Partial => follows(
            r,
            next_pending(pending, attempt, resp),
            attempt + 1,
        ),
    }
}

/// The operations of one batch that the server has not confirmed, and what
/// each response means for them.
#[derive(Debug, Clone)]
pub struct Settlement<'a> {
    /// In send order: the next attempt sends exactly these.
    pub pending: Vec<&'a BatchOp>,
    /// Operations in the batch.
    pub total: u64,
    /// Responses so far.
    pub attempt: u32,
}

/// How a batch begins.
#[derive(Debug, Clone)]
pub enum Opening<'a> {
    /// There is nothing to send: the batch is done, with that many operations.
    Done(u64),
    /// The operations are to be sent.
    Send(Settlement<'a>),
}

/// The batch of `ops` begins so.
pub open spec fn opens(r: Opening, ops: Seq<BatchOp>) -> bool {
    &&& ops.len() == 0 ==> r == Opening::Done(0)
    &&& ops.len() > 0 ==> r is Send && r->Send_0.begins(ops)
}

impl<'a> Settlement<'a> {
    /// A batch of `ops` that was not sent yet: all of them are pending, in
    /// order.
    pub open spec fn begins(&self, ops: Seq<BatchOp>) -> bool {
        &&& self.pending@.len() == ops.len()
        &&& forall|i: int| 0 <= i < ops.len() ==> *(#[trigger] self.pending@[i]) == ops[i]
        &&& self.total == ops.len()
        &&& self.attempt == 0
    }

    /// `next` has taken in the response, with the outcome `r`.
    pub open spec fn observes(
        &self,
        resp: BatchResponse,
        r: Result<Step, BatchError>,
        next: Settlement<'a>,
    ) -> bool {
        &&& next.attempt == self.attempt + 1
        &&& next.total == self.total
        &&& next.pending@ == next_pending(self.pending@, self.attempt as nat, resp)
        &&& answers(r, self.pending@, self.attempt as nat, self.total, resp)
    }

    /// How the batch of `ops` begins: an empty one sends nothing and is done.
    pub fn start(ops: &'a [BatchOp]) -> (r: Opening<'a>)
        ensures
            opens(r, ops@),
    {
        if ops.len() == 0 {
            Opening::Done(0)
        } else {
            Opening::Send(Settlement::new(ops))
        }
    }

    /// A batch that was not sent yet.
    pub fn new(ops: &'a [BatchOp]) -> (s: Self)
        ensures
            s.begins(ops@),
    {
        let mut pending: Vec<&'a BatchOp> = Vec::new();
        let mut i: usize = 0;
        while i < ops.len()
            invariant
                0 <= i <= ops@.len(),
                pending@.len() == i,
                forall|j: int| 0 <= j < i ==> *(#[trigger] pending@[j]) == ops@[j],
            decreases ops@.len() - i,
        {
            pending.push(&ops[i]);
            i = i + 1;
        }
        Settlement { pending, total: ops.len() as u64, attempt: 0 }
    }

    /// The operations to send.
    pub fn pending(&self) -> (ops: &[&'a BatchOp])
        ensures
            ops@ == self.pending@,
    {
        self.pending.as_slice()
    }

    /// Apply one response. A report decides, under a 2xx and a 422 alike, and
    /// only where its counters agree with what was sent; one that does not
    /// add up has left operations unaccounted for without naming them, so it
    /// is an error. `Done` carries the number of operations in the batch, not
    /// the server's counters.
    pub fn observe(&mut self, resp: &BatchResponse) -> (r: Result<Step, BatchError>)
        requires
            old(self).attempt < u32::MAX,
        ensures
            old(self).observes(*resp, r, *final(self)),
    {
        let attempt: u32 = self.attempt;
        self.attempt = attempt + 1;
        let sent: u64 = self.pending.len() as u64;
        let accepted = http::is_success(resp.status);
        if !accepted && resp.status != 422 {
            return Err(
                BatchError::Status {
                    status: resp.status,
                    request_id: resp.request_id.clone(),
                    body: resp.body.clone(),
                },
            );
        }
        let report: &BatchReport = match &resp.report {
            None => {
                if accepted && attempt == 0 {
                    return Ok(Step::Done(self.total));
                }
                if accepted {
                    return self.next_attempt();
                }
                return Err(
                    BatchError::Status {
                        status: resp.status,
                        request_id: resp.request_id.clone(),
                        body: resp.body.clone(),
                    },
                );
            },
            Some(report) => report,
        };
        if let Some(processed) = report.processed {
            if processed as i128 != sent as i128 {
                return Err(
                    BatchError::Processed {
                        processed,
                        sent,
                        succeeded: report.succeeded,
                        failed: report.failed.len() as u64,
                        request_id: resp.request_id.clone(),
                    },
                );
            }
        }
        let retry: Vec<&'a BatchOp> = match bucket_client::retry_ops(
            self.pending.as_slice(),
            report.failed.as_slice(),
        ) {
            Err(e) => {
                return Err(e);
            },
            Ok(retry) => retry,
        };
        proof {
            lemma_narrows(self.pending@, report.failed@);
        }
        if let Some(succeeded) = report.succeeded {
            let expected: u64 = sent - retry.len() as u64;
            if succeeded as i128 != expected as i128 {
                return Err(
                    BatchError::Succeeded {
                        succeeded,
                        sent,
                        named: retry.len() as u64,
                        expected,
                        request_id: resp.request_id.clone(),
                    },
                );
            }
        }
        if retry.len() == 0 {
            if !report.success {
                return Err(
                    BatchError::Unnamed {
                        sent,
                        processed: report.processed,
                        succeeded: report.succeeded,
                        request_id: resp.request_id.clone(),
                    },
                );
            }
            return Ok(Step::Done(self.total));
        }
        self.pending = retry;
        self.next_attempt()
    }

    /// The wait before the pending operations are sent again (2s, 4s), or,
    /// once the attempts are spent, the error that names them.
    fn next_attempt(&self) -> (r: Result<Step, BatchError>)
        ensures
            follows(r, self.pending@, self.attempt as nat),
    {
        if self.attempt >= BATCH_ATTEMPTS {
            let mut paths: Vec<String> = Vec::new();
            let mut i: usize = 0;
            while i < self.pending.len()
                invariant
                    0 <= i <= self.pending@.len(),
                    text::texts(paths@) == dests(self.pending@).take(i as int),
                decreases self.pending@.len() - i,
            {
                let ghost before = text::texts(paths@);
                let p: String = self.pending[i].path().to_owned();
                paths.push(p);
                assert(text::texts(paths@) =~= before.push(p@));
                assert(dests(self.pending@)[i as int] == p@);
                assert(text::texts(paths@) =~= dests(self.pending@).take(i + 1));
                i = i + 1;
            }
            assert(dests(self.pending@).take(self.pending@.len() as int) =~= dests(self.pending@));
            return Err(BatchError::Exhausted { pending: paths });
        }
        proof {
            vstd::arithmetic::power2::lemma2_to64();
        }
        let secs: u64 = if self.attempt == 0 {
            1
        } else if self.attempt == 1 {
            2
        } else {
            4
        };
        Ok(Step::Retry(secs))
    }
}

/// The named operations are among those sent.
proof fn lemma_narrows(sent: Seq<&BatchOp>, failed: Seq<FailedOp>)
    ensures
        bucket_client::named_ops(sent, failed).len() <= sent.len(),
        forall|op: &BatchOp| #[trigger]
            bucket_client::named_ops(sent, failed).contains(op) <==> sent.contains(op)
                && bucket_client::named(failed, op.dest()),
{
    let keep = |op: &BatchOp| bucket_client::named(failed, op.dest());
    broadcast use vstd::seq_lib::group_filter_ensures;

    let kept = sent.filter(keep);
    assert forall|op: &BatchOp| #[trigger]
        bucket_client::named_ops(sent, failed).contains(op) <==> sent.contains(op)
            && bucket_client::named(failed, op.dest()) by {
        if sent.contains(op) && bucket_client::named(failed, op.dest()) {
            let i = choose|i: int| 0 <= i < sent.len() && sent[i] == op;
            assert(keep(sent[i]));
            assert(kept.contains(op));
        }
        if kept.contains(op) {
            let i = choose|i: int| 0 <= i < kept.len() && kept[i] == op;
            assert(keep(kept[i]));
            lemma_filter_from(sent, keep, i);
        }
    }
}

/// What a filter keeps was there before.
proof fn lemma_filter_from<A>(s: Seq<A>, keep: spec_fn(A) -> bool, i: int)
    requires
        0 <= i < s.filter(keep).len(),
    ensures
        s.contains(s.filter(keep)[i]),
    decreases s.len(),
{
    reveal(Seq::filter);
    if s.len() > 0 {
        let kept = s.drop_last().filter(keep);
        if i < kept.len() {
            lemma_filter_from(s.drop_last(), keep, i);
            let j = choose|j: int| 0 <= j < s.drop_last().len() && s.drop_last()[j] == kept[i];
            assert(s[j] == kept[i]);
        } else {
            assert(s[s.len() - 1] == s.last());
        }
    }
}

/// The pending operations of a batch once the first `k` responses were
/// applied.
pub open spec fn pending_after<'a>(
    ops: Seq<&'a BatchOp>,
    responses: Seq<BatchResponse>,
    k: nat,
) -> Seq<&'a BatchOp>
    decreases k,
{
    if k == 0 {
        ops
    } else {
        next_pending(
            pending_after(ops, responses, (k - 1) as nat),
            (k - 1) as nat,
            responses[k - 1],
        )
    }
}

/// The ruling on the `k`-th response of a batch.
pub open spec fn ruling_at(ops: Seq<&BatchOp>, responses: Seq<BatchResponse>, k: nat) -> Ruling {
    ruling(pending_after(ops, responses, k), k, responses[k as int])
}

/// The `k`-th response answers `op` and reports it as applied.
pub open spec fn confirmed_at(
    ops: Seq<&BatchOp>,
    responses: Seq<BatchResponse>,
    op: &BatchOp,
    k: nat,
) -> bool {
    &&& pending_after(ops, responses, k).contains(op)
    &&& responses[k as int].report is Some
    &&& !bucket_client::named(responses[k as int].report->0.failed@, op.dest())
}

/// A batch ends within `BATCH_ATTEMPTS` responses: whatever the last of them
/// says, it leads to no further attempt.
pub proof fn attempts_are_bounded(
    r: Result<Step, BatchError>,
    pending: Seq<&BatchOp>,
    attempt: nat,
    total: u64,
    resp: BatchResponse,
)
    requires
        attempt + 1 >= BATCH_ATTEMPTS,
        answers(r, pending, attempt, total, resp),
    ensures
        !(r matches Ok(Step::Retry(_))),
{
}

/// The pending operations only narrow: what a response leaves pending was
/// pending before it.
pub proof fn pending_only_narrows(pending: Seq<&BatchOp>, attempt: nat, resp: BatchResponse)
    ensures
        next_pending(pending, attempt, resp).len() <= pending.len(),
        forall|op: &BatchOp| #[trigger]
            next_pending(pending, attempt, resp).contains(op) ==> pending.contains(op),
{
    if ruling(pending, attempt, resp) is Partial {
        lemma_narrows(pending, resp.report->0.failed@);
    }
}

/// After `k` responses that left the batch unsettled, an operation is still
/// pending or an earlier response confirmed it.
proof fn lemma_pending_or_confirmed(
    ops: Seq<&BatchOp>,
    responses: Seq<BatchResponse>,
    op: &BatchOp,
    k: nat,
)
    requires
        ops.contains(op),
        k <= responses.len(),
        forall|j: nat| j < k ==> unsettled(#[trigger] ruling_at(ops, responses, j)),
    ensures
        pending_after(ops, responses, k).contains(op) || exists|j: nat|
            j < k && #[trigger] confirmed_at(ops, responses, op, j),
    decreases k,
{
    if k > 0 {
        let j = (k - 1) as nat;
        lemma_pending_or_confirmed(ops, responses, op, j);
        assert(unsettled(ruling_at(ops, responses, j)));
        let before = pending_after(ops, responses, j);
        if before.contains(op) && ruling_at(ops, responses, j) is Partial {
            lemma_narrows(before, responses[j as int].report->0.failed@);
            if !bucket_client::named(responses[j as int].report->0.failed@, op.dest()) {
                assert(confirmed_at(ops, responses, op, j));
            }
        }
    }
}

/// Nothing is lost: a batch that is reported done covers all its operations,
/// and each of them was pending under some response whose readable report does
/// not name it as failed. The one batch left aside is that whose first
/// response is a success without a readable report, which is taken at its
/// status.
pub proof fn done_confirms_every_op(
    ops: Seq<&BatchOp>,
    responses: Seq<BatchResponse>,
    total: u64,
    done: u64,
    op: &BatchOp,
)
    requires
        ops.contains(op),
        responses.len() > 0,
        forall|j: nat|
            j + 1 < responses.len() ==> unsettled(#[trigger] ruling_at(ops, responses, j)),
        answers(
            Ok(Step::Done(done)),
            pending_after(ops, responses, (responses.len() - 1) as nat),
            (responses.len() - 1) as nat,
            total,
            responses.last(),
        ),
        responses[0].report is Some,
    ensures
        done == total,
        exists|k: nat| k < responses.len() && #[trigger] confirmed_at(ops, responses, op, k),
{
    let last = (responses.len() - 1) as nat;
    assert(ruling_at(ops, responses, last) is Clean);
    lemma_pending_or_confirmed(ops, responses, op, last);
    let pending = pending_after(ops, responses, last);
    if pending.contains(op) {
        let failed = responses[last as int].report->0.failed@;
        lemma_narrows(pending, failed);
        if bucket_client::named(failed, op.dest()) {
            assert(bucket_client::named_ops(pending, failed).contains(op));
        }
        assert(confirmed_at(ops, responses, op, last));
    }
}

/// A success without a readable report settles a batch only as the answer to
/// the first attempt; on a re-send the operations stay pending.
pub proof fn unreadable_is_trusted_once(pending: Seq<&BatchOp>, attempt: nat, resp: BatchResponse)
    requires
        resp.report is None,
        attempt > 0,
    ensures
        !(ruling(pending, attempt, resp) is Clean),
        !(ruling(pending, attempt, resp) is Trusted),
        next_pending(pending, attempt, resp) == pending,
{
}

/// One batch from its first send on: every response but the last led to
/// another attempt.
pub open spec fn is_batch<'a>(
    ops: Seq<BatchOp>,
    states: Seq<Settlement<'a>>,
    responses: Seq<BatchResponse>,
    results: Seq<Result<Step, BatchError>>,
) -> bool {
    &&& responses.len() > 0
    &&& states.len() == responses.len() + 1
    &&& results.len() == responses.len()
    &&& states[0].begins(ops)
    &&& forall|k: int|
        0 <= k < responses.len() ==> #[trigger] is_round(states, responses, results, k)
    &&& forall|k: int|
        0 <= k < responses.len() - 1 ==> (#[trigger] results[k]) matches Ok(Step::Retry(_))
}

/// The `k`-th response is taken in.
pub open spec fn is_round<'a>(
    states: Seq<Settlement<'a>>,
    responses: Seq<BatchResponse>,
    results: Seq<Result<Step, BatchError>>,
    k: int,
) -> bool {
    states[k].observes(responses[k], results[k], states[k + 1])
}

/// The state before the `k`-th response.
proof fn lemma_batch<'a>(
    ops: Seq<BatchOp>,
    states: Seq<Settlement<'a>>,
    responses: Seq<BatchResponse>,
    results: Seq<Result<Step, BatchError>>,
    k: int,
)
    requires
        is_batch(ops, states, responses, results),
        0 <= k <= responses.len(),
    ensures
        states[k].attempt == k,
        states[k].total == ops.len(),
        states[k].pending@ == pending_after(states[0].pending@, responses, k as nat),
    decreases k,
{
    if k > 0 {
        lemma_batch(ops, states, responses, results, k - 1);
        assert(is_round(states, responses, results, k - 1));
    }
}

/// What a whole batch comes to: it ends within `BATCH_ATTEMPTS` responses; the
/// first attempt sends every operation, and each later one, in the same order,
/// those of the attempt before that the response to it named, or all of them
/// where it could not be read; done means all of the operations.
pub proof fn a_batch_is_done_whole<'a>(
    ops: Seq<BatchOp>,
    states: Seq<Settlement<'a>>,
    responses: Seq<BatchResponse>,
    results: Seq<Result<Step, BatchError>>,
)
    requires
        is_batch(ops, states, responses, results),
    ensures
        responses.len() <= BATCH_ATTEMPTS,
        forall|i: int| 0 <= i < ops.len() ==> *(#[trigger] states[0].pending@[i]) == ops[i],
        states[0].pending@.len() == ops.len(),
        forall|k: int|
            #![trigger states[k]]
            1 <= k < responses.len() ==> states[k].pending@ == match responses[k - 1].report {
                Some(report) => bucket_client::named_ops(states[k - 1].pending@, report.failed@),
                None => states[k - 1].pending@,
            },
        results.last() matches Ok(Step::Done(n)) ==> n == ops.len(),
        responses.len() == BATCH_ATTEMPTS ==> !(results.last() matches Ok(Step::Retry(_))),
{
    let n = responses.len() as int;
    if n > BATCH_ATTEMPTS {
        let k = BATCH_ATTEMPTS - 1;
        lemma_batch(ops, states, responses, results, k);
        assert(is_round(states, responses, results, k));
        attempts_are_bounded(
            results[k],
            states[k].pending@,
            states[k].attempt as nat,
            states[k].total,
            responses[k],
        );
        assert(results[k] matches Ok(Step::Retry(_)));
    }
    lemma_batch(ops, states, responses, results, n - 1);
    assert(is_round(states, responses, results, n - 1));
    assert forall|k: int|
        #![trigger states[k]]
        1 <= k < responses.len() implies states[k].pending@ == match responses[k - 1].report {
        Some(report) => bucket_client::named_ops(states[k - 1].pending@, report.failed@),
        None => states[k - 1].pending@,
    } by {
        assert(is_round(states, responses, results, k - 1));
        assert(results[k - 1] matches Ok(Step::Retry(_)));
    }
}

/// What a response is worth saying in the log.
#[derive(Debug, Clone, Copy, PartialEq, Eq, Structural)]
pub enum Notice {
    Silent,
    /// An unreadable success was taken at its status.
    Trusted,
    /// An unreadable success left the operations unconfirmed.
    Unconfirmed,
    /// Operations were not applied.
    NotApplied,
}

/// What a ruling is worth saying in the log.
pub open spec fn notice_of(ruling: Ruling) -> Notice {
    match ruling {
        Ruling::Trusted => Notice::Trusted,
        Ruling::Unconfirmed => Notice::Unconfirmed,
        Ruling::Partial => Notice::NotApplied,
        _ => Notice::Silent,
    }
}

/// What a response with the outcome `r` is worth saying in the log: what its
/// ruling is.
pub fn notice(resp: &BatchResponse, r: &Result<Step, BatchError>) -> (n: Notice)
    ensures
        forall|pending: Seq<&BatchOp>, attempt: nat, total: u64| #[trigger]
            answers(*r, pending, attempt, total, *resp) ==> n == notice_of(
                ruling(pending, attempt, *resp),
            ),
{
    let unsettled = match r {
        Ok(Step::Retry(_)) => true,
        Err(BatchError::Exhausted { .. }) => true,
        _ => false,
    };
    let readable = resp.report.is_some();
    if unsettled {
        if readable {
            Notice::NotApplied
        } else {
            Notice::Unconfirmed
        }
    } else if r.is_ok() && !readable {
        Notice::Trusted
    } else {
        Notice::Silent
    }
}

/// The report's counters, where it has them, agree with what was sent.
pub open spec fn adds_up(report: BatchReport, sent: nat, named: nat) -> bool {
    &&& report.processed is Some ==> report.processed->0 == sent
    &&& report.succeeded is Some ==> report.succeeded->0 + named == sent
}

/// When a batch is done: on a status in the 200s, or 422, with a report of
/// success that names no failure and whose counters are all of the pending
/// operations; or on the first response, in the 200s, without a report.
pub proof fn batches_are_done(
    r: Result<Step, BatchError>,
    pending: Seq<&BatchOp>,
    attempt: nat,
    total: u64,
    resp: BatchResponse,
)
    requires
        answers(r, pending, attempt, total, resp),
    ensures
        (r matches Ok(Step::Done(_))) <==> match resp.report {
            None => 200 <= resp.status <= 299 && attempt == 0,
            Some(report) => (200 <= resp.status <= 299 || resp.status == 422) && report.success
                && report.failed@.len() == 0 && adds_up(report, pending.len(), 0),
        },
        r matches Ok(Step::Done(n)) ==> n == total,
{
    if resp.report is Some {
        lemma_named_none(pending, resp.report->0.failed@);
    }
}

/// Operations are named exactly when failures are, where the failures are known.
proof fn lemma_named_none(pending: Seq<&BatchOp>, failed: Seq<FailedOp>)
    ensures
        failed.len() == 0 ==> bucket_client::all_known(pending, failed)
            && bucket_client::named_ops(pending, failed).len() == 0,
        failed.len() > 0 && bucket_client::all_known(pending, failed) ==> bucket_client::named_ops(
            pending,
            failed,
        ).len() > 0,
{
    lemma_narrows(pending, failed);
    let kept = bucket_client::named_ops(pending, failed);
    if failed.len() == 0 && kept.len() > 0 {
        assert(kept.contains(kept[0]));
        assert(bucket_client::named(failed, kept[0].dest()));
    }
    if failed.len() > 0 && bucket_client::all_known(pending, failed) {
        bucket_client::failures_are_known_by_their_paths(
            pending,
            failed,
            Seq::empty(),
            Seq::empty(),
            0,
        );
        bucket_client::no_failure_is_dropped(pending, failed, 0);
    }
}

/// When operations are sent again: while fewer than three responses came, on a
/// report that adds up and names failures, all of them pending; or on a later
/// response, in the 200s, without a report. The waits are two seconds, then
/// four. With the third such response the error names what never landed.
pub proof fn batches_are_sent_again(
    r: Result<Step, BatchError>,
    pending: Seq<&BatchOp>,
    attempt: nat,
    total: u64,
    resp: BatchResponse,
)
    requires
        answers(r, pending, attempt, total, resp),
    ensures
        ({
            let unsettled = match resp.report {
                None => 200 <= resp.status <= 299 && attempt > 0,
                Some(report) => (200 <= resp.status <= 299 || resp.status == 422)
                    && report.failed@.len() > 0 && bucket_client::all_known(pending, report.failed@)
                    && adds_up(
                    report,
                    pending.len(),
                    bucket_client::named_ops(pending, report.failed@).len(),
                ),
            };
            &&& (r matches Ok(Step::Retry(_))) <==> unsettled && attempt + 1 < 3
            &&& (r matches Err(BatchError::Exhausted { .. })) <==> unsettled && attempt + 1 >= 3
            &&& unsettled && attempt == 0 ==> r == Ok::<Step, BatchError>(Step::Retry(2))
            &&& unsettled && attempt == 1 ==> r == Ok::<Step, BatchError>(Step::Retry(4))
            &&& r matches Err(BatchError::Exhausted { pending: paths }) ==> {
                let left = next_pending(pending, attempt, resp);
                paths@.len() == left.len() && forall|i: int|
                    0 <= i < left.len() ==> (#[trigger] paths@[i])@ == left[i].dest()
            }
        }),
{
    vstd::arithmetic::power2::lemma2_to64();
    if resp.report is Some {
        lemma_named_none(pending, resp.report->0.failed@);
    }
    if let Err(BatchError::Exhausted { pending: paths }) = r {
        let left = next_pending(pending, attempt, resp);
        if answers(r, pending, attempt, total, resp) {
            assert(text::texts(paths@) == dests(left));
            assert(text::texts(paths@).len() == paths@.len());
            assert forall|i: int| 0 <= i < left.len() implies (#[trigger] paths@[i])@
                == left[i].dest() by {
                assert(text::texts(paths@)[i] == dests(left)[i]);
            }
        }
    }
}

/// What is sent again: without a report, all that was pending; with one, those
/// of the pending operations whose paths its failures name, and no others.
pub proof fn the_named_operations_stay_pending(
    pending: Seq<&BatchOp>,
    attempt: nat,
    resp: BatchResponse,
    op: &BatchOp,
)
    ensures
        resp.report is None ==> next_pending(pending, attempt, resp) == pending,
        ruling(pending, attempt, resp) is Partial ==> (next_pending(
            pending,
            attempt,
            resp,
        ).contains(op) <==> pending.contains(op) && exists|j: int|
            0 <= j < resp.report->0.failed@.len() && (#[trigger] resp.report->0.failed@[j]).path@
                == op.dest()),
        !(ruling(pending, attempt, resp) is Partial) ==> next_pending(pending, attempt, resp)
            == pending,
{
    if resp.report is Some {
        lemma_narrows(pending, resp.report->0.failed@);
    }
}

/// When a batch fails for good, each error with the responses it comes to; the
/// first that applies counts.
pub proof fn batches_fail(
    r: Result<Step, BatchError>,
    pending: Seq<&BatchOp>,
    attempt: nat,
    total: u64,
    resp: BatchResponse,
)
    requires
        answers(r, pending, attempt, total, resp),
    ensures
        ({
            let heard = 200 <= resp.status <= 299 || resp.status == 422;
            let report = resp.report->0;
            let read = heard && resp.report is Some;
            let counted = read && (report.processed is None || report.processed->0
                == pending.len());
            let known = counted && bucket_client::all_known(pending, report.failed@);
            let named = bucket_client::named_ops(pending, report.failed@).len();
            &&& (r matches Err(BatchError::Status { .. })) <==> !heard || (resp.status == 422
                && resp.report is None)
            &&& (r matches Err(BatchError::Processed { .. })) <==> read && !counted
            &&& (r matches Err(BatchError::UnknownPaths { .. })) <==> counted && !known
            &&& (r matches Err(BatchError::Succeeded { .. })) <==> known && report.succeeded is Some
                && report.succeeded->0 + named != pending.len()
            &&& (r matches Err(BatchError::Unnamed { .. })) <==> known && adds_up(
                report,
                pending.len(),
                named,
            ) && report.failed@.len() == 0 && !report.success
            &&& r matches Err(BatchError::Status { status, request_id, body }) ==> status
                == resp.status && request_id == resp.request_id && body == resp.body
            &&& r matches Err(
                BatchError::Processed { processed, sent, succeeded, failed, request_id },
            ) ==> processed == report.processed->0 && succeeded == report.succeeded && request_id
                == resp.request_id && (pending.len() <= u64::MAX ==> sent == pending.len()) && (
            report.failed@.len() <= u64::MAX ==> failed == report.failed@.len())
            &&& r matches Err(BatchError::Succeeded { succeeded, sent, named: n, expected, request_id })
                ==> succeeded == report.succeeded->0 && request_id == resp.request_id && (
            pending.len() <= u64::MAX ==> sent == pending.len() && n == named && expected + n == sent)
            &&& r matches Err(BatchError::Unnamed { sent, processed, succeeded, request_id }) ==> (
            pending.len() <= u64::MAX ==> sent == pending.len()) && processed == report.processed
                && succeeded == report.succeeded && request_id == resp.request_id
        }),
{
    if resp.report is Some {
        lemma_named_none(pending, resp.report->0.failed@);
        lemma_narrows(pending, resp.report->0.failed@);
    }
}

/// A batch begins with all of its operations pending, in order, and no response.
pub proof fn batches_begin_whole(s: Settlement, ops: Seq<BatchOp>, i: int)
    requires
        s.begins(ops),
        0 <= i < ops.len(),
    ensures
        s.pending@.len() == ops.len(),
        *s.pending@[i] == ops[i],
        s.total == ops.len(),
        s.attempt == 0,
{
}

/// Only an empty batch is done before it is sent, with no operations; any other
/// is sent with all of its operations.
pub proof fn only_empty_batches_are_not_sent(r: Opening, ops: Seq<BatchOp>, i: int)
    requires
        opens(r, ops),
    ensures
        r is Done <==> ops.len() == 0,
        r matches Opening::Done(n) ==> n == 0,
        r matches Opening::Send(s) ==> s.pending@.len() == ops.len() && s.total == ops.len()
            && s.attempt == 0 && (0 <= i < ops.len() ==> *s.pending@[i] == ops[i]),
{
}

} // verus!
