//! What a response status means, and when a request is sent again.
use vstd::prelude::*;
use crate::text;

verus! {

/// A status in the 200s.
pub open spec fn success(status: u16) -> bool {
    200 <= status < 300
}

/// A status in the 500s.
pub open spec fn server_error(status: u16) -> bool {
    500 <= status < 600
}

/// A status worth another try: 429, or one in the 500s.
pub open spec fn transient(status: u16) -> bool {
    status == 429 || server_error(status)
}

/// Whether the status is in the 200s.
pub fn is_success(status: u16) -> (r: bool)
    ensures
        r == success(status),
{
    200 <= status && status < 300
}

/// Whether the status is 429 or in the 500s.
pub fn is_transient(status: u16) -> (r: bool)
    ensures
        r == transient(status),
{
    status == 429 || (500 <= status && status < 600)
}

/// What `StatusCode::canonical_reason` says of a status: the standard reason
/// phrase, where there is one.
pub uninterp spec fn reason_phrase(status: u16) -> Option<Seq<char>>;

/// Calls `StatusCode::from_u16`, then `StatusCode::canonical_reason`. The
/// table of phrases is named, not described; a number that is no status has
/// no phrase.
#[verifier::external_body]
fn canonical_reason(status: u16) -> (r: Option<String>)
    ensures
        r is Some <==> reason_phrase(status) is Some,
        r is Some ==> r->0@ == reason_phrase(status)->0,
{
    let code = reqwest::StatusCode::from_u16(status).ok();
    code.and_then(|c| c.canonical_reason()).map(|s| s.to_string())
}

/// A status as text, given its phrase: the number, then the phrase.
pub open spec fn status_with(status: u16, phrase: Option<Seq<char>>) -> Seq<char> {
    text::decimal(status as nat) + " "@ + (match phrase {
        Some(p) => p,
        None => "<unknown status code>"@,
    })
}

/// A status as text: the number, then its reason phrase.
pub open spec fn status_words(status: u16) -> Seq<char> {
    status_with(status, reason_phrase(status))
}

/// A status as text, given its phrase.
pub fn status_text_with(status: u16, phrase: Option<String>) -> (r: String)
    ensures
        phrase is Some ==> r@ == status_with(status, Some(phrase->0@)),
        phrase is None ==> r@ == status_with(status, None),
{
    let mut r = text::decimal_text(status as u64);
    r.append(" ");
    match phrase {
        Some(p) => {
            r.append(p.as_str());
        },
        None => {
            r.append("<unknown status code>");
        },
    }
    r
}

/// A status as text: the number, then its reason phrase.
pub fn status_text(status: u16) -> (r: String)
    ensures
        r@ == status_words(status),
{
    status_text_with(status, canonical_reason(status))
}

/// The words for a request whose final status is no success.
pub open spec fn failure_words(what: Seq<char>, status: u16, body: Seq<char>) -> Seq<char> {
    what + " failed: HTTP "@ + status_words(status) + ": "@ + body
}

/// The outcome `r` of a final response.
pub open spec fn checked(
    r: Result<(), String>,
    what: Seq<char>,
    status: u16,
    body: Seq<char>,
) -> bool {
    &&& r is Ok <==> success(status)
    &&& r is Err ==> r->Err_0@ == failure_words(what, status, body)
}

/// A final response: `Ok` for a status in the 200s, else the words that name
/// the request, the status and the body.
pub fn check_status(what: &str, status: u16, body: &str) -> (r: Result<(), String>)
    ensures
        checked(r, what@, status, body@),
{
    if is_success(status) {
        return Ok(());
    }
    let mut words = String::new();
    words.append(what);
    words.append(" failed: HTTP ");
    words.append(status_text(status).as_str());
    words.append(": ");
    words.append(body);
    assert(words@ =~= failure_words(what@, status, body@));
    Err(words)
}

/// How long to wait before the next try.
#[derive(Debug, Clone, Copy, PartialEq, Eq)]
pub enum Backoff {
    /// What the server asked for.
    Secs(u64),
    Millis(u64),
}

/// `base * 2^attempt`, the exponent capped at 6 and the result at `cap`.
pub open spec fn doubled(base: nat, attempt: nat, cap: nat) -> nat {
    let exponent = if attempt < 6 {
        attempt
    } else {
        6
    };
    let grown = base * vstd::arithmetic::power2::pow2(exponent);
    if grown < cap {
        grown
    } else {
        cap
    }
}

/// Exponential backoff: `base * 2^attempt` milliseconds, capped.
pub fn backoff_ms(base: u64, attempt: u32, cap: u64) -> (ms: u64)
    requires
        base <= u64::MAX / 64,
    ensures
        ms == doubled(base as nat, attempt as nat, cap as nat),
{
    proof {
        vstd::arithmetic::power2::lemma2_to64();
    }
    let factor: u64 = if attempt == 0 {
        1
    } else if attempt == 1 {
        2
    } else if attempt == 2 {
        4
    } else if attempt == 3 {
        8
    } else if attempt == 4 {
        16
    } else if attempt == 5 {
        32
    } else {
        64
    };
    assert(base * factor <= u64::MAX) by (nonlinear_arith)
        requires
            base <= u64::MAX / 64,
            factor <= 64,
    ;
    let grown: u64 = base * factor;
    if grown < cap {
        grown
    } else {
        cap
    }
}

/// Tries of one request, the first one included.
pub const MAX_ATTEMPTS: u32 = 6;

/// What came of one try.
#[derive(Debug, Clone, PartialEq, Eq)]
pub enum Reply {
    /// No response: the connection failed or timed out.
    Transport,
    /// A response, with its `Retry-After` header.
    Response { status: u16, retry_after: Option<String> },
}

/// What to do after one try.
#[derive(Debug, Clone, Copy, PartialEq, Eq)]
pub enum RetryStep {
    /// Wait, then send the request again.
    Again(Backoff),
    /// Hand the response to the caller.
    Return,
    /// Report the transport failure.
    GiveUp,
}

/// The tries of one request.
#[derive(Debug, Clone, Copy, PartialEq, Eq)]
pub struct Retries {
    /// Whether a transport failure is tried again at all.
    pub transport: bool,
    /// Failed tries so far.
    pub attempt: u32,
}

/// The wait after a transient response: what the server asked for, else
/// exponential.
pub open spec fn wait_for(retry_after: Option<Seq<char>>, attempt: nat) -> Backoff {
    match retry_after {
        Some(s) if text::number(s, 10) is Some && text::number(s, 10)->0 <= u64::MAX =>
            Backoff::Secs(text::number(s, 10)->0 as u64),
        _ => Backoff::Millis(doubled(500, attempt, 30_000) as u64),
    }
}

impl Retries {
    /// A request that was not sent yet.
    pub fn new(transport: bool) -> (r: Self)
        ensures
            r.transport == transport,
            r.attempt == 0,
    {
        Retries { transport, attempt: 0 }
    }

    /// What the try that came to `reply` leads to.
    pub open spec fn ruling(&self, reply: Reply) -> RetryStep {
        match reply {
            Reply::Transport => if self.transport && self.attempt + 1 < MAX_ATTEMPTS {
                RetryStep::Again(
                    Backoff::Millis(doubled(500, (self.attempt + 1) as nat, 30_000) as u64),
                )
            } else {
                RetryStep::GiveUp
            },
            Reply::Response { status, retry_after } => if transient(status) && self.attempt + 1
                < MAX_ATTEMPTS {
                RetryStep::Again(
                    wait_for(
                        match retry_after {
                            Some(s) => Some(s@),
                            None => None,
                        },
                        (self.attempt + 1) as nat,
                    ),
                )
            } else {
                RetryStep::Return
            },
        }
    }

    /// The try that came to `reply` leads to `step`, and `next` has counted it.
    pub open spec fn observes(&self, reply: Reply, step: RetryStep, next: Retries) -> bool {
        &&& step == self.ruling(reply)
        &&& next.transport == self.transport
        &&& next.attempt == (if step is Again {
            self.attempt + 1
        } else {
            self.attempt as int
        })
    }

    /// Count one try and say what follows: a transport failure (where those
    /// are tried again) and a transient status are sent again until the tries
    /// are spent; any other response goes to the caller.
    pub fn observe(&mut self, reply: &Reply) -> (step: RetryStep)
        requires
            old(self).attempt < u32::MAX,
        ensures
            old(self).observes(*reply, step, *final(self)),
    {
        match reply {
            Reply::Transport => {
                if self.transport && self.attempt + 1 < MAX_ATTEMPTS {
                    self.attempt = self.attempt + 1;
                    RetryStep::Again(Backoff::Millis(backoff_ms(500, self.attempt, 30_000)))
                } else {
                    RetryStep::GiveUp
                }
            },
            Reply::Response { status, retry_after } => {
                if is_transient(*status) && self.attempt + 1 < MAX_ATTEMPTS {
                    self.attempt = self.attempt + 1;
                    let asked: Option<u64> = match retry_after {
                        Some(s) => text::parse_u64(s.as_str()),
                        None => None,
                    };
                    match asked {
                        Some(secs) => RetryStep::Again(Backoff::Secs(secs)),
                        None => RetryStep::Again(
                            Backoff::Millis(backoff_ms(500, self.attempt, 30_000)),
                        ),
                    }
                } else {
                    RetryStep::Return
                }
            },
        }
    }
}

/// A request is sent at most `MAX_ATTEMPTS` times: once the failed tries
/// reach one less, no reply leads to another.
pub proof fn tries_are_bounded(r: Retries, reply: Reply)
    requires
        r.attempt + 1 >= MAX_ATTEMPTS,
    ensures
        !(r.ruling(reply) is Again),
{
}

/// Tries of one listing page, the first one included.
pub const MAX_PAGE_ATTEMPTS: u32 = 8;

/// The wait after the `attempt`-th failure of a listing page, in milliseconds.
pub open spec fn page_wait(attempt: nat) -> Option<nat> {
    if attempt >= MAX_PAGE_ATTEMPTS {
        None
    } else {
        Some(doubled(250, attempt, 10_000))
    }
}

/// A listing page is tried eight times; the waits are 500ms, 1s, 2s, 4s, 8s,
/// then 10s.
pub proof fn pages_wait_longer_each_time(attempt: nat)
    ensures
        attempt >= 8 <==> page_wait(attempt) is None,
        1 <= attempt <= 5 ==> page_wait(attempt)->0 == 250 * vstd::arithmetic::power2::pow2(attempt),
        1 <= attempt < 5 ==> page_wait(attempt + 1)->0 == 2 * page_wait(attempt)->0,
        attempt == 1 ==> page_wait(attempt) == Some(500nat),
        6 <= attempt < 8 ==> page_wait(attempt) == Some(10_000nat),
{
    vstd::arithmetic::power2::lemma2_to64();
}

/// After the `attempt`-th failure of a listing page: the wait before the next
/// try, or `None` once the tries are spent. 500ms, 1s, 2s, 4s, 8s, then 10s.
pub fn page_backoff_ms(attempt: u32) -> (r: Option<u64>)
    ensures
        r is None <==> page_wait(attempt as nat) is None,
        r is Some ==> r->0 == page_wait(attempt as nat)->0,
        r is None <==> attempt >= MAX_PAGE_ATTEMPTS,
        r is Some ==> r->0 == doubled(250, attempt as nat, 10_000),
{
    if attempt >= MAX_PAGE_ATTEMPTS {
        None
    } else {
        Some(backoff_ms(250, attempt, 10_000))
    }
}

/// What a status means goes by its hundreds, but for 429.
pub proof fn statuses_go_by_their_hundreds(status: u16)
    ensures
        success(status) <==> status as int / 100 == 2,
        server_error(status) <==> status as int / 100 == 5,
        transient(status) <==> status == 429 || status as int / 100 == 5,
{
}

/// Each wait is twice the one before, up to the cap and for six tries.
pub proof fn waits_double(base: nat, attempt: nat, cap: nat)
    ensures
        base <= cap ==> doubled(base, 0, cap) == base,
        base > cap ==> doubled(base, 0, cap) == cap,
        attempt < 6 && 2 * doubled(base, attempt, cap) <= cap ==> doubled(base, attempt + 1, cap)
            == 2 * doubled(base, attempt, cap),
        attempt < 6 && 2 * doubled(base, attempt, cap) > cap ==> doubled(base, attempt + 1, cap)
            == cap,
        attempt >= 6 ==> doubled(base, attempt + 1, cap) == doubled(base, attempt, cap),
{
    vstd::arithmetic::power2::lemma2_to64();
    assert(base * 1 == base);
    if attempt < 6 {
        vstd::arithmetic::power2::lemma_pow2_unfold(attempt + 1);
        let p = vstd::arithmetic::power2::pow2(attempt);
        assert(base * (2 * p) == 2 * (base * p)) by (nonlinear_arith);
    }
}

/// A request is sent again while tries are left, six in all: after a status
/// that is 429 or in the 500s, and after a lost connection where those are
/// tried again. Any other response goes to the caller, any other loss is
/// reported.
pub proof fn requests_are_sent_again(r: Retries, reply: Reply)
    ensures
        ({
            let again = r.attempt < 5 && match reply {
                Reply::Transport => r.transport,
                Reply::Response { status, .. } => status == 429 || 500 <= status <= 599,
            };
            &&& r.ruling(reply) is Again <==> again
            &&& r.ruling(reply) is GiveUp <==> !again && reply is Transport
            &&& r.ruling(reply) is Return <==> !again && reply is Response
        }),
{
}

/// What the server asks for is how long the next try waits, in seconds; without
/// it, the waits are 1s, 2s, 4s, 8s, 16s.
pub proof fn requests_wait(r: Retries, reply: Reply, n: u64)
    requires
        r.ruling(reply) is Again,
    ensures
        ({
            let wait = r.ruling(reply)->Again_0;
            let asked = match reply {
                Reply::Response { retry_after: Some(s), .. } => text::number(s@, 10),
                _ => None,
            };
            &&& asked == Some(n as nat) ==> wait == Backoff::Secs(n)
            &&& asked is None || asked->0 > u64::MAX ==> wait is Millis
            &&& wait is Millis && r.attempt == 0 ==> wait == Backoff::Millis(1000)
            &&& wait is Millis && r.attempt == 1 ==> wait == Backoff::Millis(2000)
            &&& wait is Millis && r.attempt == 2 ==> wait == Backoff::Millis(4000)
            &&& wait is Millis && r.attempt == 3 ==> wait == Backoff::Millis(8000)
            &&& wait is Millis && r.attempt == 4 ==> wait == Backoff::Millis(16000)
            &&& r.attempt <= 4
        }),
{
    vstd::arithmetic::power2::lemma2_to64();
}

/// A failure names the request first and gives the body last, with the status,
/// its number and its phrase, between them.
pub proof fn failures_name_request_and_body(what: Seq<char>, status: u16, body: Seq<char>)
    ensures
        ({
            let words = failure_words(what, status, body);
            &&& words.len() >= what.len() + body.len()
            &&& words.take(what.len() as int) == what
            &&& words.skip(words.len() - body.len()) == body
            &&& text::holds(words, status_words(status))
        }),
        ({
            let words = status_words(status);
            let digits = text::decimal(status as nat);
            &&& words.len() > digits.len()
            &&& words.take(digits.len() as int) == digits
            &&& words[digits.len() as int] == ' '
            &&& reason_phrase(status) is Some ==> words.skip(digits.len() as int + 1)
                == reason_phrase(status)->0
            &&& reason_phrase(status) is None ==> words.skip(digits.len() as int + 1)
                == "<unknown status code>"@
        }),
{
    reveal_strlit(" ");
    let words = failure_words(what, status, body);
    assert(words.take(what.len() as int) =~= what);
    assert(words.skip(words.len() - body.len()) =~= body);
    text::texts_hold_what_is_inside(
        words,
        status_words(status),
        what + " failed: HTTP "@,
        ": "@ + body,
    );
    assert(words =~= (what + " failed: HTTP "@) + status_words(status) + (": "@ + body));
    let w = status_words(status);
    let digits = text::decimal(status as nat);
    assert(w.take(digits.len() as int) =~= digits);
    if reason_phrase(status) is Some {
        assert(w.skip(digits.len() as int + 1) =~= reason_phrase(status)->0);
    } else {
        assert(w.skip(digits.len() as int + 1) =~= "<unknown status code>"@);
    }
}

/// The replies lead from `r` on, each to another try.
pub open spec fn sent_again(r: Retries, replies: Seq<Reply>, states: Seq<Retries>) -> bool {
    &&& states.len() == replies.len() + 1
    &&& states[0] == r
    &&& forall|i: int|
        #![trigger replies[i]]
        0 <= i < replies.len() ==> leads_to_another(states[i], replies[i], states[i + 1])
}

/// The reply leads to another try.
pub open spec fn leads_to_another(r: Retries, reply: Reply, next: Retries) -> bool {
    exists|step: RetryStep| #[trigger] r.observes(reply, step, next) && step is Again
}

/// Each try is counted, so that a request that was not sent yet is sent again
/// five times at most, whatever the replies.
pub proof fn a_request_is_sent_six_times_at_most(
    r: Retries,
    replies: Seq<Reply>,
    states: Seq<Retries>,
)
    requires
        r.attempt == 0,
        sent_again(r, replies, states),
    ensures
        replies.len() <= 5,
        states.last().attempt == replies.len(),
    decreases replies.len(),
{
    if replies.len() > 0 {
        let n = replies.len() - 1;
        let front = replies.drop_last();
        let before = states.drop_last();
        assert forall|i: int|
            #![trigger front[i]]
            0 <= i < front.len() implies leads_to_another(before[i], front[i], before[i + 1]) by {
            assert(replies[i] == front[i]);
        }
        a_request_is_sent_six_times_at_most(r, front, before);
        assert(leads_to_another(states[n], replies[n], states[n + 1]));
        let step = choose|step: RetryStep| #[trigger]
            states[n].observes(replies[n], step, states[n + 1]) && step is Again;
        requests_are_sent_again(states[n], replies[n]);
    }
}

/// A final response is a failure exactly when its status is not in the 200s;
/// the words then begin with the request and end with the body.
pub proof fn final_responses_are_checked(
    r: Result<(), String>,
    what: Seq<char>,
    status: u16,
    body: Seq<char>,
)
    requires
        checked(r, what, status, body),
    ensures
        r is Ok <==> 200 <= status <= 299,
        r is Err ==> r->Err_0@.take(what.len() as int) == what && r->Err_0@.skip(
            r->Err_0@.len() - body.len(),
        ) == body,
{
    failures_name_request_and_body(what, status, body);
}

} // verus!
