//! The jobs API: what a job is asked to run, and what its stage means.
use vstd::prelude::*;
use crate::http;
use crate::keymap::KeyMap;
use crate::text;
use crate::urls;

verus! {

/// What a job is asked to run.
#[derive(Debug, Clone, PartialEq, Eq)]
pub struct JobSpec {
    /// The executable and its arguments.
    pub command: Vec<String>,
    /// Always empty: everything stands in `command`.
    pub arguments: Vec<String>,
    pub environment: KeyMap<String>,
    pub flavor: String,
    pub docker_image: String,
    pub secrets: KeyMap<String>,
    pub timeout_seconds: Option<u64>,
    pub labels: KeyMap<String>,
}

/// Where a job stands.
#[derive(Debug, Clone, PartialEq, Eq)]
pub struct JobStatus {
    pub stage: String,
    pub message: Option<String>,
}

/// A job.
#[derive(Debug, Clone, PartialEq, Eq)]
pub struct JobInfo {
    pub id: String,
    pub status: Option<JobStatus>,
}

/// The stages that never change again.
pub open spec fn terminal(stage: Seq<char>) -> bool {
    stage == "COMPLETED"@ || stage == "ERROR"@ || stage == "CANCELED"@ || stage == "DELETED"@
}

/// The stage of a new job: `RUNNING` where the answer names none.
pub open spec fn first_stage(status: Option<JobStatus>) -> Seq<char> {
    match status {
        Some(s) => s.stage@,
        None => "RUNNING"@,
    }
}

impl JobInfo {
    /// Whether the stage never changes again. An unknown stage counts as
    /// running: polling goes on rather than ending too early.
    pub fn is_terminal(stage: &str) -> (r: bool)
        ensures
            r == terminal(stage@),
    {
        text::same(stage, "COMPLETED") || text::same(stage, "ERROR") || text::same(
            stage,
            "CANCELED",
        ) || text::same(stage, "DELETED")
    }

    /// The stage of a new job.
    pub fn initial_stage(&self) -> (r: String)
        ensures
            r@ == first_stage(self.status),
    {
        match &self.status {
            Some(s) => s.stage.clone(),
            None => "RUNNING".to_owned(),
        }
    }
}

// ---------------------------------------------------------------------------
// Addresses
// ---------------------------------------------------------------------------
/// The address of a namespace's jobs.
pub open spec fn jobs_address(endpoint: Seq<char>, namespace: Seq<char>) -> Seq<char> {
    endpoint + "/api/jobs/"@ + namespace
}

/// The address of one job.
pub open spec fn job_address(endpoint: Seq<char>, namespace: Seq<char>, id: Seq<char>) -> Seq<char> {
    endpoint + "/api/jobs/"@ + namespace + seq!['/'] + id
}

/// The address that tells whose token is used.
pub open spec fn whoami_address(endpoint: Seq<char>) -> Seq<char> {
    endpoint + "/api/whoami-v2"@
}

/// Every address begins with the endpoint; a job's is that of its namespace's
/// jobs, a slash and the job.
pub proof fn addresses_begin_with_the_endpoint(
    endpoint: Seq<char>,
    namespace: Seq<char>,
    id: Seq<char>,
)
    ensures
        text::after_prefix(jobs_address(endpoint, namespace), endpoint) == Some(
            "/api/jobs/"@ + namespace,
        ),
        text::after_prefix(
            job_address(endpoint, namespace, id),
            jobs_address(endpoint, namespace),
        ) == Some(seq!['/'] + id),
        text::after_prefix(whoami_address(endpoint), endpoint) == Some("/api/whoami-v2"@),
{
    let jobs = jobs_address(endpoint, namespace);
    assert(jobs =~= endpoint + ("/api/jobs/"@ + namespace));
    assert(job_address(endpoint, namespace, id) =~= jobs + (seq!['/'] + id));
    text::parts_are_taken_off(endpoint, "/api/jobs/"@ + namespace);
    text::parts_are_taken_off(jobs, seq!['/'] + id);
    text::parts_are_taken_off(endpoint, "/api/whoami-v2"@);
}

/// The address of a namespace's jobs.
pub fn jobs_url(endpoint: &str, namespace: &str) -> (r: String)
    ensures
        r@ == jobs_address(endpoint@, namespace@),
{
    let mut r = endpoint.to_owned();
    r.append("/api/jobs/");
    r.append(namespace);
    assert(r@ =~= endpoint@ + "/api/jobs/"@ + namespace@);
    r
}

/// The address of one job.
pub fn job_url(endpoint: &str, namespace: &str, id: &str) -> (r: String)
    ensures
        r@ == job_address(endpoint@, namespace@, id@),
{
    let mut r = jobs_url(endpoint, namespace);
    r.push('/');
    r.append(id);
    assert(r@ =~= endpoint@ + "/api/jobs/"@ + namespace@ + seq!['/'] + id@);
    r
}

/// The address that tells whose token is used.
pub fn whoami_url(endpoint: &str) -> (r: String)
    ensures
        r@ == whoami_address(endpoint@),
{
    let mut r = endpoint.to_owned();
    r.append("/api/whoami-v2");
    r
}

// ---------------------------------------------------------------------------
// Whose token is used
// ---------------------------------------------------------------------------
/// What `serde_json` reads in a text as one member of the value it holds: the
/// string there, `None` where there is no such string, or the words of the
/// parse error.
pub uninterp spec fn json_text(body: Seq<char>, member: Seq<char>) -> Result<
    Option<Seq<char>>,
    Seq<char>,
>;

/// Calls `serde_json::from_str` for a `Value`, then `Value::get` with the
/// member and `Value::as_str`. What they find is named, not described.
#[verifier::external_body]
fn read_text(body: &str, member: &str) -> (r: Result<Option<String>, String>)
    ensures
        r is Ok <==> json_text(body@, member@) is Ok,
        r is Ok ==> urls::text_or_none(r->Ok_0) == json_text(body@, member@)->Ok_0,
        r is Err ==> r->Err_0@ == json_text(body@, member@)->Err_0,
{
    let v: serde_json::Value = serde_json::from_str(body).map_err(|e| e.to_string())?;
    Ok(v.get(member).and_then(|n| n.as_str()).map(|s| s.to_string()))
}

/// The outcome `r` of a whoami answer, given what its body was read as.
pub open spec fn named_by(
    r: Result<String, String>,
    status: u16,
    body: Seq<char>,
    name: Result<Option<Seq<char>>, Seq<char>>,
) -> bool {
    if !http::success(status) {
        r is Err && r->Err_0@ == http::failure_words("whoami"@, status, body)
    } else {
        match name {
            Err(e) => r is Err && r->Err_0@ == "decode whoami: "@ + e,
            Ok(None) => r is Err && r->Err_0@ == "whoami response missing `name`"@,
            Ok(Some(n)) => r is Ok && r->Ok_0@ == n,
        }
    }
}

/// A name that was read, as the spec has it.
pub open spec fn name_view(name: Result<Option<String>, String>) -> Result<
    Option<Seq<char>>,
    Seq<char>,
> {
    match name {
        Ok(n) => Ok(urls::text_or_none(n)),
        Err(e) => Err(e@),
    }
}

/// The namespace that a whoami answer names, given what its body was read as.
pub fn whoami_with(status: u16, body: &str, name: Result<Option<String>, String>) -> (r: Result<
    String,
    String,
>)
    ensures
        named_by(r, status, body@, name_view(name)),
{
    match http::check_status("whoami", status, body) {
        Err(words) => {
            return Err(words);
        },
        Ok(()) => {},
    }
    match name {
        Err(e) => {
            let mut words = String::new();
            words.append("decode whoami: ");
            words.append(e.as_str());
            assert(words@ =~= "decode whoami: "@ + e@);
            Err(words)
        },
        Ok(None) => Err("whoami response missing `name`".to_owned()),
        Ok(Some(n)) => Ok(n),
    }
}

/// The namespace that a whoami answer names: the member `name` of its body.
pub fn whoami_name(status: u16, body: &str) -> (r: Result<String, String>)
    ensures
        named_by(r, status, body@, json_text(body@, "name"@)),
{
    whoami_with(status, body, read_text(body, "name"))
}

/// A stage is final exactly when it is one of four; any other, known or not,
/// may change. A new job without a stage counts as running, which is not final.
pub proof fn four_stages_are_final(stage: Seq<char>, status: Option<JobStatus>)
    ensures
        terminal(stage) <==> seq!["COMPLETED"@, "ERROR"@, "CANCELED"@, "DELETED"@].contains(stage),
        status is None ==> first_stage(status) == "RUNNING"@ && !terminal(first_stage(status)),
        status is Some ==> first_stage(status) == status->0.stage@,
{
    reveal_strlit("RUNNING");
    reveal_strlit("COMPLETED");
    reveal_strlit("ERROR");
    reveal_strlit("CANCELED");
    reveal_strlit("DELETED");
    let stages = seq!["COMPLETED"@, "ERROR"@, "CANCELED"@, "DELETED"@];
    assert(stages[0] == "COMPLETED"@ && stages[1] == "ERROR"@ && stages[2] == "CANCELED"@
        && stages[3] == "DELETED"@);
    assert("RUNNING"@.len() == 7 && "DELETED"@.len() == 7);
    assert("RUNNING"@[0] != "DELETED"@[0]);
}

/// A namespace is named exactly by a success whose body holds a name, and is
/// that name. Any other answer is an error: it gives the body of a failure, or
/// the words of the parse error.
pub proof fn names_come_from_successes(
    r: Result<String, String>,
    status: u16,
    body: Seq<char>,
    name: Result<Option<Seq<char>>, Seq<char>>,
)
    requires
        named_by(r, status, body, name),
    ensures
        r is Ok <==> 200 <= status <= 299 && name is Ok && name->Ok_0 is Some,
        r is Ok ==> r->Ok_0@ == name->Ok_0->0,
        !(200 <= status <= 299) ==> r->Err_0@.skip(r->Err_0@.len() - body.len()) == body,
        200 <= status <= 299 && name is Ok && name->Ok_0 is None ==> r->Err_0@
            == "whoami response missing `name`"@,
        200 <= status <= 299 && name is Err ==> r->Err_0@.skip(
            r->Err_0@.len() - name->Err_0.len(),
        ) == name->Err_0,
{
    http::failures_name_request_and_body("whoami"@, status, body);
    if 200 <= status <= 299 && name is Err {
        assert(r->Err_0@.skip(r->Err_0@.len() - name->Err_0.len()) =~= name->Err_0);
    }
}

/// A name that was read is the string read, none where there was none, or the
/// words of the error.
pub proof fn names_are_read_as_they_are(name: Result<Option<String>, String>)
    ensures
        name matches Ok(Some(n)) ==> name_view(name) == Ok::<Option<Seq<char>>, Seq<char>>(
            Some(n@),
        ),
        name matches Ok(None) ==> name_view(name) == Ok::<Option<Seq<char>>, Seq<char>>(None),
        name matches Err(e) ==> name_view(name) == Err::<Option<Seq<char>>, Seq<char>>(e@),
{
}

} // verus!
