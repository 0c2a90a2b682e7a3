//! Fuzz jobs, how they are written down, and what the scheduler refuses.

use vstd::prelude::*;
use vstd::string::*;
use vstd::utf8::{encode_utf8, is_ascii_chars_encode_utf8};

use crate::json::{json_escapes, json_string, quoted};
use crate::text::{
    after_prefix, all_digits, bytes_of, cat3, chars_of, decimal, decimal_of, decimal_text,
    decimal_value, digit, digits_only, lemma_decimal_parses, strip_prefix,
};

verus! {

/// Where a job stands.
#[derive(Debug, Clone, Copy, PartialEq, Eq, Structural)]
pub enum JobState {
    Queued,
    Running,
    Complete,
    Failed,
}

impl JobState {
    /// The word for the state.
    pub open spec fn word(self) -> Seq<char> {
        match self {
            JobState::Queued => "queued"@,
            JobState::Running => "running"@,
            JobState::Complete => "complete"@,
            JobState::Failed => "failed"@,
        }
    }

    pub fn as_word(self) -> (r: &'static str)
        ensures
            r@ == self.word(),
    {
        match self {
            JobState::Queued => "queued",
            JobState::Running => "running",
            JobState::Complete => "complete",
            JobState::Failed => "failed",
        }
    }
}

/// A fuzz job.
#[derive(Debug, PartialEq, Eq)]
pub struct FuzzJob {
    pub job_id: String,
    pub project_dir: String,
    pub harness_id: String,
    /// The fuzz time asked for, zero for no bound.
    pub time_budget_secs: u64,
    pub state: JobState,
}

/// A fuzz job as texts and numbers.
pub struct JobView {
    pub job_id: Seq<char>,
    pub project_dir: Seq<char>,
    pub harness_id: Seq<char>,
    pub time_budget_secs: u64,
    pub state: JobState,
}

impl View for FuzzJob {
    type V = JobView;

    open spec fn view(&self) -> JobView {
        JobView {
            job_id: self.job_id@,
            project_dir: self.project_dir@,
            harness_id: self.harness_id@,
            time_budget_secs: self.time_budget_secs,
            state: self.state,
        }
    }
}

impl Clone for FuzzJob {
    fn clone(&self) -> (r: FuzzJob)
        ensures
            r@ == self@,
    {
        FuzzJob {
            job_id: self.job_id.clone(),
            project_dir: self.project_dir.clone(),
            harness_id: self.harness_id.clone(),
            time_budget_secs: self.time_budget_secs,
            state: self.state,
        }
    }
}

/// The jobs of a list, as texts and numbers.
pub open spec fn job_views(jobs: Seq<FuzzJob>) -> Seq<JobView> {
    Seq::new(jobs.len(), |i: int| jobs[i]@)
}

/// A job as one line of JSON, without the line feed.
pub open spec fn job_line(job: JobView) -> Seq<char> {
    "{\"job_id\":"@ + json_string(job.job_id) + ",\"project_dir\":"@ + json_string(job.project_dir)
        + ",\"harness_id\":"@ + json_string(job.harness_id) + ",\"time_budget_secs\":"@ + decimal(
        job.time_budget_secs as nat,
    ) + ",\"state\":"@ + json_string(job.state.word()) + "}"@
}

pub fn job_text(job: &FuzzJob) -> (r: String)
    ensures
        r@ == job_line(job@),
{
    let mut out = "{\"job_id\":".to_owned();
    out.append(quoted(job.job_id.as_str()).as_str());
    out.append(",\"project_dir\":");
    out.append(quoted(job.project_dir.as_str()).as_str());
    out.append(",\"harness_id\":");
    out.append(quoted(job.harness_id.as_str()).as_str());
    out.append(",\"time_budget_secs\":");
    out.append(decimal_text(job.time_budget_secs).as_str());
    out.append(",\"state\":");
    out.append(quoted(job.state.as_word()).as_str());
    out.append("}");
    out
}

/// The jobs one to a line, each line ended by a line feed.
pub open spec fn snapshot(jobs: Seq<JobView>) -> Seq<char>
    decreases jobs.len(),
{
    if jobs.len() == 0 {
        Seq::empty()
    } else {
        snapshot(jobs.drop_last()) + job_line(jobs.last()) + "\n"@
    }
}

/// The text of the file that holds `jobs`.
pub fn snapshot_text(jobs: &[FuzzJob]) -> (r: String)
    ensures
        r@ == snapshot(job_views(jobs@)),
{
    let mut out = String::new();
    let mut i: usize = 0;
    proof {
        assert(job_views(jobs@).take(0) =~= Seq::empty());
    }
    while i < jobs.len()
        invariant
            i <= jobs@.len(),
            out@ == snapshot(job_views(jobs@).take(i as int)),
        decreases jobs@.len() - i,
    {
        proof {
            let all = job_views(jobs@);
            assert(all.take(i + 1).drop_last() =~= all.take(i as int));
            assert(all.take(i + 1).last() == jobs@[i as int]@);
        }
        out.append(job_text(&jobs[i]).as_str());
        out.append("\n");
        i = i + 1;
    }
    proof {
        assert(job_views(jobs@).take(i as int) =~= job_views(jobs@));
    }
    out
}

/// `job` in the state `state`.
pub open spec fn in_state(job: JobView, state: JobState) -> JobView {
    JobView { state, ..job }
}

/// The bytes that a job's line and its line feed take when the state is the one whose
/// word is longest.
pub open spec fn reserve(job: JobView) -> nat {
    encode_utf8(job_line(in_state(job, JobState::Complete))).len() + 1
}

/// The bytes reserved for a job, `None` where they cannot be counted.
pub fn reserved_job_bytes(job: &FuzzJob) -> (r: Option<usize>)
    ensures
        match r {
            Some(n) => n == reserve(job@),
            None => reserve(job@) > usize::MAX,
        },
{
    let mut worst = job.clone();
    worst.state = JobState::Complete;
    let text = job_text(&worst);
    bytes_of(text.as_str()).len().checked_add(1)
}

/// The bytes of an encoding are those of its parts.
pub(crate) proof fn lemma_encode_concat(a: Seq<char>, b: Seq<char>)
    ensures
        encode_utf8(a + b) == encode_utf8(a) + encode_utf8(b),
    decreases a.len(),
{
    if a.len() == 0 {
        assert(a + b =~= b);
        assert(encode_utf8(a) =~= Seq::empty());
        assert(encode_utf8(a) + encode_utf8(b) =~= encode_utf8(b));
    } else {
        assert((a + b).drop_first() =~= a.drop_first() + b);
        assert((a + b).first() == a.first());
        lemma_encode_concat(a.drop_first(), b);
        assert(encode_utf8(a + b) =~= encode_utf8(a) + encode_utf8(b));
    }
}

/// A text of plain characters is its own JSON spelling, one byte to a character.
proof fn lemma_plain_json(s: Seq<char>)
    requires
        forall|i: int| 0 <= i < s.len() ==> 'a' <= #[trigger] s[i] <= 'z',
    ensures
        encode_utf8(json_string(s)).len() == s.len() + 2,
{
    lemma_plain_escapes(s);
    let q = json_string(s);
    assert(q =~= seq!['"'] + s + seq!['"']);
    assert forall|i: int| 0 <= i < q.len() implies ('\0' <= #[trigger] q[i] <= '\u{7f}') by {
        if 0 < i < q.len() - 1 {
            assert(q[i] == s[i - 1]);
        }
    }
    is_ascii_chars_encode_utf8(q);
}

proof fn lemma_plain_escapes(s: Seq<char>)
    requires
        forall|i: int| 0 <= i < s.len() ==> 'a' <= #[trigger] s[i] <= 'z',
    ensures
        json_escapes(s) == s,
    decreases s.len(),
{
    if s.len() > 0 {
        assert forall|i: int| 0 <= i < s.skip(1).len() implies 'a' <= #[trigger] s.skip(1)[i]
            <= 'z' by {
            assert(s.skip(1)[i] == s[i + 1]);
        }
        lemma_plain_escapes(s.skip(1));
        assert(s =~= seq![s[0]] + s.skip(1));
    }
}

/// The line of a job fits the bytes reserved for it in every state.
pub proof fn every_state_fits_the_reserve(job: JobView, state: JobState)
    ensures
        encode_utf8(job_line(in_state(job, state))).len() + 1 <= reserve(job),
{
    reveal_strlit("queued");
    reveal_strlit("running");
    reveal_strlit("complete");
    reveal_strlit("failed");
    lemma_plain_json(state.word());
    lemma_plain_json(JobState::Complete.word());
    let head = "{\"job_id\":"@ + json_string(job.job_id) + ",\"project_dir\":"@ + json_string(
        job.project_dir,
    ) + ",\"harness_id\":"@ + json_string(job.harness_id) + ",\"time_budget_secs\":"@ + decimal(
        job.time_budget_secs as nat,
    ) + ",\"state\":"@;
    lemma_encode_concat(head + json_string(state.word()), "}"@);
    lemma_encode_concat(head, json_string(state.word()));
    lemma_encode_concat(head + json_string(JobState::Complete.word()), "}"@);
    lemma_encode_concat(head, json_string(JobState::Complete.word()));
}

/// The bytes reserved for all of `jobs`.
pub open spec fn total_reserve(jobs: Seq<JobView>) -> nat
    decreases jobs.len(),
{
    if jobs.len() == 0 {
        0
    } else {
        total_reserve(jobs.drop_last()) + reserve(jobs.last())
    }
}

/// The file that holds `jobs` is never larger than what is reserved for them.
pub proof fn snapshots_fit_the_reserve(jobs: Seq<JobView>)
    ensures
        encode_utf8(snapshot(jobs)).len() <= total_reserve(jobs),
    decreases jobs.len(),
{
    if jobs.len() > 0 {
        snapshots_fit_the_reserve(jobs.drop_last());
        let head = snapshot(jobs.drop_last());
        let line = job_line(jobs.last());
        lemma_encode_concat(head + line, "\n"@);
        lemma_encode_concat(head, line);
        every_state_fits_the_reserve(jobs.last(), jobs.last().state);
        reveal_strlit("\n");
        is_ascii_chars_encode_utf8("\n"@);
        assert(in_state(jobs.last(), jobs.last().state) == jobs.last());
    } else {
        assert(encode_utf8(snapshot(jobs)) =~= Seq::empty());
    }
}

/// `n` zeros.
pub open spec fn zeros(n: nat) -> Seq<char> {
    Seq::new(n, |i: int| '0')
}

/// `n` in base ten with zeros before it up to six digits.
pub open spec fn six_digits(n: nat) -> Seq<char> {
    if decimal(n).len() < 6 {
        zeros((6 - decimal(n).len()) as nat) + decimal(n)
    } else {
        decimal(n)
    }
}

/// The identifier of the job with number `n`.
pub open spec fn job_id_of(n: nat) -> Seq<char> {
    "J-"@ + six_digits(n)
}

pub fn job_id_text(n: u64) -> (r: String)
    ensures
        r@ == job_id_of(n as nat),
{
    let digits = decimal_text(n);
    let mut pad: usize = chars_of(digits.as_str()).len();
    let mut zeroes = String::new();
    while pad < 6
        invariant
            zeroes@.len() + decimal(n as nat).len() == pad,
            pad <= 6 || zeroes@.len() == 0,
            zeroes@ == zeros(zeroes@.len()),
        decreases 6 - pad,
    {
        zeroes.push('0');
        proof {
            assert(zeroes@ =~= zeros(zeroes@.len()));
        }
        pad = pad + 1;
    }
    proof {
        assert(zeroes@ + digits@ =~= six_digits(n as nat));
        assert("J-"@ + zeroes@ + digits@ =~= job_id_of(n as nat));
    }
    cat3("J-", zeroes.as_str(), digits.as_str())
}

/// The number of the job that `id` names: decimal digits behind `J-`.
pub open spec fn job_number(id: Seq<char>) -> Option<nat> {
    match strip_prefix(id, "J-"@) {
        None => None,
        Some(digits) => if digits.len() > 0 && all_digits(digits) && decimal_value(digits)
            <= u64::MAX {
            Some(decimal_value(digits))
        } else {
            None
        },
    }
}

pub fn number_of_job(id: &str) -> (r: Option<u64>)
    ensures
        match r {
            Some(n) => job_number(id@) == Some(n as nat),
            None => job_number(id@) is None,
        },
{
    let chars = chars_of(id);
    match after_prefix(chars.as_slice(), chars_of("J-").as_slice()) {
        None => None,
        Some(digits) => {
            if digits.len() == 0 || !digits_only(digits) {
                return None;
            }
            proof {
                assert(digit(digits@[0]));
            }
            decimal_of(digits, u64::MAX)
        },
    }
}

proof fn lemma_zeros_do_not_count(n: nat, s: Seq<char>)
    requires
        all_digits(s),
    ensures
        all_digits(zeros(n) + s),
        decimal_value(zeros(n) + s) == decimal_value(s),
    decreases s.len(),
{
    if s.len() == 0 {
        assert(zeros(n) + s =~= zeros(n));
        lemma_zeros_are_zero(n);
    } else {
        assert((zeros(n) + s).drop_last() =~= zeros(n) + s.drop_last());
        lemma_zeros_do_not_count(n, s.drop_last());
    }
}

proof fn lemma_zeros_are_zero(n: nat)
    ensures
        decimal_value(zeros(n)) == 0,
    decreases n,
{
    if n > 0 {
        assert(zeros(n).drop_last() =~= zeros((n - 1) as nat));
        lemma_zeros_are_zero((n - 1) as nat);
    }
}

/// The number of a job is read back from the identifier it was given.
pub proof fn job_ids_name_their_number(n: nat)
    requires
        n <= u64::MAX,
    ensures
        job_number(job_id_of(n)) == Some(n),
{
    let id = job_id_of(n);
    reveal_strlit("J-");
    assert(id.subrange(0, 2) =~= "J-"@);
    assert(id.skip(2) =~= six_digits(n));
    lemma_decimal_parses(n, n);
    if decimal(n).len() < 6 {
        lemma_zeros_do_not_count((6 - decimal(n).len()) as nat, decimal(n));
    }
}

/// Jobs with different numbers have different identifiers.
pub proof fn job_ids_are_distinct(m: nat, n: nat)
    requires
        m <= u64::MAX,
        n <= u64::MAX,
        job_id_of(m) == job_id_of(n),
    ensures
        m == n,
{
    job_ids_name_their_number(m);
    job_ids_name_their_number(n);
}

} // verus!
