//! The table of background and stopped jobs.
use vstd::prelude::*;

use crate::models::{Command, Job, JobStatus};
use crate::text::{chars_of, extend_chars, string_of};
use crate::utils::{is_builtin, spec_builtin};

verus! {

/// The character of a decimal digit.
pub open spec fn digit_char(d: nat) -> char {
    if d == 0 {
        '0'
    } else if d == 1 {
        '1'
    } else if d == 2 {
        '2'
    } else if d == 3 {
        '3'
    } else if d == 4 {
        '4'
    } else if d == 5 {
        '5'
    } else if d == 6 {
        '6'
    } else if d == 7 {
        '7'
    } else if d == 8 {
        '8'
    } else {
        '9'
    }
}

/// The decimal digits of `n`, without leading zeros.
pub open spec fn decimal(n: nat) -> Seq<char>
    decreases n,
{
    if n < 10 {
        seq![digit_char(n)]
    } else {
        decimal(n / 10).push(digit_char(n % 10))
    }
}

/// The decimal form of an integer, with a `-` when it is negative.
pub open spec fn int_text(n: int) -> Seq<char> {
    if n < 0 {
        seq!['-'] + decimal((-n) as nat)
    } else {
        decimal(n as nat)
    }
}

fn digit_exec(d: u64) -> (c: char)
    requires
        d < 10,
    ensures
        c == digit_char(d as nat),
{
    if d == 0 {
        '0'
    } else if d == 1 {
        '1'
    } else if d == 2 {
        '2'
    } else if d == 3 {
        '3'
    } else if d == 4 {
        '4'
    } else if d == 5 {
        '5'
    } else if d == 6 {
        '6'
    } else if d == 7 {
        '7'
    } else if d == 8 {
        '8'
    } else {
        '9'
    }
}

/// The decimal digits of `n`.
pub fn decimal_chars(n: u64) -> (r: Vec<char>)
    ensures
        r@ == decimal(n as nat),
    decreases n,
{
    if n < 10 {
        let r = vec![digit_exec(n)];
        assert(r@ =~= seq![digit_char(n as nat)]);
        r
    } else {
        let mut r = decimal_chars(n / 10);
        r.push(digit_exec(n % 10));
        r
    }
}

/// The decimal form of an `i32`.
pub fn int_chars(n: i32) -> (r: Vec<char>)
    ensures
        r@ == int_text(n as int),
{
    if n < 0 {
        let m: i64 = -(n as i64);
        let mut r = vec!['-'];
        let digits = decimal_chars(m as u64);
        extend_chars(&mut r, &digits);
        assert(r@ =~= seq!['-'] + decimal((-(n as int)) as nat));
        r
    } else {
        decimal_chars(n as u64)
    }
}

/// `k` spaces.
pub open spec fn spaces(k: int) -> Seq<char> {
    Seq::new(if k > 0 {
        k as nat
    } else {
        0
    }, |i: int| ' ')
}

/// `s` right-aligned in a field of `w` characters.
pub open spec fn pad_left(s: Seq<char>, w: int) -> Seq<char> {
    spaces(w - s.len()) + s
}

/// `s` left-aligned in a field of `w` characters.
pub open spec fn pad_right(s: Seq<char>, w: int) -> Seq<char> {
    s + spaces(w - s.len())
}

fn push_spaces(out: &mut Vec<char>, k: usize)
    ensures
        final(out)@ == old(out)@ + spaces(k as int),
{
    let mut i: usize = 0;
    while i < k
        invariant
            i <= k,
            out@ =~= old(out)@ + spaces(i as int),
        decreases k - i,
    {
        out.push(' ');
        i = i + 1;
    }
}

fn extend_padded_left(out: &mut Vec<char>, s: &Vec<char>, w: usize)
    ensures
        final(out)@ == old(out)@ + pad_left(s@, w as int),
{
    if s.len() < w {
        push_spaces(out, w - s.len());
    } else {
        assert(spaces(w - s@.len()) =~= seq![]);
    }
    extend_chars(out, s);
    assert(out@ =~= old(out)@ + pad_left(s@, w as int));
}

fn extend_padded_right(out: &mut Vec<char>, s: &Vec<char>, w: usize)
    ensures
        final(out)@ == old(out)@ + pad_right(s@, w as int),
{
    extend_chars(out, s);
    if s.len() < w {
        push_spaces(out, w - s.len());
    } else {
        assert(spaces(w - s@.len()) =~= seq![]);
    }
    assert(out@ =~= old(out)@ + pad_right(s@, w as int));
}

/// The name under which a status is listed.
pub open spec fn status_name(s: JobStatus) -> Seq<char> {
    match s {
        JobStatus::Running => "RUNNING"@,
        JobStatus::Suspended => "SUSPENDED"@,
        JobStatus::Done => "DONE"@,
    }
}

/// The listing line of a job: its id in brackets, `+` for the most recent
/// job, its process group, its status and its program, in columns
/// (`[{:>2}]{:<1} {:>6} {:<11}{}`).
pub open spec fn spec_job_line(id: nat, recent: nat, pgid: int, status: JobStatus, program: Seq<char>) -> Seq<char> {
    "["@ + pad_left(decimal(id), 2) + "]"@ + pad_right(
        if id == recent {
            "+"@
        } else {
            ""@
        },
        1,
    ) + " "@ + pad_left(int_text(pgid), 6) + " "@ + pad_right(status_name(status), 11) + program
}

/// The listing line of `job` when the most recent job is `recent`.
pub open spec fn job_line_of(job: Job, recent: usize) -> Seq<char> {
    spec_job_line(job.id as nat, recent as nat, job.pgid as int, job.status, job.command.args@[0]@)
}

/// The listing line of a job (see [`spec_job_line`]).
pub fn print_job(job: &Job, recent: usize) -> (r: String)
    requires
        job.command.args.len() > 0,
    ensures
        r@ == job_line_of(*job, recent),
{
    let mut out = chars_of("[");
    extend_padded_left(&mut out, &decimal_chars(job.id as u64), 2);
    extend_chars(&mut out, &chars_of("]"));
    let mark = if job.id == recent {
        chars_of("+")
    } else {
        chars_of("")
    };
    extend_padded_right(&mut out, &mark, 1);
    extend_chars(&mut out, &chars_of(" "));
    extend_padded_left(&mut out, &int_chars(job.pgid), 6);
    extend_chars(&mut out, &chars_of(" "));
    let status = match job.status {
        JobStatus::Running => chars_of("RUNNING"),
        JobStatus::Suspended => chars_of("SUSPENDED"),
        JobStatus::Done => chars_of("DONE"),
    };
    extend_padded_right(&mut out, &status, 11);
    extend_chars(&mut out, &chars_of(job.command.args[0].as_str()));
    string_of(&out)
}

/// Whether `c` is an ASCII digit.
pub open spec fn is_digit(c: char) -> bool {
    48 <= c as u32 <= 57
}

/// The value of a digit character.
pub open spec fn digit_value(c: char) -> nat {
    (c as u32 - 48) as nat
}

/// The value of a string of decimal digits.
pub open spec fn digits_value(s: Seq<char>) -> nat
    decreases s.len(),
{
    if s.len() == 0 {
        0
    } else {
        digits_value(s.drop_last()) * 10 + digit_value(s.last())
    }
}

/// Whether every character of `t` is a digit.
pub open spec fn all_digits(t: Seq<char>) -> bool {
    forall|k: int| 0 <= k < t.len() ==> is_digit(#[trigger] t[k])
}

/// What `str::parse::<usize>` gives: an optional `+` followed by one or
/// more decimal digits whose value fits in a `usize`.
pub open spec fn spec_parse_usize(s: Seq<char>) -> Option<nat> {
    let t = if s.len() > 0 && s[0] == '+' {
        s.drop_first()
    } else {
        s
    };
    if t.len() > 0 && all_digits(t) && digits_value(t) <= usize::MAX {
        Some(digits_value(t))
    } else {
        None
    }
}

proof fn lemma_digits_grow(t: Seq<char>, k: int)
    requires
        0 <= k <= t.len(),
        all_digits(t),
    ensures
        digits_value(t.take(k)) <= digits_value(t),
    decreases t.len() - k,
{
    if k < t.len() {
        lemma_digits_grow(t, k + 1);
        assert(t.take(k + 1).drop_last() =~= t.take(k));
    } else {
        assert(t.take(k) =~= t);
    }
}

/// Reads a `usize` written in decimal (see [`spec_parse_usize`]).
pub fn parse_usize(s: &str) -> (r: Option<usize>)
    ensures
        match r {
            Some(v) => spec_parse_usize(s@) == Some(v as nat),
            None => spec_parse_usize(s@) is None,
        },
{
    let cs = chars_of(s);
    let start: usize = if cs.len() > 0 && cs[0] == '+' {
        1
    } else {
        0
    };
    let ghost t = if cs@.len() > 0 && cs@[0] == '+' {
        cs@.drop_first()
    } else {
        cs@
    };
    assert(t =~= cs@.skip(start as int));
    if start >= cs.len() {
        return None;
    }
    let mut v: usize = 0;
    let mut k: usize = start;
    while k < cs.len()
        invariant
            cs@ == s@,
            start <= k <= cs@.len(),
            t == cs@.skip(start as int),
            t == (if cs@.len() > 0 && cs@[0] == '+' {
                cs@.drop_first()
            } else {
                cs@
            }),
            forall|i: int| 0 <= i < k - start ==> is_digit(t[i]),
            v as nat == digits_value(t.take(k - start)),
        decreases cs.len() - k,
    {
        let c = cs[k];
        let u = c as u32;
        if u < 48 || u > 57 {
            assert(t[k - start] == c);
            assert(!is_digit(t[k - start]));
            assert(!all_digits(t));
            return None;
        }
        let d = (u - 48) as usize;
        proof {
            assert(t.take(k + 1 - start).drop_last() =~= t.take(k - start));
            assert(t.take(k + 1 - start).last() == c);
        }
        match v.checked_mul(10) {
            Some(v10) => match v10.checked_add(d) {
                Some(nv) => {
                    v = nv;
                },
                None => {
                    proof {
                        if all_digits(t) {
                            lemma_digits_grow(t, k + 1 - start);
                        }
                    }
                    return None;
                },
            },
            None => {
                proof {
                    if all_digits(t) {
                        lemma_digits_grow(t, k + 1 - start);
                    }
                }
                return None;
            },
        }
        k = k + 1;
    }
    assert(t.take(cs@.len() - start) =~= t);
    Some(v)
}

/// The jobs the shell keeps: those stopped or still running in the
/// background, and the id of the most recent one.
pub struct JobTable {
    pub recent_id: usize,
    pub jobs: Vec<Job>,
}

/// Every job of the table names its program as its first argument, which
/// the listing shows.
pub open spec fn jobs_wf(jobs: Seq<Job>) -> bool {
    forall|i: int| 0 <= i < jobs.len() ==> (#[trigger] jobs[i]).command.args.len() > 0
}

/// The jobs after polling: those that `exited` marks are done.
pub open spec fn mark_exited(jobs: Seq<Job>, exited: Seq<bool>) -> Seq<Job> {
    Seq::new(jobs.len(), |i: int| if exited[i] {
        Job { status: JobStatus::Done, ..jobs[i] }
    } else {
        jobs[i]
    })
}

/// The jobs that are not done, in order.
pub open spec fn not_done(jobs: Seq<Job>) -> Seq<Job>
    decreases jobs.len(),
{
    if jobs.len() == 0 {
        seq![]
    } else if jobs.last().status == JobStatus::Done {
        not_done(jobs.drop_last())
    } else {
        not_done(jobs.drop_last()).push(jobs.last())
    }
}

/// The listing lines of jobs.
pub open spec fn job_lines(jobs: Seq<Job>, recent: usize) -> Seq<Seq<char>> {
    jobs.map_values(|j: Job| job_line_of(j, recent))
}

/// The first position of a job with id `id`.
pub open spec fn position_of(jobs: Seq<Job>, id: usize) -> Option<int>
    decreases jobs.len(),
{
    if jobs.len() == 0 {
        None
    } else {
        match position_of(jobs.drop_last(), id) {
            Some(p) => Some(p),
            None => if jobs.last().id == id {
                Some(jobs.len() - 1)
            } else {
                None
            },
        }
    }
}

impl JobTable {
    /// An empty table.
    pub fn new() -> (t: Self)
        ensures
            t.recent_id == 0,
            t.jobs@.len() == 0,
    {
        JobTable { recent_id: 0, jobs: Vec::new() }
    }

    /// Whether no job is left.
    pub fn is_empty(&self) -> (b: bool)
        ensures
            b == (self.jobs@.len() == 0),
    {
        self.jobs.len() == 0
    }

    /// Lists the jobs after a poll and forgets those that are done:
    /// `exited[i]` tells whether job `i` has exited. Gives the listing
    /// lines, one per job, in order.
    pub fn refresh(&mut self, exited: &Vec<bool>) -> (lines: Vec<String>)
        requires
            jobs_wf(old(self).jobs@),
            exited.len() == old(self).jobs.len(),
        ensures
            crate::models::strings_view(lines@) == job_lines(
                mark_exited(old(self).jobs@, exited@),
                old(self).recent_id,
            ),
            final(self).jobs@ == not_done(mark_exited(old(self).jobs@, exited@)),
            final(self).recent_id == old(self).recent_id,
            jobs_wf(final(self).jobs@),
    {
        let mut lines: Vec<String> = Vec::new();
        let ghost marked = mark_exited(self.jobs@, exited@);
        if self.jobs.len() == 0 {
            assert(job_lines(marked, self.recent_id) =~= seq![]);
            assert(marked =~= seq![]);
            return lines;
        }
        let recent = self.recent_id;
        let mut old_jobs: Vec<Job> = Vec::new();
        std::mem::swap(&mut old_jobs, &mut self.jobs);
        let ghost input = old_jobs@;
        let total = old_jobs.len();
        let mut kept: Vec<Job> = Vec::new();
        let mut idx: usize = 0;
        for job in it: old_jobs
            invariant
                it.seq() == input,
                total == input.len(),
                idx == it.index(),
                jobs_wf(input),
                exited@.len() == input.len(),
                marked == mark_exited(input, exited@),
                crate::models::strings_view(lines@) == job_lines(marked.take(it.index() as int), recent),
                kept@ == not_done(marked.take(it.index() as int)),
                jobs_wf(kept@),
        {
            let ghost i = it.index();
            assert(idx < total);
            let mut job = job;
            if exited[idx] {
                job.status = JobStatus::Done;
            }
            assert(job == marked[i as int]);
            assert(input[i as int].command.args.len() > 0);
            let line = print_job(&job, recent);
            let ghost before = crate::models::strings_view(lines@);
            lines.push(line);
            proof {
                assert(marked.take(i + 1).drop_last() =~= marked.take(i as int));
                assert(marked.take(i + 1).last() == job);
                assert(crate::models::strings_view(lines@) =~= before.push(job_line_of(job, recent)));
                assert(job_lines(marked.take(i + 1), recent) =~= job_lines(marked.take(i as int), recent).push(
                    job_line_of(job, recent),
                ));
            }
            let done = match job.status {
                JobStatus::Done => true,
                _ => false,
            };
            if !done {
                kept.push(job);
            }
            idx = idx + 1;
        }
        assert(marked.take(input.len() as int) =~= marked);
        self.jobs = kept;
        lines
    }

    /// Takes out the job that `fg` resumes: with an argument, the first job
    /// with that id (none if the argument is not a number); without, the
    /// last job.
    pub fn take_for_fg(&mut self, args: &Vec<String>) -> (job: Option<Job>)
        ensures
            final(self).recent_id == old(self).recent_id,
            args.len() > 1 ==> match spec_parse_usize(args@[1]@) {
                Some(id) => match position_of(old(self).jobs@, id as usize) {
                    Some(p) => job == Some(old(self).jobs@[p]) && final(self).jobs@ == old(
                        self,
                    ).jobs@.remove(p),
                    None => job is None && final(self).jobs@ == old(self).jobs@,
                },
                None => job is None && final(self).jobs@ == old(self).jobs@,
            },
            args.len() <= 1 ==> if old(self).jobs@.len() > 0 {
                job == Some(old(self).jobs@.last()) && final(self).jobs@ == old(self).jobs@.drop_last()
            } else {
                job is None && final(self).jobs@ == old(self).jobs@
            },
    {
        if args.len() > 1 {
            match parse_usize(args[1].as_str()) {
                Some(id) => {
                    let mut p: usize = 0;
                    while p < self.jobs.len()
                        invariant
                            p <= self.jobs@.len(),
                            self.jobs@ == old(self).jobs@,
                            self.recent_id == old(self).recent_id,
                            args.len() > 1,
                            spec_parse_usize(args@[1]@) == Some(id as nat),
                            position_of(self.jobs@.take(p as int), id) is None,
                        decreases self.jobs.len() - p,
                    {
                        assert(self.jobs@.take(p + 1).drop_last() =~= self.jobs@.take(p as int));
                        if self.jobs[p].id == id {
                            proof {
                                lemma_position_prefix(self.jobs@, id, p as int);
                            }
                            let job = self.jobs.remove(p);
                            return Some(job);
                        }
                        p = p + 1;
                    }
                    assert(self.jobs@.take(self.jobs@.len() as int) =~= self.jobs@);
                    None
                },
                None => None,
            }
        } else {
            self.jobs.pop()
        }
    }

    /// After `fg`: the most recent job becomes the last one left, if any.
    pub fn update_recent(&mut self)
        ensures
            final(self).jobs == old(self).jobs,
            final(self).recent_id == (if old(self).jobs@.len() > 0 {
                old(self).jobs@.last().id
            } else {
                old(self).recent_id
            }),
    {
        let n = self.jobs.len();
        if n > 0 {
            self.recent_id = self.jobs[n - 1].id;
        }
    }

    /// Records a job that stopped while in the foreground: it is marked
    /// suspended, becomes the most recent job and is added to the table.
    /// Gives its listing line.
    pub fn record_stopped(&mut self, job: Job) -> (line: String)
        requires
            job.command.args.len() > 0,
        ensures
            final(self).recent_id == job.id,
            final(self).jobs@ == old(self).jobs@.push(Job { status: JobStatus::Suspended, ..job }),
            line@ == job_line_of(Job { status: JobStatus::Suspended, ..job }, job.id),
    {
        let mut job = job;
        job.status = JobStatus::Suspended;
        self.recent_id = job.id;
        let line = print_job(&job, self.recent_id);
        self.jobs.push(job);
        line
    }

    /// Records a job started in the background: it becomes the most recent
    /// job and is added to the table as it is. Gives its listing line.
    pub fn add_background(&mut self, job: Job) -> (line: String)
        requires
            job.command.args.len() > 0,
        ensures
            final(self).recent_id == job.id,
            final(self).jobs@ == old(self).jobs@.push(job),
            line@ == job_line_of(job, job.id),
    {
        self.recent_id = job.id;
        let line = print_job(&job, self.recent_id);
        self.jobs.push(job);
        line
    }

    /// The job for a pipeline whose last command is `command`: none for a
    /// builtin; otherwise a running job numbered after the jobs in the
    /// table, in process group `pgid` with the given children.
    pub fn new_job(&self, command: Command, pgid: Option<i32>, children: Vec<i32>) -> (job: Option<Job>)
        requires
            spec_builtin(command.program@) is None ==> pgid is Some,
            self.jobs.len() < usize::MAX,
        ensures
            spec_builtin(command.program@) is Some ==> job is None,
            spec_builtin(command.program@) is None ==> job == Some(
                Job {
                    id: (self.jobs.len() + 1) as usize,
                    pgid: pgid->0,
                    status: JobStatus::Running,
                    command,
                    childrens: children,
                },
            ),
    {
        if is_builtin(command.program.as_str()).is_some() {
            return None;
        }
        Some(
            Job {
                id: self.jobs.len() + 1,
                pgid: pgid.unwrap(),
                status: JobStatus::Running,
                command,
                childrens: children,
            },
        )
    }
}

/// Facts about the jobs that are not done: none of them is done, each is a
/// job of the input, there are no more of them, and every job of the input
/// that is not done is among them.
proof fn lemma_not_done(s: Seq<Job>)
    ensures
        not_done(s).len() <= s.len(),
        forall|k: int| 0 <= k < not_done(s).len() ==> (#[trigger] not_done(s)[k]).status != JobStatus::Done,
        forall|k: int| 0 <= k < not_done(s).len() ==> s.contains(#[trigger] not_done(s)[k]),
        forall|i: int| 0 <= i < s.len() && (#[trigger] s[i]).status != JobStatus::Done ==> not_done(s).contains(s[i]),
    decreases s.len(),
{
    if s.len() > 0 {
        let t = s.drop_last();
        lemma_not_done(t);
        let r = not_done(s);
        let rt = not_done(t);
        assert forall|k: int| 0 <= k < r.len() implies s.contains(#[trigger] r[k]) by {
            if k < rt.len() {
                assert(rt[k] == r[k]);
                let j = choose|j: int| 0 <= j < t.len() && t[j] == rt[k];
                assert(s[j] == r[k]);
            } else {
                assert(r[k] == s.last());
                assert(s[s.len() - 1] == r[k]);
            }
        }
        assert forall|i: int| 0 <= i < s.len() && (#[trigger] s[i]).status != JobStatus::Done implies r.contains(s[i]) by {
            if i < s.len() - 1 {
                assert(t[i] == s[i]);
                let k = choose|k: int| 0 <= k < rt.len() && rt[k] == t[i];
                assert(r[k] == s[i]);
            } else {
                assert(r[r.len() - 1] == s[i]);
            }
        }
    }
}

/// A table in which no job is done is kept whole.
proof fn lemma_not_done_whole(s: Seq<Job>)
    requires
        forall|i: int| 0 <= i < s.len() ==> (#[trigger] s[i]).status != JobStatus::Done,
    ensures
        not_done(s) == s,
    decreases s.len(),
{
    if s.len() > 0 {
        lemma_not_done_whole(s.drop_last());
        assert(s.drop_last().push(s.last()) =~= s);
    }
}

/// No job carries an id that none of the jobs has.
proof fn lemma_position_absent(jobs: Seq<Job>, id: usize)
    requires
        forall|i: int| 0 <= i < jobs.len() ==> (#[trigger] jobs[i]).id != id,
    ensures
        position_of(jobs, id) is None,
    decreases jobs.len(),
{
    if jobs.len() > 0 {
        lemma_position_absent(jobs.drop_last(), id);
    }
}

/// Polling keeps exactly the unfinished jobs: no job left in the table is
/// done, each was in the table before (marked done or not), the table does
/// not grow, and a job that had not exited and was not done stays.
pub proof fn law_refresh_keeps_unfinished(jobs: Seq<Job>, exited: Seq<bool>)
    requires
        exited.len() == jobs.len(),
    ensures
        ({
            let left = not_done(mark_exited(jobs, exited));
            &&& left.len() <= jobs.len()
            &&& forall|k: int| 0 <= k < left.len() ==> (#[trigger] left[k]).status != JobStatus::Done
            &&& forall|i: int|
                0 <= i < jobs.len() && !exited[i] && (#[trigger] jobs[i]).status != JobStatus::Done
                    ==> left.contains(jobs[i])
        }),
{
    let marked = mark_exited(jobs, exited);
    lemma_not_done(marked);
    assert forall|i: int|
        0 <= i < jobs.len() && !exited[i] && (#[trigger] jobs[i]).status != JobStatus::Done
        implies not_done(marked).contains(jobs[i]) by {
        assert(marked[i] == jobs[i]);
    }
}

/// Polling again when no further job has exited leaves the table as the
/// first poll left it.
pub proof fn law_refresh_settles(jobs: Seq<Job>, exited: Seq<bool>)
    requires
        exited.len() == jobs.len(),
    ensures
        ({
            let left = not_done(mark_exited(jobs, exited));
            not_done(mark_exited(left, Seq::new(left.len(), |i: int| false))) == left
        }),
{
    let left = not_done(mark_exited(jobs, exited));
    lemma_not_done(mark_exited(jobs, exited));
    assert(mark_exited(left, Seq::new(left.len(), |i: int| false)) =~= left);
    lemma_not_done_whole(left);
}

/// `fg` with the id of the job just put in the background, where no other
/// job has that id, takes back that job and leaves the table as it was
/// before; so does `fg` without an argument.
pub proof fn law_fg_takes_back_background_job(jobs: Seq<Job>, job: Job)
    requires
        forall|i: int| 0 <= i < jobs.len() ==> (#[trigger] jobs[i]).id != job.id,
    ensures
        position_of(jobs.push(job), job.id) == Some(jobs.len() as int),
        jobs.push(job)[jobs.len() as int] == job,
        jobs.push(job).remove(jobs.len() as int) == jobs,
        jobs.push(job).last() == job,
        jobs.push(job).drop_last() == jobs,
{
    lemma_position_absent(jobs, job.id);
    assert(jobs.push(job).drop_last() =~= jobs);
    assert(jobs.push(job).remove(jobs.len() as int) =~= jobs);
}

proof fn lemma_position_prefix(jobs: Seq<Job>, id: usize, p: int)
    requires
        0 <= p < jobs.len(),
        position_of(jobs.take(p), id) is None,
        jobs[p].id == id,
    ensures
        position_of(jobs, id) == Some(p),
    decreases jobs.len(),
{
    if p == jobs.len() - 1 {
        assert(jobs.drop_last() =~= jobs.take(p));
    } else {
        assert(jobs.drop_last().take(p) =~= jobs.take(p));
        lemma_position_prefix(jobs.drop_last(), id, p);
    }
}

} // verus!
