//! The table of background jobs and the report that `jobs` prints.

use vstd::prelude::*;

use crate::number::{decimal, decimal_string};
use crate::text::{pad_end, pad_to_width, replace, replace_all};

verus! {

/// Where a background job stands.
#[derive(Clone, Copy, Debug, PartialEq, Eq, Structural)]
pub enum JobStatus {
    Running,
    Done,
    Error,
}

/// A background job: the line that started it and its number.
pub struct Job {
    command: String,
    index: usize,
}

/// The model of a [`Job`].
pub struct JobView {
    pub command: Seq<char>,
    pub index: usize,
}

impl View for Job {
    type V = JobView;

    closed spec fn view(&self) -> JobView {
        JobView { command: self.command@, index: self.index }
    }
}

/// The background jobs, oldest first, and the number of jobs ever started.
pub struct Jobs {
    jobs: Vec<Job>,
    counter: usize,
}

/// The jobs whose status is running, in their order.
pub open spec fn running_only(jobs: Seq<JobView>, statuses: Seq<JobStatus>) -> Seq<JobView>
    decreases jobs.len(),
{
    if jobs.len() == 0 {
        Seq::empty()
    } else {
        let rest = running_only(jobs.drop_last(), statuses);
        if statuses[jobs.len() - 1] == JobStatus::Running {
            rest.push(jobs.last())
        } else {
            rest
        }
    }
}

/// The word for a status.
pub open spec fn status_word(s: JobStatus) -> Seq<char> {
    match s {
        JobStatus::Done => "Done"@,
        JobStatus::Error => "Error"@,
        JobStatus::Running => "Running"@,
    }
}

/// The mark of the job at position `i` of `len`: `+` for the newest, `-` for
/// the one before, a space for the others.
pub open spec fn position_mark(i: int, len: int) -> Seq<char> {
    if i + 1 == len {
        "+"@
    } else if i + 2 == len {
        "-"@
    } else {
        " "@
    }
}

/// The line of the report for `job` at position `i` of `len`: its number in
/// brackets, its mark, two spaces, its status padded to 24 characters, its
/// line without ` &`, and ` &` again if it is still running.
pub open spec fn report_line(job: JobView, i: int, len: int, s: JobStatus) -> Seq<char> {
    "["@ + decimal(job.index as nat) + "]"@ + position_mark(i, len) + "  "@ + pad_end(
        status_word(s),
        24,
    ) + replace_all(job.command, " &"@, Seq::empty()) + if s == JobStatus::Running {
        " &"@
    } else {
        Seq::empty()
    }
}

/// The report lines of the first `k` jobs: every job, or only the finished
/// ones when `only_recycle` holds.
pub open spec fn report_lines(
    jobs: Seq<JobView>,
    statuses: Seq<JobStatus>,
    only_recycle: bool,
    k: int,
) -> Seq<Seq<char>>
    decreases k,
{
    if k <= 0 {
        Seq::empty()
    } else {
        let rest = report_lines(jobs, statuses, only_recycle, k - 1);
        if only_recycle && statuses[k - 1] != JobStatus::Done {
            rest
        } else {
            rest.push(report_line(jobs[k - 1], k - 1, jobs.len() as int, statuses[k - 1]))
        }
    }
}

impl Jobs {
    /// The jobs, oldest first.
    pub closed spec fn jobs(&self) -> Seq<JobView> {
        self.jobs@.map_values(|j: Job| j@)
    }

    /// The number of jobs ever started.
    pub closed spec fn count(&self) -> usize {
        self.counter
    }

    /// Job numbers are at least 1, at most the count, and grow from the
    /// oldest job to the newest.
    pub open spec fn wf(&self) -> bool {
        &&& forall|i: int|
            0 <= i < self.jobs().len() ==> 1 <= #[trigger] self.jobs()[i].index <= self.count()
        &&& forall|i: int, j: int|
            0 <= i < j < self.jobs().len() ==> #[trigger] self.jobs()[i].index
                < #[trigger] self.jobs()[j].index
    }

    /// No jobs, none started.
    pub fn new() -> (r: Self)
        ensures
            r.wf(),
            r.jobs() == Seq::<JobView>::empty(),
            r.count() == 0,
    {
        let r = Jobs { jobs: Vec::new(), counter: 0 };
        assert(r.jobs() == Seq::<JobView>::empty());
        r
    }

    /// The number of jobs ever started.
    pub fn counter(&self) -> (r: usize)
        ensures
            r == self.count(),
    {
        self.counter
    }

    /// Records a job started by `command`; it gets the next number.
    pub fn push(&mut self, command: String) -> (index: usize)
        requires
            old(self).wf(),
            old(self).count() < usize::MAX,
        ensures
            final(self).wf(),
            index == old(self).count() + 1,
            final(self).count() == index,
            final(self).jobs() == old(self).jobs().push(JobView { command: command@, index: index }),
    {
        let ghost before = self.jobs();
        self.counter = self.counter + 1;
        let index = self.counter;
        self.jobs.push(Job { command, index });
        assert(self.jobs() == before.push(JobView { command: command@, index: index }));
        assert forall|i: int, j: int|
            0 <= i < j < self.jobs().len() implies #[trigger] self.jobs()[i].index
                < #[trigger] self.jobs()[j].index by {
            if j == before.len() {
                assert(self.jobs()[i] == before[i]);
                assert(1 <= before[i].index <= old(self).count());
            } else {
                assert(self.jobs()[i] == before[i] && self.jobs()[j] == before[j]);
            }
        }
        assert forall|i: int|
            0 <= i < self.jobs().len() implies 1 <= #[trigger] self.jobs()[i].index
                <= self.count() by {
            if i < before.len() {
                assert(self.jobs()[i] == before[i]);
            }
        }
        index
    }

    /// The number of jobs.
    pub fn len(&self) -> (r: usize)
        ensures
            r == self.jobs().len(),
    {
        self.jobs.len()
    }

    /// Drops the jobs that are no longer running; `statuses` holds each job's
    /// status, in order.
    pub fn clean_up(&mut self, statuses: &Vec<JobStatus>)
        requires
            old(self).wf(),
            statuses.len() == old(self).jobs().len(),
        ensures
            final(self).wf(),
            final(self).count() == old(self).count(),
            final(self).jobs() == running_only(old(self).jobs(), statuses@),
    {
        let ghost all = self.jobs();
        let mut old_jobs: Vec<Job> = Vec::new();
        std::mem::swap(&mut old_jobs, &mut self.jobs);
        let mut kept: Vec<Job> = Vec::new();
        let mut i: usize = 0;
        assert(all.take(0) == Seq::<JobView>::empty());
        assert(kept@.map_values(|j: Job| j@) == Seq::<JobView>::empty());
        for job in it: old_jobs
            invariant
                it.seq() == old_jobs@,
                i == it.index(),
                all == old_jobs@.map_values(|j: Job| j@),
                statuses.len() == all.len(),
                kept@.map_values(|j: Job| j@) == running_only(all.take(i as int), statuses@),
        {
            assert(all.take(i + 1).drop_last() == all.take(i as int));
            assert(job@ == all[i as int]);
            if statuses[i] == JobStatus::Running {
                let ghost before = kept@.map_values(|j: Job| j@);
                kept.push(job);
                assert(kept@.map_values(|j: Job| j@) == before.push(all[i as int]));
            }
            i = i + 1;
        }
        assert(all.take(all.len() as int) == all);
        self.jobs = kept;
        proof {
            lemma_running_only_sub(all, statuses@);
        }
    }

    /// The lines that the job report prints, as [`report_lines`] says;
    /// `statuses` holds each job's status, in order.
    pub fn status_report(&self, only_recycle: bool, statuses: &Vec<JobStatus>) -> (r: Vec<String>)
        requires
            statuses.len() == self.jobs().len(),
        ensures
            r.deep_view() == report_lines(self.jobs(), statuses@, only_recycle, self.jobs().len() as int),
    {
        let ghost all = self.jobs();
        let jobs_len = self.jobs.len();
        let mut lines: Vec<String> = Vec::new();
        let mut i: usize = 0;
        assert(lines.deep_view() == Seq::<Seq<char>>::empty());
        while i < jobs_len
            invariant
                i <= jobs_len,
                jobs_len == all.len(),
                all == self.jobs(),
                statuses.len() == jobs_len,
                lines.deep_view() == report_lines(all, statuses@, only_recycle, i as int),
            decreases jobs_len - i,
        {
            let status = statuses[i];
            if only_recycle && status != JobStatus::Done {
                i = i + 1;
                continue;
            }
            let job = &self.jobs[i];
            assert(job@ == all[i as int]);
            let mut line = "[".to_owned();
            assert(line@ == "["@);
            line.append(decimal_string(job.index).as_str());
            assert(line@ == "["@ + decimal(job.index as nat));
            line.append("]");
            let mark = if i + 1 == jobs_len {
                "+"
            } else if i + 2 == jobs_len {
                "-"
            } else {
                " "
            };
            line.append(mark);
            assert(mark@ == position_mark(i as int, jobs_len as int));
            line.append("  ");
            let word = match status {
                JobStatus::Done => "Done",
                JobStatus::Error => "Error",
                JobStatus::Running => "Running",
            };
            assert(word@ == status_word(status));
            assert(line@ == "["@ + decimal(job.index as nat) + "]"@ + position_mark(i as int, jobs_len as int) + "  "@);
            line.append(pad_to_width(word, 24).as_str());
            assert(line@ == "["@ + decimal(job.index as nat) + "]"@ + position_mark(i as int, jobs_len as int) + "  "@ + pad_end(
                status_word(status),
                24,
            ));
            proof {
                reveal_strlit(" &");
                reveal_strlit("");
                assert(""@ == Seq::<char>::empty());
                assert(job.command@ == all[i as int].command);
            }
            line.append(replace(job.command.as_str(), " &", "").as_str());
            assert(line@ == "["@ + decimal(job.index as nat) + "]"@ + position_mark(i as int, jobs_len as int) + "  "@ + pad_end(
                status_word(status),
                24,
            ) + replace_all(all[i as int].command, " &"@, Seq::empty()));
            let job_mark = match status {
                JobStatus::Done | JobStatus::Error => "",
                JobStatus::Running => " &",
            };
            assert(job_mark@ == (if status == JobStatus::Running {
                " &"@
            } else {
                Seq::<char>::empty()
            }));
            line.append(job_mark);
            assert(line@ == report_line(all[i as int], i as int, jobs_len as int, status));
            let ghost before = lines.deep_view();
            lines.push(line);
            assert(lines.deep_view() == before.push(
                report_line(all[i as int], i as int, jobs_len as int, status),
            ));
            i = i + 1;
        }
        lines
    }
}

/// Cleaning up keeps exactly the running jobs: each job kept has the status
/// running, and each job with the status running is kept.
pub proof fn law_clean_up_keeps_running(jobs: Seq<JobView>, statuses: Seq<JobStatus>)
    requires
        statuses.len() == jobs.len(),
    ensures
        forall|a: int|
            0 <= a < running_only(jobs, statuses).len() ==> exists|x: int|
                0 <= x < jobs.len() && statuses[x] == JobStatus::Running
                    && #[trigger] running_only(jobs, statuses)[a] == jobs[x],
        forall|x: int|
            0 <= x < jobs.len() && statuses[x] == JobStatus::Running ==> exists|a: int|
                0 <= a < running_only(jobs, statuses).len() && running_only(jobs, statuses)[a]
                    == #[trigger] jobs[x],
    decreases jobs.len(),
{
    if jobs.len() > 0 {
        let t = jobs.drop_last();
        let st = statuses.drop_last();
        law_clean_up_keeps_running(t, st);
        lemma_running_only_prefix(t, statuses);
        let r = running_only(jobs, statuses);
        let rt = running_only(t, statuses);
        assert(rt == running_only(t, st));
        assert forall|a: int| 0 <= a < r.len() implies exists|x: int|
            0 <= x < jobs.len() && statuses[x] == JobStatus::Running && #[trigger] r[a] == jobs[x] by {
            if a < rt.len() {
                let line_a = rt[a];
                let x = choose|x: int|
                    0 <= x < t.len() && st[x] == JobStatus::Running && #[trigger] rt[a] == t[x];
                assert(r[a] == jobs[x] && statuses[x] == st[x]);
            } else {
                assert(r[a] == jobs[jobs.len() - 1]);
            }
        }
        assert forall|x: int| 0 <= x < jobs.len() && statuses[x] == JobStatus::Running implies exists|a: int|
            0 <= a < r.len() && r[a] == #[trigger] jobs[x] by {
            if x < t.len() {
                assert(st[x] == statuses[x] && t[x] == jobs[x]);
                let a = choose|a: int| 0 <= a < rt.len() && rt[a] == #[trigger] t[x];
                assert(r[a] == rt[a]);
            } else {
                assert(r[rt.len() as int] == jobs[x]);
            }
        }
    }
}

/// The full report has one line for each job, in order, each with the job's
/// own status; the recycling report has the line of each finished job.
pub proof fn law_job_report(jobs: Seq<JobView>, statuses: Seq<JobStatus>, k: int)
    requires
        statuses.len() == jobs.len(),
        0 <= k <= jobs.len(),
    ensures
        report_lines(jobs, statuses, false, k).len() == k,
        forall|i: int|
            0 <= i < k ==> #[trigger] report_lines(jobs, statuses, false, k)[i] == report_line(
                jobs[i],
                i,
                jobs.len() as int,
                statuses[i],
            ),
        forall|x: int|
            0 <= x < k && statuses[x] == JobStatus::Done ==> report_lines(jobs, statuses, true, k).contains(
                #[trigger] report_line(jobs[x], x, jobs.len() as int, JobStatus::Done),
            ),
    decreases k,
{
    if k > 0 {
        law_job_report(jobs, statuses, k - 1);
        let n = jobs.len() as int;
        let f = report_lines(jobs, statuses, false, k);
        let ft = report_lines(jobs, statuses, false, k - 1);
        assert forall|i: int| 0 <= i < k implies #[trigger] f[i] == report_line(jobs[i], i, n, statuses[i]) by {
            if i < k - 1 {
                assert(f[i] == ft[i]);
            }
        }
        let r = report_lines(jobs, statuses, true, k);
        let rt = report_lines(jobs, statuses, true, k - 1);
        let last = report_line(jobs[k - 1], k - 1, n, statuses[k - 1]);
        if statuses[k - 1] == JobStatus::Done {
            assert(r == rt.push(last));
        } else {
            assert(r == rt);
        }
        assert forall|x: int| 0 <= x < k && statuses[x] == JobStatus::Done implies r.contains(
            #[trigger] report_line(jobs[x], x, n, JobStatus::Done),
        ) by {
            let line_x = report_line(jobs[x], x, n, JobStatus::Done);
            if x < k - 1 {
                assert(rt.contains(line_x));
                let a = choose|a: int| 0 <= a < rt.len() && rt[a] == line_x;
                assert(r[a] == rt[a]);
            } else {
                assert(r[rt.len() as int] == line_x);
            }
        }
    }
}

/// Each line of the recycling report is the line of a finished job.
pub proof fn law_recycle_report_only_finished(jobs: Seq<JobView>, statuses: Seq<JobStatus>, k: int, a: int)
    requires
        statuses.len() == jobs.len(),
        0 <= k <= jobs.len(),
        0 <= a < report_lines(jobs, statuses, true, k).len(),
    ensures
        exists|x: int|
            0 <= x < k && statuses[x] == JobStatus::Done && report_lines(jobs, statuses, true, k)[a]
                == #[trigger] report_line(jobs[x], x, jobs.len() as int, JobStatus::Done),
    decreases k,
{
    let n = jobs.len() as int;
    let r = report_lines(jobs, statuses, true, k);
    let rt = report_lines(jobs, statuses, true, k - 1);
    if a < rt.len() && k > 0 {
        assert(r[a] == rt[a]);
        law_recycle_report_only_finished(jobs, statuses, k - 1, a);
        let x = choose|x: int|
            0 <= x < k - 1 && statuses[x] == JobStatus::Done && rt[a] == #[trigger] report_line(
                jobs[x],
                x,
                n,
                JobStatus::Done,
            );
        assert(report_line(jobs[x], x, n, JobStatus::Done) == r[a]);
    } else {
        assert(k > 0);
        assert(statuses[k - 1] == JobStatus::Done);
        assert(r[a] == report_line(jobs[k - 1], k - 1, n, JobStatus::Done));
    }
}

/// [`running_only`] of the first jobs reads only their statuses.
proof fn lemma_running_only_prefix(jobs: Seq<JobView>, statuses: Seq<JobStatus>)
    requires
        jobs.len() <= statuses.len(),
    ensures
        running_only(jobs, statuses) == running_only(jobs, statuses.take(jobs.len() as int)),
    decreases jobs.len(),
{
    if jobs.len() > 0 {
        let t = jobs.drop_last();
        lemma_running_only_prefix(t, statuses);
        lemma_running_only_prefix(t, statuses.take(jobs.len() as int));
        assert(statuses.take(jobs.len() as int).take(t.len() as int) == statuses.take(t.len() as int));
    }
}

/// What [`running_only`] keeps comes from the jobs, in their order.
pub proof fn lemma_running_only_sub(jobs: Seq<JobView>, statuses: Seq<JobStatus>)
    ensures
        forall|a: int|
            0 <= a < running_only(jobs, statuses).len() ==> exists|x: int|
                0 <= x < jobs.len() && #[trigger] running_only(jobs, statuses)[a] == jobs[x],
        forall|a: int, b: int|
            0 <= a < b < running_only(jobs, statuses).len() ==> exists|x: int, y: int|
                0 <= x < y < jobs.len() && #[trigger] running_only(jobs, statuses)[a] == jobs[x]
                    && #[trigger] running_only(jobs, statuses)[b] == jobs[y],
    decreases jobs.len(),
{
    if jobs.len() > 0 {
        let t = jobs.drop_last();
        lemma_running_only_sub(t, statuses);
        let r = running_only(jobs, statuses);
        let rt = running_only(t, statuses);
        assert forall|a: int| 0 <= a < r.len() implies exists|x: int|
            0 <= x < jobs.len() && #[trigger] r[a] == jobs[x] by {
            if a < rt.len() {
                let line_a = rt[a];
                let x = choose|x: int| 0 <= x < t.len() && #[trigger] rt[a] == t[x];
                assert(r[a] == jobs[x]);
            } else {
                assert(r[a] == jobs[jobs.len() - 1]);
            }
        }
        assert forall|a: int, b: int| 0 <= a < b < r.len() implies exists|x: int, y: int|
            0 <= x < y < jobs.len() && #[trigger] r[a] == jobs[x] && #[trigger] r[b] == jobs[y] by {
            if b < rt.len() {
                let (x, y) = choose|x: int, y: int|
                    0 <= x < y < t.len() && #[trigger] rt[a] == t[x] && #[trigger] rt[b] == t[y];
                assert(r[a] == jobs[x] && r[b] == jobs[y]);
            } else {
                let x = choose|x: int| 0 <= x < t.len() && #[trigger] rt[a] == t[x];
                assert(r[a] == jobs[x]);
                assert(r[b] == jobs[jobs.len() - 1]);
            }
        }
    }
}

} // verus!

verus! {

/// What the shell prints when a job starts: the number of jobs in brackets,
/// then the process id.
pub fn job_started_message(count: usize, pid: u32) -> (r: String)
    ensures
        r@ == "["@ + decimal(count as nat) + "] "@ + decimal(pid as nat),
{
    let mut r = "[".to_owned();
    r.append(decimal_string(count).as_str());
    r.append("] ");
    r.append(decimal_string(pid as usize).as_str());
    r
}

} // verus!
