//! The background jobs of the shell.

use vstd::prelude::*;
use vstd::string::*;

use crate::number::{decimal, decimal_text, pad_after, padded_after};
use crate::redirect::{
    output_line, write_output, Message, MessageView, Redirect, RedirectView, Stream,
};
use crate::text::{join_words, joined, lemma_push_contains};

verus! {

/// A command that runs, or ran, in the background.
#[derive(Debug)]
pub struct Job {
    pub id: usize,
    pub pid: i32,
    pub command: String,
    pub running: bool,
}

/// What a [`Job`] holds.
#[verifier::ext_equal]
pub struct JobView {
    pub id: usize,
    pub pid: i32,
    pub command: Seq<char>,
    pub running: bool,
}

impl DeepView for Job {
    type V = JobView;

    open spec fn deep_view(&self) -> JobView {
        JobView {
            id: self.id,
            pid: self.pid,
            command: self.command@,
            running: self.running,
        }
    }
}

/// The jobs that the shell knows of, each under a number of its own.
#[derive(Debug)]
pub struct JobTable {
    jobs: Vec<Job>,
}

impl DeepView for JobTable {
    type V = Seq<JobView>;

    /// The jobs in the order of their numbers.
    closed spec fn deep_view(&self) -> Seq<JobView> {
        self.jobs.deep_view()
    }
}

/// Whether jobs are in the order of their numbers, which start at one and do not repeat.
pub open spec fn well_ordered(jobs: Seq<JobView>) -> bool {
    &&& forall|i: int| 0 <= i < jobs.len() ==> 1 <= (#[trigger] jobs[i]).id
    &&& forall|i: int, j: int|
        0 <= i < j < jobs.len() ==> (#[trigger] jobs[i]).id < (#[trigger] jobs[j]).id
}

/// Whether one of the jobs has the number `id`.
pub open spec fn has_id(jobs: Seq<JobView>, id: usize) -> bool {
    exists|i: int| 0 <= i < jobs.len() && (#[trigger] jobs[i]).id == id
}

/// Where the job with the number `id` stands, from position `i` on.
pub open spec fn id_position(jobs: Seq<JobView>, id: usize, i: int) -> Option<int>
    decreases jobs.len() - i,
{
    if i >= jobs.len() {
        None
    } else if jobs[i].id == id {
        Some(i)
    } else {
        id_position(jobs, id, i + 1)
    }
}

/// Where the first job with the process `pid` stands, from position `i` on.
pub open spec fn pid_position(jobs: Seq<JobView>, pid: i32, i: int) -> Option<int>
    decreases jobs.len() - i,
{
    if i >= jobs.len() {
        None
    } else if jobs[i].pid == pid {
        Some(i)
    } else {
        pid_position(jobs, pid, i + 1)
    }
}

proof fn lemma_id_position(jobs: Seq<JobView>, id: usize, i: int)
    requires
        0 <= i,
    ensures
        id_position(jobs, id, i) matches Some(k) ==> i <= k < jobs.len() && jobs[k].id == id,
        id_position(jobs, id, i) is None ==> forall|k: int|
            i <= k < jobs.len() ==> (#[trigger] jobs[k]).id != id,
    decreases jobs.len() - i,
{
    if i < jobs.len() && jobs[i].id != id {
        lemma_id_position(jobs, id, i + 1);
    }
}

proof fn lemma_pid_position(jobs: Seq<JobView>, pid: i32, i: int)
    requires
        0 <= i,
    ensures
        pid_position(jobs, pid, i) matches Some(k) ==> i <= k < jobs.len() && jobs[k].pid == pid,
        pid_position(jobs, pid, i) is None ==> forall|k: int|
            i <= k < jobs.len() ==> (#[trigger] jobs[k]).pid != pid,
    decreases jobs.len() - i,
{
    if i < jobs.len() && jobs[i].pid != pid {
        lemma_pid_position(jobs, pid, i + 1);
    }
}

/// The jobs after the process of the job `id` became known.
pub open spec fn with_pid(jobs: Seq<JobView>, id: usize, pid: i32) -> Seq<JobView> {
    match id_position(jobs, id, 0) {
        Some(k) => jobs.update(k, JobView { pid, ..jobs[k] }),
        None => jobs,
    }
}

/// The jobs without the job `id`.
pub open spec fn without_id(jobs: Seq<JobView>, id: usize) -> Seq<JobView> {
    match id_position(jobs, id, 0) {
        Some(k) => jobs.remove(k),
        None => jobs,
    }
}

/// The jobs after the process `pid` ended: the job that it was does not run any more.
pub open spec fn with_finished(jobs: Seq<JobView>, pid: i32) -> Seq<JobView> {
    match pid_position(jobs, pid, 0) {
        Some(k) => jobs.update(k, JobView { running: false, ..jobs[k] }),
        None => jobs,
    }
}

/// The jobs after processes ended, one after the other.
pub open spec fn with_all_finished(jobs: Seq<JobView>, pids: Seq<i32>) -> Seq<JobView>
    decreases pids.len(),
{
    if pids.len() == 0 {
        jobs
    } else {
        with_finished(with_all_finished(jobs, pids.drop_last()), pids.last())
    }
}

/// The jobs that run.
pub open spec fn running_jobs(jobs: Seq<JobView>) -> Seq<JobView>
    decreases jobs.len(),
{
    if jobs.len() == 0 {
        seq![]
    } else if jobs.last().running {
        running_jobs(jobs.drop_last()).push(jobs.last())
    } else {
        running_jobs(jobs.drop_last())
    }
}

/// A line about a job: its number, a mark, its status set to a width of 24, and its command.
pub open spec fn status_line(id: usize, mark: char, status: Seq<char>, command: Seq<char>) -> Seq<
    char,
> {
    seq!['['] + decimal(id as nat) + seq![']', mark, ' ', ' '] + padded_after(status, 24) + command
}

/// The mark of the job at position `k` of `n`: a plus for the last one, a minus for the one before
/// it.
pub open spec fn position_mark(k: int, n: int) -> char {
    if k + 1 == n {
        '+'
    } else if k + 2 == n {
        '-'
    } else {
        ' '
    }
}

/// The line that is shown of the job at position `k`.
pub open spec fn listing_line(jobs: Seq<JobView>, k: int) -> Seq<char> {
    let mark = position_mark(k, jobs.len() as int);
    if jobs[k].running {
        status_line(jobs[k].id, mark, "Running"@, jobs[k].command) + seq![' ', '&']
    } else {
        status_line(jobs[k].id, mark, "Done"@, jobs[k].command)
    }
}

/// The lines that are shown of the jobs, in the order of their numbers.
pub open spec fn listing(jobs: Seq<JobView>, redirect: RedirectView) -> Seq<MessageView> {
    Seq::new(jobs.len(), |k: int| output_line(listing_line(jobs, k), redirect))
}

/// The mark of a job that ended: a plus, unless a job with a higher number runs.
pub open spec fn reaped_mark(jobs: Seq<JobView>, id: usize) -> char {
    if exists|j: int| 0 <= j < jobs.len() && (#[trigger] jobs[j]).running && jobs[j].id > id {
        '-'
    } else {
        '+'
    }
}

/// The line that announces that the job at position `k` ended.
pub open spec fn reaped_line(jobs: Seq<JobView>, k: int) -> Seq<char> {
    status_line(jobs[k].id, reaped_mark(jobs, jobs[k].id), "Done"@, jobs[k].command)
}

/// The jobs after processes ended and their jobs were announced and dropped, and the lines that
/// announced them.
pub open spec fn reaped(jobs: Seq<JobView>, pids: Seq<i32>) -> (Seq<JobView>, Seq<Seq<char>>)
    decreases pids.len(),
{
    if pids.len() == 0 {
        (jobs, seq![])
    } else {
        let (left, lines) = reaped(jobs, pids.drop_last());
        match pid_position(left, pids.last(), 0) {
            Some(k) => (left.remove(k), lines.push(reaped_line(left, k))),
            None => (left, lines),
        }
    }
}

fn format_status(id: usize, mark: char, status: &str, command: &str) -> (r: String)
    ensures
        r@ == status_line(id, mark, status@, command@),
{
    let mut r = String::new();
    r.push('[');
    let number = decimal_text(id);
    r.append(number.as_str());
    r.push(']');
    r.push(mark);
    r.push(' ');
    r.push(' ');
    let padded = pad_after(status, 24);
    r.append(padded.as_str());
    r.append(command);
    proof {
        assert(Seq::<char>::empty().push('[') == seq!['[']);
        let head = seq!['['] + number@;
        assert(head.push(']').push(mark).push(' ').push(' ') == head + seq![']', mark, ' ', ' ']);
    }
    r
}

impl JobTable {
    /// No jobs.
    pub fn new() -> (r: JobTable)
        ensures
            r.deep_view() == Seq::<JobView>::empty(),
            well_ordered(r.deep_view()),
    {
        let r = JobTable { jobs: Vec::new() };
        assert(r.deep_view() == Seq::<JobView>::empty());
        r
    }

    /// How many jobs there are.
    pub fn len(&self) -> (r: usize)
        ensures
            r == self.deep_view().len(),
    {
        self.jobs.len()
    }

    /// The job at position `k`, in the order of their numbers.
    pub fn get(&self, k: usize) -> (r: Option<&Job>)
        ensures
            k < self.deep_view().len() ==> r is Some && r->0.deep_view() == self.deep_view()[k as int],
            k >= self.deep_view().len() ==> r is None,
    {
        if k < self.jobs.len() {
            Some(&self.jobs[k])
        } else {
            None
        }
    }

    fn position_of_pid(&self, pid: i32) -> (r: Option<usize>)
        ensures
            r is None <==> pid_position(self.deep_view(), pid, 0) is None,
            r is Some ==> pid_position(self.deep_view(), pid, 0) == Some(r->0 as int) && r->0
                < self.deep_view().len(),
    {
        let ghost all = self.deep_view();
        let mut i: usize = 0;
        while i < self.jobs.len()
            invariant
                i <= self.jobs.len(),
                all == self.deep_view(),
                pid_position(all, pid, 0) == pid_position(all, pid, i as int),
            decreases self.jobs.len() - i,
        {
            assert(all[i as int] == self.jobs@[i as int].deep_view());
            if self.jobs[i].pid == pid {
                return Some(i);
            }
            i += 1;
        }
        None
    }

    fn position_of_id(&self, id: usize) -> (r: Option<usize>)
        ensures
            r is None <==> id_position(self.deep_view(), id, 0) is None,
            r is Some ==> id_position(self.deep_view(), id, 0) == Some(r->0 as int) && r->0
                < self.deep_view().len(),
    {
        let ghost all = self.deep_view();
        let mut i: usize = 0;
        while i < self.jobs.len()
            invariant
                i <= self.jobs.len(),
                all == self.deep_view(),
                id_position(all, id, 0) == id_position(all, id, i as int),
            decreases self.jobs.len() - i,
        {
            assert(all[i as int] == self.jobs@[i as int].deep_view());
            if self.jobs[i].id == id {
                return Some(i);
            }
            i += 1;
        }
        None
    }

    /// Notes the process that the job `id` runs in.
    pub fn set_pid(&mut self, id: usize, pid: i32)
        requires
            well_ordered(old(self).deep_view()),
        ensures
            final(self).deep_view() == with_pid(old(self).deep_view(), id, pid),
            well_ordered(final(self).deep_view()),
    {
        let ghost before = self.deep_view();
        if let Some(k) = self.position_of_id(id) {
            let mut job = self.jobs.remove(k);
            job.pid = pid;
            self.jobs.insert(k, job);
            assert(self.deep_view() == before.update(k as int, JobView { pid, ..before[k as int] }));
        }
    }

    /// Forgets the job `id`.
    pub fn remove(&mut self, id: usize)
        requires
            well_ordered(old(self).deep_view()),
        ensures
            final(self).deep_view() == without_id(old(self).deep_view(), id),
            well_ordered(final(self).deep_view()),
    {
        let ghost before = self.deep_view();
        if let Some(k) = self.position_of_id(id) {
            let _ = self.jobs.remove(k);
            assert(self.deep_view() == before.remove(k as int));
        }
    }

    fn finish(&mut self, pid: i32)
        requires
            well_ordered(old(self).deep_view()),
        ensures
            final(self).deep_view() == with_finished(old(self).deep_view(), pid),
            well_ordered(final(self).deep_view()),
    {
        let ghost before = self.deep_view();
        if let Some(k) = self.position_of_pid(pid) {
            let mut job = self.jobs.remove(k);
            job.running = false;
            self.jobs.insert(k, job);
            assert(self.deep_view() == before.update(
                k as int,
                JobView { running: false, ..before[k as int] },
            ));
        }
    }

    fn keep_running(&mut self)
        requires
            well_ordered(old(self).deep_view()),
        ensures
            final(self).deep_view() == running_jobs(old(self).deep_view()),
            well_ordered(final(self).deep_view()),
    {
        let ghost before = self.deep_view();
        let n: usize = self.jobs.len();
        let mut i: usize = n;
        assert(before.skip(n as int) == Seq::<JobView>::empty());
        assert(before.take(n as int) == before);
        assert(running_jobs(before.skip(n as int)) == Seq::<JobView>::empty());
        while i > 0
            invariant
                i <= n,
                n == before.len(),
                self.deep_view() == before.take(i as int) + running_jobs(before.skip(i as int)),
            decreases i,
        {
            i -= 1;
            let ghost now = self.deep_view();
            let ghost rest = running_jobs(before.skip(i + 1));
            proof {
                assert(now == before.take(i + 1) + rest);
                assert(now.len() == i + 1 + rest.len());
                assert(now.len() == self.jobs@.len());
                assert(now[i as int] == before[i as int]);
                assert(self.jobs@[i as int].deep_view() == now[i as int]);
                assert(before.skip(i as int) == seq![before[i as int]] + before.skip(i + 1));
                lemma_running_jobs_first(before[i as int], before.skip(i + 1));
            }
            if !self.jobs[i].running {
                let _ = self.jobs.remove(i);
                assert(self.deep_view() == now.remove(i as int));
                assert(now.remove(i as int) == before.take(i as int) + rest);
            } else {
                assert(now == before.take(i as int) + (seq![before[i as int]] + rest));
            }
        }
        proof {
            assert(before.skip(0) == before);
            assert(before.take(0) + running_jobs(before) == running_jobs(before));
            lemma_running_jobs(before);
        }
    }
}

proof fn lemma_running_jobs_first(first: JobView, rest: Seq<JobView>)
    ensures
        running_jobs(seq![first] + rest) == (if first.running {
            seq![first] + running_jobs(rest)
        } else {
            running_jobs(rest)
        }),
    decreases rest.len(),
{
    let all = seq![first] + rest;
    if rest.len() == 0 {
        assert(all.drop_last() == Seq::<JobView>::empty());
        assert(running_jobs(all.drop_last()) == Seq::<JobView>::empty());
        assert(running_jobs(rest) == Seq::<JobView>::empty());
        assert(all.last() == first);
        assert(Seq::<JobView>::empty().push(first) == seq![first] + Seq::<JobView>::empty());
    } else {
        lemma_running_jobs_first(first, rest.drop_last());
        assert(all.drop_last() == seq![first] + rest.drop_last());
        assert(all.last() == rest.last());
        if first.running && rest.last().running {
            assert((seq![first] + running_jobs(rest.drop_last())).push(rest.last()) == seq![first]
                + running_jobs(rest.drop_last()).push(rest.last()));
        }
    }
}

proof fn lemma_running_jobs(jobs: Seq<JobView>)
    ensures
        forall|i: int|
            0 <= i < running_jobs(jobs).len() ==> (#[trigger] running_jobs(jobs)[i]).running
                && jobs.contains(running_jobs(jobs)[i]),
        forall|i: int|
            0 <= i < jobs.len() && (#[trigger] jobs[i]).running ==> running_jobs(jobs).contains(
                jobs[i],
            ),
        well_ordered(jobs) ==> well_ordered(running_jobs(jobs)),
    decreases jobs.len(),
{
    if jobs.len() > 0 {
        let front = jobs.drop_last();
        let before = running_jobs(front);
        let all = running_jobs(jobs);
        lemma_running_jobs(front);
        assert forall|i: int| 0 <= i < all.len() implies (#[trigger] all[i]).running
            && jobs.contains(all[i]) by {
            if i < before.len() {
                assert(all[i] == before[i]);
                let k = choose|k: int| 0 <= k < front.len() && front[k] == before[i];
                assert(jobs[k] == before[i]);
            } else {
                assert(all[i] == jobs[jobs.len() - 1]);
            }
        }
        assert forall|i: int| 0 <= i < jobs.len() && (#[trigger] jobs[i]).running implies all.contains(
            jobs[i],
        ) by {
            if i < front.len() {
                assert(front[i] == jobs[i]);
                let k = choose|k: int| 0 <= k < before.len() && before[k] == front[i];
                assert(all[k] == jobs[i]);
            } else {
                assert(all[all.len() - 1] == jobs[i]);
            }
        }
        if well_ordered(jobs) {
            assert(well_ordered(front)) by {
                assert forall|i: int| 0 <= i < front.len() implies 1 <= (#[trigger] front[i]).id by {
                    assert(front[i] == jobs[i]);
                }
                assert forall|i: int, j: int| 0 <= i < j < front.len() implies (
                #[trigger] front[i]).id < (#[trigger] front[j]).id by {
                    assert(front[i] == jobs[i] && front[j] == jobs[j]);
                }
            }
            assert forall|i: int, j: int| 0 <= i < j < all.len() implies (#[trigger] all[i]).id < (
            #[trigger] all[j]).id by {
                assert(all[i] == before[i]);
                if j < before.len() {
                    assert(all[j] == before[j]);
                } else {
                    assert(all[j] == jobs[jobs.len() - 1]);
                    assert(before[i].running && front.contains(before[i]));
                    let k = choose|k: int| 0 <= k < front.len() && front[k] == before[i];
                    assert(jobs[k] == before[i]);
                }
            }
            assert forall|i: int| 0 <= i < all.len() implies 1 <= (#[trigger] all[i]).id by {
                assert(jobs.contains(all[i]));
                let k = choose|k: int| 0 <= k < jobs.len() && jobs[k] == all[i];
                assert(1 <= jobs[k].id);
            }
        }
    }
}

/// Whether `after` is `before` with one more job that runs the command, under the least number from
/// one on that is free, which is `id`; its process is not known yet.
pub open spec fn job_entered(
    before: Seq<JobView>,
    after: Seq<JobView>,
    id: usize,
    command: Seq<char>,
) -> bool {
    &&& 1 <= id <= before.len() + 1
    &&& !has_id(before, id)
    &&& forall|k: usize| 1 <= k < id ==> #[trigger] has_id(before, k)
    &&& after == before.insert(id - 1, JobView { id, pid: 0, command, running: true })
}

/// Enters a command as a job that runs, under the least number from one on that is free, and
/// returns that number. Its process is not known yet.
pub fn add_job(jobs: &mut JobTable, command: String) -> (r: usize)
    requires
        well_ordered(old(jobs).deep_view()),
        old(jobs).deep_view().len() < usize::MAX,
    ensures
        job_entered(old(jobs).deep_view(), final(jobs).deep_view(), r, command@),
        well_ordered(final(jobs).deep_view()),
{
    let ghost before = jobs.deep_view();
    let mut k: usize = 0;
    while k < jobs.jobs.len() && jobs.jobs[k].id == k + 1
        invariant
            k <= jobs.jobs.len(),
            before == jobs.deep_view(),
            before.len() < usize::MAX,
            forall|i: int| 0 <= i < k ==> (#[trigger] before[i]).id == i + 1,
        decreases jobs.jobs.len() - k,
    {
        assert(before[k as int] == jobs.jobs@[k as int].deep_view());
        k += 1;
    }
    let id: usize = k + 1;
    proof {
        assert(k < before.len() ==> before[k as int] == jobs.jobs@[k as int].deep_view());
        if k < before.len() {
            assert(k > 0 ==> before[k - 1].id < before[k as int].id);
            assert(before[k as int].id > id);
        }
        if has_id(before, id) {
            let i = choose|i: int| 0 <= i < before.len() && (#[trigger] before[i]).id == id;
            if i >= k && i > k {
                assert(before[k as int].id < before[i].id);
            }
        }
        assert forall|j: usize| 1 <= j < id implies #[trigger] has_id(before, j) by {
            assert(before[j - 1].id == j);
        }
    }
    let ghost text = command@;
    jobs.jobs.insert(k, Job { id, pid: 0, command, running: true });
    proof {
        let new = JobView { id, pid: 0, command: text, running: true };
        let after = jobs.deep_view();
        assert(after == before.insert(k as int, new));
        assert forall|i: int| 0 <= i < after.len() implies 1 <= (#[trigger] after[i]).id by {
            if i < k {
                assert(after[i] == before[i]);
            } else if i > k {
                assert(after[i] == before[i - 1]);
            }
        }
        assert forall|i: int, j: int| 0 <= i < j < after.len() implies (#[trigger] after[i]).id < (
        #[trigger] after[j]).id by {
            let a = if i < k {
                i
            } else {
                i - 1
            };
            let b = if j < k {
                j
            } else {
                j - 1
            };
            assert(i != k ==> after[i] == before[a]);
            assert(j != k ==> after[j] == before[b]);
            if i == k {
                assert(before[b].id >= before[k as int].id);
            }
        }
    }
    id
}

/// Enters a command, given by its words, as a job that runs in the background.
pub fn enter_background(jobs: &mut JobTable, args: &[String]) -> (r: usize)
    requires
        well_ordered(old(jobs).deep_view()),
        old(jobs).deep_view().len() < usize::MAX,
    ensures
        job_entered(
            old(jobs).deep_view(),
            final(jobs).deep_view(),
            r,
            joined(args.deep_view(), ' '),
        ),
        well_ordered(final(jobs).deep_view()),
{
    add_job(jobs, join_words(args, ' '))
}

/// The line that tells the number of a new job and its process.
pub open spec fn started_line(id: usize, pid: i32) -> Seq<char> {
    seq!['['] + decimal(id as nat) + seq![']', ' '] + decimal(pid as nat)
}

/// Takes note of the attempt to start the job `id` as a process of its own: with a process, the
/// job has it and is announced; without one (a negative number), the job is dropped.
pub fn run_background(jobs: &mut JobTable, id: usize, pid: i32, redirect: &Redirect) -> (r: Option<
    Message,
>)
    requires
        well_ordered(old(jobs).deep_view()),
    ensures
        pid < 0 ==> r is None && final(jobs).deep_view() == without_id(old(jobs).deep_view(), id),
        pid >= 0 ==> r is Some && r->0.deep_view() == output_line(
            started_line(id, pid),
            redirect.deep_view(),
        ) && final(jobs).deep_view() == with_pid(old(jobs).deep_view(), id, pid),
        well_ordered(final(jobs).deep_view()),
{
    if pid < 0 {
        jobs.remove(id);
        None
    } else {
        jobs.set_pid(id, pid);
        let mut line = String::new();
        line.push('[');
        let number = decimal_text(id);
        line.append(number.as_str());
        line.push(']');
        line.push(' ');
        let process = decimal_text(pid as usize);
        line.append(process.as_str());
        proof {
            assert(Seq::<char>::empty().push('[') == seq!['[']);
            let head = seq!['['] + number@;
            assert(head.push(']').push(' ') == head + seq![']', ' ']);
        }
        Some(write_output(line.as_str(), redirect))
    }
}

/// Lists the jobs in the order of their numbers, after the processes `ended` have ended, and
/// forgets those that do not run any more.
pub fn handle_jobs(jobs: &mut JobTable, ended: &Vec<i32>, redirect: &Redirect) -> (r: Vec<Message>)
    requires
        well_ordered(old(jobs).deep_view()),
    ensures
        r.deep_view() == listing(
            with_all_finished(old(jobs).deep_view(), ended@),
            redirect.deep_view(),
        ),
        final(jobs).deep_view() == running_jobs(with_all_finished(old(jobs).deep_view(), ended@)),
        well_ordered(final(jobs).deep_view()),
{
    let ghost before = jobs.deep_view();
    let mut i: usize = 0;
    assert(ended@.take(0) == Seq::<i32>::empty());
    while i < ended.len()
        invariant
            i <= ended.len(),
            well_ordered(jobs.deep_view()),
            jobs.deep_view() == with_all_finished(before, ended@.take(i as int)),
        decreases ended.len() - i,
    {
        jobs.finish(ended[i]);
        i += 1;
        assert(ended@.take(i as int).drop_last() == ended@.take(i - 1));
    }
    assert(ended@.take(i as int) == ended@);
    let ghost all = jobs.deep_view();
    let mut r: Vec<Message> = Vec::new();
    let n: usize = jobs.jobs.len();
    let mut k: usize = 0;
    while k < n
        invariant
            k <= n == jobs.jobs.len(),
            all == jobs.deep_view(),
            r.deep_view() == listing(all, redirect.deep_view()).take(k as int),
        decreases n - k,
    {
        let ghost done = r.deep_view();
        let job = &jobs.jobs[k];
        assert(all[k as int] == job.deep_view());
        let mark = if n - k == 1 {
            '+'
        } else if n - k == 2 {
            '-'
        } else {
            ' '
        };
        let line = if job.running {
            let mut l = format_status(job.id, mark, "Running", job.command.as_str());
            let ghost head = l@;
            l.push(' ');
            l.push('&');
            assert(head.push(' ').push('&') == head + seq![' ', '&']);
            l
        } else {
            format_status(job.id, mark, "Done", job.command.as_str())
        };
        let message = write_output(line.as_str(), redirect);
        let ghost added = message.deep_view();
        r.push(message);
        proof {
            assert(line@ == listing_line(all, k as int));
            assert(r.deep_view() == done.push(added));
            assert(listing(all, redirect.deep_view()).take(k + 1) == done.push(added));
        }
        k += 1;
    }
    assert(listing(all, redirect.deep_view()).take(k as int) == listing(all, redirect.deep_view()));
    jobs.keep_running();
    r
}

/// Drops the jobs whose processes have ended, and gives the line that announces each, in the order
/// in which they ended.
pub fn reap_children(jobs: &mut JobTable, ended: &Vec<i32>) -> (r: Vec<String>)
    requires
        well_ordered(old(jobs).deep_view()),
    ensures
        (final(jobs).deep_view(), r.deep_view()) == reaped(old(jobs).deep_view(), ended@),
        well_ordered(final(jobs).deep_view()),
{
    let ghost before = jobs.deep_view();
    let mut r: Vec<String> = Vec::new();
    let mut i: usize = 0;
    assert(ended@.take(0) == Seq::<i32>::empty());
    assert(r.deep_view() == Seq::<Seq<char>>::empty());
    while i < ended.len()
        invariant
            i <= ended.len(),
            well_ordered(jobs.deep_view()),
            (jobs.deep_view(), r.deep_view()) == reaped(before, ended@.take(i as int)),
        decreases ended.len() - i,
    {
        let ghost now = jobs.deep_view();
        let ghost done = r.deep_view();
        assert(ended@.take(i + 1).drop_last() == ended@.take(i as int));
        if let Some(k) = jobs.position_of_pid(ended[i]) {
            let id: usize = jobs.jobs[k].id;
            assert(now[k as int] == jobs.jobs@[k as int].deep_view());
            let mut later = false;
            let mut j: usize = 0;
            while j < jobs.jobs.len()
                invariant
                    j <= jobs.jobs.len(),
                    now == jobs.deep_view(),
                    later == exists|m: int|
                        0 <= m < j && (#[trigger] now[m]).running && now[m].id > id,
                decreases jobs.jobs.len() - j,
            {
                assert(now[j as int] == jobs.jobs@[j as int].deep_view());
                if jobs.jobs[j].running && jobs.jobs[j].id > id {
                    later = true;
                }
                j += 1;
            }
            let mark = if later {
                '-'
            } else {
                '+'
            };
            let job = jobs.jobs.remove(k);
            let line = format_status(id, mark, "Done", job.command.as_str());
            let ghost added = line@;
            r.push(line);
            proof {
                assert(added == reaped_line(now, k as int));
                assert(r.deep_view() == done.push(added));
                assert(jobs.deep_view() == now.remove(k as int));
            }
        }
        i += 1;
    }
    assert(ended@.take(i as int) == ended@);
    r
}

/// A job that is dropped right after it was entered leaves the table as it was.
pub proof fn law_remove_undoes_add(
    before: Seq<JobView>,
    after: Seq<JobView>,
    id: usize,
    command: Seq<char>,
)
    requires
        job_entered(before, after, id, command),
    ensures
        without_id(after, id) == before,
{
    let k = id - 1;
    lemma_id_position(after, id, 0);
    assert(after[k].id == id);
    let found = id_position(after, id, 0)->0;
    if found < k {
        assert(after[found] == before[found]);
        assert(has_id(before, id));
    } else if found > k {
        assert(after[found] == before[found - 1]);
        assert(has_id(before, id));
    }
    assert(after.remove(k) == before);
}

/// Every job that is dropped because its process ended is announced, and only once.
pub proof fn law_each_dropped_job_is_announced(jobs: Seq<JobView>, pids: Seq<i32>)
    ensures
        reaped(jobs, pids).0.len() + reaped(jobs, pids).1.len() == jobs.len(),
    decreases pids.len(),
{
    if pids.len() > 0 {
        law_each_dropped_job_is_announced(jobs, pids.drop_last());
        lemma_pid_position(reaped(jobs, pids.drop_last()).0, pids.last(), 0);
    }
}

/// After a listing, the jobs left are exactly those that run.
pub proof fn law_listing_keeps_running(jobs: Seq<JobView>, job: JobView)
    ensures
        running_jobs(jobs).contains(job) <==> jobs.contains(job) && job.running,
{
    lemma_running_jobs(jobs);
    if running_jobs(jobs).contains(job) {
        let k = choose|k: int| 0 <= k < running_jobs(jobs).len() && running_jobs(jobs)[k] == job;
        assert(running_jobs(jobs)[k].running);
    }
    if jobs.contains(job) && job.running {
        let k = choose|k: int| 0 <= k < jobs.len() && jobs[k] == job;
        assert(jobs[k].running);
    }
}

/// A job whose process is reported as ended is not left behind by a listing.
pub proof fn law_finished_job_leaves(jobs: Seq<JobView>, pid: i32)
    requires
        well_ordered(jobs),
        pid_position(jobs, pid, 0) is Some,
    ensures
        !has_id(
            running_jobs(with_finished(jobs, pid)),
            jobs[pid_position(jobs, pid, 0)->0].id,
        ),
{
    lemma_pid_position(jobs, pid, 0);
    let k = pid_position(jobs, pid, 0)->0;
    let marked = with_finished(jobs, pid);
    let left = running_jobs(marked);
    lemma_running_jobs(marked);
    if has_id(left, jobs[k].id) {
        let i = choose|i: int| 0 <= i < left.len() && (#[trigger] left[i]).id == jobs[k].id;
        assert(left[i].running && marked.contains(left[i]));
        let m = choose|m: int| 0 <= m < marked.len() && marked[m] == left[i];
        if m != k {
            assert(marked[m] == jobs[m]);
            if m < k {
                assert(jobs[m].id < jobs[k].id);
            } else {
                assert(jobs[k].id < jobs[m].id);
            }
        }
    }
}

/// Whether no two jobs have the same process.
pub open spec fn distinct_pids(jobs: Seq<JobView>) -> bool {
    forall|i: int, j: int|
        0 <= i < j < jobs.len() ==> (#[trigger] jobs[i]).pid != (#[trigger] jobs[j]).pid
}

/// After processes have ended, exactly the jobs that run in another process still run, if they did;
/// nothing else of a job is changed, and no job is lost.
pub proof fn law_jobs_stop_when_their_processes_end(jobs: Seq<JobView>, pids: Seq<i32>)
    requires
        distinct_pids(jobs),
    ensures
        with_all_finished(jobs, pids).len() == jobs.len(),
        forall|k: int|
            0 <= k < jobs.len() ==> {
                let after = #[trigger] with_all_finished(jobs, pids)[k];
                &&& after.id == jobs[k].id
                &&& after.pid == jobs[k].pid
                &&& after.command == jobs[k].command
                &&& after.running == (jobs[k].running && !pids.contains(jobs[k].pid))
            },
    decreases pids.len(),
{
    let all = with_all_finished(jobs, pids);
    if pids.len() > 0 {
        let front = pids.drop_last();
        let pid = pids.last();
        law_jobs_stop_when_their_processes_end(jobs, front);
        let before = with_all_finished(jobs, front);
        lemma_pid_position(before, pid, 0);
        assert(front.push(pid) == pids);
        assert forall|k: int| 0 <= k < jobs.len() implies {
            let after = #[trigger] all[k];
            &&& after.id == jobs[k].id
            &&& after.pid == jobs[k].pid
            &&& after.command == jobs[k].command
            &&& after.running == (jobs[k].running && !pids.contains(jobs[k].pid))
        } by {
            lemma_push_contains(front, pid, jobs[k].pid);
            let was = before[k];
            assert(was.pid == jobs[k].pid);
            if let Some(m) = pid_position(before, pid, 0) {
                assert(before[m].pid == jobs[m].pid);
                if m < k {
                    assert(jobs[m].pid != jobs[k].pid);
                } else if k < m {
                    assert(jobs[k].pid != jobs[m].pid);
                }
            }
        }
    }
}

/// After a listing, the jobs that are left are exactly those that ran before it and whose processes
/// have not ended, as they were.
pub proof fn law_listing_drops_what_ended(jobs: Seq<JobView>, pids: Seq<i32>, job: JobView)
    requires
        distinct_pids(jobs),
    ensures
        running_jobs(with_all_finished(jobs, pids)).contains(job) <==> jobs.contains(job)
            && job.running && !pids.contains(job.pid),
{
    law_jobs_stop_when_their_processes_end(jobs, pids);
    let all = with_all_finished(jobs, pids);
    law_listing_keeps_running(all, job);
    if all.contains(job) && job.running {
        let k = choose|k: int| 0 <= k < all.len() && all[k] == job;
        assert(all[k].running);
        assert(jobs[k] == job);
    }
    if jobs.contains(job) && job.running && !pids.contains(job.pid) {
        let k = choose|k: int| 0 <= k < jobs.len() && jobs[k] == job;
        assert(all[k] == job);
    }
}

/// Every job is listed, in the order of their numbers: its number, a plus for the last job and
/// a minus for the one before it, whether it runs or is done, and its command, with an ampersand
/// where it runs. A job is done once its process has ended.
pub proof fn law_every_job_is_listed(
    jobs: Seq<JobView>,
    pids: Seq<i32>,
    redirect: RedirectView,
    k: int,
)
    requires
        distinct_pids(jobs),
        0 <= k < jobs.len(),
    ensures
        ({
            let lines = listing(with_all_finished(jobs, pids), redirect);
            let running = jobs[k].running && !pids.contains(jobs[k].pid);
            let mark = if k == jobs.len() - 1 {
                '+'
            } else if k == jobs.len() - 2 {
                '-'
            } else {
                ' '
            };
            let status = if running {
                "Running"@
            } else {
                "Done"@
            };
            let head = seq!['['] + decimal(jobs[k].id as nat) + seq![']', mark, ' ', ' '];
            let text = head + padded_after(status, 24) + jobs[k].command;
            &&& lines.len() == jobs.len()
            &&& lines[k].stream == Stream::Stdout
            &&& lines[k].channel == redirect.stdio().stdout
            &&& lines[k].text == (if running {
                text + seq![' ', '&', '\n']
            } else {
                text + seq!['\n']
            })
        }),
{
    law_jobs_stop_when_their_processes_end(jobs, pids);
    let all = with_all_finished(jobs, pids);
    assert(all[k].id == jobs[k].id);
    let line = listing_line(all, k);
    assert(line.push('\n') == line + seq!['\n']);
    if all[k].running {
        let text = status_line(all[k].id, position_mark(k, all.len() as int), "Running"@, all[k].command);
        assert((text + seq![' ', '&']).push('\n') == text + seq![' ', '&', '\n']);
    }
}

proof fn lemma_remove_keeps_distinct(jobs: Seq<JobView>, k: int)
    requires
        distinct_pids(jobs),
        0 <= k < jobs.len(),
    ensures
        distinct_pids(jobs.remove(k)),
        forall|job: JobView| #[trigger]
            jobs.remove(k).contains(job) <==> jobs.contains(job) && job.pid != jobs[k].pid,
{
    let rest = jobs.remove(k);
    assert forall|i: int| 0 <= i < rest.len() implies #[trigger] rest[i] == jobs[if i < k {
        i
    } else {
        i + 1
    }] by {}
    assert forall|i: int, j: int| 0 <= i < j < rest.len() implies (#[trigger] rest[i]).pid != (
    #[trigger] rest[j]).pid by {
        let a = if i < k {
            i
        } else {
            i + 1
        };
        let b = if j < k {
            j
        } else {
            j + 1
        };
        assert(jobs[a].pid != jobs[b].pid);
    }
    assert forall|job: JobView| #[trigger]
        rest.contains(job) <==> jobs.contains(job) && job.pid != jobs[k].pid by {
        if rest.contains(job) {
            let i = choose|i: int| 0 <= i < rest.len() && rest[i] == job;
            let a = if i < k {
                i
            } else {
                i + 1
            };
            assert(jobs[a] == job);
            if a < k {
                assert(jobs[a].pid != jobs[k].pid);
            } else {
                assert(jobs[k].pid != jobs[a].pid);
            }
        }
        if jobs.contains(job) && job.pid != jobs[k].pid {
            let a = choose|a: int| 0 <= a < jobs.len() && jobs[a] == job;
            let i = if a < k {
                a
            } else {
                a - 1
            };
            assert(rest[i] == job);
        }
    }
}

/// Of the jobs, those whose processes have ended are dropped, and only those.
pub proof fn law_ended_jobs_are_dropped(jobs: Seq<JobView>, pids: Seq<i32>)
    requires
        distinct_pids(jobs),
    ensures
        distinct_pids(reaped(jobs, pids).0),
        forall|job: JobView| #[trigger]
            reaped(jobs, pids).0.contains(job) <==> jobs.contains(job) && !pids.contains(job.pid),
    decreases pids.len(),
{
    if pids.len() > 0 {
        let front = pids.drop_last();
        let pid = pids.last();
        law_ended_jobs_are_dropped(jobs, front);
        let left = reaped(jobs, front).0;
        lemma_pid_position(left, pid, 0);
        assert(front.push(pid) == pids);
        if let Some(k) = pid_position(left, pid, 0) {
            lemma_remove_keeps_distinct(left, k);
        }
        assert forall|job: JobView| #[trigger]
            reaped(jobs, pids).0.contains(job) <==> jobs.contains(job) && !pids.contains(job.pid) by {
            lemma_push_contains(front, pid, job.pid);
            assert(left.contains(job) <==> jobs.contains(job) && !front.contains(job.pid));
            if pid_position(left, pid, 0) is None && left.contains(job) {
                let k = choose|k: int| 0 <= k < left.len() && left[k] == job;
                assert(left[k].pid != pid);
            }
        }
    }
}

/// Where each process that ended is that of a job, each of these jobs is announced, in the order in
/// which they ended, as done: with its number, its command, and a plus, unless a job with a higher
/// number runs whose end was not announced before.
pub proof fn law_each_end_is_announced(jobs: Seq<JobView>, pids: Seq<i32>, i: int, j: int)
    requires
        distinct_pids(jobs),
        pids.no_duplicates(),
        forall|k: int|
            0 <= k < pids.len() ==> exists|m: int|
                0 <= m < jobs.len() && (#[trigger] jobs[m]).pid == #[trigger] pids[k],
        0 <= i < pids.len(),
        0 <= j < jobs.len(),
        jobs[j].pid == pids[i],
    ensures
        ({
            let later = exists|m: int|
                {
                    &&& 0 <= m < jobs.len()
                    &&& (#[trigger] jobs[m]).running
                    &&& jobs[m].id > jobs[j].id
                    &&& !pids.take(i).contains(jobs[m].pid)
                };
            let mark = if later {
                '-'
            } else {
                '+'
            };
            let head = seq!['['] + decimal(jobs[j].id as nat) + seq![']', mark, ' ', ' '];
            &&& reaped(jobs, pids).1.len() == pids.len()
            &&& reaped(jobs, pids).1[i] == head + padded_after("Done"@, 24) + jobs[j].command
        }),
    decreases pids.len(),
{
    let n = pids.len() - 1;
    let front = pids.drop_last();
    let pid = pids.last();
    let (left, lines) = reaped(jobs, front);
    assert forall|k: int| 0 <= k < front.len() implies exists|m: int|
        0 <= m < jobs.len() && (#[trigger] jobs[m]).pid == #[trigger] front[k] by {
        assert(front[k] == pids[k]);
    }
    if front.len() > 0 {
        let first = front[0];
        let m = choose|m: int| 0 <= m < jobs.len() && (#[trigger] jobs[m]).pid == front[0];
        law_each_end_is_announced(jobs, front, 0, m);
    }
    law_ended_jobs_are_dropped(jobs, front);
    assert(pids[n] == pid);
    let at = choose|m: int| 0 <= m < jobs.len() && (#[trigger] jobs[m]).pid == pids[n];
    assert(!front.contains(pid)) by {
        if front.contains(pid) {
            let k = choose|k: int| 0 <= k < front.len() && front[k] == pid;
            assert(pids[k] == pids[n]);
        }
    }
    assert(left.contains(jobs[at]));
    let there = choose|k: int| 0 <= k < left.len() && left[k] == jobs[at];
    lemma_pid_position(left, pid, 0);
    assert(left[there].pid == pid);
    let k = pid_position(left, pid, 0)->0;
    assert(left[k].pid == pid);
    assert(k == there) by {
        if k < there {
            assert(left[k].pid != left[there].pid);
        } else if there < k {
            assert(left[there].pid != left[k].pid);
        }
    }
    if i < n {
        law_each_end_is_announced(jobs, front, i, j);
        assert(front.take(i) == pids.take(i));
    } else {
        assert(at == j) by {
            if at < j {
                assert(jobs[at].pid != jobs[j].pid);
            } else if j < at {
                assert(jobs[j].pid != jobs[at].pid);
            }
        }
        assert(pids.take(i) == front);
        let id = jobs[j].id;
        if exists|m: int| 0 <= m < left.len() && (#[trigger] left[m]).running && left[m].id > id {
            let m = choose|m: int| 0 <= m < left.len() && (#[trigger] left[m]).running && left[m].id > id;
            assert(left.contains(left[m]));
            let a = choose|a: int| 0 <= a < jobs.len() && jobs[a] == left[m];
            assert(jobs[a].running && jobs[a].id > id && !pids.take(i).contains(jobs[a].pid));
        }
        if exists|m: int|
            {
                &&& 0 <= m < jobs.len()
                &&& (#[trigger] jobs[m]).running
                &&& jobs[m].id > id
                &&& !pids.take(i).contains(jobs[m].pid)
            } {
            let m = choose|m: int|
                {
                    &&& 0 <= m < jobs.len()
                    &&& (#[trigger] jobs[m]).running
                    &&& jobs[m].id > id
                    &&& !pids.take(i).contains(jobs[m].pid)
                };
            assert(left.contains(jobs[m]));
            let b = choose|b: int| 0 <= b < left.len() && left[b] == jobs[m];
            assert(left[b].running && left[b].id > id);
        }
    }
}

/// A new job gets a number that no job has, and the least such number from one on; it runs the
/// command, and the other jobs stay as they are.
pub proof fn law_new_job_is_numbered(
    before: Seq<JobView>,
    after: Seq<JobView>,
    id: usize,
    command: Seq<char>,
    lower: usize,
    job: JobView,
)
    requires
        job_entered(before, after, id, command),
    ensures
        1 <= id,
        forall|k: int| 0 <= k < before.len() ==> (#[trigger] before[k]).id != id,
        1 <= lower < id ==> exists|k: int|
            0 <= k < before.len() && (#[trigger] before[k]).id == lower,
        after.contains(job) <==> before.contains(job) || (job.id == id && job.pid == 0 && job.command
            == command && job.running),
{
    assert forall|k: int| 0 <= k < before.len() implies (#[trigger] before[k]).id != id by {
        if before[k].id == id {
            assert(has_id(before, id));
        }
    }
    if 1 <= lower < id {
        assert(has_id(before, lower));
    }
    let at = id - 1;
    let new = JobView { id, pid: 0, command, running: true };
    assert(after[at] == new);
    if after.contains(job) {
        let k = choose|k: int| 0 <= k < after.len() && after[k] == job;
        if k < at {
            assert(before[k] == job);
        } else if k > at {
            assert(before[k - 1] == job);
        }
    }
    if before.contains(job) {
        let k = choose|k: int| 0 <= k < before.len() && before[k] == job;
        if k < at {
            assert(after[k] == job);
        } else {
            assert(after[k + 1] == job);
        }
    }
    if job.id == id && job.pid == 0 && job.command == command && job.running {
        assert(job == new);
    }
}

/// The process that is noted for a job is that job's, and nothing else of any job is changed.
pub proof fn law_process_is_noted(jobs: Seq<JobView>, id: usize, pid: i32)
    requires
        well_ordered(jobs),
    ensures
        with_pid(jobs, id, pid).len() == jobs.len(),
        forall|k: int|
            0 <= k < jobs.len() ==> {
                let after = #[trigger] with_pid(jobs, id, pid)[k];
                &&& after.id == jobs[k].id
                &&& after.command == jobs[k].command
                &&& after.running == jobs[k].running
                &&& after.pid == (if jobs[k].id == id {
                    pid
                } else {
                    jobs[k].pid
                })
            },
{
    lemma_id_position(jobs, id, 0);
    if let Some(m) = id_position(jobs, id, 0) {
        assert forall|k: int| 0 <= k < jobs.len() && k != m implies (#[trigger] jobs[k]).id != id by {
            if k < m {
                assert(jobs[k].id < jobs[m].id);
            } else {
                assert(jobs[m].id < jobs[k].id);
            }
        }
    }
}

/// A job that is forgotten is gone, and the others stay as they are.
pub proof fn law_job_is_forgotten(jobs: Seq<JobView>, id: usize, job: JobView)
    requires
        well_ordered(jobs),
    ensures
        without_id(jobs, id).contains(job) <==> jobs.contains(job) && job.id != id,
{
    lemma_id_position(jobs, id, 0);
    let rest = without_id(jobs, id);
    if let Some(m) = id_position(jobs, id, 0) {
        if rest.contains(job) {
            let i = choose|i: int| 0 <= i < rest.len() && rest[i] == job;
            let a = if i < m {
                i
            } else {
                i + 1
            };
            assert(jobs[a] == job);
            if a < m {
                assert(jobs[a].id < jobs[m].id);
            } else {
                assert(jobs[m].id < jobs[a].id);
            }
        }
        if jobs.contains(job) && job.id != id {
            let a = choose|a: int| 0 <= a < jobs.len() && jobs[a] == job;
            let i = if a < m {
                a
            } else {
                a - 1
            };
            assert(rest[i] == job);
        }
    } else if jobs.contains(job) {
        let a = choose|a: int| 0 <= a < jobs.len() && jobs[a] == job;
        assert(jobs[a].id != id);
    }
}

/// A job that is started is announced by its number and its process.
pub proof fn law_new_job_is_announced(id: usize, pid: i32)
    requires
        pid >= 0,
    ensures
        started_line(id, pid) == seq!['['] + decimal(id as nat) + seq![']', ' '] + decimal(
            pid as nat,
        ),
{
}

} // verus!
