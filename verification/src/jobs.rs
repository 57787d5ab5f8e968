//! Job-control decisions: selecting a job, listing jobs, numbering stopped
//! jobs, and what happens to a job when its process changes state.
use vstd::prelude::*;

use crate::shell::option_text;
use crate::text::{natural_numeral, parse_unsigned, parse_unsigned_text, push_natural};

verus! {

/// Whether a job is running or stopped.
#[derive(Debug, Clone, Copy, PartialEq, Eq)]
pub enum JobState {
    Running,
    Stopped,
}

pub open spec fn state_word(state: JobState) -> Seq<char> {
    match state {
        JobState::Running => "Running"@,
        JobState::Stopped => "Stopped"@,
    }
}

pub open spec fn bracketed(id: usize) -> Seq<char> {
    "["@ + natural_numeral(id as nat) + "]"@
}

fn push_bracketed(text: &mut String, id: usize)
    ensures
        final(text)@ == old(text)@ + bracketed(id),
{
    text.append("[");
    push_natural(text, id as u64);
    text.append("]");
    proof {
        assert(final(text)@ =~= old(text)@ + bracketed(id));
    }
}

/// The `jobs` line of a job: `[ID] STATE COMMAND`.
pub open spec fn job_line_spec(id: usize, state: JobState, command: Seq<char>) -> Seq<char> {
    bracketed(id) + " "@ + state_word(state) + " "@ + command
}

/// The line `jobs` prints for a job.
pub fn job_line(id: usize, state: JobState, command: &str) -> (line: String)
    ensures
        line@ == job_line_spec(id, state, command@),
{
    let mut line = String::new();
    push_bracketed(&mut line, id);
    line.append(" ");
    match state {
        JobState::Running => line.append("Running"),
        JobState::Stopped => line.append("Stopped"),
    }
    line.append(" ");
    line.append(command);
    proof {
        assert(line@ =~= job_line_spec(id, state, command@));
    }
    line
}

/// The line `bg` prints for a job it resumed: `[ID] COMMAND`.
pub fn background_line(id: usize, command: &str) -> (line: String)
    ensures
        line@ == bracketed(id) + " "@ + command@,
{
    let mut line = String::new();
    push_bracketed(&mut line, id);
    line.append(" ");
    line.append(command);
    proof {
        assert(line@ =~= bracketed(id) + " "@ + command@);
    }
    line
}

/// The line printed when a foreground job stops: `[ID] Stopped COMMAND`.
pub fn stopped_line(id: usize, command: &str) -> (line: String)
    ensures
        line@ == job_line_spec(id, JobState::Stopped, command@),
{
    job_line(id, JobState::Stopped, command)
}

/// The diagnostic of `fg` and `bg` when the shell has no terminal.
pub open spec fn job_control_spec(builtin: Seq<char>, interactive: bool) -> Option<Seq<char>> {
    if interactive {
        None
    } else {
        Some(builtin + ": job control is unavailable without a terminal"@)
    }
}

/// Job control needs an interactive terminal.
pub fn job_control_check(builtin: &str, interactive: bool) -> (result: Option<String>)
    ensures
        option_text(result) == job_control_spec(builtin@, interactive),
{
    if interactive {
        None
    } else {
        let mut text = builtin.to_owned();
        text.append(": job control is unavailable without a terminal");
        Some(text)
    }
}

/// The digits of a job selector: the text without one leading `%`.
pub open spec fn selector_digits(s: Seq<char>) -> Seq<char> {
    if s.len() > 0 && s[0] == '%' {
        s.drop_first()
    } else {
        s
    }
}

/// The largest of the identifiers.
pub open spec fn max_id(ids: Seq<usize>) -> usize
    decreases ids.len(),
{
    if ids.len() == 0 {
        0
    } else {
        let rest = max_id(ids.drop_last());
        if ids.last() > rest {
            ids.last()
        } else {
            rest
        }
    }
}

/// The first position holding `id`, if any.
pub open spec fn position_of(ids: Seq<usize>, id: usize) -> Option<int> {
    if exists|k: int| 0 <= k < ids.len() && ids[k] == id {
        Some(choose|k: int| 0 <= k < ids.len() && ids[k] == id && forall|m: int| 0 <= m < k ==> ids[m] != id)
    } else {
        None
    }
}

/// Which job `fg` or `bg` acts on, given the identifiers of the tracked jobs
/// in order: the job named by the one optional argument (`N` or `%N`), or
/// the job with the highest identifier; its position, or the diagnostic.
pub open spec fn find_job_spec(arguments: Seq<String>, ids: Seq<usize>, builtin: Seq<char>) -> Result<
    int,
    Seq<char>,
> {
    if arguments.len() > 1 {
        Err(builtin + ": too many arguments"@)
    } else if ids.len() == 0 {
        Err(builtin + ": no current job"@)
    } else if arguments.len() == 1 && parse_unsigned(
        selector_digits(arguments[0]@),
        usize::MAX as int,
    ) is None {
        Err(builtin + ": "@ + arguments[0]@ + ": invalid job identifier"@)
    } else {
        let requested = requested_id(arguments, ids);
        match position_of(ids, requested) {
            Some(k) => Ok(k),
            None => Err(builtin + ": %"@ + natural_numeral(requested as nat) + ": no such job"@),
        }
    }
}

/// The job identifier that `fg` or `bg` asks for.
pub open spec fn requested_id(arguments: Seq<String>, ids: Seq<usize>) -> usize {
    if arguments.len() == 1 {
        parse_unsigned(selector_digits(arguments[0]@), usize::MAX as int)->Some_0 as usize
    } else {
        max_id(ids)
    }
}

pub open spec fn index_result_view(result: Result<usize, String>) -> Result<int, Seq<char>> {
    match result {
        Ok(k) => Ok(k as int),
        Err(e) => Err(e@),
    }
}

proof fn lemma_max_id_step(ids: Seq<usize>, k: int)
    requires
        0 <= k < ids.len(),
    ensures
        max_id(ids.take(k + 1)) == if ids[k] > max_id(ids.take(k)) {
            ids[k]
        } else {
            max_id(ids.take(k))
        },
{
    assert(ids.take(k + 1).drop_last() =~= ids.take(k));
}

/// The position of the job `fg` or `bg` acts on, or its diagnostic.
pub fn find_job(arguments: &[String], ids: &[usize], builtin: &str) -> (result: Result<
    usize,
    String,
>)
    ensures
        index_result_view(result) == find_job_spec(arguments@, ids@, builtin@),
{
    if arguments.len() > 1 {
        let mut text = builtin.to_owned();
        text.append(": too many arguments");
        return Err(text);
    }
    if ids.len() == 0 {
        let mut text = builtin.to_owned();
        text.append(": no current job");
        return Err(text);
    }
    let requested: usize;
    if arguments.len() == 1 {
        let value = arguments[0].as_str();
        let digits = strip_percent(value);
        proof {
            crate::text::lemma_parse_unsigned_range(digits@, usize::MAX as int);
        }
        match parse_unsigned_text(digits, usize::MAX as u64) {
            Some(v) => {
                requested = v as usize;
            },
            None => {
                let mut text = builtin.to_owned();
                text.append(": ");
                text.append(value);
                text.append(": invalid job identifier");
                return Err(text);
            },
        }
    } else {
        let mut highest: usize = 0;
        let mut k: usize = 0;
        proof {
            assert(ids@.take(0) =~= Seq::<usize>::empty());
        }
        while k < ids.len()
            invariant
                k <= ids@.len(),
                highest == max_id(ids@.take(k as int)),
            decreases ids.len() - k,
        {
            proof {
                lemma_max_id_step(ids@, k as int);
            }
            if ids[k] > highest {
                highest = ids[k];
            }
            k = k + 1;
        }
        proof {
            assert(ids@.take(ids@.len() as int) =~= ids@);
        }
        requested = highest;
    }
    let mut k: usize = 0;
    while k < ids.len()
        invariant
            k <= ids@.len(),
            forall|m: int| 0 <= m < k ==> ids@[m] != requested,
            requested == requested_id(arguments@, ids@),
            arguments@.len() <= 1,
            ids@.len() > 0,
            arguments@.len() == 1 ==> parse_unsigned(
                selector_digits(arguments@[0]@),
                usize::MAX as int,
            ) is Some,
        decreases ids.len() - k,
    {
        if ids[k] == requested {
            proof {
                let j = choose|j: int|
                    0 <= j < ids@.len() && ids@[j] == requested && forall|m: int|
                        0 <= m < j ==> ids@[m] != requested;
                assert(j == k) by {
                    if j < k {
                        assert(ids@[j] != requested);
                    }
                    if j > k {
                        assert(ids@[k as int] != requested);
                    }
                }
            }
            return Ok(k);
        }
        k = k + 1;
    }
    let mut text = builtin.to_owned();
    text.append(": %");
    push_natural(&mut text, requested as u64);
    text.append(": no such job");
    proof {
        assert(position_of(ids@, requested) is None);
    }
    Err(text)
}

/// The text without one leading `%`.
fn strip_percent(value: &str) -> (digits: &str)
    ensures
        digits@ == selector_digits(value@),
{
    let chars = crate::text::chars_of(value);
    if chars.len() > 0 && chars[0] == '%' {
        proof {
            assert(value@.subrange(1, value@.len() as int) =~= value@.drop_first());
        }
        value.substring_char(1, chars.len())
    } else {
        value
    }
}

/// The identifier a job gets when it stops, and the next identifier to hand
/// out: a job that already has one keeps it; a new job (identifier 0) takes
/// the next one.
pub fn stopped_job_id(id: usize, next_id: usize) -> (result: (usize, usize))
    requires
        id == 0 ==> next_id < usize::MAX,
    ensures
        id != 0 ==> result == (id, next_id),
        id == 0 ==> result == (next_id, (next_id + 1) as usize),
{
    if id == 0 {
        (next_id, next_id + 1)
    } else {
        (id, next_id)
    }
}

/// How a tracked job's process changed, as seen when reaping.
pub enum ChildChange {
    Exited(i32),
    /// Terminated by the signal of this name.
    Signaled(String),
    Stopped,
    Continued,
    /// The process is no longer a child of the shell.
    Gone,
    /// Checking failed, with this description.
    Failed(String),
    Unchanged,
}

/// What reaping does with a job: whether it stays tracked, its new state,
/// a notice about the job, and a diagnostic.
pub struct ReapDecision {
    pub keep: bool,
    pub state: JobState,
    pub notice: Option<String>,
    pub diagnostic: Option<String>,
}

pub open spec fn reap_spec(
    change: ChildChange,
    id: usize,
    pid: i32,
    state: JobState,
    command: Seq<char>,
) -> (bool, JobState, Option<Seq<char>>, Option<Seq<char>>) {
    match change {
        ChildChange::Exited(status) => (
            false,
            state,
            Some(bracketed(id) + " Done ("@ + crate::text::numeral(status as int) + ") "@ + command),
            None,
        ),
        ChildChange::Signaled(signal) => (
            false,
            state,
            Some(bracketed(id) + " Terminated ("@ + signal@ + ") "@ + command),
            None,
        ),
        ChildChange::Stopped => (true, JobState::Stopped, None, None),
        ChildChange::Continued => (true, JobState::Running, None, None),
        ChildChange::Gone => (false, state, None, None),
        ChildChange::Failed(error) => (
            true,
            state,
            None,
            Some("could not check stopped job "@ + crate::text::numeral(pid as int) + ": "@ + error@),
        ),
        ChildChange::Unchanged => (true, state, None, None),
    }
}

/// Reaping removes a job from the table only once its process has ended
/// (it exited, was terminated by a signal, or is no longer a child of the
/// shell); a job whose process was stopped, continued, could not be checked,
/// or did not change stays. A job that did not change keeps its state and is
/// not reported; a stopped job becomes stopped and a continued one running.
pub proof fn law_reaping_keeps_jobs_that_have_not_ended(
    change: ChildChange,
    id: usize,
    pid: i32,
    state: JobState,
    command: Seq<char>,
)
    ensures
        !reap_spec(change, id, pid, state, command).0 <==> (change is Exited || change is Signaled
            || change is Gone),
        change is Unchanged ==> reap_spec(change, id, pid, state, command) == (
            true,
            state,
            None::<Seq<char>>,
            None::<Seq<char>>,
        ),
        change is Stopped ==> reap_spec(change, id, pid, state, command).1 == JobState::Stopped,
        change is Continued ==> reap_spec(change, id, pid, state, command).1 == JobState::Running,
        (change is Exited || change is Signaled) ==> reap_spec(
            change,
            id,
            pid,
            state,
            command,
        ).2 is Some,
{
}

/// Decides what happens to a tracked job whose process changed: finished
/// jobs leave the table with a report, stopped and continued jobs change
/// state, and a job that cannot be checked stays.
pub fn reap_decision(
    change: ChildChange,
    id: usize,
    pid: i32,
    state: JobState,
    command: &str,
) -> (decision: ReapDecision)
    ensures
        (
            decision.keep,
            decision.state,
            option_text(decision.notice),
            option_text(decision.diagnostic),
        ) == reap_spec(
            change,
            id,
            pid,
            state,
            command@,
        ),
{
    match change {
        ChildChange::Exited(status) => {
            let mut text = String::new();
            push_bracketed(&mut text, id);
            text.append(" Done (");
            crate::text::push_numeral(&mut text, status as i64);
            text.append(") ");
            text.append(command);
            proof {
                assert(text@ =~= bracketed(id) + " Done ("@ + crate::text::numeral(status as int)
                    + ") "@ + command@);
            }
            ReapDecision { keep: false, state, notice: Some(text), diagnostic: None }
        },
        ChildChange::Signaled(signal) => {
            let mut text = String::new();
            push_bracketed(&mut text, id);
            text.append(" Terminated (");
            text.append(signal.as_str());
            text.append(") ");
            text.append(command);
            proof {
                assert(text@ =~= bracketed(id) + " Terminated ("@ + signal@ + ") "@ + command@);
            }
            ReapDecision { keep: false, state, notice: Some(text), diagnostic: None }
        },
        ChildChange::Stopped => ReapDecision {
            keep: true,
            state: JobState::Stopped,
            notice: None,
            diagnostic: None,
        },
        ChildChange::Continued => ReapDecision {
            keep: true,
            state: JobState::Running,
            notice: None,
            diagnostic: None,
        },
        ChildChange::Gone => ReapDecision { keep: false, state, notice: None, diagnostic: None },
        ChildChange::Failed(error) => {
            let mut text = "could not check stopped job ".to_owned();
            crate::text::push_numeral(&mut text, pid as i64);
            text.append(": ");
            text.append(error.as_str());
            proof {
                assert(text@ =~= "could not check stopped job "@ + crate::text::numeral(pid as int)
                    + ": "@ + error@);
            }
            ReapDecision { keep: true, state, notice: None, diagnostic: Some(text) }
        },
        ChildChange::Unchanged => ReapDecision { keep: true, state, notice: None, diagnostic: None },
    }
}

/// What a status change of the foreground job means.
#[derive(Debug, Clone, Copy, PartialEq, Eq)]
pub enum WaitEvent {
    Exited(i32),
    Signaled(i32),
    Stopped(i32),
    /// A change that does not end the wait (continued, traced, still alive).
    Other,
    /// The wait was interrupted by a signal.
    Interrupted,
    /// Waiting failed.
    Failed,
}

/// What waiting for the foreground job does next.
#[derive(Debug, Clone, Copy, PartialEq, Eq)]
pub enum WaitDecision {
    /// The job is over; `$?` becomes this status.
    Finished(i32),
    /// The job stopped and becomes a tracked job; `$?` becomes this status.
    Suspended(i32),
    /// Keep waiting; hang the job up first when a hangup was requested.
    Continue { hang_up: bool },
    /// Waiting failed; `$?` becomes 1.
    Failed,
}

/// Decides what one status change of the foreground job means: an exit
/// gives its status, a terminating or stopping signal gives 128 plus the
/// signal, and an interruption keeps waiting, hanging the job up when the
/// shell was asked to hang up.
pub fn wait_decision(event: WaitEvent, hangup_requested: bool) -> (decision: WaitDecision)
    requires
        event matches WaitEvent::Signaled(s) ==> s <= i32::MAX - 128,
        event matches WaitEvent::Stopped(s) ==> s <= i32::MAX - 128,
    ensures
        decision == match event {
            WaitEvent::Exited(status) => WaitDecision::Finished(status),
            WaitEvent::Signaled(s) => WaitDecision::Finished((128 + s) as i32),
            WaitEvent::Stopped(s) => WaitDecision::Suspended((128 + s) as i32),
            WaitEvent::Other => WaitDecision::Continue { hang_up: false },
            WaitEvent::Interrupted => WaitDecision::Continue { hang_up: hangup_requested },
            WaitEvent::Failed => WaitDecision::Failed,
        },
{
    match event {
        WaitEvent::Exited(status) => WaitDecision::Finished(status),
        WaitEvent::Signaled(s) => WaitDecision::Finished(crate::shell::signal_status(s)),
        WaitEvent::Stopped(s) => WaitDecision::Suspended(crate::shell::signal_status(s)),
        WaitEvent::Other => WaitDecision::Continue { hang_up: false },
        WaitEvent::Interrupted => WaitDecision::Continue { hang_up: hangup_requested },
        WaitEvent::Failed => WaitDecision::Failed,
    }
}

/// How one process of a job ended.
#[derive(Debug, Clone, Copy, PartialEq, Eq)]
pub enum StageEnd {
    Exited(i32),
    /// Terminated by the signal of this number.
    Signaled(i32),
}

/// The status a process that ended this way leaves.
pub open spec fn end_status_spec(end: StageEnd) -> int {
    match end {
        StageEnd::Exited(status) => status as int,
        StageEnd::Signaled(signal) => 128 + signal,
    }
}

pub open spec fn end_fits(end: StageEnd) -> bool {
    end matches StageEnd::Signaled(signal) ==> signal <= i32::MAX - 128
}

/// The status a process that ended this way leaves: its exit status, or 128
/// plus the signal that terminated it.
pub fn end_status(end: StageEnd) -> (status: i32)
    requires
        end_fits(end),
    ensures
        status == end_status_spec(end),
{
    match end {
        StageEnd::Exited(status) => status,
        StageEnd::Signaled(signal) => crate::shell::signal_status(signal),
    }
}

/// The processes of a job, one per pipeline stage: which of them are still
/// running, and how the last stage ended once it has. A job's status is the
/// status of its last stage.
pub struct StageProgress {
    pub running: Vec<bool>,
    pub last_end: Option<StageEnd>,
}

/// What is known of a job's stages: which are running, and how the last one
/// ended.
pub type ProgressView = (Seq<bool>, Option<StageEnd>);

impl View for StageProgress {
    type V = ProgressView;

    open spec fn view(&self) -> ProgressView {
        (self.running@, self.last_end)
    }
}

/// The progress after the process of `stage` ended this way: that stage no
/// longer runs, and the end is kept when it is the last stage's.
pub open spec fn ended_step(progress: ProgressView, stage: int, end: StageEnd) -> ProgressView {
    (
        progress.0.update(stage, false),
        if stage + 1 == progress.0.len() {
            Some(end)
        } else {
            progress.1
        },
    )
}

/// The progress after a sequence of stage ends, in the order they came.
pub open spec fn after_ends(progress: ProgressView, ends: Seq<(int, StageEnd)>) -> ProgressView
    decreases ends.len(),
{
    if ends.len() == 0 {
        progress
    } else {
        ended_step(after_ends(progress, ends.drop_last()), ends.last().0, ends.last().1)
    }
}

/// A job of `stages` processes that have not ended yet.
pub open spec fn fresh_progress(stages: nat) -> ProgressView {
    (Seq::new(stages, |k: int| true), None)
}

impl StageProgress {
    /// There is a last stage; until it has ended it is running; a signal
    /// leaves room for 128 to be added.
    pub open spec fn wf(&self) -> bool {
        &&& self.running@.len() > 0
        &&& self.last_end is None ==> self.running@.last()
        &&& self.last_end matches Some(end) ==> end_fits(end)
    }

    /// No stage is running any more.
    pub open spec fn all_ended(&self) -> bool {
        forall|k: int| 0 <= k < self.running@.len() ==> !(#[trigger] self.running@[k])
    }

    /// A job of `stages` processes, all running.
    pub fn start(stages: usize) -> (progress: StageProgress)
        requires
            stages > 0,
        ensures
            progress.wf(),
            progress@ == fresh_progress(stages as nat),
    {
        let mut running: Vec<bool> = Vec::new();
        let mut k: usize = 0;
        while k < stages
            invariant
                k <= stages,
                running@ == Seq::new(k as nat, |m: int| true),
            decreases stages - k,
        {
            running.push(true);
            k = k + 1;
            proof {
                assert(running@ =~= Seq::new(k as nat, |m: int| true));
            }
        }
        let progress = StageProgress { running, last_end: None };
        proof {
            assert(progress@ == fresh_progress(stages as nat));
        }
        progress
    }

    /// Notes that the process of `stage` ended (or never started) this way;
    /// tells whether every stage has now ended.
    pub fn stage_ended(&mut self, stage: usize, end: StageEnd) -> (all_ended: bool)
        requires
            old(self).wf(),
            stage < old(self).running@.len(),
            end_fits(end),
        ensures
            final(self).wf(),
            final(self)@ == ended_step(old(self)@, stage as int, end),
            all_ended == final(self).all_ended(),
    {
        let last = self.running.len() - 1;
        self.running.set(stage, false);
        if stage == last {
            self.last_end = Some(end);
        }
        self.finished()
    }

    /// Whether no stage is running any more.
    pub fn finished(&self) -> (result: bool)
        ensures
            result == self.all_ended(),
    {
        let mut k: usize = 0;
        while k < self.running.len()
            invariant
                k <= self.running@.len(),
                forall|m: int| 0 <= m < k ==> !(#[trigger] self.running@[m]),
            decreases self.running.len() - k,
        {
            if self.running[k] {
                return false;
            }
            k = k + 1;
        }
        true
    }

    /// The status of the job once every stage has ended: the last stage's.
    pub fn status(&self) -> (status: i32)
        requires
            self.wf(),
            self.all_ended(),
        ensures
            self.last_end matches Some(end) && status == end_status_spec(end),
    {
        proof {
            assert(!self.running@[self.running@.len() - 1]);
        }
        match self.last_end {
            Some(end) => end_status(end),
            None => 0,
        }
    }
}

/// Decides what one status change of a foreground pipeline means. `stage`
/// is the stage whose process changed, if the change concerns one of them.
/// When a process ends, the job finishes with the last stage's status once
/// every stage has ended; a stop suspends the whole job; the other events are
/// decided as for a single process.
pub fn pipeline_wait_decision(
    progress: &mut StageProgress,
    stage: Option<usize>,
    event: WaitEvent,
    hangup_requested: bool,
) -> (decision: WaitDecision)
    requires
        old(progress).wf(),
        stage matches Some(k) ==> k < old(progress).running@.len(),
        event matches WaitEvent::Signaled(s) ==> s <= i32::MAX - 128,
        event matches WaitEvent::Stopped(s) ==> s <= i32::MAX - 128,
    ensures
        final(progress).wf(),
        match (event, stage) {
            (WaitEvent::Exited(status), Some(k)) => {
                &&& final(progress)@ == ended_step(old(progress)@, k as int, StageEnd::Exited(status))
                &&& decision == if final(progress).all_ended() {
                    WaitDecision::Finished(
                        end_status_spec(final(progress).last_end->Some_0) as i32,
                    )
                } else {
                    WaitDecision::Continue { hang_up: false }
                }
            },
            (WaitEvent::Signaled(signal), Some(k)) => {
                &&& final(progress)@ == ended_step(
                    old(progress)@,
                    k as int,
                    StageEnd::Signaled(signal),
                )
                &&& decision == if final(progress).all_ended() {
                    WaitDecision::Finished(
                        end_status_spec(final(progress).last_end->Some_0) as i32,
                    )
                } else {
                    WaitDecision::Continue { hang_up: false }
                }
            },
            (WaitEvent::Exited(_), None) | (WaitEvent::Signaled(_), None) => {
                &&& *final(progress) == *old(progress)
                &&& decision == WaitDecision::Continue { hang_up: false }
            },
            (WaitEvent::Stopped(signal), _) => {
                &&& *final(progress) == *old(progress)
                &&& decision == WaitDecision::Suspended((128 + signal) as i32)
            },
            (WaitEvent::Other, _) => {
                &&& *final(progress) == *old(progress)
                &&& decision == WaitDecision::Continue { hang_up: false }
            },
            (WaitEvent::Interrupted, _) => {
                &&& *final(progress) == *old(progress)
                &&& decision == WaitDecision::Continue { hang_up: hangup_requested }
            },
            (WaitEvent::Failed, _) => {
                &&& *final(progress) == *old(progress)
                &&& decision == WaitDecision::Failed
            },
        },
{
    let end = match (event, stage) {
        (WaitEvent::Exited(status), Some(_)) => StageEnd::Exited(status),
        (WaitEvent::Signaled(signal), Some(_)) => StageEnd::Signaled(signal),
        (WaitEvent::Exited(_), None) | (WaitEvent::Signaled(_), None) => {
            return WaitDecision::Continue { hang_up: false };
        },
        _ => {
            return wait_decision(event, hangup_requested);
        },
    };
    let k = match stage {
        Some(k) => k,
        None => {
            return WaitDecision::Continue { hang_up: false };
        },
    };
    if progress.stage_ended(k, end) {
        WaitDecision::Finished(progress.status())
    } else {
        WaitDecision::Continue { hang_up: false }
    }
}

proof fn lemma_after_ends_length(progress: ProgressView, ends: Seq<(int, StageEnd)>)
    requires
        forall|k: int| 0 <= k < ends.len() ==> 0 <= #[trigger] ends[k].0 < progress.0.len(),
    ensures
        after_ends(progress, ends).0.len() == progress.0.len(),
    decreases ends.len(),
{
    if ends.len() > 0 {
        let rest = ends.drop_last();
        assert forall|k: int| 0 <= k < rest.len() implies 0 <= #[trigger] rest[k].0
            < progress.0.len() by {
            assert(rest[k] == ends[k]);
        }
        lemma_after_ends_length(progress, rest);
        assert(0 <= ends[ends.len() - 1].0 < progress.0.len());
    }
}

/// A pipeline's status is its last stage's, in whatever order the stages
/// end: after a job's stages have ended, the end kept for the job is the
/// last stage's most recent one, whatever ended before or after it.
pub proof fn law_job_status_is_last_stage_status(
    stages: nat,
    ends: Seq<(int, StageEnd)>,
    j: int,
)
    requires
        forall|k: int| 0 <= k < ends.len() ==> 0 <= #[trigger] ends[k].0 < stages,
        0 <= j < ends.len(),
        ends[j].0 == stages - 1,
        forall|m: int| j < m < ends.len() ==> #[trigger] ends[m].0 != stages - 1,
    ensures
        after_ends(fresh_progress(stages), ends).1 == Some(ends[j].1),
    decreases ends.len(),
{
    let rest = ends.drop_last();
    assert forall|k: int| 0 <= k < rest.len() implies 0 <= #[trigger] rest[k].0 < stages by {
        assert(rest[k] == ends[k]);
    }
    lemma_after_ends_length(fresh_progress(stages), rest);
    if j < ends.len() - 1 {
        assert(ends[ends.len() - 1].0 != stages - 1);
        assert forall|m: int| j < m < rest.len() implies #[trigger] rest[m].0 != stages - 1 by {
            assert(rest[m] == ends[m]);
        }
        assert(rest[j] == ends[j]);
        law_job_status_is_last_stage_status(stages, rest, j);
    }
}

/// A job ends when every one of its stages has: a stage still runs exactly
/// when no end of it has been seen.
pub proof fn law_job_ends_when_every_stage_has(stages: nat, ends: Seq<(int, StageEnd)>)
    requires
        forall|k: int| 0 <= k < ends.len() ==> 0 <= #[trigger] ends[k].0 < stages,
    ensures
        after_ends(fresh_progress(stages), ends).0.len() == stages,
        forall|s: int|
            0 <= s < stages ==> (!#[trigger] after_ends(fresh_progress(stages), ends).0[s] <==> exists|
                k: int,
            | 0 <= k < ends.len() && ends[k].0 == s),
    decreases ends.len(),
{
    lemma_after_ends_length(fresh_progress(stages), ends);
    if ends.len() > 0 {
        let rest = ends.drop_last();
        assert forall|k: int| 0 <= k < rest.len() implies 0 <= #[trigger] rest[k].0 < stages by {
            assert(rest[k] == ends[k]);
        }
        law_job_ends_when_every_stage_has(stages, rest);
        let last = ends.len() - 1;
        assert(0 <= ends[last].0 < stages);
        assert forall|s: int| 0 <= s < stages implies (!#[trigger] after_ends(
            fresh_progress(stages),
            ends,
        ).0[s] <==> exists|k: int| 0 <= k < ends.len() && ends[k].0 == s) by {
            if exists|k: int| 0 <= k < rest.len() && rest[k].0 == s {
                let k = choose|k: int| 0 <= k < rest.len() && rest[k].0 == s;
                assert(ends[k] == rest[k]);
            }
            if exists|k: int| 0 <= k < ends.len() && ends[k].0 == s {
                let k = choose|k: int| 0 <= k < ends.len() && ends[k].0 == s;
                if k < last {
                    assert(rest[k] == ends[k]);
                }
            }
        }
    } else {
        assert forall|s: int| 0 <= s < stages implies #[trigger] after_ends(
            fresh_progress(stages),
            ends,
        ).0[s] by {}
    }
}

/// The diagnostic of `bg` for a job that is already running.
pub open spec fn already_running_spec(id: usize, state: JobState) -> Option<Seq<char>> {
    match state {
        JobState::Running => Some("bg: job "@ + natural_numeral(id as nat) + " is already running"@),
        JobState::Stopped => None,
    }
}

/// `bg` only resumes stopped jobs.
pub fn background_check(id: usize, state: JobState) -> (result: Option<String>)
    ensures
        option_text(result) == already_running_spec(id, state),
{
    match state {
        JobState::Running => {
            let mut text = "bg: job ".to_owned();
            push_natural(&mut text, id as u64);
            text.append(" is already running");
            proof {
                assert(text@ =~= "bg: job "@ + natural_numeral(id as nat) + " is already running"@);
            }
            Some(text)
        },
        JobState::Stopped => None,
    }
}

proof fn lemma_max_id_is_present(ids: Seq<usize>)
    requires
        ids.len() > 0,
    ensures
        exists|k: int| 0 <= k < ids.len() && ids[k] == max_id(ids),
        forall|k: int| 0 <= k < ids.len() ==> ids[k] <= max_id(ids),
    decreases ids.len(),
{
    let rest = ids.drop_last();
    if rest.len() > 0 {
        lemma_max_id_is_present(rest);
        let j = choose|j: int| 0 <= j < rest.len() && rest[j] == max_id(rest);
        assert(ids[j] == rest[j]);
        assert forall|k: int| 0 <= k < ids.len() implies ids[k] <= max_id(ids) by {
            if k < rest.len() {
                assert(ids[k] == rest[k]);
            }
        }
    } else {
        assert(ids[0] == ids.last());
    }
    if ids.last() > max_id(rest) {
        assert(ids[ids.len() - 1] == max_id(ids));
    }
}

/// Without an argument, `fg` and `bg` select the newest job: the tracked job
/// with the highest identifier.
pub proof fn law_default_job_is_newest(ids: Seq<usize>, builtin: Seq<char>)
    requires
        ids.len() > 0,
    ensures
        find_job_spec(Seq::empty(), ids, builtin) matches Ok(k) && 0 <= k < ids.len() && (
        forall|m: int| 0 <= m < ids.len() ==> ids[m] <= ids[k]),
{
    lemma_max_id_is_present(ids);
    lemma_first_position(ids, max_id(ids));
}

proof fn lemma_first_position(ids: Seq<usize>, id: usize)
    requires
        exists|k: int| 0 <= k < ids.len() && ids[k] == id,
    ensures
        exists|k: int|
            0 <= k < ids.len() && ids[k] == id && forall|m: int| 0 <= m < k ==> ids[m] != id,
{
    let j = choose|j: int| 0 <= j < ids.len() && ids[j] == id;
    lemma_first_position_below(ids, id, j);
}

proof fn lemma_first_position_below(ids: Seq<usize>, id: usize, j: int)
    requires
        0 <= j < ids.len(),
        ids[j] == id,
    ensures
        exists|k: int|
            0 <= k < ids.len() && ids[k] == id && forall|m: int| 0 <= m < k ==> ids[m] != id,
    decreases j,
{
    if exists|m: int| 0 <= m < j && ids[m] == id {
        let m = choose|m: int| 0 <= m < j && ids[m] == id;
        lemma_first_position_below(ids, id, m);
    } else {
        assert(forall|m: int| 0 <= m < j ==> ids[m] != id);
    }
}

/// A job is selected the same way with or without the `%` before its
/// number.
pub proof fn law_percent_is_optional(digits: Seq<char>, ids: Seq<usize>, builtin: Seq<char>)
    requires
        digits.len() > 0,
        digits[0] != '%',
        parse_unsigned(digits, usize::MAX as int) is Some,
    ensures
        selector_digits(seq!['%'] + digits) == selector_digits(digits),
        forall|a: String, b: String|
            a@ == seq!['%'] + digits && b@ == digits ==> find_job_spec(seq![a], ids, builtin)
                == find_job_spec(seq![b], ids, builtin),
{
    assert((seq!['%'] + digits).drop_first() =~= digits);
}

} // verus!
