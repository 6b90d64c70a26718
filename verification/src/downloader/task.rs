//! The download of one file, with its retries.
use vstd::prelude::*;

use crate::db::models::{
    failed, lemma_status_texts, record_error, set_file_status, with_new_status, DbError,
};
use crate::db::tables::{tables_ok, Database, DbView, FileView};
use crate::text::text_view;

verus! {

/// The most attempts that are made to download a file.
pub const MAX_ATTEMPTS: u32 = 5;

/// Where the download of a file stands.
#[derive(Debug, Clone, Copy, PartialEq, Eq, Structural)]
pub enum Phase {
    /// It waits for a request slot.
    Slot,
    /// The transfer is under way.
    Transfer,
    /// The session's clearance is being renewed.
    Renewal,
    /// It waits before the next attempt.
    Backoff,
    /// It has ended.
    Over,
}

/// The download of one file.
#[derive(Debug, Clone, Copy, PartialEq, Eq, Structural)]
pub struct FileTask {
    pub phase: Phase,
    /// The number of the present attempt.
    pub attempts: u32,
    /// Whether the clearance was renewed for this file.
    pub renewed: bool,
    /// Seconds before the next attempt.
    pub backoff_secs: u64,
    /// The most seconds before an attempt.
    pub backoff_max_secs: u64,
}

/// What happened.
#[derive(Debug)]
pub enum TaskEvent {
    /// The request slot was reached.
    SlotReached,
    /// The user cancelled.
    Cancelled,
    /// The transfer succeeded.
    Transferred { checksum: String },
    /// The transfer failed; `forbidden` if the server denied access.
    Failed { forbidden: bool, message: String },
    /// The clearance was renewed, or could not be.
    Renewed { cleared: bool },
    /// The wait is over; this is proposed for the next one.
    Waited { next_backoff_secs: u64 },
}

/// How the download of a file ended.
#[derive(Debug)]
pub enum Outcome {
    /// The file is complete; a copy that was there before has no checksum.
    Complete { checksum: Option<String> },
    /// The file was left out.
    Skipped,
    /// The user cancelled; the file is tried again another time.
    Interrupted,
    /// All attempts failed.
    Failed { message: String },
}

/// What is to be done.
#[derive(Debug)]
pub enum TaskStep {
    /// Wait for a request slot.
    AwaitSlot,
    /// Transfer the file.
    Transfer,
    /// Renew the session's clearance.
    Renew,
    /// Wait this long.
    Wait { secs: u64 },
    /// Record the outcome.
    Finish { outcome: Outcome },
    /// Nothing: the event does not belong here.
    Nothing,
}

/// What holds of a download at all times.
pub open spec fn task_ok(task: FileTask) -> bool {
    &&& 1 <= task.attempts <= MAX_ATTEMPTS
    &&& task.phase == Phase::Renewal || task.phase == Phase::Backoff ==> task.attempts
        < MAX_ATTEMPTS
    &&& task.phase == Phase::Renewal ==> task.renewed
    &&& task.backoff_secs <= task.backoff_max_secs
}

/// The lesser of two numbers of seconds.
pub open spec fn at_most(secs: u64, cap: u64) -> u64 {
    if secs <= cap {
        secs
    } else {
        cap
    }
}

/// The wait after a wait: the proposed one, but no shorter than the last and no longer than the
/// cap.
pub open spec fn next_wait(last: u64, proposed: u64, cap: u64) -> u64 {
    at_most(
        if proposed >= last {
            proposed
        } else {
            last
        },
        cap,
    )
}

/// A download at its first attempt, which waits for a request slot.
pub open spec fn new_task(backoff_initial_secs: u64, backoff_max_secs: u64) -> FileTask {
    FileTask {
        phase: Phase::Slot,
        attempts: 1,
        renewed: false,
        backoff_secs: at_most(backoff_initial_secs, backoff_max_secs),
        backoff_max_secs,
    }
}

/// The download after an event.
pub open spec fn task_after(task: FileTask, event: TaskEvent) -> FileTask {
    match (task.phase, event) {
        (Phase::Over, _) => task,
        (_, TaskEvent::Cancelled) => FileTask { phase: Phase::Over, ..task },
        (Phase::Slot, TaskEvent::SlotReached) => FileTask { phase: Phase::Transfer, ..task },
        (Phase::Transfer, TaskEvent::Transferred { .. }) => FileTask { phase: Phase::Over, ..task },
        (Phase::Transfer, TaskEvent::Failed { forbidden, .. }) => {
            if task.attempts >= MAX_ATTEMPTS {
                FileTask { phase: Phase::Over, ..task }
            } else if forbidden && !task.renewed {
                FileTask { phase: Phase::Renewal, renewed: true, ..task }
            } else {
                FileTask { phase: Phase::Backoff, ..task }
            }
        },
        (Phase::Renewal, TaskEvent::Renewed { cleared }) => {
            if cleared {
                FileTask { phase: Phase::Slot, attempts: (task.attempts + 1) as u32, ..task }
            } else {
                FileTask { phase: Phase::Backoff, ..task }
            }
        },
        (Phase::Backoff, TaskEvent::Waited { next_backoff_secs }) => FileTask {
            phase: Phase::Slot,
            attempts: (task.attempts + 1) as u32,
            backoff_secs: next_wait(task.backoff_secs, next_backoff_secs, task.backoff_max_secs),
            ..task
        },
        _ => task,
    }
}

/// What is to be done after an event.
pub open spec fn step_after_event(task: FileTask, event: TaskEvent) -> TaskStep {
    match (task.phase, event) {
        (Phase::Over, _) => TaskStep::Nothing,
        (_, TaskEvent::Cancelled) => TaskStep::Finish { outcome: Outcome::Interrupted },
        (Phase::Slot, TaskEvent::SlotReached) => TaskStep::Transfer,
        (Phase::Transfer, TaskEvent::Transferred { checksum }) => TaskStep::Finish {
            outcome: Outcome::Complete { checksum: Some(checksum) },
        },
        (Phase::Transfer, TaskEvent::Failed { forbidden, message }) => {
            if task.attempts >= MAX_ATTEMPTS {
                TaskStep::Finish { outcome: Outcome::Failed { message } }
            } else if forbidden && !task.renewed {
                TaskStep::Renew
            } else {
                TaskStep::Wait { secs: task.backoff_secs }
            }
        },
        (Phase::Renewal, TaskEvent::Renewed { cleared }) => {
            if cleared {
                TaskStep::AwaitSlot
            } else {
                TaskStep::Wait { secs: task.backoff_secs }
            }
        },
        (Phase::Backoff, TaskEvent::Waited { .. }) => TaskStep::AwaitSlot,
        _ => TaskStep::Nothing,
    }
}

impl FileTask {
    /// A download at its first attempt, which waits for a request slot.
    pub fn new(backoff_initial_secs: u64, backoff_max_secs: u64) -> (r: Self)
        ensures
            r == new_task(backoff_initial_secs, backoff_max_secs),
            task_ok(r),
    {
        FileTask {
            phase: Phase::Slot,
            attempts: 1,
            renewed: false,
            backoff_secs: if backoff_initial_secs <= backoff_max_secs {
                backoff_initial_secs
            } else {
                backoff_max_secs
            },
            backoff_max_secs,
        }
    }

    /// Takes in what happened and says what is to be done.
    ///
    /// A transfer that fails is retried after a wait, up to a number of attempts.  If the server
    /// denied access, the session's clearance is renewed instead of waiting, once for each file.
    /// Waits do not get shorter, nor longer than the cap.
    pub fn on_event(&mut self, event: TaskEvent) -> (r: TaskStep)
        requires
            task_ok(*old(self)),
        ensures
            task_ok(*final(self)),
            *final(self) == task_after(*old(self), event),
            r == step_after_event(*old(self), event),
    {
        match self.phase {
            Phase::Over => TaskStep::Nothing,
            Phase::Slot => match event {
                TaskEvent::Cancelled => {
                    self.phase = Phase::Over;
                    TaskStep::Finish { outcome: Outcome::Interrupted }
                },
                TaskEvent::SlotReached => {
                    self.phase = Phase::Transfer;
                    TaskStep::Transfer
                },
                _ => TaskStep::Nothing,
            },
            Phase::Transfer => match event {
                TaskEvent::Cancelled => {
                    self.phase = Phase::Over;
                    TaskStep::Finish { outcome: Outcome::Interrupted }
                },
                TaskEvent::Transferred { checksum } => {
                    self.phase = Phase::Over;
                    TaskStep::Finish { outcome: Outcome::Complete { checksum: Some(checksum) } }
                },
                TaskEvent::Failed { forbidden, message } => {
                    if self.attempts >= MAX_ATTEMPTS {
                        self.phase = Phase::Over;
                        TaskStep::Finish { outcome: Outcome::Failed { message } }
                    } else if forbidden && !self.renewed {
                        self.phase = Phase::Renewal;
                        self.renewed = true;
                        TaskStep::Renew
                    } else {
                        self.phase = Phase::Backoff;
                        TaskStep::Wait { secs: self.backoff_secs }
                    }
                },
                _ => TaskStep::Nothing,
            },
            Phase::Renewal => match event {
                TaskEvent::Cancelled => {
                    self.phase = Phase::Over;
                    TaskStep::Finish { outcome: Outcome::Interrupted }
                },
                TaskEvent::Renewed { cleared } => {
                    if cleared {
                        self.phase = Phase::Slot;
                        self.attempts = self.attempts + 1;
                        TaskStep::AwaitSlot
                    } else {
                        self.phase = Phase::Backoff;
                        TaskStep::Wait { secs: self.backoff_secs }
                    }
                },
                _ => TaskStep::Nothing,
            },
            Phase::Backoff => match event {
                TaskEvent::Cancelled => {
                    self.phase = Phase::Over;
                    TaskStep::Finish { outcome: Outcome::Interrupted }
                },
                TaskEvent::Waited { next_backoff_secs } => {
                    self.phase = Phase::Slot;
                    self.attempts = self.attempts + 1;
                    if next_backoff_secs > self.backoff_secs {
                        self.backoff_secs = if next_backoff_secs <= self.backoff_max_secs {
                            next_backoff_secs
                        } else {
                            self.backoff_max_secs
                        };
                    }
                    TaskStep::AwaitSlot
                },
                _ => TaskStep::Nothing,
            },
        }
    }
}

// ---------------------------------------------------------------------------
// Outcomes
// ---------------------------------------------------------------------------

/// A file after the outcome of its download was recorded; a finished file stays as it is.
pub open spec fn settled(file: FileView, id: i64, outcome: Outcome, now: Seq<char>) -> FileView {
    match outcome {
        Outcome::Complete { checksum } => with_new_status(
            file,
            id,
            "done"@,
            None,
            text_view(checksum),
            now,
        ),
        Outcome::Skipped => with_new_status(file, id, "skipped"@, None, None, now),
        Outcome::Interrupted => with_new_status(file, id, "pending"@, None, None, now),
        Outcome::Failed { message } => failed(file, id, message@),
    }
}

/// Records the outcome of a download.
pub fn settle(db: &mut Database, id: i64, outcome: &Outcome, now: &str)
    requires
        tables_ok(old(db)@),
    ensures
        tables_ok(final(db)@),
        final(db)@ == (DbView {
            files: old(db)@.files.map_values(|f: FileView| settled(f, id, *outcome, now@)),
            ..old(db)@
        }),
{
    proof {
        lemma_status_texts();
    }
    let ghost before: DbView = db@;
    match outcome {
        Outcome::Complete { checksum } => {
            let text: Option<&str> = match checksum {
                Some(c) => Some(c.as_str()),
                None => None,
            };
            let r: Result<(), DbError> = set_file_status(db, id, "done", None, text, now);
            assert(r is Ok);
        },
        Outcome::Skipped => {
            let r: Result<(), DbError> = set_file_status(db, id, "skipped", None, None, now);
            assert(r is Ok);
        },
        Outcome::Interrupted => {
            let r: Result<(), DbError> = set_file_status(db, id, "pending", None, None, now);
            assert(r is Ok);
        },
        Outcome::Failed { message } => {
            record_error(db, id, message.as_str());
        },
    }
    assert(db@.files =~= before.files.map_values(|f: FileView| settled(f, id, *outcome, now@)));
}

// ---------------------------------------------------------------------------
// Laws
// ---------------------------------------------------------------------------

/// The download after some events.
pub open spec fn task_run(task: FileTask, events: Seq<TaskEvent>) -> FileTask
    decreases events.len(),
{
    if events.len() == 0 {
        task
    } else {
        task_after(task_run(task, events.drop_last()), events.last())
    }
}

/// How often some events lead to a given kind of step.
pub open spec fn steps_in_run(
    task: FileTask,
    events: Seq<TaskEvent>,
    kind: spec_fn(TaskStep) -> bool,
) -> nat
    decreases events.len(),
{
    if events.len() == 0 {
        0
    } else {
        steps_in_run(task, events.drop_last(), kind) + (if kind(
            step_after_event(task_run(task, events.drop_last()), events.last()),
        ) {
            1nat
        } else {
            0nat
        })
    }
}

/// The step to which the event at position `i` leads.
pub open spec fn step_at(task: FileTask, events: Seq<TaskEvent>, i: int) -> TaskStep {
    step_after_event(task_run(task, events.take(i)), events[i])
}

/// Whatever happens, a file is transferred at most as often as there are attempts.
pub proof fn law_attempts_are_bounded(initial: u64, cap: u64, events: Seq<TaskEvent>)
    ensures
        steps_in_run(new_task(initial, cap), events, |s: TaskStep| s is Transfer) <= MAX_ATTEMPTS,
{
    lemma_transfers(new_task(initial, cap), events);
}

/// A file is given up only after all attempts were made, with the message of the last failure.
pub proof fn law_all_attempts_are_made(
    initial: u64,
    cap: u64,
    events: Seq<TaskEvent>,
    event: TaskEvent,
    message: String,
)
    requires
        step_after_event(task_run(new_task(initial, cap), events), event) == (TaskStep::Finish {
            outcome: Outcome::Failed { message },
        }),
    ensures
        steps_in_run(new_task(initial, cap), events, |s: TaskStep| s is Transfer) == MAX_ATTEMPTS,
        event matches TaskEvent::Failed { message: last, .. } && last == message,
{
    lemma_transfers(new_task(initial, cap), events);
}

/// The number of transfers is that of the attempts, but for one that waits for its slot.
proof fn lemma_transfers(start: FileTask, events: Seq<TaskEvent>)
    requires
        start.phase == Phase::Slot,
        start.attempts == 1,
        task_ok(start),
    ensures
        task_ok(task_run(start, events)),
        ({
            let task = task_run(start, events);
            let transfers = steps_in_run(start, events, |s: TaskStep| s is Transfer);
            &&& transfers <= task.attempts
            &&& task.phase == Phase::Slot ==> transfers == task.attempts - 1
            &&& task.phase != Phase::Slot && task.phase != Phase::Over ==> transfers
                == task.attempts
        }),
    decreases events.len(),
{
    if events.len() > 0 {
        lemma_transfers(start, events.drop_last());
    }
}

/// No wait is longer than the cap, and none is shorter than one before it.  The first is the
/// configured one, if the cap allows it.
pub proof fn law_waits_grow_up_to_the_cap(
    initial: u64,
    cap: u64,
    events: Seq<TaskEvent>,
    i: int,
    j: int,
    earlier: u64,
    later: u64,
)
    requires
        0 <= i <= j < events.len(),
        step_at(new_task(initial, cap), events, i) == (TaskStep::Wait { secs: earlier }),
        step_at(new_task(initial, cap), events, j) == (TaskStep::Wait { secs: later }),
    ensures
        at_most(initial, cap) <= earlier <= later <= cap,
{
    let start = new_task(initial, cap);
    lemma_backoff_grows(start, events, 0, i);
    lemma_backoff_grows(start, events, i, j);
    assert(events.take(0) =~= Seq::<TaskEvent>::empty());
}

/// The seconds before the next attempt do not get fewer, nor more than the cap.
proof fn lemma_backoff_grows(start: FileTask, events: Seq<TaskEvent>, i: int, j: int)
    requires
        0 <= i <= j <= events.len(),
        start.backoff_secs <= start.backoff_max_secs,
    ensures
        task_run(start, events.take(i)).backoff_secs <= task_run(start, events.take(j)).backoff_secs
            <= start.backoff_max_secs,
        task_run(start, events.take(j)).backoff_max_secs == start.backoff_max_secs,
    decreases j,
{
    if j > 0 {
        assert(events.take(j).drop_last() =~= events.take(j - 1));
        if i < j {
            lemma_backoff_grows(start, events, i, j - 1);
        } else {
            lemma_backoff_grows(start, events, j - 1, j - 1);
        }
    } else {
        assert(events.take(0) =~= Seq::<TaskEvent>::empty());
    }
}

/// Whatever happens, the clearance is renewed at most once for a file.
pub proof fn law_one_renewal_per_file(initial: u64, cap: u64, events: Seq<TaskEvent>)
    ensures
        steps_in_run(new_task(initial, cap), events, |s: TaskStep| s is Renew) <= 1,
{
    lemma_renewals(new_task(initial, cap), events);
}

/// The clearance was renewed once if it is noted so, else not.
proof fn lemma_renewals(start: FileTask, events: Seq<TaskEvent>)
    requires
        !start.renewed,
    ensures
        steps_in_run(start, events, |s: TaskStep| s is Renew) == (if task_run(
            start,
            events,
        ).renewed {
            1int
        } else {
            0int
        }),
    decreases events.len(),
{
    if events.len() > 0 {
        lemma_renewals(start, events.drop_last());
    }
}

/// A download ends at most once: after it ended nothing is done any more.
pub proof fn law_outcomes_are_final(task: FileTask, event: TaskEvent)
    ensures
        task.phase == Phase::Over ==> task_after(task, event) == task && step_after_event(
            task,
            event,
        ) is Nothing,
        step_after_event(task, event) is Finish <==> task.phase != Phase::Over && task_after(
            task,
            event,
        ).phase == Phase::Over,
{
}

/// A denied transfer is retried at once after the clearance was renewed, without the wait that
/// other failures bring.
pub proof fn law_denied_transfer_is_retried_at_once(task: FileTask, message: String)
    requires
        task.phase == Phase::Transfer,
        task.attempts < MAX_ATTEMPTS,
        !task.renewed,
    ensures
        ({
            let denied = TaskEvent::Failed { forbidden: true, message };
            let renewing = task_after(task, denied);
            &&& step_after_event(task, denied) is Renew
            &&& step_after_event(renewing, TaskEvent::Renewed { cleared: true }) is AwaitSlot
            &&& task_after(renewing, TaskEvent::Renewed { cleared: true }).attempts == task.attempts
                + 1
            &&& task_after(renewing, TaskEvent::Renewed { cleared: true }).backoff_secs
                == task.backoff_secs
        }),
{
}

/// A download that was cancelled leaves an unfinished file pending, so that it is tried again.
pub proof fn law_interrupted_files_stay_pending(file: FileView, id: i64, now: Seq<char>)
    requires
        file.id == id,
        file.status != "done"@,
    ensures
        settled(file, id, Outcome::Interrupted, now).status == "pending"@,
{
}

/// A file that was given up has failed, with the message and one more failed download.
pub proof fn law_given_up_files_have_failed(file: FileView, message: String, now: Seq<char>)
    requires
        file.status != "done"@,
    ensures
        ({
            let after = settled(file, file.id, Outcome::Failed { message }, now);
            &&& after.status == "error"@
            &&& after.error_message == Some(message@)
            &&& file.retry_count < i64::MAX ==> after.retry_count == file.retry_count + 1
        }),
{
}

/// Only a complete transfer makes a file finished.
pub proof fn law_only_complete_files_finish(
    file: FileView,
    id: i64,
    outcome: Outcome,
    now: Seq<char>,
)
    requires
        file.status != "done"@,
        settled(file, id, outcome, now).status == "done"@,
    ensures
        outcome is Complete,
        file.id == id,
{
    lemma_status_texts();
}

/// A download begins with its first attempt, before any renewal, and its first wait is the
/// configured one, or the cap if that is shorter.
pub proof fn law_downloads_begin_afresh(initial: u64, cap: u64)
    ensures
        ({
            let task = new_task(initial, cap);
            &&& task.phase == Phase::Slot
            &&& task.attempts == 1
            &&& !task.renewed
            &&& task.backoff_max_secs == cap
            &&& task.backoff_secs == initial || task.backoff_secs == cap
            &&& task.backoff_secs <= initial && task.backoff_secs <= cap
            &&& step_after_event(task, TaskEvent::SlotReached) is Transfer
            &&& task_after(task, TaskEvent::SlotReached) == (FileTask {
                phase: Phase::Transfer,
                ..task
            })
        }),
{
}

/// A transfer that succeeds ends the download as complete, with the checksum that it gave.
pub proof fn law_transfers_complete_the_download(task: FileTask, checksum: String)
    requires
        task.phase == Phase::Transfer,
    ensures
        step_after_event(task, TaskEvent::Transferred { checksum }) == (TaskStep::Finish {
            outcome: Outcome::Complete { checksum: Some(checksum) },
        }),
        task_after(task, TaskEvent::Transferred { checksum }).phase == Phase::Over,
{
}

/// A transfer that fails is tried again up to five times: after the present wait the next attempt
/// waits for its slot, and a longer wait is kept for the one after it, within the cap.  The fifth
/// failure ends the download with its message.
pub proof fn law_failed_transfers_are_tried_again(
    task: FileTask,
    forbidden: bool,
    message: String,
    proposed: u64,
)
    requires
        task.phase == Phase::Transfer,
        task.backoff_secs <= task.backoff_max_secs,
        1 <= task.attempts <= 5,
        task.renewed || !forbidden,
    ensures
        ({
            let failure = TaskEvent::Failed { forbidden, message };
            let waiting = task_after(task, failure);
            let wait_over = TaskEvent::Waited { next_backoff_secs: proposed };
            let next = task_after(waiting, wait_over);
            &&& task.attempts < 5 ==> {
                &&& step_after_event(task, failure) == (TaskStep::Wait { secs: task.backoff_secs })
                &&& step_after_event(waiting, wait_over) is AwaitSlot
                &&& step_after_event(next, TaskEvent::SlotReached) is Transfer
                &&& next.phase == Phase::Slot
                &&& next.attempts == task.attempts + 1
                &&& next.renewed == task.renewed
                &&& task.backoff_secs <= proposed <= task.backoff_max_secs ==> next.backoff_secs
                    == proposed
                &&& proposed > task.backoff_max_secs ==> next.backoff_secs == task.backoff_max_secs
                &&& proposed < task.backoff_secs ==> next.backoff_secs == task.backoff_secs
            }
            &&& task.attempts == 5 ==> {
                &&& step_after_event(task, failure) == (TaskStep::Finish {
                    outcome: Outcome::Failed { message },
                })
                &&& waiting.phase == Phase::Over
            }
        }),
{
}

/// Where the clearance cannot be renewed, a denied transfer is tried again after a wait, as any
/// other.
pub proof fn law_failed_renewals_bring_a_wait(task: FileTask)
    requires
        task.phase == Phase::Renewal,
    ensures
        step_after_event(task, TaskEvent::Renewed { cleared: false }) == (TaskStep::Wait {
            secs: task.backoff_secs,
        }),
        task_after(task, TaskEvent::Renewed { cleared: false }) == (FileTask {
            phase: Phase::Backoff,
            ..task
        }),
        step_after_event(task, TaskEvent::Renewed { cleared: true }) is AwaitSlot,
        task_after(task, TaskEvent::Renewed { cleared: true }).phase == Phase::Slot,
{
}

/// Cancelling ends a download at any time as interrupted, unless it has ended.
pub proof fn law_cancelling_interrupts(task: FileTask)
    requires
        task.phase != Phase::Over,
    ensures
        step_after_event(task, TaskEvent::Cancelled) == (TaskStep::Finish {
            outcome: Outcome::Interrupted,
        }),
        task_after(task, TaskEvent::Cancelled).phase == Phase::Over,
{
}

/// What ended is recorded for its file alone, unless that is finished: a complete transfer with
/// its checksum and the time, a skipped or interrupted one without a trace of a failure.
pub proof fn law_outcomes_are_recorded(
    file: FileView,
    id: i64,
    checksum: Option<String>,
    outcome: Outcome,
    now: Seq<char>,
)
    ensures
        file.id != id || file.status == "done"@ ==> settled(file, id, outcome, now) == file,
        file.id == id && file.status != "done"@ ==> {
            &&& settled(file, id, Outcome::Complete { checksum }, now) == (FileView {
                status: "done"@,
                error_message: None,
                checksum_sha256: text_view(checksum),
                completed_at: Some(now),
                ..file
            })
            &&& settled(file, id, Outcome::Skipped, now) == (FileView {
                status: "skipped"@,
                error_message: None,
                checksum_sha256: None,
                ..file
            })
            &&& settled(file, id, Outcome::Interrupted, now) == (FileView {
                status: "pending"@,
                error_message: None,
                checksum_sha256: None,
                ..file
            })
        },
{
    lemma_status_texts();
}

} // verus!
