//! The decisions of the upload loop. Each attempt streams the forwarded lines to
//! the endpoint in one request; the loop decides when to start another attempt,
//! which message to resend first, whether to pause before retrying, and when to stop.
//! The waiting, sending and receiving happen outside.

use vstd::prelude::*;

verus! {

/// Minimum spacing between the start of a failed upload attempt and the next one.
pub const UPLOAD_RETRY_SPACING_MILLIS: u64 = 15_000;

/// Minimum spacing between two connection attempts to gpsd.
pub const GPSD_RECONNECT_SPACING_MILLIS: u64 = 10_000;

/// After this long an upload connection is closed and a fresh one opened.
pub const UPLOAD_RECYCLE_SECS: u64 = 55;

/// An upload request that has not finished after this long is abandoned.
pub const UPLOAD_REQUEST_TIMEOUT_SECS: u64 = 90;

/// How long to wait before the next attempt, given how long ago the last one
/// began: the rest of `period_millis`, or nothing once it has passed.
pub fn remaining_wait_millis(period_millis: u64, elapsed_millis: u64) -> (r: u64)
    ensures
        r == (if elapsed_millis < period_millis {
            period_millis - elapsed_millis
        } else {
            0
        }),
{
    if elapsed_millis < period_millis {
        period_millis - elapsed_millis
    } else {
        0
    }
}

/// What the loop does at the top of an iteration.
pub enum AttemptStart {
    /// The final attempt after a shutdown request is done: stop.
    Stop,
    /// Start an attempt, handing it this message first where there is one.
    Start(Option<Vec<u8>>),
}

/// How an attempt ended, as the loop saw it.
#[derive(PartialEq, Eq, Structural, Clone, Copy, Debug)]
pub enum AttemptEnd {
    /// A message could not be handed to the upload task: it no longer listens.
    HandoverFailed,
    /// The connection reached its recycle time.
    Recycled,
    /// The upload task finished by itself.
    TaskFinished,
    /// The source of messages closed: none will follow.
    SourceClosed,
}

/// How the upload task ended.
#[derive(PartialEq, Eq, Structural, Clone, Copy, Debug)]
pub enum TaskOutcome {
    /// The request completed with a success status.
    Succeeded,
    /// The request failed, timed out or got an error status.
    UploadFailed,
    /// The task itself could not be joined (it panicked or was cancelled).
    JoinFailed,
}

/// What the loop does after an attempt.
#[derive(PartialEq, Eq, Structural, Clone, Copy, Debug)]
pub enum NextStep {
    /// Go on to the next attempt at once.
    Retry,
    /// Wait out the retry spacing (unless shutdown is requested), then go on.
    RetryAfterWait,
    /// Stop with success.
    ReturnOk,
    /// Stop with the upload's error.
    ReturnUploadError,
    /// Stop with the error of joining the task.
    ReturnJoinError,
}

/// The step after an attempt that ended as `end` with the task ending as `outcome`.
pub open spec fn next_step_spec(end: AttemptEnd, outcome: TaskOutcome) -> NextStep {
    match end {
        AttemptEnd::SourceClosed => match outcome {
            TaskOutcome::Succeeded => NextStep::ReturnOk,
            TaskOutcome::UploadFailed => NextStep::ReturnUploadError,
            TaskOutcome::JoinFailed => NextStep::ReturnJoinError,
        },
        AttemptEnd::HandoverFailed => match outcome {
            TaskOutcome::JoinFailed => NextStep::RetryAfterWait,
            _ => NextStep::Retry,
        },
        _ => match outcome {
            TaskOutcome::Succeeded => NextStep::Retry,
            TaskOutcome::UploadFailed => NextStep::RetryAfterWait,
            TaskOutcome::JoinFailed => NextStep::ReturnJoinError,
        },
    }
}

/// Decides what follows an attempt.
pub fn next_step(end: AttemptEnd, outcome: TaskOutcome) -> (s: NextStep)
    ensures
        s == next_step_spec(end, outcome),
{
    match end {
        AttemptEnd::SourceClosed => match outcome {
            TaskOutcome::Succeeded => NextStep::ReturnOk,
            TaskOutcome::UploadFailed => NextStep::ReturnUploadError,
            TaskOutcome::JoinFailed => NextStep::ReturnJoinError,
        },
        AttemptEnd::HandoverFailed => match outcome {
            TaskOutcome::JoinFailed => NextStep::RetryAfterWait,
            _ => NextStep::Retry,
        },
        _ => match outcome {
            TaskOutcome::Succeeded => NextStep::Retry,
            TaskOutcome::UploadFailed => NextStep::RetryAfterWait,
            TaskOutcome::JoinFailed => NextStep::ReturnJoinError,
        },
    }
}

/// The model of what the upload loop remembers between attempts.
pub struct UploadMemory {
    /// Whether the attempt begun after a shutdown request has begun.
    pub final_attempt_begun: bool,
    /// The message that the last attempt could not take, if any.
    pub unsent: Option<Seq<u8>>,
}

/// The top of the loop, on the model: `None` to stop, else the message to resend
/// first (if any); and the memory afterwards.
pub open spec fn begin_attempt_spec(m: UploadMemory, shutdown_requested: bool) -> (
    Option<Option<Seq<u8>>>,
    UploadMemory,
) {
    if m.final_attempt_begun {
        (None, m)
    } else {
        (Some(m.unsent), UploadMemory { final_attempt_begun: shutdown_requested, unsent: None })
    }
}

/// Keeping an unsent message, on the model.
pub open spec fn keep_unsent_spec(m: UploadMemory, msg: Seq<u8>) -> UploadMemory {
    UploadMemory { final_attempt_begun: m.final_attempt_begun, unsent: Some(msg) }
}

/// What the upload loop remembers between attempts.
pub struct UploadControl {
    final_attempt_done: bool,
    recovered_msg: Option<Vec<u8>>,
}

impl View for UploadControl {
    type V = UploadMemory;

    closed spec fn view(&self) -> UploadMemory {
        UploadMemory {
            final_attempt_begun: self.final_attempt_done,
            unsent: match self.recovered_msg {
                Some(m) => Some(m@),
                None => None,
            },
        }
    }
}

impl UploadControl {
    pub fn new() -> (c: Self)
        ensures
            c@ == (UploadMemory { final_attempt_begun: false, unsent: None }),
    {
        UploadControl { final_attempt_done: false, recovered_msg: None }
    }

    /// The top of the loop. Once the attempt that followed a shutdown request has
    /// begun, stop; else start an attempt with the message left unsent, and where
    /// shutdown is requested now, mark this attempt as the final one.
    pub fn begin_attempt(&mut self, shutdown_requested: bool) -> (s: AttemptStart)
        ensures
            final(self)@ == begin_attempt_spec(old(self)@, shutdown_requested).1,
            match begin_attempt_spec(old(self)@, shutdown_requested).0 {
                None => s is Stop,
                Some(resend) => s matches AttemptStart::Start(r) && match r {
                    Some(msg) => resend == Some(msg@),
                    None => resend is None,
                },
            },
    {
        if self.final_attempt_done {
            return AttemptStart::Stop;
        }
        if shutdown_requested {
            self.final_attempt_done = true;
        }
        let resend = self.recovered_msg.take();
        AttemptStart::Start(resend)
    }

    /// Keeps a message that the current attempt could not take, to be sent first
    /// by the next attempt.
    pub fn keep_unsent(&mut self, msg: Vec<u8>)
        ensures
            final(self)@ == keep_unsent_spec(old(self)@, msg@),
    {
        self.recovered_msg = Some(msg);
    }
}

/// Once shutdown is requested, exactly one more attempt begins: an attempt begun
/// while shutdown is requested starts, and the next top of the loop stops, whatever
/// happened in between.
pub proof fn law_one_attempt_after_shutdown(m: UploadMemory, kept: Option<Seq<u8>>, later_request: bool)
    requires
        !m.final_attempt_begun,
    ensures
        begin_attempt_spec(m, true).0 is Some,
        ({
            let after = begin_attempt_spec(m, true).1;
            let after_kept = match kept {
                Some(msg) => keep_unsent_spec(after, msg),
                None => after,
            };
            begin_attempt_spec(after_kept, later_request).0 is None
        }),
{
}

/// Without a shutdown request the loop never stops.
pub proof fn law_no_stop_without_shutdown(m: UploadMemory)
    requires
        !m.final_attempt_begun,
    ensures
        begin_attempt_spec(m, false).0 is Some,
        !begin_attempt_spec(m, false).1.final_attempt_begun,
{
}

/// A message that an attempt could not take is handed first to the next attempt,
/// exactly once, unless that attempt would follow the final one.
pub proof fn law_unsent_message_resent(m: UploadMemory, msg: Seq<u8>, shutdown_requested: bool)
    requires
        !m.final_attempt_begun,
    ensures
        begin_attempt_spec(keep_unsent_spec(m, msg), shutdown_requested).0 == Some(Some(msg)),
        begin_attempt_spec(keep_unsent_spec(m, msg), shutdown_requested).1.unsent is None,
{
}

} // verus!
