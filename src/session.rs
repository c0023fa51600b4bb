//! The decisions of one request/response exchange: which transport step comes
//! next, and how every exit path after the channel opens goes through teardown.
use vstd::prelude::*;
use crate::error::Error;
use crate::framing::{frame_request, framed};
use vstd::string::StringSliceAdditionalSpecFns;

verus! {

/// Where an exchange stands: the step whose outcome it waits for.
#[derive(Clone, Copy, Debug, PartialEq, Eq, Structural)]
pub enum Phase {
    Connecting,
    Authenticating,
    OpeningChannel,
    RequestingSubsystem,
    ReadingGreeting,
    SendingRequest,
    ReadingReply,
    SendingEof,
    WaitingEof,
    Closing,
    WaitingClose,
    Finished,
}

/// What the transport reports of the step it was last asked to take.
#[derive(Clone, Debug, PartialEq)]
pub enum Outcome {
    /// The step succeeded.
    Done,
    /// The step failed; a read reports `IncompleteFrame` where the stream ended early.
    Failed(Error),
    /// A message was read in full, marker included.
    Received(Vec<u8>),
}

/// The transport step to take next.
#[derive(Debug, PartialEq)]
pub enum Action {
    /// Open the TCP connection and the secure-channel handshake.
    Connect,
    /// Authenticate with the username and password.
    Authenticate,
    /// Open a command channel.
    OpenChannel,
    /// Request the management subsystem on the channel.
    RequestSubsystem,
    /// Read one message, up to a marker.
    ReadMessage,
    /// Write these bytes on the channel.
    Write(Vec<u8>),
    /// Signal end-of-stream.
    SendEof,
    /// Wait for the remote end-of-stream.
    WaitEof,
    /// Close the channel.
    Close,
    /// Wait for the channel to close.
    WaitClose,
    /// The exchange is over: the raw reply, or the first failure.
    Finish(Result<Vec<u8>, Error>),
}

/// One request/response exchange.
pub struct Session {
    /// The step whose outcome is awaited.
    pub phase: Phase,
    /// The bytes to write once the remote greeting is read.
    pub request: Vec<u8>,
    /// The reply, once read.
    pub reply: Vec<u8>,
    /// The first failure, if any.
    pub failure: Option<Error>,
}

/// Whether the command channel exists in this phase, so that leaving
/// requires the teardown steps.
pub open spec fn channel_open(p: Phase) -> bool {
    match p {
        Phase::RequestingSubsystem | Phase::ReadingGreeting | Phase::SendingRequest
        | Phase::ReadingReply => true,
        _ => false,
    }
}

/// Whether the phase is a teardown step.
pub open spec fn tearing_down(p: Phase) -> bool {
    match p {
        Phase::SendingEof | Phase::WaitingEof | Phase::Closing | Phase::WaitingClose => true,
        _ => false,
    }
}

/// The phase that follows `p` once its step succeeded (`!failed`) or failed.
pub open spec fn next_phase(p: Phase, failed: bool) -> Phase {
    match p {
        Phase::Connecting => if failed { Phase::Finished } else { Phase::Authenticating },
        Phase::Authenticating => if failed { Phase::Finished } else { Phase::OpeningChannel },
        Phase::OpeningChannel => if failed { Phase::Finished } else { Phase::RequestingSubsystem },
        Phase::RequestingSubsystem => if failed { Phase::SendingEof } else { Phase::ReadingGreeting },
        Phase::ReadingGreeting => if failed { Phase::SendingEof } else { Phase::SendingRequest },
        Phase::SendingRequest => if failed { Phase::SendingEof } else { Phase::ReadingReply },
        Phase::ReadingReply => Phase::SendingEof,
        Phase::SendingEof => Phase::WaitingEof,
        Phase::WaitingEof => Phase::Closing,
        Phase::Closing => Phase::WaitingClose,
        Phase::WaitingClose => Phase::Finished,
        Phase::Finished => Phase::Finished,
    }
}

/// The error that a failed step in phase `p` stands for. A read keeps
/// `IncompleteFrame`; any other failure on the channel is `Channel`.
pub open spec fn phase_error(p: Phase, reported: Error) -> Error {
    match p {
        Phase::Connecting => Error::Connection,
        Phase::Authenticating => Error::Authentication,
        Phase::ReadingGreeting | Phase::ReadingReply => if reported == Error::IncompleteFrame {
            Error::IncompleteFrame
        } else {
            Error::Channel
        },
        _ => Error::Channel,
    }
}

pub open spec fn failed(o: Outcome) -> bool {
    o is Failed
}

/// The failures recorded after an outcome `o` in phase `p`: the first one is kept.
pub open spec fn next_failure(p: Phase, f: Option<Error>, o: Outcome) -> Option<Error> {
    match f {
        Some(e) => Some(e),
        None => match o {
            Outcome::Failed(e) => if p == Phase::Finished {
                None
            } else {
                Some(phase_error(p, e))
            },
            _ => None,
        },
    }
}

/// Whether `a` is the step that session `s` asks for in its phase.
pub open spec fn action_for(s: Session, a: Action) -> bool {
    match s.phase {
        Phase::Connecting => a is Connect,
        Phase::Authenticating => a is Authenticate,
        Phase::OpeningChannel => a is OpenChannel,
        Phase::RequestingSubsystem => a is RequestSubsystem,
        Phase::ReadingGreeting | Phase::ReadingReply => a is ReadMessage,
        Phase::SendingRequest => a matches Action::Write(b) && b@ == s.request@,
        Phase::SendingEof => a is SendEof,
        Phase::WaitingEof => a is WaitEof,
        Phase::Closing => a is Close,
        Phase::WaitingClose => a is WaitClose,
        Phase::Finished => match s.failure {
            Some(e) => a matches Action::Finish(r) && r matches Err(e2) && e2 == e,
            None => a matches Action::Finish(r) && r matches Ok(b) && b@ == s.reply@,
        },
    }
}

/// Once the channel is open, no outcome ends the exchange directly: each
/// step leads to another step on the open channel or to the first teardown
/// step, and the teardown steps run in order to the end whatever they report.
pub proof fn lemma_channel_never_leaked(p: Phase, failed: bool)
    ensures
        channel_open(p) ==> channel_open(next_phase(p, failed)) || next_phase(p, failed)
            == Phase::SendingEof,
        tearing_down(p) ==> tearing_down(next_phase(p, failed)) || (p == Phase::WaitingClose
            && next_phase(p, failed) == Phase::Finished),
        next_phase(p, failed) == Phase::Finished ==> !channel_open(p),
{
}

/// Session `t` and step `a` are what `step` makes of session `s` and outcome `o`.
pub open spec fn stepped(s: Session, o: Outcome, t: Session, a: Action) -> bool {
    &&& t.phase == next_phase(s.phase, failed(o))
    &&& t.failure == next_failure(s.phase, s.failure, o)
    &&& t.request == s.request
    &&& t.reply@ == (match o {
        Outcome::Received(b) => if s.phase == Phase::ReadingReply {
            b@
        } else {
            s.reply@
        },
        _ => s.reply@,
    })
    &&& action_for(t, a)
}

/// A write that fails right after a successful handshake is followed by the
/// whole close sequence (end-of-stream, its acknowledgment, close, wait for
/// close) in that order, whatever those steps report; no reply is read, and
/// the exchange then ends with the channel error.
pub proof fn lemma_failed_write_closes_channel(
    s: Session,
    e: Error,
    s1: Session,
    a1: Action,
    o2: Outcome,
    s2: Session,
    a2: Action,
    o3: Outcome,
    s3: Session,
    a3: Action,
    o4: Outcome,
    s4: Session,
    a4: Action,
    o5: Outcome,
    s5: Session,
    a5: Action,
)
    requires
        s.phase == Phase::SendingRequest,
        s.failure is None,
        stepped(s, Outcome::Failed(e), s1, a1),
        stepped(s1, o2, s2, a2),
        stepped(s2, o3, s3, a3),
        stepped(s3, o4, s4, a4),
        stepped(s4, o5, s5, a5),
    ensures
        a1 is SendEof,
        a2 is WaitEof,
        a3 is Close,
        a4 is WaitClose,
        a5 matches Action::Finish(r) && r matches Err(err) && err == Error::Channel,
{
}

impl Session {
    /// A session that will send `body` as its request; the first step is `Connect`.
    pub fn new(body: &str) -> (r: (Session, Action))
        ensures
            r.0.phase == Phase::Connecting,
            r.0.request@ == framed(body.spec_bytes()),
            r.0.reply@ == Seq::<u8>::empty(),
            r.0.failure is None,
            action_for(r.0, r.1),
    {
        let s = Session {
            phase: Phase::Connecting,
            request: frame_request(body),
            reply: Vec::new(),
            failure: None,
        };
        (s, Action::Connect)
    }

    /// The step this session asks for in its phase.
    pub fn action(&self) -> (a: Action)
        ensures
            action_for(*self, a),
    {
        match self.phase {
            Phase::Connecting => Action::Connect,
            Phase::Authenticating => Action::Authenticate,
            Phase::OpeningChannel => Action::OpenChannel,
            Phase::RequestingSubsystem => Action::RequestSubsystem,
            Phase::ReadingGreeting => Action::ReadMessage,
            Phase::SendingRequest => Action::Write(self.request.clone()),
            Phase::ReadingReply => Action::ReadMessage,
            Phase::SendingEof => Action::SendEof,
            Phase::WaitingEof => Action::WaitEof,
            Phase::Closing => Action::Close,
            Phase::WaitingClose => Action::WaitClose,
            Phase::Finished => match self.failure {
                Some(e) => Action::Finish(Err(e)),
                None => Action::Finish(Ok(self.reply.clone())),
            },
        }
    }

    /// Takes the outcome of the step last asked for and gives the next step.
    /// The reply is the message read in `ReadingReply`; the remote greeting
    /// read in `ReadingGreeting` is discarded.
    pub fn step(&mut self, o: Outcome) -> (a: Action)
        ensures
            stepped(*old(self), o, *final(self), a),
    {
        let p = self.phase;
        let is_failure = match &o {
            Outcome::Failed(_) => true,
            _ => false,
        };
        match o {
            Outcome::Failed(e) => {
                if self.failure.is_none() && p != Phase::Finished {
                    let kind = match p {
                        Phase::Connecting => Error::Connection,
                        Phase::Authenticating => Error::Authentication,
                        Phase::ReadingGreeting | Phase::ReadingReply => if e == Error::IncompleteFrame {
                            Error::IncompleteFrame
                        } else {
                            Error::Channel
                        },
                        _ => Error::Channel,
                    };
                    self.failure = Some(kind);
                }
            },
            Outcome::Received(b) => {
                if p == Phase::ReadingReply {
                    self.reply = b;
                }
            },
            Outcome::Done => {},
        }
        self.phase = match p {
            Phase::Connecting => if is_failure { Phase::Finished } else { Phase::Authenticating },
            Phase::Authenticating => if is_failure { Phase::Finished } else { Phase::OpeningChannel },
            Phase::OpeningChannel => if is_failure {
                Phase::Finished
            } else {
                Phase::RequestingSubsystem
            },
            Phase::RequestingSubsystem => if is_failure {
                Phase::SendingEof
            } else {
                Phase::ReadingGreeting
            },
            Phase::ReadingGreeting => if is_failure { Phase::SendingEof } else { Phase::SendingRequest },
            Phase::SendingRequest => if is_failure { Phase::SendingEof } else { Phase::ReadingReply },
            Phase::ReadingReply => Phase::SendingEof,
            Phase::SendingEof => Phase::WaitingEof,
            Phase::WaitingEof => Phase::Closing,
            Phase::Closing => Phase::WaitingClose,
            Phase::WaitingClose => Phase::Finished,
            Phase::Finished => Phase::Finished,
        };
        self.action()
    }
}

} // verus!
