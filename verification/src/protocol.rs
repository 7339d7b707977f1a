//! The decisions of the streaming session protocol: one JSONL request per
//! line in, one response per line out, at most one session per connection.
//!
//! The connection's state is a `SessionGate`. Each request, and each result
//! of the work the server does for it (opening the session, writing the
//! request to the replay trace), is a `SessionEvent`; `SessionGate::step`
//! says what to do next and how the state moves. The server performs the
//! action and feeds back the next event.

use vstd::prelude::*;
use crate::text::owned;

verus! {

/// Typed protocol error codes, as they appear on the wire.
#[derive(Debug, Clone, Copy, PartialEq, Eq, Structural)]
pub enum ProtocolErrorCode {
    /// `open` while a session is open.
    AlreadyOpen,
    /// A request that needs a session, with none open.
    NoSession,
    /// An event whose cycle is earlier than the last one applied.
    OutOfOrderCycle,
    /// The session could not open its replay trace, or a write to it failed.
    TraceIo,
    /// A request line that is not a request.
    InvalidJson,
}

/// The wire text of an error code.
pub open spec fn code_text(c: ProtocolErrorCode) -> Seq<char> {
    match c {
        ProtocolErrorCode::AlreadyOpen => "already_open"@,
        ProtocolErrorCode::NoSession => "no_session"@,
        ProtocolErrorCode::OutOfOrderCycle => "out_of_order_cycle"@,
        ProtocolErrorCode::TraceIo => "trace_io"@,
        ProtocolErrorCode::InvalidJson => "invalid_json"@,
    }
}

impl ProtocolErrorCode {
    /// The wire text of this code.
    pub fn code(&self) -> (s: String)
        ensures
            s@ == code_text(*self),
    {
        match self {
            ProtocolErrorCode::AlreadyOpen => owned("already_open"),
            ProtocolErrorCode::NoSession => owned("no_session"),
            ProtocolErrorCode::OutOfOrderCycle => owned("out_of_order_cycle"),
            ProtocolErrorCode::TraceIo => owned("trace_io"),
            ProtocolErrorCode::InvalidJson => owned("invalid_json"),
        }
    }
}

/// What happened on the connection.
#[derive(Debug, Clone, Copy, PartialEq, Eq, Structural)]
pub enum SessionEvent {
    /// An `open` request arrived.
    OpenRequested,
    /// The session (and its trace file, if any) was set up.
    Opened,
    /// Setting the session up failed.
    OpenFailed,
    /// An `event` request arrived.
    EventRequested,
    /// The `event` request was written to the trace; its event carries `cycle`.
    EventRecorded { cycle: u64 },
    /// A `metrics` request arrived.
    MetricsRequested,
    /// The `metrics` request was written to the trace.
    MetricsRecorded,
    /// A `close` request arrived.
    CloseRequested,
    /// The `close` request was written to the trace.
    CloseRecorded,
    /// Writing a request to the trace failed.
    RecordFailed,
    /// The input ended (or could not be read).
    InputEnded,
    /// A line that does not parse as a request.
    Unparseable,
}

/// What the server does next.
#[derive(Debug, Clone, Copy, PartialEq, Eq, Structural)]
pub enum SessionAction {
    /// Answer with a typed error; the state is unchanged.
    Reject { code: ProtocolErrorCode, fatal: bool },
    /// Set up the session (cognitive loops, trace file).
    StartSession,
    /// Answer `opened`.
    ReportOpened,
    /// Write the request to the session's trace.
    RecordRequest,
    /// Run the event (at `cycle`) through the loop and answer with the
    /// recommendation.
    ApplyEvent { cycle: u64 },
    /// Answer with a metrics snapshot.
    ReportMetrics,
    /// Answer `closed` with the final report; the session is dropped.
    ReportClosed,
    /// Best-effort close marker in the trace, then answer `closed` as
    /// unclean; the session is dropped.
    ReportUncleanClose,
    /// Nothing to do.
    Nothing,
}

/// The connection's state: whether a session is open, and the cycle of the
/// last event it applied.
#[derive(Debug, Clone, Copy, PartialEq, Eq, Structural)]
pub struct SessionGate {
    pub open: bool,
    pub last_cycle: Option<u64>,
}

/// The reaction to one event: the next state and the action.
pub open spec fn gate_step(g: SessionGate, e: SessionEvent) -> (SessionGate, SessionAction) {
    let no_session = SessionAction::Reject { code: ProtocolErrorCode::NoSession, fatal: false };
    match e {
        SessionEvent::OpenRequested => if g.open {
            (g, SessionAction::Reject { code: ProtocolErrorCode::AlreadyOpen, fatal: false })
        } else {
            (g, SessionAction::StartSession)
        },
        SessionEvent::Opened => if g.open {
            (g, SessionAction::Reject { code: ProtocolErrorCode::AlreadyOpen, fatal: false })
        } else {
            (SessionGate { open: true, last_cycle: None }, SessionAction::ReportOpened)
        },
        SessionEvent::OpenFailed => (g, SessionAction::Reject { code: ProtocolErrorCode::TraceIo, fatal: true }),
        SessionEvent::EventRequested | SessionEvent::MetricsRequested | SessionEvent::CloseRequested => if g.open {
            (g, SessionAction::RecordRequest)
        } else {
            (g, no_session)
        },
        SessionEvent::EventRecorded { cycle } => if !g.open {
            (g, no_session)
        } else if g.last_cycle matches Some(last) && cycle < last {
            (g, SessionAction::Reject { code: ProtocolErrorCode::OutOfOrderCycle, fatal: false })
        } else {
            (SessionGate { open: true, last_cycle: Some(cycle) }, SessionAction::ApplyEvent { cycle })
        },
        SessionEvent::MetricsRecorded => if g.open {
            (g, SessionAction::ReportMetrics)
        } else {
            (g, no_session)
        },
        SessionEvent::CloseRecorded => if g.open {
            (SessionGate { open: false, last_cycle: None }, SessionAction::ReportClosed)
        } else {
            (g, no_session)
        },
        SessionEvent::RecordFailed => (g, SessionAction::Reject { code: ProtocolErrorCode::TraceIo, fatal: true }),
        SessionEvent::InputEnded => if g.open {
            (SessionGate { open: false, last_cycle: None }, SessionAction::ReportUncleanClose)
        } else {
            (g, SessionAction::Nothing)
        },
        SessionEvent::Unparseable => (g, SessionAction::Reject { code: ProtocolErrorCode::InvalidJson, fatal: false }),
    }
}

impl SessionGate {
    /// A connection with no session.
    pub fn new() -> (g: Self)
        ensures
            !g.open,
            g.last_cycle is None,
    {
        SessionGate { open: false, last_cycle: None }
    }

    /// React to `e`: move to the next state and say what to do.
    pub fn step(&mut self, e: SessionEvent) -> (a: SessionAction)
        ensures
            (*final(self), a) == gate_step(*old(self), e),
    {
        match e {
            SessionEvent::OpenRequested => if self.open {
                SessionAction::Reject { code: ProtocolErrorCode::AlreadyOpen, fatal: false }
            } else {
                SessionAction::StartSession
            },
            SessionEvent::Opened => if self.open {
                SessionAction::Reject { code: ProtocolErrorCode::AlreadyOpen, fatal: false }
            } else {
                self.open = true;
                self.last_cycle = None;
                SessionAction::ReportOpened
            },
            SessionEvent::OpenFailed => SessionAction::Reject { code: ProtocolErrorCode::TraceIo, fatal: true },
            SessionEvent::EventRequested | SessionEvent::MetricsRequested | SessionEvent::CloseRequested => if self.open {
                SessionAction::RecordRequest
            } else {
                SessionAction::Reject { code: ProtocolErrorCode::NoSession, fatal: false }
            },
            SessionEvent::EventRecorded { cycle } => if !self.open {
                SessionAction::Reject { code: ProtocolErrorCode::NoSession, fatal: false }
            } else {
                let out_of_order = match self.last_cycle {
                    Some(last) => cycle < last,
                    None => false,
                };
                if out_of_order {
                    SessionAction::Reject { code: ProtocolErrorCode::OutOfOrderCycle, fatal: false }
                } else {
                    self.last_cycle = Some(cycle);
                    SessionAction::ApplyEvent { cycle }
                }
            },
            SessionEvent::MetricsRecorded => if self.open {
                SessionAction::ReportMetrics
            } else {
                SessionAction::Reject { code: ProtocolErrorCode::NoSession, fatal: false }
            },
            SessionEvent::CloseRecorded => if self.open {
                self.open = false;
                self.last_cycle = None;
                SessionAction::ReportClosed
            } else {
                SessionAction::Reject { code: ProtocolErrorCode::NoSession, fatal: false }
            },
            SessionEvent::RecordFailed => SessionAction::Reject { code: ProtocolErrorCode::TraceIo, fatal: true },
            SessionEvent::InputEnded => if self.open {
                self.open = false;
                self.last_cycle = None;
                SessionAction::ReportUncleanClose
            } else {
                SessionAction::Nothing
            },
            SessionEvent::Unparseable => SessionAction::Reject { code: ProtocolErrorCode::InvalidJson, fatal: false },
        }
    }
}

/// Feed `evs` in turn, from `g`: the final state and the actions taken.
pub open spec fn gate_run(g: SessionGate, evs: Seq<SessionEvent>) -> (SessionGate, Seq<SessionAction>)
    decreases evs.len(),
{
    if evs.len() == 0 {
        (g, Seq::empty())
    } else {
        let (g1, a) = gate_step(g, evs[0]);
        let (last, rest) = gate_run(g1, evs.drop_first());
        (last, seq![a] + rest)
    }
}

/// The cycles of the events applied, in order.
pub open spec fn applied_cycles(actions: Seq<SessionAction>) -> Seq<u64>
    decreases actions.len(),
{
    if actions.len() == 0 {
        Seq::empty()
    } else {
        let rest = applied_cycles(actions.drop_first());
        match actions[0] {
            SessionAction::ApplyEvent { cycle } => seq![cycle] + rest,
            _ => rest,
        }
    }
}

/// The event ends the session.
pub open spec fn ends_session(e: SessionEvent) -> bool {
    e is CloseRecorded || e is InputEnded
}

/// A refused request changes nothing: whenever the answer is a typed
/// error, the connection's state is as it was.
pub proof fn law_a_refusal_changes_nothing(g: SessionGate, e: SessionEvent)
    ensures
        gate_step(g, e).1 is Reject ==> gate_step(g, e).0 == g,
{
}

/// One session at a time: while a session is open, `open` is refused and no
/// second session is started.
pub proof fn law_one_session_at_a_time(g: SessionGate, e: SessionEvent)
    requires
        g.open,
    ensures
        e is OpenRequested ==> gate_step(g, e).1 == (SessionAction::Reject {
            code: ProtocolErrorCode::AlreadyOpen,
            fatal: false,
        }),
        gate_step(g, e).1 != SessionAction::StartSession,
{
}

/// Without a session nothing is applied, measured or closed.
pub proof fn law_events_need_a_session(g: SessionGate, e: SessionEvent)
    requires
        !g.open,
    ensures
        !(gate_step(g, e).1 is ApplyEvent),
        !(gate_step(g, e).1 is ReportMetrics),
        !(gate_step(g, e).1 is ReportClosed),
{
}

/// Within one session, cycles never go back: the events applied are in
/// non-decreasing cycle order, none earlier than the last one the session
/// had applied before.
pub proof fn law_applied_cycles_never_go_back(g: SessionGate, evs: Seq<SessionEvent>)
    requires
        forall|i: int| 0 <= i < evs.len() ==> !ends_session(#[trigger] evs[i]),
    ensures
        ({
            let cycles = applied_cycles(gate_run(g, evs).1);
            &&& forall|a: int, b: int| 0 <= a < b < cycles.len() ==> cycles[a] <= cycles[b]
            &&& forall|a: int|
                0 <= a < cycles.len() && g.open && g.last_cycle is Some ==> g.last_cycle->0 <= #[trigger] cycles[a]
        }),
    decreases evs.len(),
{
    if evs.len() > 0 {
        let (g1, a0) = gate_step(g, evs[0]);
        let rest = evs.drop_first();
        assert forall|i: int| 0 <= i < rest.len() implies !ends_session(#[trigger] rest[i]) by {
            assert(rest[i] == evs[i + 1]);
        }
        law_applied_cycles_never_go_back(g1, rest);
        let tail = gate_run(g1, rest).1;
        assert(gate_run(g, evs).1 == seq![a0] + tail);
        assert((seq![a0] + tail).drop_first() =~= tail);
        assert((seq![a0] + tail)[0] == a0);
        let cycles = applied_cycles(seq![a0] + tail);
        let later = applied_cycles(tail);
        match a0 {
            SessionAction::ApplyEvent { cycle } => {
                assert(cycles == seq![cycle] + later);
                assert(g1.open && g1.last_cycle == Some(cycle));
                assert forall|a: int, b: int| 0 <= a < b < cycles.len() implies cycles[a] <= cycles[b] by {
                    if a > 0 {
                        assert(cycles[a] == later[a - 1]);
                    }
                    assert(cycles[b] == later[b - 1]);
                }
            },
            _ => {
                assert(cycles == later);
                assert(g.open ==> g1 == g);
            },
        }
    }
}

} // verus!
