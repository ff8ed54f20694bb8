//! One session, from the first byte of the inbound stream to the close of
//! both ends: the header is read, the destination is dialed, and the relay
//! takes over. The session is a state machine; the host feeds it events and
//! carries out the commands it answers with.

use crate::config::Config;
use crate::config::InboundVariant;
use crate::dial::classify_failure;
use crate::dial::classify_spec;
use crate::dial::DialError;
use crate::dial::DialPolicy;
use crate::event::closes;
use crate::event::delivered;
use crate::event::dialed;
use crate::event::lemma_dialed_concat;
use crate::event::lemma_up_to_two;
use crate::event::delivery;
use crate::event::lemma_closes_concat;
use crate::event::lemma_written_concat;
use crate::event::views;
use crate::event::written;
use crate::event::Command;
use crate::event::CommandView;
use crate::event::Direction;
use crate::event::Event;
use crate::event::EventView;
use crate::event::Outcome;
use crate::event::RelayResult;
use crate::header::lemma_accepted_fits;
use crate::header::lemma_verdict_is_final;
use crate::header::lemma_wrong_credential_is_refused;
use crate::header::parse_spec;
use crate::header::Destination;
use crate::header::DestinationView;
use crate::header::HeaderCodec;
use crate::header::Parsed;
use crate::header::Progress;
use crate::header::ProtocolError;
use crate::relay::Relay;
use vstd::prelude::*;

verus! {

/// How far a session has come.
#[derive(Clone, Copy, Debug, PartialEq, Eq, Structural)]
pub enum Phase {
    /// The header has not ended yet; a read on the inbound stream is under
    /// way.
    AwaitingHeader,
    /// The header is accepted and the outbound connection is being opened.
    Dialing,
    /// The relay runs.
    Relaying,
    /// The session is over.
    Closed,
}

/// Mathematical value of a [`SessionContext`].
pub ghost struct SessionState {
    /// The inbound variant that the request was dispatched to.
    pub inbound: InboundVariant,
    /// The credential that the header must carry.
    pub credential: Seq<u8>,
    /// The destinations that may be dialed.
    pub policy: DialPolicy,
    pub phase: Phase,
    /// The bytes of a header that has not ended yet.
    pub buffered: Seq<u8>,
    /// The bytes that came in behind the header and wait for the relay.
    pub pending: Seq<u8>,
    /// The destination that the header named.
    pub destination: Option<DestinationView>,
    /// The relay, once it has started.
    pub relay: Option<Relay>,
    /// How the session ended, once it has.
    pub outcome: Option<Outcome>,
}

impl SessionState {
    /// The state in which a session starts.
    pub open spec fn fresh(
        inbound: InboundVariant,
        credential: Seq<u8>,
        policy: DialPolicy,
    ) -> SessionState {
        SessionState {
            inbound,
            credential,
            policy,
            phase: Phase::AwaitingHeader,
            buffered: Seq::empty(),
            pending: Seq::empty(),
            destination: None,
            relay: None,
            outcome: None,
        }
    }

    /// What holds of every state that a session reaches.
    pub open spec fn wf(self) -> bool {
        match self.phase {
            Phase::AwaitingHeader => {
                &&& parse_spec(self.buffered, self.credential) is Incomplete
                &&& self.pending.len() == 0
                &&& self.destination is None
                &&& self.relay is None
                &&& self.outcome is None
            },
            Phase::Dialing => {
                &&& self.buffered.len() == 0
                &&& self.destination matches Some(d) && self.policy.allows(d)
                &&& self.relay is None
                &&& self.outcome is None
            },
            Phase::Relaying => {
                &&& self.buffered.len() == 0
                &&& self.pending.len() == 0
                &&& self.destination matches Some(d) && self.policy.allows(d)
                &&& self.relay matches Some(r) && r.wf() && !r.closed()
                &&& self.outcome is None
            },
            Phase::Closed => {
                &&& self.buffered.len() == 0
                &&& self.pending.len() == 0
                &&& self.outcome is Some
                &&& self.relay matches Some(r) ==> r.wf() && r.closed() && self.outcome == Some(
                    Outcome::Relay(r.result->0),
                ) && self.destination is Some
            },
        }
    }

    /// A read in direction `d` is under way.
    pub open spec fn awaits(self, d: Direction) -> bool {
        match self.phase {
            Phase::AwaitingHeader => d == Direction::Upstream,
            Phase::Dialing => false,
            Phase::Relaying => self.relay matches Some(r) && r.awaits(d),
            Phase::Closed => false,
        }
    }

    /// The session ends with `outcome`: nothing is held back any longer, and
    /// the host is told to close.
    pub open spec fn end_spec(self, outcome: Outcome) -> (SessionState, Seq<CommandView>) {
        (
            SessionState {
                phase: Phase::Closed,
                buffered: Seq::empty(),
                pending: Seq::empty(),
                outcome: Some(outcome),
                ..self
            },
            seq![CommandView::Close(outcome)],
        )
    }

    /// A step while the header is awaited. Chunks of the inbound stream go
    /// to the codec; its verdict decides between reading on, dialing and
    /// ending. A stream that ends first leaves a truncated header.
    pub open spec fn header_step(self, event: EventView) -> (SessionState, Seq<CommandView>) {
        match event {
            EventView::Chunk(Direction::Upstream, bytes) => match parse_spec(
                self.buffered + bytes,
                self.credential,
            ) {
                Parsed::Incomplete => (
                    SessionState { buffered: self.buffered + bytes, ..self },
                    seq![CommandView::Read(Direction::Upstream)],
                ),
                Parsed::Rejected(e) => self.end_spec(
                    Outcome::Relay(RelayResult::ProtocolError(e)),
                ),
                Parsed::Accepted { destination, consumed } => if self.policy.allows(destination) {
                    (
                        SessionState {
                            phase: Phase::Dialing,
                            buffered: Seq::empty(),
                            pending: (self.buffered + bytes).skip(consumed as int),
                            destination: Some(destination),
                            ..self
                        },
                        seq![CommandView::Dial(destination)],
                    )
                } else {
                    (SessionState { destination: Some(destination), ..self }).end_spec(
                        Outcome::Dial(DialError::Forbidden),
                    )
                },
            },
            EventView::EndOfStream(Direction::Upstream) => self.end_spec(
                Outcome::Relay(RelayResult::ProtocolError(ProtocolError::MalformedAddress)),
            ),
            EventView::ReadFailed(Direction::Upstream, kind) => self.end_spec(
                Outcome::Relay(RelayResult::IoError(kind)),
            ),
            EventView::Cancelled => self.end_spec(Outcome::Relay(RelayResult::ClosedCleanly)),
            _ => (self, Seq::empty()),
        }
    }

    /// A step while the outbound connection is being opened. Success starts
    /// the relay; failure ends the session, and nothing is tried again.
    pub open spec fn dial_step(self, event: EventView) -> (SessionState, Seq<CommandView>) {
        match event {
            EventView::DialSucceeded => (
                SessionState {
                    phase: Phase::Relaying,
                    pending: Seq::empty(),
                    relay: Some(Relay::start_spec(self.pending).0),
                    ..self
                },
                Relay::start_spec(self.pending).1,
            ),
            EventView::DialFailed(failure) => self.end_spec(Outcome::Dial(classify_spec(failure))),
            EventView::Cancelled => self.end_spec(Outcome::Relay(RelayResult::ClosedCleanly)),
            _ => (self, Seq::empty()),
        }
    }

    /// A step while the relay runs: the relay decides, and the session ends
    /// when the relay does.
    pub open spec fn relay_step(self, event: EventView) -> (SessionState, Seq<CommandView>) {
        match self.relay {
            Some(relay) => {
                let (next, commands) = relay.step_spec(event);
                (
                    if next.closed() {
                        SessionState {
                            phase: Phase::Closed,
                            relay: Some(next),
                            outcome: Some(Outcome::Relay(next.result->0)),
                            ..self
                        }
                    } else {
                        SessionState { relay: Some(next), ..self }
                    },
                    commands,
                )
            },
            None => (self, Seq::empty()),
        }
    }

    /// The state that follows `self` on `event`, and what the host is to do.
    pub open spec fn step_spec(self, event: EventView) -> (SessionState, Seq<CommandView>) {
        match self.phase {
            Phase::AwaitingHeader => self.header_step(event),
            Phase::Dialing => self.dial_step(event),
            Phase::Relaying => self.relay_step(event),
            Phase::Closed => (self, Seq::empty()),
        }
    }

    /// The state in which a session starts, and what the host is to do
    /// first: read from the inbound stream.
    pub open spec fn open_spec(
        inbound: InboundVariant,
        credential: Seq<u8>,
        policy: DialPolicy,
    ) -> (SessionState, Seq<CommandView>) {
        (
            SessionState::fresh(inbound, credential, policy),
            seq![CommandView::Read(Direction::Upstream)],
        )
    }

    /// The state after `events`, one after the other, and all that the host
    /// was told to do on the way.
    pub open spec fn run(self, events: Seq<EventView>) -> (SessionState, Seq<CommandView>)
        decreases events.len(),
    {
        if events.len() == 0 {
            (self, Seq::empty())
        } else {
            let (next, first) = self.step_spec(events[0]);
            let (last, rest) = next.run(events.drop_first());
            (last, first + rest)
        }
    }

    /// Every chunk among `events` answers a read.
    pub open spec fn reads_answered(self, events: Seq<EventView>) -> bool
        decreases events.len(),
    {
        events.len() == 0 || {
            &&& events[0] matches EventView::Chunk(d, _) ==> self.awaits(d)
            &&& self.step_spec(events[0]).0.reads_answered(events.drop_first())
        }
    }

    /// The host was told to dial: a header was accepted and the policy did
    /// not forbid its destination.
    pub open spec fn has_dialed(self) -> bool {
        self.destination is Some && self.outcome != Some(Outcome::Dial(DialError::Forbidden))
    }

    /// The state accounts for what went before: `stream` is all that was
    /// read from the inbound side so far, `commands` all that the host was
    /// told to do.
    ///
    /// A destination is on record only if the stream begins with a header
    /// that names it, and is dialed only then, once. Of the stream, what
    /// follows the header is either held back until the outbound connection
    /// stands or has been written to it, byte for byte and in order; and
    /// nothing is written to it unless the relay has started.
    pub open spec fn accounts_for(self, stream: Seq<u8>, commands: Seq<CommandView>) -> bool {
        let sent = written(Direction::Upstream, commands);
        &&& self.destination matches Some(d) ==> parse_spec(stream, self.credential)
            matches Parsed::Accepted { destination, .. } && destination == d
        &&& dialed(commands) == (if self.has_dialed() {
            seq![self.destination->0]
        } else {
            Seq::empty()
        })
        &&& match self.phase {
            Phase::AwaitingHeader => self.buffered == stream && sent.len() == 0,
            Phase::Dialing => sent.len() == 0 && self.pending == after_header(
                stream,
                self.credential,
            ),
            Phase::Relaying => sent == after_header(stream, self.credential),
            Phase::Closed => if self.relay is Some {
                sent == after_header(stream, self.credential)
            } else {
                sent.len() == 0
            },
        }
    }
}

/// What follows the header in `stream`; nothing, where the stream does not
/// begin with an accepted header.
pub open spec fn after_header(stream: Seq<u8>, credential: Seq<u8>) -> Seq<u8> {
    match parse_spec(stream, credential) {
        Parsed::Accepted { consumed, .. } => stream.skip(consumed as int),
        _ => Seq::empty(),
    }
}

/// The state of one session. It is made when a request has been dispatched
/// to an inbound variant, and it is never shared between connections.
pub struct SessionContext {
    inbound: InboundVariant,
    policy: DialPolicy,
    phase: Phase,
    codec: HeaderCodec,
    pending: Vec<u8>,
    destination: Option<Destination>,
    relay: Option<Relay>,
    outcome: Option<Outcome>,
}

impl View for SessionContext {
    type V = SessionState;

    closed spec fn view(&self) -> SessionState {
        SessionState {
            inbound: self.inbound,
            credential: self.codec.credential(),
            policy: self.policy,
            phase: self.phase,
            buffered: self.codec.buffered(),
            pending: self.pending@,
            destination: match self.destination {
                Some(d) => Some(d@),
                None => None,
            },
            relay: self.relay,
            outcome: self.outcome,
        }
    }
}

impl SessionContext {
    /// Opens a session for a request that was dispatched to `inbound`. The
    /// first thing the host is to do is read from the inbound stream.
    pub fn open(config: &Config, inbound: InboundVariant) -> (opened: (SessionContext, Vec<Command>))
        ensures
            opened.0@.wf(),
            (opened.0@, views(opened.1@)) == SessionState::open_spec(
                inbound,
                config.credential@,
                config.policy,
            ),
    {
        let codec = HeaderCodec::new(config.credential_for(inbound));
        let session = SessionContext {
            inbound,
            policy: config.policy,
            phase: Phase::AwaitingHeader,
            codec,
            pending: Vec::new(),
            destination: None,
            relay: None,
            outcome: None,
        };
        let mut commands: Vec<Command> = Vec::new();
        commands.push(Command::Read(Direction::Upstream));
        proof {
            assert(views(commands@) =~= seq![CommandView::Read(Direction::Upstream)]);
            assert(session@.buffered =~= Seq::<u8>::empty());
            assert(session@.pending =~= Seq::<u8>::empty());
        }
        (session, commands)
    }

    /// Takes one event from the host and says what is to be done next.
    pub fn step(&mut self, event: Event) -> (commands: Vec<Command>)
        requires
            old(self)@.wf(),
        ensures
            final(self)@.wf(),
            (final(self)@, views(commands@)) == old(self)@.step_spec(event@),
    {
        proof {
            lemma_step_keeps_wf(self@, event@);
        }
        match self.phase {
            Phase::AwaitingHeader => self.on_header(event),
            Phase::Dialing => self.on_dial(event),
            Phase::Relaying => self.on_relay(event),
            Phase::Closed => {
                let commands: Vec<Command> = Vec::new();
                assert(views(commands@) =~= Seq::<CommandView>::empty());
                commands
            },
        }
    }

    /// The inbound variant that the request was dispatched to.
    pub fn inbound(&self) -> (inbound: InboundVariant)
        ensures
            inbound == self@.inbound,
    {
        self.inbound
    }

    /// How far the session has come.
    pub fn phase(&self) -> (phase: Phase)
        ensures
            phase == self@.phase,
    {
        self.phase
    }

    /// The destination that the header named, once a header was accepted.
    pub fn destination(&self) -> (destination: Option<Destination>)
        ensures
            match destination {
                Some(d) => self@.destination == Some(d@),
                None => self@.destination is None,
            },
    {
        match &self.destination {
            Some(d) => Some(d.duplicate()),
            None => None,
        }
    }

    /// How the session ended, once it has.
    pub fn outcome(&self) -> (outcome: Option<Outcome>)
        ensures
            outcome == self@.outcome,
    {
        self.outcome
    }

    /// Whether the session is over.
    pub fn is_closed(&self) -> (closed: bool)
        ensures
            closed == (self@.phase == Phase::Closed),
    {
        match self.phase {
            Phase::Closed => true,
            _ => false,
        }
    }

    /// Bytes handed over for writing to the inbound stream so far.
    pub fn bytes_in(&self) -> (count: u64)
        ensures
            count == match self@.relay {
                Some(r) => r.bytes_in,
                None => 0,
            },
    {
        match self.relay {
            Some(r) => r.bytes_in,
            None => 0,
        }
    }

    /// Bytes handed over for writing to the outbound connection so far.
    pub fn bytes_out(&self) -> (count: u64)
        ensures
            count == match self@.relay {
                Some(r) => r.bytes_out,
                None => 0,
            },
    {
        match self.relay {
            Some(r) => r.bytes_out,
            None => 0,
        }
    }

    fn end(&mut self, outcome: Outcome, commands: &mut Vec<Command>)
        requires
            old(commands)@.len() == 0,
        ensures
            (final(self)@, views(final(commands)@)) == old(self)@.end_spec(outcome),
    {
        self.codec.clear();
        self.pending = Vec::new();
        self.phase = Phase::Closed;
        self.outcome = Some(outcome);
        commands.push(Command::Close(outcome));
        proof {
            assert(views(commands@) =~= seq![CommandView::Close(outcome)]);
            assert(self@.pending =~= Seq::<u8>::empty());
        }
    }

    fn on_header(&mut self, event: Event) -> (commands: Vec<Command>)
        requires
            old(self)@.wf(),
            old(self)@.phase == Phase::AwaitingHeader,
        ensures
            (final(self)@, views(commands@)) == old(self)@.header_step(event@),
    {
        let mut commands: Vec<Command> = Vec::new();
        assert(views(commands@) =~= Seq::<CommandView>::empty());
        match event {
            Event::Chunk(Direction::Upstream, bytes) => {
                match self.codec.push(bytes.as_slice()) {
                    Progress::NeedMore => {
                        commands.push(Command::Read(Direction::Upstream));
                        assert(views(commands@) =~= seq![CommandView::Read(Direction::Upstream)]);
                    },
                    Progress::Failed(e) => {
                        self.end(Outcome::Relay(RelayResult::ProtocolError(e)), &mut commands);
                    },
                    Progress::Done(destination, rest) => {
                        if self.policy.is_destination_allowed(&destination) {
                            let target = destination.duplicate();
                            self.destination = Some(destination);
                            self.pending = rest;
                            self.phase = Phase::Dialing;
                            commands.push(Command::Dial(target));
                            assert(views(commands@) =~= seq![CommandView::Dial(target@)]);
                        } else {
                            self.destination = Some(destination);
                            self.end(Outcome::Dial(DialError::Forbidden), &mut commands);
                        }
                    },
                }
            },
            Event::EndOfStream(Direction::Upstream) => {
                let e = self.codec.finish();
                self.end(Outcome::Relay(RelayResult::ProtocolError(e)), &mut commands);
            },
            Event::ReadFailed(Direction::Upstream, kind) => {
                self.end(Outcome::Relay(RelayResult::IoError(kind)), &mut commands);
            },
            Event::Cancelled => {
                self.end(Outcome::Relay(RelayResult::ClosedCleanly), &mut commands);
            },
            _ => {},
        }
        commands
    }

    fn on_dial(&mut self, event: Event) -> (commands: Vec<Command>)
        requires
            old(self)@.wf(),
            old(self)@.phase == Phase::Dialing,
        ensures
            (final(self)@, views(commands@)) == old(self)@.dial_step(event@),
    {
        let mut commands: Vec<Command> = Vec::new();
        assert(views(commands@) =~= Seq::<CommandView>::empty());
        match event {
            Event::DialSucceeded => {
                let mut remainder: Vec<u8> = Vec::new();
                remainder.append(&mut self.pending);
                assert(remainder@ =~= old(self)@.pending);
                let (relay, first) = Relay::start(remainder);
                self.relay = Some(relay);
                self.phase = Phase::Relaying;
                first
            },
            Event::DialFailed(failure) => {
                self.end(Outcome::Dial(classify_failure(failure)), &mut commands);
                commands
            },
            Event::Cancelled => {
                self.end(Outcome::Relay(RelayResult::ClosedCleanly), &mut commands);
                commands
            },
            _ => commands,
        }
    }

    fn on_relay(&mut self, event: Event) -> (commands: Vec<Command>)
        requires
            old(self)@.wf(),
            old(self)@.phase == Phase::Relaying,
        ensures
            (final(self)@, views(commands@)) == old(self)@.relay_step(event@),
    {
        match self.relay {
            Some(mut relay) => {
                let commands = relay.step(event);
                self.relay = Some(relay);
                match relay.result {
                    Some(result) => {
                        self.phase = Phase::Closed;
                        self.outcome = Some(Outcome::Relay(result));
                    },
                    None => {},
                }
                commands
            },
            None => {
                let commands: Vec<Command> = Vec::new();
                assert(views(commands@) =~= Seq::<CommandView>::empty());
                commands
            },
        }
    }
}

/// Every step leads from a well-formed state to a well-formed state.
pub proof fn lemma_step_keeps_wf(s: SessionState, event: EventView)
    requires
        s.wf(),
    ensures
        s.step_spec(event).0.wf(),
{
    match s.phase {
        Phase::AwaitingHeader => {
            if let EventView::Chunk(Direction::Upstream, bytes) = event {
                lemma_accepted_fits(s.buffered + bytes, s.credential);
            }
        },
        Phase::Dialing => {
            crate::relay::lemma_start(s.pending);
        },
        Phase::Relaying => {
            crate::relay::lemma_step_keeps_wf(s.relay->0, event);
        },
        Phase::Closed => {},
    }
}

/// Closing is idempotent: on a session that is over, no event changes the
/// state or asks anything of the host.
pub proof fn lemma_closed_is_final(s: SessionState, event: EventView)
    requires
        s.phase == Phase::Closed,
    ensures
        s.step_spec(event) == (s, Seq::<CommandView>::empty()),
{
}

/// A step tells the host to close exactly when it ends the session.
pub proof fn lemma_step_closes(s: SessionState, event: EventView)
    requires
        s.wf(),
    ensures
        closes(s.step_spec(event).1) == (if s.phase != Phase::Closed && s.step_spec(event).0.phase
            == Phase::Closed {
            1nat
        } else {
            0nat
        }),
{
    lemma_up_to_two(s.step_spec(event).1);
    match s.phase {
        Phase::Dialing => {
            crate::relay::lemma_start(s.pending);
        },
        Phase::Relaying => {
            crate::relay::lemma_step_closes(s.relay->0, event);
        },
        _ => {},
    }
}

/// Whatever the host reports and however often, it is told to close
/// exactly once if the session ends, and never otherwise; and a session
/// that is over stays so.
pub proof fn lemma_closes_once(s: SessionState, events: Seq<EventView>)
    requires
        s.wf(),
    ensures
        s.run(events).0.wf(),
        s.phase == Phase::Closed ==> s.run(events) == (s, Seq::<CommandView>::empty()),
        closes(s.run(events).1) == (if s.phase != Phase::Closed && s.run(events).0.phase
            == Phase::Closed {
            1nat
        } else {
            0nat
        }),
    decreases events.len(),
{
    if events.len() == 0 {
    } else {
        let (next, first) = s.step_spec(events[0]);
        let rest = next.run(events.drop_first()).1;
        lemma_step_keeps_wf(s, events[0]);
        lemma_step_closes(s, events[0]);
        lemma_closes_once(next, events.drop_first());
        lemma_closes_concat(first, rest);
        if s.phase == Phase::Closed {
            assert(first + rest =~= Seq::<CommandView>::empty());
        }
    }
}

/// No dial without a valid header: the host is told to dial only in the
/// step in which the bytes read so far make up a header that passes every
/// check, and only the destination that this header names, and only if
/// the policy allows it.
pub proof fn lemma_dial_needs_header(s: SessionState, event: EventView, d: DestinationView)
    requires
        s.wf(),
        s.step_spec(event).1.contains(CommandView::Dial(d)),
    ensures
        s.phase == Phase::AwaitingHeader,
        event matches EventView::Chunk(Direction::Upstream, bytes) && parse_spec(
            s.buffered + bytes,
            s.credential,
        ) matches Parsed::Accepted { destination, .. } && destination == d,
        s.policy.allows(d),
        s.step_spec(event).0.phase == Phase::Dialing,
        s.step_spec(event).0.destination == Some(d),
{
    let commands = s.step_spec(event).1;
    let i = choose|i: int| 0 <= i < commands.len() && commands[i] == CommandView::Dial(d);
    assert(commands[i] == CommandView::Dial(d));
    match s.phase {
        Phase::Relaying => {
            crate::relay::lemma_step_dials_nothing(s.relay->0, event);
            lemma_dialed_has(commands, i);
        },
        _ => {},
    }
}

/// A dial at place `i` of `commands` is among its dials.
proof fn lemma_dialed_has(commands: Seq<CommandView>, i: int)
    requires
        0 <= i < commands.len(),
        commands[i] is Dial,
    ensures
        dialed(commands).len() > 0,
    decreases commands.len(),
{
    if i > 0 {
        lemma_dialed_has(commands.drop_first(), i - 1);
    }
}

/// The relay never starts before the dial has succeeded: a session enters
/// the relay only from dialing, and only on the news that the outbound
/// connection stands; before that, nothing is written to either end.
pub proof fn lemma_relay_needs_connection(s: SessionState, event: EventView)
    requires
        s.wf(),
        s.phase != Phase::Relaying,
    ensures
        s.step_spec(event).0.phase == Phase::Relaying ==> s.phase == Phase::Dialing && event
            == EventView::DialSucceeded,
        event != EventView::DialSucceeded ==> forall|d: Direction| #[trigger]
            written(d, s.step_spec(event).1) == Seq::<u8>::empty(),
{
    lemma_up_to_two(s.step_spec(event).1);
}

/// How far along a phase lies.
pub open spec fn rank(phase: Phase) -> nat {
    match phase {
        Phase::AwaitingHeader => 0,
        Phase::Dialing => 1,
        Phase::Relaying => 2,
        Phase::Closed => 3,
    }
}

/// A session only moves forward: it never returns to an earlier phase, so
/// it reads at most one header, dials at most once and runs at most one
/// relay; and a destination, once on record, stays as it is, as do the
/// credential, the policy and the inbound variant.
pub proof fn lemma_session_moves_forward(s: SessionState, event: EventView)
    requires
        s.wf(),
    ensures
        rank(s.step_spec(event).0.phase) >= rank(s.phase),
        s.destination is Some ==> s.step_spec(event).0.destination == s.destination,
        s.relay is Some ==> s.step_spec(event).0.relay is Some,
        s.step_spec(event).0.credential == s.credential,
        s.step_spec(event).0.policy == s.policy,
        s.step_spec(event).0.inbound == s.inbound,
{
}

/// One step keeps the account.
pub proof fn lemma_step_accounts(
    s: SessionState,
    event: EventView,
    stream: Seq<u8>,
    commands: Seq<CommandView>,
)
    requires
        s.wf(),
        s.accounts_for(stream, commands),
        event matches EventView::Chunk(from, _) ==> s.awaits(from),
    ensures
        s.step_spec(event).0.accounts_for(
            stream + delivery(Direction::Upstream, event),
            commands + s.step_spec(event).1,
        ),
{
    let (next, step) = s.step_spec(event);
    let more = delivery(Direction::Upstream, event);
    let all = stream + more;
    let up = Direction::Upstream;
    lemma_written_concat(up, commands, step);
    lemma_dialed_concat(commands, step);
    lemma_up_to_two(step);
    lemma_step_keeps_wf(s, event);
    assert(dialed(commands) + Seq::<DestinationView>::empty() =~= dialed(commands));
    assert(written(up, commands) + Seq::<u8>::empty() =~= written(up, commands));
    match s.phase {
        Phase::AwaitingHeader => {
            if let EventView::Chunk(Direction::Upstream, bytes) = event {
                assert(dialed(commands) =~= Seq::<DestinationView>::empty());
                assert(Seq::<DestinationView>::empty() + dialed(step) =~= dialed(step));
                assert(written(up, commands + step) =~= Seq::<u8>::empty());
            } else {
                assert(all =~= stream);
                assert(written(up, commands + step) =~= Seq::<u8>::empty());
            }
        },
        Phase::Dialing => {
            assert(all =~= stream);
            crate::relay::lemma_start(s.pending);
            if event == EventView::DialSucceeded {
                assert(written(up, commands + step) =~= s.pending);
            } else {
                assert(written(up, commands + step) =~= Seq::<u8>::empty());
            }
        },
        Phase::Relaying => {
            let relay = s.relay->0;
            crate::relay::lemma_step_forwards(relay, event, up);
            crate::relay::lemma_step_dials_nothing(relay, event);
            lemma_accepted_fits(stream, s.credential);
            lemma_verdict_is_final(stream, more, s.credential);
            if let Parsed::Accepted { consumed, .. } = parse_spec(stream, s.credential) {
                assert(all.skip(consumed as int) =~= stream.skip(consumed as int) + more);
            }
        },
        Phase::Closed => {
            assert(all =~= stream);
            assert(commands + step =~= commands);
        },
    }
}

/// The account holds along every run in which each chunk answers a read.
pub proof fn lemma_run_accounts(
    s: SessionState,
    events: Seq<EventView>,
    stream: Seq<u8>,
    commands: Seq<CommandView>,
)
    requires
        s.wf(),
        s.accounts_for(stream, commands),
        s.reads_answered(events),
    ensures
        s.run(events).0.wf(),
        s.run(events).0.accounts_for(
            stream + delivered(Direction::Upstream, events),
            commands + s.run(events).1,
        ),
    decreases events.len(),
{
    let up = Direction::Upstream;
    if events.len() == 0 {
        assert(stream + delivered(up, events) =~= stream);
        assert(commands + s.run(events).1 =~= commands);
    } else {
        let (next, first) = s.step_spec(events[0]);
        let rest = next.run(events.drop_first()).1;
        lemma_step_keeps_wf(s, events[0]);
        lemma_step_accounts(s, events[0], stream, commands);
        lemma_run_accounts(
            next,
            events.drop_first(),
            stream + delivery(up, events[0]),
            commands + first,
        );
        assert((stream + delivery(up, events[0])) + delivered(up, events.drop_first()) =~= stream
            + delivered(up, events));
        assert((commands + first) + rest =~= commands + (first + rest));
    }
}

/// From the first byte to the last: however the inbound stream is cut into
/// chunks, a session that was opened afresh and has started its relay has
/// written to the outbound side exactly what follows the header in that
/// stream, unchanged and in order; it has dialed the destination that the
/// header names, once, and no other. A session that has not started its
/// relay has written nothing to the outbound side.
pub proof fn lemma_stream_reaches_destination(
    inbound: InboundVariant,
    credential: Seq<u8>,
    policy: DialPolicy,
    events: Seq<EventView>,
)
    requires
        SessionState::fresh(inbound, credential, policy).reads_answered(events),
    ensures
        ({
            let (end, commands) = SessionState::fresh(inbound, credential, policy).run(events);
            let stream = delivered(Direction::Upstream, events);
            let sent = written(Direction::Upstream, commands);
            &&& end.wf()
            &&& end.accounts_for(stream, commands)
            &&& end.relay is Some ==> {
                &&& parse_spec(stream, credential) matches Parsed::Accepted {
                    destination,
                    consumed,
                }
                &&& end.destination == Some(destination)
                &&& dialed(commands) == seq![destination]
                &&& sent == stream.skip(consumed as int)
            }
            &&& end.relay is None ==> sent == Seq::<u8>::empty()
        }),
{
    let s = SessionState::fresh(inbound, credential, policy);
    let empty_commands = Seq::<CommandView>::empty();
    let empty_stream = Seq::<u8>::empty();
    assert(s.wf());
    assert(s.accounts_for(empty_stream, empty_commands));
    lemma_run_accounts(s, events, empty_stream, empty_commands);
    lemma_run_keeps_settings(s, events);
    let (end, commands) = s.run(events);
    assert(empty_stream + delivered(Direction::Upstream, events) =~= delivered(
        Direction::Upstream,
        events,
    ));
    assert(empty_commands + commands =~= commands);
    if end.relay is None {
        assert(written(Direction::Upstream, commands) =~= Seq::<u8>::empty());
    }
}

/// A run changes neither the credential nor the policy nor the inbound
/// variant of a session.
pub proof fn lemma_run_keeps_settings(s: SessionState, events: Seq<EventView>)
    ensures
        s.run(events).0.credential == s.credential,
        s.run(events).0.policy == s.policy,
        s.run(events).0.inbound == s.inbound,
    decreases events.len(),
{
    if events.len() > 0 {
        lemma_run_keeps_settings(s.step_spec(events[0]).0, events.drop_first());
    }
}

/// A wrong credential ends the session: once the inbound stream holds a
/// whole credential field that differs from the configured credential, the
/// session is over, no destination is on record, nothing was dialed and
/// nothing was written to either end. With the supported version in front,
/// the outcome is the failed authentication.
pub proof fn lemma_wrong_credential_ends_session(
    inbound: InboundVariant,
    credential: Seq<u8>,
    policy: DialPolicy,
    events: Seq<EventView>,
)
    requires
        SessionState::fresh(inbound, credential, policy).reads_answered(events),
        delivered(Direction::Upstream, events).len() >= 17,
        delivered(Direction::Upstream, events).subrange(1, 17) != credential,
    ensures
        ({
            let (end, commands) = SessionState::fresh(inbound, credential, policy).run(events);
            &&& end.phase == Phase::Closed
            &&& end.destination is None
            &&& end.relay is None
            &&& dialed(commands) == Seq::<DestinationView>::empty()
            &&& written(Direction::Upstream, commands) == Seq::<u8>::empty()
        }),
{
    let stream = delivered(Direction::Upstream, events);
    lemma_stream_reaches_destination(inbound, credential, policy, events);
    lemma_wrong_credential_is_refused(stream, credential);
    lemma_run_keeps_settings(SessionState::fresh(inbound, credential, policy), events);
}

/// Downstream the session is as faithful as upstream: what it writes to the
/// inbound side is what was read from the outbound side, byte for byte and
/// in order.
pub proof fn lemma_downstream_is_faithful(s: SessionState, events: Seq<EventView>)
    requires
        s.wf(),
        s.reads_answered(events),
    ensures
        written(Direction::Downstream, s.run(events).1) == delivered(
            Direction::Downstream,
            events,
        ),
    decreases events.len(),
{
    let down = Direction::Downstream;
    if events.len() == 0 {
    } else {
        let (next, first) = s.step_spec(events[0]);
        let rest = next.run(events.drop_first()).1;
        lemma_step_keeps_wf(s, events[0]);
        lemma_up_to_two(first);
        match s.phase {
            Phase::Dialing => {
                crate::relay::lemma_start(s.pending);
            },
            Phase::Relaying => {
                crate::relay::lemma_step_forwards(s.relay->0, events[0], down);
            },
            _ => {},
        }
        assert(written(down, first) =~= delivery(down, events[0]));
        lemma_downstream_is_faithful(next, events.drop_first());
        lemma_written_concat(down, first, rest);
    }
}

} // verus!
