//! The relay loop, as a state machine. Two pumps, one per direction, each
//! read a chunk from their source and write it to their sink, and read the
//! next chunk only when that write has gone through. The host does the
//! reading and writing; the relay decides what is to be done next.

use crate::event::closes;
use crate::event::delivered;
use crate::event::delivery;
use crate::event::dialed;
use crate::event::lemma_closes_concat;
use crate::event::lemma_up_to_two;
use crate::event::lemma_written_concat;
use crate::event::views;
use crate::event::written;
use crate::event::Command;
use crate::header::DestinationView;
use crate::event::CommandView;
use crate::event::Direction;
use crate::event::Endpoint;
use crate::event::Event;
use crate::event::EventView;
use crate::event::IoKind;
use crate::event::Outcome;
use crate::event::RelayError;
use crate::event::RelayResult;
use vstd::prelude::*;

verus! {

/// The most that the host is to read at once: one chunk per direction is
/// all that is ever in flight.
pub const CHUNK_SIZE: usize = 16384;

/// Where a pump stands.
#[derive(Clone, Copy, Debug, PartialEq, Eq, Structural)]
pub enum Pump {
    /// A read on the source is under way; nothing is in flight.
    Reading,
    /// A chunk is in flight to the sink; no read is under way.
    Writing,
    /// A chunk is in flight to the sink, and the pump stops once it is
    /// written: the other side has ended its stream.
    Draining,
    /// The pump reads and writes no more.
    Stopped,
}

/// The state of one relay.
#[derive(Clone, Copy, Debug, PartialEq, Eq)]
pub struct Relay {
    /// The pump from the inbound stream to the outbound connection.
    pub up: Pump,
    /// The pump from the outbound connection to the inbound stream.
    pub down: Pump,
    /// How the relay ended, once it has.
    pub result: Option<RelayResult>,
    /// The error that ended it, if one did.
    pub failure: Option<RelayError>,
    /// Bytes handed over for writing to the outbound connection; the count
    /// stops at the largest value it can hold.
    pub bytes_out: u64,
    /// Bytes handed over for writing to the inbound stream; the count stops
    /// at the largest value it can hold.
    pub bytes_in: u64,
}

/// The result of a relay that ends because `end` ended its stream.
pub open spec fn result_of(end: Endpoint) -> RelayResult {
    match end {
        Endpoint::Inbound => RelayResult::ClosedCleanly,
        Endpoint::Outbound => RelayResult::PeerClosed,
    }
}

impl Relay {
    /// The pump of direction `d`.
    pub open spec fn pump(self, d: Direction) -> Pump {
        match d {
            Direction::Upstream => self.up,
            Direction::Downstream => self.down,
        }
    }

    /// This state with the pump of direction `d` set to `p`.
    pub open spec fn with_pump(self, d: Direction, p: Pump) -> Relay {
        match d {
            Direction::Upstream => Relay { up: p, ..self },
            Direction::Downstream => Relay { down: p, ..self },
        }
    }

    /// This state with `n` more bytes counted in direction `d`.
    pub open spec fn counting(self, d: Direction, n: nat) -> Relay {
        match d {
            Direction::Upstream => Relay {
                bytes_out: if self.bytes_out + n > u64::MAX {
                    u64::MAX
                } else {
                    (self.bytes_out + n) as u64
                },
                ..self
            },
            Direction::Downstream => Relay {
                bytes_in: if self.bytes_in + n > u64::MAX {
                    u64::MAX
                } else {
                    (self.bytes_in + n) as u64
                },
                ..self
            },
        }
    }

    /// The relay has ended.
    pub open spec fn closed(self) -> bool {
        self.result is Some
    }

    /// The pump of direction `d` has a chunk in flight.
    pub open spec fn in_flight(self, d: Direction) -> bool {
        self.pump(d) is Writing || self.pump(d) is Draining
    }

    /// The relay is open and a read in direction `d` is under way.
    pub open spec fn awaits(self, d: Direction) -> bool {
        !self.closed() && self.pump(d) is Reading
    }

    /// What holds of every state that a relay reaches: it has ended exactly
    /// when both pumps have stopped; a pump drains only while the other has
    /// stopped; and a failure is on record exactly when the result is the
    /// error it names.
    pub open spec fn wf(self) -> bool {
        &&& self.closed() <==> (self.up is Stopped && self.down is Stopped)
        &&& self.up is Draining ==> self.down is Stopped
        &&& self.down is Draining ==> self.up is Stopped
        &&& self.up is Stopped ==> !(self.down is Reading) && !(self.down is Writing)
        &&& self.down is Stopped ==> !(self.up is Reading) && !(self.up is Writing)
        &&& match self.failure {
            Some(RelayError::IoError(_, kind)) => self.result == Some(RelayResult::IoError(kind)),
            None => !(self.result matches Some(RelayResult::IoError(_))),
        }
    }

    /// The state in which both pumps have stopped and `result` is on record.
    pub open spec fn ended(self, result: RelayResult) -> Relay {
        Relay { up: Pump::Stopped, down: Pump::Stopped, result: Some(result), ..self }
    }

    /// The relay ends because `end` ended its stream and nothing is in
    /// flight any more: the write side of that end is shut down, then both
    /// ends are closed.
    pub open spec fn finish_spec(self, end: Endpoint) -> (Relay, Seq<CommandView>) {
        (
            self.ended(result_of(end)),
            seq![CommandView::Shutdown(end), CommandView::Close(Outcome::Relay(result_of(end)))],
        )
    }

    /// The relay ends because a read or a write in direction `d` failed.
    pub open spec fn fail_spec(self, d: Direction, kind: IoKind) -> (Relay, Seq<CommandView>) {
        (
            Relay {
                failure: Some(RelayError::IoError(d, kind)),
                ..self.ended(RelayResult::IoError(kind))
            },
            seq![CommandView::Close(Outcome::Relay(RelayResult::IoError(kind)))],
        )
    }

    /// The state that follows `self` on `event`, and what the host is to do.
    /// An event that answers nothing the relay asked for changes nothing.
    pub open spec fn step_spec(self, event: EventView) -> (Relay, Seq<CommandView>) {
        if self.closed() {
            (self, Seq::empty())
        } else {
            match event {
                EventView::Chunk(d, bytes) => if self.pump(d) is Reading {
                    (
                        self.with_pump(d, Pump::Writing).counting(d, bytes.len()),
                        seq![CommandView::Write(d, bytes)],
                    )
                } else {
                    (self, Seq::empty())
                },
                EventView::Written(d) => match self.pump(d) {
                    Pump::Writing => (
                        self.with_pump(d, Pump::Reading),
                        seq![CommandView::Read(d)],
                    ),
                    Pump::Draining => self.finish_spec(d.sink()),
                    _ => (self, Seq::empty()),
                },
                EventView::EndOfStream(d) => if self.pump(d) is Reading {
                    if self.pump(d.opposite()) is Writing {
                        (
                            self.with_pump(d, Pump::Stopped).with_pump(
                                d.opposite(),
                                Pump::Draining,
                            ),
                            Seq::empty(),
                        )
                    } else {
                        self.finish_spec(d.source())
                    }
                } else {
                    (self, Seq::empty())
                },
                EventView::ReadFailed(d, kind) => if self.pump(d) is Reading {
                    self.fail_spec(d, kind)
                } else {
                    (self, Seq::empty())
                },
                EventView::WriteFailed(d, kind) => if self.in_flight(d) {
                    self.fail_spec(d, kind)
                } else {
                    (self, Seq::empty())
                },
                EventView::Cancelled => (
                    self.ended(RelayResult::ClosedCleanly),
                    seq![CommandView::Close(Outcome::Relay(RelayResult::ClosedCleanly))],
                ),
                EventView::DialSucceeded => (self, Seq::empty()),
                EventView::DialFailed(_) => (self, Seq::empty()),
            }
        }
    }

    /// The state in which a relay starts, and what the host is to do first.
    /// Bytes that came in behind the header go out before anything else.
    pub open spec fn start_spec(remainder: Seq<u8>) -> (Relay, Seq<CommandView>) {
        let fresh = Relay {
            up: Pump::Reading,
            down: Pump::Reading,
            result: None,
            failure: None,
            bytes_out: 0,
            bytes_in: 0,
        };
        if remainder.len() == 0 {
            (
                fresh,
                seq![
                    CommandView::Read(Direction::Upstream),
                    CommandView::Read(Direction::Downstream),
                ],
            )
        } else {
            (
                fresh.with_pump(Direction::Upstream, Pump::Writing).counting(
                    Direction::Upstream,
                    remainder.len(),
                ),
                seq![
                    CommandView::Write(Direction::Upstream, remainder),
                    CommandView::Read(Direction::Downstream),
                ],
            )
        }
    }

    /// The state after `events`, one after the other, and all that the host
    /// was told to do on the way.
    pub open spec fn run(self, events: Seq<EventView>) -> (Relay, Seq<CommandView>)
        decreases events.len(),
    {
        if events.len() == 0 {
            (self, Seq::empty())
        } else {
            let (next, first) = self.step_spec(events[0]);
            let (last, rest) = next.run(events.drop_first());
            (last, first + rest)
        }
    }

    /// Every chunk among `events` answers a read: it arrives while the
    /// relay is open and the pump of its direction is reading.
    pub open spec fn reads_answered(self, events: Seq<EventView>) -> bool
        decreases events.len(),
    {
        events.len() == 0 || {
            &&& events[0] matches EventView::Chunk(d, _) ==> self.awaits(d)
            &&& self.step_spec(events[0]).0.reads_answered(events.drop_first())
        }
    }
}

/// The other direction.
fn opposite_of(d: Direction) -> (o: Direction)
    ensures
        o == d.opposite(),
{
    match d {
        Direction::Upstream => Direction::Downstream,
        Direction::Downstream => Direction::Upstream,
    }
}

/// The end that direction `d` reads from.
fn source_of(d: Direction) -> (end: Endpoint)
    ensures
        end == d.source(),
{
    match d {
        Direction::Upstream => Endpoint::Inbound,
        Direction::Downstream => Endpoint::Outbound,
    }
}

/// The end that direction `d` writes to.
fn sink_of(d: Direction) -> (end: Endpoint)
    ensures
        end == d.sink(),
{
    match d {
        Direction::Upstream => Endpoint::Outbound,
        Direction::Downstream => Endpoint::Inbound,
    }
}

/// Takes the next chunk off the front of `backlog`: all of it, or the first
/// [`CHUNK_SIZE`] bytes where it holds more. What is taken and what is left
/// make up what was there, in order.
pub fn take_chunk(backlog: &mut Vec<u8>) -> (chunk: Vec<u8>)
    ensures
        chunk@.len() == (if old(backlog)@.len() <= CHUNK_SIZE {
            old(backlog)@.len()
        } else {
            CHUNK_SIZE as nat
        }),
        chunk@ + final(backlog)@ == old(backlog)@,
{
    let n = backlog.len();
    let cut = if n <= CHUNK_SIZE {
        n
    } else {
        CHUNK_SIZE
    };
    let mut chunk = backlog.split_off(cut);
    core::mem::swap(backlog, &mut chunk);
    assert(chunk@ + backlog@ =~= old(backlog)@);
    chunk
}

impl Relay {
    /// Starts a relay. `remainder` holds what came in behind the header; it
    /// is written to the outbound connection before anything else is read
    /// from the inbound stream.
    pub fn start(remainder: Vec<u8>) -> (started: (Relay, Vec<Command>))
        ensures
            (started.0, views(started.1@)) == Relay::start_spec(remainder@),
    {
        let mut relay = Relay {
            up: Pump::Reading,
            down: Pump::Reading,
            result: None,
            failure: None,
            bytes_out: 0,
            bytes_in: 0,
        };
        let mut commands: Vec<Command> = Vec::new();
        if remainder.len() == 0 {
            commands.push(Command::Read(Direction::Upstream));
            commands.push(Command::Read(Direction::Downstream));
            assert(views(commands@) =~= seq![
                CommandView::Read(Direction::Upstream),
                CommandView::Read(Direction::Downstream),
            ]);
        } else {
            relay.up = Pump::Writing;
            relay.count(Direction::Upstream, remainder.len());
            commands.push(Command::Write(Direction::Upstream, remainder));
            commands.push(Command::Read(Direction::Downstream));
            assert(views(commands@) =~= seq![
                CommandView::Write(Direction::Upstream, remainder@),
                CommandView::Read(Direction::Downstream),
            ]);
        }
        (relay, commands)
    }

    /// Takes one event from the host and says what is to be done next.
    pub fn step(&mut self, event: Event) -> (commands: Vec<Command>)
        ensures
            (*final(self), views(commands@)) == old(self).step_spec(event@),
    {
        let mut commands: Vec<Command> = Vec::new();
        assert(views(commands@) =~= Seq::<CommandView>::empty());
        if self.result.is_some() {
            return commands;
        }
        match event {
            Event::Chunk(d, bytes) => {
                if let Pump::Reading = self.pump_of(d) {
                    self.set_pump(d, Pump::Writing);
                    self.count(d, bytes.len());
                    commands.push(Command::Write(d, bytes));
                    assert(views(commands@) =~= seq![CommandView::Write(d, bytes@)]);
                }
            },
            Event::Written(d) => {
                match self.pump_of(d) {
                    Pump::Writing => {
                        self.set_pump(d, Pump::Reading);
                        commands.push(Command::Read(d));
                        assert(views(commands@) =~= seq![CommandView::Read(d)]);
                    },
                    Pump::Draining => {
                        self.finish(sink_of(d), &mut commands);
                    },
                    _ => {},
                }
            },
            Event::EndOfStream(d) => {
                if let Pump::Reading = self.pump_of(d) {
                    let other = opposite_of(d);
                    if let Pump::Writing = self.pump_of(other) {
                        self.set_pump(d, Pump::Stopped);
                        self.set_pump(other, Pump::Draining);
                    } else {
                        self.finish(source_of(d), &mut commands);
                    }
                }
            },
            Event::ReadFailed(d, kind) => {
                if let Pump::Reading = self.pump_of(d) {
                    self.fail(d, kind, &mut commands);
                }
            },
            Event::WriteFailed(d, kind) => {
                match self.pump_of(d) {
                    Pump::Writing => {
                        self.fail(d, kind, &mut commands);
                    },
                    Pump::Draining => {
                        self.fail(d, kind, &mut commands);
                    },
                    _ => {},
                }
            },
            Event::Cancelled => {
                self.up = Pump::Stopped;
                self.down = Pump::Stopped;
                self.result = Some(RelayResult::ClosedCleanly);
                commands.push(Command::Close(Outcome::Relay(RelayResult::ClosedCleanly)));
                assert(views(commands@) =~= seq![
                    CommandView::Close(Outcome::Relay(RelayResult::ClosedCleanly)),
                ]);
            },
            Event::DialSucceeded => {},
            Event::DialFailed(_) => {},
        }
        commands
    }

    /// Whether the relay has ended.
    pub fn is_closed(&self) -> (closed: bool)
        ensures
            closed == self.closed(),
    {
        self.result.is_some()
    }

    fn pump_of(&self, d: Direction) -> (p: Pump)
        ensures
            p == self.pump(d),
    {
        match d {
            Direction::Upstream => self.up,
            Direction::Downstream => self.down,
        }
    }

    fn set_pump(&mut self, d: Direction, p: Pump)
        ensures
            *final(self) == old(self).with_pump(d, p),
    {
        match d {
            Direction::Upstream => {
                self.up = p;
            },
            Direction::Downstream => {
                self.down = p;
            },
        }
    }

    fn count(&mut self, d: Direction, n: usize)
        ensures
            *final(self) == old(self).counting(d, n as nat),
    {
        match d {
            Direction::Upstream => {
                self.bytes_out = self.bytes_out.saturating_add(n as u64);
            },
            Direction::Downstream => {
                self.bytes_in = self.bytes_in.saturating_add(n as u64);
            },
        }
    }

    fn finish(&mut self, end: Endpoint, commands: &mut Vec<Command>)
        requires
            old(commands)@.len() == 0,
        ensures
            (*final(self), views(final(commands)@)) == old(self).finish_spec(end),
    {
        let result = match end {
            Endpoint::Inbound => RelayResult::ClosedCleanly,
            Endpoint::Outbound => RelayResult::PeerClosed,
        };
        self.up = Pump::Stopped;
        self.down = Pump::Stopped;
        self.result = Some(result);
        commands.push(Command::Shutdown(end));
        commands.push(Command::Close(Outcome::Relay(result)));
        assert(views(commands@) =~= seq![
            CommandView::Shutdown(end),
            CommandView::Close(Outcome::Relay(result)),
        ]);
    }

    fn fail(&mut self, d: Direction, kind: IoKind, commands: &mut Vec<Command>)
        requires
            old(commands)@.len() == 0,
        ensures
            (*final(self), views(final(commands)@)) == old(self).fail_spec(d, kind),
    {
        self.up = Pump::Stopped;
        self.down = Pump::Stopped;
        self.result = Some(RelayResult::IoError(kind));
        self.failure = Some(RelayError::IoError(d, kind));
        commands.push(Command::Close(Outcome::Relay(RelayResult::IoError(kind))));
        assert(views(commands@) =~= seq![
            CommandView::Close(Outcome::Relay(RelayResult::IoError(kind))),
        ]);
    }
}

/// A relay starts well-formed and open, and the first thing it writes
/// upstream is the remainder, whole.
pub proof fn lemma_start(remainder: Seq<u8>)
    ensures
        Relay::start_spec(remainder).0.wf(),
        !Relay::start_spec(remainder).0.closed(),
        written(Direction::Upstream, Relay::start_spec(remainder).1) == remainder,
        written(Direction::Downstream, Relay::start_spec(remainder).1) == Seq::<u8>::empty(),
        closes(Relay::start_spec(remainder).1) == 0,
        dialed(Relay::start_spec(remainder).1) == Seq::<DestinationView>::empty(),
{
    let commands = Relay::start_spec(remainder).1;
    lemma_up_to_two(commands);
    assert(written(Direction::Upstream, commands) =~= remainder);
    assert(written(Direction::Downstream, commands) =~= Seq::<u8>::empty());
}

/// Every step leads from a well-formed state to a well-formed state.
pub proof fn lemma_step_keeps_wf(s: Relay, event: EventView)
    requires
        s.wf(),
    ensures
        s.step_spec(event).0.wf(),
{
}

/// Closing is idempotent: on a relay that has ended, no event changes the
/// state or asks anything of the host, whichever way the relay ended and
/// whichever way the event would have ended it.
pub proof fn lemma_closed_is_final(s: Relay, event: EventView)
    requires
        s.closed(),
    ensures
        s.step_spec(event) == (s, Seq::<CommandView>::empty()),
{
}

/// A step closes the session at most once, and it does so exactly when it
/// ends the relay.
pub proof fn lemma_step_closes(s: Relay, event: EventView)
    requires
        s.wf(),
    ensures
        closes(s.step_spec(event).1) == (if !s.closed() && s.step_spec(event).0.closed() {
            1nat
        } else {
            0nat
        }),
        s.closed() ==> s.step_spec(event).0.closed(),
{
    lemma_up_to_two(s.step_spec(event).1);
}

/// Whatever the host reports and however often, it is told to close
/// exactly once if the relay ends, and never otherwise.
pub proof fn lemma_closes_once(s: Relay, events: Seq<EventView>)
    requires
        s.wf(),
    ensures
        s.run(events).0.wf(),
        s.closed() ==> s.run(events).0.closed(),
        closes(s.run(events).1) == (if !s.closed() && s.run(events).0.closed() {
            1nat
        } else {
            0nat
        }),
    decreases events.len(),
{
    if events.len() == 0 {
    } else {
        let (next, first) = s.step_spec(events[0]);
        lemma_step_keeps_wf(s, events[0]);
        lemma_step_closes(s, events[0]);
        lemma_closes_once(next, events.drop_first());
        lemma_closes_concat(first, next.run(events.drop_first()).1);
    }
}

/// A chunk that answers a read is written on, whole and at once, in its own
/// direction; no other event makes the relay write anything.
pub proof fn lemma_step_forwards(s: Relay, event: EventView, d: Direction)
    requires
        event matches EventView::Chunk(from, _) ==> s.awaits(from),
    ensures
        written(d, s.step_spec(event).1) == delivery(d, event),
{
    lemma_up_to_two(s.step_spec(event).1);
    assert(written(d, s.step_spec(event).1) =~= delivery(d, event));
}

/// One chunk in, one write out: a chunk that answers a read is handed on as
/// a single write of the very same bytes, be they none, so that a datagram
/// stays a datagram.
pub proof fn lemma_one_chunk_one_write(s: Relay, d: Direction, bytes: Seq<u8>)
    requires
        s.awaits(d),
    ensures
        s.step_spec(EventView::Chunk(d, bytes)).1 == seq![CommandView::Write(d, bytes)],
        s.step_spec(EventView::Chunk(d, bytes)).0.pump(d) is Writing,
{
}

/// Round trip: as long as every chunk answers a read, what the relay
/// writes in a direction is what was read in that direction, byte for byte
/// and in order, however the bytes were cut into chunks.
pub proof fn lemma_relay_is_faithful(s: Relay, events: Seq<EventView>, d: Direction)
    requires
        s.reads_answered(events),
    ensures
        written(d, s.run(events).1) == delivered(d, events),
    decreases events.len(),
{
    if events.len() == 0 {
    } else {
        let (next, first) = s.step_spec(events[0]);
        let rest = next.run(events.drop_first()).1;
        lemma_step_forwards(s, events[0], d);
        lemma_relay_is_faithful(next, events.drop_first(), d);
        lemma_written_concat(d, first, rest);
    }
}

/// A relay dials nothing: the outbound connection stands before it starts.
pub proof fn lemma_step_dials_nothing(s: Relay, event: EventView)
    ensures
        dialed(s.step_spec(event).1) == Seq::<DestinationView>::empty(),
{
    lemma_up_to_two(s.step_spec(event).1);
}

/// Backpressure: the relay asks for the next read in a direction only when
/// the write of the chunk before it has gone through, and then the pump of
/// that direction has nothing in flight.
pub proof fn lemma_reads_follow_writes(s: Relay, event: EventView, d: Direction)
    requires
        s.wf(),
        s.step_spec(event).1.contains(CommandView::Read(d)),
    ensures
        event == EventView::Written(d),
        s.pump(d) is Writing,
        s.step_spec(event).0.pump(d) is Reading,
{
    let commands = s.step_spec(event).1;
    let i = choose|i: int| 0 <= i < commands.len() && commands[i] == CommandView::Read(d);
    assert(commands[i] == CommandView::Read(d));
}

/// Half-close ordering: when one side ends its stream while a chunk is in
/// flight the other way, the relay neither closes nor shuts anything down;
/// it waits. Only when that chunk is written does it shut down the write
/// side of the end that ended, and close.
pub proof fn lemma_half_close_waits(s: Relay, d: Direction)
    requires
        s.wf(),
        s.awaits(d),
        s.pump(d.opposite()) is Writing,
    ensures
        s.step_spec(EventView::EndOfStream(d)).1 == Seq::<CommandView>::empty(),
        !s.step_spec(EventView::EndOfStream(d)).0.closed(),
        s.step_spec(EventView::EndOfStream(d)).0.pump(d.opposite()) is Draining,
        s.step_spec(EventView::EndOfStream(d)).0.step_spec(EventView::Written(d.opposite()))
            == s.step_spec(EventView::EndOfStream(d)).0.finish_spec(d.source()),
{
}

/// Nothing in flight is given up by an orderly end: when a step ends the
/// relay because a stream ended, the only chunk that can have been in
/// flight before it is the one whose write this very event confirms.
pub proof fn lemma_orderly_end_drops_nothing(s: Relay, event: EventView, d: Direction)
    requires
        s.wf(),
        !s.closed(),
        s.step_spec(event).0.closed(),
        !(event is Cancelled),
        s.step_spec(event).0.failure is None,
        s.in_flight(d),
    ensures
        event == EventView::Written(d),
{
}

} // verus!
