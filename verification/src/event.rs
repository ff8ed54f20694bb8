//! The words that the engine and its host exchange. The host performs the
//! reads, writes and connects; it reports each completion as an [`Event`]
//! and carries out each [`Command`] that it gets back.

use crate::dial::DialError;
use crate::dial::DialFailure;
use crate::header::Destination;
use crate::header::DestinationView;
use crate::header::ProtocolError;
use vstd::prelude::*;

verus! {

/// One of the two ends of a session.
#[derive(Clone, Copy, Debug, PartialEq, Eq, Structural)]
pub enum Endpoint {
    /// The stream accepted from the client.
    Inbound,
    /// The connection opened to the destination.
    Outbound,
}

/// One of the two ways in which bytes flow.
#[derive(Clone, Copy, Debug, PartialEq, Eq, Structural)]
pub enum Direction {
    /// From the inbound stream to the outbound connection.
    Upstream,
    /// From the outbound connection to the inbound stream.
    Downstream,
}

impl Direction {
    /// The end that this direction reads from.
    pub open spec fn source(self) -> Endpoint {
        match self {
            Direction::Upstream => Endpoint::Inbound,
            Direction::Downstream => Endpoint::Outbound,
        }
    }

    /// The end that this direction writes to.
    pub open spec fn sink(self) -> Endpoint {
        match self {
            Direction::Upstream => Endpoint::Outbound,
            Direction::Downstream => Endpoint::Inbound,
        }
    }

    /// The other direction.
    pub open spec fn opposite(self) -> Direction {
        match self {
            Direction::Upstream => Direction::Downstream,
            Direction::Downstream => Direction::Upstream,
        }
    }
}

/// What kind of I/O error the host ran into.
#[derive(Clone, Copy, Debug, PartialEq, Eq, Structural)]
pub enum IoKind {
    Reset,
    Aborted,
    BrokenPipe,
    TimedOut,
    Other,
}

/// An error of the relay loop: the direction whose read or write failed,
/// and how.
#[derive(Clone, Copy, Debug, PartialEq, Eq, Structural)]
pub enum RelayError {
    IoError(Direction, IoKind),
}

/// How a relay ended.
#[derive(Clone, Copy, Debug, PartialEq, Eq, Structural)]
pub enum RelayResult {
    /// The client ended its stream, or the host called the session off.
    ClosedCleanly,
    /// The destination ended its stream.
    PeerClosed,
    /// A read or a write failed.
    IoError(IoKind),
    /// The header was refused; no relay took place.
    ProtocolError(ProtocolError),
}

/// How a session ended.
#[derive(Clone, Copy, Debug, PartialEq, Eq, Structural)]
pub enum Outcome {
    /// The header was refused, or the relay ran and ended.
    Relay(RelayResult),
    /// No outbound connection came about.
    Dial(DialError),
}

/// A completion that the host reports.
#[derive(Clone, Debug, PartialEq, Eq)]
pub enum Event {
    /// The read on the source of this direction returned these bytes.
    Chunk(Direction, Vec<u8>),
    /// The read on the source of this direction found the end of the stream.
    EndOfStream(Direction),
    /// The read on the source of this direction failed.
    ReadFailed(Direction, IoKind),
    /// The write to the sink of this direction went through.
    Written(Direction),
    /// The write to the sink of this direction failed.
    WriteFailed(Direction, IoKind),
    /// The outbound connection stands.
    DialSucceeded,
    /// The attempt to open the outbound connection failed.
    DialFailed(DialFailure),
    /// The host calls the session off.
    Cancelled,
}

/// Mathematical value of an [`Event`].
pub ghost enum EventView {
    Chunk(Direction, Seq<u8>),
    EndOfStream(Direction),
    ReadFailed(Direction, IoKind),
    Written(Direction),
    WriteFailed(Direction, IoKind),
    DialSucceeded,
    DialFailed(DialFailure),
    Cancelled,
}

impl View for Event {
    type V = EventView;

    open spec fn view(&self) -> EventView {
        match self {
            Event::Chunk(d, bytes) => EventView::Chunk(*d, bytes@),
            Event::EndOfStream(d) => EventView::EndOfStream(*d),
            Event::ReadFailed(d, kind) => EventView::ReadFailed(*d, *kind),
            Event::Written(d) => EventView::Written(*d),
            Event::WriteFailed(d, kind) => EventView::WriteFailed(*d, *kind),
            Event::DialSucceeded => EventView::DialSucceeded,
            Event::DialFailed(failure) => EventView::DialFailed(*failure),
            Event::Cancelled => EventView::Cancelled,
        }
    }
}

/// Something for the host to do.
#[derive(Clone, Debug, PartialEq, Eq)]
pub enum Command {
    /// Open the outbound connection to this destination.
    Dial(Destination),
    /// Read the next chunk from the source of this direction.
    Read(Direction),
    /// Write these bytes to the sink of this direction, as one write.
    Write(Direction, Vec<u8>),
    /// Shut down the write side of this end, and leave its read side open.
    Shutdown(Endpoint),
    /// Close whatever is open of the two ends; the session is over.
    Close(Outcome),
}

/// Mathematical value of a [`Command`].
pub ghost enum CommandView {
    Dial(DestinationView),
    Read(Direction),
    Write(Direction, Seq<u8>),
    Shutdown(Endpoint),
    Close(Outcome),
}

impl View for Command {
    type V = CommandView;

    open spec fn view(&self) -> CommandView {
        match self {
            Command::Dial(destination) => CommandView::Dial(destination@),
            Command::Read(d) => CommandView::Read(*d),
            Command::Write(d, bytes) => CommandView::Write(*d, bytes@),
            Command::Shutdown(end) => CommandView::Shutdown(*end),
            Command::Close(outcome) => CommandView::Close(*outcome),
        }
    }
}

/// The values of a list of commands, in order.
pub open spec fn views(commands: Seq<Command>) -> Seq<CommandView> {
    Seq::new(commands.len(), |i: int| commands[i]@)
}

/// The bytes that `command` writes in direction `d`.
pub open spec fn payload(d: Direction, command: CommandView) -> Seq<u8> {
    match command {
        CommandView::Write(to, bytes) => if to == d {
            bytes
        } else {
            Seq::empty()
        },
        _ => Seq::empty(),
    }
}

/// All the bytes that `commands` write in direction `d`, in order.
pub open spec fn written(d: Direction, commands: Seq<CommandView>) -> Seq<u8>
    decreases commands.len(),
{
    if commands.len() == 0 {
        Seq::empty()
    } else {
        payload(d, commands[0]) + written(d, commands.drop_first())
    }
}

/// The bytes that `event` delivers in direction `d`.
pub open spec fn delivery(d: Direction, event: EventView) -> Seq<u8> {
    match event {
        EventView::Chunk(from, bytes) => if from == d {
            bytes
        } else {
            Seq::empty()
        },
        _ => Seq::empty(),
    }
}

/// All the bytes that `events` deliver in direction `d`, in order.
pub open spec fn delivered(d: Direction, events: Seq<EventView>) -> Seq<u8>
    decreases events.len(),
{
    if events.len() == 0 {
        Seq::empty()
    } else {
        delivery(d, events[0]) + delivered(d, events.drop_first())
    }
}

/// How many of `commands` close the session.
pub open spec fn closes(commands: Seq<CommandView>) -> nat
    decreases commands.len(),
{
    if commands.len() == 0 {
        0
    } else {
        (if commands[0] is Close {
            1nat
        } else {
            0nat
        }) + closes(commands.drop_first())
    }
}

/// What one list of commands writes, followed by what the next writes, is
/// what the two lists write together.
pub proof fn lemma_written_concat(d: Direction, a: Seq<CommandView>, b: Seq<CommandView>)
    ensures
        written(d, a + b) == written(d, a) + written(d, b),
    decreases a.len(),
{
    if a.len() == 0 {
        assert(a + b =~= b);
        assert(written(d, a) + written(d, b) =~= written(d, b));
    } else {
        assert((a + b).drop_first() =~= a.drop_first() + b);
        lemma_written_concat(d, a.drop_first(), b);
        assert(payload(d, a[0]) + (written(d, a.drop_first()) + written(d, b)) =~= (payload(d, a[0])
            + written(d, a.drop_first())) + written(d, b));
    }
}

/// The closes of two lists of commands add up.
pub proof fn lemma_closes_concat(a: Seq<CommandView>, b: Seq<CommandView>)
    ensures
        closes(a + b) == closes(a) + closes(b),
    decreases a.len(),
{
    if a.len() == 0 {
        assert(a + b =~= b);
    } else {
        assert((a + b).drop_first() =~= a.drop_first() + b);
        lemma_closes_concat(a.drop_first(), b);
    }
}

/// The destinations that `commands` tell the host to dial, in order.
pub open spec fn dialed(commands: Seq<CommandView>) -> Seq<DestinationView>
    decreases commands.len(),
{
    if commands.len() == 0 {
        Seq::empty()
    } else {
        (match commands[0] {
            CommandView::Dial(destination) => seq![destination],
            _ => Seq::empty(),
        }) + dialed(commands.drop_first())
    }
}

/// The dials of two lists of commands follow one another.
pub proof fn lemma_dialed_concat(a: Seq<CommandView>, b: Seq<CommandView>)
    ensures
        dialed(a + b) == dialed(a) + dialed(b),
    decreases a.len(),
{
    if a.len() == 0 {
        assert(a + b =~= b);
        assert(dialed(a) + dialed(b) =~= dialed(b));
    } else {
        assert((a + b).drop_first() =~= a.drop_first() + b);
        lemma_dialed_concat(a.drop_first(), b);
        let head = match a[0] {
            CommandView::Dial(destination) => seq![destination],
            _ => Seq::empty(),
        };
        assert(head + (dialed(a.drop_first()) + dialed(b)) =~= (head + dialed(a.drop_first()))
            + dialed(b));
    }
}

/// What a list of at most two commands writes, closes and dials.
pub proof fn lemma_up_to_two(commands: Seq<CommandView>)
    requires
        commands.len() <= 2,
    ensures
        commands.len() == 0 ==> closes(commands) == 0 && dialed(commands) == Seq::<
            DestinationView,
        >::empty() && forall|d: Direction| #[trigger] written(d, commands) == Seq::<u8>::empty(),
        commands.len() == 1 ==> closes(commands) == (if commands[0] is Close {
            1nat
        } else {
            0nat
        }) && dialed(commands) == (match commands[0] {
            CommandView::Dial(destination) => seq![destination],
            _ => Seq::empty(),
        }) && forall|d: Direction| #[trigger] written(d, commands) == payload(d, commands[0]),
        commands.len() == 2 ==> closes(commands) == (if commands[0] is Close {
            1nat
        } else {
            0nat
        }) + (if commands[1] is Close {
            1nat
        } else {
            0nat
        }) && dialed(commands) == (match commands[0] {
            CommandView::Dial(destination) => seq![destination],
            _ => Seq::empty(),
        }) + (match commands[1] {
            CommandView::Dial(destination) => seq![destination],
            _ => Seq::empty(),
        }) && forall|d: Direction| #[trigger]
            written(d, commands) == payload(d, commands[0]) + payload(d, commands[1]),
{
    reveal_with_fuel(written, 3);
    reveal_with_fuel(closes, 3);
    reveal_with_fuel(dialed, 3);
    if commands.len() == 0 {
    } else if commands.len() == 1 {
        let head = match commands[0] {
            CommandView::Dial(destination) => seq![destination],
            _ => Seq::empty(),
        };
        assert(dialed(commands) =~= head);
        assert forall|d: Direction| #[trigger] written(d, commands) == payload(d, commands[0]) by {
            assert(written(d, commands) =~= payload(d, commands[0]));
        }
    } else {
        assert(commands.drop_first()[0] == commands[1]);
        let head = match commands[0] {
            CommandView::Dial(destination) => seq![destination],
            _ => Seq::empty(),
        };
        let next = match commands[1] {
            CommandView::Dial(destination) => seq![destination],
            _ => Seq::empty(),
        };
        assert(dialed(commands) =~= head + next);
        assert forall|d: Direction| #[trigger]
            written(d, commands) == payload(d, commands[0]) + payload(d, commands[1]) by {
            assert(written(d, commands) =~= payload(d, commands[0]) + payload(d, commands[1]));
        }
    }
}

} // verus!
