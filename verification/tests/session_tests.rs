use tunnel_relay::config::Config;
use tunnel_relay::config::InboundVariant;
use tunnel_relay::config::Route;
use tunnel_relay::dial::DialError;
use tunnel_relay::dial::DialFailure;
use tunnel_relay::dial::DialPolicy;
use tunnel_relay::event::Command;
use tunnel_relay::event::Direction;
use tunnel_relay::event::Endpoint;
use tunnel_relay::event::Event;
use tunnel_relay::event::IoKind;
use tunnel_relay::event::Outcome;
use tunnel_relay::event::RelayResult;
use tunnel_relay::header::encode_header;
use tunnel_relay::header::Address;
use tunnel_relay::header::Credential;
use tunnel_relay::header::Destination;
use tunnel_relay::header::ProtocolError;
use tunnel_relay::header::Transport;
use tunnel_relay::session::Phase;
use tunnel_relay::session::SessionContext;

const UP: Direction = Direction::Upstream;
const DOWN: Direction = Direction::Downstream;

fn secret() -> Credential {
    Credential::new([0xc0, 0xff, 0xee, 3, 4, 5, 6, 7, 8, 9, 10, 11, 12, 13, 14, 15])
}

fn config_with(policy: DialPolicy) -> Config {
    Config::new(vec![Route::new("/tunnel", InboundVariant::Tunnel)], secret(), policy)
}

fn config() -> Config {
    config_with(DialPolicy::allow_all())
}

fn example_com() -> Destination {
    Destination {
        address: Address::Domain(b"example.com".to_vec()),
        port: 443,
        transport: Transport::Tcp,
    }
}

fn header_for(destination: &Destination) -> Vec<u8> {
    encode_header(&secret(), destination).unwrap()
}

fn opened() -> SessionContext {
    let (session, commands) = SessionContext::open(&config(), InboundVariant::Tunnel);
    assert_eq!(commands, vec![Command::Read(UP)]);
    session
}

fn close(result: RelayResult) -> Command {
    Command::Close(Outcome::Relay(result))
}

fn writes_to(d: Direction, commands: &[Command]) -> Vec<u8> {
    let mut out: Vec<u8> = Vec::new();
    for command in commands {
        if let Command::Write(to, bytes) = command {
            if *to == d {
                out.extend_from_slice(bytes);
            }
        }
    }
    out
}

#[test]
fn a_new_session_awaits_the_header() {
    let session = opened();
    assert_eq!(session.phase(), Phase::AwaitingHeader);
    assert_eq!(session.inbound(), InboundVariant::Tunnel);
    assert_eq!(session.destination(), None);
    assert_eq!(session.outcome(), None);
    assert_eq!(session.bytes_in(), 0);
    assert_eq!(session.bytes_out(), 0);
    assert!(!session.is_closed());
}

#[test]
fn unsupported_version_ends_the_session_without_a_dial() {
    let mut session = opened();
    let mut header: Vec<u8> = header_for(&example_com());
    header[0] = 0x02;
    let commands = session.step(Event::Chunk(UP, header));
    assert_eq!(commands, vec![close(RelayResult::ProtocolError(ProtocolError::UnsupportedVersion))]);
    assert!(session.is_closed());
    assert_eq!(session.destination(), None);
    assert_eq!(
        session.outcome(),
        Some(Outcome::Relay(RelayResult::ProtocolError(ProtocolError::UnsupportedVersion)))
    );
    assert_eq!(session.step(Event::DialSucceeded), Vec::new());
}

#[test]
fn refused_connection_ends_the_session_unreachable() {
    let mut session = opened();
    let mut all: Vec<Command> = Vec::new();
    all.extend(session.step(Event::Chunk(UP, header_for(&example_com()))));
    assert_eq!(all, vec![Command::Dial(example_com())]);
    assert_eq!(session.phase(), Phase::Dialing);
    assert_eq!(session.destination(), Some(example_com()));
    all.extend(session.step(Event::DialFailed(DialFailure::Refused)));
    assert_eq!(
        all,
        vec![Command::Dial(example_com()), Command::Close(Outcome::Dial(DialError::Unreachable))]
    );
    assert!(session.is_closed());
    assert_eq!(session.outcome(), Some(Outcome::Dial(DialError::Unreachable)));
    assert!(writes_to(UP, &all).is_empty());
    assert!(writes_to(DOWN, &all).is_empty());
    assert_eq!(session.bytes_in(), 0);
    assert_eq!(session.bytes_out(), 0);
    assert_eq!(session.step(Event::DialSucceeded), Vec::new());
    assert_eq!(session.step(Event::DialFailed(DialFailure::Refused)), Vec::new());
}

#[test]
fn dial_timeout_and_missing_route_are_told_apart() {
    let mut timed_out = opened();
    timed_out.step(Event::Chunk(UP, header_for(&example_com())));
    assert_eq!(
        timed_out.step(Event::DialFailed(DialFailure::TimedOut)),
        vec![Command::Close(Outcome::Dial(DialError::Timeout))]
    );
    let mut no_route = opened();
    no_route.step(Event::Chunk(UP, header_for(&example_com())));
    assert_eq!(
        no_route.step(Event::DialFailed(DialFailure::NoRoute)),
        vec![Command::Close(Outcome::Dial(DialError::Unreachable))]
    );
}

#[test]
fn remainder_and_later_reads_reach_outbound_in_order() {
    let mut session = opened();
    let mut all: Vec<Command> = Vec::new();
    let mut first: Vec<u8> = header_for(&example_com());
    first.extend_from_slice(&[0, 1, 2, 3, 4, 5, 6, 7, 8, 9]);
    all.extend(session.step(Event::Chunk(UP, first)));
    assert_eq!(all, vec![Command::Dial(example_com())]);
    let started = session.step(Event::DialSucceeded);
    assert_eq!(
        started,
        vec![Command::Write(UP, vec![0, 1, 2, 3, 4, 5, 6, 7, 8, 9]), Command::Read(DOWN)]
    );
    all.extend(started);
    assert_eq!(session.phase(), Phase::Relaying);
    all.extend(session.step(Event::Written(UP)));
    all.extend(session.step(Event::Chunk(UP, vec![10, 11, 12, 13, 14])));
    all.extend(session.step(Event::Written(UP)));
    all.extend(session.step(Event::Chunk(UP, vec![15, 16, 17, 18, 19])));
    all.extend(session.step(Event::Written(UP)));
    let sent: Vec<u8> = writes_to(UP, &all);
    assert_eq!(sent.len(), 20);
    assert_eq!(sent, (0u8..20).collect::<Vec<u8>>());
    assert_eq!(session.bytes_out(), 20);
    assert_eq!(session.bytes_in(), 0);
    assert!(writes_to(DOWN, &all).is_empty());
}

#[test]
fn header_split_over_reads_gives_the_same_session() {
    let mut stream: Vec<u8> = header_for(&example_com());
    stream.extend_from_slice(&[0xde, 0xad, 0xbe, 0xef]);
    let mut cut: usize = 1;
    while cut < stream.len() {
        let mut session = opened();
        let mut all: Vec<Command> = Vec::new();
        let first = session.step(Event::Chunk(UP, stream[..cut].to_vec()));
        if cut < 33 {
            assert_eq!(first, vec![Command::Read(UP)], "cut at {}", cut);
            assert_eq!(session.phase(), Phase::AwaitingHeader);
            all.extend(session.step(Event::Chunk(UP, stream[cut..].to_vec())));
        } else {
            all.extend(first);
        }
        assert_eq!(all, vec![Command::Dial(example_com())], "cut at {}", cut);
        all.extend(session.step(Event::DialSucceeded));
        if cut >= 33 {
            all.extend(session.step(Event::Written(UP)));
            all.extend(session.step(Event::Chunk(UP, stream[cut..].to_vec())));
        }
        assert_eq!(writes_to(UP, &all), vec![0xde, 0xad, 0xbe, 0xef], "cut at {}", cut);
        cut += 1;
    }
}

#[test]
fn header_without_remainder_starts_by_reading() {
    let mut session = opened();
    session.step(Event::Chunk(UP, header_for(&example_com())));
    assert_eq!(session.step(Event::DialSucceeded), vec![Command::Read(UP), Command::Read(DOWN)]);
}

#[test]
fn wrong_credential_ends_the_session() {
    let mut session = opened();
    let mut header: Vec<u8> = header_for(&example_com());
    header[9] ^= 0x10;
    assert_eq!(session.step(Event::Chunk(UP, header[..10].to_vec())), vec![Command::Read(UP)]);
    assert_eq!(
        session.step(Event::Chunk(UP, header[10..].to_vec())),
        vec![close(RelayResult::ProtocolError(ProtocolError::AuthFailed))]
    );
    assert_eq!(session.destination(), None);
    assert!(session.is_closed());
}

#[test]
fn unknown_command_and_bad_address_end_the_session() {
    let mut command = opened();
    let mut header: Vec<u8> = header_for(&example_com());
    header[17] = 9;
    assert_eq!(
        command.step(Event::Chunk(UP, header)),
        vec![close(RelayResult::ProtocolError(ProtocolError::UnsupportedCommand))]
    );
    let mut address = opened();
    let mut header: Vec<u8> = header_for(&example_com());
    header[21] = 0;
    assert_eq!(
        address.step(Event::Chunk(UP, header)),
        vec![close(RelayResult::ProtocolError(ProtocolError::MalformedAddress))]
    );
}

#[test]
fn stream_that_ends_inside_the_header_is_malformed() {
    let mut session = opened();
    let header: Vec<u8> = header_for(&example_com());
    assert_eq!(session.step(Event::Chunk(UP, header[..30].to_vec())), vec![Command::Read(UP)]);
    assert_eq!(
        session.step(Event::EndOfStream(UP)),
        vec![close(RelayResult::ProtocolError(ProtocolError::MalformedAddress))]
    );
    assert!(session.is_closed());
}

#[test]
fn read_error_inside_the_header_is_an_io_error() {
    let mut session = opened();
    assert_eq!(
        session.step(Event::ReadFailed(UP, IoKind::Reset)),
        vec![close(RelayResult::IoError(IoKind::Reset))]
    );
    assert_eq!(session.outcome(), Some(Outcome::Relay(RelayResult::IoError(IoKind::Reset))));
}

#[test]
fn forbidden_destination_is_never_dialed() {
    let policy = DialPolicy { deny_loopback: true, deny_private: false };
    let (mut session, _) = SessionContext::open(&config_with(policy), InboundVariant::Tunnel);
    let loopback =
        Destination { address: Address::V4([127, 0, 0, 1]), port: 22, transport: Transport::Tcp };
    let commands = session.step(Event::Chunk(UP, header_for(&loopback)));
    assert_eq!(commands, vec![Command::Close(Outcome::Dial(DialError::Forbidden))]);
    assert!(session.is_closed());
    assert_eq!(session.destination(), Some(loopback));
    assert_eq!(session.step(Event::DialSucceeded), Vec::new());
}

#[test]
fn cancel_ends_the_session_in_every_phase() {
    let mut waiting = opened();
    assert_eq!(waiting.step(Event::Cancelled), vec![close(RelayResult::ClosedCleanly)]);
    assert!(waiting.is_closed());

    let mut dialing = opened();
    dialing.step(Event::Chunk(UP, header_for(&example_com())));
    assert_eq!(dialing.step(Event::Cancelled), vec![close(RelayResult::ClosedCleanly)]);
    assert!(dialing.is_closed());
    assert_eq!(dialing.step(Event::DialSucceeded), Vec::new());

    let mut relaying = opened();
    relaying.step(Event::Chunk(UP, header_for(&example_com())));
    relaying.step(Event::DialSucceeded);
    assert_eq!(relaying.step(Event::Cancelled), vec![close(RelayResult::ClosedCleanly)]);
    assert!(relaying.is_closed());
    assert_eq!(relaying.step(Event::Cancelled), Vec::new());
    assert_eq!(relaying.step(Event::EndOfStream(UP)), Vec::new());
}

#[test]
fn events_out_of_turn_are_ignored() {
    let mut session = opened();
    assert_eq!(session.step(Event::Chunk(DOWN, vec![1])), Vec::new());
    assert_eq!(session.step(Event::DialSucceeded), Vec::new());
    assert_eq!(session.step(Event::Written(UP)), Vec::new());
    assert_eq!(session.step(Event::EndOfStream(DOWN)), Vec::new());
    assert_eq!(session.phase(), Phase::AwaitingHeader);
    session.step(Event::Chunk(UP, header_for(&example_com())));
    assert_eq!(session.step(Event::Chunk(UP, vec![1, 2])), Vec::new());
    assert_eq!(session.step(Event::EndOfStream(UP)), Vec::new());
    assert_eq!(session.phase(), Phase::Dialing);
    assert_eq!(session.step(Event::DialSucceeded), vec![Command::Read(UP), Command::Read(DOWN)]);
}

#[test]
fn session_closes_when_the_relay_does() {
    let mut session = opened();
    session.step(Event::Chunk(UP, header_for(&example_com())));
    session.step(Event::DialSucceeded);
    assert_eq!(session.step(Event::Chunk(DOWN, vec![1, 2, 3])), vec![Command::Write(DOWN, vec![1, 2, 3])]);
    assert_eq!(session.step(Event::Chunk(UP, vec![4])), vec![Command::Write(UP, vec![4])]);
    assert_eq!(session.step(Event::Written(DOWN)), vec![Command::Read(DOWN)]);
    assert_eq!(session.step(Event::EndOfStream(DOWN)), Vec::new());
    assert_eq!(session.phase(), Phase::Relaying);
    assert_eq!(
        session.step(Event::Written(UP)),
        vec![Command::Shutdown(Endpoint::Outbound), close(RelayResult::PeerClosed)]
    );
    assert!(session.is_closed());
    assert_eq!(session.outcome(), Some(Outcome::Relay(RelayResult::PeerClosed)));
    assert_eq!(session.bytes_in(), 3);
    assert_eq!(session.bytes_out(), 1);
    assert_eq!(session.destination(), Some(example_com()));
}

#[test]
fn io_error_in_the_relay_ends_the_session() {
    let mut session = opened();
    session.step(Event::Chunk(UP, header_for(&example_com())));
    session.step(Event::DialSucceeded);
    assert_eq!(
        session.step(Event::ReadFailed(DOWN, IoKind::Aborted)),
        vec![close(RelayResult::IoError(IoKind::Aborted))]
    );
    assert_eq!(session.outcome(), Some(Outcome::Relay(RelayResult::IoError(IoKind::Aborted))));
    assert_eq!(session.step(Event::ReadFailed(UP, IoKind::Aborted)), Vec::new());
}
