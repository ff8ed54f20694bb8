//! The tunnel header: its wire layout, a one-shot parser, an incremental
//! codec that tolerates a header split over several reads, and the encoder
//! that the parser inverts.
//!
//! Layout, all integers big-endian:
//!
//! ```text
//! version:1 | credential:16 | command:1 | port:2 | addr type:1 | address | remainder
//! ```
//!
//! The address is 4 bytes (IPv4), a length byte followed by that many bytes
//! (domain name, at least one byte), or 16 bytes (IPv6).

use crate::bytes::append;
use vstd::prelude::*;
use vstd::slice::slice_subrange;
use vstd::slice::slice_to_vec;

verus! {

/// The only protocol version this engine speaks.
pub const SUPPORTED_VERSION: u8 = 1;

/// Length of the credential field.
pub const CREDENTIAL_LEN: usize = 16;

/// Command byte that asks for a TCP connection.
pub const COMMAND_TCP: u8 = 1;

/// Command byte that asks for a UDP association.
pub const COMMAND_UDP: u8 = 2;

/// Address type byte of a 4-byte IPv4 address.
pub const ADDR_IPV4: u8 = 1;

/// Address type byte of a length-prefixed domain name.
pub const ADDR_DOMAIN: u8 = 2;

/// Address type byte of a 16-byte IPv6 address.
pub const ADDR_IPV6: u8 = 3;

/// Length of the fixed part of the header, up to and including the address
/// type byte.
pub const FIXED_LEN: usize = 21;

/// Length of the longest header: the fixed part, a length byte and a
/// 255-byte domain name.
pub const MAX_HEADER_LEN: usize = 277;

/// How the destination is to be reached.
#[derive(Clone, Copy, Debug, PartialEq, Eq, Structural)]
pub enum Transport {
    Tcp,
    Udp,
}

/// Why a header was refused.
#[derive(Clone, Copy, Debug, PartialEq, Eq, Structural)]
pub enum ProtocolError {
    /// The version byte is not [`SUPPORTED_VERSION`].
    UnsupportedVersion,
    /// The credential field differs from the configured credential.
    AuthFailed,
    /// The command byte is neither [`COMMAND_TCP`] nor [`COMMAND_UDP`].
    UnsupportedCommand,
    /// The address type is unknown, the domain name is empty, or the input
    /// ended before the header did.
    MalformedAddress,
}

/// The secret that a caller must present in the header.
#[derive(Clone, Copy, Debug)]
pub struct Credential {
    pub bytes: [u8; 16],
}

impl View for Credential {
    type V = Seq<u8>;

    open spec fn view(&self) -> Seq<u8> {
        self.bytes@
    }
}

/// Host part of a destination.
#[derive(Clone, Debug, PartialEq, Eq)]
pub enum Address {
    V4([u8; 4]),
    Domain(Vec<u8>),
    V6([u8; 16]),
}

/// Where the tunnel leads.
#[derive(Clone, Debug, PartialEq, Eq)]
pub struct Destination {
    pub address: Address,
    pub port: u16,
    pub transport: Transport,
}

/// Mathematical value of an [`Address`].
pub ghost enum AddressView {
    V4(Seq<u8>),
    Domain(Seq<u8>),
    V6(Seq<u8>),
}

/// Mathematical value of a [`Destination`].
pub ghost struct DestinationView {
    pub address: AddressView,
    pub port: u16,
    pub transport: Transport,
}

impl View for Address {
    type V = AddressView;

    open spec fn view(&self) -> AddressView {
        match self {
            Address::V4(a) => AddressView::V4(a@),
            Address::Domain(name) => AddressView::Domain(name@),
            Address::V6(a) => AddressView::V6(a@),
        }
    }
}

impl View for Destination {
    type V = DestinationView;

    open spec fn view(&self) -> DestinationView {
        DestinationView { address: self.address@, port: self.port, transport: self.transport }
    }
}

impl Destination {
    /// A destination equal to this one.
    pub fn duplicate(&self) -> (copy: Destination)
        ensures
            copy@ == self@,
    {
        let address = match &self.address {
            Address::V4(a) => Address::V4(*a),
            Address::Domain(name) => Address::Domain(slice_to_vec(name.as_slice())),
            Address::V6(a) => Address::V6(*a),
        };
        Destination { address, port: self.port, transport: self.transport }
    }
}

impl AddressView {
    /// An address that the wire format can carry.
    pub open spec fn wf(self) -> bool {
        match self {
            AddressView::V4(a) => a.len() == 4,
            AddressView::Domain(name) => 1 <= name.len() <= 255,
            AddressView::V6(a) => a.len() == 16,
        }
    }

    /// The address as it stands on the wire, type byte first.
    pub open spec fn encoding(self) -> Seq<u8> {
        match self {
            AddressView::V4(a) => seq![ADDR_IPV4] + a,
            AddressView::Domain(name) => seq![ADDR_DOMAIN, name.len() as u8] + name,
            AddressView::V6(a) => seq![ADDR_IPV6] + a,
        }
    }
}

/// The port that two bytes spell, high byte first.
pub open spec fn port_of(hi: u8, lo: u8) -> u16 {
    (hi as int * 256 + lo as int) as u16
}

/// The transport that a command byte selects.
pub open spec fn transport_of(command: u8) -> Option<Transport> {
    if command == COMMAND_TCP {
        Some(Transport::Tcp)
    } else if command == COMMAND_UDP {
        Some(Transport::Udp)
    } else {
        None
    }
}

/// The command byte that selects a transport.
pub open spec fn command_of(transport: Transport) -> u8 {
    match transport {
        Transport::Tcp => COMMAND_TCP,
        Transport::Udp => COMMAND_UDP,
    }
}

/// The header that announces `destination` under `credential`.
pub open spec fn encode_spec(credential: Seq<u8>, destination: DestinationView) -> Seq<u8> {
    seq![SUPPORTED_VERSION] + credential + seq![
        command_of(destination.transport),
        (destination.port / 256) as u8,
        (destination.port % 256) as u8,
    ] + destination.address.encoding()
}

/// What the bytes after the address type byte hold.
pub ghost enum AddressParse {
    /// More bytes are needed to decide.
    Incomplete,
    /// No address can start like this.
    Malformed,
    /// An address, and the number of bytes it takes.
    Found(AddressView, nat),
}

/// Reads an address of type `kind` from the front of `body`.
pub open spec fn address_spec(kind: u8, body: Seq<u8>) -> AddressParse {
    if kind == ADDR_IPV4 {
        if body.len() < 4 {
            AddressParse::Incomplete
        } else {
            AddressParse::Found(AddressView::V4(body.subrange(0, 4)), 4)
        }
    } else if kind == ADDR_DOMAIN {
        if body.len() < 1 {
            AddressParse::Incomplete
        } else if body[0] == 0 {
            AddressParse::Malformed
        } else if body.len() < 1 + body[0] {
            AddressParse::Incomplete
        } else {
            AddressParse::Found(
                AddressView::Domain(body.subrange(1, 1 + body[0] as int)),
                (1 + body[0]) as nat,
            )
        }
    } else if kind == ADDR_IPV6 {
        if body.len() < 16 {
            AddressParse::Incomplete
        } else {
            AddressParse::Found(AddressView::V6(body.subrange(0, 16)), 16)
        }
    } else {
        AddressParse::Malformed
    }
}

/// What a prefix of the inbound stream holds.
pub ghost enum Parsed {
    /// Every byte so far fits a header, and the header has not ended yet.
    Incomplete,
    /// No header starts like this.
    Rejected(ProtocolError),
    /// A header that takes the first `consumed` bytes.
    Accepted { destination: DestinationView, consumed: nat },
}

/// Reads a header from the front of `input`. Each field is judged as soon as
/// its last byte is there, in wire order, so that a verdict never changes
/// when more bytes arrive.
pub open spec fn parse_spec(input: Seq<u8>, credential: Seq<u8>) -> Parsed {
    if input.len() < 1 {
        Parsed::Incomplete
    } else if input[0] != SUPPORTED_VERSION {
        Parsed::Rejected(ProtocolError::UnsupportedVersion)
    } else if input.len() < 17 {
        Parsed::Incomplete
    } else if input.subrange(1, 17) != credential {
        Parsed::Rejected(ProtocolError::AuthFailed)
    } else if input.len() < 18 {
        Parsed::Incomplete
    } else if transport_of(input[17]) is None {
        Parsed::Rejected(ProtocolError::UnsupportedCommand)
    } else if input.len() < 21 {
        Parsed::Incomplete
    } else {
        match address_spec(input[20], input.skip(21)) {
            AddressParse::Incomplete => Parsed::Incomplete,
            AddressParse::Malformed => Parsed::Rejected(ProtocolError::MalformedAddress),
            AddressParse::Found(address, len) => Parsed::Accepted {
                destination: DestinationView {
                    address,
                    port: port_of(input[18], input[19]),
                    transport: transport_of(input[17])->0,
                },
                consumed: 21 + len,
            },
        }
    }
}

impl Credential {
    /// A credential made of the given bytes.
    pub fn new(bytes: [u8; 16]) -> (credential: Credential)
        ensures
            credential@ == bytes@,
    {
        Credential { bytes }
    }

    /// Whether `candidate` spells this credential. Every byte of the
    /// candidate is looked at, whether or not an earlier one differed, so
    /// that the time taken says nothing about where a mismatch lies.
    pub fn matches(&self, candidate: &[u8]) -> (same: bool)
        ensures
            same == (candidate@ == self@),
    {
        if candidate.len() != 16 {
            return false;
        }
        let mut diff: u8 = 0;
        let mut i: usize = 0;
        while i < 16
            invariant
                i <= 16,
                candidate@.len() == 16,
                self@.len() == 16,
                (diff == 0) == (forall|j: int| 0 <= j < i ==> candidate@[j] == self@[j]),
            decreases 16 - i,
        {
            let a: u8 = candidate[i];
            let b: u8 = self.bytes[i];
            let ghost before = diff;
            diff = diff | (a ^ b);
            proof {
                assert(((before | (a ^ b)) == 0) == (before == 0 && a == b)) by (bit_vector);
            }
            i += 1;
        }
        proof {
            if diff == 0 {
                assert(candidate@ =~= self@);
            }
        }
        diff == 0
    }
}

/// Outcome of reading a header from a prefix of the stream.
#[derive(Clone, Debug, PartialEq, Eq)]
pub enum Scan {
    Incomplete,
    Rejected(ProtocolError),
    Accepted(Destination, usize),
}

impl View for Scan {
    type V = Parsed;

    open spec fn view(&self) -> Parsed {
        match self {
            Scan::Incomplete => Parsed::Incomplete,
            Scan::Rejected(e) => Parsed::Rejected(*e),
            Scan::Accepted(destination, consumed) => Parsed::Accepted {
                destination: destination@,
                consumed: *consumed as nat,
            },
        }
    }
}

/// The four bytes of `input` that start at `at`.
fn read4(input: &[u8], at: usize) -> (out: [u8; 4])
    requires
        at + 4 <= input@.len(),
    ensures
        out@ == input@.subrange(at as int, at + 4),
{
    let out = [input[at], input[at + 1], input[at + 2], input[at + 3]];
    assert(out@ =~= input@.subrange(at as int, at + 4));
    out
}

/// The sixteen bytes of `input` that start at `at`.
fn read16(input: &[u8], at: usize) -> (out: [u8; 16])
    requires
        at + 16 <= input@.len(),
    ensures
        out@ == input@.subrange(at as int, at + 16),
{
    let n = input.len();
    let mut out = [0u8; 16];
    let mut i: usize = 0;
    while i < 16
        invariant
            i <= 16,
            n == input@.len(),
            at + 16 <= n,
            forall|j: int| 0 <= j < i ==> out@[j] == input@[at + j],
        decreases 16 - i,
    {
        out[i] = input[at + i];
        i += 1;
    }
    assert(out@ =~= input@.subrange(at as int, at + 16));
    out
}

/// Reads a header from the front of `input`, which may be a prefix of what
/// is still to come.
pub fn scan_header(input: &[u8], credential: &Credential) -> (scan: Scan)
    ensures
        scan@ == parse_spec(input@, credential@),
{
    let n = input.len();
    if n < 1 {
        return Scan::Incomplete;
    }
    if input[0] != SUPPORTED_VERSION {
        return Scan::Rejected(ProtocolError::UnsupportedVersion);
    }
    if n < 17 {
        return Scan::Incomplete;
    }
    if !credential.matches(slice_subrange(input, 1, 17)) {
        return Scan::Rejected(ProtocolError::AuthFailed);
    }
    if n < 18 {
        return Scan::Incomplete;
    }
    let command = input[17];
    let transport = if command == COMMAND_TCP {
        Transport::Tcp
    } else if command == COMMAND_UDP {
        Transport::Udp
    } else {
        return Scan::Rejected(ProtocolError::UnsupportedCommand);
    };
    if n < 21 {
        return Scan::Incomplete;
    }
    let port: u16 = (input[18] as u16) * 256 + (input[19] as u16);
    let kind = input[20];
    let ghost body = input@.skip(21);
    if kind == ADDR_IPV4 {
        if n < 25 {
            return Scan::Incomplete;
        }
        let a = read4(input, 21);
        assert(body.subrange(0, 4) =~= input@.subrange(21, 25));
        Scan::Accepted(Destination { address: Address::V4(a), port, transport }, 25)
    } else if kind == ADDR_DOMAIN {
        if n < 22 {
            return Scan::Incomplete;
        }
        let len = input[21] as usize;
        assert(body[0] == input@[21]);
        if len == 0 {
            return Scan::Rejected(ProtocolError::MalformedAddress);
        }
        if n < 22 + len {
            return Scan::Incomplete;
        }
        let name = slice_to_vec(slice_subrange(input, 22, 22 + len));
        assert(body.subrange(1, 1 + len) =~= input@.subrange(22, 22 + len));
        Scan::Accepted(Destination { address: Address::Domain(name), port, transport }, 22 + len)
    } else if kind == ADDR_IPV6 {
        if n < 37 {
            return Scan::Incomplete;
        }
        let a = read16(input, 21);
        assert(body.subrange(0, 16) =~= input@.subrange(21, 37));
        Scan::Accepted(Destination { address: Address::V6(a), port, transport }, 37)
    } else {
        Scan::Rejected(ProtocolError::MalformedAddress)
    }
}

/// Reads the header at the front of `input`, which is taken to be all there
/// is: the destination it names and the bytes that follow it, or the reason
/// why it is refused. A header cut short by the end of the input is a
/// malformed address.
pub fn parse_header(input: &[u8], credential: &Credential) -> (result: Result<
    (Destination, Vec<u8>),
    ProtocolError,
>)
    ensures
        match parse_spec(input@, credential@) {
            Parsed::Accepted { destination, consumed } => result matches Ok((d, rest))
                && d@ == destination && rest@ == input@.skip(consumed as int),
            Parsed::Rejected(e) => result == Err::<(Destination, Vec<u8>), ProtocolError>(e),
            Parsed::Incomplete => result == Err::<(Destination, Vec<u8>), ProtocolError>(
                ProtocolError::MalformedAddress,
            ),
        },
{
    match scan_header(input, credential) {
        Scan::Incomplete => Err(ProtocolError::MalformedAddress),
        Scan::Rejected(e) => Err(e),
        Scan::Accepted(destination, consumed) => {
            proof {
                lemma_accepted_fits(input@, credential@);
            }
            let rest = slice_to_vec(slice_subrange(input, consumed, input.len()));
            assert(rest@ =~= input@.skip(consumed as int));
            Ok((destination, rest))
        },
    }
}

/// An accepted header lies within the input, is no longer than
/// [`MAX_HEADER_LEN`], names a well-formed address, and carried the
/// credential it was checked against.
pub proof fn lemma_accepted_fits(input: Seq<u8>, credential: Seq<u8>)
    ensures
        parse_spec(input, credential) matches Parsed::Accepted { destination, consumed } ==> {
            &&& FIXED_LEN < consumed <= input.len()
            &&& consumed <= MAX_HEADER_LEN
            &&& destination.address.wf()
            &&& input.subrange(1, 17) == credential
        },
{
}

/// An input on which the verdict is still open is shorter than the longest
/// header: a codec never holds more than [`MAX_HEADER_LEN`] bytes back.
pub proof fn lemma_incomplete_is_short(input: Seq<u8>, credential: Seq<u8>)
    ensures
        parse_spec(input, credential) is Incomplete ==> input.len() < MAX_HEADER_LEN,
{
}

/// A verdict is final: once a prefix of the stream is accepted or rejected,
/// no bytes that follow change the verdict, the destination or the length of
/// the header.
pub proof fn lemma_verdict_is_final(input: Seq<u8>, more: Seq<u8>, credential: Seq<u8>)
    requires
        !(parse_spec(input, credential) is Incomplete),
    ensures
        parse_spec(input + more, credential) == parse_spec(input, credential),
{
    let all = input + more;
    assert(input.len() >= 1);
    assert(all[0] == input[0]);
    if input[0] == SUPPORTED_VERSION {
        assert(all.subrange(1, 17) =~= input.subrange(1, 17));
        if input.subrange(1, 17) == credential {
            assert(all[17] == input[17]);
            if transport_of(input[17]) is Some {
                assert(all[18] == input[18]);
                assert(all[19] == input[19]);
                assert(all[20] == input[20]);
                let body = input.skip(21);
                let all_body = all.skip(21);
                assert(all_body =~= body + more);
                lemma_address_is_final(input[20], body, more);
            }
        }
    }
}

/// The same for the address alone.
proof fn lemma_address_is_final(kind: u8, body: Seq<u8>, more: Seq<u8>)
    requires
        !(address_spec(kind, body) is Incomplete),
    ensures
        address_spec(kind, body + more) == address_spec(kind, body),
{
    let all = body + more;
    if kind == ADDR_IPV4 {
        assert(all.subrange(0, 4) =~= body.subrange(0, 4));
    } else if kind == ADDR_DOMAIN {
        assert(all[0] == body[0]);
        if body[0] != 0 {
            assert(all.subrange(1, 1 + body[0] as int) =~= body.subrange(1, 1 + body[0] as int));
        }
    } else if kind == ADDR_IPV6 {
        assert(all.subrange(0, 16) =~= body.subrange(0, 16));
    }
}

/// As long as the whole stream so far is undecided, so was every prefix of
/// it.
pub proof fn lemma_prefix_of_incomplete(input: Seq<u8>, more: Seq<u8>, credential: Seq<u8>)
    requires
        parse_spec(input + more, credential) is Incomplete,
    ensures
        parse_spec(input, credential) is Incomplete,
{
    if !(parse_spec(input, credential) is Incomplete) {
        lemma_verdict_is_final(input, more, credential);
    }
}

/// Parsing inverts encoding: the header that announces a destination under
/// the configured credential is accepted whatever follows it, yields that
/// very destination, and leaves everything after it as remainder.
pub proof fn lemma_parse_inverts_encode(
    credential: Seq<u8>,
    destination: DestinationView,
    rest: Seq<u8>,
)
    requires
        credential.len() == CREDENTIAL_LEN,
        destination.address.wf(),
    ensures
        parse_spec(encode_spec(credential, destination) + rest, credential) == (Parsed::Accepted {
            destination,
            consumed: encode_spec(credential, destination).len(),
        }),
        (encode_spec(credential, destination) + rest).skip(
            encode_spec(credential, destination).len() as int,
        ) == rest,
{
    let header = encode_spec(credential, destination);
    let input = header + rest;
    let fixed = seq![SUPPORTED_VERSION] + credential + seq![
        command_of(destination.transport),
        (destination.port / 256) as u8,
        (destination.port % 256) as u8,
    ];
    let enc = destination.address.encoding();
    assert(header == fixed + enc);
    assert(fixed.len() == 20);
    assert(input.subrange(1, 17) =~= credential);
    assert(input[17] == command_of(destination.transport));
    assert(input[18] == (destination.port / 256) as u8);
    assert(input[19] == (destination.port % 256) as u8);
    assert(port_of(input[18], input[19]) == destination.port);
    assert(input[20] == enc[0]);
    let body = input.skip(21);
    assert(body =~= enc.skip(1) + rest);
    match destination.address {
        AddressView::V4(a) => {
            assert(body.subrange(0, 4) =~= a);
        },
        AddressView::Domain(name) => {
            assert(body[0] == name.len() as u8);
            assert(body.subrange(1, 1 + body[0] as int) =~= name);
        },
        AddressView::V6(a) => {
            assert(body.subrange(0, 16) =~= a);
        },
    }
    assert(input.skip(header.len() as int) =~= rest);
}

/// A header whose credential field differs from the configured credential
/// is never accepted; if its version is the supported one, it is refused
/// for that very reason, as soon as the field is complete.
pub proof fn lemma_wrong_credential_is_refused(input: Seq<u8>, credential: Seq<u8>)
    requires
        input.len() >= 1 + CREDENTIAL_LEN,
        input.subrange(1, 17) != credential,
    ensures
        !(parse_spec(input, credential) is Accepted),
        input[0] == SUPPORTED_VERSION ==> parse_spec(input, credential) == Parsed::Rejected(
            ProtocolError::AuthFailed,
        ),
        input[0] != SUPPORTED_VERSION ==> parse_spec(input, credential) == Parsed::Rejected(
            ProtocolError::UnsupportedVersion,
        ),
{
}

/// What a codec says after a chunk.
#[derive(Clone, Debug, PartialEq, Eq)]
pub enum Progress {
    /// The header has not ended yet; the chunk is held back.
    NeedMore,
    /// The header is complete: the destination, and the bytes that arrived
    /// after it.
    Done(Destination, Vec<u8>),
    /// No header starts like this.
    Failed(ProtocolError),
}

/// Reads a header that may arrive in pieces. The codec holds back what it
/// was given until the verdict is in, and never reads for itself.
pub struct HeaderCodec {
    credential: Credential,
    buffer: Vec<u8>,
}

impl HeaderCodec {
    /// The credential that headers are checked against.
    pub closed spec fn credential(&self) -> Seq<u8> {
        self.credential@
    }

    /// The bytes held back so far.
    pub closed spec fn buffered(&self) -> Seq<u8> {
        self.buffer@
    }

    /// The bytes held back are an undecided prefix of a header.
    #[verifier::type_invariant]
    pub closed spec fn undecided(&self) -> bool {
        parse_spec(self.buffer@, self.credential@) is Incomplete
    }

    /// A codec that has seen nothing yet.
    pub fn new(credential: Credential) -> (codec: HeaderCodec)
        ensures
            codec.credential() == credential@,
            codec.buffered() == Seq::<u8>::empty(),
    {
        HeaderCodec { credential, buffer: Vec::new() }
    }

    /// Takes the next chunk of the stream. The verdict is the one on
    /// everything given so far; once it is in, the codec is empty again.
    pub fn push(&mut self, chunk: &[u8]) -> (progress: Progress)
        ensures
            final(self).credential() == old(self).credential(),
            match parse_spec(old(self).buffered() + chunk@, old(self).credential()) {
                Parsed::Incomplete => {
                    &&& progress is NeedMore
                    &&& final(self).buffered() == old(self).buffered() + chunk@
                },
                Parsed::Rejected(e) => {
                    &&& progress matches Progress::Failed(f)
                    &&& f == e
                    &&& final(self).buffered() == Seq::<u8>::empty()
                },
                Parsed::Accepted { destination, consumed } => {
                    &&& progress matches Progress::Done(d, rest)
                    &&& d@ == destination
                    &&& rest@ == (old(self).buffered() + chunk@).skip(consumed as int)
                    &&& final(self).buffered() == Seq::<u8>::empty()
                },
            },
    {
        let mut all: Vec<u8> = Vec::new();
        append(&mut all, self.buffer.as_slice());
        append(&mut all, chunk);
        match scan_header(all.as_slice(), &self.credential) {
            Scan::Incomplete => {
                self.buffer = all;
                Progress::NeedMore
            },
            Scan::Rejected(e) => {
                self.buffer = Vec::new();
                Progress::Failed(e)
            },
            Scan::Accepted(destination, consumed) => {
                proof {
                    lemma_accepted_fits(all@, self.credential@);
                }
                let rest = all.split_off(consumed);
                assert(rest@ =~= (old(self).buffered() + chunk@).skip(consumed as int));
                self.buffer = Vec::new();
                Progress::Done(destination, rest)
            },
        }
    }

    /// Gives up what is held back.
    pub fn clear(&mut self)
        ensures
            final(self).credential() == old(self).credential(),
            final(self).buffered() == Seq::<u8>::empty(),
    {
        self.buffer = Vec::new();
    }

    /// The stream has ended while the header was still open: the header is
    /// truncated, which makes its address malformed. What was held back is
    /// given up.
    pub fn finish(&mut self) -> (error: ProtocolError)
        ensures
            error == ProtocolError::MalformedAddress,
            final(self).credential() == old(self).credential(),
            final(self).buffered() == Seq::<u8>::empty(),
    {
        self.buffer = Vec::new();
        ProtocolError::MalformedAddress
    }

    /// Number of bytes held back, always less than [`MAX_HEADER_LEN`].
    pub fn buffered_len(&self) -> (len: usize)
        ensures
            len == self.buffered().len(),
            len < MAX_HEADER_LEN,
    {
        proof {
            use_type_invariant(self);
            lemma_incomplete_is_short(self.buffer@, self.credential@);
        }
        self.buffer.len()
    }
}

/// The header that announces `destination` under `credential`, or nothing
/// where the wire format cannot carry the address: a domain name that is
/// empty or longer than 255 bytes.
pub fn encode_header(credential: &Credential, destination: &Destination) -> (out: Option<Vec<u8>>)
    ensures
        match out {
            Some(bytes) => destination@.address.wf() && bytes@ == encode_spec(
                credential@,
                destination@,
            ),
            None => !destination@.address.wf(),
        },
{
    let mut out: Vec<u8> = Vec::new();
    out.push(SUPPORTED_VERSION);
    append(&mut out, credential.bytes.as_slice());
    out.push(
        match destination.transport {
            Transport::Tcp => COMMAND_TCP,
            Transport::Udp => COMMAND_UDP,
        },
    );
    out.push((destination.port / 256) as u8);
    out.push((destination.port % 256) as u8);
    let ghost fixed = out@;
    assert(fixed =~= seq![SUPPORTED_VERSION] + credential@ + seq![
        command_of(destination.transport),
        (destination.port / 256) as u8,
        (destination.port % 256) as u8,
    ]);
    match &destination.address {
        Address::V4(a) => {
            out.push(ADDR_IPV4);
            append(&mut out, a.as_slice());
            assert(out@ =~= fixed + (seq![ADDR_IPV4] + a@));
        },
        Address::Domain(name) => {
            let len = name.len();
            if len == 0 || len > 255 {
                return None;
            }
            out.push(ADDR_DOMAIN);
            out.push(len as u8);
            append(&mut out, name.as_slice());
            assert(out@ =~= fixed + (seq![ADDR_DOMAIN, name@.len() as u8] + name@));
        },
        Address::V6(a) => {
            out.push(ADDR_IPV6);
            append(&mut out, a.as_slice());
            assert(out@ =~= fixed + (seq![ADDR_IPV6] + a@));
        },
    }
    Some(out)
}

/// The verdict of a codec that holds `buffered` and is then given `chunks`
/// one after the other, up to its first verdict.
pub open spec fn feed_spec(buffered: Seq<u8>, chunks: Seq<Seq<u8>>, credential: Seq<u8>) -> Parsed
    decreases chunks.len(),
{
    if chunks.len() == 0 {
        Parsed::Incomplete
    } else if parse_spec(buffered + chunks[0], credential) is Incomplete {
        feed_spec(buffered + chunks[0], chunks.drop_first(), credential)
    } else {
        parse_spec(buffered + chunks[0], credential)
    }
}

/// What follows the header in that stream: the bytes that the codec hands
/// back with its verdict, and then every later chunk.
pub open spec fn fed_remainder(
    buffered: Seq<u8>,
    chunks: Seq<Seq<u8>>,
    credential: Seq<u8>,
) -> Seq<u8>
    decreases chunks.len(),
{
    if chunks.len() == 0 {
        Seq::empty()
    } else {
        match parse_spec(buffered + chunks[0], credential) {
            Parsed::Incomplete => fed_remainder(
                buffered + chunks[0],
                chunks.drop_first(),
                credential,
            ),
            Parsed::Rejected(_) => Seq::empty(),
            Parsed::Accepted { consumed, .. } => (buffered + chunks[0]).skip(consumed as int)
                + chunks.drop_first().flatten(),
        }
    }
}

/// How a stream is cut into chunks does not matter: a codec fed chunk by
/// chunk reaches the verdict that the whole stream has, and where that is
/// an accepted header, what follows the header in the stream is exactly
/// what the codec hands back together with the chunks after it.
pub proof fn lemma_chunking_is_irrelevant(
    buffered: Seq<u8>,
    chunks: Seq<Seq<u8>>,
    credential: Seq<u8>,
)
    requires
        parse_spec(buffered, credential) is Incomplete,
    ensures
        feed_spec(buffered, chunks, credential) == parse_spec(
            buffered + chunks.flatten(),
            credential,
        ),
        parse_spec(buffered + chunks.flatten(), credential) matches Parsed::Accepted {
            consumed,
            ..
        } ==> fed_remainder(buffered, chunks, credential) == (buffered + chunks.flatten()).skip(
            consumed as int,
        ),
    decreases chunks.len(),
{
    if chunks.len() == 0 {
        assert(buffered + chunks.flatten() =~= buffered);
    } else {
        let held = buffered + chunks[0];
        let later = chunks.drop_first().flatten();
        assert(buffered + chunks.flatten() =~= held + later);
        if parse_spec(held, credential) is Incomplete {
            lemma_chunking_is_irrelevant(held, chunks.drop_first(), credential);
        } else {
            lemma_verdict_is_final(held, later, credential);
            lemma_accepted_fits(held, credential);
            if let Parsed::Accepted { consumed, .. } = parse_spec(held, credential) {
                assert((held + later).skip(consumed as int) =~= held.skip(consumed as int) + later);
            }
        }
    }
}

} // verus!
