use tunnel_relay::header::encode_header;
use tunnel_relay::header::parse_header;
use tunnel_relay::header::scan_header;
use tunnel_relay::header::Address;
use tunnel_relay::header::Credential;
use tunnel_relay::header::Destination;
use tunnel_relay::header::HeaderCodec;
use tunnel_relay::header::Progress;
use tunnel_relay::header::ProtocolError;
use tunnel_relay::header::Scan;
use tunnel_relay::header::Transport;
use tunnel_relay::header::MAX_HEADER_LEN;

fn credential() -> Credential {
    Credential::new([
        0x10, 0x11, 0x12, 0x13, 0x14, 0x15, 0x16, 0x17, 0x18, 0x19, 0x1a, 0x1b, 0x1c, 0x1d, 0x1e,
        0x1f,
    ])
}

fn fixed_part(command: u8, port_hi: u8, port_lo: u8) -> Vec<u8> {
    let mut out: Vec<u8> = vec![0x01];
    out.extend_from_slice(&credential().bytes);
    out.push(command);
    out.push(port_hi);
    out.push(port_lo);
    out
}

fn domain_header(name: &[u8], port_hi: u8, port_lo: u8) -> Vec<u8> {
    let mut out: Vec<u8> = fixed_part(1, port_hi, port_lo);
    out.push(2);
    out.push(name.len() as u8);
    out.extend_from_slice(name);
    out
}

#[test]
fn parses_ipv4_over_tcp() {
    let mut input: Vec<u8> = fixed_part(1, 0x1f, 0x90);
    input.extend_from_slice(&[1, 192, 0, 2, 7]);
    let expected = Destination {
        address: Address::V4([192, 0, 2, 7]),
        port: 8080,
        transport: Transport::Tcp,
    };
    assert_eq!(parse_header(&input, &credential()), Ok((expected, Vec::new())));
}

#[test]
fn parses_domain_with_big_endian_port() {
    let input: Vec<u8> = domain_header(b"example.com", 0x01, 0xbb);
    let expected = Destination {
        address: Address::Domain(b"example.com".to_vec()),
        port: 443,
        transport: Transport::Tcp,
    };
    assert_eq!(input.len(), 33);
    assert_eq!(parse_header(&input, &credential()), Ok((expected, Vec::new())));
}

#[test]
fn parses_ipv6_over_udp() {
    let mut input: Vec<u8> = fixed_part(2, 0x00, 0x35);
    input.push(3);
    let address: [u8; 16] = [0x20, 0x01, 0x0d, 0xb8, 0, 0, 0, 0, 0, 0, 0, 0, 0, 0, 0, 0x01];
    input.extend_from_slice(&address);
    let expected =
        Destination { address: Address::V6(address), port: 53, transport: Transport::Udp };
    assert_eq!(parse_header(&input, &credential()), Ok((expected, Vec::new())));
}

#[test]
fn bytes_after_the_header_are_remainder() {
    let mut input: Vec<u8> = domain_header(b"a.io", 0x00, 0x50);
    input.extend_from_slice(&[1, 2, 3, 4, 5]);
    let (destination, rest) = parse_header(&input, &credential()).unwrap();
    assert_eq!(destination.address, Address::Domain(b"a.io".to_vec()));
    assert_eq!(destination.port, 80);
    assert_eq!(rest, vec![1, 2, 3, 4, 5]);
}

#[test]
fn remainder_that_looks_like_a_header_is_not_parsed_again() {
    let header: Vec<u8> = domain_header(b"a.io", 0x00, 0x50);
    let mut input: Vec<u8> = header.clone();
    input.extend_from_slice(&header);
    let (_, rest) = parse_header(&input, &credential()).unwrap();
    assert_eq!(rest, header);
}

#[test]
fn unsupported_version_is_refused_at_the_first_byte() {
    assert_eq!(parse_header(&[0x02], &credential()), Err(ProtocolError::UnsupportedVersion));
    assert_eq!(parse_header(&[0x00], &credential()), Err(ProtocolError::UnsupportedVersion));
    let mut input: Vec<u8> = domain_header(b"a.io", 0, 80);
    input[0] = 0x02;
    assert_eq!(parse_header(&input, &credential()), Err(ProtocolError::UnsupportedVersion));
}

#[test]
fn wrong_credential_is_auth_failed() {
    let mut input: Vec<u8> = domain_header(b"a.io", 0, 80);
    input[16] ^= 0x01;
    assert_eq!(parse_header(&input, &credential()), Err(ProtocolError::AuthFailed));
    let mut first: Vec<u8> = domain_header(b"a.io", 0, 80);
    first[1] = 0xff;
    assert_eq!(parse_header(&first, &credential()), Err(ProtocolError::AuthFailed));
}

#[test]
fn version_is_judged_before_credential() {
    let mut input: Vec<u8> = domain_header(b"a.io", 0, 80);
    input[0] = 0x03;
    input[5] ^= 0xff;
    assert_eq!(parse_header(&input, &credential()), Err(ProtocolError::UnsupportedVersion));
}

#[test]
fn unknown_command_is_refused() {
    let mut input: Vec<u8> = fixed_part(3, 0, 80);
    input.extend_from_slice(&[1, 10, 0, 0, 1]);
    assert_eq!(parse_header(&input, &credential()), Err(ProtocolError::UnsupportedCommand));
    let mut zero: Vec<u8> = fixed_part(0, 0, 80);
    zero.extend_from_slice(&[1, 10, 0, 0, 1]);
    assert_eq!(parse_header(&zero, &credential()), Err(ProtocolError::UnsupportedCommand));
}

#[test]
fn unknown_address_type_is_malformed() {
    let mut input: Vec<u8> = fixed_part(1, 0, 80);
    input.extend_from_slice(&[4, 10, 0, 0, 1]);
    assert_eq!(parse_header(&input, &credential()), Err(ProtocolError::MalformedAddress));
    let mut zero: Vec<u8> = fixed_part(1, 0, 80);
    zero.push(0);
    assert_eq!(parse_header(&zero, &credential()), Err(ProtocolError::MalformedAddress));
}

#[test]
fn empty_domain_is_malformed() {
    let input: Vec<u8> = domain_header(b"", 0, 80);
    assert_eq!(parse_header(&input, &credential()), Err(ProtocolError::MalformedAddress));
    assert_eq!(
        scan_header(&input, &credential()),
        Scan::Rejected(ProtocolError::MalformedAddress)
    );
}

#[test]
fn truncated_header_is_malformed_when_input_is_whole() {
    let input: Vec<u8> = domain_header(b"example.com", 0x01, 0xbb);
    let mut cut: usize = 0;
    while cut < input.len() {
        assert_eq!(
            parse_header(&input[..cut], &credential()),
            Err(ProtocolError::MalformedAddress),
            "cut at {}",
            cut
        );
        assert_eq!(scan_header(&input[..cut], &credential()), Scan::Incomplete);
        cut += 1;
    }
}

#[test]
fn scan_reports_header_length() {
    let mut input: Vec<u8> = domain_header(b"example.com", 0x01, 0xbb);
    input.extend_from_slice(&[9, 9, 9]);
    let expected = Destination {
        address: Address::Domain(b"example.com".to_vec()),
        port: 443,
        transport: Transport::Tcp,
    };
    assert_eq!(scan_header(&input, &credential()), Scan::Accepted(expected, 33));
}

#[test]
fn longest_domain_is_accepted() {
    let name: Vec<u8> = vec![b'x'; 255];
    let input: Vec<u8> = domain_header(&name, 0xff, 0xff);
    assert_eq!(input.len(), MAX_HEADER_LEN);
    let (destination, rest) = parse_header(&input, &credential()).unwrap();
    assert_eq!(destination.address, Address::Domain(name));
    assert_eq!(destination.port, 65535);
    assert!(rest.is_empty());
}

#[test]
fn credential_matches_only_itself() {
    let c = credential();
    assert!(c.matches(&c.bytes));
    let mut other: [u8; 16] = c.bytes;
    other[15] ^= 0x80;
    assert!(!c.matches(&other));
    other = c.bytes;
    other[0] ^= 0x01;
    assert!(!c.matches(&other));
    assert!(!c.matches(&c.bytes[..15]));
    assert!(!c.matches(&[]));
    let mut longer: Vec<u8> = c.bytes.to_vec();
    longer.push(0);
    assert!(!c.matches(&longer));
}

#[test]
fn codec_gives_the_same_verdict_byte_by_byte() {
    let mut input: Vec<u8> = domain_header(b"example.com", 0x01, 0xbb);
    input.extend_from_slice(&[7, 8, 9]);
    let expected = parse_header(&input[..33], &credential()).unwrap().0;
    let mut codec = HeaderCodec::new(credential());
    let mut i: usize = 0;
    while i < 32 {
        assert_eq!(codec.push(&input[i..i + 1]), Progress::NeedMore, "byte {}", i);
        assert_eq!(codec.buffered_len(), i + 1);
        i += 1;
    }
    assert_eq!(codec.push(&input[32..33]), Progress::Done(expected, Vec::new()));
    assert_eq!(codec.buffered_len(), 0);
}

#[test]
fn codec_hands_back_what_follows_the_header() {
    let mut input: Vec<u8> = domain_header(b"example.com", 0x01, 0xbb);
    input.extend_from_slice(&[7, 8, 9]);
    let expected = parse_header(&input, &credential()).unwrap();
    let mut split: usize = 0;
    while split <= 33 {
        let mut codec = HeaderCodec::new(credential());
        if split < 33 {
            assert_eq!(codec.push(&input[..split]), Progress::NeedMore, "split {}", split);
            assert_eq!(
                codec.push(&input[split..]),
                Progress::Done(expected.0.clone(), expected.1.clone())
            );
        } else {
            assert_eq!(
                codec.push(&input[..split]),
                Progress::Done(expected.0.clone(), Vec::new())
            );
        }
        split += 1;
    }
}

#[test]
fn codec_fails_as_soon_as_the_field_is_complete() {
    let mut input: Vec<u8> = domain_header(b"example.com", 0x01, 0xbb);
    input[3] ^= 0x40;
    let mut codec = HeaderCodec::new(credential());
    assert_eq!(codec.push(&input[..16]), Progress::NeedMore);
    assert_eq!(codec.push(&input[16..17]), Progress::Failed(ProtocolError::AuthFailed));
    assert_eq!(codec.buffered_len(), 0);
    let mut second = HeaderCodec::new(credential());
    assert_eq!(second.push(&[]), Progress::NeedMore);
    assert_eq!(second.push(&[0x02]), Progress::Failed(ProtocolError::UnsupportedVersion));
}

#[test]
fn codec_finish_reports_truncation() {
    let input: Vec<u8> = domain_header(b"example.com", 0x01, 0xbb);
    let mut codec = HeaderCodec::new(credential());
    assert_eq!(codec.push(&input[..25]), Progress::NeedMore);
    assert_eq!(codec.finish(), ProtocolError::MalformedAddress);
    assert_eq!(codec.buffered_len(), 0);
}

#[test]
fn encode_spells_the_wire_layout() {
    let destination = Destination {
        address: Address::Domain(b"example.com".to_vec()),
        port: 443,
        transport: Transport::Tcp,
    };
    assert_eq!(
        encode_header(&credential(), &destination),
        Some(domain_header(b"example.com", 0x01, 0xbb))
    );
    let v4 = Destination {
        address: Address::V4([10, 1, 2, 3]),
        port: 0x1234,
        transport: Transport::Udp,
    };
    let mut expected: Vec<u8> = fixed_part(2, 0x12, 0x34);
    expected.extend_from_slice(&[1, 10, 1, 2, 3]);
    assert_eq!(encode_header(&credential(), &v4), Some(expected));
}

#[test]
fn encode_refuses_what_the_wire_cannot_carry() {
    let empty = Destination {
        address: Address::Domain(Vec::new()),
        port: 1,
        transport: Transport::Tcp,
    };
    assert_eq!(encode_header(&credential(), &empty), None);
    let long = Destination {
        address: Address::Domain(vec![b'a'; 256]),
        port: 1,
        transport: Transport::Tcp,
    };
    assert_eq!(encode_header(&credential(), &long), None);
}

#[test]
fn parse_inverts_encode() {
    let destinations: Vec<Destination> = vec![
        Destination { address: Address::V4([0, 0, 0, 0]), port: 0, transport: Transport::Tcp },
        Destination {
            address: Address::V6([0xff; 16]),
            port: 65535,
            transport: Transport::Udp,
        },
        Destination {
            address: Address::Domain(vec![0x26; 1]),
            port: 256,
            transport: Transport::Tcp,
        },
        Destination {
            address: Address::Domain(vec![0x00; 255]),
            port: 255,
            transport: Transport::Udp,
        },
    ];
    for destination in destinations {
        let mut input: Vec<u8> = encode_header(&credential(), &destination).unwrap();
        let rest: Vec<u8> = vec![0x01, 0x02, 0x00, 0xff];
        input.extend_from_slice(&rest);
        assert_eq!(parse_header(&input, &credential()), Ok((destination.duplicate(), rest)));
    }
}
