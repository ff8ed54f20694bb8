use tunnel_relay::header::Credential;
use tunnel_relay::hex::format_credential;
use tunnel_relay::hex::parse_credential;
use tunnel_relay::hex::parse_credential_str;

const BYTES: [u8; 16] = [
    0x10, 0x11, 0x12, 0x13, 0x14, 0x15, 0x16, 0x17, 0x18, 0x19, 0x1a, 0x1b, 0x1c, 0x1d, 0x1e, 0x1f,
];

fn bytes_of(parsed: Option<Credential>) -> Option<[u8; 16]> {
    parsed.map(|c| c.bytes)
}

#[test]
fn reads_plain_digits() {
    assert_eq!(bytes_of(parse_credential_str("101112131415161718191a1b1c1d1e1f")), Some(BYTES));
    assert_eq!(bytes_of(parse_credential(b"101112131415161718191a1b1c1d1e1f")), Some(BYTES));
}

#[test]
fn reads_digits_with_hyphens() {
    assert_eq!(
        bytes_of(parse_credential_str("10111213-1415-1617-1819-1a1b1c1d1e1f")),
        Some(BYTES)
    );
    assert_eq!(
        bytes_of(parse_credential_str("-1-0111213141516171819-1a1b1c1d1e1f--")),
        Some(BYTES)
    );
}

#[test]
fn reads_either_case() {
    assert_eq!(
        bytes_of(parse_credential_str("10111213-1415-1617-1819-1A1B1C1D1E1F")),
        Some(BYTES)
    );
    assert_eq!(
        bytes_of(parse_credential_str("00ff00FFabcdefABCDEF0123456789aA")),
        Some([
            0x00, 0xff, 0x00, 0xff, 0xab, 0xcd, 0xef, 0xab, 0xcd, 0xef, 0x01, 0x23, 0x45, 0x67,
            0x89, 0xaa
        ])
    );
}

#[test]
fn refuses_what_is_no_credential() {
    assert_eq!(bytes_of(parse_credential_str("")), None);
    assert_eq!(bytes_of(parse_credential_str("--------")), None);
    assert_eq!(bytes_of(parse_credential_str("101112131415161718191a1b1c1d1e1")), None);
    assert_eq!(bytes_of(parse_credential_str("101112131415161718191a1b1c1d1e1f0")), None);
    assert_eq!(bytes_of(parse_credential_str("101112131415161718191a1b1c1d1e1g")), None);
    assert_eq!(bytes_of(parse_credential_str("g01112131415161718191a1b1c1d1e1f")), None);
    assert_eq!(bytes_of(parse_credential_str("10111213 1415161718191a1b1c1d1e1f")), None);
    assert_eq!(bytes_of(parse_credential_str("1011121314151617/8191a1b1c1d1e1f")), None);
    assert_eq!(bytes_of(parse_credential_str("1011121314151617:8191a1b1c1d1e1f")), None);
    assert_eq!(bytes_of(parse_credential_str("1011121314151617@8191a1b1c1d1e1f")), None);
    assert_eq!(bytes_of(parse_credential_str("1011121314151617`8191a1b1c1d1e1f")), None);
    assert_eq!(bytes_of(parse_credential_str("1011121314151617G8191a1b1c1d1e1f")), None);
}

#[test]
fn spells_lower_case_digits() {
    assert_eq!(
        format_credential(&Credential::new(BYTES)),
        b"101112131415161718191a1b1c1d1e1f".to_vec()
    );
    assert_eq!(
        format_credential(&Credential::new([0xff; 16])),
        b"ffffffffffffffffffffffffffffffff".to_vec()
    );
    assert_eq!(
        format_credential(&Credential::new([0x09, 0x0a, 0x90, 0xa0, 0, 0, 0, 0, 0, 0, 0, 0, 0, 0, 0, 0x0f])),
        b"090a90a00000000000000000000000" .iter().copied().chain(b"0f".iter().copied()).collect::<Vec<u8>>()
    );
}

#[test]
fn reading_inverts_spelling() {
    let mut seed: u8 = 0;
    let mut round: usize = 0;
    while round < 64 {
        let mut bytes: [u8; 16] = [0; 16];
        for b in bytes.iter_mut() {
            seed = seed.wrapping_mul(167).wrapping_add(13);
            *b = seed;
        }
        let text: Vec<u8> = format_credential(&Credential::new(bytes));
        assert_eq!(text.len(), 32);
        assert_eq!(bytes_of(parse_credential(&text)), Some(bytes));
        round += 1;
    }
}
