//! Credentials as text: thirty-two hexadecimal digits, with hyphens
//! wherever the writer liked to put them, as in
//! `10111213-1415-1617-1819-1a1b1c1d1e1f`.

use crate::header::Credential;
use vstd::prelude::*;
use vstd::string::StringSliceAdditionalSpecFns;

verus! {

/// The byte `-`.
pub const HYPHEN: u8 = 45;

/// The value of a hexadecimal digit, in either case.
pub open spec fn hex_value(c: u8) -> Option<u8> {
    if 48 <= c <= 57 {
        Some((c - 48) as u8)
    } else if 97 <= c <= 102 {
        Some((c - 87) as u8)
    } else if 65 <= c <= 70 {
        Some((c - 55) as u8)
    } else {
        None
    }
}

/// The digit, in lower case, of a value below sixteen.
pub open spec fn hex_digit(v: u8) -> u8 {
    if v < 10 {
        (48 + v) as u8
    } else {
        (87 + v) as u8
    }
}

/// The text without its hyphens.
pub open spec fn digits_of(text: Seq<u8>) -> Seq<u8>
    decreases text.len(),
{
    if text.len() == 0 {
        Seq::empty()
    } else if text.last() == HYPHEN {
        digits_of(text.drop_last())
    } else {
        digits_of(text.drop_last()).push(text.last())
    }
}

/// The credential that a text spells, if it spells one: without its
/// hyphens it is thirty-two hexadecimal digits, two to a byte, the high
/// half first.
pub open spec fn credential_of(text: Seq<u8>) -> Option<Seq<u8>> {
    let d = digits_of(text);
    if d.len() == 32 && forall|i: int| 0 <= i < 32 ==> hex_value(#[trigger] d[i]) is Some {
        Some(
            Seq::new(
                16,
                |i: int| (hex_value(d[2 * i])->0 * 16 + hex_value(d[2 * i + 1])->0) as u8,
            ),
        )
    } else {
        None
    }
}

/// The thirty-two digits that spell `bytes`, in lower case.
pub open spec fn text_of(bytes: Seq<u8>) -> Seq<u8> {
    Seq::new(
        32,
        |i: int|
            if i % 2 == 0 {
                hex_digit(bytes[i / 2] / 16)
            } else {
                hex_digit(bytes[i / 2] % 16)
            },
    )
}

/// The value of a hexadecimal digit, in either case.
fn value_of(c: u8) -> (v: Option<u8>)
    ensures
        v == hex_value(c),
        v matches Some(x) ==> x < 16,
{
    if 48 <= c && c <= 57 {
        Some(c - 48)
    } else if 97 <= c && c <= 102 {
        Some(c - 87)
    } else if 65 <= c && c <= 70 {
        Some(c - 55)
    } else {
        None
    }
}

/// The digit, in lower case, of a value below sixteen.
fn digit_of(v: u8) -> (c: u8)
    requires
        v < 16,
    ensures
        c == hex_digit(v),
{
    if v < 10 {
        48 + v
    } else {
        87 + v
    }
}

/// Reads a credential from text. Hyphens are skipped; what is left must be
/// exactly thirty-two hexadecimal digits.
pub fn parse_credential(text: &[u8]) -> (parsed: Option<Credential>)
    ensures
        match parsed {
            Some(c) => credential_of(text@) == Some(c@),
            None => credential_of(text@) is None,
        },
{
    let n = text.len();
    let mut digits: Vec<u8> = Vec::new();
    let mut i: usize = 0;
    while i < n
        invariant
            i <= n,
            n == text@.len(),
            digits@ == digits_of(text@.subrange(0, i as int)),
        decreases n - i,
    {
        let ghost before = text@.subrange(0, i as int);
        let ghost after = text@.subrange(0, i + 1);
        assert(after.drop_last() =~= before);
        assert(after.last() == text@[i as int]);
        if text[i] != HYPHEN {
            digits.push(text[i]);
        }
        i += 1;
    }
    assert(text@.subrange(0, n as int) =~= text@);
    if digits.len() != 32 {
        return None;
    }
    let mut bytes: [u8; 16] = [0u8; 16];
    let mut k: usize = 0;
    while k < 16
        invariant
            k <= 16,
            digits@.len() == 32,
            digits@ == digits_of(text@),
            forall|j: int| 0 <= j < 2 * k ==> hex_value(#[trigger] digits@[j]) is Some,
            forall|j: int|
                0 <= j < k ==> bytes@[j] == (hex_value(digits@[2 * j])->0 * 16 + hex_value(
                    digits@[2 * j + 1],
                )->0) as u8,
        decreases 16 - k,
    {
        let hi = value_of(digits[2 * k]);
        let lo = value_of(digits[2 * k + 1]);
        match (hi, lo) {
            (Some(h), Some(l)) => {
                bytes[k] = h * 16 + l;
            },
            _ => {
                assert(hex_value(digits@[2 * k as int]) is None || hex_value(
                    digits@[2 * k + 1],
                ) is None);
                return None;
            },
        }
        assert forall|j: int| 0 <= j < 2 * (k + 1) implies hex_value(
            #[trigger] digits@[j],
        ) is Some by {
            if j == 2 * k {
            } else if j == 2 * k + 1 {
            }
        }
        k += 1;
    }
    assert(bytes@ =~= credential_of(text@)->0);
    Some(Credential { bytes })
}

/// Reads a credential from text. Hyphens are skipped; what is left must be
/// exactly thirty-two hexadecimal digits.
pub fn parse_credential_str(text: &str) -> (parsed: Option<Credential>)
    ensures
        match parsed {
            Some(c) => credential_of(text.spec_bytes()) == Some(c@),
            None => credential_of(text.spec_bytes()) is None,
        },
{
    parse_credential(text.as_bytes())
}

/// Spells a credential as thirty-two hexadecimal digits in lower case.
pub fn format_credential(credential: &Credential) -> (text: Vec<u8>)
    ensures
        text@ == text_of(credential@),
{
    let mut text: Vec<u8> = Vec::new();
    let mut k: usize = 0;
    while k < 16
        invariant
            k <= 16,
            text@.len() == 2 * k,
            forall|j: int| 0 <= j < 2 * k ==> text@[j] == text_of(credential@)[j],
        decreases 16 - k,
    {
        let b = credential.bytes[k];
        text.push(digit_of(b / 16));
        text.push(digit_of(b % 16));
        k += 1;
    }
    assert(text@ =~= text_of(credential@));
    text
}

/// A text without hyphens is its own digits.
proof fn lemma_digits_of_plain(text: Seq<u8>)
    requires
        forall|i: int| 0 <= i < text.len() ==> text[i] != HYPHEN,
    ensures
        digits_of(text) == text,
    decreases text.len(),
{
    if text.len() > 0 {
        lemma_digits_of_plain(text.drop_last());
        assert(text.drop_last().push(text.last()) =~= text);
    }
}

/// Reading inverts spelling: the text that spells a credential reads as
/// that credential.
pub proof fn lemma_parse_inverts_format(bytes: Seq<u8>)
    requires
        bytes.len() == 16,
    ensures
        credential_of(text_of(bytes)) == Some(bytes),
{
    let text = text_of(bytes);
    lemma_digits_of_plain(text);
    assert forall|i: int| 0 <= i < 32 implies hex_value(#[trigger] text[i]) is Some by {
        let b = bytes[i / 2];
        assert(b / 16 < 16 && b % 16 < 16);
    }
    let read = credential_of(text)->0;
    assert forall|j: int| 0 <= j < 16 implies read[j] == bytes[j] by {
        let b = bytes[j];
        assert((2 * j) / 2 == j && (2 * j) % 2 == 0);
        assert((2 * j + 1) / 2 == j && (2 * j + 1) % 2 == 1);
        assert(text[2 * j] == hex_digit(b / 16));
        assert(text[2 * j + 1] == hex_digit(b % 16));
        assert(hex_value(hex_digit(b / 16)) == Some(b / 16));
        assert(hex_value(hex_digit(b % 16)) == Some(b % 16));
        assert((b / 16) * 16 + b % 16 == b);
    }
    assert(read =~= bytes);
}

} // verus!
