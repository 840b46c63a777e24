//! Conversion between raw hash bytes and their lowercase hex text form.
//!
//! The on-disk tree encoding stores raw hash bytes, while hashes travel
//! through the rest of the library as hex strings; this module converts
//! between the two and pins down exactly which inputs decode successfully.

use vstd::prelude::*;

verus! {

use vstd::string::StringSliceAdditionalSpecFns;

/// The UTF-8 bytes of a character sequence; for a `String` or `&str` value
/// `s`, `utf8_bytes(s@)` is the byte sequence `s.as_bytes()` yields.
pub open spec fn utf8_bytes(s: Seq<char>) -> Seq<u8> {
    vstd::utf8::encode_utf8(s)
}

/// Error returned when text that should be hexadecimal is not.
#[derive(Debug, PartialEq, Eq, Structural, Clone, Copy)]
pub enum HexError {
    /// The byte at this index of the input is not a hex digit.
    InvalidHexDigit(usize),
}

/// True when `b` is the ASCII code of a hex digit (`0-9`, `a-f`, `A-F`).
pub open spec fn is_hex_digit(b: u8) -> bool {
    (0x30 <= b <= 0x39) || (0x41 <= b <= 0x46) || (0x61 <= b <= 0x66)
}

/// Numeric value of the hex digit with ASCII code `b` (0 when not a digit).
pub open spec fn hex_val(b: u8) -> u8 {
    if 0x30 <= b <= 0x39 {
        (b - 0x30) as u8
    } else if 0x41 <= b <= 0x46 {
        (b - 0x41 + 10) as u8
    } else if 0x61 <= b <= 0x66 {
        (b - 0x61 + 10) as u8
    } else {
        0
    }
}

/// ASCII code of the lowercase hex digit for a nibble `n < 16`.
pub open spec fn hex_lower(n: u8) -> u8 {
    if n < 10 {
        (0x30 + n) as u8
    } else {
        (0x57 + n) as u8
    }
}

/// The lowercase hex encoding of a byte sequence: two digits per byte.
pub open spec fn bytes_to_hex_bytes(b: Seq<u8>) -> Seq<u8> {
    Seq::new(
        2 * b.len(),
        |i: int| if i % 2 == 0 { hex_lower(b[i / 2] / 16) } else { hex_lower(b[i / 2] % 16) },
    )
}

/// True when every byte of `s` that belongs to a complete digit pair is a
/// hex digit.  A final unpaired byte is never examined.
pub open spec fn hex_ok(s: Seq<u8>) -> bool {
    forall|i: int| 0 <= i < 2 * (s.len() / 2) ==> is_hex_digit(#[trigger] s[i])
}

/// The bytes decoded from hex text `s`, two digits per byte; a final
/// unpaired digit is dropped.  Meaningful when `hex_ok(s)`.
pub open spec fn decode_hex(s: Seq<u8>) -> Seq<u8> {
    Seq::new(s.len() / 2, |i: int| (16 * hex_val(s[2 * i]) + hex_val(s[2 * i + 1])) as u8)
}

/// True when `j` is the index of the first non-digit byte among the
/// complete pairs of `s`.
pub open spec fn first_bad(s: Seq<u8>, j: int) -> bool {
    &&& 0 <= j < 2 * (s.len() / 2)
    &&& !is_hex_digit(s[j])
    &&& forall|k: int| 0 <= k < j ==> is_hex_digit(#[trigger] s[k])
}

/// Numeric value of one hex digit byte, or `None` when it is not a digit.
fn hex_digit_value(b: u8) -> (r: Option<u8>)
    ensures
        r is Some <==> is_hex_digit(b),
        r is Some ==> r->0 == hex_val(b),
{
    if 0x30 <= b && b <= 0x39 {
        Some(b - 0x30)
    } else if 0x41 <= b && b <= 0x46 {
        Some(b - 0x41 + 10)
    } else if 0x61 <= b && b <= 0x66 {
        Some(b - 0x61 + 10)
    } else {
        None
    }
}

/// Decodes hex text into raw bytes, two digits per byte, rejecting the
/// input at the first byte (within a complete pair) that is not a hex
/// digit.  A final unpaired digit is silently dropped.
pub fn hex_to_bytes(hex: &str) -> (r: Result<Vec<u8>, HexError>)
    ensures
        r is Ok <==> hex_ok(hex.spec_bytes()),
        r matches Ok(v) ==> v@ == decode_hex(hex.spec_bytes()),
        r matches Err(HexError::InvalidHexDigit(j)) ==> first_bad(hex.spec_bytes(), j as int),
{
    let s = hex.as_bytes();
    let pairs = s.len() / 2;
    let mut out: Vec<u8> = Vec::new();
    let mut i: usize = 0;
    while i < pairs
        invariant
            0 <= i <= pairs,
            pairs == s@.len() / 2,
            s@.len() <= usize::MAX,
            s@ == hex.spec_bytes(),
            out@.len() == i,
            forall|k: int| 0 <= k < 2 * i ==> is_hex_digit(#[trigger] s@[k]),
            forall|k: int|
                0 <= k < i ==> #[trigger] out@[k] == (16 * hex_val(s@[2 * k]) + hex_val(
                    s@[2 * k + 1],
                )) as u8,
        decreases pairs - i,
    {
        let hi = match hex_digit_value(s[2 * i]) {
            Some(v) => v,
            None => {
                return Err(HexError::InvalidHexDigit(2 * i));
            },
        };
        let lo = match hex_digit_value(s[2 * i + 1]) {
            Some(v) => v,
            None => {
                return Err(HexError::InvalidHexDigit(2 * i + 1));
            },
        };
        out.push(16 * hi + lo);
        i = i + 1;
    }
    proof {
        assert(out@ =~= decode_hex(hex.spec_bytes()));
    }
    Ok(out)
}

/// The characters a byte sequence of ASCII codes stands for.
pub open spec fn ascii_seq(s: Seq<u8>) -> Seq<char> {
    s.map_values(|b: u8| b as char)
}

/// Relies on String::from_utf8: bytes below 0x80 are one-byte UTF-8
/// encodings of the characters with the same codes, so the returned string
/// holds exactly the given bytes, one character per byte.
#[verifier::external_body]
fn ascii_string(v: Vec<u8>) -> (r: String)
    requires
        forall|i: int| 0 <= i < v@.len() ==> #[trigger] v@[i] < 0x80,
    ensures
        r@.len() == v@.len(),
        forall|i: int| 0 <= i < v@.len() ==> #[trigger] r@[i] == v@[i] as char,
        utf8_bytes(r@) == v@,
{
    match String::from_utf8(v) {
        Ok(s) => s,
        Err(_) => String::new(),
    }
}

/// Encodes bytes as lowercase hex text, two digits per byte, no separators.
pub fn bytes_to_hex(data: &[u8]) -> (r: String)
    requires
        2 * data@.len() <= usize::MAX,
    ensures
        utf8_bytes(r@) == bytes_to_hex_bytes(data@),
        r@ == ascii_seq(bytes_to_hex_bytes(data@)),
{
    let n = data.len();
    let mut out: Vec<u8> = Vec::new();
    let mut i: usize = 0;
    while i < n
        invariant
            0 <= i <= n,
            n == data@.len(),
            out@.len() == 2 * i,
            forall|k: int| 0 <= k < 2 * i ==> #[trigger] out@[k] == bytes_to_hex_bytes(data@)[k],
        decreases n - i,
    {
        let b = data[i];
        let hi = b / 16;
        let lo = b % 16;
        out.push(if hi < 10 { 0x30 + hi } else { 0x57 + hi });
        out.push(if lo < 10 { 0x30 + lo } else { 0x57 + lo });
        i = i + 1;
    }
    proof {
        assert(out@ =~= bytes_to_hex_bytes(data@));
        assert forall|k: int| 0 <= k < out@.len() implies #[trigger] out@[k] < 0x80 by {
            assert(out@[k] == bytes_to_hex_bytes(data@)[k]);
        }
    }
    let s = ascii_string(out);
    proof {
        assert(s@ =~= ascii_seq(bytes_to_hex_bytes(data@)));
    }
    s
}

/// Law: hex encoding round-trips.  The hex text of any byte sequence is
/// valid hex, and decoding it gives back exactly the original bytes.
pub proof fn lemma_hex_round_trip(b: Seq<u8>)
    ensures
        hex_ok(bytes_to_hex_bytes(b)),
        decode_hex(bytes_to_hex_bytes(b)) == b,
{
    let h = bytes_to_hex_bytes(b);
    assert(h.len() == 2 * b.len());
    assert forall|i: int| 0 <= i < 2 * (h.len() / 2) implies is_hex_digit(#[trigger] h[i]) by {
        let v = if i % 2 == 0 {
            b[i / 2] / 16
        } else {
            b[i / 2] % 16
        };
        assert(v < 16);
        assert(h[i] == hex_lower(v));
    }
    assert forall|i: int| 0 <= i < h.len() / 2 implies #[trigger] decode_hex(h)[i] == b[i] by {
        let x = b[i];
        assert(h[2 * i] == hex_lower(x / 16));
        assert(h[2 * i + 1] == hex_lower(x % 16));
        assert(hex_val(hex_lower(x / 16)) == x / 16);
        assert(hex_val(hex_lower(x % 16)) == x % 16);
        assert(16 * (x / 16) + x % 16 == x) by {
            vstd::arithmetic::div_mod::lemma_fundamental_div_mod(x as int, 16);
        }
    }
    assert(decode_hex(h) =~= b);
}

} // verus!

