//! Hexadecimal text for bytes, through the `hex` crate.
use vstd::prelude::*;

verus! {

/// Why text could not be read as hexadecimal.
#[derive(Debug, Clone, Copy, PartialEq, Eq)]
pub enum HexError {
    /// A character that is not a hexadecimal digit, and its position.
    InvalidHexCharacter { c: char, index: usize },
    /// An odd number of digits.
    OddLength,
    /// A length that does not fit the output.
    InvalidStringLength,
}

/// The value of a hexadecimal digit, either case.
pub open spec fn hex_digit_value(c: u8) -> Option<u8> {
    if 0x30 <= c <= 0x39 {
        Some((c - 0x30) as u8)
    } else if 0x61 <= c <= 0x66 {
        Some((c - 0x61 + 10) as u8)
    } else if 0x41 <= c <= 0x46 {
        Some((c - 0x41 + 10) as u8)
    } else {
        None
    }
}

/// Reads the first `n` pairs of digits of `s`, in order; the first bad digit stops it.
pub open spec fn hex_pairs(s: Seq<u8>, n: nat) -> Result<Seq<u8>, HexError>
    decreases n,
{
    if n == 0 {
        Ok(Seq::empty())
    } else {
        match hex_pairs(s, (n - 1) as nat) {
            Err(e) => Err(e),
            Ok(out) => {
                let i = 2 * (n - 1);
                match hex_digit_value(s[i]) {
                    None => Err(HexError::InvalidHexCharacter { c: s[i] as char, index: i as usize }),
                    Some(hi) => match hex_digit_value(s[i + 1]) {
                        None => Err(
                            HexError::InvalidHexCharacter {
                                c: s[i + 1] as char,
                                index: (i + 1) as usize,
                            },
                        ),
                        Some(lo) => Ok(out.push((hi * 16 + lo) as u8)),
                    },
                }
            },
        }
    }
}

/// The bytes that the hexadecimal text `s` stands for.
pub open spec fn spec_hex_decode(s: Seq<u8>) -> Result<Seq<u8>, HexError> {
    if s.len() % 2 != 0 {
        Err(HexError::OddLength)
    } else {
        hex_pairs(s, s.len() / 2)
    }
}

/// The lower-case hexadecimal digit for a value below 16.
pub open spec fn hex_digit(v: u8) -> char {
    if v < 10 {
        (0x30 + v) as char
    } else {
        (0x61 + v - 10) as char
    }
}

/// The lower-case hexadecimal text for `b`, two digits a byte.
pub open spec fn spec_hex_encode(b: Seq<u8>) -> Seq<char>
    decreases b.len(),
{
    if b.len() == 0 {
        Seq::empty()
    } else {
        spec_hex_encode(b.drop_last()) + seq![hex_digit(b.last() / 16), hex_digit(b.last() % 16)]
    }
}

/// The bytes of text made of ASCII characters.
pub open spec fn ascii_bytes(s: Seq<char>) -> Seq<u8> {
    s.map_values(|c: char| c as u8)
}

proof fn lemma_hex_digit_value(v: u8)
    requires
        v < 16,
    ensures
        hex_digit_value(hex_digit(v) as u8) == Some(v),
{
    if v < 10 {
        assert(((0x30 + v) as char) as u8 == 0x30 + v);
    } else {
        assert(((0x61 + v - 10) as char) as u8 == 0x61 + v - 10);
    }
}

proof fn lemma_hex_pairs_prefix(s: Seq<u8>, t: Seq<u8>, n: nat)
    requires
        2 * n <= s.len(),
        2 * n <= t.len(),
        forall|i: int| 0 <= i < 2 * n ==> s[i] == t[i],
    ensures
        hex_pairs(s, n) == hex_pairs(t, n),
    decreases n,
{
    if n > 0 {
        lemma_hex_pairs_prefix(s, t, (n - 1) as nat);
    }
}

proof fn lemma_hex_encode_len(b: Seq<u8>)
    ensures
        spec_hex_encode(b).len() == 2 * b.len(),
    decreases b.len(),
{
    if b.len() > 0 {
        lemma_hex_encode_len(b.drop_last());
    }
}

/// Law: reading back the hexadecimal text of bytes gives the bytes.
pub proof fn hex_decode_of_encode(b: Seq<u8>)
    ensures
        spec_hex_decode(ascii_bytes(spec_hex_encode(b))) == Ok::<Seq<u8>, HexError>(b),
    decreases b.len(),
{
    lemma_hex_encode_len(b);
    let s = ascii_bytes(spec_hex_encode(b));
    if b.len() == 0 {
        assert(s.len() == 0);
        assert(b =~= Seq::<u8>::empty());
    } else {
        let init = b.drop_last();
        hex_decode_of_encode(init);
        lemma_hex_encode_len(init);
        let s0 = ascii_bytes(spec_hex_encode(init));
        let n = b.len();
        assert forall|i: int| 0 <= i < 2 * (n - 1) implies s[i] == s0[i] by {
            assert(spec_hex_encode(b)[i] == spec_hex_encode(init)[i]);
        }
        lemma_hex_pairs_prefix(s, s0, (n - 1) as nat);
        assert(s0.len() % 2 == 0);
        assert(s0.len() / 2 == n - 1);
        let hi = b.last() / 16;
        let lo = b.last() % 16;
        lemma_hex_digit_value(hi);
        lemma_hex_digit_value(lo);
        assert(s[2 * (n - 1)] == hex_digit(hi) as u8);
        assert(s[2 * (n - 1) + 1] == hex_digit(lo) as u8);
        assert((hi * 16 + lo) as u8 == b.last()) by (nonlinear_arith)
            requires
                hi == b.last() / 16,
                lo == b.last() % 16,
        ;
        assert(init.push(b.last()) =~= b);
        assert(s.len() / 2 == n);
        assert(hex_pairs(s, (n - 1) as nat) == Ok::<Seq<u8>, HexError>(init));
        assert(hex_pairs(s, n as nat) == Ok::<Seq<u8>, HexError>(init.push(b.last())));
    }
}

/// Reads hexadecimal text with `hex::decode`: an error for an odd number of
/// digits, else for the first character that is not a digit (either case),
/// else the bytes, each from a pair of digits, high digit first.
#[verifier::external_body]
pub(crate) fn hex_decode(data: &[u8]) -> (r: Result<Vec<u8>, HexError>)
    ensures
        match r {
            Ok(b) => spec_hex_decode(data@) == Ok::<Seq<u8>, HexError>(b@),
            Err(e) => spec_hex_decode(data@) == Err::<Seq<u8>, HexError>(e),
        },
{
    match hex::decode(data) {
        Ok(b) => Ok(b),
        Err(::hex::FromHexError::InvalidHexCharacter { c, index }) => Err(
            HexError::InvalidHexCharacter { c, index },
        ),
        Err(::hex::FromHexError::OddLength) => Err(HexError::OddLength),
        Err(::hex::FromHexError::InvalidStringLength) => Err(HexError::InvalidStringLength),
    }
}

/// Writes bytes as lower-case hexadecimal text with `hex::encode`: two
/// digits a byte, high digit first.
#[verifier::external_body]
pub(crate) fn hex_encode(data: &[u8]) -> (r: String)
    ensures
        r@ == spec_hex_encode(data@),
{
    hex::encode(data)
}

} // verus!
