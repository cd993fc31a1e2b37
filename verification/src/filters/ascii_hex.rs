//! ASCIIHexDecode
//!
//! Each byte is two hexadecimal digits; whitespace between digits is ignored;
//! `>` marks end-of-data. An odd digit count is padded with a trailing `0`.
//! Bytes after `>` are ignored and a missing `>` is tolerated. Any other byte
//! is a hard error.

use vstd::prelude::*;

use crate::error::{Error, LimitKind};
use crate::lexer::{is_whitespace, spec_is_whitespace};
use crate::limits::Limits;

verus! {

/// The canonical filter name used in error values.
pub open spec fn hex_filter_name() -> &'static str {
    "ASCIIHexDecode"
}

/// The value of an ASCII hex digit, or `None` for any other byte.
pub open spec fn spec_hex_val(b: u8) -> Option<u8> {
    if 48 <= b <= 57 {
        Some((b - 48) as u8)
    } else if 97 <= b <= 102 {
        Some((b - 87) as u8)
    } else if 65 <= b <= 70 {
        Some((b - 55) as u8)
    } else {
        None
    }
}

/// The hex value of an ASCII digit byte, or `None` if not a hex digit.
pub fn hex_val(b: u8) -> (r: Option<u8>)
    ensures
        r == spec_hex_val(b),
        r matches Some(v) ==> v < 16,
{
    if 48 <= b && b <= 57 {
        Some(b - 48)
    } else if 97 <= b && b <= 102 {
        Some(b - 97 + 10)
    } else if 65 <= b && b <= 70 {
        Some(b - 65 + 10)
    } else {
        None
    }
}

/// The bytes produced so far plus the padded odd digit, if one is pending.
pub open spec fn flush_pending(out: Seq<u8>, hi: Option<u8>) -> Seq<u8> {
    match hi {
        Some(h) => out.push((h * 16) as u8),
        None => out,
    }
}

/// The end of ASCIIHex decoding: the bytes so far plus the padded odd
/// digit, unless that padding byte takes the output past the ceiling `cap`.
pub open spec fn finish_checked(out: Seq<u8>, hi: Option<u8>, cap: nat) -> Result<Seq<u8>, Error> {
    if flush_pending(out, hi).len() > cap {
        Err(Error::LimitExceeded(LimitKind::DecompressedStream))
    } else {
        Ok(flush_pending(out, hi))
    }
}

/// ASCIIHex decoding from position `i`, with a pending high nibble `hi` and
/// the bytes `out` decoded so far; `cap` is the output ceiling checked after
/// each completed byte and after the padded odd digit.
pub open spec fn hex_decode_from(input: Seq<u8>, i: int, hi: Option<u8>, out: Seq<u8>, cap: nat)
    -> Result<Seq<u8>, Error>
    decreases input.len() - i,
{
    if i < 0 || i >= input.len() {
        finish_checked(out, hi, cap)
    } else {
        let b = input[i];
        if b == 62 {
            finish_checked(out, hi, cap)
        } else if spec_is_whitespace(b) {
            hex_decode_from(input, i + 1, hi, out, cap)
        } else {
            match spec_hex_val(b) {
                None => Err(Error::Decode { filter: hex_filter_name(), msg: "invalid hex digit" }),
                Some(n) => match hi {
                    None => hex_decode_from(input, i + 1, Some(n), out, cap),
                    Some(h) => {
                        let o2 = out.push((h * 16 + n) as u8);
                        if o2.len() > cap {
                            Err(Error::LimitExceeded(LimitKind::DecompressedStream))
                        } else {
                            hex_decode_from(input, i + 1, None, o2, cap)
                        }
                    },
                },
            }
        }
    }
}

/// What ASCIIHex decoding of `input` under output ceiling `cap` yields.
pub open spec fn hex_decode_spec(input: Seq<u8>, cap: nat) -> Result<Seq<u8>, Error> {
    hex_decode_from(input, 0, None, Seq::empty(), cap)
}

/// Decodes ASCIIHex-encoded `input`. Stops at the first `>` or at end of
/// input; whitespace is skipped; an odd trailing digit is padded with `0`.
pub fn decode(input: &[u8], limits: &Limits) -> (r: Result<Vec<u8>, Error>)
    ensures
        match (r, hex_decode_spec(input@, limits.max_decompressed_stream as nat)) {
            (Ok(v), Ok(s)) => v@ == s,
            (Err(e), Err(s)) => e == s,
            _ => false,
        },
{
    let mut out: Vec<u8> = Vec::new();
    let mut hi: Option<u8> = None;
    let mut i: usize = 0;
    let cap = limits.max_decompressed_stream;
    while i < input.len()
        invariant
            i <= input.len(),
            cap == limits.max_decompressed_stream,
            out@.len() <= cap,
            hi matches Some(h) ==> h < 16,
            hex_decode_spec(input@, cap as nat) == hex_decode_from(input@, i as int, hi, out@, cap as nat),
        ensures
            i <= input.len(),
            out@.len() <= cap,
            hi matches Some(h) ==> h < 16,
            hex_decode_spec(input@, cap as nat) == hex_decode_from(input@, i as int, hi, out@, cap as nat),
            i == input.len() || input@[i as int] == 62,
        decreases input.len() - i,
    {
        let b = input[i];
        if b == 62 {
            break;
        }
        if is_whitespace(b) {
            i = i + 1;
            continue;
        }
        match hex_val(b) {
            None => {
                return Err(Error::decode("ASCIIHexDecode", "invalid hex digit"));
            },
            Some(nibble) => {
                match hi {
                    None => {
                        hi = Some(nibble);
                    },
                    Some(h) => {
                        out.push((h << 4) | nibble);
                        assert(((h << 4) | nibble) == (h * 16 + nibble) as u8) by (bit_vector)
                            requires h < 16, nibble < 16;
                        if out.len() > cap {
                            return Err(Error::LimitExceeded(LimitKind::DecompressedStream));
                        }
                        hi = None;
                    },
                }
            },
        }
        i = i + 1;
    }
    if let Some(h) = hi {
        assert((h << 4) == (h * 16) as u8) by (bit_vector)
            requires h < 16;
        out.push(h << 4);
        if out.len() > cap {
            return Err(Error::LimitExceeded(LimitKind::DecompressedStream));
        }
    }
    Ok(out)
}

/// The uppercase hex digit for a nibble.
pub open spec fn spec_hex_digit(n: u8) -> u8 {
    if n < 10 { (48 + n) as u8 } else { (55 + n) as u8 }
}

fn hex_digit(n: u8) -> (r: u8)
    requires
        n < 16,
    ensures
        r == spec_hex_digit(n),
{
    if n < 10 { 48 + n } else { 65 + n - 10 }
}

/// The two uppercase hex digits of every byte of `x`, in order.
pub open spec fn hex_digits(x: Seq<u8>) -> Seq<u8>
    decreases x.len(),
{
    if x.len() == 0 {
        Seq::empty()
    } else {
        hex_digits(x.drop_last()).push(spec_hex_digit(x.last() / 16)).push(spec_hex_digit(x.last() % 16))
    }
}

/// The ASCIIHex encoding of `x`: two uppercase digits per byte and a `>`.
pub open spec fn hex_encode_spec(x: Seq<u8>) -> Seq<u8> {
    hex_digits(x).push(62)
}

/// Encodes `input` as ASCIIHex with a trailing `>` end-of-data marker, using
/// uppercase digits.
pub fn encode(input: &[u8]) -> (r: Vec<u8>)
    ensures
        r@ == hex_encode_spec(input@),
{
    let mut out: Vec<u8> = Vec::new();
    let mut i: usize = 0;
    while i < input.len()
        invariant
            i <= input.len(),
            out@ == hex_digits(input@.take(i as int)),
        decreases input.len() - i,
    {
        let b = input[i];
        assert(b >> 4 == b / 16 && b & 15 == b % 16) by (bit_vector);
        out.push(hex_digit(b >> 4));
        out.push(hex_digit(b & 0x0f));
        assert(input@.take(i + 1).drop_last() == input@.take(i as int));
        i = i + 1;
    }
    assert(input@.take(input.len() as int) == input@);
    out.push(62);
    out
}

/// Decoding from an even position of `hex_encode_spec(x)`, with the first `k`
/// bytes already decoded, yields all of `x`.
proof fn lemma_hex_round_trip_from(x: Seq<u8>, k: int, cap: nat)
    requires
        0 <= k <= x.len(),
        x.len() <= cap,
    ensures
        hex_decode_from(hex_encode_spec(x), 2 * k, None, x.take(k), cap) == Ok::<Seq<u8>, Error>(x),
    decreases x.len() - k,
{
    let e = hex_encode_spec(x);
    lemma_hex_digits_index(x);
    if k == x.len() {
        assert(e[2 * k] == 62);
        assert(x.take(k) == x);
    } else {
        let b = x[k];
        let h = spec_hex_digit(b / 16);
        let l = spec_hex_digit(b % 16);
        assert(e[2 * k] == h && e[2 * k + 1] == l);
        assert(spec_hex_val(h) == Some((b / 16) as u8));
        assert(spec_hex_val(l) == Some((b % 16) as u8));
        assert(((b / 16) * 16 + b % 16) as u8 == b);
        assert(x.take(k).push(b) == x.take(k + 1));
        lemma_hex_round_trip_from(x, k + 1, cap);
        assert(hex_decode_from(e, 2 * k + 1, Some((b / 16) as u8), x.take(k), cap)
            == hex_decode_from(e, 2 * k + 2, None, x.take(k + 1), cap));
        assert(hex_decode_from(e, 2 * k, None, x.take(k), cap)
            == hex_decode_from(e, 2 * k + 1, Some((b / 16) as u8), x.take(k), cap));
    }
}

/// The layout of `hex_digits(x)`: byte `k` sits at positions `2k` and `2k+1`.
proof fn lemma_hex_digits_index(x: Seq<u8>)
    ensures
        hex_digits(x).len() == 2 * x.len(),
        forall|k: int|
            0 <= k < x.len() ==> #[trigger] hex_digits(x)[2 * k] == spec_hex_digit(x[k] / 16)
                && hex_digits(x)[2 * k + 1] == spec_hex_digit(x[k] % 16),
        hex_encode_spec(x)[2 * x.len() as int] == 62,
    decreases x.len(),
{
    if x.len() > 0 {
        lemma_hex_digits_index(x.drop_last());
        assert forall|k: int| 0 <= k < x.len() implies #[trigger] hex_digits(x)[2 * k]
            == spec_hex_digit(x[k] / 16) && hex_digits(x)[2 * k + 1] == spec_hex_digit(
            x[k] % 16,
        ) by {
            let d = x.drop_last();
            if k < x.len() - 1 {
                assert(d[k] == x[k]);
                assert(hex_digits(d)[2 * k] == spec_hex_digit(d[k] / 16));
                assert(hex_digits(d)[2 * k + 1] == spec_hex_digit(d[k] % 16));
            }
        }
    }
}

/// Round trip: decoding the ASCIIHex encoding of any `x` gives back `x`,
/// provided `x` fits under the output ceiling.
pub proof fn law_hex_round_trip(x: Seq<u8>, cap: nat)
    requires
        x.len() <= cap,
    ensures
        hex_decode_spec(hex_encode_spec(x), cap) == Ok::<Seq<u8>, Error>(x),
{
    lemma_hex_round_trip_from(x, 0, cap);
    assert(x.take(0) == Seq::<u8>::empty());
}

} // verus!
