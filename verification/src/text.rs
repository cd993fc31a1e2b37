//! Text strings: the decodings PDF text strings use (UTF-16BE with a byte
//! order mark, UTF-8 with a byte order mark, or a single-byte encoding read
//! as Latin-1).

use vstd::prelude::*;

verus! {

/// UTF-16 decoding of `units`: a high surrogate followed by a low one is
/// the supplementary character they encode, any other surrogate becomes
/// U+FFFD, and every other unit is the character of the same code point.
pub open spec fn utf16_lossy(units: Seq<u16>) -> Seq<char>
    decreases units.len(),
{
    if units.len() == 0 {
        Seq::empty()
    } else {
        let u = units[0];
        if 0xD800 <= u <= 0xDBFF && units.len() >= 2 && 0xDC00 <= units[1] <= 0xDFFF {
            let c = (0x10000 + (u - 0xD800) * 0x400 + (units[1] - 0xDC00)) as char;
            seq![c] + utf16_lossy(units.subrange(2, units.len() as int))
        } else if 0xD800 <= u <= 0xDFFF {
            seq!['\u{FFFD}'] + utf16_lossy(units.subrange(1, units.len() as int))
        } else {
            seq![u as char] + utf16_lossy(units.subrange(1, units.len() as int))
        }
    }
}

/// What `String::from_utf8_lossy` makes of bytes.
pub uninterp spec fn utf8_lossy(bytes: Seq<u8>) -> Seq<char>;

/// `String::from_utf16_lossy`: decodes UTF-16, unpaired surrogates becoming
/// U+FFFD.
#[verifier::external_body]
pub(crate) fn string_from_utf16_lossy(units: &[u16]) -> (r: String)
    ensures
        r@ == utf16_lossy(units@),
{
    String::from_utf16_lossy(units)
}

/// `String::from_utf8_lossy(..).into_owned()`: decodes UTF-8, invalid
/// sequences becoming U+FFFD.
#[verifier::external_body]
pub(crate) fn string_from_utf8_lossy(bytes: &[u8]) -> (r: String)
    ensures
        r@ == utf8_lossy(bytes@),
{
    String::from_utf8_lossy(bytes).into_owned()
}

/// `String::push`: appends one character.
#[verifier::external_body]
pub(crate) fn string_push(s: &mut String, c: char)
    ensures
        final(s)@ == old(s)@.push(c),
{
    s.push(c)
}

/// The big-endian 16-bit units of `b`, a trailing odd byte dropped.
pub open spec fn be_units(b: Seq<u8>) -> Seq<u16> {
    Seq::new(b.len() / 2, |i: int| (b[2 * i] * 256 + b[2 * i + 1]) as u16)
}

/// Each byte read as the character of the same code point (Latin-1).
pub open spec fn latin1(b: Seq<u8>) -> Seq<char> {
    b.map_values(|x: u8| x as char)
}

/// The big-endian 16-bit units of `b`.
pub fn units_be(b: &[u8]) -> (r: Vec<u16>)
    ensures
        r@ == be_units(b@),
{
    let mut out: Vec<u16> = Vec::new();
    let mut i: usize = 0;
    while i + 1 < b.len()
        invariant
            i == 2 * out@.len(),
            i <= b@.len(),
            out@ == Seq::new(out@.len(), |k: int| (b@[2 * k] * 256 + b@[2 * k + 1]) as u16),
        decreases b@.len() - i,
    {
        let u: u16 = (b[i] as u16) * 256 + (b[i + 1] as u16);
        out.push(u);
        proof {
            assert(out@ =~= Seq::new(out@.len(), |k: int| (b@[2 * k] * 256 + b@[2 * k + 1]) as u16));
        }
        i = i + 2;
    }
    proof {
        assert(out@.len() == b@.len() / 2);
        assert(out@ =~= be_units(b@));
    }
    out
}

/// The bytes read as Latin-1 characters.
pub fn latin1_string(b: &[u8]) -> (r: String)
    ensures
        r@ == latin1(b@),
{
    let mut s = String::new();
    let mut i: usize = 0;
    while i < b.len()
        invariant
            i <= b@.len(),
            s@ == latin1(b@.take(i as int)),
        decreases b@.len() - i,
    {
        string_push(&mut s, b[i] as char);
        proof {
            assert(latin1(b@.take(i + 1)) =~= latin1(b@.take(i as int)).push(b@[i as int] as char));
        }
        i = i + 1;
    }
    proof {
        assert(b@.take(b@.len() as int) =~= b@);
    }
    s
}

} // verus!
