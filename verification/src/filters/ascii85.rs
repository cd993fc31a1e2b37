//! ASCII85Decode
//!
//! Four binary bytes are encoded as five characters in `!`..`u` (base-85
//! digits). `z` stands for four zero bytes at a group boundary, `~>` marks
//! end-of-data, whitespace is ignored, an optional `<~` lead-in is tolerated,
//! and a final group of 2..=5 characters encodes 1..=4 bytes.

use vstd::prelude::*;

use crate::error::{Error, LimitKind};
use crate::lexer::{is_whitespace, spec_is_whitespace};
use crate::limits::Limits;

verus! {

/// The canonical filter name used in error values.
pub open spec fn a85_filter_name() -> &'static str {
    "ASCII85Decode"
}

/// The input with an optional leading `<~` removed.
pub open spec fn strip_lead_in(input: Seq<u8>) -> Seq<u8> {
    if input.len() >= 2 && input[0] == 60 && input[1] == 126 {
        input.skip(2)
    } else {
        input
    }
}

/// The 32-bit value of five base-85 digits (wrapping, as a `u32` accumulator
/// does).
pub open spec fn group_value(d: Seq<u8>) -> u32 {
    ((((((d[0] as int) * 85 + d[1]) * 85 + d[2]) * 85 + d[3]) * 85 + d[4]) % 4294967296) as u32
}

/// The four big-endian bytes of `v`.
pub open spec fn be_bytes(v: u32) -> Seq<u8> {
    seq![(v >> 24) as u8, (v >> 16) as u8, (v >> 8) as u8, v as u8]
}

/// The bytes a group of five digits decodes to when `count` of them were
/// significant: the first `count - 1` big-endian bytes of its value.
pub open spec fn group_bytes(d: Seq<u8>, count: int) -> Seq<u8> {
    be_bytes(group_value(d)).take(count - 1)
}

/// `n` copies of the maximal digit 84 (`u`), the padding of a short group.
pub open spec fn pad_digits(n: nat) -> Seq<u8> {
    Seq::new(n, |i: int| 84u8)
}

/// The end of decoding: flush a pending partial group (2..=4 digits) padded
/// with the maximal digit; a single pending digit is malformed.
pub open spec fn a85_finish(digits: Seq<u8>, out: Seq<u8>, cap: nat) -> Result<Seq<u8>, Error> {
    if digits.len() == 1 {
        Err(Error::Decode { filter: a85_filter_name(), msg: "final group has a single character" })
    } else if digits.len() > 0 {
        let o2 = out + group_bytes(digits + pad_digits((5 - digits.len()) as nat), digits.len() as int);
        if o2.len() > cap {
            Err(Error::LimitExceeded(LimitKind::DecompressedStream))
        } else {
            Ok(o2)
        }
    } else {
        Ok(out)
    }
}

/// ASCII85 decoding of `b` from position `i`, with the digits of the current
/// group and the bytes decoded so far.
#[verifier::opaque]
pub open spec fn a85_from(b: Seq<u8>, i: int, digits: Seq<u8>, out: Seq<u8>, cap: nat) -> Result<
    Seq<u8>,
    Error,
>
    decreases b.len() - i,
{
    if i < 0 || i >= b.len() {
        a85_finish(digits, out, cap)
    } else {
        let c = b[i];
        if c == 126 {
            a85_finish(digits, out, cap)
        } else if spec_is_whitespace(c) {
            a85_from(b, i + 1, digits, out, cap)
        } else if c == 122 {
            if digits.len() != 0 {
                Err(Error::Decode { filter: a85_filter_name(), msg: "'z' shortcut inside a group" })
            } else {
                let o2 = out + seq![0u8, 0u8, 0u8, 0u8];
                if o2.len() > cap {
                    Err(Error::LimitExceeded(LimitKind::DecompressedStream))
                } else {
                    a85_from(b, i + 1, digits, o2, cap)
                }
            }
        } else if c < 33 || c > 117 {
            Err(Error::Decode { filter: a85_filter_name(), msg: "character out of ASCII85 range" })
        } else {
            let d2 = digits.push((c - 33) as u8);
            if d2.len() == 5 {
                let o2 = out + group_bytes(d2, 5);
                if o2.len() > cap {
                    Err(Error::LimitExceeded(LimitKind::DecompressedStream))
                } else {
                    a85_from(b, i + 1, Seq::empty(), o2, cap)
                }
            } else {
                a85_from(b, i + 1, d2, out, cap)
            }
        }
    }
}

/// What ASCII85 decoding of `input` under output ceiling `cap` yields.
pub open spec fn a85_decode_spec(input: Seq<u8>, cap: nat) -> Result<Seq<u8>, Error> {
    a85_from(strip_lead_in(input), 0, Seq::empty(), Seq::empty(), cap)
}

/// Appends the first `count - 1` big-endian bytes of the value of `group`.
fn decode_group(group: &Vec<u8>, count: usize, out: &mut Vec<u8>)
    requires
        group@.len() == 5,
        forall|k: int| 0 <= k < 5 ==> group@[k] < 85,
        1 <= count <= 5,
    ensures
        final(out)@ == old(out)@ + group_bytes(group@, count as int),
{
    let v: u64 = ((((group[0] as u64) * 85 + group[1] as u64) * 85 + group[2] as u64) * 85
        + group[3] as u64) * 85 + group[4] as u64;
    let w: u32 = (v % 4294967296) as u32;
    let bytes: [u8; 4] = [(w >> 24) as u8, (w >> 16) as u8, (w >> 8) as u8, w as u8];
    let mut j: usize = 0;
    let ghost start = out@;
    while j + 1 < count
        invariant
            1 <= count <= 5,
            j + 1 <= count,
            be_bytes(w) == seq![bytes[0], bytes[1], bytes[2], bytes[3]],
            w == group_value(group@),
            out@ == start + be_bytes(w).take(j as int),
        decreases count - j,
    {
        out.push(bytes[j]);
        assert(be_bytes(w).take(j + 1) == be_bytes(w).take(j as int).push(be_bytes(w)[j as int]));
        j = j + 1;
    }
}

/// Decodes ASCII85-encoded `input`: the `z` shortcut, the `~>` terminator,
/// whitespace, an optional `<~` lead-in and a partial final group are
/// handled; a character out of range, a `z` inside a group, or a
/// one-character final group is an error.
pub fn decode(input: &[u8], limits: &Limits) -> (r: Result<Vec<u8>, Error>)
    ensures
        match (r, a85_decode_spec(input@, limits.max_decompressed_stream as nat)) {
            (Ok(v), Ok(s)) => v@ == s,
            (Err(e), Err(s)) => e == s,
            _ => false,
        },
{
    let cap = limits.max_decompressed_stream;
    let mut out: Vec<u8> = Vec::new();
    let mut group: Vec<u8> = Vec::new();
    let start: usize = if input.len() >= 2 && input[0] == 60 && input[1] == 126 {
        2
    } else {
        0
    };
    let ghost b = strip_lead_in(input@);
    assert(b == input@.skip(start as int));
    proof {
        reveal(a85_from);
    }
    let mut i: usize = start;
    while i < input.len()
        invariant
            start <= i <= input.len(),
            b == input@.skip(start as int),
            cap == limits.max_decompressed_stream,
            group@.len() < 5,
            forall|k: int| 0 <= k < group@.len() ==> group@[k] < 85,
            a85_decode_spec(input@, cap as nat) == a85_from(b, i - start, group@, out@, cap as nat),
        ensures
            start <= i <= input.len(),
            group@.len() < 5,
            forall|k: int| 0 <= k < group@.len() ==> group@[k] < 85,
            a85_decode_spec(input@, cap as nat) == a85_from(b, i - start, group@, out@, cap as nat),
            i == input.len() || input@[i as int] == 126,
        decreases input.len() - i,
    {
        let c = input[i];
        assert(b[i - start] == c);
        proof {
            reveal(a85_from);
        }
        if c == 126 {
            break;
        }
        i = i + 1;
        if is_whitespace(c) {
            continue;
        }
        if c == 122 {
            if group.len() != 0 {
                return Err(Error::decode("ASCII85Decode", "'z' shortcut inside a group"));
            }
            let ghost before = out@;
            out.push(0);
            out.push(0);
            out.push(0);
            out.push(0);
            assert(out@ == before + seq![0u8, 0u8, 0u8, 0u8]);
            if out.len() > cap {
                return Err(Error::LimitExceeded(LimitKind::DecompressedStream));
            }
            continue;
        }
        if c < 33 || c > 117 {
            return Err(Error::decode("ASCII85Decode", "character out of ASCII85 range"));
        }
        group.push(c - 33);
        if group.len() == 5 {
            decode_group(&group, 5, &mut out);
            if out.len() > cap {
                return Err(Error::LimitExceeded(LimitKind::DecompressedStream));
            }
            group = Vec::new();
        }
    }
    proof {
        reveal(a85_from);
    }
    let n = group.len();
    if n == 1 {
        return Err(Error::decode("ASCII85Decode", "final group has a single character"));
    }
    if n > 0 {
        let ghost digits = group@;
        while group.len() < 5
            invariant
                n <= group@.len() <= 5,
                group@ == digits + pad_digits((group@.len() - n) as nat),
                forall|k: int| 0 <= k < group@.len() ==> group@[k] < 85,
            decreases 5 - group.len(),
        {
            let ghost g0 = group@;
            group.push(84);
            assert(group@ == digits + pad_digits((group@.len() - n) as nat));
        }
        decode_group(&group, n, &mut out);
        if out.len() > cap {
            return Err(Error::LimitExceeded(LimitKind::DecompressedStream));
        }
    }
    Ok(out)
}


/// The base-85 digit values of `v`, most significant first.
pub open spec fn a85_digit_values(v: u32) -> Seq<u8> {
    seq![
        ((v / 85 / 85 / 85 / 85) % 85) as u8,
        ((v / 85 / 85 / 85) % 85) as u8,
        ((v / 85 / 85) % 85) as u8,
        ((v / 85) % 85) as u8,
        (v % 85) as u8,
    ]
}

/// The five ASCII85 characters of `v`.
pub open spec fn a85_chars(v: u32) -> Seq<u8> {
    seq![
        (a85_digit_values(v)[0] + 33) as u8,
        (a85_digit_values(v)[1] + 33) as u8,
        (a85_digit_values(v)[2] + 33) as u8,
        (a85_digit_values(v)[3] + 33) as u8,
        (a85_digit_values(v)[4] + 33) as u8,
    ]
}

/// The five ASCII85 characters of `v`.
fn word_chars(v: u32) -> (r: [u8; 5])
    ensures
        r@ == a85_chars(v),
{
    let r = [
        (v / 85 / 85 / 85 / 85 % 85) as u8 + 33,
        (v / 85 / 85 / 85 % 85) as u8 + 33,
        (v / 85 / 85 % 85) as u8 + 33,
        (v / 85 % 85) as u8 + 33,
        (v % 85) as u8 + 33,
    ];
    assert(r@ =~= a85_chars(v));
    r
}

/// The zero-padded big-endian word of the chunk `input[i..end]`.
fn chunk_word(input: &[u8], i: usize, end: usize) -> (v: u32)
    requires
        i < end <= input.len(),
        end - i <= 4,
    ensures
        v == be_word(input@.subrange(i as int, end as int)),
{
    let ghost c = input@.subrange(i as int, end as int);
    let m = end - i;
    let p0: u64 = input[i] as u64;
    let p1: u64 = if m > 1 { input[i + 1] as u64 } else { 0 };
    let p2: u64 = if m > 2 { input[i + 2] as u64 } else { 0 };
    let p3: u64 = if m > 3 { input[i + 3] as u64 } else { 0 };
    assert(p0 == byte_or_zero(c, 0) && p1 == byte_or_zero(c, 1) && p2 == byte_or_zero(c, 2)
        && p3 == byte_or_zero(c, 3));
    (((p0 * 256 + p1) * 256 + p2) * 256 + p3) as u32
}

/// The byte of `c` at `k`, or zero past its end.
pub open spec fn byte_or_zero(c: Seq<u8>, k: int) -> int {
    if k < c.len() { c[k] as int } else { 0 }
}

/// The big-endian 32-bit word of up to four bytes, zero-padded on the right.
pub open spec fn be_word(c: Seq<u8>) -> u32 {
    (((byte_or_zero(c, 0) * 256 + byte_or_zero(c, 1)) * 256 + byte_or_zero(c, 2)) * 256
        + byte_or_zero(c, 3)) as u32
}

/// The encoding of one chunk of 1..=4 bytes: `z` for four zero bytes, else the
/// first `len + 1` characters of the zero-padded word.
pub open spec fn chunk_enc(c: Seq<u8>) -> Seq<u8> {
    if c.len() == 4 && c[0] == 0 && c[1] == 0 && c[2] == 0 && c[3] == 0 {
        seq![122u8]
    } else {
        a85_chars(be_word(c)).take(c.len() + 1int)
    }
}

/// The `k`-th four-byte chunk of `x` (the last one may be shorter).
pub open spec fn chunk_at(x: Seq<u8>, k: int) -> Seq<u8> {
    x.subrange(4 * k, if 4 * k + 4 <= x.len() { 4 * k + 4 } else { x.len() as int })
}

/// The number of four-byte chunks of `x`.
pub open spec fn chunk_count(x: Seq<u8>) -> int {
    (x.len() as int + 3) / 4
}

/// The encodings of the first `n` chunks of `x`, concatenated.
pub open spec fn a85_chunks(x: Seq<u8>, n: int) -> Seq<u8>
    decreases n,
{
    if n <= 0 {
        Seq::empty()
    } else {
        a85_chunks(x, n - 1) + chunk_enc(chunk_at(x, n - 1))
    }
}

/// The ASCII85 encoding of `x`: every chunk's encoding, then `~>`.
pub open spec fn a85_encode_spec(x: Seq<u8>) -> Seq<u8> {
    a85_chunks(x, chunk_count(x)) + seq![126u8, 62u8]
}

proof fn lemma_be_word_bytes(a: u8, b: u8, c: u8, d: u8)
    ensures
        ({
            let w = (((a as int * 256 + b) * 256 + c) * 256 + d) as u32;
            (w >> 24) as u8 == a && (w >> 16) as u8 == b && (w >> 8) as u8 == c && w as u8 == d
        }),
{
    let w: u32 = (((a as int * 256 + b) * 256 + c) * 256 + d) as u32;
    assert(w == (((a as int * 256 + b) * 256 + c) * 256 + d));
    assert((w >> 24) as u8 == a && (w >> 16) as u8 == b && (w >> 8) as u8 == c && w as u8 == d)
        by (bit_vector)
        requires
            w == (((a as int * 256 + b) * 256 + c) * 256 + d),
    ;
}

/// Appends the encoding of the chunk `input[i..end]` (1..=4 bytes).
fn encode_chunk(input: &[u8], i: usize, end: usize, out: &mut Vec<u8>)
    requires
        i < end <= input.len(),
        end - i <= 4,
    ensures
        final(out)@ == old(out)@ + chunk_enc(input@.subrange(i as int, end as int)),
{
    let m = end - i;
    if m == 4 && input[i] == 0 && input[i + 1] == 0 && input[i + 2] == 0 && input[i + 3] == 0 {
        out.push(122);
        return;
    }
    let v = chunk_word(input, i, end);
    let digits = word_chars(v);
    let ghost before = out@;
    let mut j: usize = 0;
    while j < m + 1
        invariant
            j <= m + 1,
            m <= 4,
            forall|t: int| 0 <= t < 5 ==> digits[t] == a85_chars(v)[t],
            out@ == before + a85_chars(v).take(j as int),
        decreases m + 1 - j,
    {
        out.push(digits[j]);
        assert(a85_chars(v).take(j + 1) == a85_chars(v).take(j as int).push(a85_chars(v)[j as int]));
        j = j + 1;
    }
}

/// Encodes `input` as ASCII85 with a trailing `~>` end-of-data marker, using
/// the `z` shortcut for all-zero four-byte groups.
pub fn encode(input: &[u8]) -> (r: Vec<u8>)
    ensures
        r@ == a85_encode_spec(input@),
{
    let mut out: Vec<u8> = Vec::new();
    let mut i: usize = 0;
    let mut k: usize = 0;
    let ghost x = input@;
    while i < input.len()
        invariant
            x == input@,
            i <= input.len(),
            i == 4 * k || (i == input.len() && k == chunk_count(x)),
            k <= chunk_count(x),
            i < input.len() ==> k < chunk_count(x),
            out@ == a85_chunks(x, k as int),
        decreases input.len() - i,
    {
        let end: usize = if input.len() - i >= 4 { i + 4 } else { input.len() };
        assert(chunk_at(x, k as int) == x.subrange(i as int, end as int));
        encode_chunk(input, i, end, &mut out);
        i = end;
        k = k + 1;
    }
    out.push(126);
    out.push(62);
    out
}

/// The digit values of a run of ASCII85 characters.
pub open spec fn char_values(s: Seq<u8>) -> Seq<u8> {
    Seq::new(s.len(), |i: int| (s[i] - 33) as u8)
}

/// Feeding `n` digit characters (no group completes) only extends the
/// pending group.
proof fn lemma_feed(b: Seq<u8>, p: int, digits: Seq<u8>, out: Seq<u8>, cap: nat, n: int)
    requires
        0 <= p,
        0 <= n,
        p + n <= b.len(),
        digits.len() + n <= 4,
        forall|t: int| 0 <= t < n ==> 33 <= #[trigger] b[p + t] <= 117,
    ensures
        a85_from(b, p, digits, out, cap) == a85_from(
            b,
            p + n,
            digits + char_values(b.subrange(p, p + n)),
            out,
            cap,
        ),
    decreases n,
{
    reveal(a85_from);
    if n == 0 {
        assert(digits + char_values(b.subrange(p, p)) == digits);
    } else {
        let c = b[p];
        assert(33 <= b[p + 0] <= 117);
        let d2 = digits.push((c - 33) as u8);
        assert forall|t: int| 0 <= t < n - 1 implies 33 <= #[trigger] b[(p + 1) + t] <= 117 by {
            assert(b[p + (t + 1)] == b[(p + 1) + t]);
        }
        lemma_feed(b, p + 1, d2, out, cap, n - 1);
        assert(d2 + char_values(b.subrange(p + 1, p + n)) == digits + char_values(
            b.subrange(p, p + n),
        ));
    }
}

/// The five digit values of `v` reconstruct `v`.
proof fn lemma_digits_reconstruct(v: u32)
    ensures
        group_value(a85_digit_values(v)) == v,
        forall|t: int| 0 <= t < 5 ==> #[trigger] a85_digit_values(v)[t] < 85,
{
    let vi = v as int;
    let q1 = vi / 85;
    let q2 = q1 / 85;
    let q3 = q2 / 85;
    let q4 = q3 / 85;
    assert(q4 < 85);
    let d = a85_digit_values(v);
    assert(d[0] as int == q4);
    assert(d[1] as int == q3 % 85);
    assert(d[2] as int == q2 % 85);
    assert(d[3] as int == q1 % 85);
    assert(d[4] as int == vi % 85);
    assert(q4 * 85 + q3 % 85 == q3);
    assert(q3 * 85 + q2 % 85 == q2);
    assert(q2 * 85 + q1 % 85 == q1);
    assert(q1 * 85 + vi % 85 == vi);
}

/// Top bytes equal when the values agree above bit `8 * r`.
proof fn lemma_top_bytes(a: u32, b: u32, m: int)
    requires
        1 <= m <= 3,
        m == 3 ==> (a >> 8) == (b >> 8),
        m == 2 ==> (a >> 16) == (b >> 16),
        m == 1 ==> (a >> 24) == (b >> 24),
    ensures
        be_bytes(a).take(m) == be_bytes(b).take(m),
{
    if m == 3 {
        assert((a >> 24) as u8 == (b >> 24) as u8 && (a >> 16) as u8 == (b >> 16) as u8 && (a
            >> 8) as u8 == (b >> 8) as u8) by (bit_vector)
            requires
                (a >> 8) == (b >> 8),
        ;
    } else if m == 2 {
        assert((a >> 24) as u8 == (b >> 24) as u8 && (a >> 16) as u8 == (b >> 16) as u8)
            by (bit_vector)
            requires
                (a >> 16) == (b >> 16),
        ;
    } else {
    }
}

proof fn lemma_quotients(v: u32)
    ensures
        ({
            let vi = v as int;
            let q1 = vi / 85;
            let q2 = q1 / 85;
            let q3 = q2 / 85;
            let q4 = q3 / 85;
            &&& q4 < 85
            &&& q4 * 85 + q3 % 85 == q3
            &&& q3 * 85 + q2 % 85 == q2
            &&& q2 * 85 + q1 % 85 == q1
            &&& q1 * 85 + vi % 85 == vi
            &&& a85_digit_values(v)[0] as int == q4
            &&& a85_digit_values(v)[1] as int == q3 % 85
            &&& a85_digit_values(v)[2] as int == q2 % 85
            &&& a85_digit_values(v)[3] as int == q1 % 85
            &&& a85_digit_values(v)[4] as int == vi % 85
        }),
{
}

/// Padding after four significant digits keeps the top three bytes.
proof fn lemma_pad_one(v: u32)
    requires
        v & 255 == 0,
    ensures
        be_bytes(group_value(a85_digit_values(v).take(4) + pad_digits(1))).take(3) == be_bytes(
            v,
        ).take(3),
{
    lemma_quotients(v);
    let padded = a85_digit_values(v).take(4) + pad_digits(1);
    let vi = v as int;
    assert(padded[4] == 84);
    assert(v <= 0xffffff00) by (bit_vector)
        requires
            v & 255 == 0,
    ;
    let h = (((((padded[0] as int) * 85 + padded[1]) * 85 + padded[2]) * 85 + padded[3]) * 85
        + padded[4]);
    assert(h == (vi / 85) * 85 + 84);
    let w: u32 = h as u32;
    assert(group_value(padded) == w);
    assert((w >> 8) == (v >> 8)) by (bit_vector)
        requires
            v & 255 == 0,
            v <= w,
            w <= v + 84,
    ;
    lemma_top_bytes(w, v, 3);
}

/// Padding after three significant digits keeps the top two bytes.
proof fn lemma_pad_two(v: u32)
    requires
        v & 0xffff == 0,
    ensures
        be_bytes(group_value(a85_digit_values(v).take(3) + pad_digits(2))).take(2) == be_bytes(
            v,
        ).take(2),
{
    lemma_quotients(v);
    let padded = a85_digit_values(v).take(3) + pad_digits(2);
    let vi = v as int;
    assert(padded[3] == 84 && padded[4] == 84);
    assert(v <= 0xffff0000) by (bit_vector)
        requires
            v & 0xffff == 0,
    ;
    let h = (((((padded[0] as int) * 85 + padded[1]) * 85 + padded[2]) * 85 + padded[3]) * 85
        + padded[4]);
    let q2 = vi / 85 / 85;
    assert(h == q2 * 7225 + 7224);
    assert(vi - q2 * 7225 <= 7224);
    let w: u32 = h as u32;
    assert(group_value(padded) == w);
    assert((w >> 16) == (v >> 16)) by (bit_vector)
        requires
            v & 0xffff == 0,
            v <= w,
            w <= v + 7224,
    ;
    lemma_top_bytes(w, v, 2);
}

/// Padding after two significant digits keeps the top byte.
proof fn lemma_pad_three(v: u32)
    requires
        v & 0xffffff == 0,
    ensures
        be_bytes(group_value(a85_digit_values(v).take(2) + pad_digits(3))).take(1) == be_bytes(
            v,
        ).take(1),
{
    lemma_quotients(v);
    let padded = a85_digit_values(v).take(2) + pad_digits(3);
    let vi = v as int;
    assert(padded[2] == 84 && padded[3] == 84 && padded[4] == 84);
    assert(v <= 0xff000000) by (bit_vector)
        requires
            v & 0xffffff == 0,
    ;
    let h = (((((padded[0] as int) * 85 + padded[1]) * 85 + padded[2]) * 85 + padded[3]) * 85
        + padded[4]);
    let q3 = vi / 85 / 85 / 85;
    assert(h == q3 * 614125 + 614124);
    assert(vi - q3 * 614125 <= 614124);
    let w: u32 = h as u32;
    assert(group_value(padded) == w);
    assert((w >> 24) == (v >> 24)) by (bit_vector)
        requires
            v & 0xffffff == 0,
            v <= w,
            w <= v + 614124,
    ;
    lemma_top_bytes(w, v, 1);
}

/// Decoding a four-byte chunk's group gives back its bytes.
proof fn lemma_full_chunk_bytes(c: Seq<u8>)
    requires
        c.len() == 4,
    ensures
        group_bytes(a85_digit_values(be_word(c)), 5) == c,
{
    let v = be_word(c);
    lemma_digits_reconstruct(v);
    lemma_be_word_bytes(c[0], c[1], c[2], c[3]);
    assert(be_bytes(v) == c);
}

/// Decoding a short final chunk's padded group gives back its bytes.
proof fn lemma_short_chunk_bytes(c: Seq<u8>)
    requires
        1 <= c.len() <= 3,
    ensures
        group_bytes(
            a85_digit_values(be_word(c)).take(c.len() + 1int) + pad_digits((4 - c.len()) as nat),
            c.len() + 1int,
        ) == c,
{
    let v = be_word(c);
    let m = c.len() as int;
    let c0 = c[0];
    let c1 = if m > 1 { c[1] } else { 0u8 };
    let c2 = if m > 2 { c[2] } else { 0u8 };
    lemma_be_word_bytes(c0, c1, c2, 0);
    assert(v == (((c0 as int * 256 + c1) * 256 + c2) * 256) as u32);
    assert(be_bytes(v).take(m) == c);
    if m == 3 {
        assert(v & 255 == 0) by (bit_vector)
            requires
                v == (((c0 as int * 256 + c1) * 256 + c2) * 256) as u32,
        ;
        lemma_pad_one(v);
    } else if m == 2 {
        assert(v & 0xffff == 0) by (bit_vector)
            requires
                v == (((c0 as int * 256 + c1) * 256 + 0) * 256) as u32,
        ;
        lemma_pad_two(v);
    } else {
        assert(v & 0xffffff == 0) by (bit_vector)
            requires
                v == (((c0 as int * 256 + 0) * 256 + 0) * 256) as u32,
        ;
        lemma_pad_three(v);
    }
}

/// The encodings of the first `k` chunks are a prefix of those of the first
/// `n`.
proof fn lemma_chunks_prefix(x: Seq<u8>, k: int, n: int)
    requires
        0 <= k <= n,
    ensures
        a85_chunks(x, k).len() <= a85_chunks(x, n).len(),
        a85_chunks(x, n).subrange(0, a85_chunks(x, k).len() as int) == a85_chunks(x, k),
    decreases n - k,
{
    if k < n {
        lemma_chunks_prefix(x, k, n - 1);
        assert(a85_chunks(x, n).subrange(0, a85_chunks(x, n - 1).len() as int) == a85_chunks(
            x,
            n - 1,
        ));
    } else {
        assert(a85_chunks(x, n).subrange(0, a85_chunks(x, n).len() as int) == a85_chunks(x, n));
    }
}

/// Each ASCII85 character of a word is a digit character.
proof fn lemma_chars_in_range(v: u32)
    ensures
        forall|t: int| 0 <= t < 5 ==> 33 <= #[trigger] a85_chars(v)[t] <= 117,
        char_values(a85_chars(v)) == a85_digit_values(v),
{
    lemma_digits_reconstruct(v);
    assert(char_values(a85_chars(v)) =~= a85_digit_values(v));
}

proof fn lemma_step_zero(b: Seq<u8>, p: int, out: Seq<u8>, cap: nat)
    requires
        0 <= p < b.len(),
        b[p] == 122,
        out.len() + 4 <= cap,
    ensures
        a85_from(b, p, Seq::empty(), out, cap) == a85_from(
            b,
            p + 1,
            Seq::empty(),
            out + seq![0u8, 0u8, 0u8, 0u8],
            cap,
        ),
{
    reveal(a85_from);
}

proof fn lemma_step_full(b: Seq<u8>, p: int, c: Seq<u8>, out: Seq<u8>, cap: nat)
    requires
        0 <= p,
        p + 5 <= b.len(),
        c.len() == 4,
        b.subrange(p, p + 5) == a85_chars(be_word(c)),
        out.len() + 4 <= cap,
    ensures
        a85_from(b, p, Seq::empty(), out, cap) == a85_from(b, p + 5, Seq::empty(), out + c, cap),
{
    let v = be_word(c);
    let empty = Seq::<u8>::empty();
    lemma_chars_in_range(v);
    assert forall|t: int| 0 <= t < 4 implies 33 <= #[trigger] b[p + t] <= 117 by {
        assert(b.subrange(p, p + 5)[t] == b[p + t]);
    }
    lemma_feed(b, p, empty, out, cap, 4);
    let d4 = a85_digit_values(v).take(4);
    assert(empty + char_values(b.subrange(p, p + 4)) == d4);
    assert(b[p + 4] == a85_chars(v)[4]);
    assert(d4.push((b[p + 4] - 33) as u8) == a85_digit_values(v));
    reveal(a85_from);
    lemma_full_chunk_bytes(c);
}

proof fn lemma_step_short(b: Seq<u8>, p: int, c: Seq<u8>, out: Seq<u8>, cap: nat)
    requires
        0 <= p,
        1 <= c.len() <= 3,
        p + c.len() + 1 < b.len(),
        b.subrange(p, p + c.len() + 1) == a85_chars(be_word(c)).take(c.len() + 1int),
        b[p + c.len() + 1] == 126,
        out.len() + c.len() <= cap,
    ensures
        a85_from(b, p, Seq::empty(), out, cap) == Ok::<Seq<u8>, Error>(out + c),
{
    let v = be_word(c);
    let m = c.len() as int;
    let empty = Seq::<u8>::empty();
    lemma_chars_in_range(v);
    assert forall|t: int| 0 <= t < m + 1 implies 33 <= #[trigger] b[p + t] <= 117 by {
        assert(b.subrange(p, p + m + 1)[t] == b[p + t]);
    }
    lemma_feed(b, p, empty, out, cap, m + 1);
    assert(empty + char_values(b.subrange(p, p + m + 1)) == a85_digit_values(v).take(m + 1));
    reveal(a85_from);
    lemma_short_chunk_bytes(c);
}

proof fn lemma_step_end(b: Seq<u8>, p: int, out: Seq<u8>, cap: nat)
    requires
        0 <= p < b.len(),
        b[p] == 126,
    ensures
        a85_from(b, p, Seq::empty(), out, cap) == Ok::<Seq<u8>, Error>(out),
{
    reveal(a85_from);
}

/// The encoding of chunk `k` sits right after those of the chunks before it.
proof fn lemma_chunk_position(x: Seq<u8>, k: int)
    requires
        0 <= k < chunk_count(x),
    ensures
        ({
            let e = a85_encode_spec(x);
            let p = a85_chunks(x, k).len() as int;
            let enc = chunk_enc(chunk_at(x, k));
            &&& p + enc.len() <= a85_chunks(x, chunk_count(x)).len()
            &&& e.subrange(p, p + enc.len()) == enc
        }),
{
    let n = chunk_count(x);
    let e = a85_encode_spec(x);
    let p = a85_chunks(x, k).len() as int;
    let enc = chunk_enc(chunk_at(x, k));
    lemma_chunks_prefix(x, k + 1, n);
    assert(a85_chunks(x, k + 1) == a85_chunks(x, k) + enc);
    assert(e.subrange(0, a85_chunks(x, n).len() as int) == a85_chunks(x, n));
    assert(e.subrange(0, a85_chunks(x, k + 1).len() as int) == a85_chunks(x, k + 1));
    assert(e.subrange(p, p + enc.len()) == a85_chunks(x, k + 1).subrange(p, p + enc.len()));
}

/// Decoding a full chunk of the encoding of `x` appends its four bytes.
proof fn lemma_chunk_step(x: Seq<u8>, k: int, cap: nat)
    requires
        0 <= k < chunk_count(x),
        4 * k + 4 <= x.len(),
        x.len() <= cap,
    ensures
        a85_from(
            a85_encode_spec(x),
            a85_chunks(x, k).len() as int,
            Seq::empty(),
            x.take(4 * k),
            cap,
        ) == a85_from(
            a85_encode_spec(x),
            a85_chunks(x, k + 1).len() as int,
            Seq::empty(),
            x.take(4 * k + 4),
            cap,
        ),
{
    let e = a85_encode_spec(x);
    let p = a85_chunks(x, k).len() as int;
    let c = chunk_at(x, k);
    let enc = chunk_enc(c);
    lemma_chunk_position(x, k);
    assert(a85_chunks(x, k + 1) == a85_chunks(x, k) + enc);
    assert(x.take(4 * k) + c == x.take(4 * k + 4));
    if c[0] == 0 && c[1] == 0 && c[2] == 0 && c[3] == 0 {
        assert(e[p] == e.subrange(p, p + enc.len())[0]);
        assert(c == seq![0u8, 0u8, 0u8, 0u8]);
        lemma_step_zero(e, p, x.take(4 * k), cap);
    } else {
        assert(c.len() == 4);
        assert(a85_chars(be_word(c)).take(5) == a85_chars(be_word(c)));
        assert(enc == a85_chars(be_word(c)));
        lemma_step_full(e, p, c, x.take(4 * k), cap);
    }
}

/// Decoding a short last chunk of the encoding of `x` completes `x`.
proof fn lemma_chunk_last_short(x: Seq<u8>, k: int, cap: nat)
    requires
        k + 1 == chunk_count(x),
        0 <= k,
        4 * k + 4 > x.len(),
        x.len() <= cap,
    ensures
        a85_from(
            a85_encode_spec(x),
            a85_chunks(x, k).len() as int,
            Seq::empty(),
            x.take(4 * k),
            cap,
        ) == Ok::<Seq<u8>, Error>(x),
{
    let e = a85_encode_spec(x);
    let p = a85_chunks(x, k).len() as int;
    let c = chunk_at(x, k);
    let enc = chunk_enc(c);
    let m = c.len() as int;
    lemma_chunk_position(x, k);
    assert(a85_chunks(x, k + 1) == a85_chunks(x, k) + enc);
    assert(e[p + m + 1] == 126);
    assert(x.take(4 * k) + c == x);
    lemma_step_short(e, p, c, x.take(4 * k), cap);
}

/// Decoding the encoding of `x` from the start of chunk `k`, with the first
/// `k` chunks already decoded, yields `x`.
proof fn lemma_a85_round_trip_from(x: Seq<u8>, k: int, cap: nat)
    requires
        0 <= k <= chunk_count(x),
        k == chunk_count(x) ==> 4 * k == x.len(),
        x.len() <= cap,
    ensures
        a85_from(
            a85_encode_spec(x),
            a85_chunks(x, k).len() as int,
            Seq::empty(),
            x.take(4 * k),
            cap,
        ) == Ok::<Seq<u8>, Error>(x),
    decreases chunk_count(x) - k,
{
    let n = chunk_count(x);
    if k == n {
        let e = a85_encode_spec(x);
        let p = a85_chunks(x, k).len() as int;
        assert(e[p] == 126);
        assert(x.take(4 * k) == x);
        lemma_step_end(e, p, x, cap);
    } else if 4 * k + 4 <= x.len() {
        lemma_chunk_step(x, k, cap);
        lemma_a85_round_trip_from(x, k + 1, cap);
    } else {
        lemma_chunk_last_short(x, k, cap);
    }
}

/// An encoding never starts with the `<~` lead-in.
proof fn lemma_no_lead_in(x: Seq<u8>)
    ensures
        strip_lead_in(a85_encode_spec(x)) == a85_encode_spec(x),
{
    let e = a85_encode_spec(x);
    if x.len() > 0 {
        let c = chunk_at(x, 0);
        assert(a85_chunks(x, 1) == a85_chunks(x, 0) + chunk_enc(c));
        assert(a85_chunks(x, 1) == chunk_enc(c));
        lemma_chunks_prefix(x, 1, chunk_count(x));
        assert(e.subrange(0, a85_chunks(x, chunk_count(x)).len() as int) == a85_chunks(
            x,
            chunk_count(x),
        ));
        assert(e[0] == chunk_enc(c)[0]);
        if chunk_enc(c).len() > 1 {
            lemma_chars_in_range(be_word(c));
            assert(e[1] == chunk_enc(c)[1]);
        } else {
            assert(e[0] == 122);
        }
    }
}

/// Round trip: decoding the ASCII85 encoding of any `x` gives back `x`,
/// provided `x` fits under the output ceiling.
pub proof fn law_a85_round_trip(x: Seq<u8>, cap: nat)
    requires
        x.len() <= cap,
    ensures
        a85_decode_spec(a85_encode_spec(x), cap) == Ok::<Seq<u8>, Error>(x),
{
    lemma_no_lead_in(x);
    lemma_a85_round_trip_from(x, 0, cap);
    assert(x.take(0) == Seq::<u8>::empty());
}

} // verus!
