//! RunLengthDecode
//!
//! The stream is a sequence of runs led by a length byte `n`: `0..=127` copies
//! the next `n + 1` bytes literally, `129..=255` repeats the next byte
//! `257 - n` times, and `128` ends the data. A length byte without its data is
//! a hard error.

use vstd::prelude::*;

use crate::error::{Error, LimitKind};
use crate::limits::Limits;

verus! {

/// The canonical filter name used in error values.
pub open spec fn rl_filter_name() -> &'static str {
    "RunLengthDecode"
}

/// RunLength decoding of `input` from position `i` with the bytes `out`
/// decoded so far, under the output ceiling `cap`.
pub open spec fn rl_from(input: Seq<u8>, i: int, out: Seq<u8>, cap: nat) -> Result<Seq<u8>, Error>
    decreases input.len() - i,
{
    if i < 0 || i >= input.len() {
        Ok(out)
    } else {
        let n = input[i];
        if n == 128 {
            Ok(out)
        } else if n <= 127 {
            let count = n as int + 1;
            if i + 1 + count > input.len() {
                Err(Error::Decode { filter: rl_filter_name(), msg: "truncated literal run" })
            } else {
                let o2 = out + input.subrange(i + 1, i + 1 + count);
                if o2.len() > cap {
                    Err(Error::LimitExceeded(LimitKind::DecompressedStream))
                } else {
                    rl_from(input, i + 1 + count, o2, cap)
                }
            }
        } else {
            let count = 257 - n as int;
            if i + 1 >= input.len() {
                Err(Error::Decode { filter: rl_filter_name(), msg: "truncated replicate run" })
            } else {
                let o2 = out + Seq::new(count as nat, |k: int| input[i + 1]);
                if o2.len() > cap {
                    Err(Error::LimitExceeded(LimitKind::DecompressedStream))
                } else {
                    rl_from(input, i + 2, o2, cap)
                }
            }
        }
    }
}

/// What RunLength decoding of `input` under output ceiling `cap` yields.
pub open spec fn rl_decode_spec(input: Seq<u8>, cap: nat) -> Result<Seq<u8>, Error> {
    rl_from(input, 0, Seq::empty(), cap)
}

/// Decodes RunLength-encoded `input`, stopping at a `128` byte or at end of
/// input. A truncated run is an error.
pub fn decode(input: &[u8], limits: &Limits) -> (r: Result<Vec<u8>, Error>)
    ensures
        match (r, rl_decode_spec(input@, limits.max_decompressed_stream as nat)) {
            (Ok(v), Ok(s)) => v@ == s,
            (Err(e), Err(s)) => e == s,
            _ => false,
        },
{
    let cap = limits.max_decompressed_stream;
    let mut out: Vec<u8> = Vec::new();
    let mut i: usize = 0;
    while i < input.len()
        invariant
            i <= input.len(),
            cap == limits.max_decompressed_stream,
            out@.len() <= cap,
            rl_decode_spec(input@, cap as nat) == rl_from(input@, i as int, out@, cap as nat),
        ensures
            i <= input.len(),
            rl_decode_spec(input@, cap as nat) == rl_from(input@, i as int, out@, cap as nat),
            i == input.len() || input@[i as int] == 128,
        decreases input.len() - i,
    {
        let len = input[i];
        if len == 128 {
            break;
        }
        let ghost before = out@;
        if len <= 127 {
            let count = len as usize + 1;
            if count > input.len() - (i + 1) {
                return Err(Error::decode("RunLengthDecode", "truncated literal run"));
            }
            let end = i + 1 + count;
            out.extend_from_slice(&input[i + 1..end]);
            assert(out@ == before + input@.subrange(i + 1, end as int));
            i = end;
        } else {
            let count = 257 - len as usize;
            if i + 1 >= input.len() {
                return Err(Error::decode("RunLengthDecode", "truncated replicate run"));
            }
            let byte = input[i + 1];
            let mut k: usize = 0;
            while k < count
                invariant
                    k <= count,
                    out@ == before + Seq::new(k as nat, |t: int| byte),
                decreases count - k,
            {
                out.push(byte);
                assert(out@ == before + Seq::new((k + 1) as nat, |t: int| byte));
                k = k + 1;
            }
            assert(byte == input@[i + 1]);
            assert(Seq::new(count as nat, |t: int| byte) == Seq::new(
                count as nat,
                |t: int| input@[i + 1],
            ));
            i = i + 2;
        }
        if out.len() > cap {
            return Err(Error::LimitExceeded(LimitKind::DecompressedStream));
        }
    }
    Ok(out)
}

/// The length of the run of bytes equal to `x[i]` starting at `i`, counting
/// from `r` and capped at `cap`.
pub open spec fn run_upto(x: Seq<u8>, i: int, r: int, cap: int) -> int
    decreases x.len() - (i + r),
{
    if 0 <= i && i + r < x.len() && x[i + r] == x[i] && r < cap {
        run_upto(x, i, r + 1, cap)
    } else {
        r
    }
}

/// The length of a literal run starting at `i` with `lit` bytes already
/// gathered: it stops at 128 bytes, at end of input, or before a run of
/// three equal bytes.
pub open spec fn lit_from(x: Seq<u8>, i: int, lit: int) -> int
    decreases x.len() - i,
{
    if 0 <= i < x.len() && lit < 128 && run_upto(x, i, 1, 3) < 3 {
        lit_from(x, i + 1, lit + 1)
    } else {
        lit
    }
}

/// The RunLength encoding of `x[i..]` (without the end-of-data byte):
/// replicate runs for three or more equal bytes, literal runs otherwise.
pub open spec fn rl_enc_from(x: Seq<u8>, i: int) -> Seq<u8>
    decreases x.len() - i,
{
    if i < 0 || i >= x.len() {
        Seq::empty()
    } else {
        let r = run_upto(x, i, 1, 128);
        if r >= 3 {
            if i + r > x.len() {
                Seq::empty()
            } else {
                seq![(257 - r) as u8, x[i]] + rl_enc_from(x, i + r)
            }
        } else {
            let l = lit_from(x, i, 0);
            if l <= 0 || i + l > x.len() {
                Seq::empty()
            } else {
                seq![(l - 1) as u8] + x.subrange(i, i + l) + rl_enc_from(x, i + l)
            }
        }
    }
}

/// The RunLength encoding of `x`, ending with the `128` end-of-data byte.
pub open spec fn rl_encode_spec(x: Seq<u8>) -> Seq<u8> {
    rl_enc_from(x, 0).push(128)
}

proof fn lemma_run_upto_bounds(x: Seq<u8>, i: int, r: int, cap: int)
    requires
        0 <= i,
        1 <= r <= cap,
        i + r <= x.len(),
        forall|t: int| 0 <= t < r ==> #[trigger] x[i + t] == x[i],
    ensures
        r <= run_upto(x, i, r, cap) <= cap,
        i + run_upto(x, i, r, cap) <= x.len(),
        forall|t: int| 0 <= t < run_upto(x, i, r, cap) ==> #[trigger] x[i + t] == x[i],
    decreases x.len() - (i + r),
{
    if i + r < x.len() && x[i + r] == x[i] && r < cap {
        lemma_run_upto_bounds(x, i, r + 1, cap);
    }
}

proof fn lemma_run_upto_ge(x: Seq<u8>, i: int, r: int, cap: int)
    ensures
        run_upto(x, i, r, cap) >= r,
    decreases x.len() - (i + r),
{
    if 0 <= i && i + r < x.len() && x[i + r] == x[i] && r < cap {
        lemma_run_upto_ge(x, i, r + 1, cap);
    }
}

proof fn lemma_run_caps(x: Seq<u8>, i: int, r: int)
    requires
        0 <= i < x.len(),
        1 <= r <= 3,
    ensures
        run_upto(x, i, r, 3) >= 3 ==> run_upto(x, i, r, 128) >= 3,
        run_upto(x, i, r, 3) < 3 ==> run_upto(x, i, r, 128) == run_upto(x, i, r, 3),
    decreases 3 - r,
{
    if i + r < x.len() && x[i + r] == x[i] && r < 3 {
        lemma_run_caps(x, i, r + 1);
    } else if r == 3 {
        lemma_run_upto_ge(x, i, r, 128);
    }
}

proof fn lemma_lit_bounds(x: Seq<u8>, i: int, lit: int)
    requires
        0 <= i <= x.len(),
        0 <= lit <= 128,
    ensures
        lit <= lit_from(x, i, lit) <= 128,
        i + (lit_from(x, i, lit) - lit) <= x.len(),
    decreases x.len() - i,
{
    if 0 <= i < x.len() && lit < 128 && run_upto(x, i, 1, 3) < 3 {
        lemma_lit_bounds(x, i + 1, lit + 1);
    }
}

/// The length of the run of bytes equal to `input[i]` at `i`, capped at `cap`.
fn run_length_at(input: &[u8], i: usize, cap: usize) -> (r: usize)
    requires
        i < input.len(),
        1 <= cap <= 128,
    ensures
        r == run_upto(input@, i as int, 1, cap as int),
{
    let b = input[i];
    let mut run: usize = 1;
    while i + run < input.len() && input[i + run] == b && run < cap
        invariant
            i < input.len(),
            1 <= run <= cap,
            b == input@[i as int],
            i + run <= input.len(),
            run_upto(input@, i as int, 1, cap as int) == run_upto(
                input@,
                i as int,
                run as int,
                cap as int,
            ),
        decreases input.len() - (i + run),
    {
        run = run + 1;
    }
    run
}

/// The length of the literal run starting at `start`.
fn literal_length(input: &[u8], start: usize) -> (lit: usize)
    requires
        start < input.len(),
    ensures
        lit == lit_from(input@, start as int, 0),
        lit <= 128,
        start + lit <= input.len(),
{
    let n = input.len();
    let mut i = start;
    let mut lit: usize = 0;
    while i < n && lit < 128
        invariant
            n == input.len(),
            start <= i <= n,
            lit == i - start,
            lit <= 128,
            lit_from(input@, start as int, 0) == lit_from(input@, i as int, lit as int),
        ensures
            start <= i <= n,
            lit == i - start,
            lit <= 128,
            lit_from(input@, start as int, 0) == lit_from(input@, i as int, lit as int),
            i == n || lit == 128 || run_upto(input@, i as int, 1, 3) >= 3,
        decreases n - i,
    {
        let ahead = run_length_at(input, i, 3);
        if ahead >= 3 {
            break;
        }
        i = i + 1;
        lit = lit + 1;
    }
    lit
}

/// Appends the replicate run `(257 - run, b)`.
fn push_replicate(out: &mut Vec<u8>, run: usize, b: u8)
    requires
        3 <= run <= 128,
    ensures
        final(out)@ == old(out)@ + seq![(257 - run) as u8, b],
{
    out.push((257 - run) as u8);
    out.push(b);
    assert(out@ == old(out)@ + seq![(257 - run) as u8, b]);
}

/// Appends the literal run of `input[start..start + lit]`.
fn push_literal(out: &mut Vec<u8>, input: &[u8], start: usize, lit: usize)
    requires
        1 <= lit <= 128,
        start + lit <= input.len(),
    ensures
        final(out)@ == old(out)@ + seq![(lit - 1) as u8] + input@.subrange(
            start as int,
            start + lit,
        ),
{
    out.push((lit - 1) as u8);
    out.extend_from_slice(&input[start..start + lit]);
    assert(out@ == old(out)@ + seq![(lit - 1) as u8] + input@.subrange(start as int, start + lit));
}

/// Encodes `input` with RunLength, ending with a `128` end-of-data byte:
/// replicate runs for stretches of three or more equal bytes, literal runs
/// otherwise.
pub fn encode(input: &[u8]) -> (r: Vec<u8>)
    ensures
        r@ == rl_encode_spec(input@),
{
    let mut out: Vec<u8> = Vec::new();
    let mut i: usize = 0;
    let n = input.len();
    let ghost x = input@;
    while i < n
        invariant
            x == input@,
            n == input.len(),
            i <= n,
            rl_enc_from(x, 0) == out@ + rl_enc_from(x, i as int),
        decreases n - i,
    {
        let b = input[i];
        let run = run_length_at(input, i, 128);
        proof {
            assert(x[i + 0] == x[i as int]);
            lemma_run_upto_bounds(x, i as int, 1, 128);
        }
        if run >= 3 {
            push_replicate(&mut out, run, b);
            i = i + run;
        } else {
            let lit = literal_length(input, i);
            proof {
                lemma_run_caps(x, i as int, 1);
                lemma_lit_bounds(x, i as int, 0);
                lemma_lit_bounds(x, i + 1, 1);
                assert(lit >= 1);
            }
            push_literal(&mut out, input, i, lit);
            i = i + lit;
        }
    }
    assert(out@ + rl_enc_from(x, n as int) == out@);
    out.push(128);
    out
}

/// Decoding past a prefix `h` behaves as decoding the rest on its own.
proof fn lemma_rl_shift(h: Seq<u8>, s: Seq<u8>, j: int, out: Seq<u8>, cap: nat)
    requires
        0 <= j <= s.len(),
    ensures
        rl_from(h + s, h.len() + j, out, cap) == rl_from(s, j, out, cap),
    decreases s.len() - j,
{
    let hs = h + s;
    let p = h.len() + j;
    if j < s.len() {
        assert(hs[p] == s[j]);
        let n = s[j];
        if n == 128 {
        } else if n <= 127 {
            let count = n as int + 1;
            if j + 1 + count <= s.len() {
                assert(hs.subrange(p + 1, p + 1 + count) == s.subrange(j + 1, j + 1 + count));
                let o2 = out + s.subrange(j + 1, j + 1 + count);
                if o2.len() <= cap {
                    lemma_rl_shift(h, s, j + 1 + count, o2, cap);
                }
            }
        } else {
            let count = 257 - n as int;
            if j + 1 < s.len() {
                assert(hs[p + 1] == s[j + 1]);
                let o2 = out + Seq::new(count as nat, |k: int| s[j + 1]);
                assert(out + Seq::new(count as nat, |k: int| hs[p + 1]) == o2);
                if o2.len() <= cap {
                    lemma_rl_shift(h, s, j + 2, o2, cap);
                }
            }
        }
    }
}

/// Decoding the encoding of `x[i..]`, with `x[..i]` already decoded, yields `x`.
proof fn lemma_rl_round_trip_from(x: Seq<u8>, i: int, cap: nat)
    requires
        0 <= i <= x.len(),
        x.len() <= cap,
    ensures
        rl_from(rl_enc_from(x, i).push(128), 0, x.take(i), cap) == Ok::<Seq<u8>, Error>(x),
    decreases x.len() - i,
{
    if i == x.len() {
        assert(rl_enc_from(x, i).push(128) == seq![128u8]);
        assert(x.take(i) == x);
    } else {
        let r = run_upto(x, i, 1, 128);
        assert(x[i + 0] == x[i]);
        lemma_run_upto_bounds(x, i, 1, 128);
        let rest = rl_enc_from(x, i + r).push(128);
        if r >= 3 {
            let h = seq![(257 - r) as u8, x[i]];
            assert(rl_enc_from(x, i).push(128) == h + rest);
            let o2 = x.take(i) + Seq::new(r as nat, |k: int| x[i]);
            assert(o2 == x.take(i + r)) by {
                assert forall|k: int| 0 <= k < i + r implies #[trigger] o2[k] == x.take(i + r)[k] by {
                    if k >= i {
                        assert(x[i + (k - i)] == x[i]);
                    }
                }
            }
            lemma_rl_shift(h, rest, 0, o2, cap);
            lemma_rl_round_trip_from(x, i + r, cap);
        } else {
            lemma_run_caps(x, i, 1);
            lemma_lit_bounds(x, i, 0);
            lemma_lit_bounds(x, i + 1, 1);
            let l = lit_from(x, i, 0);
            let h = seq![(l - 1) as u8] + x.subrange(i, i + l);
            assert(rl_enc_from(x, i).push(128) == h + rl_enc_from(x, i + l).push(128));
            assert((h + rl_enc_from(x, i + l).push(128)).subrange(1, 1 + l) == x.subrange(i, i + l));
            assert(x.take(i) + x.subrange(i, i + l) == x.take(i + l));
            lemma_rl_shift(h, rl_enc_from(x, i + l).push(128), 0, x.take(i + l), cap);
            lemma_rl_round_trip_from(x, i + l, cap);
        }
    }
}

/// Round trip: decoding the RunLength encoding of any `x` gives back `x`,
/// provided `x` fits under the output ceiling.
pub proof fn law_rl_round_trip(x: Seq<u8>, cap: nat)
    requires
        x.len() <= cap,
    ensures
        rl_decode_spec(rl_encode_spec(x), cap) == Ok::<Seq<u8>, Error>(x),
{
    lemma_rl_round_trip_from(x, 0, cap);
    assert(x.take(0) == Seq::<u8>::empty());
}

} // verus!
