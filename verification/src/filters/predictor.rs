//! PNG and TIFF predictors.
//!
//! A predictor is a transform applied before Flate/LZW compression to make
//! sample data more compressible; decoding reverses it ([`unpredict`]) and
//! encoding applies it ([`predict`]). `/Predictor` 2 is TIFF horizontal
//! differencing; 10..=15 are the PNG predictors, where every row carries a tag
//! byte naming the filter used for it.

use vstd::prelude::*;

use crate::error::{Error, LimitKind};
use crate::limits::Limits;
use crate::object::{Dict, Name, PdfValue};
use vstd::string::StringSliceAdditionalSpecFns;

verus! {

/// Resolved predictor configuration.
#[derive(Copy, Clone, PartialEq, Eq, Debug)]
pub struct PredictorParams {
    /// `/Predictor` value (1, 2, or 10..=15).
    pub predictor: i64,
    /// `/Colors` — samples per pixel (default 1).
    pub colors: usize,
    /// `/BitsPerComponent` — bits per sample (default 8).
    pub bits_per_component: usize,
    /// `/Columns` — samples per row (default 1).
    pub columns: usize,
}

/// `a * b`, saturating at `usize::MAX`.
pub open spec fn sat_mul(a: usize, b: usize) -> usize {
    if a * b > usize::MAX { usize::MAX } else { (a * b) as usize }
}

/// `ceil(x / 8)`.
pub open spec fn div_ceil8(x: usize) -> usize {
    (x / 8 + if x % 8 != 0 { 1int } else { 0int }) as usize
}

fn saturating_mul(a: usize, b: usize) -> (r: usize)
    ensures
        r == sat_mul(a, b),
{
    match a.checked_mul(b) {
        Some(v) => v,
        None => usize::MAX,
    }
}

fn div_ceil_8(x: usize) -> (r: usize)
    ensures
        r == div_ceil8(x),
{
    x / 8 + if x % 8 != 0 { 1 } else { 0 }
}

impl PredictorParams {
    /// Bytes per row: `ceil(Colors * BitsPerComponent * Columns / 8)`, the
    /// product saturating.
    pub open spec fn spec_row_bytes(self) -> usize {
        div_ceil8(sat_mul(sat_mul(self.colors, self.bits_per_component), self.columns))
    }

    /// Bytes per pixel for byte-wise PNG differencing:
    /// `max(1, ceil(Colors * BitsPerComponent / 8))`.
    pub open spec fn spec_bpp(self) -> usize {
        let b = div_ceil8(sat_mul(self.colors, self.bits_per_component));
        if b < 1 { 1 } else { b }
    }

    /// Whether the configuration is one the predictors implement.
    pub open spec fn spec_valid(self) -> bool {
        &&& (self.predictor == 2 || 10 <= self.predictor <= 15)
        &&& (self.bits_per_component == 1 || self.bits_per_component == 2
            || self.bits_per_component == 4 || self.bits_per_component == 8
            || self.bits_per_component == 16)
        &&& self.colors != 0
        &&& self.columns != 0
    }

    /// The error of validating the configuration, if any.
    pub open spec fn spec_validate(self, filter: &'static str) -> Result<(), Error> {
        if !(self.predictor == 2 || 10 <= self.predictor <= 15) {
            Err(Error::Filter { filter, msg: "unsupported /Predictor value" })
        } else if !(self.bits_per_component == 1 || self.bits_per_component == 2
            || self.bits_per_component == 4 || self.bits_per_component == 8
            || self.bits_per_component == 16) {
            Err(Error::Filter { filter, msg: "invalid /BitsPerComponent" })
        } else if self.colors == 0 || self.columns == 0 {
            Err(Error::Filter { filter, msg: "/Colors and /Columns must be >= 1" })
        } else {
            Ok(())
        }
    }

    /// Validates that the predictor is one we implement and that the layout
    /// is representable.
    pub fn validate(&self, filter: &'static str) -> (r: Result<(), Error>)
        ensures
            r == self.spec_validate(filter),
            r is Ok <==> self.spec_valid(),
    {
        if !(self.predictor == 2 || (10 <= self.predictor && self.predictor <= 15)) {
            return Err(Error::filter(filter, "unsupported /Predictor value"));
        }
        let b = self.bits_per_component;
        if !(b == 1 || b == 2 || b == 4 || b == 8 || b == 16) {
            return Err(Error::filter(filter, "invalid /BitsPerComponent"));
        }
        if self.colors == 0 || self.columns == 0 {
            return Err(Error::filter(filter, "/Colors and /Columns must be >= 1"));
        }
        Ok(())
    }

    /// Bytes per row of samples, excluding any PNG tag byte.
    pub fn row_bytes(&self) -> (r: usize)
        ensures
            r == self.spec_row_bytes(),
    {
        let bits = saturating_mul(saturating_mul(self.colors, self.bits_per_component), self.columns);
        div_ceil_8(bits)
    }

    /// Bytes per pixel for byte-wise PNG differencing.
    pub fn bpp(&self) -> (r: usize)
        ensures
            r == self.spec_bpp(),
            r >= 1,
    {
        let b = div_ceil_8(saturating_mul(self.colors, self.bits_per_component));
        if b < 1 { 1 } else { b }
    }
}

// --- PNG predictors --------------------------------------------------------

/// `(x + y) mod 256`.
pub open spec fn add8(x: u8, y: u8) -> u8 {
    ((x as int + y as int) % 256) as u8
}

/// `(x - y) mod 256`.
pub open spec fn sub8(x: u8, y: u8) -> u8 {
    ((x as int - y as int + 256) % 256) as u8
}

/// `|x|`.
pub open spec fn abs_int(x: int) -> int {
    if x < 0 { -x } else { x }
}

/// The PNG Paeth predictor: the neighbour closest to `a + b - c`, ties going
/// to `a`, then `b`, then `c`.
pub open spec fn spec_paeth(a: u8, b: u8, c: u8) -> u8 {
    let pa = abs_int(b - c);
    let pb = abs_int(a - c);
    let pc = abs_int(a + b - 2 * c);
    if pa <= pb && pa <= pc {
        a
    } else if pb <= pc {
        b
    } else {
        c
    }
}

/// The PNG Paeth predictor function.
pub fn paeth(a: u8, b: u8, c: u8) -> (r: u8)
    ensures
        r == spec_paeth(a, b, c),
{
    let pa0 = b as i16 - c as i16;
    let pb0 = a as i16 - c as i16;
    let pc0 = a as i16 + b as i16 - 2 * c as i16;
    let pa = if pa0 < 0 { -pa0 } else { pa0 };
    let pb = if pb0 < 0 { -pb0 } else { pb0 };
    let pc = if pc0 < 0 { -pc0 } else { pc0 };
    if pa <= pb && pa <= pc {
        a
    } else if pb <= pc {
        b
    } else {
        c
    }
}

/// The prediction of the PNG row filter `tag` from the left neighbour `a`,
/// the byte above `b` and the byte above-left `c`.
pub open spec fn png_prediction(tag: u8, a: u8, b: u8, c: u8) -> u8 {
    if tag == 1 {
        a
    } else if tag == 2 {
        b
    } else if tag == 3 {
        ((a as int + b as int) / 2) as u8
    } else if tag == 4 {
        spec_paeth(a, b, c)
    } else {
        0
    }
}

/// The byte of the previous row at `i`, or zero (first row).
pub open spec fn above(prev: Seq<u8>, i: int) -> u8 {
    if 0 <= i < prev.len() { prev[i] } else { 0 }
}

/// The left neighbour (`bpp` bytes back) of position `i` within `row`.
pub open spec fn left(row: Seq<u8>, i: int, bpp: int) -> u8 {
    if i >= bpp { row[i - bpp] } else { 0 }
}

/// The above-left neighbour of position `i`.
pub open spec fn above_left(prev: Seq<u8>, i: int, bpp: int) -> u8 {
    if i >= bpp { above(prev, i - bpp) } else { 0 }
}

/// The first `n` reconstructed bytes of a row filtered with `tag`.
pub open spec fn recon_prefix(tag: u8, src: Seq<u8>, prev: Seq<u8>, bpp: int, n: int) -> Seq<u8>
    decreases n,
{
    if n <= 0 {
        Seq::empty()
    } else {
        let cur = recon_prefix(tag, src, prev, bpp, n - 1);
        let i = n - 1;
        cur.push(
            add8(src[i], png_prediction(tag, left(cur, i, bpp), above(prev, i), above_left(prev, i, bpp))),
        )
    }
}

/// The previous reconstructed row of `out` for row `r` (empty for row 0).
pub open spec fn prev_row(out: Seq<u8>, r: int, rb: int) -> Seq<u8> {
    if r == 0 { Seq::empty() } else { out.subrange((r - 1) * rb, r * rb) }
}

/// PNG reconstruction of the first `r` rows of `data` (each row a tag byte
/// and `rb` filtered bytes).
pub open spec fn png_unpredict_rows(data: Seq<u8>, rb: int, bpp: int, r: int) -> Result<Seq<u8>, Error>
    decreases r,
{
    if r <= 0 {
        Ok(Seq::empty())
    } else {
        match png_unpredict_rows(data, rb, bpp, r - 1) {
            Err(e) => Err(e),
            Ok(out) => {
                let base = (r - 1) * (rb + 1);
                let tag = data[base];
                if tag > 4 {
                    Err(Error::Filter { filter: "predictor", msg: "invalid PNG row filter tag" })
                } else {
                    Ok(out + recon_prefix(tag, data.subrange(base + 1, base + 1 + rb), prev_row(out, r - 1, rb), bpp, rb))
                }
            },
        }
    }
}

/// What reversing the PNG predictor of `p` on `data` yields.
pub open spec fn png_unpredict_spec(data: Seq<u8>, p: PredictorParams, cap: nat) -> Result<Seq<u8>, Error> {
    let rb = p.spec_row_bytes() as int;
    let n = data.len() as int;
    if rb == 0 {
        Ok(Seq::empty())
    } else if n % (rb + 1) != 0 {
        Err(Error::Filter { filter: "predictor", msg: "PNG data length not a multiple of row stride" })
    } else if (n / (rb + 1)) * rb > cap {
        Err(Error::LimitExceeded(LimitKind::DecompressedStream))
    } else {
        png_unpredict_rows(data, rb, p.spec_bpp() as int, n / (rb + 1))
    }
}

proof fn lemma_recon_len(tag: u8, src: Seq<u8>, prev: Seq<u8>, bpp: int, n: int)
    requires
        n >= 0,
    ensures
        recon_prefix(tag, src, prev, bpp, n).len() == n,
    decreases n,
{
    if n > 0 {
        lemma_recon_len(tag, src, prev, bpp, n - 1);
    }
}

proof fn lemma_rows_err_persist(data: Seq<u8>, rb: int, bpp: int, r: int, r2: int)
    requires
        0 <= r <= r2,
        png_unpredict_rows(data, rb, bpp, r) is Err,
    ensures
        png_unpredict_rows(data, rb, bpp, r2) == png_unpredict_rows(data, rb, bpp, r),
    decreases r2 - r,
{
    if r < r2 {
        lemma_rows_err_persist(data, rb, bpp, r, r2 - 1);
    }
}

/// One reconstructed byte: the filtered byte `x` plus the prediction.
fn recon_byte(tag: u8, x: u8, a: u8, b: u8, c: u8) -> (r: u8)
    ensures
        r == add8(x, png_prediction(tag, a, b, c)),
{
    let pred: u8 = if tag == 1 {
        a
    } else if tag == 2 {
        b
    } else if tag == 3 {
        ((a as u16 + b as u16) / 2) as u8
    } else if tag == 4 {
        paeth(a, b, c)
    } else {
        0
    };
    x.wrapping_add(pred)
}

/// Reconstructs one PNG row: appends `rb` bytes to `out`, reading the
/// filtered bytes at `data[src..src + rb]` and the previous reconstructed row
/// from `out` itself.
fn reconstruct_row(tag: u8, data: &[u8], src: usize, rb: usize, bpp: usize, out: &mut Vec<u8>, r: usize)
    requires
        tag <= 4,
        src + rb <= data.len(),
        bpp >= 1,
        old(out)@.len() == r * rb,
    ensures
        final(out)@ == old(out)@ + recon_prefix(
            tag,
            data@.subrange(src as int, src + rb),
            prev_row(old(out)@, r as int, rb as int),
            bpp as int,
            rb as int,
        ),
{
    let ghost s = data@.subrange(src as int, src + rb);
    let ghost prev = prev_row(old(out)@, r as int, rb as int);
    let ghost start = old(out)@;
    let base = out.len();
    let mut i: usize = 0;
    proof {
        if r > 0 {
            assert((r - 1) * rb + rb == r * rb) by (nonlinear_arith);
            assert((r - 1) * rb <= r * rb) by (nonlinear_arith) requires r > 0;
        }
    }
    while i < rb
        invariant
            i <= rb,
            base == start.len(),
            base == r * rb,
            src + rb <= data.len(),
            s == data@.subrange(src as int, src + rb),
            prev == prev_row(start, r as int, rb as int),
            r > 0 ==> prev.len() == rb && (r - 1) * rb + rb == r * rb,
            r == 0 ==> prev.len() == 0,
            bpp >= 1,
            tag <= 4,
            out@ == start + recon_prefix(tag, s, prev, bpp as int, i as int),
        decreases rb - i,
    {
        let ghost cur = recon_prefix(tag, s, prev, bpp as int, i as int);
        proof {
            lemma_recon_len(tag, s, prev, bpp as int, i as int);
        }
        assert(out@.len() == base + i);
        let cur_len = out.len();
        let a: u8 = if i >= bpp { out[cur_len - bpp] } else { 0 };
        let b: u8 = if r > 0 { out[(base - rb) + i] } else { 0 };
        let c: u8 = if i >= bpp && r > 0 { out[(base - rb) + (i - bpp)] } else { 0 };
        assert(a == left(cur, i as int, bpp as int));
        assert(b == above(prev, i as int));
        assert(c == above_left(prev, i as int, bpp as int));
        let x = data[src + i];
        assert(x == s[i as int]);
        let y = recon_byte(tag, x, a, b, c);
        out.push(y);
        i = i + 1;
    }
}
fn unpredict_png(data: &[u8], p: &PredictorParams, limits: &Limits) -> (r: Result<Vec<u8>, Error>)
    ensures
        match (r, png_unpredict_spec(data@, *p, limits.max_decompressed_stream as nat)) {
            (Ok(v), Ok(s)) => v@ == s,
            (Err(e), Err(s)) => e == s,
            _ => false,
        },
{
    let rb = p.row_bytes();
    if rb == 0 {
        return Ok(Vec::new());
    }
    if rb > usize::MAX - 1 {
        proof {
            assert(rb == p.spec_row_bytes());
            assert(sat_mul(sat_mul(p.colors, p.bits_per_component), p.columns) / 8 + 1 <= usize::MAX);
        }
    }
    let stride = rb + 1;
    if data.len() % stride != 0 {
        return Err(Error::filter("predictor", "PNG data length not a multiple of row stride"));
    }
    let n_rows = data.len() / stride;
    proof {
        assert(n_rows * rb <= n_rows * stride) by (nonlinear_arith) requires stride == rb + 1;
        assert(n_rows * stride <= data.len()) by (nonlinear_arith)
            requires n_rows == data.len() / stride, stride > 0;
    }
    let out_len = n_rows * rb;
    if out_len > limits.max_decompressed_stream {
        return Err(Error::LimitExceeded(LimitKind::DecompressedStream));
    }
    let bpp = p.bpp();
    assert(png_unpredict_spec(data@, *p, limits.max_decompressed_stream as nat)
        == png_unpredict_rows(data@, rb as int, bpp as int, n_rows as int));
    let mut out: Vec<u8> = Vec::new();
    let mut r: usize = 0;
    while r < n_rows
        invariant
            r <= n_rows,
            n_rows == data.len() / stride,
            stride == rb + 1,
            n_rows * stride <= data.len(),
            rb == p.spec_row_bytes(),
            bpp == p.spec_bpp(),
            png_unpredict_spec(data@, *p, limits.max_decompressed_stream as nat)
                == png_unpredict_rows(data@, rb as int, bpp as int, n_rows as int),
            bpp >= 1,
            out@.len() == r * rb,
            png_unpredict_rows(data@, rb as int, bpp as int, r as int) == Ok::<Seq<u8>, Error>(out@),
        decreases n_rows - r,
    {
        proof {
            assert(r * stride + stride <= n_rows * stride) by (nonlinear_arith) requires r < n_rows, stride > 0;
            assert((r + 1) * rb == r * rb + rb) by (nonlinear_arith);
        }
        let base = r * stride;
        let tag = data[base];
        if tag > 4 {
            proof {
                assert(base == ((r + 1) - 1) * (rb + 1));
                assert(png_unpredict_rows(data@, rb as int, bpp as int, r + 1) is Err);
                lemma_rows_err_persist(data@, rb as int, bpp as int, r + 1, n_rows as int);
            }
            return Err(Error::filter("predictor", "invalid PNG row filter tag"));
        }
        let ghost before = out@;
        reconstruct_row(tag, data, base + 1, rb, bpp, &mut out, r);
        proof {
            lemma_recon_len(tag, data@.subrange(base + 1, base + 1 + rb), prev_row(before, r as int, rb as int), bpp as int, rb as int);
        }
        r = r + 1;
    }
    Ok(out)
}

/// The PNG row-filter tag used for every row when encoding with `predictor`.
pub open spec fn png_tag_for(predictor: i64) -> Option<u8> {
    if predictor == 10 {
        Some(0u8)
    } else if predictor == 11 {
        Some(1u8)
    } else if predictor == 12 {
        Some(2u8)
    } else if predictor == 13 {
        Some(3u8)
    } else if predictor == 14 || predictor == 15 {
        Some(4u8)
    } else {
        None
    }
}

/// A row filtered with `tag` against the unfiltered previous row `prev`.
pub open spec fn filter_bytes(tag: u8, cur: Seq<u8>, prev: Seq<u8>, bpp: int) -> Seq<u8> {
    Seq::new(
        cur.len(),
        |i: int|
            sub8(
                cur[i],
                png_prediction(tag, left(cur, i, bpp), above(prev, i), above_left(prev, i, bpp)),
            ),
    )
}

/// Row `r` of `x` for row width `rb`.
pub open spec fn row_of(x: Seq<u8>, r: int, rb: int) -> Seq<u8> {
    x.subrange(r * rb, r * rb + rb)
}

/// The unfiltered row before row `r` (empty for row 0).
pub open spec fn orig_prev(x: Seq<u8>, r: int, rb: int) -> Seq<u8> {
    if r == 0 { Seq::empty() } else { row_of(x, r - 1, rb) }
}

/// The first `r` PNG-filtered rows of `x`, each led by its tag.
pub open spec fn png_predict_rows(x: Seq<u8>, rb: int, bpp: int, tag: u8, r: int) -> Seq<u8>
    decreases r,
{
    if r <= 0 {
        Seq::empty()
    } else {
        png_predict_rows(x, rb, bpp, tag, r - 1) + seq![tag] + filter_bytes(
            tag,
            row_of(x, r - 1, rb),
            orig_prev(x, r - 1, rb),
            bpp,
        )
    }
}

/// What applying the PNG predictor of `p` to `data` yields.
pub open spec fn png_predict_spec(data: Seq<u8>, p: PredictorParams) -> Result<Seq<u8>, Error> {
    let rb = p.spec_row_bytes() as int;
    let n = data.len() as int;
    if rb == 0 {
        Ok(Seq::empty())
    } else if n % rb != 0 {
        Err(Error::Filter { filter: "predictor", msg: "data length not a multiple of row width" })
    } else {
        match png_tag_for(p.predictor) {
            None => Err(Error::Filter { filter: "predictor", msg: "unsupported PNG predictor" }),
            Some(tag) => Ok(png_predict_rows(data, rb, p.spec_bpp() as int, tag, n / rb)),
        }
    }
}

/// Appends row `r` of `data` filtered with `tag`.
fn filter_row(tag: u8, data: &[u8], r: usize, rb: usize, bpp: usize, out: &mut Vec<u8>)
    requires
        r * rb + rb <= data.len(),
        bpp >= 1,
    ensures
        final(out)@ == old(out)@ + filter_bytes(
            tag,
            row_of(data@, r as int, rb as int),
            orig_prev(data@, r as int, rb as int),
            bpp as int,
        ),
{
    let ghost cur = row_of(data@, r as int, rb as int);
    let ghost prev = orig_prev(data@, r as int, rb as int);
    let ghost start = old(out)@;
    let base = r * rb;
    let mut i: usize = 0;
    proof {
        if r > 0 {
            assert((r - 1) * rb + rb == r * rb) by (nonlinear_arith);
            assert((r - 1) * rb <= r * rb) by (nonlinear_arith) requires r > 0;
        }
    }
    while i < rb
        invariant
            i <= rb,
            base == r * rb,
            base + rb <= data.len(),
            cur == row_of(data@, r as int, rb as int),
            prev == orig_prev(data@, r as int, rb as int),
            r > 0 ==> (r - 1) * rb + rb == r * rb,
            bpp >= 1,
            out@ == start + filter_bytes(tag, cur, prev, bpp as int).take(i as int),
        decreases rb - i,
    {
        let a: u8 = if i >= bpp { data[base + (i - bpp)] } else { 0 };
        let b: u8 = if r > 0 { data[(base - rb) + i] } else { 0 };
        let c: u8 = if i >= bpp && r > 0 { data[(base - rb) + (i - bpp)] } else { 0 };
        assert(a == left(cur, i as int, bpp as int));
        assert(b == above(prev, i as int));
        assert(c == above_left(prev, i as int, bpp as int));
        let x = data[base + i];
        assert(x == cur[i as int]);
        let y = filter_byte(tag, x, a, b, c);
        out.push(y);
        assert(filter_bytes(tag, cur, prev, bpp as int).take(i + 1) == filter_bytes(
            tag,
            cur,
            prev,
            bpp as int,
        ).take(i as int).push(y));
        i = i + 1;
    }
    assert(filter_bytes(tag, cur, prev, bpp as int).take(rb as int) == filter_bytes(
        tag,
        cur,
        prev,
        bpp as int,
    ));
}

/// One filtered byte: the sample `x` minus the prediction.
fn filter_byte(tag: u8, x: u8, a: u8, b: u8, c: u8) -> (r: u8)
    ensures
        r == sub8(x, png_prediction(tag, a, b, c)),
{
    let pred: u8 = if tag == 1 {
        a
    } else if tag == 2 {
        b
    } else if tag == 3 {
        ((a as u16 + b as u16) / 2) as u8
    } else if tag == 4 {
        paeth(a, b, c)
    } else {
        0
    };
    x.wrapping_sub(pred)
}

fn predict_png(data: &[u8], p: &PredictorParams) -> (r: Result<Vec<u8>, Error>)
    ensures
        match (r, png_predict_spec(data@, *p)) {
            (Ok(v), Ok(s)) => v@ == s,
            (Err(e), Err(s)) => e == s,
            _ => false,
        },
{
    let rb = p.row_bytes();
    if rb == 0 {
        return Ok(Vec::new());
    }
    if data.len() % rb != 0 {
        return Err(Error::filter("predictor", "data length not a multiple of row width"));
    }
    let n_rows = data.len() / rb;
    let bpp = p.bpp();
    let tag: u8 = if p.predictor == 10 {
        0
    } else if p.predictor == 11 {
        1
    } else if p.predictor == 12 {
        2
    } else if p.predictor == 13 {
        3
    } else if p.predictor == 14 || p.predictor == 15 {
        4
    } else {
        return Err(Error::filter("predictor", "unsupported PNG predictor"));
    };
    proof {
        assert(n_rows * rb == data.len()) by (nonlinear_arith)
            requires n_rows == data.len() / rb, data.len() % rb == 0, rb > 0;
    }
    let mut out: Vec<u8> = Vec::new();
    let mut r: usize = 0;
    while r < n_rows
        invariant
            r <= n_rows,
            n_rows * rb == data.len(),
            rb == p.spec_row_bytes(),
            bpp == p.spec_bpp(),
            bpp >= 1,
            png_tag_for(p.predictor) == Some(tag),
            out@ == png_predict_rows(data@, rb as int, bpp as int, tag, r as int),
        decreases n_rows - r,
    {
        proof {
            assert(r * rb + rb <= n_rows * rb) by (nonlinear_arith) requires r < n_rows;
        }
        out.push(tag);
        filter_row(tag, data, r, rb, bpp, &mut out);
        r = r + 1;
    }
    Ok(out)
}

// --- TIFF predictor 2 --------------------------------------------------------

/// The first `n` bytes of an 8-bit row with TIFF differencing reversed: each
/// sample plus the reconstructed sample one pixel (`colors` bytes) back.
pub open spec fn tiff8_dec_prefix(row: Seq<u8>, colors: int, n: int) -> Seq<u8>
    decreases n,
{
    if n <= 0 {
        Seq::empty()
    } else {
        let p = tiff8_dec_prefix(row, colors, n - 1);
        let i = n - 1;
        p.push(
            if i < colors {
                row[i]
            } else if colors == 0 {
                add8(row[i], row[i])
            } else {
                add8(row[i], p[i - colors])
            },
        )
    }
}

/// An 8-bit row with TIFF differencing applied: each sample minus the
/// unfiltered sample one pixel back.
pub open spec fn tiff8_enc(row: Seq<u8>, colors: int) -> Seq<u8> {
    Seq::new(row.len(), |i: int| if i < colors { row[i] } else { sub8(row[i], row[i - colors]) })
}

/// The big-endian 16-bit sample `j` of a row.
pub open spec fn sample16(row: Seq<u8>, j: int) -> int {
    row[2 * j] as int * 256 + row[2 * j + 1] as int
}

/// The first `n` samples of a 16-bit row with TIFF differencing reversed.
pub open spec fn tiff16_dec_samples(row: Seq<u8>, colors: int, n: int) -> Seq<int>
    decreases n,
{
    if n <= 0 {
        Seq::empty()
    } else {
        let p = tiff16_dec_samples(row, colors, n - 1);
        let j = n - 1;
        p.push(
            if j < colors {
                sample16(row, j)
            } else if colors == 0 {
                (sample16(row, j) * 2) % 65536
            } else {
                (sample16(row, j) + p[j - colors]) % 65536
            },
        )
    }
}

/// The samples of a 16-bit row with TIFF differencing applied.
pub open spec fn tiff16_enc_samples(row: Seq<u8>, colors: int) -> Seq<int> {
    Seq::new(
        (row.len() / 2) as nat,
        |j: int|
            if j < colors {
                sample16(row, j)
            } else {
                (sample16(row, j) - sample16(row, j - colors) + 65536) % 65536
            },
    )
}

/// A row whose 16-bit samples are replaced by `s` (big-endian); an odd final
/// byte is kept.
pub open spec fn with_samples16(row: Seq<u8>, s: Seq<int>) -> Seq<u8> {
    Seq::new(
        row.len(),
        |i: int|
            if i < 2 * s.len() {
                if i % 2 == 0 { (s[i / 2] / 256) as u8 } else { (s[i / 2] % 256) as u8 }
            } else {
                row[i]
            },
    )
}

/// TIFF predictor 2 on one row: reverse (`encode == false`) or apply it.
pub open spec fn tiff_row_spec(row: Seq<u8>, colors: int, bpc: int, encode: bool) -> Seq<u8> {
    if bpc == 8 {
        if encode { tiff8_enc(row, colors) } else { tiff8_dec_prefix(row, colors, row.len() as int) }
    } else {
        if encode {
            with_samples16(row, tiff16_enc_samples(row, colors))
        } else {
            with_samples16(row, tiff16_dec_samples(row, colors, row.len() as int / 2))
        }
    }
}

/// TIFF predictor 2 on one row of any supported width.
pub open spec fn tiff_any_row(row: Seq<u8>, colors: int, bpc: int, columns: int, encode: bool) -> Seq<u8> {
    if bpc == 8 || bpc == 16 {
        tiff_row_spec(row, colors, bpc, encode)
    } else {
        tiff_sb_row_spec(row, colors, bpc, columns, encode)
    }
}

/// TIFF predictor 2 over the first `r` rows of width `rb`.
pub open spec fn tiff_rows(data: Seq<u8>, rb: int, colors: int, bpc: int, columns: int, encode: bool, r: int) -> Seq<u8>
    decreases r,
{
    if r <= 0 {
        Seq::empty()
    } else {
        tiff_rows(data, rb, colors, bpc, columns, encode, r - 1) + tiff_any_row(row_of(data, r - 1, rb), colors, bpc, columns, encode)
    }
}

/// What TIFF predictor 2 over all rows yields, or the error that stops it.
pub open spec fn tiff_spec(data: Seq<u8>, p: PredictorParams, encode: bool) -> Result<Seq<u8>, Error> {
    let rb = p.spec_row_bytes() as int;
    let n = data.len() as int;
    if rb == 0 {
        Ok(data)
    } else if n % rb != 0 {
        Err(Error::Filter { filter: "predictor", msg: "TIFF data length not a multiple of row width" })
    } else if n == 0 {
        Ok(data)
    } else if p.bits_per_component == 1 || p.bits_per_component == 2 || p.bits_per_component == 4
        || p.bits_per_component == 8 || p.bits_per_component == 16 {
        Ok(tiff_rows(data, rb, p.colors as int, p.bits_per_component as int, p.columns as int, encode, n / rb))
    } else {
        Err(Error::Filter { filter: "predictor", msg: "TIFF2 BitsPerComponent unsupported" })
    }
}

proof fn lemma_tiff8_len(row: Seq<u8>, colors: int, n: int)
    requires
        n >= 0,
    ensures
        tiff8_dec_prefix(row, colors, n).len() == n,
    decreases n,
{
    if n > 0 {
        lemma_tiff8_len(row, colors, n - 1);
    }
}

proof fn lemma_tiff16_len(row: Seq<u8>, colors: int, n: int)
    requires
        n >= 0,
    ensures
        tiff16_dec_samples(row, colors, n).len() == n,
        forall|j: int| 0 <= j < n ==> 0 <= #[trigger] tiff16_dec_samples(row, colors, n)[j] < 65536,
    decreases n,
{
    if n > 0 {
        lemma_tiff16_len(row, colors, n - 1);
    }
}

/// 8-bit TIFF2 over one row: each sample relative to the prior sample of the
/// same color channel.
fn tiff_row_8(data: &[u8], start: usize, len: usize, colors: usize, encode: bool, out: &mut Vec<u8>)
    requires
        start + len <= data.len(),
    ensures
        final(out)@ == old(out)@ + tiff_row_spec(data@.subrange(start as int, start + len), colors as int, 8, encode),
{
    if encode {
        tiff8_encode_row(data, start, len, colors, out);
    } else {
        tiff8_decode_row(data, start, len, colors, out);
    }
}

fn tiff8_encode_row(data: &[u8], start: usize, len: usize, colors: usize, out: &mut Vec<u8>)
    requires
        start + len <= data.len(),
    ensures
        final(out)@ == old(out)@ + tiff8_enc(data@.subrange(start as int, start + len), colors as int),
{
    let ghost row = data@.subrange(start as int, start + len);
    let ghost before = old(out)@;
    let mut i: usize = 0;
    while i < len
        invariant
            i <= len,
            start + len <= data.len(),
            row == data@.subrange(start as int, start + len),
            out@ == before + tiff8_enc(row, colors as int).take(i as int),
        decreases len - i,
    {
        let x = data[start + i];
        let v: u8 = if i < colors { x } else { x.wrapping_sub(data[start + (i - colors)]) };
        out.push(v);
        assert(tiff8_enc(row, colors as int).take(i + 1) == tiff8_enc(row, colors as int).take(i as int).push(v));
        i = i + 1;
    }
    assert(tiff8_enc(row, colors as int).take(len as int) == tiff8_enc(row, colors as int));
}

fn tiff8_decode_row(data: &[u8], start: usize, len: usize, colors: usize, out: &mut Vec<u8>)
    requires
        start + len <= data.len(),
    ensures
        final(out)@ == old(out)@ + tiff8_dec_prefix(data@.subrange(start as int, start + len), colors as int, len as int),
{
    let ghost row = data@.subrange(start as int, start + len);
    let ghost before = old(out)@;
    let mut i: usize = 0;
    while i < len
        invariant
            i <= len,
            start + len <= data.len(),
            row == data@.subrange(start as int, start + len),
            out@.len() == before.len() + i,
            out@ == before + tiff8_dec_prefix(row, colors as int, i as int),
        decreases len - i,
    {
        proof {
            lemma_tiff8_len(row, colors as int, i as int);
        }
        let x = data[start + i];
        let cur_len = out.len();
        let v: u8 = if i < colors {
            x
        } else if colors == 0 {
            x.wrapping_add(x)
        } else {
            x.wrapping_add(out[cur_len - colors])
        };
        out.push(v);
        proof {
            lemma_tiff8_len(row, colors as int, i + 1);
        }
        i = i + 1;
    }
}

/// 16-bit TIFF2 over one row: big-endian samples, each relative to the prior
/// sample of the same color channel; an odd final byte is copied.
fn tiff_row_16(data: &[u8], start: usize, len: usize, colors: usize, encode: bool, out: &mut Vec<u8>)
    requires
        start + len <= data.len(),
    ensures
        final(out)@ == old(out)@ + tiff_row_spec(data@.subrange(start as int, start + len), colors as int, 16, encode),
{
    let ghost row = data@.subrange(start as int, start + len);
    let ghost before = old(out)@;
    let n = len / 2;
    let mut s: Vec<u32> = Vec::new();
    let mut j: usize = 0;
    while j < n
        invariant
            j <= n,
            n == len / 2,
            start + len <= data.len(),
            row == data@.subrange(start as int, start + len),
            s@.len() == j,
            forall|k: int| 0 <= k < j ==> s@[k] < 65536,
            encode ==> forall|k: int| 0 <= k < j ==> s@[k] as int == #[trigger] tiff16_enc_samples(row, colors as int)[k],
            !encode ==> forall|k: int| 0 <= k < j ==> s@[k] as int == #[trigger] tiff16_dec_samples(row, colors as int, j as int)[k],
        decreases n - j,
    {
        let cur: u32 = data[start + 2 * j] as u32 * 256 + data[start + 2 * j + 1] as u32;
        assert(cur == sample16(row, j as int));
        let back: u32 = if j >= colors && !encode {
            if colors == 0 { cur } else { s[j - colors] }
        } else {
            0
        };
        proof {
            lemma_tiff16_len(row, colors as int, j as int);
            lemma_tiff16_len(row, colors as int, j + 1);
        }
        let v: u32 = if j < colors {
            cur
        } else if encode {
            let k = j - colors;
            let prior: u32 = data[start + 2 * k] as u32 * 256 + data[start + 2 * k + 1] as u32;
            assert(prior == sample16(row, k as int));
            (cur + 65536 - prior) % 65536
        } else {
            (cur + back) % 65536
        };
        s.push(v);
        j = j + 1;
    }
    let ghost ss = if encode { tiff16_enc_samples(row, colors as int) } else { tiff16_dec_samples(row, colors as int, n as int) };
    proof {
        lemma_tiff16_len(row, colors as int, n as int);
    }
    let mut i: usize = 0;
    while i < len
        invariant
            i <= len,
            n == len / 2,
            start + len <= data.len(),
            row == data@.subrange(start as int, start + len),
            s@.len() == n,
            ss.len() == n,
            forall|k: int| 0 <= k < n ==> s@[k] as int == #[trigger] ss[k],
            forall|k: int| 0 <= k < n ==> 0 <= #[trigger] ss[k] < 65536,
            out@ == before + with_samples16(row, ss).take(i as int),
        decreases len - i,
    {
        let b: u8 = if i < 2 * n {
            let v = s[i / 2];
            if i % 2 == 0 { (v / 256) as u8 } else { (v % 256) as u8 }
        } else {
            data[start + i]
        };
        assert(with_samples16(row, ss)[i as int] == b);
        out.push(b);
        assert(with_samples16(row, ss).take(i + 1) == with_samples16(row, ss).take(i as int).push(b));
        i = i + 1;
    }
    assert(with_samples16(row, ss).take(len as int) == with_samples16(row, ss));
}

/// Bit `pos` (MSB-first) of a byte row.
pub open spec fn row_bit(row: Seq<u8>, pos: int) -> u16 {
    ((row[pos / 8] >> ((7 - pos % 8) as u8)) & 1u8) as u16
}

/// The value of `cnt` bits of `row` starting at bit `pos`, MSB-first.
pub open spec fn bits_value(row: Seq<u8>, pos: int, cnt: int) -> u16
    decreases cnt,
{
    if cnt <= 0 {
        0
    } else {
        ((bits_value(row, pos, cnt - 1) as int * 2 + row_bit(row, pos + cnt - 1)) % 65536) as u16
    }
}

/// The sub-byte sample `k` (of `bpc` bits) of a row.
pub open spec fn sb_sample(row: Seq<u8>, k: int, bpc: int) -> u16 {
    bits_value(row, k * bpc, bpc)
}

/// `(a + b) mod 2^16`.
pub open spec fn add16(a: u16, b: u16) -> u16 {
    ((a as int + b as int) % 65536) as u16
}

/// `(a - b) mod 2^16`.
pub open spec fn sub16(a: u16, b: u16) -> u16 {
    ((a as int - b as int + 65536) % 65536) as u16
}

/// The first `n` sub-byte samples with TIFF differencing reversed (modulo
/// `2^bpc`).
pub open spec fn sb_dec(row: Seq<u8>, colors: int, bpc: int, mask: u16, n: int) -> Seq<u16>
    decreases n,
{
    if n <= 0 {
        Seq::empty()
    } else {
        let p = sb_dec(row, colors, bpc, mask, n - 1);
        let k = n - 1;
        p.push(
            if k < colors {
                sb_sample(row, k, bpc)
            } else {
                add16(sb_sample(row, k, bpc), p[k - colors]) & mask
            },
        )
    }
}

/// The `n` sub-byte samples with TIFF differencing applied.
pub open spec fn sb_enc(row: Seq<u8>, colors: int, bpc: int, mask: u16, n: int) -> Seq<u16> {
    Seq::new(
        n as nat,
        |k: int|
            if k < colors {
                sb_sample(row, k, bpc)
            } else {
                sub16(sb_sample(row, k, bpc), sb_sample(row, k - colors, bpc)) & mask
            },
    )
}

/// Bit `pos` of the repacked bit stream of samples `s` (zero past the last
/// sample).
pub open spec fn packed_bit(s: Seq<u16>, bpc: int, pos: int) -> u16 {
    if pos < s.len() * bpc {
        (s[pos / bpc] >> ((bpc - 1 - pos % bpc) as u16)) & 1u16
    } else {
        0
    }
}

/// The first `t` bits of byte `j` of the repacked row, as a number.
pub open spec fn packed_prefix(s: Seq<u16>, bpc: int, j: int, t: int) -> u16
    decreases t,
{
    if t <= 0 {
        0
    } else {
        ((packed_prefix(s, bpc, j, t - 1) as int * 2 + packed_bit(s, bpc, 8 * j + t - 1)) % 65536) as u16
    }
}

/// A row of `len` bytes holding the samples `s` packed MSB-first, zero-padded.
pub open spec fn pack_samples(s: Seq<u16>, bpc: int, len: int) -> Seq<u8> {
    Seq::new(len as nat, |j: int| packed_prefix(s, bpc, j, 8) as u8)
}

/// The sub-byte TIFF2 transform of one row.
/// The sample mask `2^bpc - 1` for the sub-byte widths.
pub open spec fn sb_mask(bpc: int) -> u16 {
    if bpc == 1 { 1 } else if bpc == 2 { 3 } else { 15 }
}

pub open spec fn tiff_sb_row_spec(row: Seq<u8>, colors: int, bpc: int, columns: int, encode: bool) -> Seq<u8> {
    let mask = sb_mask(bpc);
    let n = colors * columns;
    if encode {
        pack_samples(sb_enc(row, colors, bpc, mask, n), bpc, row.len() as int)
    } else {
        pack_samples(sb_dec(row, colors, bpc, mask, n), bpc, row.len() as int)
    }
}

proof fn lemma_sb_dec_len(row: Seq<u8>, colors: int, bpc: int, mask: u16, n: int)
    requires
        n >= 0,
    ensures
        sb_dec(row, colors, bpc, mask, n).len() == n,
    decreases n,
{
    if n > 0 {
        lemma_sb_dec_len(row, colors, bpc, mask, n - 1);
    }
}

/// Reads `bpc` bits of `data` starting at bit `pos` (MSB-first).
fn read_sample(data: &[u8], start: usize, len: usize, pos: usize, bpc: usize) -> (v: u16)
    requires
        start + len <= data.len(),
        bpc <= 16,
        pos + bpc <= 8 * len,
        pos + bpc <= usize::MAX,
    ensures
        v == bits_value(data@.subrange(start as int, start + len), pos as int, bpc as int),
{
    let ghost row = data@.subrange(start as int, start + len);
    let mut v: u16 = 0;
    let mut t: usize = 0;
    while t < bpc
        invariant
            t <= bpc,
            bpc <= 16,
            pos + bpc <= 8 * len,
            pos + bpc <= usize::MAX,
            start + len <= data.len(),
            row == data@.subrange(start as int, start + len),
            v == bits_value(row, pos as int, t as int),
        decreases bpc - t,
    {
        let p = pos + t;
        let byte = data[start + p / 8];
        assert(byte == row[(p / 8) as int]);
        let bit: u16 = ((byte >> ((7 - p % 8) as u8)) & 1u8) as u16;
        assert(bit <= 1) by (bit_vector)
            requires bit == ((byte >> ((7 - p % 8) as u8)) & 1u8) as u16;
        v = ((v as u32 * 2 + bit as u32) % 65536) as u16;
        t = t + 1;
    }
    v
}

/// Sub-byte TIFF2 (1/2/4 bits per component) over one row: unpack the
/// `colors * columns` samples, difference or integrate them per color channel
/// modulo `2^bpc`, and repack them into a zeroed row.
fn tiff_row_sub_byte(data: &[u8], start: usize, len: usize, colors: usize, bpc: usize, columns: usize, encode: bool, out: &mut Vec<u8>)
    requires
        start + len <= data.len(),
        bpc == 1 || bpc == 2 || bpc == 4,
        colors * columns * bpc <= 8 * len,
        colors * columns * bpc <= usize::MAX,
    ensures
        final(out)@ == old(out)@ + tiff_sb_row_spec(data@.subrange(start as int, start + len), colors as int, bpc as int, columns as int, encode),
{
    let ghost row = data@.subrange(start as int, start + len);
    proof {
        assert(colors * columns <= colors * columns * bpc) by (nonlinear_arith) requires bpc >= 1;
    }
    let n_samples = colors * columns;
    let mask: u16 = if bpc == 1 { 1 } else if bpc == 2 { 3 } else { 15 };
    let mut raw: Vec<u16> = Vec::new();
    let mut k: usize = 0;
    proof {
        assert(n_samples * bpc <= 8 * len);
    }
    while k < n_samples
        invariant
            k <= n_samples,
            n_samples * bpc <= 8 * len,
            n_samples * bpc <= usize::MAX,
            bpc == 1 || bpc == 2 || bpc == 4,
            start + len <= data.len(),
            row == data@.subrange(start as int, start + len),
            raw@.len() == k,
            forall|q: int| 0 <= q < k ==> raw@[q] == #[trigger] sb_sample(row, q, bpc as int),
        decreases n_samples - k,
    {
        proof {
            assert(k * bpc + bpc <= n_samples * bpc) by (nonlinear_arith) requires k < n_samples;
        }
        let cur = read_sample(data, start, len, k * bpc, bpc);
        raw.push(cur);
        k = k + 1;
    }
    let mut samples: Vec<u16> = Vec::new();
    k = 0;
    while k < n_samples
        invariant
            k <= n_samples,
            n_samples == colors * columns,
            raw@.len() == n_samples,
            forall|q: int| 0 <= q < n_samples ==> raw@[q] == #[trigger] sb_sample(row, q, bpc as int),
            mask == sb_mask(bpc as int),
            samples@.len() == k,
            encode ==> samples@ == sb_enc(row, colors as int, bpc as int, mask, n_samples as int).take(k as int),
            !encode ==> samples@ == sb_dec(row, colors as int, bpc as int, mask, k as int),
        decreases n_samples - k,
    {
        proof {
            lemma_sb_dec_len(row, colors as int, bpc as int, mask, k as int);
            if colors == 0 {
                assert(colors * columns == 0);
            }
        }
        let cur = raw[k];
        let v: u16 = if k < colors {
            cur
        } else if encode {
            cur.wrapping_sub(raw[k - colors]) & mask
        } else {
            cur.wrapping_add(samples[k - colors]) & mask
        };
        samples.push(v);
        proof {
            if encode {
                assert(samples@ == sb_enc(row, colors as int, bpc as int, mask, n_samples as int).take(k + 1));
            }
        }
        k = k + 1;
    }
    proof {
        if encode {
            assert(sb_enc(row, colors as int, bpc as int, mask, n_samples as int).take(n_samples as int)
                == sb_enc(row, colors as int, bpc as int, mask, n_samples as int));
        }
    }
    let ghost ss = samples@;
    let ghost before = old(out)@;
    let mut j: usize = 0;
    while j < len
        invariant
            j <= len,
            ss == samples@,
            bpc == 1 || bpc == 2 || bpc == 4,
            samples@.len() == n_samples,
            n_samples * bpc <= 8 * len,
            n_samples * bpc <= usize::MAX,
            out@ == before + pack_samples(ss, bpc as int, len as int).take(j as int),
        decreases len - j,
    {
        let mut v: u16 = 0;
        let mut t: usize = 0;
        while t < 8
            invariant
                t <= 8,
                j < len,
                ss == samples@,
                bpc == 1 || bpc == 2 || bpc == 4,
                samples@.len() == n_samples,
                n_samples * bpc <= 8 * len,
                n_samples * bpc <= usize::MAX,
                v == packed_prefix(ss, bpc as int, j as int, t as int),
            decreases 8 - t,
        {
            let total: u128 = (n_samples * bpc) as u128;
            let pos128: u128 = 8 * (j as u128) + t as u128;
            let bit: u16 = if pos128 < total {
                let pos = pos128 as usize;
                proof {
                    assert(pos / bpc < n_samples) by (nonlinear_arith)
                        requires pos < n_samples * bpc, bpc > 0;
                }
                let raw = samples[pos / bpc] >> ((bpc - 1 - pos % bpc) as u16);
                let b = raw & 1u16;
                assert(b <= 1) by (bit_vector)
                    requires b == raw & 1u16;
                b
            } else {
                0
            };
            v = ((v as u32 * 2 + bit as u32) % 65536) as u16;
            t = t + 1;
        }
        out.push(v as u8);
        assert(pack_samples(ss, bpc as int, len as int).take(j + 1) == pack_samples(ss, bpc as int, len as int).take(j as int).push(v as u8));
        j = j + 1;
    }
    assert(pack_samples(ss, bpc as int, len as int).take(len as int) == pack_samples(ss, bpc as int, len as int));
}

/// Whether a sub-byte TIFF layout can be processed without exceeding the
/// address space: its bit count fits in `usize`, or there is no full row.
pub open spec fn tiff_layout_ok(p: PredictorParams, len: int) -> bool {
    p.colors * p.bits_per_component * p.columns <= usize::MAX || len < p.spec_row_bytes()
        || !(p.bits_per_component == 1 || p.bits_per_component == 2 || p.bits_per_component == 4)
}

/// Applies (encode) or reverses (decode) TIFF predictor 2 row by row.
fn tiff_each_row(data: &[u8], p: &PredictorParams, encode: bool) -> (r: Result<Vec<u8>, Error>)
    requires
        tiff_layout_ok(*p, data@.len() as int),
    ensures
        match (r, tiff_spec(data@, *p, encode)) {
            (Ok(v), Ok(s)) => v@ == s,
            (Err(e), Err(s)) => e == s,
            _ => false,
        },
{
    let rb = p.row_bytes();
    if rb == 0 {
        return Ok(vstd::slice::slice_to_vec(data));
    }
    if data.len() % rb != 0 {
        return Err(Error::filter("predictor", "TIFF data length not a multiple of row width"));
    }
    if data.len() == 0 {
        return Ok(vstd::slice::slice_to_vec(data));
    }
    let n_rows = data.len() / rb;
    let bpc = p.bits_per_component;
    let colors = p.colors;
    if !(bpc == 1 || bpc == 2 || bpc == 4 || bpc == 8 || bpc == 16) {
        return Err(Error::filter("predictor", "TIFF2 BitsPerComponent unsupported"));
    }
    proof {
        assert(n_rows * rb == data.len()) by (nonlinear_arith)
            requires n_rows == data.len() / rb, data.len() % rb == 0, rb > 0;
        if bpc < 8 {
            let prod = p.colors * p.bits_per_component * p.columns;
            assert(n_rows >= 1) by (nonlinear_arith) requires n_rows * rb == data.len(), data.len() > 0;
            assert(data.len() >= rb) by (nonlinear_arith) requires n_rows * rb == data.len(), n_rows >= 1;
            assert(prod <= usize::MAX);
            assert(sat_mul(sat_mul(p.colors, p.bits_per_component), p.columns) == prod) by (nonlinear_arith)
                requires prod == p.colors * p.bits_per_component * p.columns, prod <= usize::MAX;
            assert(prod <= 8 * rb);
        }
    }
    let mut out: Vec<u8> = Vec::new();
    let mut r: usize = 0;
    while r < n_rows
        invariant
            r <= n_rows,
            n_rows * rb == data.len(),
            rb == p.spec_row_bytes(),
            bpc == p.bits_per_component,
            colors == p.colors,
            bpc == 1 || bpc == 2 || bpc == 4 || bpc == 8 || bpc == 16,
            bpc < 8 ==> p.colors * p.bits_per_component * p.columns <= 8 * rb,
            bpc < 8 ==> p.colors * p.bits_per_component * p.columns <= usize::MAX,
            out@ == tiff_rows(data@, rb as int, colors as int, bpc as int, p.columns as int, encode, r as int),
        decreases n_rows - r,
    {
        proof {
            assert(r * rb + rb <= n_rows * rb) by (nonlinear_arith) requires r < n_rows;
        }
        let start = r * rb;
        assert(row_of(data@, r as int, rb as int) == data@.subrange(start as int, start + rb));
        if bpc == 8 {
            tiff_row_8(data, start, rb, colors, encode, &mut out);
        } else if bpc == 16 {
            tiff_row_16(data, start, rb, colors, encode, &mut out);
        } else {
            proof {
                assert(colors * p.columns * bpc == p.colors * p.bits_per_component * p.columns) by (nonlinear_arith)
                    requires colors == p.colors, bpc == p.bits_per_component;
            }
            tiff_row_sub_byte(data, start, rb, colors, bpc, p.columns, encode, &mut out);
        }
        r = r + 1;
    }
    Ok(out)
}

/// What reversing predictor `p` on `data` yields.
pub open spec fn unpredict_spec(data: Seq<u8>, p: PredictorParams, cap: nat) -> Result<Seq<u8>, Error> {
    if p.predictor == 2 {
        if data.len() > cap {
            Err(Error::LimitExceeded(LimitKind::DecompressedStream))
        } else {
            tiff_spec(data, p, false)
        }
    } else {
        png_unpredict_spec(data, p, cap)
    }
}

/// What applying predictor `p` to `data` yields.
pub open spec fn predict_spec(data: Seq<u8>, p: PredictorParams) -> Result<Seq<u8>, Error> {
    if p.predictor == 2 {
        tiff_spec(data, p, true)
    } else {
        png_predict_spec(data, p)
    }
}

/// Reverses a predictor on freshly decoded filter output (decode path),
/// respecting the single-stream output ceiling.
pub fn unpredict(data: &[u8], p: &PredictorParams, limits: &Limits) -> (r: Result<Vec<u8>, Error>)
    requires
        p.predictor == 2 ==> tiff_layout_ok(*p, data@.len() as int),
    ensures
        match (r, unpredict_spec(data@, *p, limits.max_decompressed_stream as nat)) {
            (Ok(v), Ok(s)) => v@ == s,
            (Err(e), Err(s)) => e == s,
            _ => false,
        },
{
    if p.predictor == 2 {
        if data.len() > limits.max_decompressed_stream {
            return Err(Error::LimitExceeded(LimitKind::DecompressedStream));
        }
        tiff_each_row(data, p, false)
    } else {
        unpredict_png(data, p, limits)
    }
}

/// Applies a predictor to raw samples (encode path), producing the
/// predictor-encoded stream a later compression step consumes.
pub fn predict(data: &[u8], p: &PredictorParams) -> (r: Result<Vec<u8>, Error>)
    requires
        p.predictor == 2 ==> tiff_layout_ok(*p, data@.len() as int),
    ensures
        match (r, predict_spec(data@, *p)) {
            (Ok(v), Ok(s)) => v@ == s,
            (Err(e), Err(s)) => e == s,
            _ => false,
        },
{
    if p.predictor == 2 {
        tiff_each_row(data, p, true)
    } else {
        predict_png(data, p)
    }
}

// --- laws ------------------------------------------------------------------

proof fn lemma_recon_of_filter(tag: u8, cur: Seq<u8>, prev: Seq<u8>, bpp: int, n: int)
    requires
        0 <= n <= cur.len(),
        bpp >= 1,
    ensures
        recon_prefix(tag, filter_bytes(tag, cur, prev, bpp), prev, bpp, n) == cur.take(n),
    decreases n,
{
    if n > 0 {
        lemma_recon_of_filter(tag, cur, prev, bpp, n - 1);
        let i = n - 1;
        let p = recon_prefix(tag, filter_bytes(tag, cur, prev, bpp), prev, bpp, n - 1);
        assert(left(p, i, bpp) == left(cur, i, bpp));
        assert(cur.take(n - 1).push(cur[i]) == cur.take(n));
    }
}

proof fn lemma_predict_rows_layout(x: Seq<u8>, rb: int, bpp: int, tag: u8, r: int, n: int)
    requires
        0 <= r < n,
        rb >= 0,
        n * rb <= x.len(),
    ensures
        png_predict_rows(x, rb, bpp, tag, n).len() == n * (rb + 1),
        png_predict_rows(x, rb, bpp, tag, n).subrange(r * (rb + 1), r * (rb + 1) + rb + 1) == seq![tag]
            + filter_bytes(tag, row_of(x, r, rb), orig_prev(x, r, rb), bpp),
    decreases n,
{
    let rows = png_predict_rows(x, rb, bpp, tag, n);
    let prev_rows = png_predict_rows(x, rb, bpp, tag, n - 1);
    assert((n - 1) * rb + rb == n * rb) by (nonlinear_arith);
    assert((n - 1) * rb >= 0) by (nonlinear_arith) requires n >= 1, rb >= 0;
    if n - 1 > 0 {
        assert((n - 1) * rb <= n * rb) by (nonlinear_arith) requires rb >= 0;
        if r < n - 1 {
            lemma_predict_rows_layout(x, rb, bpp, tag, r, n - 1);
            assert(r * (rb + 1) + rb + 1 <= (n - 1) * (rb + 1)) by (nonlinear_arith) requires r < n - 1, rb >= 0;
            assert(rows.subrange(r * (rb + 1), r * (rb + 1) + rb + 1) == prev_rows.subrange(r * (rb + 1), r * (rb + 1) + rb + 1));
        } else {
            lemma_predict_rows_layout(x, rb, bpp, tag, r - 1, n - 1);
        }
    } else {
        assert(prev_rows.len() == 0);
    }
    assert(rows.len() == n * (rb + 1)) by (nonlinear_arith)
        requires rows.len() == prev_rows.len() + 1 + rb, prev_rows.len() == (n - 1) * (rb + 1);
    if r == n - 1 {
        assert(r * (rb + 1) == prev_rows.len());
        assert(rows.subrange(r * (rb + 1), r * (rb + 1) + rb + 1) == seq![tag] + filter_bytes(tag, row_of(x, r, rb), orig_prev(x, r, rb), bpp));
    }
}

proof fn lemma_png_round_trip_rows(x: Seq<u8>, rb: int, bpp: int, tag: u8, r: int, n: int)
    requires
        0 <= r <= n,
        rb > 0,
        bpp >= 1,
        tag <= 4,
        n * rb == x.len(),
    ensures
        png_unpredict_rows(png_predict_rows(x, rb, bpp, tag, n), rb, bpp, r) == Ok::<Seq<u8>, Error>(x.take(r * rb)),
    decreases r,
{
    if r == 0 {
        assert(x.take(0) == Seq::<u8>::empty());
    } else {
        lemma_png_round_trip_rows(x, rb, bpp, tag, r - 1, n);
        let k = r - 1;
        let data = png_predict_rows(x, rb, bpp, tag, n);
        lemma_predict_rows_layout(x, rb, bpp, tag, k, n);
        let base = k * (rb + 1);
        assert(base + rb + 1 <= n * (rb + 1)) by (nonlinear_arith) requires base == k * (rb + 1), k < n, rb > 0;
        assert(base >= 0) by (nonlinear_arith) requires base == k * (rb + 1), k >= 0, rb > 0;
        let seg = data.subrange(base, base + rb + 1);
        assert(data[base] == seg[0]);
        assert(data.subrange(base + 1, base + 1 + rb) == seg.subrange(1, rb + 1));
        let cur = row_of(x, k, rb);
        assert(k * rb + rb <= n * rb) by (nonlinear_arith) requires k < n, rb > 0;
        assert(k * rb >= 0) by (nonlinear_arith) requires k >= 0, rb > 0;
        assert(cur.len() == rb);
        assert(seg.subrange(1, rb + 1) == filter_bytes(tag, cur, orig_prev(x, k, rb), bpp));
        let out = x.take(k * rb);
        assert(prev_row(out, k, rb) == orig_prev(x, k, rb)) by {
            if k > 0 {
                assert((k - 1) * rb + rb == k * rb) by (nonlinear_arith);
                assert((k - 1) * rb >= 0) by (nonlinear_arith) requires k >= 1, rb > 0;
            }
        }
        lemma_recon_of_filter(tag, cur, orig_prev(x, k, rb), bpp, rb);
        assert(cur.take(rb) == cur);
        assert(k * rb + rb == r * rb) by (nonlinear_arith) requires k == r - 1;
        assert(out + cur == x.take(r * rb));
    }
}

/// Round trip for the PNG predictors: reversing the prediction of `x` gives
/// back `x`, for whole rows that fit under the output ceiling.
pub proof fn law_png_predictor_round_trip(x: Seq<u8>, p: PredictorParams, cap: nat)
    requires
        10 <= p.predictor <= 15,
        p.spec_row_bytes() > 0,
        x.len() as int % (p.spec_row_bytes() as int) == 0,
        x.len() <= cap,
    ensures
        predict_spec(x, p) matches Ok(y) && unpredict_spec(y, p, cap) == Ok::<Seq<u8>, Error>(x),
{
    let rb = p.spec_row_bytes() as int;
    let bpp = p.spec_bpp() as int;
    let n = x.len() as int / rb;
    let tag = png_tag_for(p.predictor).unwrap();
    assert(n * rb == x.len()) by (nonlinear_arith) requires n == x.len() as int / rb, x.len() as int % rb == 0, rb > 0;
    let y = png_predict_rows(x, rb, bpp, tag, n);
    assert(predict_spec(x, p) == Ok::<Seq<u8>, Error>(y));
    if n > 0 {
        lemma_predict_rows_layout(x, rb, bpp, tag, 0, n);
    } else {
        assert(y.len() == 0);
        assert(n * (rb + 1) == 0) by (nonlinear_arith) requires n == 0;
    }
    assert(y.len() == n * (rb + 1));
    assert(y.len() as int % (rb + 1) == 0) by (nonlinear_arith) requires y.len() == n * (rb + 1), n >= 0, rb > 0;
    assert(y.len() as int / (rb + 1) == n) by (nonlinear_arith) requires y.len() == n * (rb + 1), n >= 0, rb > 0;
    lemma_png_round_trip_rows(x, rb, bpp, tag, n, n);
    assert(x.take(n * rb) == x);
}

proof fn lemma_tiff8_dec_of_enc(row: Seq<u8>, colors: int, n: int)
    requires
        0 <= n <= row.len(),
        colors >= 1,
    ensures
        tiff8_dec_prefix(tiff8_enc(row, colors), colors, n) == row.take(n),
    decreases n,
{
    if n > 0 {
        lemma_tiff8_dec_of_enc(row, colors, n - 1);
        assert(row.take(n - 1).push(row[n - 1]) == row.take(n));
    }
}

#[verifier::spinoff_prover]
proof fn lemma_tiff_rows_layout(data: Seq<u8>, rb: int, colors: int, bpc: int, columns: int, encode: bool, r: int, n: int)
    requires
        0 <= r < n,
        rb > 0,
        n * rb <= data.len(),
        bpc == 1 || bpc == 2 || bpc == 4 || bpc == 8 || bpc == 16,
    ensures
        tiff_rows(data, rb, colors, bpc, columns, encode, n).len() == n * rb,
        row_of(tiff_rows(data, rb, colors, bpc, columns, encode, n), r, rb) == tiff_any_row(row_of(data, r, rb), colors, bpc, columns, encode),
    decreases n,
{
    let rows = tiff_rows(data, rb, colors, bpc, columns, encode, n);
    let prev = tiff_rows(data, rb, colors, bpc, columns, encode, n - 1);
    assert((n - 1) * rb + rb == n * rb) by (nonlinear_arith);
    assert((n - 1) * rb >= 0) by (nonlinear_arith) requires n >= 1, rb > 0;
    let last = row_of(data, n - 1, rb);
    assert(last.len() == rb);
    if encode || bpc != 8 {
        assert(tiff_any_row(last, colors, bpc, columns, encode).len() == rb);
    } else {
        lemma_tiff8_len(last, colors, rb);
    }
    if n - 1 > 0 {
        lemma_tiff_rows_layout(data, rb, colors, bpc, columns, encode, if r < n - 1 { r } else { 0 }, n - 1);
        if r < n - 1 {
            assert(r * rb + rb <= (n - 1) * rb) by (nonlinear_arith) requires r < n - 1, rb > 0;
            assert(r * rb >= 0) by (nonlinear_arith) requires r >= 0, rb > 0;
            assert(row_of(rows, r, rb) == row_of(prev, r, rb));
        }
    } else {
        assert(prev.len() == 0);
    }
    assert((n - 1) * rb + rb == n * rb) by (nonlinear_arith);
    assert(rows.len() == n * rb);
    if r == n - 1 {
        assert(row_of(rows, r, rb) == tiff_any_row(last, colors, bpc, columns, encode));
    }
}

#[verifier::spinoff_prover]
proof fn lemma_tiff8_round_trip_rows(x: Seq<u8>, rb: int, colors: int, columns: int, r: int, n: int)
    requires
        0 <= r <= n,
        rb > 0,
        colors >= 1,
        n * rb == x.len(),
    ensures
        tiff_rows(tiff_rows(x, rb, colors, 8, columns, true, n), rb, colors, 8, columns, false, r) == x.take(r * rb),
    decreases r,
{
    if r == 0 {
        assert(x.take(0) == Seq::<u8>::empty());
    } else {
        let k = r - 1;
        lemma_tiff8_round_trip_rows(x, rb, colors, columns, k, n);
        let y = tiff_rows(x, rb, colors, 8, columns, true, n);
        lemma_tiff_rows_layout(x, rb, colors, 8, columns, true, k, n);
        assert(k * rb + rb <= n * rb) by (nonlinear_arith) requires k < n, rb > 0;
        assert(k * rb >= 0) by (nonlinear_arith) requires k >= 0, rb > 0;
        let row = row_of(x, k, rb);
        assert(row_of(y, k, rb) == tiff8_enc(row, colors));
        lemma_tiff8_dec_of_enc(row, colors, rb);
        assert(row.take(rb) == row);
        assert(row_of(y, k, rb).len() == rb);
        assert(tiff_any_row(row_of(y, k, rb), colors, 8, columns, false) == row);
        assert(k * rb + rb == r * rb) by (nonlinear_arith) requires k == r - 1;
        assert(x.take(k * rb) + row == x.take(r * rb));
    }
}

/// Round trip for 8-bit TIFF predictor 2: reversing the prediction of `x`
/// gives back `x`, for whole rows that fit under the output ceiling.
pub proof fn law_tiff8_predictor_round_trip(x: Seq<u8>, p: PredictorParams, cap: nat)
    requires
        p.predictor == 2,
        p.bits_per_component == 8,
        p.colors >= 1,
        p.spec_row_bytes() > 0,
        x.len() as int % (p.spec_row_bytes() as int) == 0,
        x.len() <= cap,
    ensures
        predict_spec(x, p) matches Ok(y) && unpredict_spec(y, p, cap) == Ok::<Seq<u8>, Error>(x),
{
    let rb = p.spec_row_bytes() as int;
    let n = x.len() as int / rb;
    assert(n * rb == x.len()) by (nonlinear_arith) requires n == x.len() as int / rb, x.len() as int % rb == 0, rb > 0;
    if x.len() == 0 {
        assert(predict_spec(x, p) == Ok::<Seq<u8>, Error>(x));
    } else {
        let y = tiff_rows(x, rb, p.colors as int, 8, p.columns as int, true, n);
        assert(predict_spec(x, p) == Ok::<Seq<u8>, Error>(y));
        assert(n >= 1) by (nonlinear_arith) requires n * rb == x.len(), x.len() > 0, rb > 0;
        lemma_tiff_rows_layout(x, rb, p.colors as int, 8, p.columns as int, true, 0, n);
        assert(y.len() == x.len());
        lemma_tiff8_round_trip_rows(x, rb, p.colors as int, p.columns as int, n, n);
        assert(x.take(n * rb) == x);
        assert(y.len() as int / rb == n);
    }
}

/// A big-endian 16-bit sample written by [`with_samples16`] reads back.
proof fn lemma_sample16_of_with(row: Seq<u8>, s: Seq<int>, j: int)
    requires
        s.len() <= row.len() / 2,
        0 <= j < s.len(),
        0 <= s[j] < 65536,
    ensures
        sample16(with_samples16(row, s), j) == s[j],
{
    let w = with_samples16(row, s);
    let e = s[j];
    assert(w[2 * j] == (e / 256) as u8);
    assert((2 * j + 1) % 2 == 1 && (2 * j + 1) / 2 == j);
    assert(w[2 * j + 1] == (e % 256) as u8);
    assert(e / 256 < 256);
    assert((e / 256) * 256 + e % 256 == e);
}

/// Adding back a difference taken modulo `2^16` restores the sample.
proof fn lemma_mod16_cancel(a: int, b: int)
    requires
        0 <= a < 65536,
        0 <= b < 65536,
    ensures
        ((a - b + 65536) % 65536 + b) % 65536 == a,
{
    if a >= b {
        assert((a - b + 65536) % 65536 == a - b);
    } else {
        assert((a - b + 65536) % 65536 == a - b + 65536);
        assert((a + 65536) % 65536 == a);
    }
}

/// Reversing 16-bit TIFF differencing on the differenced row gives the
/// row's samples back.
proof fn lemma_tiff16_dec_of_enc(row: Seq<u8>, colors: int, n: int)
    requires
        0 <= n <= row.len() / 2,
        colors >= 1,
    ensures
        tiff16_dec_samples(with_samples16(row, tiff16_enc_samples(row, colors)), colors, n)
            == Seq::new(n as nat, |j: int| sample16(row, j)),
    decreases n,
{
    if n > 0 {
        lemma_tiff16_dec_of_enc(row, colors, n - 1);
        let enc = tiff16_enc_samples(row, colors);
        let y = with_samples16(row, enc);
        let j = n - 1;
        let p = tiff16_dec_samples(y, colors, n - 1);
        let sj = sample16(row, j);
        assert(0 <= sj < 65536) by {
            assert(0 <= row[2 * j] && row[2 * j] < 256 && 0 <= row[2 * j + 1] && row[2 * j + 1] < 256);
        }
        let v: int = if j < colors {
            sj
        } else {
            let sk = sample16(row, j - colors);
            assert(0 <= sk < 65536) by {
                assert(0 <= row[2 * (j - colors)] && row[2 * (j - colors)] < 256);
                assert(0 <= row[2 * (j - colors) + 1] && row[2 * (j - colors) + 1] < 256);
            }
            lemma_mod16_cancel(sj, sk);
            (sj - sk + 65536) % 65536
        };
        assert(enc[j] == v);
        assert(0 <= v < 65536);
        lemma_sample16_of_with(row, enc, j);
        assert(sample16(y, j) == v);
        if j >= colors {
            assert(p[j - colors] == sample16(row, j - colors));
        }
        assert(tiff16_dec_samples(y, colors, n) == p.push(sj));
        assert(tiff16_dec_samples(y, colors, n) =~= Seq::new(n as nat, |i: int| sample16(row, i)));
    }
}

/// Reversing 16-bit TIFF differencing undoes it on one row.
proof fn lemma_tiff16_row_round_trip(row: Seq<u8>, colors: int)
    requires
        colors >= 1,
    ensures
        tiff_row_spec(tiff_row_spec(row, colors, 16, true), colors, 16, false) == row,
{
    let enc = tiff16_enc_samples(row, colors);
    let y = with_samples16(row, enc);
    let m = row.len() as int / 2;
    assert(y.len() as int / 2 == m);
    lemma_tiff16_dec_of_enc(row, colors, m);
    let dec = tiff16_dec_samples(y, colors, m);
    assert(dec == Seq::new(m as nat, |j: int| sample16(row, j)));
    let z = with_samples16(y, dec);
    assert forall|i: int| 0 <= i < row.len() implies z[i] == row[i] by {
        if i < 2 * m {
            let j = i / 2;
            assert(dec[j] == sample16(row, j));
            assert(0 <= row[2 * j] && 0 <= row[2 * j + 1] < 256);
            assert((row[2 * j] as int * 256 + row[2 * j + 1] as int) / 256 == row[2 * j] as int);
            assert((row[2 * j] as int * 256 + row[2 * j + 1] as int) % 256 == row[2 * j + 1] as int);
            if i % 2 == 0 {
                assert(i == 2 * j);
            } else {
                assert(i == 2 * j + 1);
            }
        } else {
            assert(y[i] == row[i]);
        }
    }
    assert(z =~= row);
}

#[verifier::spinoff_prover]
proof fn lemma_tiff16_round_trip_rows(x: Seq<u8>, rb: int, colors: int, columns: int, r: int, n: int)
    requires
        0 <= r <= n,
        rb > 0,
        colors >= 1,
        n * rb == x.len(),
    ensures
        tiff_rows(tiff_rows(x, rb, colors, 16, columns, true, n), rb, colors, 16, columns, false, r) == x.take(r * rb),
    decreases r,
{
    if r == 0 {
        assert(x.take(0) == Seq::<u8>::empty());
    } else {
        let k = r - 1;
        lemma_tiff16_round_trip_rows(x, rb, colors, columns, k, n);
        let y = tiff_rows(x, rb, colors, 16, columns, true, n);
        lemma_tiff_rows_layout(x, rb, colors, 16, columns, true, k, n);
        assert(k * rb + rb <= n * rb) by (nonlinear_arith) requires k < n, rb > 0;
        assert(k * rb >= 0) by (nonlinear_arith) requires k >= 0, rb > 0;
        let row = row_of(x, k, rb);
        assert(row_of(y, k, rb) == tiff_row_spec(row, colors, 16, true));
        lemma_tiff16_row_round_trip(row, colors);
        assert(tiff_any_row(row_of(y, k, rb), colors, 16, columns, false) == row);
        assert(k * rb + rb == r * rb) by (nonlinear_arith) requires k == r - 1;
        assert(x.take(k * rb) + row == x.take(r * rb));
    }
}

/// Round trip for 16-bit TIFF predictor 2: reversing the prediction of `x`
/// gives back `x`, for whole rows that fit under the output ceiling.
pub proof fn law_tiff16_predictor_round_trip(x: Seq<u8>, p: PredictorParams, cap: nat)
    requires
        p.predictor == 2,
        p.bits_per_component == 16,
        p.colors >= 1,
        p.spec_row_bytes() > 0,
        x.len() as int % (p.spec_row_bytes() as int) == 0,
        x.len() <= cap,
    ensures
        predict_spec(x, p) matches Ok(y) && unpredict_spec(y, p, cap) == Ok::<Seq<u8>, Error>(x),
{
    let rb = p.spec_row_bytes() as int;
    let n = x.len() as int / rb;
    assert(n * rb == x.len()) by (nonlinear_arith) requires n == x.len() as int / rb, x.len() as int % rb == 0, rb > 0;
    if x.len() == 0 {
        assert(predict_spec(x, p) == Ok::<Seq<u8>, Error>(x));
    } else {
        let y = tiff_rows(x, rb, p.colors as int, 16, p.columns as int, true, n);
        assert(predict_spec(x, p) == Ok::<Seq<u8>, Error>(y));
        assert(n >= 1) by (nonlinear_arith) requires n * rb == x.len(), x.len() > 0, rb > 0;
        lemma_tiff_rows_layout(x, rb, p.colors as int, 16, p.columns as int, true, 0, n);
        assert(y.len() == x.len());
        lemma_tiff16_round_trip_rows(x, rb, p.colors as int, p.columns as int, n, n);
        assert(x.take(n * rb) == x);
        assert(y.len() as int / rb == n);
    }
}

// --- round trip for the sub-byte widths ---------------------------------------

/// A byte is the sum of its bits, and each of its bits is 0 or 1.
proof fn lemma_byte_of_bits(x: u8)
    by (bit_vector)
    ensures
        (((x >> 7u8) & 1u8) as u16) * 128 + (((x >> 6u8) & 1u8) as u16) * 64 + (((x >> 5u8) & 1u8) as u16) * 32
            + (((x >> 4u8) & 1u8) as u16) * 16 + (((x >> 3u8) & 1u8) as u16) * 8 + (((x >> 2u8) & 1u8) as u16) * 4
            + (((x >> 1u8) & 1u8) as u16) * 2 + ((x & 1u8) as u16) == x as u16,
{
}

/// The bits of a byte built from eight bits are those bits.
proof fn lemma_bits_of_byte(b0: u16, b1: u16, b2: u16, b3: u16, b4: u16, b5: u16, b6: u16, b7: u16)
    by (bit_vector)
    requires
        b0 <= 1, b1 <= 1, b2 <= 1, b3 <= 1, b4 <= 1, b5 <= 1, b6 <= 1, b7 <= 1,
    ensures
        ({
            let x = (b0 * 128 + b1 * 64 + b2 * 32 + b3 * 16 + b4 * 8 + b5 * 4 + b6 * 2 + b7) as u8;
            &&& ((x >> 7u8) & 1u8) as u16 == b0
            &&& ((x >> 6u8) & 1u8) as u16 == b1
            &&& ((x >> 5u8) & 1u8) as u16 == b2
            &&& ((x >> 4u8) & 1u8) as u16 == b3
            &&& ((x >> 3u8) & 1u8) as u16 == b4
            &&& ((x >> 2u8) & 1u8) as u16 == b5
            &&& ((x >> 1u8) & 1u8) as u16 == b6
            &&& (x & 1u8) as u16 == b7
        }),
{
}

/// A sample of at most 4 bits is the sum of its bits, each 0 or 1.
proof fn lemma_nibble_of_bits(x: u16)
    by (bit_vector)
    requires
        x <= 15,
    ensures
        ((x >> 3u16) & 1u16) * 8 + ((x >> 2u16) & 1u16) * 4 + ((x >> 1u16) & 1u16) * 2 + (x & 1u16) == x,
        ((x >> 1u16) & 1u16) * 2 + (x & 1u16) == x || x > 3,
        (x & 1u16) == x || x > 1,
        (x >> 3u16) & 1u16 <= 1, (x >> 2u16) & 1u16 <= 1, (x >> 1u16) & 1u16 <= 1, x & 1u16 <= 1,
{
}

/// The bits of a sample of at most 4 bits built from its bits are those
/// bits.
proof fn lemma_bits_of_nibble(b0: u16, b1: u16, b2: u16, b3: u16)
    by (bit_vector)
    requires
        b0 <= 1, b1 <= 1, b2 <= 1, b3 <= 1,
    ensures
        ({
            let x = (b0 * 8 + b1 * 4 + b2 * 2 + b3) as u16;
            &&& (x >> 3u16) & 1u16 == b0
            &&& (x >> 2u16) & 1u16 == b1
            &&& (x >> 1u16) & 1u16 == b2
            &&& x & 1u16 == b3
        }),
        ({
            let x = (b2 * 2 + b3) as u16;
            &&& (x >> 1u16) & 1u16 == b2
            &&& x & 1u16 == b3
        }),
        b3 & 1u16 == b3,
{
}

/// Modular differencing and integration under a mask `2^bpc - 1` undo each
/// other on samples within the mask.
proof fn lemma_mask_cancel(a: u16, b: u16, m: u16)
    by (bit_vector)
    requires
        m == 1 || m == 3 || m == 15,
        a <= m,
        b <= m,
    ensures
        (((((((a as int - b as int + 65536) % 65536) as u16) & m) as int + b as int) % 65536) as u16) & m == a,
        a & m == a,
        (((a as int - b as int + 65536) % 65536) as u16) & m <= m,
{
}

/// A shifted-out bit is 0 or 1.
proof fn lemma_bit_u16(x: u16, k: u16)
    by (bit_vector)
    ensures
        (x >> k) & 1u16 <= 1,
{
}

/// A shifted-out bit of a byte is 0 or 1.
proof fn lemma_bit_u8(x: u8, k: u8)
    by (bit_vector)
    ensures
        (x >> k) & 1u8 <= 1,
{
}

/// A packed bit is 0 or 1.
proof fn lemma_packed_bit_le1(s: Seq<u16>, bpc: int, pos: int)
    requires
        bpc == 1 || bpc == 2 || bpc == 4,
        pos >= 0,
    ensures
        packed_bit(s, bpc, pos) <= 1,
{
    if pos < s.len() * bpc {
        lemma_bit_u16(s[pos / bpc], (bpc - 1 - pos % bpc) as u16);
    }
}

/// Byte `j` of a packed row, as the number its eight packed bits make.
#[verifier::rlimit(40)]
proof fn lemma_packed_byte_value(s: Seq<u16>, bpc: int, j: int, c: Seq<u16>)
    requires
        c.len() == 8,
        forall|t: int| 0 <= t < 8 ==> #[trigger] c[t] == packed_bit(s, bpc, 8 * j + t) && c[t] <= 1,
    ensures
        packed_prefix(s, bpc, j, 8) == c[0] * 128 + c[1] * 64 + c[2] * 32 + c[3] * 16 + c[4] * 8 + c[5] * 4 + c[6] * 2 + c[7],
{
    assert(c[0] <= 1 && c[1] <= 1 && c[2] <= 1 && c[3] <= 1 && c[4] <= 1 && c[5] <= 1 && c[6] <= 1 && c[7] <= 1);
    assert(packed_prefix(s, bpc, j, 0) == 0);
    assert(packed_prefix(s, bpc, j, 1) == c[0]);
    assert(packed_prefix(s, bpc, j, 2) == c[0] * 2 + c[1]);
    assert(packed_prefix(s, bpc, j, 3) == c[0] * 4 + c[1] * 2 + c[2]);
    assert(packed_prefix(s, bpc, j, 4) == c[0] * 8 + c[1] * 4 + c[2] * 2 + c[3]);
    assert(packed_prefix(s, bpc, j, 5) == c[0] * 16 + c[1] * 8 + c[2] * 4 + c[3] * 2 + c[4]);
    assert(packed_prefix(s, bpc, j, 6) == c[0] * 32 + c[1] * 16 + c[2] * 8 + c[3] * 4 + c[4] * 2 + c[5]);
    assert(packed_prefix(s, bpc, j, 7) == c[0] * 64 + c[1] * 32 + c[2] * 16 + c[3] * 8 + c[4] * 4 + c[5] * 2 + c[6]);
}

/// The bits of a packed row are the packed bits of its samples.
#[verifier::rlimit(40)]
proof fn lemma_packed_row_bits(s: Seq<u16>, bpc: int, len: int, j: int)
    requires
        0 <= j < len,
        bpc == 1 || bpc == 2 || bpc == 4,
    ensures
        forall|t: int| 0 <= t < 8 ==> #[trigger] row_bit(pack_samples(s, bpc, len), 8 * j + t) == packed_bit(s, bpc, 8 * j + t),
{
    let c = Seq::new(8, |t: int| packed_bit(s, bpc, 8 * j + t));
    assert forall|t: int| 0 <= t < 8 implies #[trigger] c[t] == packed_bit(s, bpc, 8 * j + t) && c[t] <= 1 by {
        lemma_packed_bit_le1(s, bpc, 8 * j + t);
    }
    lemma_packed_byte_value(s, bpc, j, c);
    lemma_bits_of_byte(c[0], c[1], c[2], c[3], c[4], c[5], c[6], c[7]);
    let z = pack_samples(s, bpc, len);
    let x = (c[0] * 128 + c[1] * 64 + c[2] * 32 + c[3] * 16 + c[4] * 8 + c[5] * 4 + c[6] * 2 + c[7]) as u8;
    assert(z[j] == x);
    assert forall|t: int| 0 <= t < 8 implies #[trigger] row_bit(z, 8 * j + t) == packed_bit(s, bpc, 8 * j + t) by {
        let pos = 8 * j + t;
        assert(pos / 8 == j);
        assert(pos % 8 == t);
        assert(c[t] == packed_bit(s, bpc, pos));
        assert(row_bit(z, pos) == ((x >> ((7 - t) as u8)) & 1u8) as u16);
        if t == 0 {
            assert(((7 - t) as u8) == 7u8);
            assert(((x >> 7u8) & 1u8) as u16 == c[0]);
        } else if t == 1 {
            assert(((7 - t) as u8) == 6u8);
            assert(((x >> 6u8) & 1u8) as u16 == c[1]);
        } else if t == 2 {
            assert(((7 - t) as u8) == 5u8);
            assert(((x >> 5u8) & 1u8) as u16 == c[2]);
        } else if t == 3 {
            assert(((7 - t) as u8) == 4u8);
            assert(((x >> 4u8) & 1u8) as u16 == c[3]);
        } else if t == 4 {
            assert(((7 - t) as u8) == 3u8);
            assert(((x >> 3u8) & 1u8) as u16 == c[4]);
        } else if t == 5 {
            assert(((7 - t) as u8) == 2u8);
            assert(((x >> 2u8) & 1u8) as u16 == c[5]);
        } else if t == 6 {
            assert(((7 - t) as u8) == 1u8);
            assert(((x >> 1u8) & 1u8) as u16 == c[6]);
        } else if t == 7 {
            assert(((7 - t) as u8) == 0u8);
            assert((x & 1u8) as u16 == c[7]);
            assert((x >> 0u8) == x) by (bit_vector);
        }
    }
}

/// Bit `i` of packed sample `k` is bit `i` (from the top) of the sample.
proof fn lemma_packed_sample_bit(s: Seq<u16>, bpc: int, len: int, k: int, i: int)
    requires
        bpc == 1 || bpc == 2 || bpc == 4,
        0 <= k < s.len(),
        s.len() * bpc <= 8 * len,
        0 <= i < bpc,
    ensures
        row_bit(pack_samples(s, bpc, len), k * bpc + i) == (s[k] >> ((bpc - 1 - i) as u16)) & 1u16,
{
    let pos = k * bpc + i;
    assert(k * bpc + bpc <= s.len() * bpc) by (nonlinear_arith) requires k < s.len(), bpc > 0;
    assert(pos / bpc == k && pos % bpc == i) by (nonlinear_arith) requires pos == k * bpc + i, 0 <= i < bpc, k >= 0;
    assert(0 <= pos < 8 * len);
    let j = pos / 8;
    let t = pos % 8;
    lemma_packed_row_bits(s, bpc, len, j);
    assert(8 * j + t == pos);
    assert(row_bit(pack_samples(s, bpc, len), 8 * j + t) == packed_bit(s, bpc, 8 * j + t));
}

/// A packed sample reads back.
#[verifier::rlimit(40)]
proof fn lemma_sample_of_packed(s: Seq<u16>, bpc: int, len: int, k: int)
    requires
        bpc == 1 || bpc == 2 || bpc == 4,
        0 <= k < s.len(),
        s.len() * bpc <= 8 * len,
        s[k] <= sb_mask(bpc),
    ensures
        sb_sample(pack_samples(s, bpc, len), k, bpc) == s[k],
{
    let z = pack_samples(s, bpc, len);
    let p = k * bpc;
    let x = s[k];
    lemma_nibble_of_bits(x);
    assert((x >> 0u16) & 1u16 == x & 1u16) by (bit_vector);
    assert(bits_value(z, p, 0) == 0);
    if bpc == 1 {
        lemma_packed_sample_bit(s, bpc, len, k, 0);
        assert(bits_value(z, p, 1) == x & 1u16);
    } else if bpc == 2 {
        lemma_packed_sample_bit(s, bpc, len, k, 0);
        lemma_packed_sample_bit(s, bpc, len, k, 1);
        assert(bits_value(z, p, 1) == (x >> 1u16) & 1u16);
        assert(bits_value(z, p, 2) == ((x >> 1u16) & 1u16) * 2 + (x & 1u16));
    } else {
        lemma_packed_sample_bit(s, bpc, len, k, 0);
        lemma_packed_sample_bit(s, bpc, len, k, 1);
        lemma_packed_sample_bit(s, bpc, len, k, 2);
        lemma_packed_sample_bit(s, bpc, len, k, 3);
        assert(bits_value(z, p, 1) == (x >> 3u16) & 1u16);
        assert(bits_value(z, p, 2) == ((x >> 3u16) & 1u16) * 2 + ((x >> 2u16) & 1u16));
        assert(bits_value(z, p, 3) == ((x >> 3u16) & 1u16) * 4 + ((x >> 2u16) & 1u16) * 2 + ((x >> 1u16) & 1u16));
        assert(bits_value(z, p, 4) == ((x >> 3u16) & 1u16) * 8 + ((x >> 2u16) & 1u16) * 4 + ((x >> 1u16) & 1u16) * 2 + (x & 1u16));
    }
}

/// A sample read from a row fits its width, and its bits are the row's.
#[verifier::rlimit(40)]
proof fn lemma_row_sample_bits(row: Seq<u8>, bpc: int, k: int, i: int)
    requires
        bpc == 1 || bpc == 2 || bpc == 4,
        0 <= k,
        0 <= i < bpc,
        k * bpc + bpc <= 8 * row.len(),
    ensures
        sb_sample(row, k, bpc) <= sb_mask(bpc),
        (sb_sample(row, k, bpc) >> ((bpc - 1 - i) as u16)) & 1u16 == row_bit(row, k * bpc + i),
{
    let p = k * bpc;
    assert(k * bpc >= 0) by (nonlinear_arith) requires k >= 0, bpc >= 1;
    let b0 = row_bit(row, p);
    let b1 = row_bit(row, p + 1);
    let b2 = row_bit(row, p + 2);
    let b3 = row_bit(row, p + 3);
    assert(b0 <= 1) by {
        lemma_bit_u8(row[p / 8], (7 - p % 8) as u8);
    }
    if bpc >= 2 {
        assert(b1 <= 1) by {
            lemma_bit_u8(row[(p + 1) / 8], (7 - (p + 1) % 8) as u8);
        }
    }
    if bpc == 4 {
        assert(b2 <= 1) by {
            lemma_bit_u8(row[(p + 2) / 8], (7 - (p + 2) % 8) as u8);
        }
        assert(b3 <= 1) by {
            lemma_bit_u8(row[(p + 3) / 8], (7 - (p + 3) % 8) as u8);
        }
    }
    assert(bits_value(row, p, 0) == 0);
    assert(bits_value(row, p, 1) == b0);
    let x = sb_sample(row, k, bpc);
    if bpc == 1 {
        lemma_bits_of_nibble(0, 0, 0, b0);
        assert((x >> 0u16) & 1u16 == x & 1u16) by (bit_vector);
    } else if bpc == 2 {
        assert(bits_value(row, p, 2) == b0 * 2 + b1);
        lemma_bits_of_nibble(0, 0, b0, b1);
        assert((x >> 0u16) & 1u16 == x & 1u16) by (bit_vector);
    } else {
        assert(bits_value(row, p, 2) == b0 * 2 + b1);
        assert(bits_value(row, p, 3) == b0 * 4 + b1 * 2 + b2);
        assert(bits_value(row, p, 4) == b0 * 8 + b1 * 4 + b2 * 2 + b3);
        lemma_bits_of_nibble(b0, b1, b2, b3);
        assert((x >> 0u16) & 1u16 == x & 1u16) by (bit_vector);
    }
}

/// The samples of a row, packed back, give the row when the padding bits
/// after its last sample are zero.
#[verifier::rlimit(40)]
proof fn lemma_pack_of_row_samples(row: Seq<u8>, bpc: int, n: int, j: int)
    requires
        bpc == 1 || bpc == 2 || bpc == 4,
        0 <= n,
        n * bpc <= 8 * row.len(),
        0 <= j < row.len(),
        forall|pos: int| n * bpc <= pos < 8 * row.len() ==> #[trigger] row_bit(row, pos) == 0,
    ensures
        pack_samples(Seq::new(n as nat, |k: int| sb_sample(row, k, bpc)), bpc, row.len() as int)[j] == row[j],
{
    let ss = Seq::new(n as nat, |k: int| sb_sample(row, k, bpc));
    let c = Seq::new(8, |t: int| packed_bit(ss, bpc, 8 * j + t));
    assert forall|t: int| 0 <= t < 8 implies #[trigger] c[t] == row_bit(row, 8 * j + t) by {
        let pos = 8 * j + t;
        if pos < n * bpc {
            assert(pos / bpc < n && (pos / bpc) * bpc + pos % bpc == pos && 0 <= pos % bpc < bpc && pos / bpc >= 0)
                by (nonlinear_arith) requires 0 <= pos < n * bpc, bpc >= 1;
            assert((pos / bpc) * bpc + bpc <= n * bpc) by (nonlinear_arith) requires pos / bpc < n, bpc >= 1;
            lemma_row_sample_bits(row, bpc, pos / bpc, pos % bpc);
        }
    }
    assert forall|t: int| 0 <= t < 8 implies #[trigger] c[t] == packed_bit(ss, bpc, 8 * j + t) && c[t] <= 1 by {
        lemma_bit_u8(row[j], (7 - t) as u8);
        assert((8 * j + t) / 8 == j && (8 * j + t) % 8 == t);
    }
    lemma_packed_byte_value(ss, bpc, j, c);
    let x = row[j];
    lemma_byte_of_bits(x);
    assert forall|t: int| 0 <= t < 8 implies #[trigger] c[t] == ((x >> ((7 - t) as u8)) & 1u8) as u16 by {
        assert((8 * j + t) / 8 == j && (8 * j + t) % 8 == t);
    }
    assert((x >> 0u8) == x) by (bit_vector);
    assert(c[0] == ((x >> 7u8) & 1u8) as u16);
    assert(c[1] == ((x >> 6u8) & 1u8) as u16);
    assert(c[2] == ((x >> 5u8) & 1u8) as u16);
    assert(c[3] == ((x >> 4u8) & 1u8) as u16);
    assert(c[4] == ((x >> 3u8) & 1u8) as u16);
    assert(c[5] == ((x >> 2u8) & 1u8) as u16);
    assert(c[6] == ((x >> 1u8) & 1u8) as u16);
    assert(c[7] == ((x >> 0u8) & 1u8) as u16);
}

/// Integrating the packed differences of a row's samples gives the samples
/// back.
#[verifier::rlimit(40)]
proof fn lemma_sb_dec_of_enc(x: Seq<u8>, colors: int, bpc: int, n: int, m: int)
    requires
        bpc == 1 || bpc == 2 || bpc == 4,
        colors >= 1,
        0 <= m <= n,
        n * bpc <= 8 * x.len(),
    ensures
        sb_dec(pack_samples(sb_enc(x, colors, bpc, sb_mask(bpc), n), bpc, x.len() as int), colors, bpc, sb_mask(bpc), m)
            == Seq::new(m as nat, |k: int| sb_sample(x, k, bpc)),
    decreases m,
{
    if m > 0 {
        lemma_sb_dec_of_enc(x, colors, bpc, n, m - 1);
        let mask = sb_mask(bpc);
        let e = sb_enc(x, colors, bpc, mask, n);
        let y = pack_samples(e, bpc, x.len() as int);
        let k = m - 1;
        assert(k * bpc + bpc <= n * bpc) by (nonlinear_arith) requires k < n, bpc >= 1;
        assert(k >= 0);
        lemma_row_sample_bits(x, bpc, k, 0);
        let a = sb_sample(x, k, bpc);
        if k >= colors {
            assert((k - colors) * bpc + bpc <= n * bpc) by (nonlinear_arith) requires k - colors < n, bpc >= 1;
            lemma_row_sample_bits(x, bpc, k - colors, 0);
            let b = sb_sample(x, k - colors, bpc);
            lemma_mask_cancel(a, b, mask);
        }
        assert(e[k] <= mask);
        lemma_sample_of_packed(e, bpc, x.len() as int, k);
        assert(sb_sample(y, k, bpc) == e[k]);
        let prev = sb_dec(y, colors, bpc, mask, m - 1);
        if k >= colors {
            assert(prev[k - colors] == sb_sample(x, k - colors, bpc));
        }
        assert(sb_dec(y, colors, bpc, mask, m) == prev.push(a));
        assert(sb_dec(y, colors, bpc, mask, m) =~= Seq::new(m as nat, |q: int| sb_sample(x, q, bpc)));
    }
}

/// Sub-byte TIFF differencing is undone on a row whose padding bits are
/// zero.
proof fn lemma_sb_row_round_trip(x: Seq<u8>, colors: int, bpc: int, columns: int)
    requires
        bpc == 1 || bpc == 2 || bpc == 4,
        colors >= 1,
        columns >= 0,
        colors * columns * bpc <= 8 * x.len(),
        forall|pos: int| colors * columns * bpc <= pos < 8 * x.len() ==> #[trigger] row_bit(x, pos) == 0,
    ensures
        tiff_sb_row_spec(tiff_sb_row_spec(x, colors, bpc, columns, true), colors, bpc, columns, false) == x,
{
    let n = colors * columns;
    assert(colors * columns >= 0) by (nonlinear_arith) requires colors >= 1, columns >= 0;
    assert(colors * columns * bpc == n * bpc);
    let y = tiff_sb_row_spec(x, colors, bpc, columns, true);
    assert(y.len() == x.len());
    lemma_sb_dec_of_enc(x, colors, bpc, n, n);
    let z = tiff_sb_row_spec(y, colors, bpc, columns, false);
    assert forall|j: int| 0 <= j < x.len() implies z[j] == x[j] by {
        lemma_pack_of_row_samples(x, bpc, n, j);
    }
    assert(z =~= x);
}

#[verifier::spinoff_prover]
proof fn lemma_tiff_sb_round_trip_rows(x: Seq<u8>, rb: int, colors: int, bpc: int, columns: int, r: int, n: int)
    requires
        bpc == 1 || bpc == 2 || bpc == 4,
        0 <= r <= n,
        rb > 0,
        colors >= 1,
        columns >= 0,
        colors * columns * bpc <= 8 * rb,
        n * rb == x.len(),
        forall|q: int, pos: int| 0 <= q < n && colors * columns * bpc <= pos < 8 * rb
            ==> #[trigger] row_bit(row_of(x, q, rb), pos) == 0,
    ensures
        tiff_rows(tiff_rows(x, rb, colors, bpc, columns, true, n), rb, colors, bpc, columns, false, r) == x.take(r * rb),
    decreases r,
{
    if r == 0 {
        assert(x.take(0) == Seq::<u8>::empty());
    } else {
        let k = r - 1;
        lemma_tiff_sb_round_trip_rows(x, rb, colors, bpc, columns, k, n);
        let y = tiff_rows(x, rb, colors, bpc, columns, true, n);
        lemma_tiff_rows_layout(x, rb, colors, bpc, columns, true, k, n);
        assert(k * rb + rb <= n * rb) by (nonlinear_arith) requires k < n, rb > 0;
        assert(k * rb >= 0) by (nonlinear_arith) requires k >= 0, rb > 0;
        let row = row_of(x, k, rb);
        assert(row.len() == rb);
        assert(row_of(y, k, rb) == tiff_sb_row_spec(row, colors, bpc, columns, true));
        assert forall|pos: int| colors * columns * bpc <= pos < 8 * row.len() implies #[trigger] row_bit(row, pos) == 0 by {
            assert(row_bit(row_of(x, k, rb), pos) == 0);
        }
        lemma_sb_row_round_trip(row, colors, bpc, columns);
        assert(tiff_any_row(row_of(y, k, rb), colors, bpc, columns, false) == row);
        assert(k * rb + rb == r * rb) by (nonlinear_arith) requires k == r - 1;
        assert(x.take(k * rb) + row == x.take(r * rb));
    }
}

/// Round trip for sub-byte (1, 2 or 4 bits) TIFF predictor 2: reversing the
/// prediction of `x` gives back `x`, for whole rows whose padding bits after
/// the last sample are zero and that fit under the output ceiling.
pub proof fn law_tiff_subbyte_predictor_round_trip(x: Seq<u8>, p: PredictorParams, cap: nat)
    requires
        p.predictor == 2,
        p.bits_per_component == 1 || p.bits_per_component == 2 || p.bits_per_component == 4,
        p.colors >= 1,
        p.columns >= 1,
        p.colors * p.bits_per_component * p.columns <= usize::MAX,
        p.spec_row_bytes() > 0,
        x.len() as int % (p.spec_row_bytes() as int) == 0,
        x.len() <= cap,
        forall|q: int, pos: int| 0 <= q < x.len() as int / (p.spec_row_bytes() as int)
            && p.colors * p.columns * p.bits_per_component <= pos < 8 * p.spec_row_bytes()
            ==> #[trigger] row_bit(row_of(x, q, p.spec_row_bytes() as int), pos) == 0,
    ensures
        predict_spec(x, p) matches Ok(y) && unpredict_spec(y, p, cap) == Ok::<Seq<u8>, Error>(x),
{
    let rb = p.spec_row_bytes() as int;
    let bpc = p.bits_per_component as int;
    let colors = p.colors as int;
    let columns = p.columns as int;
    let n = x.len() as int / rb;
    assert(n * rb == x.len()) by (nonlinear_arith) requires n == x.len() as int / rb, x.len() as int % rb == 0, rb > 0;
    assert(colors * bpc <= colors * bpc * columns) by (nonlinear_arith)
        requires colors >= 1, bpc >= 1, columns >= 1;
    assert(colors * columns * bpc == colors * bpc * columns) by (nonlinear_arith);
    assert(colors * columns >= 0) by (nonlinear_arith) requires colors >= 1, columns >= 0;
    assert(colors * columns * bpc <= 8 * rb);
    if x.len() == 0 {
        assert(predict_spec(x, p) == Ok::<Seq<u8>, Error>(x));
    } else {
        let y = tiff_rows(x, rb, colors, bpc, columns, true, n);
        assert(predict_spec(x, p) == Ok::<Seq<u8>, Error>(y));
        assert(n >= 1) by (nonlinear_arith) requires n * rb == x.len(), x.len() > 0, rb > 0;
        lemma_tiff_rows_layout(x, rb, colors, bpc, columns, true, 0, n);
        assert(y.len() == x.len());
        lemma_tiff_sb_round_trip_rows(x, rb, colors, bpc, columns, n, n);
        assert(x.take(n * rb) == x);
        assert(y.len() as int / rb == n);
    }
}

// --- reading the parameters from a `/DecodeParms` dictionary ---------------

/// The integer under `key`, if there is one.
pub open spec fn int_entry(m: Map<Seq<u8>, PdfValue>, key: Seq<u8>) -> Option<i64> {
    if m.dom().contains(key) && m[key] is Integer {
        Some(m[key]->Integer_0)
    } else {
        None
    }
}

/// A layout parameter: the integer under `key` when present and
/// non-negative, `default` when absent or not an integer; a negative value
/// is an error.
pub open spec fn read_pos_spec(m: Map<Seq<u8>, PdfValue>, key: Seq<u8>, default: usize, filter: &'static str) -> Result<usize, Error> {
    match int_entry(m, key) {
        None => Ok(default),
        Some(v) => if v >= 0 {
            Ok(v as usize)
        } else {
            Err(Error::Filter { filter, msg: "predictor parameter must be non-negative" })
        },
    }
}

/// The predictor configuration a filter's parameters select: none without
/// parameters or for `/Predictor` absent or at most 1; otherwise the
/// validated layout (read in the order Colors, BitsPerComponent, Columns).
pub open spec fn from_parms_spec(parms: Option<Map<Seq<u8>, PdfValue>>, filter: &'static str) -> Result<Option<PredictorParams>, Error> {
    match parms {
        None => Ok(None),
        Some(m) => {
            let predictor = match int_entry(m, "Predictor".spec_bytes()) {
                Some(v) => v,
                None => 1,
            };
            if predictor <= 1 {
                Ok(None)
            } else {
                match read_pos_spec(m, "Colors".spec_bytes(), 1, filter) {
                    Err(e) => Err(e),
                    Ok(colors) => match read_pos_spec(m, "BitsPerComponent".spec_bytes(), 8, filter) {
                        Err(e) => Err(e),
                        Ok(bits_per_component) => match read_pos_spec(m, "Columns".spec_bytes(), 1, filter) {
                            Err(e) => Err(e),
                            Ok(columns) => {
                                let p = PredictorParams { predictor, colors, bits_per_component, columns };
                                match p.spec_validate(filter) {
                                    Err(e) => Err(e),
                                    Ok(_) => Ok(Some(p)),
                                }
                            },
                        },
                    },
                }
            }
        },
    }
}

/// Reads a non-negative layout parameter from `d`.
fn read_pos(d: &Dict, key: &str, default: usize, filter: &'static str) -> (r: Result<usize, Error>)
    ensures
        r == read_pos_spec(d.map(), key.spec_bytes(), default, filter),
{
    let v = match d.get(&Name::new(key)) {
        Some(o) => o.as_i64(),
        None => None,
    };
    match v {
        None => Ok(default),
        Some(v) => {
            if v >= 0 {
                Ok(v as usize)
            } else {
                Err(Error::filter(filter, "predictor parameter must be non-negative"))
            }
        },
    }
}

impl PredictorParams {
    /// Extracts the predictor configuration from a filter's `/DecodeParms`
    /// dictionary: `Ok(None)` without parameters or for `/Predictor` absent
    /// or at most 1. `filter` names the caller in errors.
    pub fn from_parms(parms: Option<&Dict>, filter: &'static str) -> (r: Result<Option<Self>, Error>)
        ensures
            r == from_parms_spec(
                match parms {
                    Some(d) => Some(d.map()),
                    None => None,
                },
                filter,
            ),
    {
        let d = match parms {
            Some(d) => d,
            None => {
                return Ok(None);
            },
        };
        let predictor: i64 = match d.get(&Name::new("Predictor")) {
            Some(o) => match o.as_i64() {
                Some(v) => v,
                None => 1,
            },
            None => 1,
        };
        if predictor <= 1 {
            return Ok(None);
        }
        let colors = match read_pos(d, "Colors", 1, filter) {
            Ok(v) => v,
            Err(e) => {
                return Err(e);
            },
        };
        let bits_per_component = match read_pos(d, "BitsPerComponent", 8, filter) {
            Ok(v) => v,
            Err(e) => {
                return Err(e);
            },
        };
        let columns = match read_pos(d, "Columns", 1, filter) {
            Ok(v) => v,
            Err(e) => {
                return Err(e);
            },
        };
        let params = PredictorParams { predictor, colors, bits_per_component, columns };
        match params.validate(filter) {
            Ok(_) => Ok(Some(params)),
            Err(e) => Err(e),
        }
    }
}

/// Whether a layout can be processed: the executable form of
/// [`tiff_layout_ok`].
pub fn layout_fits(p: &PredictorParams, len: usize) -> (r: bool)
    ensures
        r == tiff_layout_ok(*p, len as int),
{
    let fits = if p.columns == 0 {
        true
    } else {
        match p.colors.checked_mul(p.bits_per_component) {
            Some(cb) => cb.checked_mul(p.columns).is_some(),
            None => false,
        }
    };
    proof {
        let a = p.colors as int;
        let b = p.bits_per_component as int;
        let c = p.columns as int;
        if c == 0 {
            assert(a * b * c == 0) by (nonlinear_arith) requires c == 0;
        } else if a * b > usize::MAX {
            assert(a * b * c >= a * b) by (nonlinear_arith) requires c >= 1, a >= 0, b >= 0;
        }
    }
    fits || len < p.row_bytes() || !(p.bits_per_component == 1 || p.bits_per_component == 2 || p.bits_per_component == 4)
}

} // verus!
