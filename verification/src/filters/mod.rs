//! Stream filters / codecs
//!
//! A stream's bytes are encoded through the filter chain named by its
//! `/Filter` entry (a single name or an array applied left to right), each
//! with optional parameters in the parallel `/DecodeParms`. [`decode_stream`]
//! walks the chain.
//!
//! Every codec is total: arbitrary, truncated or corrupt input yields a typed
//! [`Error`] (`Decode` / `Filter` / `LimitExceeded`), never a panic, and every
//! decoder refuses to grow its output past
//! [`Limits::max_decompressed_stream`].
//!
//! The image-only filters (`DCTDecode`, `JPXDecode`, `CCITTFaxDecode`,
//! `JBIG2Decode`) are no error: the chain stops there and the still-encoded
//! bytes come back as [`DecodeOutcome::ImageEncoded`], tagged with the
//! filter's name.

pub mod ascii85;
pub mod ascii_hex;
pub mod flate;
pub mod lzw;
pub mod predictor;
pub mod run_length;

use vstd::prelude::*;
use vstd::string::StringSliceAdditionalSpecFns;

use crate::error::{Error, LimitKind};
use crate::limits::Limits;
use crate::object::{Dict, Name, Object, PdfValue};

use ascii85::a85_decode_spec;
use ascii_hex::hex_decode_spec;
use flate::flate_outcome;
use lzw::lzw_outcome;
use predictor::{from_parms_spec, layout_fits, tiff_layout_ok, unpredict_spec, PredictorParams};
use run_length::rl_decode_spec;

verus! {

/// A byte-vector result, by its bytes.
pub open spec fn bytes_result(r: Result<Vec<u8>, Error>) -> Result<Seq<u8>, Error> {
    match r {
        Ok(v) => Ok(v@),
        Err(e) => Err(e),
    }
}

/// The result of [`decode_stream`].
#[derive(Clone, Debug, PartialEq, Eq)]
pub enum DecodeOutcome {
    /// The full filter chain was applied; these are the decoded bytes.
    Decoded(Vec<u8>),
    /// The chain stopped at an image-only filter: `bytes` are still encoded
    /// by `filter` (and any later filters in the chain).
    ImageEncoded {
        /// The image filter that halted decoding (canonical name).
        filter: &'static str,
        /// The bytes still encoded by `filter` onward.
        bytes: Vec<u8>,
    },
}

/// The value of a [`DecodeOutcome`].
pub enum OutcomeView {
    /// Fully decoded bytes.
    Decoded(Seq<u8>),
    /// Stopped at the named image filter, with the bytes still encoded.
    ImageEncoded(&'static str, Seq<u8>),
}

impl View for DecodeOutcome {
    type V = OutcomeView;

    open spec fn view(&self) -> OutcomeView {
        match self {
            DecodeOutcome::Decoded(b) => OutcomeView::Decoded(b@),
            DecodeOutcome::ImageEncoded { filter, bytes } => OutcomeView::ImageEncoded(*filter, bytes@),
        }
    }
}

/// An outcome result, by its view.
pub open spec fn outcome_result(r: Result<DecodeOutcome, Error>) -> Result<OutcomeView, Error> {
    match r {
        Ok(o) => Ok(o@),
        Err(e) => Err(e),
    }
}

impl DecodeOutcome {
    /// The decoded bytes, or [`Error::Unsupported`] naming the image filter
    /// the chain stopped at.
    pub fn into_decoded(self) -> (r: Result<Vec<u8>, Error>)
        ensures
            match self@ {
                OutcomeView::Decoded(b) => r matches Ok(v) && v@ == b,
                OutcomeView::ImageEncoded(f, _) => r == Err::<Vec<u8>, Error>(Error::Unsupported(f)),
            },
    {
        match self {
            DecodeOutcome::Decoded(b) => Ok(b),
            DecodeOutcome::ImageEncoded { filter, .. } => Err(Error::Unsupported(filter)),
        }
    }
}

/// The filters recognized by canonical name or abbreviation.
#[derive(Copy, Clone, PartialEq, Eq, Debug)]
pub enum FilterKind {
    /// `FlateDecode` / `Fl`.
    Flate,
    /// `LZWDecode` / `LZW`.
    Lzw,
    /// `ASCIIHexDecode` / `AHx`.
    AsciiHex,
    /// `ASCII85Decode` / `A85`.
    Ascii85,
    /// `RunLengthDecode` / `RL`.
    RunLength,
    /// An image-only filter, by canonical name.
    Image(&'static str),
}

/// The filter a `/Filter` name selects.
pub open spec fn filter_kind_of(n: Seq<u8>) -> Option<FilterKind> {
    if n == "FlateDecode".spec_bytes() || n == "Fl".spec_bytes() {
        Some(FilterKind::Flate)
    } else if n == "LZWDecode".spec_bytes() || n == "LZW".spec_bytes() {
        Some(FilterKind::Lzw)
    } else if n == "ASCIIHexDecode".spec_bytes() || n == "AHx".spec_bytes() {
        Some(FilterKind::AsciiHex)
    } else if n == "ASCII85Decode".spec_bytes() || n == "A85".spec_bytes() {
        Some(FilterKind::Ascii85)
    } else if n == "RunLengthDecode".spec_bytes() || n == "RL".spec_bytes() {
        Some(FilterKind::RunLength)
    } else if n == "DCTDecode".spec_bytes() || n == "DCT".spec_bytes() {
        Some(FilterKind::Image("DCTDecode"))
    } else if n == "JPXDecode".spec_bytes() {
        Some(FilterKind::Image("JPXDecode"))
    } else if n == "CCITTFaxDecode".spec_bytes() || n == "CCF".spec_bytes() {
        Some(FilterKind::Image("CCITTFaxDecode"))
    } else if n == "JBIG2Decode".spec_bytes() {
        Some(FilterKind::Image("JBIG2Decode"))
    } else {
        None
    }
}

/// The canonical name of a filter.
pub open spec fn kind_name(k: FilterKind) -> &'static str {
    match k {
        FilterKind::Flate => "FlateDecode",
        FilterKind::Lzw => "LZWDecode",
        FilterKind::AsciiHex => "ASCIIHexDecode",
        FilterKind::Ascii85 => "ASCII85Decode",
        FilterKind::RunLength => "RunLengthDecode",
        FilterKind::Image(n) => n,
    }
}

impl FilterKind {
    /// Maps a `/Filter` name (canonical or the inline-image abbreviation) to
    /// a filter, or `None` for an unrecognized name.
    pub fn from_name(name: &Name) -> (r: Option<FilterKind>)
        ensures
            r == filter_kind_of(name@),
    {
        if name.is("FlateDecode") || name.is("Fl") {
            Some(FilterKind::Flate)
        } else if name.is("LZWDecode") || name.is("LZW") {
            Some(FilterKind::Lzw)
        } else if name.is("ASCIIHexDecode") || name.is("AHx") {
            Some(FilterKind::AsciiHex)
        } else if name.is("ASCII85Decode") || name.is("A85") {
            Some(FilterKind::Ascii85)
        } else if name.is("RunLengthDecode") || name.is("RL") {
            Some(FilterKind::RunLength)
        } else if name.is("DCTDecode") || name.is("DCT") {
            Some(FilterKind::Image("DCTDecode"))
        } else if name.is("JPXDecode") {
            Some(FilterKind::Image("JPXDecode"))
        } else if name.is("CCITTFaxDecode") || name.is("CCF") {
            Some(FilterKind::Image("CCITTFaxDecode"))
        } else if name.is("JBIG2Decode") {
            Some(FilterKind::Image("JBIG2Decode"))
        } else {
            None
        }
    }

    /// The canonical name, for error values.
    pub fn name(self) -> (r: &'static str)
        ensures
            r == kind_name(self),
    {
        match self {
            FilterKind::Flate => "FlateDecode",
            FilterKind::Lzw => "LZWDecode",
            FilterKind::AsciiHex => "ASCIIHexDecode",
            FilterKind::Ascii85 => "ASCII85Decode",
            FilterKind::RunLength => "RunLengthDecode",
            FilterKind::Image(n) => n,
        }
    }
}

/// The bytes of the filter names.
proof fn lemma_filter_name_bytes()
    ensures
        "FlateDecode".spec_bytes() == seq![70u8, 108u8, 97u8, 116u8, 101u8, 68u8, 101u8, 99u8, 111u8, 100u8, 101u8],
        "Fl".spec_bytes() == seq![70u8, 108u8],
        "LZWDecode".spec_bytes() == seq![76u8, 90u8, 87u8, 68u8, 101u8, 99u8, 111u8, 100u8, 101u8],
        "LZW".spec_bytes() == seq![76u8, 90u8, 87u8],
        "ASCIIHexDecode".spec_bytes() == seq![65u8, 83u8, 67u8, 73u8, 73u8, 72u8, 101u8, 120u8, 68u8, 101u8, 99u8, 111u8, 100u8, 101u8],
        "AHx".spec_bytes() == seq![65u8, 72u8, 120u8],
        "ASCII85Decode".spec_bytes() == seq![65u8, 83u8, 67u8, 73u8, 73u8, 56u8, 53u8, 68u8, 101u8, 99u8, 111u8, 100u8, 101u8],
        "A85".spec_bytes() == seq![65u8, 56u8, 53u8],
        "RunLengthDecode".spec_bytes() == seq![82u8, 117u8, 110u8, 76u8, 101u8, 110u8, 103u8, 116u8, 104u8, 68u8, 101u8, 99u8, 111u8, 100u8, 101u8],
        "RL".spec_bytes() == seq![82u8, 76u8],
        "DCTDecode".spec_bytes() == seq![68u8, 67u8, 84u8, 68u8, 101u8, 99u8, 111u8, 100u8, 101u8],
        "DCT".spec_bytes() == seq![68u8, 67u8, 84u8],
        "JPXDecode".spec_bytes() == seq![74u8, 80u8, 88u8, 68u8, 101u8, 99u8, 111u8, 100u8, 101u8],
        "CCITTFaxDecode".spec_bytes() == seq![67u8, 67u8, 73u8, 84u8, 84u8, 70u8, 97u8, 120u8, 68u8, 101u8, 99u8, 111u8, 100u8, 101u8],
        "CCF".spec_bytes() == seq![67u8, 67u8, 70u8],
        "JBIG2Decode".spec_bytes() == seq![74u8, 66u8, 73u8, 71u8, 50u8, 68u8, 101u8, 99u8, 111u8, 100u8, 101u8],
{
    reveal_strlit("FlateDecode");
    crate::object::name::lemma_ascii_str("FlateDecode", seq![70u8, 108u8, 97u8, 116u8, 101u8, 68u8, 101u8, 99u8, 111u8, 100u8, 101u8]);
    reveal_strlit("Fl");
    crate::object::name::lemma_ascii_str("Fl", seq![70u8, 108u8]);
    reveal_strlit("LZWDecode");
    crate::object::name::lemma_ascii_str("LZWDecode", seq![76u8, 90u8, 87u8, 68u8, 101u8, 99u8, 111u8, 100u8, 101u8]);
    reveal_strlit("LZW");
    crate::object::name::lemma_ascii_str("LZW", seq![76u8, 90u8, 87u8]);
    reveal_strlit("ASCIIHexDecode");
    crate::object::name::lemma_ascii_str("ASCIIHexDecode", seq![65u8, 83u8, 67u8, 73u8, 73u8, 72u8, 101u8, 120u8, 68u8, 101u8, 99u8, 111u8, 100u8, 101u8]);
    reveal_strlit("AHx");
    crate::object::name::lemma_ascii_str("AHx", seq![65u8, 72u8, 120u8]);
    reveal_strlit("ASCII85Decode");
    crate::object::name::lemma_ascii_str("ASCII85Decode", seq![65u8, 83u8, 67u8, 73u8, 73u8, 56u8, 53u8, 68u8, 101u8, 99u8, 111u8, 100u8, 101u8]);
    reveal_strlit("A85");
    crate::object::name::lemma_ascii_str("A85", seq![65u8, 56u8, 53u8]);
    reveal_strlit("RunLengthDecode");
    crate::object::name::lemma_ascii_str("RunLengthDecode", seq![82u8, 117u8, 110u8, 76u8, 101u8, 110u8, 103u8, 116u8, 104u8, 68u8, 101u8, 99u8, 111u8, 100u8, 101u8]);
    reveal_strlit("RL");
    crate::object::name::lemma_ascii_str("RL", seq![82u8, 76u8]);
    reveal_strlit("DCTDecode");
    crate::object::name::lemma_ascii_str("DCTDecode", seq![68u8, 67u8, 84u8, 68u8, 101u8, 99u8, 111u8, 100u8, 101u8]);
    reveal_strlit("DCT");
    crate::object::name::lemma_ascii_str("DCT", seq![68u8, 67u8, 84u8]);
    reveal_strlit("JPXDecode");
    crate::object::name::lemma_ascii_str("JPXDecode", seq![74u8, 80u8, 88u8, 68u8, 101u8, 99u8, 111u8, 100u8, 101u8]);
    reveal_strlit("CCITTFaxDecode");
    crate::object::name::lemma_ascii_str("CCITTFaxDecode", seq![67u8, 67u8, 73u8, 84u8, 84u8, 70u8, 97u8, 120u8, 68u8, 101u8, 99u8, 111u8, 100u8, 101u8]);
    reveal_strlit("CCF");
    crate::object::name::lemma_ascii_str("CCF", seq![67u8, 67u8, 70u8]);
    reveal_strlit("JBIG2Decode");
    crate::object::name::lemma_ascii_str("JBIG2Decode", seq![74u8, 66u8, 73u8, 71u8, 50u8, 68u8, 101u8, 99u8, 111u8, 100u8, 101u8]);
}

/// The filters this library knows by name: the five it decodes and the
/// four image filters it stops at.
pub open spec fn standard_kind(k: FilterKind) -> bool {
    match k {
        FilterKind::Image(n) => n == "DCTDecode" || n == "JPXDecode" || n == "CCITTFaxDecode" || n == "JBIG2Decode",
        _ => true,
    }
}

/// Every known filter is found under its canonical name, and each
/// standard abbreviation (`Fl`, `LZW`, `AHx`, `A85`, `RL`, `DCT`, `CCF`)
/// selects the same filter as the full name it abbreviates.
pub proof fn law_filter_names(k: FilterKind)
    requires
        standard_kind(k),
    ensures
        filter_kind_of(kind_name(k).spec_bytes()) == Some(k),
        filter_kind_of("Fl".spec_bytes()) == filter_kind_of("FlateDecode".spec_bytes()),
        filter_kind_of("LZW".spec_bytes()) == filter_kind_of("LZWDecode".spec_bytes()),
        filter_kind_of("AHx".spec_bytes()) == filter_kind_of("ASCIIHexDecode".spec_bytes()),
        filter_kind_of("A85".spec_bytes()) == filter_kind_of("ASCII85Decode".spec_bytes()),
        filter_kind_of("RL".spec_bytes()) == filter_kind_of("RunLengthDecode".spec_bytes()),
        filter_kind_of("DCT".spec_bytes()) == filter_kind_of("DCTDecode".spec_bytes()),
        filter_kind_of("CCF".spec_bytes()) == filter_kind_of("CCITTFaxDecode".spec_bytes()),
{
    lemma_filter_name_bytes();
}

// --- reading the chain from the stream dictionary -----------------------------

/// The value under `k`, if any.
pub open spec fn entry(m: Map<Seq<u8>, PdfValue>, k: Seq<u8>) -> Option<PdfValue> {
    if m.dom().contains(k) {
        Some(m[k])
    } else {
        None
    }
}

/// The `/Filter` entry as an ordered list of names: absent or null is the
/// empty chain, a name a chain of one, an array of names the chain in order.
pub open spec fn filter_names_spec(m: Map<Seq<u8>, PdfValue>) -> Result<Seq<Seq<u8>>, Error> {
    match entry(m, "Filter".spec_bytes()) {
        None => Ok(Seq::empty()),
        Some(PdfValue::Null) => Ok(Seq::empty()),
        Some(PdfValue::Name(n)) => Ok(seq![n]),
        Some(PdfValue::Array(a)) => names_from_array(a),
        Some(_) => Err(Error::Filter { filter: "stream", msg: "/Filter is not a name or array" }),
    }
}

/// The names of an array that holds names only.
pub open spec fn names_from_array(a: Seq<PdfValue>) -> Result<Seq<Seq<u8>>, Error> {
    if forall|i: int| 0 <= i < a.len() ==> (#[trigger] a[i]) is Name {
        Ok(Seq::new(a.len(), |i: int| a[i]->Name_0))
    } else {
        Err(Error::Filter { filter: "stream", msg: "/Filter array entry not a name" })
    }
}

/// The `/DecodeParms` entry (or its inline abbreviation `/DP`) aligned to
/// `n` filters: a lone dictionary applies to the first filter, an array
/// pairs positionally (nulls, missing and surplus entries dropped or
/// padded), absent or null leaves every filter without parameters.
pub open spec fn decode_parms_spec(m: Map<Seq<u8>, PdfValue>, n: nat) -> Result<Seq<Option<Map<Seq<u8>, PdfValue>>>, Error> {
    match parms_entry(m) {
        None => Ok(Seq::new(n, |i: int| None)),
        Some(PdfValue::Null) => Ok(Seq::new(n, |i: int| None)),
        Some(PdfValue::Dictionary(d)) => Ok(Seq::new(n, |i: int| if i == 0 { Some(d) } else { None })),
        Some(PdfValue::Array(a)) => parms_from_array(a, n),
        Some(_) => Err(Error::Filter { filter: "stream", msg: "/DecodeParms not dict/array/null" }),
    }
}

/// The `/DecodeParms` value, falling back to `/DP`.
pub open spec fn parms_entry(m: Map<Seq<u8>, PdfValue>) -> Option<PdfValue> {
    match entry(m, "DecodeParms".spec_bytes()) {
        Some(v) => Some(v),
        None => entry(m, "DP".spec_bytes()),
    }
}

/// Positional parameters from an array of dictionaries and nulls, padded
/// or cut to `n`.
pub open spec fn parms_from_array(a: Seq<PdfValue>, n: nat) -> Result<Seq<Option<Map<Seq<u8>, PdfValue>>>, Error> {
    if forall|i: int| 0 <= i < a.len() ==> (#[trigger] a[i]) is Null || a[i] is Dictionary {
        Ok(Seq::new(n, |i: int| if i < a.len() && a[i] is Dictionary { Some(a[i]->Dictionary_0) } else { None }))
    } else {
        Err(Error::Filter { filter: "stream", msg: "/DecodeParms entry not dict/null" })
    }
}

/// One resolved filter step.
pub struct StepView {
    /// The filter.
    pub kind: FilterKind,
    /// Its parameters, if any.
    pub parms: Option<Map<Seq<u8>, PdfValue>>,
}

/// The chain of steps a stream dictionary names.
pub open spec fn resolve_steps_spec(m: Map<Seq<u8>, PdfValue>) -> Result<Seq<StepView>, Error> {
    match filter_names_spec(m) {
        Err(e) => Err(e),
        Ok(names) => match decode_parms_spec(m, names.len()) {
            Err(e) => Err(e),
            Ok(parms) => if exists|i: int| 0 <= i < names.len() && (#[trigger] filter_kind_of(names[i])) is None {
                Err(Error::Filter { filter: "stream", msg: "unknown /Filter name" })
            } else {
                Ok(Seq::new(names.len(), |i: int| StepView { kind: filter_kind_of(names[i])->Some_0, parms: parms[i] }))
            },
        },
    }
}

/// `/EarlyChange` of an LZW step: 1 (`true`) unless an integer 0 is given.
pub open spec fn early_change_spec(parms: Option<Map<Seq<u8>, PdfValue>>) -> bool {
    match parms {
        Some(m) => match entry(m, "EarlyChange".spec_bytes()) {
            Some(PdfValue::Integer(v)) => v != 0,
            _ => true,
        },
        None => true,
    }
}

/// `out` is a possible result of decoding `data` with filter `kind` under
/// ceiling `cap`: exactly the codec's result for the filters implemented
/// here, what is known of it for Flate and LZW.
pub open spec fn step_output(st: StepView, data: Seq<u8>, cap: nat, out: Result<Seq<u8>, Error>) -> bool {
    match st.kind {
        FilterKind::Flate => flate_outcome(data, cap, out),
        FilterKind::Lzw => lzw_outcome(data, early_change_spec(st.parms), cap, out),
        FilterKind::AsciiHex => out == hex_decode_spec(data, cap),
        FilterKind::Ascii85 => out == a85_decode_spec(data, cap),
        FilterKind::RunLength => out == rl_decode_spec(data, cap),
        FilterKind::Image(_) => false,
    }
}

/// The predictor stage after a step decoded to `dec`: none without a
/// predictor; a layout too large to address is a limit error; otherwise the
/// predictor is reversed.
pub open spec fn after_step(st: StepView, dec: Seq<u8>, cap: nat) -> Result<Seq<u8>, Error> {
    match from_parms_spec(st.parms, kind_name(st.kind)) {
        Err(e) => Err(e),
        Ok(None) => Ok(dec),
        Ok(Some(p)) => if p.predictor == 2 && !tiff_layout_ok(p, dec.len() as int) {
            Err(Error::LimitExceeded(LimitKind::DecompressedStream))
        } else {
            unpredict_spec(dec, p, cap)
        },
    }
}

/// `res` is a possible result of running steps `i..` of the chain on `data`.
pub open spec fn chain(steps: Seq<StepView>, i: int, data: Seq<u8>, cap: nat, res: Result<OutcomeView, Error>) -> bool
    decreases steps.len() - i,
{
    if i < 0 || i >= steps.len() {
        res == Ok::<OutcomeView, Error>(OutcomeView::Decoded(data))
    } else {
        match steps[i].kind {
            FilterKind::Image(n) => res == Ok::<OutcomeView, Error>(OutcomeView::ImageEncoded(n, data)),
            _ => exists|out: Result<Seq<u8>, Error>| #[trigger] step_output(steps[i], data, cap, out) && match out {
                Err(e) => res == Err::<OutcomeView, Error>(e),
                Ok(dec) => match after_step(steps[i], dec, cap) {
                    Err(e) => res == Err::<OutcomeView, Error>(e),
                    Ok(d2) => chain(steps, i + 1, d2, cap, res),
                },
            },
        }
    }
}

/// `res` is a possible result of decoding `raw` through the chain the
/// dictionary `m` names, under ceiling `cap`.
#[verifier::opaque]
pub open spec fn decode_stream_spec(m: Map<Seq<u8>, PdfValue>, raw: Seq<u8>, cap: nat, res: Result<OutcomeView, Error>) -> bool {
    match resolve_steps_spec(m) {
        Err(e) => res == Err::<OutcomeView, Error>(e),
        Ok(steps) => chain(steps, 0, raw, cap, res),
    }
}

// --- executable chain -------------------------------------------------------

/// The names of a list, by their bytes.
pub open spec fn names_view(v: Seq<Name>) -> Seq<Seq<u8>> {
    Seq::new(v.len(), |i: int| v[i]@)
}

/// Parameter dictionaries, by their maps.
pub open spec fn parms_view(v: Seq<Option<Dict>>) -> Seq<Option<Map<Seq<u8>, PdfValue>>> {
    Seq::new(v.len(), |i: int| match v[i] {
        Some(d) => Some(d.map()),
        None => None,
    })
}

/// Collects the `/Filter` entry as an ordered list of names.
fn filter_names(dict: &Dict) -> (r: Result<Vec<Name>, Error>)
    ensures
        match filter_names_spec(dict.map()) {
            Ok(ns) => r matches Ok(v) && names_view(v@) == ns,
            Err(e) => r == Err::<Vec<Name>, Error>(e),
        },
{
    let mut out: Vec<Name> = Vec::new();
    match dict.get(&Name::new("Filter")) {
        None => {
            proof {
                assert(names_view(out@) =~= Seq::<Seq<u8>>::empty());
            }
            Ok(out)
        },
        Some(Object::Null) => {
            proof {
                assert(names_view(out@) =~= Seq::<Seq<u8>>::empty());
            }
            Ok(out)
        },
        Some(Object::Name(n)) => {
            out.push(n.copy());
            proof {
                assert(names_view(out@) =~= seq![n@]);
            }
            Ok(out)
        },
        Some(Object::Array(a)) => {
            proof {
                Object::lemma_array_values_index(a@, a@.len() as int);
            }
            let ghost av = Object::array_values(a@, a@.len() as int);
            let mut i: usize = 0;
            while i < a.len()
                invariant
                    i <= a@.len(),
                    av == Object::array_values(a@, a@.len() as int),
                    entry(dict.map(), "Filter".spec_bytes()) == Some(PdfValue::Array(av)),
                    av.len() == a@.len(),
                    forall|j: int| 0 <= j < a@.len() ==> #[trigger] av[j] == a@[j].value(),
                    out@.len() == i,
                    forall|j: int| 0 <= j < i ==> (#[trigger] av[j]) is Name && out@[j]@ == av[j]->Name_0,
                decreases a@.len() - i,
            {
                match &a[i] {
                    Object::Name(n) => {
                        out.push(n.copy());
                    },
                    _ => {
                        proof {
                            assert(!(av[i as int] is Name));
                        }
                        return Err(Error::filter("stream", "/Filter array entry not a name"));
                    },
                }
                i = i + 1;
            }
            proof {
                assert(names_view(out@) =~= Seq::new(av.len(), |j: int| av[j]->Name_0));
            }
            Ok(out)
        },
        Some(_) => Err(Error::filter("stream", "/Filter is not a name or array")),
    }
}

/// `n` filters without parameters.
fn no_parms(n: usize) -> (r: Vec<Option<Dict>>)
    ensures
        r@.len() == n,
        forall|i: int| 0 <= i < n ==> (#[trigger] r@[i]) is None,
{
    let mut v: Vec<Option<Dict>> = Vec::new();
    let mut i: usize = 0;
    while i < n
        invariant
            i <= n,
            v@.len() == i,
            forall|j: int| 0 <= j < i ==> (#[trigger] v@[j]) is None,
        decreases n - i,
    {
        v.push(None);
        i = i + 1;
    }
    v
}

/// Collects `/DecodeParms` (or `/DP`) aligned to `n` filters.
fn decode_parms(dict: &Dict, n: usize) -> (r: Result<Vec<Option<Dict>>, Error>)
    ensures
        match decode_parms_spec(dict.map(), n as nat) {
            Ok(ps) => r matches Ok(v) && parms_view(v@) == ps,
            Err(e) => r == Err::<Vec<Option<Dict>>, Error>(e),
        },
{
    let dp = Name::new("DecodeParms");
    let parms = match dict.get(&dp) {
        Some(o) => Some(o),
        None => dict.get(&Name::new("DP")),
    };
    match parms {
        None => {
            let v = no_parms(n);
            proof {
                assert(parms_view(v@) =~= Seq::new(n as nat, |i: int| None::<Map<Seq<u8>, PdfValue>>));
            }
            Ok(v)
        },
        Some(Object::Null) => {
            let v = no_parms(n);
            proof {
                assert(parms_view(v@) =~= Seq::new(n as nat, |i: int| None::<Map<Seq<u8>, PdfValue>>));
            }
            Ok(v)
        },
        Some(Object::Dictionary(d)) => {
            let mut v = no_parms(n);
            if n >= 1 {
                v.set(0, Some(d.copy()));
            }
            proof {
                assert(parms_view(v@) =~= Seq::new(n as nat, |i: int| if i == 0 { Some(d.map()) } else { None }));
            }
            Ok(v)
        },
        Some(Object::Array(a)) => {
            proof {
                Object::lemma_array_values_index(a@, a@.len() as int);
            }
            let ghost av = Object::array_values(a@, a@.len() as int);
            assert(parms_entry(dict.map()) == Some(PdfValue::Array(av)));
            let mut v: Vec<Option<Dict>> = Vec::new();
            let mut i: usize = 0;
            while i < a.len()
                invariant
                    i <= a@.len(),
                    av == Object::array_values(a@, a@.len() as int),
                    decode_parms_spec(dict.map(), n as nat) == parms_from_array(av, n as nat),
                    av.len() == a@.len(),
                    forall|j: int| 0 <= j < a@.len() ==> #[trigger] av[j] == a@[j].value(),
                    v@.len() == i,
                    forall|j: int| 0 <= j < i ==> ((#[trigger] av[j]) is Null || av[j] is Dictionary)
                        && parms_view(v@)[j] == (if av[j] is Dictionary { Some(av[j]->Dictionary_0) } else { None }),
                decreases a@.len() - i,
            {
                match &a[i] {
                    Object::Null => {
                        v.push(None);
                    },
                    Object::Dictionary(d) => {
                        v.push(Some(d.copy()));
                    },
                    _ => {
                        proof {
                            assert(!(av[i as int] is Null || av[i as int] is Dictionary));
                            assert(!(forall|j: int| 0 <= j < av.len() ==> (#[trigger] av[j]) is Null || av[j] is Dictionary));
                        }
                        return Err(Error::filter("stream", "/DecodeParms entry not dict/null"));
                    },
                }
                i = i + 1;
            }
            v.truncate(n);
            let ghost kept = v@;
            while v.len() < n
                invariant
                    v@.len() <= n,
                    kept.len() <= v@.len(),
                    v@.subrange(0, kept.len() as int) == kept,
                    forall|j: int| kept.len() <= j < v@.len() ==> (#[trigger] v@[j]) is None,
                decreases n - v@.len(),
            {
                v.push(None);
            }
            proof {
                let target = Seq::new(n as nat, |j: int| if j < av.len() && av[j] is Dictionary { Some(av[j]->Dictionary_0) } else { None });
                assert forall|j: int| 0 <= j < n implies parms_view(v@)[j] == target[j] by {
                    if j < kept.len() {
                        assert(v@[j] == kept[j]);
                    }
                }
                assert(parms_view(v@) =~= target);
            }
            Ok(v)
        },
        Some(_) => Err(Error::filter("stream", "/DecodeParms not dict/array/null")),
    }
}

/// One filter step resolved from `/Filter` and `/DecodeParms`.
pub struct Step {
    /// The filter.
    pub kind: FilterKind,
    /// Its parameters, if any.
    pub parms: Option<Dict>,
}

/// A step, by its value.
pub open spec fn step_view(s: Step) -> StepView {
    StepView {
        kind: s.kind,
        parms: match s.parms {
            Some(d) => Some(d.map()),
            None => None,
        },
    }
}

/// Steps, by their values.
pub open spec fn steps_view(v: Seq<Step>) -> Seq<StepView> {
    Seq::new(v.len(), |i: int| step_view(v[i]))
}

/// Pairs each `/Filter` entry with its `/DecodeParms` entry, validating the
/// filter names.
pub fn resolve_steps(dict: &Dict) -> (r: Result<Vec<Step>, Error>)
    ensures
        match resolve_steps_spec(dict.map()) {
            Ok(ss) => r matches Ok(v) && steps_view(v@) == ss,
            Err(e) => r == Err::<Vec<Step>, Error>(e),
        },
{
    let names = match filter_names(dict) {
        Ok(v) => v,
        Err(e) => {
            return Err(e);
        },
    };
    let mut parms = match decode_parms(dict, names.len()) {
        Ok(v) => v,
        Err(e) => {
            return Err(e);
        },
    };
    let ghost nv = names_view(names@);
    let ghost pv = parms_view(parms@);
    proof {
        assert(pv.len() == parms@.len());
    }
    let mut steps: Vec<Step> = Vec::new();
    let mut i: usize = 0;
    while i < names.len()
        invariant
            i <= names@.len(),
            nv == names_view(names@),
            filter_names_spec(dict.map()) == Ok::<Seq<Seq<u8>>, Error>(nv),
            decode_parms_spec(dict.map(), nv.len()) == Ok::<Seq<Option<Map<Seq<u8>, PdfValue>>>, Error>(pv),
            pv.len() == nv.len(),
            parms@.len() == nv.len(),
            forall|j: int| i <= j < nv.len() ==> #[trigger] parms_view(parms@)[j] == pv[j],
            steps@.len() == i,
            forall|j: int| 0 <= j < i ==> filter_kind_of(#[trigger] nv[j]) is Some
                && step_view(steps@[j]) == (StepView { kind: filter_kind_of(nv[j])->Some_0, parms: pv[j] }),
        decreases names@.len() - i,
    {
        let k = match FilterKind::from_name(&names[i]) {
            Some(k) => k,
            None => {
                proof {
                    assert(filter_kind_of(nv[i as int]) is None);
                }
                return Err(Error::filter("stream", "unknown /Filter name"));
            },
        };
        let mut p: Option<Dict> = None;
        proof {
            assert(parms_view(parms@)[i as int] == pv[i as int]);
        }
        let ghost before = parms@;
        parms.set_and_swap(i, &mut p);
        steps.push(Step { kind: k, parms: p });
        proof {
            assert forall|j: int| i + 1 <= j < nv.len() implies #[trigger] parms_view(parms@)[j] == pv[j] by {
                assert(parms@[j] == before[j]);
                assert(parms_view(before)[j] == pv[j]);
            }
        }
        i = i + 1;
    }
    proof {
        let target = Seq::new(nv.len(), |k: int| StepView { kind: filter_kind_of(nv[k])->Some_0, parms: pv[k] });
        assert(steps_view(steps@) =~= target);
    }
    Ok(steps)
}

/// Reads the LZW `/EarlyChange` parameter (default 1) from a parameter
/// dictionary.
pub fn early_change(parms: Option<&Dict>) -> (r: bool)
    ensures
        r == early_change_spec(match parms {
            Some(d) => Some(d.map()),
            None => None,
        }),
{
    match parms {
        Some(d) => match d.get(&Name::new("EarlyChange")) {
            Some(Object::Integer(v)) => *v != 0,
            _ => true,
        },
        None => true,
    }
}

/// Decoding one step of the chain: the predictor stage after the codec.
fn apply_predictor(step: &Step, decoded: Vec<u8>, limits: &Limits) -> (r: Result<Vec<u8>, Error>)
    ensures
        bytes_result(r) == after_step(step_view(*step), decoded@, limits.max_decompressed_stream as nat),
{
    let parms: Option<&Dict> = match &step.parms {
        Some(d) => Some(d),
        None => None,
    };
    match PredictorParams::from_parms(parms, step.kind.name()) {
        Err(e) => Err(e),
        Ok(None) => Ok(decoded),
        Ok(Some(p)) => {
            if p.predictor == 2 && !layout_fits(&p, decoded.len()) {
                return Err(Error::LimitExceeded(LimitKind::DecompressedStream));
            }
            predictor::unpredict(decoded.as_slice(), &p, limits)
        },
    }
}

/// Reads `/Filter` (a name or an array of names) and the parallel
/// `/DecodeParms`, and applies the chain in order to `raw`, reversing any
/// predictor a step's parameters name. The result is one that
/// [`decode_stream_spec`] admits: exactly determined for chains of the
/// codecs implemented here, and for Flate and LZW as far as their outcome is
/// known. An image-only filter stops the chain with
/// [`DecodeOutcome::ImageEncoded`]; `limits.max_decompressed_stream` bounds
/// every step.
pub fn decode_stream(dict: &Dict, raw: &[u8], limits: &Limits) -> (r: Result<DecodeOutcome, Error>)
    ensures
        decode_stream_spec(dict.map(), raw@, limits.max_decompressed_stream as nat, outcome_result(r)),
{
    let ghost cap = limits.max_decompressed_stream as nat;
    proof {
        reveal(decode_stream_spec);
    }
    let steps = match resolve_steps(dict) {
        Ok(v) => v,
        Err(e) => {
            return Err(e);
        },
    };
    let ghost sv = steps_view(steps@);
    let mut data = vstd::slice::slice_to_vec(raw);
    let mut i: usize = 0;
    while i < steps.len()
        invariant
            i <= steps@.len(),
            sv == steps_view(steps@),
            sv.len() == steps@.len(),
            cap == limits.max_decompressed_stream as nat,
            resolve_steps_spec(dict.map()) == Ok::<Seq<StepView>, Error>(sv),
            forall|res: Result<OutcomeView, Error>| chain(sv, i as int, data@, cap, res)
                ==> #[trigger] decode_stream_spec(dict.map(), raw@, cap, res),
        decreases steps@.len() - i,
    {
        let step = &steps[i];
        let ghost st = sv[i as int];
        assert(st == step_view(*step));
        let dec_r: Result<Vec<u8>, Error> = match step.kind {
            FilterKind::Image(name) => {
                let ghost cur = data@;
                let out = DecodeOutcome::ImageEncoded { filter: name, bytes: data };
                proof {
                    assert(chain(sv, i as int, cur, cap, outcome_result(Ok::<DecodeOutcome, Error>(out))));
                }
                return Ok(out);
            },
            FilterKind::Flate => flate::decode(data.as_slice(), limits),
            FilterKind::Lzw => {
                let early = match &step.parms {
                    Some(d) => early_change(Some(d)),
                    None => early_change(None),
                };
                lzw::decode(data.as_slice(), early, limits)
            },
            FilterKind::AsciiHex => ascii_hex::decode(data.as_slice(), limits),
            FilterKind::Ascii85 => ascii85::decode(data.as_slice(), limits),
            FilterKind::RunLength => run_length::decode(data.as_slice(), limits),
        };
        let ghost out = bytes_result(dec_r);
        assert(step_output(st, data@, cap, out)) by {
            match dec_r {
                Ok(v) => {},
                Err(e) => {},
            }
        }
        let decoded = match dec_r {
            Ok(d) => d,
            Err(e) => {
                proof {
                    assert(chain(sv, i as int, data@, cap, Err::<OutcomeView, Error>(e)));
                }
                return Err(e);
            },
        };
        let next = match apply_predictor(step, decoded, limits) {
            Ok(v) => v,
            Err(e) => {
                proof {
                    assert(chain(sv, i as int, data@, cap, Err::<OutcomeView, Error>(e)));
                }
                return Err(e);
            },
        };
        proof {
            assert forall|res: Result<OutcomeView, Error>| chain(sv, i + 1, next@, cap, res)
                implies #[trigger] decode_stream_spec(dict.map(), raw@, cap, res) by {
                assert(chain(sv, i as int, data@, cap, res));
            }
        }
        data = next;
        i = i + 1;
    }
    let ghost final_data = data@;
    let out = DecodeOutcome::Decoded(data);
    proof {
        assert(chain(sv, i as int, final_data, cap, outcome_result(Ok::<DecodeOutcome, Error>(out))));
    }
    Ok(out)
}

} // verus!
