//! An object store: the indirect objects of a document as read with the
//! pending-edit overlay on top, and reference resolution over both.
//!
//! Reads consult the overlay first (a deleted object reads as `null`), then
//! the objects as read. Resolution follows reference chains with cycle
//! detection and a depth bound; in lenient mode a dangling reference
//! resolves to `null` instead of failing.

use std::collections::{BTreeMap, BTreeSet};

use vstd::prelude::*;
use vstd::string::StringSliceAdditionalSpecFns;

use crate::changeset::{arc_clone, max_u32, sat_succ, Change, ChangeSet, ChangeSetView};
use crate::error::{Error, LimitKind};
use crate::gc::sorted_keys;
use crate::inventory::lists_entries;
use crate::text::{string_from_utf8_lossy, utf8_lossy};
use crate::interner::NameInterner;
use crate::limits::Limits;
use crate::ocg::LayerView;
use crate::filters::entry;
use crate::encrypt::dict_of;
use crate::filters::{decode_stream_spec, outcome_result, DecodeOutcome, OutcomeView};
use crate::object::name::bytes_equal;
use crate::object::stream::{bytes_as_slice, bytes_clone, bytes_contents};
use crate::object::parse::{p_object, Parser};
use crate::object::{Dict, Name, ObjRef, Object, PayloadView, PdfValue, StreamObj};

verus! {

/// The abstract state of an object store.
pub struct StoreView {
    /// The objects as read, by number.
    pub base: Map<u32, Object>,
    /// The pending edits.
    pub changes: ChangeSetView,
    /// The trailer as read.
    pub trailer: Map<Seq<u8>, PdfValue>,
    /// Trailer keys set by edits, which win over the trailer as read.
    pub overrides: Map<Seq<u8>, PdfValue>,
    /// The declared table size (the trailer's `/Size`).
    pub size: u32,
    /// The reference-chain depth bound.
    pub max_depth: u32,
    /// The decoded-size ceiling for one stream.
    pub max_stream: usize,
    /// Whether a dangling reference resolves to `null`.
    pub lenient: bool,
    /// The selected layer configuration: `None` for the default, `Some(n)`
    /// for the `n`-th alternate.
    pub layer_config: Option<usize>,
    /// Layer-panel overrides of group visibility.
    pub layer_overrides: Map<u32, bool>,
    /// The document-wide name pool, in order of first sight.
    pub names: Seq<Seq<u8>>,
    /// The resource limits the store was made with.
    pub limits: Limits,
}

impl StoreView {
    /// Everything but the pending edits and trailer overrides is as in `o`.
    pub open spec fn same_frame(self, o: StoreView) -> bool {
        &&& self.base == o.base
        &&& self.trailer == o.trailer
        &&& self.size == o.size
        &&& self.max_depth == o.max_depth
        &&& self.max_stream == o.max_stream
        &&& self.lenient == o.lenient
        &&& self.layer_config == o.layer_config
        &&& self.layer_overrides == o.layer_overrides
        &&& self.names == o.names
        &&& self.limits == o.limits
    }
}

/// The declared table size: the trailer's `/Size` when it is an integer
/// that fits `u32`, else 0.
pub open spec fn trailer_size(t: Map<Seq<u8>, PdfValue>) -> u32 {
    match entry(t, "Size".spec_bytes()) {
        Some(PdfValue::Integer(i)) => if 0 <= i <= u32::MAX { i as u32 } else { 0 },
        _ => 0,
    }
}

/// What reading object `num` gives: the overlay's value (`null` for a
/// deletion), else the object as read, else a missing-object error.
pub open spec fn lookup(v: StoreView, num: u32) -> Result<PdfValue, Error> {
    if v.changes.edits.contains_key(num) {
        match v.changes.edits[num] {
            Some(o) => Ok(o.value()),
            None => Ok(PdfValue::Null),
        }
    } else if v.base.contains_key(num) {
        Ok(v.base[num].value())
    } else {
        Err(Error::MissingObject { num, gen: 0 })
    }
}

/// Following references from `cur` after `depth` steps, having visited the
/// object numbers in `seen`.
pub open spec fn resolve_from(v: StoreView, cur: ObjRef, depth: nat, seen: Set<u32>) -> Result<PdfValue, Error>
    decreases v.max_depth - depth,
{
    let d = depth + 1;
    if d > v.max_depth {
        Err(Error::LimitExceeded(LimitKind::RecursionDepth))
    } else if seen.contains(cur.num) {
        Err(Error::ReferenceCycle { num: cur.num, gen: cur.gen })
    } else {
        match lookup(v, cur.num) {
            Err(e) => if v.lenient { Ok(PdfValue::Null) } else { Err(e) },
            Ok(PdfValue::Reference(next)) => resolve_from(v, next, d, seen.insert(cur.num)),
            Ok(val) => Ok(val),
        }
    }
}

/// What resolving `r` gives: the first non-reference value along its chain.
pub open spec fn resolve_spec(v: StoreView, r: ObjRef) -> Result<PdfValue, Error> {
    resolve_from(v, r, 0, Set::empty())
}

/// Whether `r` reads as a dictionary (or stream) whose entry `key` is the
/// name `n`.
pub open spec fn has_name_entry(r: Result<PdfValue, Error>, key: Seq<u8>, n: Seq<u8>) -> bool {
    match r {
        Ok(v) => dict_of(v) matches Some(m) && entry(m, key) == Some(PdfValue::Name(n)),
        Err(_) => false,
    }
}

/// Whether `r` is what taking the decoded bytes of the outcome `res` gives.
pub open spec fn decoded_body(res: Result<OutcomeView, Error>, r: Result<Vec<u8>, Error>) -> bool {
    match res {
        Ok(OutcomeView::Decoded(b)) => r matches Ok(v) && v@ == b,
        Ok(OutcomeView::ImageEncoded(f, _)) => r == Err::<Vec<u8>, Error>(Error::Unsupported(f)),
        Err(e) => r == Err::<Vec<u8>, Error>(e),
    }
}

/// What reading key `key` of a dictionary `m` gives, a reference
/// resolved: `None` when the key is absent.
pub open spec fn dict_key_spec(v: StoreView, m: Map<Seq<u8>, PdfValue>, key: Seq<u8>) -> Result<Option<PdfValue>, Error> {
    match entry(m, key) {
        None => Ok(None),
        Some(PdfValue::Reference(x)) => match resolve_spec(v, x) {
            Ok(val) => Ok(Some(val)),
            Err(e) => Err(e),
        },
        Some(val) => Ok(Some(val)),
    }
}

/// The effective trailer reference for `key`: an override wins over the
/// trailer as read; `None` when the key is absent, removed, or not a
/// reference.
pub open spec fn effective_ref(v: StoreView, key: Seq<u8>) -> Option<ObjRef> {
    match entry(v.overrides, key) {
        Some(PdfValue::Reference(x)) => Some(x),
        Some(_) => None,
        None => match entry(v.trailer, key) {
            Some(PdfValue::Reference(x)) => Some(x),
            _ => None,
        },
    }
}

/// Whether `ks` lists, in increasing byte order, the keys of `m` as text:
/// there is a sorted listing of the entries of `m` whose keys, decoded as
/// UTF-8 with invalid bytes replaced, are `ks`.
pub open spec fn dict_keys_listed(ks: Seq<String>, m: Map<Seq<u8>, PdfValue>) -> bool {
    exists|es: Seq<(Name, Object)>| #[trigger] lists_entries(es, m)
        && ks.len() == es.len()
        && forall|k: int| 0 <= k < ks.len() ==> #[trigger] ks[k]@ == utf8_lossy(es[k].0@)
}

/// Whether an exec result carries the optional value (or error) of a spec
/// result.
pub open spec fn same_opt_outcome(r: Result<Option<Object>, Error>, s: Result<Option<PdfValue>, Error>) -> bool {
    match (r, s) {
        (Ok(None), Ok(None)) => true,
        (Ok(Some(o)), Ok(Some(v))) => o.value() == v,
        (Err(e), Err(f)) => e == f,
        _ => false,
    }
}

/// Whether an exec result carries the value (or error) of a spec result.
pub open spec fn same_outcome(r: Result<Object, Error>, s: Result<PdfValue, Error>) -> bool {
    match (r, s) {
        (Ok(o), Ok(v)) => o.value() == v,
        (Err(e), Err(f)) => e == f,
        _ => false,
    }
}

/// The objects as read plus the pending-edit overlay.
pub struct ObjectStore {
    base: BTreeMap<u32, Object>,
    changes: ChangeSet,
    trailer: Dict,
    overrides: Dict,
    limits: Limits,
    lenient: bool,
    layer_view: LayerView,
    interner: NameInterner,
}

impl View for ObjectStore {
    type V = StoreView;

    closed spec fn view(&self) -> StoreView {
        StoreView {
            base: self.base@,
            changes: self.changes@,
            trailer: self.trailer.map(),
            overrides: self.overrides.map(),
            size: trailer_size(self.trailer.map()),
            max_depth: self.limits.max_recursion_depth,
            max_stream: self.limits.max_decompressed_stream,
            lenient: self.lenient,
            layer_config: self.layer_view.config,
            layer_overrides: self.layer_view.overrides@,
            names: self.interner.seq(),
            limits: self.limits,
        }
    }
}

impl ObjectStore {
    /// A store over the objects `base` and trailer `trailer`,
    /// resolving under `limits`; `lenient` makes dangling references resolve
    /// to `null`.
    pub fn new(base: BTreeMap<u32, Object>, trailer: Dict, limits: &Limits, lenient: bool) -> (r: ObjectStore)
        ensures
            r@.base == base@,
            r@.changes.edits == Map::<u32, Option<Object>>::empty(),
            !r@.changes.seeded,
            r@.changes.next_free == 0,
            r@.trailer == trailer.map(),
            r@.overrides == Map::<Seq<u8>, PdfValue>::empty(),
            r@.max_depth == limits.max_recursion_depth,
            r@.max_stream == limits.max_decompressed_stream,
            r@.lenient == lenient,
            r@.layer_config is None,
            r@.layer_overrides == Map::<u32, bool>::empty(),
            r@.names == Seq::<Seq<u8>>::empty(),
            r@.limits == *limits,
    {
        ObjectStore {
            base,
            changes: ChangeSet::new(),
            trailer,
            overrides: Dict::new(),
            limits: *limits,
            lenient,
            layer_view: LayerView { config: None, overrides: BTreeMap::new() },
            interner: NameInterner::new(),
        }
    }

    /// The canonical name for `name`'s bytes from the document-wide pool,
    /// which takes the bytes in on first sight; nothing else changes.
    pub fn intern_name(&mut self, name: &Name) -> (r: Name)
        ensures
            r@ == name@,
            final(self)@.names == (if old(self)@.names.contains(name@) { old(self)@.names } else { old(self)@.names.push(name@) }),
            final(self)@ == (StoreView { names: final(self)@.names, ..old(self)@ }),
    {
        self.interner.intern(name)
    }

    /// The in-memory layer view: the selected configuration and the
    /// layer-panel overrides.
    pub fn layer_view(&self) -> (r: LayerView)
        ensures
            r.config == self@.layer_config,
            r.overrides@ == self@.layer_overrides,
    {
        LayerView { config: self.layer_view.config, overrides: self.layer_view.overrides.clone() }
    }

    /// Replaces the in-memory layer view; nothing is written to the objects.
    pub fn set_layer_view(&mut self, view: LayerView)
        ensures
            final(self)@ == (StoreView { layer_config: view.config, layer_overrides: view.overrides@, ..old(self)@ }),
    {
        self.layer_view = view;
    }

    /// The reference-chain depth bound.
    pub fn max_depth(&self) -> (r: u32)
        ensures
            r == self@.max_depth,
    {
        self.limits.max_recursion_depth
    }

    /// The limits the store resolves and decodes under.
    pub fn limits(&self) -> (r: &Limits)
        ensures
            *r == self@.limits,
            r.max_recursion_depth == self@.max_depth,
            r.max_decompressed_stream == self@.max_stream,
    {
        &self.limits
    }

    /// The trailer dictionary as read.
    pub fn trailer(&self) -> (r: &Dict)
        ensures
            r.map() == self@.trailer,
    {
        &self.trailer
    }

    /// The declared table size: the trailer's `/Size` when it is an integer
    /// that fits `u32`, else 0.
    fn declared_size(&self) -> (r: u32)
        ensures
            r == self@.size,
    {
        match self.trailer.get(&Name::new("Size")) {
            Some(Object::Integer(i)) => if 0 <= *i && *i <= 0xffff_ffff { *i as u32 } else { 0 },
            _ => 0,
        }
    }

    /// Whether any edit is pending.
    pub fn is_dirty(&self) -> (r: bool)
        ensures
            r == !self@.changes.edits.is_empty(),
    {
        self.changes.is_dirty()
    }

    /// The table length: one past the largest object number that the
    /// table as read or the overlay knows of, or the declared size if that
    /// is larger.
    pub fn xref_length(&self) -> (r: u32)
        ensures
            r >= self@.size,
            r >= self@.changes.next_free,
            forall|k: u32| self@.base.contains_key(k) ==> r >= sat_succ(k),
            forall|k: u32| self@.changes.edits.contains_key(k) ==> r >= sat_succ(k),
            r == self@.size || r == self@.changes.next_free
                || (exists|k: u32| self@.base.contains_key(k) && r == sat_succ(k))
                || (exists|k: u32| self@.changes.edits.contains_key(k) && r == sat_succ(k)),
    {
        let keys = sorted_keys(&self.base);
        let by_max: u32 = if keys.len() == 0 { 0 } else { keys[keys.len() - 1].saturating_add(1) };
        let by_changes = self.changes.high_water();
        let mut r = self.declared_size();
        if r < by_max {
            r = by_max;
        }
        if r < by_changes {
            r = by_changes;
        }
        proof {
            if keys@.len() > 0 {
                let last = keys@[keys@.len() - 1];
                assert(keys@.to_set().contains(last));
                assert forall|k: u32| self@.base.contains_key(k) implies r >= sat_succ(k) by {
                    assert(keys@.to_set().contains(k));
                    let i = choose|i: int| 0 <= i < keys@.len() && keys@[i] == k;
                    assert(i == keys@.len() - 1 || keys@[i] < last);
                }
                assert(self@.base.contains_key(last));
            } else {
                assert forall|k: u32| self@.base.contains_key(k) implies r >= sat_succ(k) by {
                    assert(keys@.to_set().contains(k));
                }
            }
        }
        r
    }

    /// The catalog reference from the trailer `/Root`, if present.
    pub fn root(&self) -> (r: Option<ObjRef>)
        ensures
            r == (match entry(self@.trailer, "Root".spec_bytes()) {
                Some(PdfValue::Reference(x)) => Some(x),
                _ => None,
            }),
    {
        match self.trailer.get(&Name::new("Root")) {
            Some(Object::Reference(x)) => Some(*x),
            _ => None,
        }
    }

    /// Overrides trailer key `key` for the next save; `null` removes the key.
    pub fn set_trailer_key(&mut self, key: &str, value: Object)
        ensures
            final(self)@.same_frame(old(self)@),
            final(self)@.changes == old(self)@.changes,
            final(self)@.overrides == old(self)@.overrides.insert(key.spec_bytes(), value.value()),
    {
        self.overrides.insert(Name::new(key), value);
    }

    /// The effective trailer reference for `key`: an override wins over the
    /// trailer as read; `None` when the key is absent, removed, or not a
    /// reference.
    pub fn effective_trailer_ref(&self, key: &str) -> (r: Option<ObjRef>)
        ensures
            r == effective_ref(self@, key.spec_bytes()),
    {
        let name = Name::new(key);
        match self.overrides.get(&name) {
            Some(Object::Reference(x)) => {
                return Some(*x);
            },
            Some(_) => {
                return None;
            },
            None => {},
        }
        match self.trailer.get(&name) {
            Some(Object::Reference(x)) => Some(*x),
            _ => None,
        }
    }

    /// Whether object `num` is a stream; a missing object is not.
    pub fn xref_is_stream(&self, num: u32) -> (r: Result<bool, Error>)
        ensures
            r == Ok::<bool, Error>(lookup(self@, num) matches Ok(PdfValue::Stream(_, _))),
    {
        match self.get_object(num, 0) {
            Ok(obj) => Ok(obj.as_stream().is_some()),
            Err(_) => Ok(false),
        }
    }

    /// Whether object `num` reads as a dictionary (or stream) whose `/Type`
    /// is the name `ty`.
    fn xref_type_is(&self, num: u32, ty: &str) -> (r: bool)
        ensures
            r == has_name_entry(lookup(self@, num), "Type".spec_bytes(), ty.spec_bytes()),
    {
        let obj = match self.get_object(num, 0) {
            Ok(o) => o,
            Err(_) => {
                return false;
            },
        };
        match obj.as_dict() {
            Some(d) => match d.get(&Name::new("Type")) {
                Some(Object::Name(n)) => bytes_equal(n.as_bytes(), ty.as_bytes()),
                _ => false,
            },
            None => false,
        }
    }

    /// Whether object `num` is a font dictionary (`/Type /Font`).
    pub fn xref_is_font(&self, num: u32) -> (r: Result<bool, Error>)
        ensures
            r == Ok::<bool, Error>(has_name_entry(lookup(self@, num), "Type".spec_bytes(), "Font".spec_bytes())),
    {
        Ok(self.xref_type_is(num, "Font"))
    }

    /// Whether object `num` is an image: a stream with `/Subtype /Image`.
    pub fn xref_is_image(&self, num: u32) -> (r: Result<bool, Error>)
        ensures
            r == Ok::<bool, Error>(lookup(self@, num) matches Ok(PdfValue::Stream(m, _))
                && entry(m, "Subtype".spec_bytes()) == Some(PdfValue::Name("Image".spec_bytes()))),
    {
        let obj = match self.get_object(num, 0) {
            Ok(o) => o,
            Err(_) => {
                return Ok(false);
            },
        };
        match obj.as_stream() {
            Some(st) => match st.dict.get(&Name::new("Subtype")) {
                Some(Object::Name(n)) => Ok(bytes_equal(n.as_bytes(), "Image".as_bytes())),
                _ => Ok(false),
            },
            None => Ok(false),
        }
    }

    /// Whether object `num` is a form XObject: a dictionary or stream whose
    /// `/Subtype` is `/Form`.
    pub fn xref_is_xobject(&self, num: u32) -> (r: Result<bool, Error>)
        ensures
            r == Ok::<bool, Error>(has_name_entry(lookup(self@, num), "Subtype".spec_bytes(), "Form".spec_bytes())),
    {
        let obj = match self.get_object(num, 0) {
            Ok(o) => o,
            Err(_) => {
                return Ok(false);
            },
        };
        match obj.as_dict() {
            Some(d) => match d.get(&Name::new("Subtype")) {
                Some(Object::Name(n)) => Ok(bytes_equal(n.as_bytes(), "Form".as_bytes())),
                _ => Ok(false),
            },
            None => Ok(false),
        }
    }

    /// The dictionary keys of object `num` (without the leading `/`), in
    /// increasing byte order; none for a missing object or one that is
    /// neither a dictionary nor a stream.
    pub fn xref_get_keys(&self, num: u32) -> (r: Result<Vec<String>, Error>)
        ensures
            r is Ok,
            r matches Ok(ks) ==> match lookup(self@, num) {
                Ok(PdfValue::Dictionary(m)) => dict_keys_listed(ks@, m),
                Ok(PdfValue::Stream(m, _)) => dict_keys_listed(ks@, m),
                _ => ks@.len() == 0,
            },
    {
        let mut out: Vec<String> = Vec::new();
        let obj = match self.get_object(num, 0) {
            Ok(o) => o,
            Err(_) => {
                return Ok(out);
            },
        };
        let d = match obj.as_dict() {
            Some(d) => d,
            None => {
                return Ok(out);
            },
        };
        let es = d.entries();
        let mut i: usize = 0;
        while i < es.len()
            invariant
                i <= es@.len(),
                out@.len() == i,
                forall|k: int| 0 <= k < i ==> #[trigger] out@[k]@ == utf8_lossy(es@[k].0@),
            decreases es@.len() - i,
        {
            out.push(string_from_utf8_lossy(es[i].0.as_bytes()));
            i = i + 1;
        }
        proof {
            assert(lists_entries(es@, d.map()));
        }
        Ok(out)
    }

    /// The raw (still filter-encoded) body of `stream`.
    pub fn stream_raw_bytes(&self, stream: &StreamObj) -> (r: Result<bytes::Bytes, Error>)
        ensures
            r matches Ok(b) && bytes_contents(b) == stream.data.payload().bytes,
    {
        Ok(bytes_clone(stream.raw_bytes()))
    }

    /// Decodes `stream` through its `/Filter` chain under the store's
    /// limits; a body held decoded is returned as it is.
    pub fn decode_stream(&self, stream: &StreamObj) -> (r: Result<DecodeOutcome, Error>)
        ensures
            stream.data.payload().decoded ==> (r matches Ok(o) && o@ == OutcomeView::Decoded(stream.data.payload().bytes)),
            !stream.data.payload().decoded ==> decode_stream_spec(
                stream.dict.map(),
                stream.data.payload().bytes,
                self@.max_stream as nat,
                outcome_result(r),
            ),
    {
        stream.decode(&self.limits)
    }

    /// The decoded body of stream object `num`; [`Error::Unsupported`] when
    /// it is not a stream or its chain stops at an image filter.
    pub fn xref_stream(&self, num: u32) -> (r: Result<Vec<u8>, Error>)
        ensures
            match lookup(self@, num) {
                Err(e) => r == Err::<Vec<u8>, Error>(e),
                Ok(PdfValue::Stream(m, payload)) => if payload.decoded {
                    r matches Ok(v) && v@ == payload.bytes
                } else {
                    exists|res: Result<OutcomeView, Error>| decode_stream_spec(m, payload.bytes, self@.max_stream as nat, res)
                        && #[trigger] decoded_body(res, r)
                },
                Ok(_) => r == Err::<Vec<u8>, Error>(Error::Unsupported("object is not a stream")),
            },
    {
        let obj = match self.get_object(num, 0) {
            Ok(o) => o,
            Err(e) => {
                return Err(e);
            },
        };
        let stream = match obj.as_stream() {
            Some(st) => st,
            None => {
                return Err(Error::Unsupported("object is not a stream"));
            },
        };
        let out = self.decode_stream(stream);
        let ghost res = outcome_result(out);
        let r = match out {
            Ok(o) => o.into_decoded(),
            Err(e) => Err(e),
        };
        proof {
            assert(obj.value() == PdfValue::Stream(stream.dict.map(), stream.data.payload()));
            assert(decoded_body(res, r));
        }
        r
    }

    /// The raw (still filter-encoded) body of stream object `num`;
    /// [`Error::Unsupported`] when it is not a stream.
    pub fn xref_stream_raw(&self, num: u32) -> (r: Result<Vec<u8>, Error>)
        ensures
            match lookup(self@, num) {
                Err(e) => r == Err::<Vec<u8>, Error>(e),
                Ok(PdfValue::Stream(_, payload)) => r matches Ok(v) && v@ == payload.bytes,
                Ok(_) => r == Err::<Vec<u8>, Error>(Error::Unsupported("object is not a stream")),
            },
    {
        let obj = match self.get_object(num, 0) {
            Ok(o) => o,
            Err(e) => {
                return Err(e);
            },
        };
        match obj.as_stream() {
            Some(st) => Ok(vstd::slice::slice_to_vec(bytes_as_slice(st.raw_bytes()))),
            None => Err(Error::Unsupported("object is not a stream")),
        }
    }

    /// Sets key `key` of dictionary (or stream dictionary) object `num` to
    /// the object written in `value` (PDF syntax); `null` removes the key.
    /// [`Error::Unsupported`] when `value` does not parse or the object is
    /// neither a dictionary nor a stream; a stream keeps its body.
    pub fn xref_set_key(&mut self, num: u32, key: &str, value: &str) -> (r: Result<(), Error>)
        ensures
            final(self)@.same_frame(old(self)@),
            final(self)@.overrides == old(self)@.overrides,
            match p_object(value.spec_bytes(), 0, None) {
                Err(_) => r == Err::<(), Error>(Error::Unsupported("xref_set_key: value is not a parseable PDF object"))
                    && final(self)@ == old(self)@,
                Ok(pd) => {
                    let set = |m: Map<Seq<u8>, PdfValue>| if pd.value is Null { m.remove(key.spec_bytes()) } else { m.insert(key.spec_bytes(), pd.value) };
                    match lookup(old(self)@, num) {
                        Err(e) => r == Err::<(), Error>(e) && final(self)@ == old(self)@,
                        Ok(PdfValue::Dictionary(m)) => {
                            &&& r is Ok
                            &&& final(self)@.changes.edits == old(self)@.changes.edits.insert(num, final(self)@.changes.edits[num])
                            &&& final(self)@.changes.edits[num] matches Some(o)
                            &&& o.value() == PdfValue::Dictionary(set(m))
                        },
                        Ok(PdfValue::Stream(m, payload)) => {
                            &&& r is Ok
                            &&& final(self)@.changes.edits == old(self)@.changes.edits.insert(num, final(self)@.changes.edits[num])
                            &&& final(self)@.changes.edits[num] matches Some(o)
                            &&& o.value() == PdfValue::Stream(set(m), payload)
                        },
                        Ok(_) => r == Err::<(), Error>(Error::Unsupported("xref_set_key: object is not a dictionary or stream"))
                            && final(self)@ == old(self)@,
                    }
                },
            },
    {
        let mut parser = Parser::new(value.as_bytes());
        let parsed = match parser.parse_object() {
            Ok(o) => o,
            Err(_) => {
                return Err(Error::Unsupported("xref_set_key: value is not a parseable PDF object"));
            },
        };
        let obj = match self.get_object(num, 0) {
            Ok(o) => o,
            Err(e) => {
                return Err(e);
            },
        };
        let name = Name::new(key);
        let remove = parsed.is_null();
        match obj {
            Object::Dictionary(d) => {
                let mut d = d;
                if remove {
                    d.remove(&name);
                } else {
                    d.insert(name, parsed);
                }
                self.update_object(ObjRef::new(num, 0), Object::Dictionary(d));
                Ok(())
            },
            Object::Stream(st) => {
                let mut st = st;
                if remove {
                    st.dict.remove(&name);
                } else {
                    st.dict.insert(name, parsed);
                }
                self.update_object(ObjRef::new(num, 0), Object::Stream(st));
                Ok(())
            },
            _ => Err(Error::Unsupported("xref_set_key: object is not a dictionary or stream")),
        }
    }

    /// Copies object `source` into object `target`: a stream is copied with
    /// its raw body held as encoded bytes and `/Length` set to the body's
    /// length; any other value as it is.
    pub fn xref_copy(&mut self, source: u32, target: u32) -> (r: Result<(), Error>)
        ensures
            final(self)@.same_frame(old(self)@),
            final(self)@.overrides == old(self)@.overrides,
            match lookup(old(self)@, source) {
                Err(e) => r == Err::<(), Error>(e) && final(self)@ == old(self)@,
                Ok(PdfValue::Stream(m, payload)) => {
                    &&& r is Ok
                    &&& final(self)@.changes.edits == old(self)@.changes.edits.insert(target, final(self)@.changes.edits[target])
                    &&& final(self)@.changes.edits[target] matches Some(Object::Stream(st))
                    &&& st.dict.map() == m.insert("Length".spec_bytes(), PdfValue::Integer(payload.bytes.len() as i64))
                    &&& st.data.payload() == (PayloadView { decoded: false, bytes: payload.bytes })
                },
                Ok(v) => {
                    &&& r is Ok
                    &&& final(self)@.changes.edits == old(self)@.changes.edits.insert(target, final(self)@.changes.edits[target])
                    &&& final(self)@.changes.edits[target] matches Some(o)
                    &&& o.value() == v
                },
            },
    {
        let obj = match self.get_object(source, 0) {
            Ok(o) => o,
            Err(e) => {
                return Err(e);
            },
        };
        match obj {
            Object::Stream(st) => {
                let bytes = vstd::slice::slice_to_vec(bytes_as_slice(st.raw_bytes()));
                let mut dict = st.dict.copy();
                let n = bytes.len();
                dict.insert(Name::new("Length"), Object::Integer(#[verifier::truncate] (n as i64)));
                self.update_stream(ObjRef::new(target, 0), dict, bytes, true);
                Ok(())
            },
            other => {
                self.update_object(ObjRef::new(target, 0), other);
                Ok(())
            },
        }
    }

    /// Reads object `num`: the overlay first (a deleted object reads as
    /// `null`), then the objects as read.
    pub fn get_object(&self, num: u32, gen: u16) -> (r: Result<Object, Error>)
        ensures
            same_outcome(r, lookup(self@, num)),
    {
        match self.changes.get(num) {
            Some(Change::Value(o)) => {
                return Ok(o.copy());
            },
            Some(Change::Deleted) => {
                return Ok(Object::Null);
            },
            None => {},
        }
        match self.base.get(&num) {
            Some(o) => Ok(o.copy()),
            None => Err(Error::MissingObject { num, gen: 0 }),
        }
    }

    /// Resolves `r` to its final non-reference object, following reference
    /// chains with cycle detection and the depth bound.
    pub fn resolve(&self, r: ObjRef) -> (res: Result<Object, Error>)
        ensures
            same_outcome(res, resolve_spec(self@, r)),
    {
        let mut seen: BTreeSet<u32> = BTreeSet::new();
        let mut current = r;
        let mut depth: u32 = 0;
        loop
            invariant
                depth <= self@.max_depth,
                resolve_from(self@, current, depth as nat, seen@) == resolve_spec(self@, r),
            decreases self@.max_depth - depth,
        {
            if depth >= self.limits.max_recursion_depth {
                return Err(Error::LimitExceeded(LimitKind::RecursionDepth));
            }
            depth = depth + 1;
            if !seen.insert(current.num) {
                return Err(Error::ReferenceCycle { num: current.num, gen: current.gen });
            }
            let obj = match self.get_object(current.num, current.gen) {
                Ok(o) => o,
                Err(e) => {
                    if self.lenient {
                        return Ok(Object::Null);
                    }
                    return Err(e);
                },
            };
            match obj {
                Object::Reference(next) => {
                    current = next;
                },
                other => {
                    return Ok(other);
                },
            }
        }
    }

    /// The value of `key` in `dict`, a reference resolved: `None` when the
    /// key is absent.
    pub fn resolve_dict_key(&self, dict: &Dict, key: &Name) -> (r: Result<Option<Object>, Error>)
        ensures
            same_opt_outcome(r, dict_key_spec(self@, dict.map(), key@)),
    {
        match dict.get(key) {
            None => Ok(None),
            Some(Object::Reference(x)) => match self.resolve(*x) {
                Ok(o) => Ok(Some(o)),
                Err(e) => Err(e),
            },
            Some(direct) => Ok(Some(direct.copy())),
        }
    }

    /// Creates a new object under a fresh number past the current table
    /// length and returns its reference.
    pub fn add_object(&mut self, obj: Object) -> (r: ObjRef)
        ensures
            final(self)@.same_frame(old(self)@),
            final(self)@.overrides == old(self)@.overrides,
            r.gen == 0,
            final(self)@.changes.edits == old(self)@.changes.edits.insert(r.num, Some(obj)),
            final(self)@.changes.seeded,
            final(self)@.changes.next_free == sat_succ(r.num),
            old(self)@.changes.seeded ==> r.num == old(self)@.changes.next_free,
            !old(self)@.changes.seeded ==> r.num >= old(self)@.size && r.num >= 1
                && (forall|k: u32| old(self)@.base.contains_key(k) ==> r.num >= sat_succ(k))
                && (forall|k: u32| old(self)@.changes.edits.contains_key(k) ==> r.num >= sat_succ(k)),
    {
        let size = self.xref_length();
        self.changes.seed(size);
        let ghost seeded = self.changes@;
        let r = self.changes.allocate(obj);
        proof {
            assert(old(self)@.changes.seed_spec(size) == seeded);
        }
        r
    }

    /// Replaces the value of object `r` (existing or newly created).
    pub fn update_object(&mut self, r: ObjRef, obj: Object)
        ensures
            final(self)@.same_frame(old(self)@),
            final(self)@.overrides == old(self)@.overrides,
            final(self)@.changes.edits == old(self)@.changes.edits.insert(r.num, Some(obj)),
            final(self)@.changes.seeded,
            old(self)@.changes.seeded ==> final(self)@.changes.next_free == max_u32(old(self)@.changes.next_free, sat_succ(r.num)),
            !old(self)@.changes.seeded ==> final(self)@.changes.next_free >= old(self)@.size
                && final(self)@.changes.next_free >= sat_succ(r.num)
                && (forall|k: u32| old(self)@.base.contains_key(k) ==> final(self)@.changes.next_free >= sat_succ(k)),
    {
        let size = self.xref_length();
        self.changes.seed(size);
        let ghost seeded = self.changes@;
        self.changes.set(r.num, obj);
        proof {
            assert(old(self)@.changes.seed_spec(size) == seeded);
        }
    }

    /// Replaces a stream object's dictionary and body; `encoded` marks the
    /// body as already filter-encoded, otherwise it is held decoded.
    pub fn update_stream(&mut self, r: ObjRef, dict: Dict, body: Vec<u8>, encoded: bool)
        ensures
            final(self)@.same_frame(old(self)@),
            final(self)@.overrides == old(self)@.overrides,
            final(self)@.changes.edits.contains_key(r.num),
            final(self)@.changes.edits[r.num] matches Some(Object::Stream(st)) && st.dict == dict
                && st.data.payload() == (crate::object::PayloadView { decoded: !encoded, bytes: body@ }),
            final(self)@.changes.edits == old(self)@.changes.edits.insert(r.num, final(self)@.changes.edits[r.num]),
    {
        let size = self.xref_length();
        self.changes.seed(size);
        self.changes.set_stream(r.num, dict, body, encoded);
    }

    /// Deletes (frees) object `r`: it then reads as `null`.
    pub fn delete_object(&mut self, r: ObjRef)
        ensures
            final(self)@.same_frame(old(self)@),
            final(self)@.overrides == old(self)@.overrides,
            final(self)@.changes == old(self)@.changes.delete_spec(r.num),
    {
        self.changes.delete(r.num);
    }

    /// A copy of the pending-edit overlay (journal snapshot).
    pub fn snapshot_changeset(&self) -> (r: ChangeSet)
        ensures
            r@ == self@.changes,
    {
        self.changes.snapshot()
    }

    /// Replaces the pending-edit overlay with a snapshot (journal undo/redo).
    pub fn restore_changeset(&mut self, snap: ChangeSet)
        ensures
            final(self)@.same_frame(old(self)@),
            final(self)@.overrides == old(self)@.overrides,
            final(self)@.changes == snap@,
    {
        self.changes = snap;
    }

    /// The pending changes, in object-number order.
    pub fn changes_snapshot(&self) -> (r: Vec<(u32, Change)>)
        ensures
            r@.len() == self@.changes.edits.dom().len(),
            forall|i: int| 0 <= i < r@.len() ==> #[trigger] self@.changes.edits.contains_key(r@[i].0)
                && r@[i].1.written() == self@.changes.edits[r@[i].0],
            forall|i: int, j: int| 0 <= i < j < r@.len() ==> r@[i].0 < r@[j].0,
    {
        let keys = sorted_keys(self.changes.changes());
        let mut out: Vec<(u32, Change)> = Vec::new();
        let mut i: usize = 0;
        proof {
            self.changes.lemma_entries_edits();
            keys@.unique_seq_to_set();
        }
        while i < keys.len()
            invariant
                i <= keys@.len(),
                out@.len() == i,
                keys@.to_set() == self.changes.entries().dom(),
                self@.changes.edits.dom() == self.changes.entries().dom(),
                forall|q: u32| #[trigger] self.changes.entries().contains_key(q) ==> self@.changes.edits[q] == self.changes.entries()[q].written(),
                forall|a: int, b: int| 0 <= a < b < keys@.len() ==> keys@[a] < keys@[b],
                forall|k: int| 0 <= k < i ==> (#[trigger] out@[k]).0 == keys@[k]
                    && self.changes.entries().contains_key(keys@[k])
                    && out@[k].1.written() == self.changes.entries()[keys@[k]].written(),
            decreases keys@.len() - i,
        {
            let k = keys[i];
            proof {
                assert(keys@.to_set().contains(keys@[i as int]));
            }
            match self.changes.get(k) {
                Some(c) => {
                    let c2 = match c {
                        Change::Value(o) => Change::Value(arc_clone(o)),
                        Change::Deleted => Change::Deleted,
                    };
                    out.push((k, c2));
                },
                None => {},
            }
            i = i + 1;
        }
        proof {
            self.changes.lemma_entries_edits();
            assert(keys@.len() == self@.changes.edits.dom().len()) by {
                keys@.unique_seq_to_set();
            }
        }
        out
    }
}

/// Read after write: once object `num` is updated to a value that is not a
/// reference, resolving any reference to `num` gives that value (the depth
/// bound permitting one step).
pub proof fn law_resolve_after_update(v: StoreView, num: u32, gen: u16, obj: Object)
    requires
        v.max_depth >= 1,
        !(obj.value() is Reference),
    ensures
        resolve_spec(StoreView { changes: v.changes.set_spec(num, obj), ..v }, ObjRef { num, gen }) == Ok::<PdfValue, Error>(obj.value()),
{
    let w = StoreView { changes: v.changes.set_spec(num, obj), ..v };
    assert(w.changes.edits.contains_key(num));
    assert(lookup(w, num) == Ok::<PdfValue, Error>(obj.value()));
}

/// A deleted object resolves to `null`.
pub proof fn law_resolve_after_delete(v: StoreView, num: u32, gen: u16)
    requires
        v.max_depth >= 1,
    ensures
        resolve_spec(StoreView { changes: v.changes.delete_spec(num), ..v }, ObjRef { num, gen }) == Ok::<PdfValue, Error>(PdfValue::Null),
{
    let w = StoreView { changes: v.changes.delete_spec(num), ..v };
    assert(w.changes.edits.contains_key(num));
}

/// An edit touches only its own number: reading any other object gives
/// what it gave before.
pub proof fn law_update_isolated(v: StoreView, num: u32, obj: Object, other: u32)
    requires
        other != num,
    ensures
        lookup(StoreView { changes: v.changes.set_spec(num, obj), ..v }, other) == lookup(v, other),
        lookup(StoreView { changes: v.changes.delete_spec(num), ..v }, other) == lookup(v, other),
{
}

/// An object whose value is a reference to itself is reported as a
/// reference cycle (given room for two steps).
pub proof fn law_self_reference_is_cycle(v: StoreView, num: u32, gen: u16)
    requires
        v.max_depth >= 2,
        lookup(v, num) == Ok::<PdfValue, Error>(PdfValue::Reference(ObjRef { num, gen })),
    ensures
        resolve_spec(v, ObjRef { num, gen }) == Err::<PdfValue, Error>(Error::ReferenceCycle { num, gen }),
{
    let s1 = Set::<u32>::empty().insert(num);
    assert(s1.contains(num));
    assert(resolve_from(v, ObjRef { num, gen }, 1, s1) == Err::<PdfValue, Error>(Error::ReferenceCycle { num, gen }));
}

/// Restoring a snapshot undoes every edit made since it was taken: when the
/// overlay of state `v` is snapshotted, the store is edited into state `u`
/// (pending edits only, the trailer overrides untouched), and the snapshot is
/// restored into `u`, the result `w` is `v` again, so every read and
/// resolution gives what it gave in `v`.
pub proof fn law_restore_round_trip(v: StoreView, u: StoreView, w: StoreView)
    requires
        u.same_frame(v),
        u.overrides == v.overrides,
        w.same_frame(u),
        w.overrides == u.overrides,
        w.changes == v.changes,
    ensures
        w == v,
        forall|r: ObjRef| #[trigger] resolve_spec(w, r) == resolve_spec(v, r),
        forall|n: u32| #[trigger] lookup(w, n) == lookup(v, n),
{
}

} // verus!
