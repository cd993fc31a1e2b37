//! The PDF object model.
//!
//! The value graph is flat: an [`Object`] stores children that live elsewhere
//! as [`Object::Reference`] rather than resolving them. Stream payloads are
//! held out-of-line in `bytes::Bytes` (see [`stream`]).
//!
//! Every object has a mathematical value, [`PdfValue`], in which strings and
//! names are byte sequences, arrays are sequences and dictionaries are maps
//! from key bytes to values. Contracts speak of these values.

pub mod name;
pub mod parse;
pub mod stream;
pub mod string;

use vstd::prelude::*;

pub use name::Name;
pub use stream::{StreamData, StreamObj};
pub use string::{PdfString, StringKind};

use name::{bytes_equal, bytes_less, lex_lt, lemma_lex_asymmetric, lemma_lex_irreflexive, lemma_lex_total, lemma_lex_transitive};

verus! {

/// An indirect-object reference `num gen R`.
#[derive(Copy, Clone, PartialEq, Eq, Structural, Hash, Debug, PartialOrd, Ord)]
pub struct ObjRef {
    /// Object number.
    pub num: u32,
    /// Generation number.
    pub gen: u16,
}

impl ObjRef {
    /// Creates a reference.
    pub fn new(num: u32, gen: u16) -> (r: Self)
        ensures
            r.num == num,
            r.gen == gen,
    {
        ObjRef { num, gen }
    }
}

/// The value of a stream payload: its bytes, and whether the stream's filters
/// have already been applied to them.
pub struct PayloadView {
    /// `true` for a decoded payload, `false` for bytes still encoded.
    pub decoded: bool,
    /// The payload bytes.
    pub bytes: Seq<u8>,
}

/// The mathematical value of an [`Object`].
pub enum PdfValue {
    /// The null object.
    Null,
    /// A boolean.
    Boolean(bool),
    /// An integer.
    Integer(i64),
    /// A real number, as its decimal text.
    Real(Seq<u8>),
    /// A string: its decoded bytes and the form it was written in.
    Str(Seq<u8>, StringKind),
    /// A name, by its decoded bytes.
    Name(Seq<u8>),
    /// An array.
    Array(Seq<PdfValue>),
    /// A dictionary: key bytes to values.
    Dictionary(Map<Seq<u8>, PdfValue>),
    /// A stream: its dictionary and its payload.
    Stream(Map<Seq<u8>, PdfValue>, PayloadView),
    /// An indirect reference.
    Reference(ObjRef),
}

/// A PDF object (the eight base types plus indirect reference).
#[derive(Debug, PartialEq)]
pub enum Object {
    /// The null object.
    Null,
    /// A boolean.
    Boolean(bool),
    /// An integer (`i64`).
    Integer(i64),
    /// A real number, held as its decimal text (`-3.25`, `.5`, `4.`, `1e3`):
    /// the library does no floating-point arithmetic, so the conversion to a
    /// float is left to the caller.
    Real(Vec<u8>),
    /// A string (literal or hex).
    String(PdfString),
    /// A name.
    Name(Name),
    /// An array (heterogeneous, may contain references).
    Array(Vec<Object>),
    /// A dictionary.
    Dictionary(Dict),
    /// A stream (dictionary plus out-of-line payload).
    Stream(StreamObj),
    /// An indirect reference.
    Reference(ObjRef),
}

/// A PDF dictionary: an ordered map from [`Name`] to [`Object`]. Entries are
/// kept sorted by key bytes, so iteration (and serialization) order is
/// deterministic; a key occurs at most once.
#[derive(Debug, PartialEq)]
pub struct Dict {
    entries: Vec<(Name, Object)>,
}

impl Object {
    /// The mathematical value of this object.
    pub open spec fn value(self) -> PdfValue
        decreases self, 0int,
    {
        match self {
            Object::Null => PdfValue::Null,
            Object::Boolean(b) => PdfValue::Boolean(b),
            Object::Integer(i) => PdfValue::Integer(i),
            Object::Real(t) => PdfValue::Real(t@),
            Object::String(s) => PdfValue::Str(s.bytes@, s.kind),
            Object::Name(n) => PdfValue::Name(n@),
            Object::Array(v) => PdfValue::Array(Object::array_values(v@, v@.len() as int)),
            Object::Dictionary(d) => PdfValue::Dictionary(d.map()),
            Object::Stream(s) => PdfValue::Stream(s.dict.map(), s.data.payload()),
            Object::Reference(r) => PdfValue::Reference(r),
        }
    }

    /// The values of the first `n` objects of `v`.
    pub open spec fn array_values(v: Seq<Object>, n: int) -> Seq<PdfValue>
        decreases v, n,
    {
        if n <= 0 || n > v.len() {
            Seq::empty()
        } else {
            Object::array_values(v, n - 1).push(v[n - 1].value())
        }
    }
}

impl Dict {
    /// The entries in key order.
    pub closed spec fn entry_seq(self) -> Seq<(Name, Object)> {
        self.entries@
    }

    /// The map that inserting the first `n` entries of `es` in order builds
    /// (a later entry for a key replaces an earlier one).
    pub open spec fn entries_map(es: Seq<(Name, Object)>, n: int) -> Map<Seq<u8>, PdfValue>
        decreases es, n,
    {
        if n <= 0 || n > es.len() {
            Map::empty()
        } else {
            Dict::entries_map(es, n - 1).insert(es[n - 1].0@, es[n - 1].1.value())
        }
    }

    /// The dictionary as a map from key bytes to values.
    pub closed spec fn map(self) -> Map<Seq<u8>, PdfValue>
        decreases self, 0int,
    {
        Dict::entries_map(self.entries@, self.entries@.len() as int)
    }

    /// Keys strictly increase in byte order.
    pub open spec fn sorted(es: Seq<(Name, Object)>) -> bool {
        forall|i: int, j: int| 0 <= i < j < es.len() ==> lex_lt(#[trigger] es[i].0@, #[trigger] es[j].0@)
    }

    #[verifier::type_invariant]
    closed spec fn inv(self) -> bool {
        Dict::sorted(self.entries@)
    }
}


/// Distinct lexicographically ordered keys differ.
proof fn lemma_lt_ne(a: Seq<u8>, b: Seq<u8>)
    requires
        lex_lt(a, b),
    ensures
        a != b,
{
    if a == b {
        lemma_lex_irreflexive(a, 0);
    }
}

impl Dict {
    /// In a sorted entry sequence, the map built from the first `n` entries
    /// holds exactly their keys, each with its own value.
    pub proof fn lemma_entries_map(es: Seq<(Name, Object)>, n: int)
        requires
            Dict::sorted(es),
            0 <= n <= es.len(),
        ensures
            forall|k: Seq<u8>| #[trigger] Dict::entries_map(es, n).dom().contains(k)
                <==> exists|j: int| 0 <= j < n && es[j].0@ == k,
            forall|j: int| 0 <= j < n ==> #[trigger] Dict::entries_map(es, n)[es[j].0@] == es[j].1.value(),
            Dict::entries_map(es, n).dom().finite(),
            Dict::entries_map(es, n).dom().len() == n,
        decreases n,
    {
        if n > 0 {
            Dict::lemma_entries_map(es, n - 1);
            let m = Dict::entries_map(es, n - 1);
            assert(Dict::entries_map(es, n) == m.insert(es[n - 1].0@, es[n - 1].1.value()));
            assert forall|j: int| 0 <= j < n - 1 implies #[trigger] es[j].0@ != es[n - 1].0@ by {
                lemma_lt_ne(es[j].0@, es[n - 1].0@);
            }
            assert(!m.dom().contains(es[n - 1].0@));
            assert forall|k: Seq<u8>| #[trigger] Dict::entries_map(es, n).dom().contains(k)
                implies exists|j: int| 0 <= j < n && es[j].0@ == k by {
                if k != es[n - 1].0@ {
                    assert(m.dom().contains(k));
                }
            }
        }
    }

    /// Creates an empty dictionary.
    pub fn new() -> (r: Dict)
        ensures
            r.map() == Map::<Seq<u8>, PdfValue>::empty(),
    {
        Dict { entries: Vec::new() }
    }

    /// The entries, in increasing key order.
    pub fn entries(&self) -> (r: &[(Name, Object)])
        ensures
            r@ == self.entry_seq(),
            Dict::sorted(r@),
            self.map() == Dict::entries_map(r@, r@.len() as int),
    {
        proof {
            use_type_invariant(self);
        }
        self.entries.as_slice()
    }

    /// The number of entries.
    pub fn len(&self) -> (r: usize)
        ensures
            r == self.map().dom().len(),
            self.map().dom().finite(),
    {
        proof {
            use_type_invariant(self);
            Dict::lemma_entries_map(self.entries@, self.entries@.len() as int);
        }
        self.entries.len()
    }

    /// `true` when the dictionary has no entries.
    pub fn is_empty(&self) -> (r: bool)
        ensures
            r == (self.map().dom() == Set::<Seq<u8>>::empty()),
    {
        proof {
            use_type_invariant(self);
            Dict::lemma_entries_map(self.entries@, self.entries@.len() as int);
            if self.entries@.len() > 0 {
                assert(self.map().dom().contains(self.entries@[0].0@));
            }
        }
        self.entries.len() == 0
    }

    /// Locates `key`: `Ok(i)` when entry `i` has that key, otherwise
    /// `Err(i)` with `i` the position at which it would be inserted.
    fn find(&self, key: &[u8]) -> (r: Result<usize, usize>)
        ensures
            match r {
                Ok(i) => i < self.entries@.len() && self.entries@[i as int].0@ == key@,
                Err(i) => i <= self.entries@.len()
                    && (forall|j: int| 0 <= j < i ==> lex_lt(#[trigger] self.entries@[j].0@, key@))
                    && (forall|j: int| i <= j < self.entries@.len() ==> lex_lt(key@, #[trigger] self.entries@[j].0@)),
            },
    {
        proof {
            use_type_invariant(self);
        }
        let mut i: usize = 0;
        while i < self.entries.len() && bytes_less(self.entries[i].0.as_bytes(), key)
            invariant
                i <= self.entries@.len(),
                Dict::sorted(self.entries@),
                forall|j: int| 0 <= j < i ==> lex_lt(#[trigger] self.entries@[j].0@, key@),
            decreases self.entries@.len() - i,
        {
            i = i + 1;
        }
        if i < self.entries.len() && bytes_equal(self.entries[i].0.as_bytes(), key) {
            return Ok(i);
        }
        proof {
            if i < self.entries@.len() {
                let e = self.entries@[i as int].0@;
                assert(!lex_lt(e, key@));
                assert(e != key@);
                assert(e.take(0) =~= key@.take(0));
                lemma_lex_total(e, key@, 0);
                assert(lex_lt(key@, e));
                assert forall|j: int| i <= j < self.entries@.len() implies lex_lt(key@, #[trigger] self.entries@[j].0@) by {
                    if j > i {
                        lemma_lex_transitive(key@, e, self.entries@[j].0@, 0);
                    }
                }
            }
        }
        Err(i)
    }

    /// The value stored under `key`, if any.
    pub fn get(&self, key: &Name) -> (r: Option<&Object>)
        ensures
            r is Some <==> self.map().dom().contains(key@),
            r matches Some(o) ==> o.value() == self.map()[key@],
    {
        proof {
            use_type_invariant(self);
            Dict::lemma_entries_map(self.entries@, self.entries@.len() as int);
        }
        match self.find(key.as_bytes()) {
            Ok(i) => Some(&self.entries[i].1),
            Err(i) => {
                proof {
                    assert forall|j: int| 0 <= j < self.entries@.len() implies #[trigger] self.entries@[j].0@ != key@ by {
                        if j < i {
                            lemma_lt_ne(self.entries@[j].0@, key@);
                        } else {
                            lemma_lt_ne(key@, self.entries@[j].0@);
                        }
                    }
                }
                None
            },
        }
    }

    /// Whether `key` has an entry.
    pub fn contains_key(&self, key: &Name) -> (r: bool)
        ensures
            r == self.map().dom().contains(key@),
    {
        self.get(key).is_some()
    }

    /// Stores `value` under `key`, returning the value it replaces.
    pub fn insert(&mut self, key: Name, value: Object) -> (r: Option<Object>)
        ensures
            final(self).map() == old(self).map().insert(key@, value.value()),
            r is Some <==> old(self).map().dom().contains(key@),
            r matches Some(o) ==> o.value() == old(self).map()[key@],
    {
        proof {
            use_type_invariant(&*self);
            Dict::lemma_entries_map(self.entries@, self.entries@.len() as int);
        }
        let ghost old_es = self.entries@;
        let ghost kv = key@;
        let ghost vv = value.value();
        match self.find(key.as_bytes()) {
            Ok(i) => {
                let mut slot = (key, value);
                let mut entries: Vec<(Name, Object)> = Vec::new();
                std::mem::swap(&mut entries, &mut self.entries);
                entries.set_and_swap(i, &mut slot);
                proof {
                    let new_es = entries@;
                    assert(new_es == old_es.update(i as int, (slot.0, slot.1)) || true);
                    assert(new_es[i as int].0@ == kv);
                    assert forall|a: int, b: int| 0 <= a < b < new_es.len()
                        implies lex_lt(#[trigger] new_es[a].0@, #[trigger] new_es[b].0@) by {
                        assert(old_es[a].0@ == new_es[a].0@);
                        assert(old_es[b].0@ == new_es[b].0@);
                    }
                    Dict::lemma_entries_map(new_es, new_es.len() as int);
                    let m_old = Dict::entries_map(old_es, old_es.len() as int);
                    let m_new = Dict::entries_map(new_es, new_es.len() as int);
                    assert forall|k: Seq<u8>| m_new.dom().contains(k) <==> m_old.insert(kv, vv).dom().contains(k) by {
                        if m_new.dom().contains(k) {
                            let j = choose|j: int| 0 <= j < new_es.len() && new_es[j].0@ == k;
                            assert(old_es[j].0@ == k);
                        }
                        if m_old.dom().contains(k) {
                            let j = choose|j: int| 0 <= j < old_es.len() && old_es[j].0@ == k;
                            assert(new_es[j].0@ == k);
                        }
                    }
                    assert forall|k: Seq<u8>| m_new.dom().contains(k) implies m_new[k] == m_old.insert(kv, vv)[k] by {
                        let j = choose|j: int| 0 <= j < new_es.len() && new_es[j].0@ == k;
                        if j < i {
                            assert(lex_lt(new_es[j].0@, new_es[i as int].0@));
                            lemma_lt_ne(new_es[j].0@, kv);
                            assert(old_es[j].0@ == k);
                        } else if j > i {
                            assert(lex_lt(new_es[i as int].0@, new_es[j].0@));
                            lemma_lt_ne(kv, new_es[j].0@);
                            assert(old_es[j].0@ == k);
                        }
                    }
                    assert(m_new =~= m_old.insert(kv, vv));
                }
                self.entries = entries;
                Some(slot.1)
            },
            Err(i) => {
                let mut entries: Vec<(Name, Object)> = Vec::new();
                std::mem::swap(&mut entries, &mut self.entries);
                entries.insert(i, (key, value));
                proof {
                    let new_es = entries@;
                    assert forall|a: int, b: int| 0 <= a < b < new_es.len()
                        implies lex_lt(#[trigger] new_es[a].0@, #[trigger] new_es[b].0@) by {
                        if b < i {
                        } else if a < i && b == i {
                        } else if a < i {
                            assert(new_es[b] == old_es[b - 1]);
                        } else if a == i {
                            assert(new_es[b] == old_es[b - 1]);
                        } else {
                            assert(new_es[a] == old_es[a - 1]);
                            assert(new_es[b] == old_es[b - 1]);
                        }
                    }
                    Dict::lemma_entries_map(new_es, new_es.len() as int);
                    let m_old = Dict::entries_map(old_es, old_es.len() as int);
                    let m_new = Dict::entries_map(new_es, new_es.len() as int);
                    assert forall|j: int| 0 <= j < old_es.len() implies #[trigger] old_es[j].0@ != kv by {
                        if j < i {
                            lemma_lt_ne(old_es[j].0@, kv);
                        } else {
                            lemma_lt_ne(kv, old_es[j].0@);
                        }
                    }
                    assert forall|k: Seq<u8>| m_new.dom().contains(k) <==> m_old.insert(kv, vv).dom().contains(k) by {
                        if m_new.dom().contains(k) {
                            let j = choose|j: int| 0 <= j < new_es.len() && new_es[j].0@ == k;
                            if j < i {
                                assert(old_es[j].0@ == k);
                            } else if j > i {
                                assert(old_es[j - 1].0@ == k);
                            }
                        }
                        if m_old.dom().contains(k) {
                            let j = choose|j: int| 0 <= j < old_es.len() && old_es[j].0@ == k;
                            if j < i {
                                assert(new_es[j].0@ == k);
                            } else {
                                assert(new_es[j + 1].0@ == k);
                            }
                        }
                        if k == kv {
                            assert(new_es[i as int].0@ == k);
                        }
                    }
                    assert forall|k: Seq<u8>| m_new.dom().contains(k) implies m_new[k] == m_old.insert(kv, vv)[k] by {
                        let j = choose|j: int| 0 <= j < new_es.len() && new_es[j].0@ == k;
                        if j < i {
                            assert(old_es[j] == new_es[j]);
                            lemma_lt_ne(k, kv);
                        } else if j > i {
                            assert(old_es[j - 1] == new_es[j]);
                            lemma_lt_ne(kv, k);
                        }
                    }
                    assert(m_new =~= m_old.insert(kv, vv));
                }
                self.entries = entries;
                None
            },
        }
    }

    /// Removes the entry for `key`, returning its value.
    pub fn remove(&mut self, key: &Name) -> (r: Option<Object>)
        ensures
            final(self).map() == old(self).map().remove(key@),
            r is Some <==> old(self).map().dom().contains(key@),
            r matches Some(o) ==> o.value() == old(self).map()[key@],
    {
        proof {
            use_type_invariant(&*self);
            Dict::lemma_entries_map(self.entries@, self.entries@.len() as int);
        }
        let ghost old_es = self.entries@;
        let ghost kv = key@;
        match self.find(key.as_bytes()) {
            Ok(i) => {
                let mut entries: Vec<(Name, Object)> = Vec::new();
                std::mem::swap(&mut entries, &mut self.entries);
                let removed = entries.remove(i);
                proof {
                    let new_es = entries@;
                    assert forall|a: int, b: int| 0 <= a < b < new_es.len()
                        implies lex_lt(#[trigger] new_es[a].0@, #[trigger] new_es[b].0@) by {
                        if b < i {
                        } else if a < i {
                            assert(new_es[b] == old_es[b + 1]);
                        } else {
                            assert(new_es[a] == old_es[a + 1]);
                            assert(new_es[b] == old_es[b + 1]);
                        }
                    }
                    Dict::lemma_entries_map(new_es, new_es.len() as int);
                    let m_old = Dict::entries_map(old_es, old_es.len() as int);
                    let m_new = Dict::entries_map(new_es, new_es.len() as int);
                    assert forall|k: Seq<u8>| m_new.dom().contains(k) <==> m_old.remove(kv).dom().contains(k) by {
                        if m_new.dom().contains(k) {
                            let j = choose|j: int| 0 <= j < new_es.len() && new_es[j].0@ == k;
                            if j < i {
                                assert(old_es[j].0@ == k);
                                lemma_lt_ne(k, kv);
                            } else {
                                assert(old_es[j + 1].0@ == k);
                                lemma_lt_ne(kv, k);
                            }
                        }
                        if m_old.dom().contains(k) && k != kv {
                            let j = choose|j: int| 0 <= j < old_es.len() && old_es[j].0@ == k;
                            if j < i {
                                assert(new_es[j].0@ == k);
                            } else {
                                assert(j != i);
                                assert(new_es[j - 1].0@ == k);
                            }
                        }
                    }
                    assert forall|k: Seq<u8>| m_new.dom().contains(k) implies m_new[k] == m_old.remove(kv)[k] by {
                        let j = choose|j: int| 0 <= j < new_es.len() && new_es[j].0@ == k;
                        if j < i {
                            assert(old_es[j] == new_es[j]);
                            lemma_lt_ne(k, kv);
                        } else {
                            assert(old_es[j + 1] == new_es[j]);
                            lemma_lt_ne(kv, k);
                        }
                    }
                    assert(m_new =~= m_old.remove(kv));
                }
                self.entries = entries;
                Some(removed.1)
            },
            Err(i) => {
                proof {
                    assert forall|j: int| 0 <= j < old_es.len() implies #[trigger] old_es[j].0@ != kv by {
                        if j < i {
                            lemma_lt_ne(old_es[j].0@, kv);
                        } else {
                            lemma_lt_ne(kv, old_es[j].0@);
                        }
                    }
                    let m_old = Dict::entries_map(old_es, old_es.len() as int);
                    assert(m_old.remove(kv) =~= m_old);
                }
                None
            },
        }
    }
}

impl Object {
    /// `true` when this is [`Object::Null`].
    pub fn is_null(&self) -> (r: bool)
        ensures
            r == (*self is Null),
    {
        matches!(self, Object::Null)
    }

    /// The boolean value, if this is a boolean.
    pub fn as_bool(&self) -> (r: Option<bool>)
        ensures
            r == (match *self {
                Object::Boolean(b) => Some(b),
                _ => None,
            }),
    {
        match self {
            Object::Boolean(b) => Some(*b),
            _ => None,
        }
    }

    /// The integer value, if this is an integer.
    pub fn as_i64(&self) -> (r: Option<i64>)
        ensures
            r == (match *self {
                Object::Integer(i) => Some(i),
                _ => None,
            }),
    {
        match self {
            Object::Integer(i) => Some(*i),
            _ => None,
        }
    }

    /// The string, if this is a string.
    pub fn as_string(&self) -> (r: Option<&PdfString>)
        ensures
            r is Some <==> *self is String,
            r matches Some(s) ==> *self == Object::String(*s),
    {
        match self {
            Object::String(s) => Some(s),
            _ => None,
        }
    }

    /// The name, if this is a name.
    pub fn as_name(&self) -> (r: Option<&Name>)
        ensures
            r is Some <==> *self is Name,
            r matches Some(n) ==> *self == Object::Name(*n),
    {
        match self {
            Object::Name(n) => Some(n),
            _ => None,
        }
    }

    /// The array, if this is an array.
    pub fn as_array(&self) -> (r: Option<&[Object]>)
        ensures
            r is Some <==> *self is Array,
            r matches Some(a) ==> (*self matches Object::Array(v) && a@ == v@),
    {
        match self {
            Object::Array(a) => Some(a.as_slice()),
            _ => None,
        }
    }

    /// The dictionary, if this is a dictionary or a stream (a stream's
    /// dictionary is conventionally addressable as a dictionary).
    pub fn as_dict(&self) -> (r: Option<&Dict>)
        ensures
            r is Some <==> (*self is Dictionary || *self is Stream),
            r matches Some(d) ==> (*self == Object::Dictionary(*d) || (*self matches Object::Stream(s) && s.dict == *d)),
    {
        match self {
            Object::Dictionary(d) => Some(d),
            Object::Stream(s) => Some(&s.dict),
            _ => None,
        }
    }

    /// The stream, if this is a stream.
    pub fn as_stream(&self) -> (r: Option<&StreamObj>)
        ensures
            r is Some <==> *self is Stream,
            r matches Some(s) ==> *self == Object::Stream(*s),
    {
        match self {
            Object::Stream(s) => Some(s),
            _ => None,
        }
    }

    /// The reference, if this is an indirect reference.
    pub fn as_reference(&self) -> (r: Option<ObjRef>)
        ensures
            r == (match *self {
                Object::Reference(x) => Some(x),
                _ => None,
            }),
    {
        match self {
            Object::Reference(x) => Some(*x),
            _ => None,
        }
    }

    /// A deep copy of this object, with the same value.
    pub fn copy(&self) -> (r: Object)
        ensures
            r.value() == self.value(),
        decreases self,
    {
        match self {
            Object::Null => Object::Null,
            Object::Boolean(b) => Object::Boolean(*b),
            Object::Integer(i) => Object::Integer(*i),
            Object::Real(t) => Object::Real(vstd::slice::slice_to_vec(t.as_slice())),
            Object::String(s) => Object::String(s.copy()),
            Object::Name(n) => Object::Name(n.copy()),
            Object::Array(v) => {
                let mut out: Vec<Object> = Vec::new();
                let mut i: usize = 0;
                while i < v.len()
                    invariant
                        i <= v@.len(),
                        *self == Object::Array(*v),
                        out@.len() == i,
                        forall|j: int| 0 <= j < i ==> #[trigger] out@[j].value() == v@[j].value(),
                    decreases v@.len() - i,
                {
                    proof {
                        assert(decreases_to!(*v => v[i as int]));
                        assert(decreases_to!(*self => (*self)->Array_0));
                        assert(decreases_to!(*self => v[i as int]));
                    }
                    out.push(v[i].copy());
                    i = i + 1;
                }
                proof {
                    Object::lemma_array_values_eq(out@, v@, v@.len() as int);
                }
                Object::Array(out)
            },
            Object::Dictionary(d) => Object::Dictionary(d.copy()),
            Object::Stream(s) => Object::Stream(s.copy()),
            Object::Reference(x) => Object::Reference(*x),
        }
    }

    /// Arrays of pairwise equal values have the same values.
    pub proof fn lemma_array_values_eq(a: Seq<Object>, b: Seq<Object>, n: int)
        requires
            0 <= n <= a.len(),
            n <= b.len(),
            forall|j: int| 0 <= j < n ==> #[trigger] a[j].value() == b[j].value(),
        ensures
            Object::array_values(a, n) == Object::array_values(b, n),
        decreases n,
    {
        if n > 0 {
            Object::lemma_array_values_eq(a, b, n - 1);
            assert(a[n - 1].value() == b[n - 1].value());
        }
    }
}

impl Object {
    /// The values of the first `n` items are `n` values, each item's own.
    pub proof fn lemma_array_values_index(v: Seq<Object>, n: int)
        requires
            0 <= n <= v.len(),
        ensures
            Object::array_values(v, n).len() == n,
            forall|i: int| 0 <= i < n ==> #[trigger] Object::array_values(v, n)[i] == v[i].value(),
        decreases n,
    {
        if n > 0 {
            Object::lemma_array_values_index(v, n - 1);
        }
    }

    /// The values of an array with one more item.
    pub proof fn lemma_array_values_push(v: Seq<Object>, x: Object)
        ensures
            Object::array_values(v.push(x), v.len() + 1int) == Object::array_values(v, v.len() as int).push(x.value()),
    {
        assert forall|j: int| 0 <= j < v.len() implies #[trigger] v.push(x)[j].value() == v[j].value() by {}
        Object::lemma_array_values_eq(v.push(x), v, v.len() as int);
    }
}

impl Dict {
    /// Entry sequences with pairwise equal keys and values build equal maps.
    pub proof fn lemma_entries_map_eq(a: Seq<(Name, Object)>, b: Seq<(Name, Object)>, n: int)
        requires
            a.len() == b.len(),
            0 <= n <= a.len(),
            forall|j: int| 0 <= j < n ==> (#[trigger] a[j]).0@ == b[j].0@ && a[j].1.value() == b[j].1.value(),
        ensures
            Dict::entries_map(a, n) == Dict::entries_map(b, n),
        decreases n,
    {
        if n > 0 {
            Dict::lemma_entries_map_eq(a, b, n - 1);
        }
    }

    /// A deep copy of this dictionary, with the same map.
    pub fn copy(&self) -> (r: Dict)
        ensures
            r.map() == self.map(),
        decreases self,
    {
        proof {
            use_type_invariant(self);
        }
        let mut out: Vec<(Name, Object)> = Vec::new();
        let mut i: usize = 0;
        while i < self.entries.len()
            invariant
                i <= self.entries@.len(),
                out@.len() == i,
                Dict::sorted(self.entries@),
                forall|j: int| 0 <= j < i ==> (#[trigger] out@[j]).0@ == self.entries@[j].0@
                    && out@[j].1.value() == self.entries@[j].1.value(),
            decreases self.entries@.len() - i,
        {
            let k = self.entries[i].0.copy();
            let v = self.entries[i].1.copy();
            out.push((k, v));
            i = i + 1;
        }
        proof {
            assert forall|a: int, b: int| 0 <= a < b < out@.len()
                implies lex_lt(#[trigger] out@[a].0@, #[trigger] out@[b].0@) by {
                assert(out@[a].0@ == self.entries@[a].0@);
                assert(out@[b].0@ == self.entries@[b].0@);
            }
            Dict::lemma_entries_map_eq(out@, self.entries@, out@.len() as int);
        }
        Dict { entries: out }
    }
}

// --- references between objects ---------------------------------------------

impl Object {
    /// The object numbers this object refers to, in order of appearance
    /// (array items in order, dictionary entries in key order).
    pub open spec fn refs(self) -> Seq<u32>
        decreases self, 0int,
    {
        match self {
            Object::Reference(r) => seq![r.num],
            Object::Array(v) => Object::refs_of(v@, v@.len() as int),
            Object::Dictionary(d) => d.refs(),
            Object::Stream(s) => s.dict.refs(),
            _ => Seq::empty(),
        }
    }

    /// The references of the first `n` objects of `v`, in order.
    pub open spec fn refs_of(v: Seq<Object>, n: int) -> Seq<u32>
        decreases v, n,
    {
        if n <= 0 || n > v.len() {
            Seq::empty()
        } else {
            Object::refs_of(v, n - 1) + v[n - 1].refs()
        }
    }

    /// Appends the object numbers this object refers to onto `out`; each
    /// of them occurs inside the object's value.
    pub fn collect_refs(&self, out: &mut Vec<u32>)
        ensures
            final(out)@ == old(out)@ + self.refs(),
            forall|n: u32| self.refs().contains(n) ==> value_has_ref(self.value(), n),
        decreases self,
    {
        match self {
            Object::Reference(r) => {
                out.push(r.num);
                proof {
                    assert(old(out)@.push(r.num) =~= old(out)@ + seq![r.num]);
                }
            },
            Object::Array(v) => {
                let ghost start = out@;
                let mut i: usize = 0;
                while i < v.len()
                    invariant
                        i <= v@.len(),
                        *self == Object::Array(*v),
                        out@ == start + Object::refs_of(v@, i as int),
                        forall|n: u32| Object::refs_of(v@, i as int).contains(n)
                            ==> exists|j: int| 0 <= j < i && value_has_ref(#[trigger] v@[j].value(), n),
                    decreases v@.len() - i,
                {
                    proof {
                        assert(decreases_to!(*v => v[i as int]));
                        assert(decreases_to!(*self => (*self)->Array_0));
                        assert(decreases_to!(*self => v[i as int]));
                    }
                    let ghost before = out@;
                    v[i].collect_refs(out);
                    proof {
                        assert(start + Object::refs_of(v@, i + 1) =~= before + v@[i as int].refs());
                        assert forall|n: u32| #[trigger] Object::refs_of(v@, i + 1).contains(n)
                            implies exists|j: int| 0 <= j < i + 1 && value_has_ref(#[trigger] v@[j].value(), n) by {
                            lemma_concat_contains(Object::refs_of(v@, i as int), v@[i as int].refs(), n);
                            if v@[i as int].refs().contains(n) {
                                assert(value_has_ref(v@[i as int].value(), n));
                            }
                        }
                    }
                    i = i + 1;
                }
                proof {
                    assert(out@ =~= start + Object::refs_of(v@, v@.len() as int));
                    Object::lemma_array_values_index(v@, v@.len() as int);
                    assert forall|n: u32| self.refs().contains(n) implies value_has_ref(self.value(), n) by {
                        assert(self.refs() == Object::refs_of(v@, v@.len() as int));
                        assert(Object::refs_of(v@, i as int).contains(n));
                        let j = choose|j: int| 0 <= j < v@.len() && value_has_ref(#[trigger] v@[j].value(), n);
                        let vals = Object::array_values(v@, v@.len() as int);
                        assert(vals[j] == v@[j].value());
                        assert(value_has_ref(vals[j], n));
                        assert(0 <= j < vals.len());
                        lemma_array_has_ref(vals, j, n);
                        assert(self.value() == PdfValue::Array(vals));
                    }
                }
            },
            Object::Dictionary(d) => {
                d.collect_refs(out);
            },
            Object::Stream(s) => {
                s.dict.collect_refs(out);
            },
            _ => {
                proof {
                    assert(old(out)@ + self.refs() =~= old(out)@);
                }
            },
        }
    }
}

impl Dict {
    /// The references of the values, in key order.
    pub closed spec fn refs(self) -> Seq<u32>
        decreases self, 0int,
    {
        Dict::entries_refs(self.entries@, self.entries@.len() as int)
    }

    /// The references of the values of the first `n` entries, in order.
    pub open spec fn entries_refs(es: Seq<(Name, Object)>, n: int) -> Seq<u32>
        decreases es, n,
    {
        if n <= 0 || n > es.len() {
            Seq::empty()
        } else {
            Dict::entries_refs(es, n - 1) + es[n - 1].1.refs()
        }
    }

    /// Appends the references of the values onto `out`, in key order; each
    /// of them occurs inside a value.
    pub fn collect_refs(&self, out: &mut Vec<u32>)
        ensures
            final(out)@ == old(out)@ + self.refs(),
            forall|n: u32| self.refs().contains(n) ==> map_has_ref(self.map(), n),
        decreases self,
    {
        proof {
            use_type_invariant(self);
        }
        let ghost start = out@;
        let ghost es = self.entries@;
        let mut i: usize = 0;
        while i < self.entries.len()
            invariant
                es == self.entries@,
                i <= es.len(),
                out@ == start + Dict::entries_refs(es, i as int),
                forall|n: u32| Dict::entries_refs(es, i as int).contains(n)
                    ==> exists|j: int| 0 <= j < i && value_has_ref(#[trigger] es[j].1.value(), n),
            decreases es.len() - i,
        {
            let ghost before = out@;
            self.entries[i].1.collect_refs(out);
            proof {
                assert(start + Dict::entries_refs(es, i + 1) =~= before + es[i as int].1.refs());
                assert forall|n: u32| #[trigger] Dict::entries_refs(es, i + 1).contains(n)
                    implies exists|j: int| 0 <= j < i + 1 && value_has_ref(#[trigger] es[j].1.value(), n) by {
                    lemma_concat_contains(Dict::entries_refs(es, i as int), es[i as int].1.refs(), n);
                    if es[i as int].1.refs().contains(n) {
                        assert(value_has_ref(es[i as int].1.value(), n));
                    }
                }
            }
            i = i + 1;
        }
        proof {
            assert(out@ =~= start + Dict::entries_refs(es, es.len() as int));
            Dict::lemma_entries_map(es, es.len() as int);
            let m = self.map();
            assert forall|n: u32| self.refs().contains(n) implies map_has_ref(m, n) by {
                let j = choose|j: int| 0 <= j < es.len() && value_has_ref(#[trigger] es[j].1.value(), n);
                assert(m.dom().contains(es[j].0@));
                assert(m[es[j].0@] == es[j].1.value());
                lemma_map_has_ref(m, es[j].0@, n);
            }
        }
    }
}

/// A reference inside an array item occurs inside the array.
proof fn lemma_array_has_ref(s: Seq<PdfValue>, j: int, n: u32)
    requires
        0 <= j < s.len(),
        value_has_ref(s[j], n),
    ensures
        value_has_ref(PdfValue::Array(s), n),
{
    let v = PdfValue::Array(s);
    assert(decreases_to!(v => v->Array_0));
    assert(decreases_to!(s => s[j]));
    assert(decreases_to!(v => s[j]));
}

/// A reference inside a value of a finite dictionary map occurs in the map.
proof fn lemma_map_has_ref(m: Map<Seq<u8>, PdfValue>, k: Seq<u8>, n: u32)
    requires
        m.dom().finite(),
        m.dom().contains(k),
        value_has_ref(m[k], n),
    ensures
        map_has_ref(m, n),
{
    assert(decreases_to!(m => m[k]));
}

/// What occurs in a concatenation occurs in one of its parts.
proof fn lemma_concat_contains(a: Seq<u32>, b: Seq<u32>, n: u32)
    requires
        (a + b).contains(n),
    ensures
        a.contains(n) || b.contains(n),
{
    let i = choose|i: int| 0 <= i < (a + b).len() && (a + b)[i] == n;
    if i < a.len() {
        assert(a[i] == n);
    } else {
        assert(b[i - a.len()] == n);
    }
}

/// Whether the reference to object `n` occurs anywhere in `v`: `v` itself,
/// an array item, a dictionary value or a value of a stream's dictionary,
/// at any depth.
pub open spec fn value_has_ref(v: PdfValue, n: u32) -> bool
    decreases v,
{
    match v {
        PdfValue::Reference(r) => r.num == n,
        PdfValue::Array(s) => exists|i: int| 0 <= i < s.len() && value_has_ref(#[trigger] s[i], n),
        PdfValue::Dictionary(m) => map_has_ref(m, n),
        PdfValue::Stream(m, _) => map_has_ref(m, n),
        _ => false,
    }
}

/// Whether the reference to object `n` occurs in a value of the (finite)
/// dictionary map `m`.
pub open spec fn map_has_ref(m: Map<Seq<u8>, PdfValue>, n: u32) -> bool
    decreases m,
{
    m.dom().finite() && exists|k: Seq<u8>| m.dom().contains(k) && value_has_ref(#[trigger] m[k], n)
}

impl Object {
    /// The references of the first `n` objects of `v` include those of each.
    proof fn lemma_refs_of_includes(v: Seq<Object>, n: int, i: int, x: u32)
        requires
            0 <= i < n <= v.len(),
            v[i].refs().contains(x),
        ensures
            Object::refs_of(v, n).contains(x),
        decreases n,
    {
        let prev = Object::refs_of(v, n - 1);
        if i < n - 1 {
            Object::lemma_refs_of_includes(v, n - 1, i, x);
            let j = choose|j: int| 0 <= j < prev.len() && prev[j] == x;
            assert((prev + v[n - 1].refs())[j] == x);
        } else {
            let j = choose|j: int| 0 <= j < v[i].refs().len() && v[i].refs()[j] == x;
            assert((prev + v[n - 1].refs())[prev.len() + j] == x);
        }
    }

    /// Every reference occurring in an object's value is among its
    /// references.
    proof fn lemma_value_ref_in_refs(o: Object, x: u32)
        requires
            value_has_ref(o.value(), x),
        ensures
            o.refs().contains(x),
        decreases o,
    {
        match o {
            Object::Reference(r) => {
                assert(o.refs()[0] == x);
            },
            Object::Array(v) => {
                let vals = Object::array_values(v@, v@.len() as int);
                Object::lemma_array_values_index(v@, v@.len() as int);
                let i = choose|i: int| 0 <= i < vals.len() && value_has_ref(#[trigger] vals[i], x);
                assert(decreases_to!(o => v@[i]));
                Object::lemma_value_ref_in_refs(v@[i], x);
                Object::lemma_refs_of_includes(v@, v@.len() as int, i, x);
            },
            Object::Dictionary(d) => {
                Dict::lemma_dict_ref_in_refs(d, x);
            },
            Object::Stream(s) => {
                Dict::lemma_dict_ref_in_refs(s.dict, x);
            },
            _ => {},
        }
    }
}

impl Dict {
    /// A key of the map built from the first `n` entries is the key of one
    /// of them, the last one with that key, whose value it holds.
    proof fn lemma_entries_map_source(es: Seq<(Name, Object)>, n: int, k: Seq<u8>)
        requires
            0 <= n <= es.len(),
            Dict::entries_map(es, n).dom().contains(k),
        ensures
            exists|j: int| 0 <= j < n && (#[trigger] es[j]).0@ == k && Dict::entries_map(es, n)[k] == es[j].1.value(),
        decreases n,
    {
        if es[n - 1].0@ != k {
            Dict::lemma_entries_map_source(es, n - 1, k);
        } else {
            assert(es[n - 1].0@ == k);
        }
    }

    /// The references of the values of the first `n` entries include those
    /// of each.
    proof fn lemma_entries_refs_includes(es: Seq<(Name, Object)>, n: int, j: int, x: u32)
        requires
            0 <= j < n <= es.len(),
            es[j].1.refs().contains(x),
        ensures
            Dict::entries_refs(es, n).contains(x),
        decreases n,
    {
        let prev = Dict::entries_refs(es, n - 1);
        if j < n - 1 {
            Dict::lemma_entries_refs_includes(es, n - 1, j, x);
            let i = choose|i: int| 0 <= i < prev.len() && prev[i] == x;
            assert((prev + es[n - 1].1.refs())[i] == x);
        } else {
            let i = choose|i: int| 0 <= i < es[j].1.refs().len() && es[j].1.refs()[i] == x;
            assert((prev + es[n - 1].1.refs())[prev.len() + i] == x);
        }
    }

    /// Every reference occurring in a value of a dictionary is among its
    /// references.
    proof fn lemma_dict_ref_in_refs(d: Dict, x: u32)
        requires
            map_has_ref(d.map(), x),
        ensures
            d.refs().contains(x),
        decreases d,
    {
        let es = d.entries@;
        let m = d.map();
        let k = choose|k: Seq<u8>| m.dom().contains(k) && value_has_ref(#[trigger] m[k], x);
        Dict::lemma_entries_map_source(es, es.len() as int, k);
        let j = choose|j: int| 0 <= j < es.len() && (#[trigger] es[j]).0@ == k && m[k] == es[j].1.value();
        assert(decreases_to!(d => es[j].1));
        Object::lemma_value_ref_in_refs(es[j].1, x);
        Dict::lemma_entries_refs_includes(es, es.len() as int, j, x);
    }
}

/// The references of an object cover its whole value: whenever the
/// reference to object `n` occurs anywhere inside the object — itself, an
/// array item, a dictionary value, a value of a stream's dictionary, at any
/// depth — `n` is among the object's references.
pub proof fn law_refs_cover_value(o: Object, n: u32)
    requires
        value_has_ref(o.value(), n),
    ensures
        o.refs().contains(n),
{
    Object::lemma_value_ref_in_refs(o, n);
}

// --- renumbering references ---------------------------------------------------

/// The value with every reference whose number `f` maps rewritten to the
/// mapped number (generation kept); other references stay as they are.
pub open spec fn remap_value(v: PdfValue, f: Map<u32, u32>) -> PdfValue
    decreases v,
{
    match v {
        PdfValue::Reference(r) => PdfValue::Reference(
            if f.dom().contains(r.num) { ObjRef { num: f[r.num], gen: r.gen } } else { r },
        ),
        PdfValue::Array(s) => PdfValue::Array(
            Seq::new(s.len(), |i: int| if 0 <= i < s.len() { remap_value(s[i], f) } else { PdfValue::Null }),
        ),
        PdfValue::Dictionary(m) => PdfValue::Dictionary(remap_map(m, f)),
        PdfValue::Stream(m, p) => PdfValue::Stream(remap_map(m, f), p),
        _ => v,
    }
}

/// A dictionary map with every value's references rewritten through `f`.
pub open spec fn remap_map(m: Map<Seq<u8>, PdfValue>, f: Map<u32, u32>) -> Map<Seq<u8>, PdfValue>
    decreases m,
{
    Map::new(|k: Seq<u8>| m.dom().contains(k), |k: Seq<u8>| if m.dom().contains(k) && m.dom().finite() { remap_value(m[k], f) } else { PdfValue::Null })
}

impl Object {
    /// A copy of this object with every reference whose number `f` maps
    /// rewritten to the mapped number.
    pub fn remap(&self, f: &std::collections::BTreeMap<u32, u32>) -> (r: Object)
        ensures
            r.value() == remap_value(self.value(), f@),
        decreases self,
    {
        match self {
            Object::Reference(x) => {
                let num = x.num;
                match f.get(&num) {
                    Some(n) => Object::Reference(ObjRef { num: *n, gen: x.gen }),
                    None => Object::Reference(*x),
                }
            },
            Object::Array(v) => {
                let mut out: Vec<Object> = Vec::new();
                let mut i: usize = 0;
                while i < v.len()
                    invariant
                        i <= v@.len(),
                        *self == Object::Array(*v),
                        out@.len() == i,
                        forall|j: int| 0 <= j < i ==> #[trigger] out@[j].value() == remap_value(v@[j].value(), f@),
                    decreases v@.len() - i,
                {
                    proof {
                        assert(decreases_to!(*v => v[i as int]));
                        assert(decreases_to!(*self => (*self)->Array_0));
                        assert(decreases_to!(*self => v[i as int]));
                    }
                    out.push(v[i].remap(f));
                    i = i + 1;
                }
                proof {
                    Object::lemma_array_values_index(out@, out@.len() as int);
                    Object::lemma_array_values_index(v@, v@.len() as int);
                    assert(Object::array_values(out@, out@.len() as int) =~= remap_value(self.value(), f@)->Array_0);
                }
                Object::Array(out)
            },
            Object::Dictionary(d) => {
                let r = Object::Dictionary(d.remap(f));
                proof {
                    assert(r.value() == remap_value(self.value(), f@));
                }
                r
            },
            Object::Stream(st) => {
                let r = Object::Stream(StreamObj { dict: st.dict.remap(f), data: st.data.copy() });
                proof {
                    assert(r.value() == remap_value(self.value(), f@));
                }
                r
            },
            Object::Null => Object::Null,
            Object::Boolean(b) => Object::Boolean(*b),
            Object::Integer(i) => Object::Integer(*i),
            Object::Real(t) => Object::Real(vstd::slice::slice_to_vec(t.as_slice())),
            Object::String(st) => Object::String(st.copy()),
            Object::Name(n) => Object::Name(n.copy()),
        }
    }
}

impl Dict {
    /// A copy of this dictionary with every value's references rewritten
    /// through `f`.
    pub fn remap(&self, f: &std::collections::BTreeMap<u32, u32>) -> (r: Dict)
        ensures
            r.map() == remap_map(self.map(), f@),
        decreases self,
    {
        proof {
            use_type_invariant(self);
        }
        let mut out: Vec<(Name, Object)> = Vec::new();
        let mut i: usize = 0;
        while i < self.entries.len()
            invariant
                i <= self.entries@.len(),
                out@.len() == i,
                Dict::sorted(self.entries@),
                forall|j: int| 0 <= j < i ==> (#[trigger] out@[j]).0@ == self.entries@[j].0@
                    && out@[j].1.value() == remap_value(self.entries@[j].1.value(), f@),
            decreases self.entries@.len() - i,
        {
            let k = self.entries[i].0.copy();
            let v = self.entries[i].1.remap(f);
            out.push((k, v));
            i = i + 1;
        }
        proof {
            let es = self.entries@;
            assert forall|a: int, b: int| 0 <= a < b < out@.len()
                implies lex_lt(#[trigger] out@[a].0@, #[trigger] out@[b].0@) by {
                assert(out@[a].0@ == es[a].0@);
                assert(out@[b].0@ == es[b].0@);
            }
            Dict::lemma_entries_map(es, es.len() as int);
            Dict::lemma_entries_map(out@, out@.len() as int);
            let m = Dict::entries_map(es, es.len() as int);
            let m2 = Dict::entries_map(out@, out@.len() as int);
            assert forall|k: Seq<u8>| m2.dom().contains(k) <==> m.dom().contains(k) by {
                if m2.dom().contains(k) {
                    let j = choose|j: int| 0 <= j < out@.len() && out@[j].0@ == k;
                    assert(es[j].0@ == k);
                }
                if m.dom().contains(k) {
                    let j = choose|j: int| 0 <= j < es.len() && es[j].0@ == k;
                    assert(out@[j].0@ == k);
                }
            }
            assert forall|k: Seq<u8>| m2.dom().contains(k) implies m2[k] == remap_map(m, f@)[k] by {
                let j = choose|j: int| 0 <= j < out@.len() && out@[j].0@ == k;
                assert(es[j].0@ == k);
            }
            assert(m2 =~= remap_map(m, f@));
        }
        Dict { entries: out }
    }
}

// --- replacing strings --------------------------------------------------------

/// The replacement that `table` holds for string bytes `b`, looking from
/// pair `i` on: the second bytes of the first pair whose first bytes are `b`.
pub open spec fn replacement_from(table: Seq<(Vec<u8>, Vec<u8>)>, b: Seq<u8>, i: int) -> Option<Seq<u8>>
    decreases table.len() - i,
{
    if i < 0 || i >= table.len() {
        None
    } else if table[i].0@ == b {
        Some(table[i].1@)
    } else {
        replacement_from(table, b, i + 1)
    }
}

/// The value with every string whose bytes `table` maps replaced by the
/// mapped bytes (its form kept); stream payloads are not strings and stay.
pub open spec fn replace_strings_value(v: PdfValue, table: Seq<(Vec<u8>, Vec<u8>)>) -> PdfValue
    decreases v,
{
    match v {
        PdfValue::Str(b, k) => match replacement_from(table, b, 0) {
            Some(p) => PdfValue::Str(p, k),
            None => v,
        },
        PdfValue::Array(s) => PdfValue::Array(
            Seq::new(s.len(), |i: int| if 0 <= i < s.len() { replace_strings_value(s[i], table) } else { PdfValue::Null }),
        ),
        PdfValue::Dictionary(m) => PdfValue::Dictionary(replace_strings_map(m, table)),
        PdfValue::Stream(m, p) => PdfValue::Stream(replace_strings_map(m, table), p),
        _ => v,
    }
}

/// A dictionary map with the strings of every value replaced through
/// `table`.
pub open spec fn replace_strings_map(m: Map<Seq<u8>, PdfValue>, table: Seq<(Vec<u8>, Vec<u8>)>) -> Map<Seq<u8>, PdfValue>
    decreases m,
{
    Map::new(|k: Seq<u8>| m.dom().contains(k), |k: Seq<u8>| if m.dom().contains(k) && m.dom().finite() { replace_strings_value(m[k], table) } else { PdfValue::Null })
}

/// The replacement `table` holds for `b` (see [`replacement_from`]).
fn lookup_replacement(table: &[(Vec<u8>, Vec<u8>)], b: &[u8]) -> (r: Option<Vec<u8>>)
    ensures
        match r {
            Some(p) => replacement_from(table@, b@, 0) == Some(p@),
            None => replacement_from(table@, b@, 0) is None,
        },
{
    let mut i: usize = 0;
    while i < table.len()
        invariant
            i <= table@.len(),
            replacement_from(table@, b@, 0) == replacement_from(table@, b@, i as int),
        decreases table@.len() - i,
    {
        if bytes_equal(table[i].0.as_slice(), b) {
            return Some(vstd::slice::slice_to_vec(table[i].1.as_slice()));
        }
        i = i + 1;
    }
    None
}

impl Object {
    /// A copy of this object with every string whose bytes `table` maps
    /// replaced by the mapped bytes.
    pub fn replace_strings(&self, table: &[(Vec<u8>, Vec<u8>)]) -> (r: Object)
        ensures
            r.value() == replace_strings_value(self.value(), table@),
        decreases self,
    {
        match self {
            Object::String(st) => match lookup_replacement(table, st.as_bytes()) {
                Some(p) => Object::String(PdfString { bytes: p, kind: st.kind }),
                None => Object::String(st.copy()),
            },
            Object::Array(v) => {
                let mut out: Vec<Object> = Vec::new();
                let mut i: usize = 0;
                while i < v.len()
                    invariant
                        i <= v@.len(),
                        *self == Object::Array(*v),
                        out@.len() == i,
                        forall|j: int| 0 <= j < i ==> #[trigger] out@[j].value() == replace_strings_value(v@[j].value(), table@),
                    decreases v@.len() - i,
                {
                    proof {
                        assert(decreases_to!(*v => v[i as int]));
                        assert(decreases_to!(*self => (*self)->Array_0));
                        assert(decreases_to!(*self => v[i as int]));
                    }
                    out.push(v[i].replace_strings(table));
                    i = i + 1;
                }
                proof {
                    Object::lemma_array_values_index(out@, out@.len() as int);
                    Object::lemma_array_values_index(v@, v@.len() as int);
                    assert(Object::array_values(out@, out@.len() as int) =~= replace_strings_value(self.value(), table@)->Array_0);
                }
                Object::Array(out)
            },
            Object::Dictionary(d) => {
                let r = Object::Dictionary(d.replace_strings(table));
                proof {
                    assert(r.value() == replace_strings_value(self.value(), table@));
                }
                r
            },
            Object::Stream(st) => {
                let r = Object::Stream(StreamObj { dict: st.dict.replace_strings(table), data: st.data.copy() });
                proof {
                    assert(r.value() == replace_strings_value(self.value(), table@));
                }
                r
            },
            Object::Null => Object::Null,
            Object::Boolean(b) => Object::Boolean(*b),
            Object::Integer(i) => Object::Integer(*i),
            Object::Real(t) => Object::Real(vstd::slice::slice_to_vec(t.as_slice())),
            Object::Name(n) => Object::Name(n.copy()),
            Object::Reference(x) => Object::Reference(*x),
        }
    }
}

impl Dict {
    /// A copy of this dictionary with the strings of every value replaced
    /// through `table`.
    pub fn replace_strings(&self, table: &[(Vec<u8>, Vec<u8>)]) -> (r: Dict)
        ensures
            r.map() == replace_strings_map(self.map(), table@),
        decreases self,
    {
        proof {
            use_type_invariant(self);
        }
        let mut out: Vec<(Name, Object)> = Vec::new();
        let mut i: usize = 0;
        while i < self.entries.len()
            invariant
                i <= self.entries@.len(),
                out@.len() == i,
                Dict::sorted(self.entries@),
                forall|j: int| 0 <= j < i ==> (#[trigger] out@[j]).0@ == self.entries@[j].0@
                    && out@[j].1.value() == replace_strings_value(self.entries@[j].1.value(), table@),
            decreases self.entries@.len() - i,
        {
            let k = self.entries[i].0.copy();
            let v = self.entries[i].1.replace_strings(table);
            out.push((k, v));
            i = i + 1;
        }
        proof {
            let es = self.entries@;
            assert forall|a: int, b: int| 0 <= a < b < out@.len()
                implies lex_lt(#[trigger] out@[a].0@, #[trigger] out@[b].0@) by {
                assert(out@[a].0@ == es[a].0@);
                assert(out@[b].0@ == es[b].0@);
            }
            Dict::lemma_entries_map(es, es.len() as int);
            Dict::lemma_entries_map(out@, out@.len() as int);
            let m = Dict::entries_map(es, es.len() as int);
            let m2 = Dict::entries_map(out@, out@.len() as int);
            assert forall|k: Seq<u8>| m2.dom().contains(k) <==> m.dom().contains(k) by {
                if m2.dom().contains(k) {
                    let j = choose|j: int| 0 <= j < out@.len() && out@[j].0@ == k;
                    assert(es[j].0@ == k);
                }
                if m.dom().contains(k) {
                    let j = choose|j: int| 0 <= j < es.len() && es[j].0@ == k;
                    assert(out@[j].0@ == k);
                }
            }
            assert forall|k: Seq<u8>| m2.dom().contains(k) implies m2[k] == replace_strings_map(m, table@)[k] by {
                let j = choose|j: int| 0 <= j < out@.len() && out@[j].0@ == k;
                assert(es[j].0@ == k);
            }
            assert(m2 =~= replace_strings_map(m, table@));
        }
        Dict { entries: out }
    }
}

/// The byte sequences of a list of byte vectors.
pub open spec fn bytes_views(s: Seq<Vec<u8>>) -> Seq<Seq<u8>> {
    s.map_values(|v: Vec<u8>| v@)
}

impl Object {
    /// The bytes of the strings inside this object, in order of appearance
    /// (array items in order, dictionary entries in key order; a stream's
    /// dictionary, not its payload).
    pub open spec fn strings(self) -> Seq<Seq<u8>>
        decreases self, 0int,
    {
        match self {
            Object::String(s) => seq![s.bytes@],
            Object::Array(v) => Object::strings_of(v@, v@.len() as int),
            Object::Dictionary(d) => d.strings(),
            Object::Stream(s) => s.dict.strings(),
            _ => Seq::empty(),
        }
    }

    /// The strings of the first `n` objects of `v`, in order.
    pub open spec fn strings_of(v: Seq<Object>, n: int) -> Seq<Seq<u8>>
        decreases v, n,
    {
        if n <= 0 || n > v.len() {
            Seq::empty()
        } else {
            Object::strings_of(v, n - 1) + v[n - 1].strings()
        }
    }

    /// Appends the bytes of the strings inside this object onto `out`.
    pub fn collect_strings(&self, out: &mut Vec<Vec<u8>>)
        ensures
            bytes_views(final(out)@) == bytes_views(old(out)@) + self.strings(),
        decreases self,
    {
        match self {
            Object::String(st) => {
                out.push(vstd::slice::slice_to_vec(st.as_bytes()));
                proof {
                    assert(bytes_views(final(out)@) =~= bytes_views(old(out)@) + self.strings());
                }
            },
            Object::Array(v) => {
                let ghost start = bytes_views(out@);
                let mut i: usize = 0;
                while i < v.len()
                    invariant
                        i <= v@.len(),
                        *self == Object::Array(*v),
                        bytes_views(out@) == start + Object::strings_of(v@, i as int),
                    decreases v@.len() - i,
                {
                    proof {
                        assert(decreases_to!(*v => v[i as int]));
                        assert(decreases_to!(*self => (*self)->Array_0));
                        assert(decreases_to!(*self => v[i as int]));
                    }
                    let ghost before = bytes_views(out@);
                    v[i].collect_strings(out);
                    proof {
                        assert(start + Object::strings_of(v@, i + 1) =~= before + v@[i as int].strings());
                    }
                    i = i + 1;
                }
            },
            Object::Dictionary(d) => {
                d.collect_strings(out);
            },
            Object::Stream(s) => {
                s.dict.collect_strings(out);
            },
            _ => {
                proof {
                    assert(bytes_views(old(out)@) + self.strings() =~= bytes_views(old(out)@));
                }
            },
        }
    }
}

impl Dict {
    /// The strings inside the values, in key order.
    pub closed spec fn strings(self) -> Seq<Seq<u8>>
        decreases self, 0int,
    {
        Dict::entries_strings(self.entries@, self.entries@.len() as int)
    }

    /// The strings inside the values of the first `n` entries, in order.
    pub open spec fn entries_strings(es: Seq<(Name, Object)>, n: int) -> Seq<Seq<u8>>
        decreases es, n,
    {
        if n <= 0 || n > es.len() {
            Seq::empty()
        } else {
            Dict::entries_strings(es, n - 1) + es[n - 1].1.strings()
        }
    }

    /// Appends the strings inside the values onto `out`, in key order.
    pub fn collect_strings(&self, out: &mut Vec<Vec<u8>>)
        ensures
            bytes_views(final(out)@) == bytes_views(old(out)@) + self.strings(),
        decreases self,
    {
        let ghost start = bytes_views(out@);
        let mut i: usize = 0;
        while i < self.entries.len()
            invariant
                i <= self.entries@.len(),
                bytes_views(out@) == start + Dict::entries_strings(self.entries@, i as int),
            decreases self.entries@.len() - i,
        {
            let ghost before = bytes_views(out@);
            self.entries[i].1.collect_strings(out);
            proof {
                assert(start + Dict::entries_strings(self.entries@, i + 1) =~= before + self.entries@[i as int].1.strings());
            }
            i = i + 1;
        }
    }
}

// --- equality of values -------------------------------------------------------

impl Dict {
    /// Two sorted listings that build one map agree key by key on their
    /// first `n` entries.
    proof fn lemma_listing_keys_agree(a: Seq<(Name, Object)>, b: Seq<(Name, Object)>, n: int)
        requires
            Dict::sorted(a),
            Dict::sorted(b),
            a.len() == b.len(),
            Dict::entries_map(a, a.len() as int) == Dict::entries_map(b, b.len() as int),
            0 <= n <= a.len(),
        ensures
            forall|i: int| 0 <= i < n ==> (#[trigger] a[i]).0@ == b[i].0@,
        decreases n,
    {
        if n > 0 {
            Dict::lemma_listing_keys_agree(a, b, n - 1);
            Dict::lemma_entries_map(a, a.len() as int);
            Dict::lemma_entries_map(b, b.len() as int);
            let i = n - 1;
            let k1 = a[i].0@;
            let k2 = b[i].0@;
            if k1 != k2 {
                let ma = Dict::entries_map(a, a.len() as int);
                assert(ma.dom().contains(k1));
                assert(ma.dom().contains(k2));
                let j = choose|j: int| 0 <= j < b.len() && b[j].0@ == k1;
                let j2 = choose|j: int| 0 <= j < a.len() && a[j].0@ == k2;
                assert(k1.take(0) =~= k2.take(0));
                lemma_lex_total(k1, k2, 0);
                if lex_lt(k1, k2) {
                    if j < i {
                        assert(a[j].0@ == b[j].0@);
                        assert(lex_lt(a[j].0@, a[i].0@));
                        lemma_lex_irreflexive(k1, 0);
                    } else if j > i {
                        assert(lex_lt(b[i].0@, b[j].0@));
                        lemma_lex_asymmetric(k1, k2, 0);
                    }
                } else {
                    if j2 < i {
                        assert(a[j2].0@ == b[j2].0@);
                        assert(lex_lt(b[j2].0@, b[i].0@));
                        lemma_lex_irreflexive(k2, 0);
                    } else if j2 > i {
                        assert(lex_lt(a[i].0@, a[j2].0@));
                        lemma_lex_asymmetric(k2, k1, 0);
                    }
                }
            }
        }
    }

    /// Two sorted listings that build one map are the same listing, up to
    /// the values' representation.
    proof fn lemma_listing_unique(a: Seq<(Name, Object)>, b: Seq<(Name, Object)>)
        requires
            Dict::sorted(a),
            Dict::sorted(b),
            Dict::entries_map(a, a.len() as int) == Dict::entries_map(b, b.len() as int),
        ensures
            a.len() == b.len(),
            forall|i: int| 0 <= i < a.len() ==> (#[trigger] a[i]).0@ == b[i].0@ && a[i].1.value() == b[i].1.value(),
    {
        Dict::lemma_entries_map(a, a.len() as int);
        Dict::lemma_entries_map(b, b.len() as int);
        Dict::lemma_listing_keys_agree(a, b, a.len() as int);
        let m = Dict::entries_map(a, a.len() as int);
        assert forall|i: int| 0 <= i < a.len() implies (#[trigger] a[i]).0@ == b[i].0@ && a[i].1.value() == b[i].1.value() by {
            assert(m[a[i].0@] == a[i].1.value());
            assert(m[b[i].0@] == b[i].1.value());
        }
    }

    /// Whether two dictionaries map the same keys to the same values.
    pub fn same_map(&self, other: &Dict) -> (r: bool)
        ensures
            r == (self.map() == other.map()),
        decreases self,
    {
        proof {
            use_type_invariant(self);
            use_type_invariant(other);
            Dict::lemma_entries_map(self.entries@, self.entries@.len() as int);
            Dict::lemma_entries_map(other.entries@, other.entries@.len() as int);
        }
        if self.entries.len() != other.entries.len() {
            return false;
        }
        let mut i: usize = 0;
        while i < self.entries.len()
            invariant
                i <= self.entries@.len(),
                self.entries@.len() == other.entries@.len(),
                Dict::sorted(self.entries@),
                Dict::sorted(other.entries@),
                forall|j: int| 0 <= j < i ==> (#[trigger] self.entries@[j]).0@ == other.entries@[j].0@
                    && self.entries@[j].1.value() == other.entries@[j].1.value(),
            decreases self.entries@.len() - i,
        {
            let same_key = bytes_equal(self.entries[i].0.as_bytes(), other.entries[i].0.as_bytes());
            if !same_key || !self.entries[i].1.same_value(&other.entries[i].1) {
                proof {
                    if self.map() == other.map() {
                        Dict::lemma_listing_unique(self.entries@, other.entries@);
                    }
                }
                return false;
            }
            i = i + 1;
        }
        proof {
            Dict::lemma_entries_map_eq(self.entries@, other.entries@, self.entries@.len() as int);
        }
        true
    }
}

/// Whether two payloads are alike in form and bytes.
fn same_payload(a: &StreamData, b: &StreamData) -> (r: bool)
    ensures
        r == (a.payload() == b.payload()),
{
    let same_form = match (a, b) {
        (StreamData::Encoded(_), StreamData::Encoded(_)) => true,
        (StreamData::Decoded(_), StreamData::Decoded(_)) => true,
        _ => false,
    };
    same_form && bytes_equal(stream::bytes_as_slice(a.bytes()), stream::bytes_as_slice(b.bytes()))
}

impl Object {
    /// Whether two objects have the same value.
    pub fn same_value(&self, other: &Object) -> (r: bool)
        ensures
            r == (self.value() == other.value()),
        decreases self,
    {
        match self {
            Object::Null => match other {
                Object::Null => true,
                _ => false,
            },
            Object::Boolean(a) => match other {
                Object::Boolean(b) => *a == *b,
                _ => false,
            },
            Object::Integer(a) => match other {
                Object::Integer(b) => *a == *b,
                _ => false,
            },
            Object::Real(a) => match other {
                Object::Real(b) => bytes_equal(a.as_slice(), b.as_slice()),
                _ => false,
            },
            Object::String(a) => match other {
                Object::String(b) => {
                    let same_kind = match (a.kind, b.kind) {
                        (StringKind::Literal, StringKind::Literal) => true,
                        (StringKind::Hex, StringKind::Hex) => true,
                        _ => false,
                    };
                    same_kind && bytes_equal(a.as_bytes(), b.as_bytes())
                },
                _ => false,
            },
            Object::Name(a) => match other {
                Object::Name(b) => bytes_equal(a.as_bytes(), b.as_bytes()),
                _ => false,
            },
            Object::Reference(a) => match other {
                Object::Reference(b) => a.num == b.num && a.gen == b.gen,
                _ => false,
            },
            Object::Array(a) => match other {
                Object::Array(b) => {
                    proof {
                        Object::lemma_array_values_index(a@, a@.len() as int);
                        Object::lemma_array_values_index(b@, b@.len() as int);
                    }
                    if a.len() != b.len() {
                        return false;
                    }
                    let mut i: usize = 0;
                    while i < a.len()
                        invariant
                            i <= a@.len(),
                            a@.len() == b@.len(),
                            *self == Object::Array(*a),
                            *other == Object::Array(*b),
                            forall|j: int| 0 <= j < i ==> (#[trigger] a@[j]).value() == b@[j].value(),
                        decreases a@.len() - i,
                    {
                        proof {
                            assert(decreases_to!(*a => a[i as int]));
                            assert(decreases_to!(*self => (*self)->Array_0));
                            assert(decreases_to!(*self => a[i as int]));
                        }
                        if !a[i].same_value(&b[i]) {
                            proof {
                                Object::lemma_array_values_index(a@, a@.len() as int);
                                Object::lemma_array_values_index(b@, b@.len() as int);
                                assert(Object::array_values(a@, a@.len() as int)[i as int] == a@[i as int].value());
                                assert(Object::array_values(b@, b@.len() as int)[i as int] == b@[i as int].value());
                            }
                            return false;
                        }
                        i = i + 1;
                    }
                    proof {
                        assert(Object::array_values(a@, a@.len() as int) =~= Object::array_values(b@, b@.len() as int));
                    }
                    true
                },
                _ => false,
            },
            Object::Dictionary(a) => match other {
                Object::Dictionary(b) => a.same_map(b),
                _ => false,
            },
            Object::Stream(a) => match other {
                Object::Stream(b) => a.dict.same_map(&b.dict) && same_payload(&a.data, &b.data),
                _ => false,
            },
        }
    }
}

} // verus!
