//! The pending-edit overlay: created / updated / deleted indirect objects
//! layered over a document's cross-reference table as read.
//!
//! Reads consult the overlay first, so a read after a write returns what was
//! written. Object numbers for newly created objects are allocated past the
//! document's current size, so they never collide with an object the document already has.

use std::collections::BTreeMap;
use std::sync::Arc;

use vstd::prelude::*;

use crate::gc::sorted_keys;
use crate::object::stream::bytes_from_vec;
use crate::object::{Dict, ObjRef, Object, PayloadView, StreamData, StreamObj};

verus! {

/// One pending change to a single indirect object number.
#[derive(Clone, Debug, PartialEq)]
pub enum Change {
    /// The object was created or its value replaced (a `Stream` is allowed).
    Value(Arc<Object>),
    /// The object was deleted (freed): it reads back as `Null` and a full
    /// save omits it.
    Deleted,
}

impl Change {
    /// The value a change leaves behind: `Some` of the written object, or
    /// `None` for a deletion.
    pub open spec fn written(self) -> Option<Object> {
        match self {
            Change::Value(a) => Some(*a),
            Change::Deleted => None,
        }
    }
}

/// `Arc::clone`: another pointer to the same allocation, so it points to the
/// same object.
#[verifier::external_body]
pub(crate) fn arc_clone(a: &Arc<Object>) -> (r: Arc<Object>)
    ensures
        *r == **a,
{
    Arc::clone(a)
}

/// The abstract state of a change set.
pub struct ChangeSetView {
    /// Object number → the written object (`None` for a deletion).
    pub edits: Map<u32, Option<Object>>,
    /// The next number [`ChangeSet::allocate`] hands out.
    pub next_free: u32,
    /// Whether the allocator has been seeded from the document's size.
    pub seeded: bool,
}

/// `n + 1`, saturating at `u32::MAX`.
pub open spec fn sat_succ(n: u32) -> u32 {
    if n == u32::MAX { n } else { (n + 1) as u32 }
}

/// The larger of two numbers.
pub open spec fn max_u32(a: u32, b: u32) -> u32 {
    if a < b { b } else { a }
}

impl ChangeSetView {
    /// The state after recording `obj` at `num`: once seeded, the allocator
    /// moves past `num`.
    pub open spec fn set_spec(self, num: u32, obj: Object) -> ChangeSetView {
        ChangeSetView {
            edits: self.edits.insert(num, Some(obj)),
            next_free: if self.seeded { max_u32(self.next_free, sat_succ(num)) } else { self.next_free },
            seeded: self.seeded,
        }
    }

    /// The state after deleting `num`.
    pub open spec fn delete_spec(self, num: u32) -> ChangeSetView {
        ChangeSetView { edits: self.edits.insert(num, None), next_free: self.next_free, seeded: self.seeded }
    }

    /// The state after allocating a fresh number for `obj`.
    pub open spec fn allocate_spec(self, obj: Object) -> ChangeSetView {
        ChangeSetView {
            edits: self.edits.insert(self.next_free, Some(obj)),
            next_free: sat_succ(self.next_free),
            seeded: self.seeded,
        }
    }

    /// The state after seeding the allocator from the document's size
    /// (only the first seeding counts).
    pub open spec fn seed_spec(self, xref_length: u32) -> ChangeSetView {
        if self.seeded {
            self
        } else {
            ChangeSetView { edits: self.edits, next_free: max_u32(xref_length, 1), seeded: true }
        }
    }

    /// Whether `h` is one past the highest number the overlay touches: the
    /// larger of the allocator's next number and every edited number plus one.
    pub open spec fn is_high_water(self, h: u32) -> bool {
        &&& h >= self.next_free
        &&& forall|k: u32| self.edits.contains_key(k) ==> h >= sat_succ(k)
        &&& (h == self.next_free || exists|k: u32| self.edits.contains_key(k) && h == sat_succ(k))
    }
}

/// The pending-edit overlay on a document.
///
/// Keyed by object number (generation is always 0 for authored objects).
/// Empty when created; [`ChangeSet::is_dirty`] is `false` then.
#[derive(Clone, Debug)]
pub struct ChangeSet {
    changes: BTreeMap<u32, Change>,
    next_free: u32,
    seeded: bool,
}

impl View for ChangeSet {
    type V = ChangeSetView;

    closed spec fn view(&self) -> ChangeSetView {
        ChangeSetView {
            edits: self.changes@.map_values(|c: Change| c.written()),
            next_free: self.next_free,
            seeded: self.seeded,
        }
    }
}

impl Default for ChangeSet {
    fn default() -> (r: Self)
        ensures
            r@.edits == Map::<u32, Option<Object>>::empty(),
            r@.next_free == 0,
            !r@.seeded,
    {
        ChangeSet::new()
    }
}

impl ChangeSet {
    /// The overlay's entries as they are stored.
    pub closed spec fn entries(&self) -> Map<u32, Change> {
        self.changes@
    }

    /// The entries determine the view's edits.
    pub proof fn lemma_entries_edits(&self)
        ensures
            self@.edits.dom() == self.entries().dom(),
            forall|k: u32| #[trigger] self.entries().contains_key(k) ==> self@.edits[k] == self.entries()[k].written(),
    {
        assert(self@.edits.dom() =~= self.entries().dom());
    }

    /// A fresh, empty change set.
    pub fn new() -> (r: Self)
        ensures
            r@.edits == Map::<u32, Option<Object>>::empty(),
            r@.next_free == 0,
            !r@.seeded,
    {
        let r = ChangeSet { changes: BTreeMap::new(), next_free: 0, seeded: false };
        proof {
            assert(r@.edits =~= Map::<u32, Option<Object>>::empty());
        }
        r
    }

    /// Whether any edit is pending.
    pub fn is_dirty(&self) -> (r: bool)
        ensures
            r == !self@.edits.is_empty(),
    {
        let r = !self.changes.is_empty();
        proof {
            if r {
                let k = choose|k: u32| self.changes@.contains_key(k);
                assert(self@.edits.contains_key(k));
            } else {
                assert(self@.edits.dom() =~= Set::<u32>::empty());
            }
        }
        r
    }

    /// An independent copy of the overlay, for journal snapshots.
    pub fn snapshot(&self) -> (r: ChangeSet)
        ensures
            r@ == self@,
            r.entries() == self.entries(),
    {
        ChangeSet { changes: self.changes.clone(), next_free: self.next_free, seeded: self.seeded }
    }

    /// The pending changes in object-number order.
    pub fn changes(&self) -> (r: &BTreeMap<u32, Change>)
        ensures
            r@ == self.entries(),
    {
        &self.changes
    }

    /// Seeds the allocator's high-water mark from the document's current
    /// `/Size` (max object number + 1) the first time. Idempotent.
    pub fn seed(&mut self, xref_length: u32)
        ensures
            final(self)@ == old(self)@.seed_spec(xref_length),
    {
        if !self.seeded {
            self.next_free = if xref_length < 1 { 1 } else { xref_length };
            self.seeded = true;
        }
    }

    /// Allocates the next free object number and records `obj` under it.
    /// Returns the allocated reference (generation 0).
    pub fn allocate(&mut self, obj: Object) -> (r: ObjRef)
        ensures
            r.num == old(self)@.next_free,
            r.gen == 0,
            final(self)@ == old(self)@.allocate_spec(obj),
    {
        let num = self.next_free;
        self.next_free = self.next_free.saturating_add(1);
        self.changes.insert(num, Change::Value(Arc::new(obj)));
        proof {
            assert(self@.edits =~= old(self)@.edits.insert(num, Some(obj)));
        }
        ObjRef::new(num, 0)
    }

    /// Records a value replacement (or creation) at object number `num`.
    pub fn set(&mut self, num: u32, obj: Object)
        ensures
            final(self)@ == old(self)@.set_spec(num, obj),
    {
        self.changes.insert(num, Change::Value(Arc::new(obj)));
        if self.seeded {
            let past = num.saturating_add(1);
            if self.next_free < past {
                self.next_free = past;
            }
        }
        proof {
            assert(self@.edits =~= old(self)@.edits.insert(num, Some(obj)));
        }
    }

    /// Records a stream replacement: a new dictionary and body, held as
    /// already-filtered bytes when `encoded`, else as decoded bytes (to be
    /// compressed on save).
    pub fn set_stream(&mut self, num: u32, dict: Dict, body: Vec<u8>, encoded: bool)
        ensures
            final(self)@.edits.contains_key(num),
            final(self)@.edits[num] matches Some(Object::Stream(st)) && st.dict == dict
                && st.data.payload() == (PayloadView { decoded: !encoded, bytes: body@ }),
            final(self)@ == old(self)@.set_spec(num, final(self)@.edits[num]->Some_0),
    {
        let ghost b = body@;
        let data = if encoded {
            StreamData::Encoded(bytes_from_vec(body))
        } else {
            StreamData::Decoded(bytes_from_vec(body))
        };
        let stream = Object::Stream(StreamObj { dict, data });
        self.set(num, stream);
    }

    /// Records a deletion of object `num`.
    pub fn delete(&mut self, num: u32)
        ensures
            final(self)@ == old(self)@.delete_spec(num),
    {
        self.changes.insert(num, Change::Deleted);
        proof {
            assert(self@.edits =~= old(self)@.edits.insert(num, None));
        }
    }

    /// The pending change for object `num`, if any.
    pub fn get(&self, num: u32) -> (r: Option<&Change>)
        ensures
            r is Some <==> self@.edits.contains_key(num),
            r matches Some(c) ==> c.written() == self@.edits[num],
    {
        self.changes.get(&num)
    }

    /// One past the highest object number this overlay touches (created,
    /// updated, deleted or reserved by [`ChangeSet::allocate`]), or the
    /// allocator's next number if that is larger.
    pub fn high_water(&self) -> (r: u32)
        ensures
            self@.is_high_water(r),
    {
        let keys = sorted_keys(&self.changes);
        let by_changes: u32 = if keys.len() == 0 { 0 } else { keys[keys.len() - 1].saturating_add(1) };
        let r = if by_changes < self.next_free { self.next_free } else { by_changes };
        proof {
            assert(self@.edits.dom() == self.changes@.dom());
            if keys@.len() > 0 {
                let last = keys@[keys@.len() - 1];
                assert(keys@.to_set().contains(last));
                assert forall|k: u32| self@.edits.contains_key(k) implies r >= sat_succ(k) by {
                    assert(keys@.to_set().contains(k));
                    let i = choose|i: int| 0 <= i < keys@.len() && keys@[i] == k;
                    assert(i == keys@.len() - 1 || keys@[i] < last);
                }
                assert(self@.edits.contains_key(last));
            } else {
                assert forall|k: u32| self@.edits.contains_key(k) implies r >= sat_succ(k) by {
                    assert(keys@.to_set().contains(k));
                }
            }
        }
        r
    }
}

/// Read after write: recording `obj` at `num` makes `num` read back as
/// `obj`, and leaves every other number as it was.
pub proof fn law_read_after_write(s: ChangeSetView, num: u32, obj: Object, other: u32)
    ensures
        s.set_spec(num, obj).edits.contains_key(num),
        s.set_spec(num, obj).edits[num] == Some(obj),
        other != num ==> s.set_spec(num, obj).edits.get(other) == s.edits.get(other),
{
}

/// A deleted number reads back as deleted, and other numbers are untouched.
pub proof fn law_read_after_delete(s: ChangeSetView, num: u32, other: u32)
    ensures
        s.delete_spec(num).edits.contains_key(num),
        s.delete_spec(num).edits[num] == None::<Object>,
        other != num ==> s.delete_spec(num).edits.get(other) == s.edits.get(other),
{
}

/// Once the allocator is seeded, no operation lowers its next number: every
/// later allocation is at or past the document's size at seeding time.
pub proof fn law_allocation_floor(s: ChangeSetView, floor: u32, num: u32, obj: Object, xref_length: u32)
    requires
        s.seeded,
        s.next_free >= floor,
    ensures
        s.set_spec(num, obj).next_free >= floor,
        s.delete_spec(num).next_free >= floor,
        s.allocate_spec(obj).next_free >= floor,
        s.seed_spec(xref_length) == s,
{
}

/// Seeding an unseeded allocator puts its next number at or past the
/// document's size, and never at 0.
pub proof fn law_seed_floor(s: ChangeSetView, xref_length: u32)
    requires
        !s.seeded,
    ensures
        s.seed_spec(xref_length).seeded,
        s.seed_spec(xref_length).next_free >= xref_length,
        s.seed_spec(xref_length).next_free >= 1,
{
}

/// Once seeded, recording an object at a number below `u32::MAX` moves the
/// allocator past it, so a later allocation cannot reuse that number.
pub proof fn law_set_reserves_number(s: ChangeSetView, num: u32, obj: Object)
    requires
        s.seeded,
        num < u32::MAX,
    ensures
        s.set_spec(num, obj).next_free > num,
{
}

/// Two allocations in a row hand out different numbers, unless the
/// allocator is saturated at `u32::MAX`.
pub proof fn law_allocations_distinct(s: ChangeSetView, a: Object)
    requires
        s.next_free < u32::MAX,
    ensures
        s.allocate_spec(a).next_free != s.next_free,
{
}

} // verus!
