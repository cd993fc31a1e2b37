//! A de-duplicating pool of [`Name`]s.
//!
//! Documents reuse a small set of name keys (`/Type`, `/Pages`, `/Contents`,
//! …) thousands of times; the pool keeps one canonical copy of each distinct
//! byte sequence and hands out copies of it.

use vstd::prelude::*;

use crate::object::name::bytes_equal;
use crate::object::Name;

verus! {

/// A de-duplicating pool of [`Name`]s: each distinct byte sequence is held
/// once.
pub struct NameInterner {
    pool: Vec<Name>,
}

impl NameInterner {
    /// The byte sequences pooled, in order of first sight.
    pub closed spec fn seq(self) -> Seq<Seq<u8>> {
        Seq::new(self.pool@.len(), |i: int| self.pool@[i]@)
    }

    /// The set of distinct names pooled.
    pub open spec fn names(self) -> Set<Seq<u8>> {
        self.seq().to_set()
    }

    #[verifier::type_invariant]
    closed spec fn inv(self) -> bool {
        self.seq().no_duplicates()
    }

    /// A fresh, empty interner.
    pub fn new() -> (r: NameInterner)
        ensures
            r.seq() == Seq::<Seq<u8>>::empty(),
    {
        let r = NameInterner { pool: Vec::new() };
        assert(r.seq() =~= Seq::<Seq<u8>>::empty());
        r
    }

    /// The canonical name for `name`'s bytes, pooled on first sight: the
    /// result has `name`'s bytes; the pool grows by one entry exactly when
    /// the bytes were not pooled yet.
    pub fn intern(&mut self, name: &Name) -> (r: Name)
        ensures
            r@ == name@,
            old(self).seq().contains(name@) ==> final(self).seq() == old(self).seq(),
            !old(self).seq().contains(name@) ==> final(self).seq() == old(self).seq().push(name@),
    {
        proof {
            use_type_invariant(&*self);
        }
        let mut i: usize = 0;
        while i < self.pool.len()
            invariant
                i <= self.pool@.len(),
                forall|j: int| 0 <= j < i ==> self.pool@[j]@ != name@,
            decreases self.pool@.len() - i,
        {
            if bytes_equal(self.pool[i].as_bytes(), name.as_bytes()) {
                proof {
                    assert(self.seq()[i as int] == name@);
                }
                return self.pool[i].copy();
            }
            i = i + 1;
        }
        proof {
            assert forall|j: int| 0 <= j < self.seq().len() implies self.seq()[j] != name@ by {
                assert(self.seq()[j] == self.pool@[j]@);
            }
        }
        let ghost before = self.seq();
        let mut pool: Vec<Name> = Vec::new();
        std::mem::swap(&mut pool, &mut self.pool);
        pool.push(name.copy());
        proof {
            let after = Seq::new(pool@.len(), |k: int| pool@[k]@);
            assert(after =~= before.push(name@));
            assert forall|a: int, b: int| 0 <= a < b < after.len() implies after[a] != after[b] by {
                if b == after.len() - 1 {
                    assert(after[a] == before[a]);
                }
            }
        }
        self.pool = pool;
        name.copy()
    }

    /// Interns directly from decoded bytes.
    pub fn intern_bytes(&mut self, bytes: &[u8]) -> (r: Name)
        ensures
            r@ == bytes@,
            old(self).seq().contains(bytes@) ==> final(self).seq() == old(self).seq(),
            !old(self).seq().contains(bytes@) ==> final(self).seq() == old(self).seq().push(bytes@),
    {
        let name = Name::from_decoded(vstd::slice::slice_to_vec(bytes));
        self.intern(&name)
    }

    /// The number of distinct names pooled.
    pub fn len(&self) -> (r: usize)
        ensures
            r == self.names().len(),
    {
        proof {
            use_type_invariant(self);
            self.seq().unique_seq_to_set();
        }
        self.pool.len()
    }

    /// `true` when nothing has been interned yet.
    pub fn is_empty(&self) -> (r: bool)
        ensures
            r == (self.names().len() == 0),
    {
        self.len() == 0
    }
}

/// Interning is idempotent: a name already pooled leaves the pool as it is,
/// and the pool never holds the same bytes twice.
pub proof fn law_intern_idempotent(before: Seq<Seq<u8>>, after: Seq<Seq<u8>>, again: Seq<Seq<u8>>, n: Seq<u8>)
    requires
        !before.contains(n) ==> after == before.push(n),
        before.contains(n) ==> after == before,
        after.contains(n) ==> again == after,
    ensures
        again == after,
        after.contains(n),
{
    if !before.contains(n) {
        assert(after[after.len() - 1] == n);
    }
}

} // verus!
