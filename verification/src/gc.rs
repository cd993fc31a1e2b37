//! Garbage collection over a save-time snapshot of the object set.
//!
//! The collector takes the effective object map (object number → object)
//! plus the trailer roots and returns the surviving map with the (possibly
//! renumbered) `/Root`, `/Info` and `/Encrypt` references:
//!
//! - level 1, mark-sweep: keep exactly the objects reachable from the roots
//!   through references;
//! - level 2, also renumber the survivors densely to `1..=n` in ascending
//!   order, rewriting every reference consistently;
//! - level 3, before renumbering, merge the survivors that are identical
//!   (equal values; never the objects whose identity matters, such as
//!   pages, the catalog or the `/Encrypt` dictionary) into the
//!   smallest-numbered one;
//! - level 4, merge identical streams too (dictionary without `/Length`
//!   plus body bytes).

use std::collections::{BTreeMap, BTreeSet};

use vstd::prelude::*;
use vstd::string::StringSliceAdditionalSpecFns;
use vstd::std_specs::cmp::OrdSpec;
use vstd::std_specs::iter::IteratorSpec;

use crate::encrypt::dict_of;
use crate::filters::entry;
use crate::object::name::bytes_equal;
use crate::object::stream::bytes_as_slice;
use crate::object::{law_refs_cover_value, remap_value, value_has_ref, Name, Object, PayloadView, PdfValue};

verus! {

/// The trailer roots that anchor reachability: each an optional object
/// number.
#[derive(Copy, Clone, Debug, Default, PartialEq, Eq, Structural)]
pub struct Roots {
    /// `/Root`, the document catalog.
    pub root: Option<u32>,
    /// `/Info`, the document information dictionary, if indirect.
    pub info: Option<u32>,
    /// `/Encrypt`, the security handler dictionary, if indirect.
    pub encrypt: Option<u32>,
}

/// The numbers an optional root holds.
pub open spec fn opt_set(o: Option<u32>) -> Set<u32> {
    match o {
        Some(n) => set![n],
        None => Set::empty(),
    }
}

/// The root object numbers.
pub open spec fn root_set(r: Roots) -> Set<u32> {
    opt_set(r.root) + opt_set(r.info) + opt_set(r.encrypt)
}

/// The objects that object `n` refers to (none when `n` is absent).
pub open spec fn succ(m: Map<u32, Object>, n: u32) -> Set<u32> {
    if m.dom().contains(n) {
        m[n].refs().to_set()
    } else {
        Set::empty()
    }
}

/// `p` is a chain of references starting at a root.
pub open spec fn is_path(m: Map<u32, Object>, roots: Set<u32>, p: Seq<u32>) -> bool {
    &&& p.len() > 0
    &&& roots.contains(p[0])
    &&& forall|i: int| 1 <= i < p.len() ==> #[trigger] succ(m, p[i - 1]).contains(p[i])
}

/// Object `n` can be reached from a root by following references.
pub open spec fn reachable(m: Map<u32, Object>, roots: Set<u32>, n: u32) -> bool {
    exists|p: Seq<u32>| #[trigger] is_path(m, roots, p) && p.last() == n
}

/// Every number that occurs as a root or as a reference of some object.
pub open spec fn universe(m: Map<u32, Object>, roots: Set<u32>) -> Set<u32> {
    roots + m.dom().map(|n: u32| succ(m, n)).flatten()
}

/// The universe of a finite map is finite.
proof fn lemma_universe_finite(m: Map<u32, Object>, roots: Set<u32>)
    requires
        m.dom().finite(),
        roots.finite(),
    ensures
        universe(m, roots).finite(),
{
    let f = |n: u32| succ(m, n);
    m.dom().lemma_map_finite(f);
    assert forall|s: Set<u32>| m.dom().map(f).contains(s) implies #[trigger] s.finite() by {
        let n = choose|n: u32| m.dom().contains(n) && f(n) == s;
        vstd::seq_lib::seq_to_set_is_finite(m[n].refs());
    }
    m.dom().map(f).lemma_flatten_finite();
}

/// A set holding the roots and closed under references holds everything
/// reachable.
proof fn lemma_closed_holds_reachable(m: Map<u32, Object>, roots: Set<u32>, s: Set<u32>, p: Seq<u32>, k: int)
    requires
        roots.subset_of(s),
        forall|n: u32| s.contains(n) ==> #[trigger] succ(m, n).subset_of(s),
        is_path(m, roots, p),
        0 <= k < p.len(),
    ensures
        s.contains(p[k]),
    decreases k,
{
    if k > 0 {
        lemma_closed_holds_reachable(m, roots, s, p, k - 1);
        assert(succ(m, p[k - 1]).contains(p[k]));
        assert(succ(m, p[k - 1]).subset_of(s));
    }
}

/// Every object number referred to by `obj`, in order.
pub fn referenced_objects(obj: &Object) -> (r: Vec<u32>)
    ensures
        r@ == obj.refs(),
        forall|n: u32| r@.contains(n) <==> value_has_ref(obj.value(), n),
{
    let mut out: Vec<u32> = Vec::new();
    obj.collect_refs(&mut out);
    proof {
        assert(out@ =~= obj.refs());
        assert forall|n: u32| value_has_ref(obj.value(), n) implies out@.contains(n) by {
            law_refs_cover_value(*obj, n);
        }
    }
    out
}

/// The object numbers reachable from the roots: a number is in the result
/// exactly when a chain of references leads to it from a root. Each number
/// occurs once.
pub fn mark_sweep(objects: &BTreeMap<u32, Object>, roots: Roots) -> (kept: Vec<u32>)
    ensures
        kept@.no_duplicates(),
        forall|n: u32| kept@.contains(n) <==> reachable(objects@, root_set(roots), n),
{
    let ghost m = objects@;
    let ghost rs = root_set(roots);
    let ghost u = universe(m, rs);
    proof {
        lemma_universe_finite(m, rs);
    }
    let mut seen: BTreeSet<u32> = BTreeSet::new();
    let mut kept: Vec<u32> = Vec::new();
    let mut stack: Vec<u32> = Vec::new();
    let ghost mut sset: Set<u32> = Set::empty();
    proof {
        assert(stack@.to_set() =~= sset);
    }
    match roots.root {
        Some(n) => {
            let ghost sb = stack@;
            stack.push(n);
            proof {
                sb.lemma_push_to_set_commute(n);
                sset = sset.insert(n);
            }
        },
        None => {},
    }
    match roots.info {
        Some(n) => {
            let ghost sb = stack@;
            stack.push(n);
            proof {
                sb.lemma_push_to_set_commute(n);
                sset = sset.insert(n);
            }
        },
        None => {},
    }
    match roots.encrypt {
        Some(n) => {
            let ghost sb = stack@;
            stack.push(n);
            proof {
                sb.lemma_push_to_set_commute(n);
                sset = sset.insert(n);
            }
        },
        None => {},
    }
    proof {
        assert(sset =~= rs);
        assert(stack@.to_set() =~= rs);
        assert forall|x: u32| stack@.to_set().contains(x) implies u.contains(x) && reachable(m, rs, x) by {
            assert(is_path(m, rs, seq![x]));
        }
        assert(kept@.to_set() =~= seen@);
    }
    while stack.len() > 0
        invariant
            m == objects@,
            rs == root_set(roots),
            u == universe(m, rs),
            u.finite(),
            seen@ == kept@.to_set(),
            kept@.no_duplicates(),
            seen@.subset_of(u),
            forall|x: u32| #[trigger] stack@.to_set().contains(x) ==> u.contains(x) && reachable(m, rs, x),
            forall|n: u32| seen@.contains(n) ==> reachable(m, rs, n),
            forall|n: u32| rs.contains(n) ==> seen@.contains(n) || stack@.to_set().contains(n),
            forall|n: u32, r: u32| seen@.contains(n) && #[trigger] succ(m, n).contains(r)
                ==> seen@.contains(r) || stack@.to_set().contains(r),
        decreases u.len() - seen@.len(), stack@.len(),
    {
        let ghost old_st = stack@;
        let num = stack.pop().unwrap();
        let ghost st = stack@;
        proof {
            assert(old_st == st.push(num));
            st.lemma_push_to_set_commute(num);
            vstd::set_lib::lemma_len_subset(seen@, u);
            assert(old_st.to_set().contains(num));
            assert(reachable(m, rs, num));
            assert(u.contains(num));
            assert forall|x: u32| #[trigger] st.to_set().contains(x) implies u.contains(x) && reachable(m, rs, x) by {
                assert(old_st.to_set().contains(x));
            }
        }
        if seen.contains(&num) {
            continue;
        }
        let ghost kept_before = kept@;
        seen.insert(num);
        kept.push(num);
        proof {
            kept_before.lemma_push_to_set_commute(num);
            vstd::set_lib::lemma_len_subset(seen@, u);
        }
        match objects.get(&num) {
            Some(obj) => {
                let refs = referenced_objects(obj);
                let ghost mut pushed: Set<u32> = Set::empty();
                let mut i: usize = 0;
                while i < refs.len()
                    invariant
                        i <= refs@.len(),
                        refs@ == m[num].refs(),
                        m.dom().contains(num),
                        reachable(m, rs, num),
                        u == universe(m, rs),
                        stack@.to_set() == st.to_set() + pushed,
                        forall|x: u32| pushed.contains(x) ==> u.contains(x) && reachable(m, rs, x),
                        forall|x: u32| #[trigger] st.to_set().contains(x) ==> u.contains(x) && reachable(m, rs, x),
                        forall|j: int| 0 <= j < i ==> seen@.contains(#[trigger] refs@[j]) || pushed.contains(refs@[j]),
                    decreases refs@.len() - i,
                {
                    let r = refs[i];
                    proof {
                        assert(succ(m, num).contains(r)) by {
                            assert(m[num].refs().contains(r));
                        }
                        let p = choose|p: Seq<u32>| #[trigger] is_path(m, rs, p) && p.last() == num;
                        assert(is_path(m, rs, p.push(r)));
                        assert(u.contains(r)) by {
                            let f = |n: u32| succ(m, n);
                            assert(m.dom().map(f).contains(succ(m, num)));
                        }
                    }
                    if !seen.contains(&r) {
                        let ghost sb = stack@;
                        stack.push(r);
                        proof {
                            sb.lemma_push_to_set_commute(r);
                            pushed = pushed.insert(r);
                            assert(stack@.to_set() =~= st.to_set() + pushed);
                        }
                    }
                    i = i + 1;
                }
                proof {
                    assert forall|x: u32| #[trigger] stack@.to_set().contains(x) implies u.contains(x) && reachable(m, rs, x) by {
                        if !st.to_set().contains(x) {
                            assert(pushed.contains(x));
                        }
                    }
                    assert forall|r: u32| #[trigger] succ(m, num).contains(r) implies seen@.contains(r) || stack@.to_set().contains(r) by {
                        let j = choose|j: int| 0 <= j < refs@.len() && refs@[j] == r;
                        assert(seen@.contains(refs@[j]) || pushed.contains(refs@[j]));
                    }
                }
            },
            None => {},
        }
    }
    proof {
        assert forall|n: u32| reachable(m, rs, n) implies kept@.contains(n) by {
            let p = choose|p: Seq<u32>| #[trigger] is_path(m, rs, p) && p.last() == n;
            assert forall|x: u32| seen@.contains(x) implies #[trigger] succ(m, x).subset_of(seen@) by {}
            lemma_closed_holds_reachable(m, rs, seen@, p, p.len() - 1);
            assert(kept@.to_set().contains(n));
        }
        assert forall|n: u32| kept@.contains(n) implies reachable(m, rs, n) by {
            assert(kept@.to_set().contains(n));
        }
    }
    kept
}

/// The key sequence of a map iterates in increasing order.
proof fn lemma_increasing_keys(ks: Seq<&u32>)
    requires
        vstd::std_specs::btree::increasing_seq(ks),
    ensures
        forall|i: int, j: int| 0 <= i < j < ks.len() ==> *ks[i] < *ks[j],
{
    assert(vstd::laws_cmp::obeys_cmp::<&u32>());
    vstd::std_specs::btree::axiom_increasing_seq_meaning(ks);
    assert forall|i: int, j: int| 0 <= i < j < ks.len() implies *ks[i] < *ks[j] by {
        let a: &u32 = ks[i];
        let b: &u32 = ks[j];
        assert((&a).cmp_spec(&&b) is Less);
    }
}

/// The keys of `m` in increasing order.
pub(crate) fn sorted_keys<V>(m: &BTreeMap<u32, V>) -> (r: Vec<u32>)
    ensures
        r@.to_set() == m@.dom(),
        r@.no_duplicates(),
        forall|i: int, j: int| 0 <= i < j < r@.len() ==> r@[i] < r@[j],
{
    let mut out: Vec<u32> = Vec::new();
    let ghost ks = vstd::std_specs::btree::spec_keys_iter(m).remaining();
    for k in it: m.keys()
        invariant
            it.seq() == ks,
            out@ == it.seq().take(it.index() as int).map_values(|x: &u32| *x),
    {
        out.push(*k);
        proof {
            assert(it.seq().take(it.index() + 1).map_values(|x: &u32| *x) =~= it.seq().take(it.index() as int).map_values(|x: &u32| *x).push(*k));
        }
    }
    proof {
        assert(out@ =~= ks.map_values(|x: &u32| *x));
        assert(out@ =~= ks.unref());
        lemma_increasing_keys(ks);
    }
    out
}

/// The object numbers reachable from the roots.
pub open spec fn reach_set(m: Map<u32, Object>, roots: Roots) -> Set<u32> {
    Set::new(|n: u32| reachable(m, root_set(roots), n))
}

/// The entries of `objects` whose number is in `kept`.
pub fn sweep(objects: BTreeMap<u32, Object>, kept: &Vec<u32>) -> (r: BTreeMap<u32, Object>)
    ensures
        r@ == objects@.restrict(kept@.to_set()),
{
    let ghost orig = objects@;
    let mut objects = objects;
    let mut out: BTreeMap<u32, Object> = BTreeMap::new();
    let mut i: usize = 0;
    while i < kept.len()
        invariant
            i <= kept@.len(),
            out@ == orig.restrict(kept@.take(i as int).to_set()),
            objects@ == orig.remove_keys(kept@.take(i as int).to_set()),
        decreases kept@.len() - i,
    {
        let n = kept[i];
        let ghost before = kept@.take(i as int);
        proof {
            assert(kept@.take(i + 1) == before.push(n));
            before.lemma_push_to_set_commute(n);
        }
        match objects.remove(&n) {
            Some(o) => {
                out.insert(n, o);
            },
            None => {},
        }
        proof {
            assert(out@ =~= orig.restrict(kept@.take(i + 1).to_set()));
            assert(objects@ =~= orig.remove_keys(kept@.take(i + 1).to_set()));
        }
        i = i + 1;
    }
    proof {
        assert(kept@.take(kept@.len() as int) == kept@);
    }
    out
}

/// A dense renumbering of the keys of `objects`: the keys, in ascending
/// order, become `1..=n`.
pub fn dense_remap(objects: &BTreeMap<u32, Object>) -> (r: BTreeMap<u32, u32>)
    requires
        objects@.dom().len() < 0xffff_ffff,
    ensures
        r@.dom() == objects@.dom(),
        forall|k: u32| #[trigger] r@.contains_key(k) ==> 1 <= r@[k] <= objects@.dom().len(),
        forall|a: u32, b: u32| r@.contains_key(a) && r@.contains_key(b) && a < b ==> #[trigger] r@[a] < #[trigger] r@[b],
{
    let keys = sorted_keys(objects);
    proof {
        keys@.unique_seq_to_set();
    }
    let mut remap: BTreeMap<u32, u32> = BTreeMap::new();
    let mut i: usize = 0;
    while i < keys.len()
        invariant
            i <= keys@.len(),
            keys@.len() == objects@.dom().len(),
            keys@.len() < 0xffff_ffff,
            keys@.to_set() == objects@.dom(),
            forall|a: int, b: int| 0 <= a < b < keys@.len() ==> keys@[a] < keys@[b],
            remap@.dom() == keys@.take(i as int).to_set(),
            forall|j: int| 0 <= j < i ==> #[trigger] remap@[keys@[j]] == j + 1,
        decreases keys@.len() - i,
    {
        let k = keys[i];
        let ghost before = keys@.take(i as int);
        proof {
            assert(keys@.take(i + 1) == before.push(k));
            before.lemma_push_to_set_commute(k);
        }
        remap.insert(k, (i + 1) as u32);
        proof {
            assert forall|j: int| 0 <= j < i + 1 implies #[trigger] remap@[keys@[j]] == j + 1 by {
                if j < i {
                    assert(keys@[j] != k);
                }
            }
        }
        i = i + 1;
    }
    proof {
        assert(keys@.take(keys@.len() as int) == keys@);
        assert forall|x: u32| #[trigger] remap@.contains_key(x) implies 1 <= remap@[x] <= objects@.dom().len() by {
            let j = choose|j: int| 0 <= j < keys@.len() && keys@[j] == x;
        }
        assert forall|a: u32, b: u32| remap@.contains_key(a) && remap@.contains_key(b) && a < b implies #[trigger] remap@[a] < #[trigger] remap@[b] by {
            let ja = choose|j: int| 0 <= j < keys@.len() && keys@[j] == a;
            let jb = choose|j: int| 0 <= j < keys@.len() && keys@[j] == b;
            if ja >= jb {
                if ja > jb {
                    assert(keys@[jb] < keys@[ja]);
                }
            }
        }
    }
    remap
}

/// Where renumbering `f` sends object number `n`: its image, or `n` itself
/// when `f` does not map it.
pub open spec fn target(f: Map<u32, u32>, n: u32) -> u32 {
    if f.contains_key(n) { f[n] } else { n }
}

/// Rewrites the three trailer roots through `remap`.
pub fn remap_roots(roots: &mut Roots, remap: &BTreeMap<u32, u32>)
    ensures
        final(roots).root == (match old(roots).root { Some(n) => Some(target(remap@, n)), None => None }),
        final(roots).info == (match old(roots).info { Some(n) => Some(target(remap@, n)), None => None }),
        final(roots).encrypt == (match old(roots).encrypt { Some(n) => Some(target(remap@, n)), None => None }),
{
    roots.root = match roots.root {
        Some(n) => Some(lookup_or_self(remap, n)),
        None => None,
    };
    roots.info = match roots.info {
        Some(n) => Some(lookup_or_self(remap, n)),
        None => None,
    };
    roots.encrypt = match roots.encrypt {
        Some(n) => Some(lookup_or_self(remap, n)),
        None => None,
    };
}

/// The image of `n` under `remap`, or `n` itself.
fn lookup_or_self(remap: &BTreeMap<u32, u32>, n: u32) -> (r: u32)
    ensures
        r == target(remap@, n),
{
    match remap.get(&n) {
        Some(v) => *v,
        None => n,
    }
}

/// Moves every object to its number under `remap` and rewrites every
/// reference through it; `remap` must not send two objects to one number.
fn apply_renumber(objects: BTreeMap<u32, Object>, remap: &BTreeMap<u32, u32>) -> (r: BTreeMap<u32, Object>)
    requires
        forall|a: u32, b: u32| objects@.contains_key(a) && objects@.contains_key(b) && a != b
            ==> #[trigger] target(remap@, a) != #[trigger] target(remap@, b),
    ensures
        forall|n: u32| r@.contains_key(n) <==> exists|k: u32| objects@.contains_key(k) && #[trigger] target(remap@, k) == n,
        forall|k: u32| #[trigger] objects@.contains_key(k) ==> r@.contains_key(target(remap@, k))
            && r@[target(remap@, k)].value() == remap_value(objects@[k].value(), remap@),
{
    let ghost orig = objects@;
    let keys = sorted_keys(&objects);
    let mut objects = objects;
    let mut out: BTreeMap<u32, Object> = BTreeMap::new();
    let mut i: usize = 0;
    while i < keys.len()
        invariant
            i <= keys@.len(),
            keys@.to_set() == orig.dom(),
            keys@.no_duplicates(),
            forall|a: u32, b: u32| orig.contains_key(a) && orig.contains_key(b) && a != b
                ==> #[trigger] target(remap@, a) != #[trigger] target(remap@, b),
            objects@ == orig.remove_keys(keys@.take(i as int).to_set()),
            forall|n: u32| out@.contains_key(n) <==> exists|j: int| 0 <= j < i && #[trigger] target(remap@, keys@[j]) == n,
            forall|j: int| 0 <= j < i ==> #[trigger] out@[target(remap@, keys@[j])].value() == remap_value(orig[keys@[j]].value(), remap@),
        decreases keys@.len() - i,
    {
        let k = keys[i];
        let ghost before = keys@.take(i as int);
        proof {
            assert(keys@.take(i + 1) == before.push(k));
            before.lemma_push_to_set_commute(k);
            assert(keys@.to_set().contains(k));
            assert(!before.contains(k)) by {
                if before.contains(k) {
                    let j = choose|j: int| 0 <= j < before.len() && before[j] == k;
                    assert(keys@[j] == keys@[i as int]);
                }
            }
        }
        let obj = objects.remove(&k).unwrap();
        let new = lookup_or_self(remap, k);
        out.insert(new, obj.remap(remap));
        proof {
            assert forall|j: int| 0 <= j < i implies target(remap@, keys@[j]) != new by {
                assert(keys@[j] != k);
                assert(orig.contains_key(keys@[j]));
            }
            assert forall|n: u32| out@.contains_key(n) <==> exists|j: int| 0 <= j < i + 1 && #[trigger] target(remap@, keys@[j]) == n by {
                if out@.contains_key(n) && n != new {
                    let j = choose|j: int| 0 <= j < i && #[trigger] target(remap@, keys@[j]) == n;
                }
                if n == new {
                    assert(target(remap@, keys@[i as int]) == n);
                }
            }
            assert(objects@ =~= orig.remove_keys(keys@.take(i + 1).to_set()));
        }
        i = i + 1;
    }
    proof {
        assert(keys@.take(keys@.len() as int) == keys@);
        assert forall|n: u32| out@.contains_key(n) <==> exists|k: u32| orig.contains_key(k) && #[trigger] target(remap@, k) == n by {
            if out@.contains_key(n) {
                let j = choose|j: int| 0 <= j < keys@.len() && #[trigger] target(remap@, keys@[j]) == n;
                assert(orig.contains_key(keys@[j]));
            }
            if exists|k: u32| orig.contains_key(k) && #[trigger] target(remap@, k) == n {
                let k = choose|k: u32| orig.contains_key(k) && #[trigger] target(remap@, k) == n;
                assert(keys@.to_set().contains(k));
                let j = choose|j: int| 0 <= j < keys@.len() && keys@[j] == k;
                assert(target(remap@, keys@[j]) == n);
            }
        }
        assert forall|k: u32| #[trigger] orig.contains_key(k) implies out@.contains_key(target(remap@, k))
            && out@[target(remap@, k)].value() == remap_value(orig[k].value(), remap@) by {
            assert(keys@.to_set().contains(k));
            let j = choose|j: int| 0 <= j < keys@.len() && keys@[j] == k;
            assert(target(remap@, keys@[j]) == target(remap@, k));
        }
    }
    out
}

// --- levels 3 and 4: merging identical objects ---------------------------------

/// What identifies an object for merging: its value, except that a stream
/// is identified by its dictionary without `/Length` (which the writer
/// recomputes) and its payload bytes.
pub open spec fn signature(v: PdfValue) -> PdfValue {
    match v {
        PdfValue::Stream(m, p) => PdfValue::Stream(m.remove("Length".spec_bytes()), PayloadView { decoded: false, bytes: p.bytes }),
        _ => v,
    }
}

/// Whether object `num` must never be merged: the `/Encrypt` dictionary;
/// a dictionary (or stream) carrying `/StructParent` or `/StructParents`;
/// one whose `/Type` is `Page`, `Pages`, `Catalog`, `Annot`, `Widget`,
/// `ObjStm` or `XRef`.
pub open spec fn dedup_excluded(num: u32, v: PdfValue, roots: Roots) -> bool {
    roots.encrypt == Some(num) || match dict_of(v) {
        Some(d) => d.dom().contains("StructParent".spec_bytes()) || d.dom().contains("StructParents".spec_bytes())
            || match entry(d, "Type".spec_bytes()) {
                Some(PdfValue::Name(t)) => t == "Page".spec_bytes() || t == "Pages".spec_bytes() || t == "Catalog".spec_bytes()
                    || t == "Annot".spec_bytes() || t == "Widget".spec_bytes() || t == "ObjStm".spec_bytes()
                    || t == "XRef".spec_bytes(),
                _ => false,
            },
        None => false,
    }
}

/// Whether object `n` of `m` takes part in merging: it exists, is not
/// excluded, and is not a stream unless streams merge too.
#[verifier::opaque]
pub open spec fn mergeable(m: Map<u32, Object>, roots: Roots, streams: bool, n: u32) -> bool {
    &&& m.contains_key(n)
    &&& !dedup_excluded(n, m[n].value(), roots)
    &&& (streams || !(m[n].value() is Stream))
}

/// Whether objects `a` and `b` of `m` have the same signature.
#[verifier::opaque]
pub open spec fn same_sig(m: Map<u32, Object>, a: u32, b: u32) -> bool {
    signature(m[a].value()) == signature(m[b].value())
}

/// `f` sends every object of `m` to its survivor: a mergeable object to
/// the smallest-numbered mergeable object with its signature, any other
/// object to itself.
pub open spec fn is_dedup_remap(m: Map<u32, Object>, roots: Roots, streams: bool, f: Map<u32, u32>) -> bool {
    &&& f.dom() == m.dom()
    &&& forall|n: u32| #[trigger] f.contains_key(n) && !mergeable(m, roots, streams, n) ==> f[n] == n
    &&& forall|n: u32| #[trigger] f.contains_key(n) && mergeable(m, roots, streams, n)
        ==> mergeable(m, roots, streams, f[n]) && same_sig(m, f[n], n) && f[n] <= n
    &&& forall|n: u32, k: u32| #![trigger f[n], mergeable(m, roots, streams, k)]
        f.contains_key(n) && mergeable(m, roots, streams, n) && mergeable(m, roots, streams, k) && same_sig(m, k, n)
        ==> f[n] <= k
}

/// `m2` keeps the survivors of `m` under `f` (the objects that `f` sends to
/// themselves), each with its references rewritten through `f`.
pub open spec fn deduped(m: Map<u32, Object>, f: Map<u32, u32>, m2: Map<u32, Object>) -> bool {
    &&& forall|n: u32| #[trigger] m2.contains_key(n) <==> m.contains_key(n) && target(f, n) == n
    &&& forall|n: u32| #[trigger] m2.contains_key(n) ==> m2[n].value() == remap_value(m[n].value(), f)
}

/// Equal signatures are an equivalence.
proof fn lemma_same_sig_equiv(m: Map<u32, Object>, a: u32, b: u32, c: u32)
    ensures
        same_sig(m, a, a),
        same_sig(m, a, b) ==> same_sig(m, b, a),
        same_sig(m, a, b) && same_sig(m, b, c) ==> same_sig(m, a, c),
{
    reveal(same_sig);
}

/// A mergeable object exists.
proof fn lemma_mergeable_exists(m: Map<u32, Object>, roots: Roots, streams: bool, n: u32)
    requires
        mergeable(m, roots, streams, n),
    ensures
        m.contains_key(n),
{
    reveal(mergeable);
}

/// Whether the name `t` is one of the kinds of objects that never merge.
fn is_identity_type(t: &[u8]) -> (r: bool)
    ensures
        r == (t@ == "Page".spec_bytes() || t@ == "Pages".spec_bytes() || t@ == "Catalog".spec_bytes()
            || t@ == "Annot".spec_bytes() || t@ == "Widget".spec_bytes() || t@ == "ObjStm".spec_bytes()
            || t@ == "XRef".spec_bytes()),
{
    bytes_equal(t, "Page".as_bytes()) || bytes_equal(t, "Pages".as_bytes()) || bytes_equal(t, "Catalog".as_bytes())
        || bytes_equal(t, "Annot".as_bytes()) || bytes_equal(t, "Widget".as_bytes()) || bytes_equal(t, "ObjStm".as_bytes())
        || bytes_equal(t, "XRef".as_bytes())
}

/// Whether object `num` is excluded from merging (see [`dedup_excluded`]).
pub fn is_dedup_excluded(num: u32, obj: &Object, roots: Roots) -> (r: bool)
    ensures
        r == dedup_excluded(num, obj.value(), roots),
{
    match roots.encrypt {
        Some(e) => {
            if e == num {
                return true;
            }
        },
        None => {},
    }
    let d = match obj.as_dict() {
        Some(d) => d,
        None => {
            return false;
        },
    };
    if d.contains_key(&Name::new("StructParent")) || d.contains_key(&Name::new("StructParents")) {
        return true;
    }
    match d.get(&Name::new("Type")) {
        Some(Object::Name(t)) => is_identity_type(t.as_bytes()),
        _ => false,
    }
}

/// Whether two objects have the same signature (see [`signature`]).
pub fn same_signature(a: &Object, b: &Object) -> (r: bool)
    ensures
        r == (signature(a.value()) == signature(b.value())),
{
    match a {
        Object::Stream(sa) => match b {
            Object::Stream(sb) => {
                let mut da = sa.dict.copy();
                let _ = da.remove(&Name::new("Length"));
                let mut db = sb.dict.copy();
                let _ = db.remove(&Name::new("Length"));
                let same_dict = da.same_map(&db);
                let same_body = bytes_equal(bytes_as_slice(sa.data.bytes()), bytes_as_slice(sb.data.bytes()));
                proof {
                    if same_dict && same_body {
                        assert(signature(a.value()) == signature(b.value()));
                    }
                }
                same_dict && same_body
            },
            _ => false,
        },
        _ => match b {
            Object::Stream(_) => false,
            _ => a.same_value(b),
        },
    }
}

/// Whether object `n` of `objects` takes part in merging (see
/// [`mergeable`]).
fn is_mergeable(objects: &BTreeMap<u32, Object>, roots: Roots, streams: bool, n: u32, obj: &Object) -> (r: bool)
    requires
        objects@.contains_key(n),
        objects@[n] == *obj,
    ensures
        r == mergeable(objects@, roots, streams, n),
{
    let is_stream = match obj {
        Object::Stream(_) => true,
        _ => false,
    };
    proof {
        reveal(mergeable);
    }
    !is_dedup_excluded(n, obj, roots) && (streams || !is_stream)
}

/// The first of `firsts` whose object has the signature of object `n`.
fn find_same_signature(objects: &BTreeMap<u32, Object>, firsts: &Vec<u32>, n: u32, obj: &Object) -> (r: Option<u32>)
    requires
        objects@.contains_key(n),
        objects@[n] == *obj,
        forall|q: int| 0 <= q < firsts@.len() ==> objects@.contains_key(#[trigger] firsts@[q]),
    ensures
        r matches Some(x) ==> firsts@.contains(x) && same_sig(objects@, x, n),
        r is None ==> forall|q: int| 0 <= q < firsts@.len() ==> !same_sig(objects@, #[trigger] firsts@[q], n),
{
    let mut j: usize = 0;
    while j < firsts.len()
        invariant
            objects@.contains_key(n),
            objects@[n] == *obj,
            j <= firsts@.len(),
            forall|q: int| 0 <= q < firsts@.len() ==> objects@.contains_key(#[trigger] firsts@[q]),
            forall|q: int| 0 <= q < j ==> !same_sig(objects@, #[trigger] firsts@[q], n),
        decreases firsts@.len() - j,
    {
        let x = firsts[j];
        let ox = objects.get(&x).unwrap();
        proof {
            reveal(same_sig);
        }
        if same_signature(ox, obj) {
            proof {
                assert(firsts@[j as int] == x);
            }
            return Some(x);
        }
        j = j + 1;
    }
    None
}

/// Merges objects with equal signatures: the map from every object number
/// to its survivor (see [`is_dedup_remap`]). Streams take part only when
/// `streams` is set.
pub fn dedup(objects: &BTreeMap<u32, Object>, roots: Roots, streams: bool) -> (f: BTreeMap<u32, u32>)
    ensures
        is_dedup_remap(objects@, roots, streams, f@),
{
    let ghost m = objects@;
    let keys = sorted_keys(objects);
    let mut f: BTreeMap<u32, u32> = BTreeMap::new();
    let mut firsts: Vec<u32> = Vec::new();
    let mut i: usize = 0;
    proof {
        assert(keys@.take(0).to_set() =~= Set::<u32>::empty());
        assert(f@.dom() =~= Set::<u32>::empty());
    }
    while i < keys.len()
        invariant
            m == objects@,
            i <= keys@.len(),
            keys@.to_set() == m.dom(),
            keys@.no_duplicates(),
            forall|a: int, b: int| 0 <= a < b < keys@.len() ==> keys@[a] < keys@[b],
            f@.dom() == keys@.take(i as int).to_set(),
            forall|n: u32| #[trigger] f@.contains_key(n) && !mergeable(m, roots, streams, n) ==> f@[n] == n,
            forall|n: u32| #[trigger] f@.contains_key(n) && mergeable(m, roots, streams, n)
                ==> mergeable(m, roots, streams, f@[n]) && f@.contains_key(f@[n]) && same_sig(m, f@[n], n) && f@[n] <= n,
            forall|n: u32, k: u32| #![trigger f@[n], mergeable(m, roots, streams, k)]
                f@.contains_key(n) && f@.contains_key(k) && mergeable(m, roots, streams, n) && mergeable(m, roots, streams, k)
                && same_sig(m, k, n) ==> f@[n] <= k,
            forall|j: int| 0 <= j < firsts@.len() ==> f@.contains_key(#[trigger] firsts@[j]) && mergeable(m, roots, streams, firsts@[j])
                && f@[firsts@[j]] == firsts@[j],
            forall|a: int, b: int| 0 <= a < b < firsts@.len() ==> !same_sig(m, #[trigger] firsts@[a], #[trigger] firsts@[b]),
            forall|n: u32| #[trigger] f@.contains_key(n) && mergeable(m, roots, streams, n) ==> firsts@.contains(f@[n]),
        decreases keys@.len() - i,
    {
        let n = keys[i];
        let ghost before = keys@.take(i as int);
        proof {
            assert(keys@.take(i + 1) == before.push(n));
            before.lemma_push_to_set_commute(n);
            assert(keys@.to_set().contains(n));
            assert forall|x: u32| #[trigger] f@.contains_key(x) implies x < n by {
                assert(before.to_set().contains(x));
                let j = choose|j: int| 0 <= j < before.len() && before[j] == x;
                assert(keys@[j] < keys@[i as int]);
            }
        }
        let obj = objects.get(&n).unwrap();
        let el = is_mergeable(objects, roots, streams, n, obj);
        if !el {
            f.insert(n, n);
            proof {
                assert forall|j: int| 0 <= j < firsts@.len() implies f@.contains_key(#[trigger] firsts@[j]) && mergeable(m, roots, streams, firsts@[j])
                    && f@[firsts@[j]] == firsts@[j] by {
                    assert(firsts@[j] != n);
                }
            }
        } else {
            let found = find_same_signature(objects, &firsts, n, obj);
            let ghost f0 = f@;
            match found {
                Some(x) => {
                    proof {
                        let b = choose|b: int| 0 <= b < firsts@.len() && firsts@[b] == x;
                        assert(f0.contains_key(firsts@[b]) && mergeable(m, roots, streams, firsts@[b]) && f0[firsts@[b]] == firsts@[b]);
                        assert(f0.contains_key(x));
                    }
                    f.insert(n, x);
                    proof {
                        assert forall|k: u32| f@.contains_key(k) && mergeable(m, roots, streams, k) && same_sig(m, k, n)
                            implies #[trigger] f@[n] <= k by {
                            if k != n {
                                assert(f0.contains_key(k));
                                let fk = f0[k];
                                assert(mergeable(m, roots, streams, fk) && same_sig(m, fk, k) && fk <= k);
                                assert(firsts@.contains(fk));
                                lemma_same_sig_equiv(m, fk, k, n);
                                lemma_same_sig_equiv(m, x, n, fk);
                                lemma_same_sig_equiv(m, n, fk, x);
                                lemma_same_sig_equiv(m, fk, x, n);
                                lemma_same_sig_equiv(m, fk, n, x);
                                let a = choose|a: int| 0 <= a < firsts@.len() && firsts@[a] == fk;
                                let b = choose|b: int| 0 <= b < firsts@.len() && firsts@[b] == x;
                                if a < b {
                                    assert(!same_sig(m, firsts@[a], firsts@[b]));
                                } else if b < a {
                                    assert(!same_sig(m, firsts@[b], firsts@[a]));
                                }
                            }
                        }
                    }
                },
                None => {
                    f.insert(n, n);
                    let ghost fb = firsts@;
                    firsts.push(n);
                    proof {
                        lemma_same_sig_equiv(m, n, n, n);
                        assert forall|k: u32| f@.contains_key(k) && k != n && mergeable(m, roots, streams, k)
                            implies !#[trigger] same_sig(m, k, n) by {
                            assert(f0.contains_key(k));
                            let fk = f0[k];
                            assert(mergeable(m, roots, streams, fk) && same_sig(m, fk, k));
                            assert(fb.contains(fk));
                            let a = choose|a: int| 0 <= a < fb.len() && fb[a] == fk;
                            assert(!same_sig(m, fb[a], n));
                            lemma_same_sig_equiv(m, fk, k, n);
                        }
                        assert(firsts@.contains(n)) by {
                            assert(firsts@[fb.len() as int] == n);
                        }
                        assert forall|k: u32| #[trigger] f@.contains_key(k) && mergeable(m, roots, streams, k) implies firsts@.contains(f@[k]) by {
                            if k != n {
                                assert(f0.contains_key(k));
                                assert(fb.contains(f0[k]));
                                let a = choose|a: int| 0 <= a < fb.len() && fb[a] == f@[k];
                                assert(firsts@[a] == f@[k]);
                            }
                        }
                        assert forall|a: int, b: int| 0 <= a < b < firsts@.len() implies !same_sig(m, #[trigger] firsts@[a], #[trigger] firsts@[b]) by {
                            if b == fb.len() {
                                assert(firsts@[a] == fb[a]);
                                assert(!same_sig(m, fb[a], n));
                            } else {
                                assert(firsts@[a] == fb[a] && firsts@[b] == fb[b]);
                            }
                        }
                    }
                },
            }
        }
        i = i + 1;
    }
    proof {
        assert(keys@.take(keys@.len() as int) == keys@);
        assert forall|n: u32, k: u32| #![trigger f@[n], mergeable(m, roots, streams, k)]
            f@.contains_key(n) && mergeable(m, roots, streams, n) && mergeable(m, roots, streams, k) && same_sig(m, k, n)
            implies f@[n] <= k by {
            lemma_mergeable_exists(m, roots, streams, k);
        }
    }
    f
}

/// Keeps the survivors of `remap` (the objects it sends to themselves) and
/// rewrites every reference through it; the others are dropped.
fn apply_dedup(objects: BTreeMap<u32, Object>, remap: &BTreeMap<u32, u32>) -> (r: BTreeMap<u32, Object>)
    ensures
        deduped(objects@, remap@, r@),
{
    let ghost orig = objects@;
    let keys = sorted_keys(&objects);
    let mut objects = objects;
    let mut out: BTreeMap<u32, Object> = BTreeMap::new();
    let mut i: usize = 0;
    while i < keys.len()
        invariant
            i <= keys@.len(),
            keys@.to_set() == orig.dom(),
            keys@.no_duplicates(),
            objects@ == orig.remove_keys(keys@.take(i as int).to_set()),
            forall|n: u32| #[trigger] out@.contains_key(n) <==> keys@.take(i as int).contains(n) && target(remap@, n) == n,
            forall|n: u32| #[trigger] out@.contains_key(n) ==> out@[n].value() == remap_value(orig[n].value(), remap@),
        decreases keys@.len() - i,
    {
        let k = keys[i];
        let ghost before = keys@.take(i as int);
        proof {
            assert(keys@.take(i + 1) == before.push(k));
            before.lemma_push_to_set_commute(k);
            assert(keys@.to_set().contains(k));
            assert(!before.contains(k)) by {
                if before.contains(k) {
                    let j = choose|j: int| 0 <= j < before.len() && before[j] == k;
                    assert(keys@[j] == keys@[i as int]);
                }
            }
        }
        let obj = objects.remove(&k).unwrap();
        if lookup_or_self(remap, k) == k {
            out.insert(k, obj.remap(remap));
        }
        proof {
            assert(objects@ =~= orig.remove_keys(keys@.take(i + 1).to_set()));
            let t1 = keys@.take(i + 1);
            assert forall|n: u32| #[trigger] out@.contains_key(n) <==> t1.contains(n) && target(remap@, n) == n by {
                if t1.contains(n) && n != k {
                    let j = choose|j: int| 0 <= j < t1.len() && t1[j] == n;
                    assert(before[j] == n);
                }
                if before.contains(n) {
                    let j = choose|j: int| 0 <= j < before.len() && before[j] == n;
                    assert(t1[j] == n);
                }
                if n == k {
                    assert(t1[i as int] == n);
                }
            }
        }
        i = i + 1;
    }
    proof {
        assert(keys@.take(keys@.len() as int) == keys@);
        assert forall|n: u32| #[trigger] out@.contains_key(n) <==> orig.contains_key(n) && target(remap@, n) == n by {
            if orig.contains_key(n) {
                assert(keys@.to_set().contains(n));
            }
        }
    }
    out
}

/// The result of a collection pass: the surviving objects and the trailer
/// roots after any renumbering.
pub struct GcResult {
    /// Surviving objects, object number → object.
    pub objects: BTreeMap<u32, Object>,
    /// The trailer roots after renumbering.
    pub roots: Roots,
}

/// `f` numbers the set `d` densely: `d` is its domain, its values lie in
/// `1..=|d|`, and it preserves order.
pub open spec fn is_dense_numbering(f: Map<u32, u32>, d: Set<u32>) -> bool {
    &&& f.dom() == d
    &&& forall|k: u32| #[trigger] f.contains_key(k) ==> 1 <= f[k] <= d.len()
    &&& forall|a: u32, b: u32| f.contains_key(a) && f.contains_key(b) && a < b ==> #[trigger] f[a] < #[trigger] f[b]
}

/// `m2` is `m` with every object moved to its number under `f` and every
/// reference rewritten through `f`.
pub open spec fn renumbered(m: Map<u32, Object>, f: Map<u32, u32>, m2: Map<u32, Object>) -> bool {
    &&& forall|n: u32| m2.contains_key(n) <==> exists|k: u32| m.contains_key(k) && #[trigger] target(f, k) == n
    &&& forall|k: u32| #[trigger] m.contains_key(k) ==> m2.contains_key(target(f, k))
        && m2[target(f, k)].value() == remap_value(m[k].value(), f)
}

/// Roots carried through renumbering `f`.
pub open spec fn roots_through(r: Roots, f: Map<u32, u32>) -> Roots {
    Roots {
        root: match r.root { Some(n) => Some(target(f, n)), None => None },
        info: match r.info { Some(n) => Some(target(f, n)), None => None },
        encrypt: match r.encrypt { Some(n) => Some(target(f, n)), None => None },
    }
}

/// Runs garbage collection at `level` (1 or more) over `objects` anchored
/// at `roots`. Level 1 keeps exactly the objects reachable from the roots;
/// level 3 and up also merges the survivors with equal signatures into the
/// smallest-numbered one (streams only from level 4 on), dropping the
/// others and rewriting references and roots through the merge; level 2
/// and up then renumbers the survivors densely, in ascending order, from 1,
/// rewriting every reference and root.
pub fn collect(objects: BTreeMap<u32, Object>, roots: Roots, level: u8) -> (r: GcResult)
    requires
        1 <= level,
        objects@.dom().len() < 0xffff_ffff,
    ensures
        level == 1 ==> r.objects@ == objects@.restrict(reach_set(objects@, roots)) && r.roots == roots,
        level == 2 ==> exists|f: Map<u32, u32>|
            is_dense_numbering(f, objects@.restrict(reach_set(objects@, roots)).dom())
            && renumbered(objects@.restrict(reach_set(objects@, roots)), f, r.objects@)
            && #[trigger] roots_through(roots, f) == r.roots,
        level >= 3 ==> exists|d: Map<u32, u32>, m1: Map<u32, Object>, g: Map<u32, u32>|
            #![trigger deduped(objects@.restrict(reach_set(objects@, roots)), d, m1), is_dense_numbering(g, m1.dom())]
            is_dedup_remap(objects@.restrict(reach_set(objects@, roots)), roots, level >= 4, d)
            && deduped(objects@.restrict(reach_set(objects@, roots)), d, m1)
            && is_dense_numbering(g, m1.dom())
            && renumbered(m1, g, r.objects@)
            && roots_through(roots_through(roots, d), g) == r.roots,
{
    let ghost m = objects@;
    let kept = mark_sweep(&objects, roots);
    proof {
        assert(kept@.to_set() =~= reach_set(m, roots));
    }
    let survivors = sweep(objects, &kept);
    let ghost s = survivors@;
    proof {
        vstd::set_lib::lemma_len_subset(survivors@.dom(), m.dom());
    }
    if level >= 3 {
        let d = dedup(&survivors, roots, level >= 4);
        let merged = apply_dedup(survivors, &d);
        let mut merged_roots = roots;
        remap_roots(&mut merged_roots, &d);
        proof {
            assert(roots_through(roots, d@) == merged_roots);
            assert(merged@.dom().subset_of(s.dom()));
            vstd::set_lib::lemma_len_subset(merged@.dom(), s.dom());
        }
        let ghost m1 = merged@;
        let remap = dense_remap(&merged);
        let renumbered_objects = apply_renumber(merged, &remap);
        let mut new_roots = merged_roots;
        remap_roots(&mut new_roots, &remap);
        proof {
            assert(roots_through(roots_through(roots, d@), remap@) == new_roots);
            assert(is_dedup_remap(s, roots, level >= 4, d@));
            assert(deduped(s, d@, m1));
            assert(is_dense_numbering(remap@, m1.dom()));
        }
        GcResult { objects: renumbered_objects, roots: new_roots }
    } else if level == 2 {
        let remap = dense_remap(&survivors);
        let renumbered_objects = apply_renumber(survivors, &remap);
        let mut new_roots = roots;
        remap_roots(&mut new_roots, &remap);
        proof {
            assert(roots_through(roots, remap@) == new_roots);
        }
        GcResult { objects: renumbered_objects, roots: new_roots }
    } else {
        GcResult { objects: survivors, roots }
    }
}

/// Reachability follows every reference inside an object's value: from a
/// reachable object, each object it refers to anywhere inside its value —
/// an array item, a dictionary value, a value of a stream's dictionary, at
/// any depth — is reachable too, and so kept by [`mark_sweep`].
pub proof fn law_reachable_through_nested_refs(m: Map<u32, Object>, rs: Set<u32>, k: u32, n: u32)
    requires
        reachable(m, rs, k),
        m.contains_key(k),
        value_has_ref(m[k].value(), n),
    ensures
        reachable(m, rs, n),
{
    law_refs_cover_value(m[k], n);
    let p = choose|p: Seq<u32>| #[trigger] is_path(m, rs, p) && p.last() == k;
    assert(succ(m, k).contains(n));
    assert(is_path(m, rs, p.push(n)));
}

/// Mark-sweep keeps whatever a survivor refers to anywhere inside its
/// value — an array item, a dictionary value, a value of a stream's
/// dictionary, at any depth — when it exists.
pub proof fn law_sweep_keeps_nested_refs(m: Map<u32, Object>, roots: Roots, k: u32, n: u32)
    requires
        m.restrict(reach_set(m, roots)).contains_key(k),
        value_has_ref(m[k].value(), n),
        m.contains_key(n),
    ensures
        m.restrict(reach_set(m, roots)).contains_key(n),
{
    law_refs_cover_value(m[k], n);
    law_sweep_closed(m, roots, k, n);
}

/// Mark-sweep keeps every root that exists, and keeps whatever a survivor
/// refers to when it exists: the survivors are closed under references.
pub proof fn law_sweep_closed(m: Map<u32, Object>, roots: Roots, k: u32, n: u32)
    requires
        m.restrict(reach_set(m, roots)).contains_key(k),
        m[k].refs().contains(n),
        m.contains_key(n),
    ensures
        m.restrict(reach_set(m, roots)).contains_key(n),
{
    let rs = root_set(roots);
    let p = choose|p: Seq<u32>| #[trigger] is_path(m, rs, p) && p.last() == k;
    assert(succ(m, k).contains(n));
    assert(is_path(m, rs, p.push(n)));
}

/// Mark-sweep keeps every root that exists.
pub proof fn law_sweep_keeps_roots(m: Map<u32, Object>, roots: Roots, n: u32)
    requires
        root_set(roots).contains(n),
        m.contains_key(n),
    ensures
        m.restrict(reach_set(m, roots)).contains_key(n),
{
    assert(is_path(m, root_set(roots), seq![n]));
}

/// A dense numbering is one-to-one, and numbers a set of `n` objects with
/// `1..=n`.
pub proof fn law_dense_numbering_injective(f: Map<u32, u32>, d: Set<u32>, a: u32, b: u32)
    requires
        is_dense_numbering(f, d),
        d.contains(a),
        d.contains(b),
        a != b,
    ensures
        f[a] != f[b],
        1 <= f[a] <= d.len(),
{
    if a < b {
        assert(f[a] < f[b]);
    } else {
        assert(f[b] < f[a]);
    }
}

/// After merging, no two distinct survivors that take part in merging have
/// equal signatures: each class of identical objects keeps exactly one.
pub proof fn law_dedup_survivors_distinct(m: Map<u32, Object>, roots: Roots, streams: bool, f: Map<u32, u32>, a: u32, b: u32)
    requires
        is_dedup_remap(m, roots, streams, f),
        f.contains_key(a),
        f.contains_key(b),
        f[a] == a,
        f[b] == b,
        mergeable(m, roots, streams, a),
        mergeable(m, roots, streams, b),
        same_sig(m, a, b),
    ensures
        a == b,
{
    lemma_same_sig_equiv(m, a, b, a);
    assert(f[a] <= b);
    assert(f[b] <= a);
}

/// Merging sends every object that takes part to a survivor of its own
/// signature, and leaves every other object where it is.
pub proof fn law_dedup_targets_survive(m: Map<u32, Object>, roots: Roots, streams: bool, f: Map<u32, u32>, n: u32)
    requires
        is_dedup_remap(m, roots, streams, f),
        f.contains_key(n),
    ensures
        f.contains_key(f[n]),
        f[f[n]] == f[n],
        mergeable(m, roots, streams, n) ==> same_sig(m, f[n], n),
        !mergeable(m, roots, streams, n) ==> f[n] == n,
{
    if mergeable(m, roots, streams, n) {
        let t = f[n];
        lemma_mergeable_exists(m, roots, streams, t);
        assert(f.contains_key(t));
        assert(mergeable(m, roots, streams, t) && same_sig(m, f[t], t) && f[t] <= t);
        lemma_same_sig_equiv(m, t, n, f[t]);
        lemma_same_sig_equiv(m, f[t], t, n);
        assert(f[n] <= f[t]);
    }
}

} // verus!
