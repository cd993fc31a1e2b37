//! Colour statistics for raster table cells: the modal colour of a pixel
//! sample.

use vstd::prelude::*;

verus! {

/// How many of the first `n` colours of `s` equal `c`.
pub open spec fn occurrences(s: Seq<[u8; 3]>, c: [u8; 3], n: int) -> nat
    decreases n,
{
    if n <= 0 {
        0
    } else {
        occurrences(s, c, n - 1) + (if s[n - 1]@ == c@ { 1nat } else { 0nat })
    }
}

/// How many colours of `s` equal `c`.
pub open spec fn count_of(s: Seq<[u8; 3]>, c: [u8; 3]) -> nat {
    occurrences(s, c, s.len() as int)
}

/// Whether `r` is the modal colour of `s`: black for an empty sample;
/// otherwise a colour of `s` seen at least as often as any other, and, among
/// the colours seen as often, the one seen first.
pub open spec fn is_modal(s: Seq<[u8; 3]>, r: [u8; 3]) -> bool {
    if s.len() == 0 {
        r@ == seq![0u8, 0u8, 0u8]
    } else {
        exists|b: int|
            0 <= b < s.len() && #[trigger] s[b] == r
            && forall|j: int| 0 <= j < s.len() ==> (count_of(s, #[trigger] s[j]) <= count_of(s, r)
                && (count_of(s, s[j]) == count_of(s, r) ==> b <= j))
    }
}

proof fn lemma_occurrences_bound(s: Seq<[u8; 3]>, c: [u8; 3], n: int)
    requires
        0 <= n <= s.len(),
    ensures
        occurrences(s, c, n) <= n,
    decreases n,
{
    if n > 0 {
        lemma_occurrences_bound(s, c, n - 1);
    }
}

/// Whether two colours are equal.
fn same_color(a: &[u8; 3], b: &[u8; 3]) -> (r: bool)
    ensures
        r == (a@ == b@),
{
    let r = a[0] == b[0] && a[1] == b[1] && a[2] == b[2];
    proof {
        if r {
            assert(a@ =~= b@);
        } else if a@ == b@ {
            assert(a@[0] == b@[0] && a@[1] == b@[1] && a@[2] == b@[2]);
        }
    }
    r
}

/// How many colours of `colors` equal `c`.
fn count_color(colors: &[[u8; 3]], c: &[u8; 3]) -> (r: usize)
    ensures
        r == count_of(colors@, *c),
{
    let mut k: usize = 0;
    let mut i: usize = 0;
    while i < colors.len()
        invariant
            i <= colors@.len(),
            k == occurrences(colors@, *c, i as int),
            k <= i,
        decreases colors@.len() - i,
    {
        if same_color(&colors[i], c) {
            k = k + 1;
        }
        i = i + 1;
    }
    k
}

/// The modal (most frequent) colour of `colors`, or black when there are
/// none. Ties go to the colour seen first, so the result is deterministic.
pub fn modal_color(colors: &[[u8; 3]]) -> (r: [u8; 3])
    ensures
        is_modal(colors@, r),
{
    if colors.len() == 0 {
        let black: [u8; 3] = [0, 0, 0];
        proof {
            assert(black@ =~= seq![0u8, 0u8, 0u8]);
        }
        return black;
    }
    let mut best: usize = 0;
    let mut best_count: usize = count_color(colors, &colors[0]);
    let mut i: usize = 1;
    while i < colors.len()
        invariant
            1 <= i <= colors@.len(),
            best < i,
            best_count == count_of(colors@, colors@[best as int]),
            forall|j: int| 0 <= j < i ==> (count_of(colors@, #[trigger] colors@[j]) <= best_count
                && (count_of(colors@, colors@[j]) == best_count ==> best <= j)),
        decreases colors@.len() - i,
    {
        let k = count_color(colors, &colors[i]);
        if k > best_count {
            best = i;
            best_count = k;
        }
        i = i + 1;
    }
    let r = colors[best];
    proof {
        assert(colors@[best as int] == r);
    }
    r
}

} // verus!
