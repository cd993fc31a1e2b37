//! Standard paper sizes in points (PyMuPDF `paper_size`).

use vstd::prelude::*;
use vstd::string::StringSliceAdditionalSpecFns;
use vstd::utf8::encode_utf8;

use crate::object::name::{bytes_equal, lemma_ascii_str};

verus! {

/// Page orientation.
#[derive(Copy, Clone, Debug, Default, PartialEq, Eq, Structural)]
pub enum PaperOrientation {
    /// Taller than wide.
    #[default]
    Portrait,
    /// Wider than tall.
    Landscape,
}

/// The known sizes, `(name, width, height)` in points, portrait.
pub open spec fn paper_table() -> Seq<(&'static str, u32, u32)> {
    seq![
        ("a0", 2384u32, 3370u32),
        ("a1", 1684u32, 2384u32),
        ("a2", 1191u32, 1684u32),
        ("a3", 842u32, 1191u32),
        ("a4", 595u32, 842u32),
        ("a5", 420u32, 595u32),
        ("a6", 298u32, 420u32),
        ("b4", 729u32, 1032u32),
        ("b5", 516u32, 729u32),
        ("letter", 612u32, 792u32),
        ("legal", 612u32, 1008u32),
        ("tabloid", 792u32, 1224u32),
        ("ledger", 792u32, 1224u32),
        ("executive", 522u32, 756u32),
    ]
}

/// The portrait size of the first table entry named `base`.
pub open spec fn dims_from(base: Seq<u8>, i: int) -> Option<(u32, u32)>
    decreases paper_table().len() - i,
{
    if i < 0 || i >= paper_table().len() {
        None
    } else if paper_table()[i].0.spec_bytes() == base {
        Some((paper_table()[i].1, paper_table()[i].2))
    } else {
        dims_from(base, i + 1)
    }
}

/// ASCII lower-casing of one byte.
pub open spec fn ascii_lower(b: u8) -> u8 {
    if 65 <= b <= 90 { (b + 32) as u8 } else { b }
}

/// `s` ends with `suf`.
pub open spec fn ends_with(s: Seq<u8>, suf: Seq<u8>) -> bool {
    suf.len() <= s.len() && s.subrange(s.len() - suf.len(), s.len() as int) == suf
}

/// The size named by already-trimmed text `t`: ASCII case is ignored, and a
/// `-l` or `-landscape` suffix swaps width and height.
pub open spec fn paper_size_spec(t: Seq<u8>) -> Option<(u32, u32)> {
    let lower = t.map_values(|b: u8| ascii_lower(b));
    let l = "-l".spec_bytes();
    let land = "-landscape".spec_bytes();
    if ends_with(lower, l) {
        match dims_from(lower.subrange(0, lower.len() - l.len()), 0) {
            Some((w, h)) => Some((h, w)),
            None => None,
        }
    } else if ends_with(lower, land) {
        match dims_from(lower.subrange(0, lower.len() - land.len()), 0) {
            Some((w, h)) => Some((h, w)),
            None => None,
        }
    } else {
        dims_from(lower, 0)
    }
}

/// Whether `c` has the Unicode `White_Space` property.
pub open spec fn is_white_space(c: char) -> bool {
    let u = c as u32;
    ||| 0x09 <= u <= 0x0D
    ||| u == 0x20 || u == 0x85 || u == 0xA0 || u == 0x1680
    ||| 0x2000 <= u <= 0x200A
    ||| u == 0x2028 || u == 0x2029 || u == 0x202F || u == 0x205F || u == 0x3000
}

/// `s` without its leading white space.
pub open spec fn trim_start(s: Seq<char>) -> Seq<char>
    decreases s.len(),
{
    if s.len() > 0 && is_white_space(s[0]) {
        trim_start(s.subrange(1, s.len() as int))
    } else {
        s
    }
}

/// `s` without its trailing white space.
pub open spec fn trim_end(s: Seq<char>) -> Seq<char>
    decreases s.len(),
{
    if s.len() > 0 && is_white_space(s[s.len() - 1]) {
        trim_end(s.subrange(0, s.len() - 1))
    } else {
        s
    }
}

/// `s` without its leading and trailing white space.
pub open spec fn trimmed(s: Seq<char>) -> Seq<char> {
    trim_end(trim_start(s))
}

/// `str::trim`: the string without its leading and trailing characters of
/// the Unicode `White_Space` property.
#[verifier::external_body]
fn str_trim(s: &str) -> (r: &str)
    ensures
        r@ == trimmed(s@),
{
    s.trim()
}

/// The known sizes, portrait, as `(name, width, height)`.
pub fn paper_sizes() -> (r: Vec<(&'static str, u32, u32)>)
    ensures
        r@ == paper_table(),
{
    let mut v: Vec<(&'static str, u32, u32)> = Vec::new();
    v.push(("a0", 2384, 3370));
    v.push(("a1", 1684, 2384));
    v.push(("a2", 1191, 1684));
    v.push(("a3", 842, 1191));
    v.push(("a4", 595, 842));
    v.push(("a5", 420, 595));
    v.push(("a6", 298, 420));
    v.push(("b4", 729, 1032));
    v.push(("b5", 516, 729));
    v.push(("letter", 612, 792));
    v.push(("legal", 612, 1008));
    v.push(("tabloid", 792, 1224));
    v.push(("ledger", 792, 1224));
    v.push(("executive", 522, 756));
    assert(v@ =~= paper_table());
    v
}

/// The portrait size of the entry named `base`, if any.
fn dims(base: &[u8]) -> (r: Option<(u32, u32)>)
    ensures
        r == dims_from(base@, 0),
{
    let table = paper_sizes();
    let mut i: usize = 0;
    while i < table.len()
        invariant
            table@ == paper_table(),
            i <= table@.len(),
            dims_from(base@, 0) == dims_from(base@, i as int),
        decreases table@.len() - i,
    {
        let (n, w, h) = table[i];
        if bytes_equal(n.as_bytes(), base) {
            return Some((w, h));
        }
        i = i + 1;
    }
    None
}

/// The size named by `t`, whose surrounding whitespace is already trimmed:
/// case-insensitive, with a `-l` / `-landscape` suffix for landscape.
pub fn paper_size_trimmed(t: &str) -> (r: Option<(u32, u32)>)
    ensures
        r == paper_size_spec(t.spec_bytes()),
{
    let b = t.as_bytes();
    let mut lower: Vec<u8> = Vec::new();
    let mut i: usize = 0;
    while i < b.len()
        invariant
            i <= b@.len(),
            lower@ == b@.take(i as int).map_values(|c: u8| ascii_lower(c)),
        decreases b@.len() - i,
    {
        let c = b[i];
        lower.push(if 65 <= c && c <= 90 { c + 32 } else { c });
        proof {
            assert(b@.take(i + 1).map_values(|c: u8| ascii_lower(c)) =~= b@.take(i as int).map_values(|c: u8| ascii_lower(c)).push(ascii_lower(c)));
        }
        i = i + 1;
    }
    proof {
        assert(b@.take(b@.len() as int) =~= b@);
    }
    let ls = lower.as_slice();
    let l = "-l".as_bytes();
    let land = "-landscape".as_bytes();
    if l.len() <= ls.len() && bytes_equal(vstd::slice::slice_subrange(ls, ls.len() - l.len(), ls.len()), l) {
        match dims(vstd::slice::slice_subrange(ls, 0, ls.len() - l.len())) {
            Some((w, h)) => Some((h, w)),
            None => None,
        }
    } else if land.len() <= ls.len() && bytes_equal(vstd::slice::slice_subrange(ls, ls.len() - land.len(), ls.len()), land) {
        match dims(vstd::slice::slice_subrange(ls, 0, ls.len() - land.len())) {
            Some((w, h)) => Some((h, w)),
            None => None,
        }
    } else {
        dims(ls)
    }
}

/// The size named by `name` in points (width, height): surrounding
/// whitespace and ASCII case are ignored, and `-l` / `-landscape` selects
/// landscape. Unknown names give `None`.
pub fn paper_size(name: &str) -> (r: Option<(u32, u32)>)
    ensures
        r == paper_size_spec(encode_utf8(trimmed(name@))),
{
    let t = str_trim(name);
    paper_size_trimmed(t)
}

/// Every entry of the paper table is in portrait orientation: its width is
/// at most its height.
pub proof fn law_paper_table_portrait(i: int)
    requires
        0 <= i < paper_table().len(),
    ensures
        paper_table()[i].1 <= paper_table()[i].2,
{
}

/// A string that neither starts nor ends with white space is its own trim.
proof fn lemma_no_trim(s: Seq<char>)
    requires
        s.len() > 0,
        !is_white_space(s[0]),
        !is_white_space(s[s.len() - 1]),
    ensures
        trimmed(s) == s,
{
}

/// The table's names have nothing to trim.
proof fn lemma_table_untrimmed(i: int)
    requires
        0 <= i < paper_table().len(),
    ensures
        trimmed(paper_table()[i].0@) == paper_table()[i].0@,
{
    let name = paper_table()[i].0;
    reveal_strlit("a0");
    reveal_strlit("a1");
    reveal_strlit("a2");
    reveal_strlit("a3");
    reveal_strlit("a4");
    reveal_strlit("a5");
    reveal_strlit("a6");
    reveal_strlit("b4");
    reveal_strlit("b5");
    reveal_strlit("letter");
    reveal_strlit("legal");
    reveal_strlit("tabloid");
    reveal_strlit("ledger");
    reveal_strlit("executive");
    lemma_no_trim(name@);
}

/// The bytes of the table's names and of the landscape suffixes.
proof fn lemma_table_bytes()
    ensures
        "a0".spec_bytes() == seq![97u8, 48u8],
        "a1".spec_bytes() == seq![97u8, 49u8],
        "a2".spec_bytes() == seq![97u8, 50u8],
        "a3".spec_bytes() == seq![97u8, 51u8],
        "a4".spec_bytes() == seq![97u8, 52u8],
        "a5".spec_bytes() == seq![97u8, 53u8],
        "a6".spec_bytes() == seq![97u8, 54u8],
        "b4".spec_bytes() == seq![98u8, 52u8],
        "b5".spec_bytes() == seq![98u8, 53u8],
        "letter".spec_bytes() == seq![108u8, 101u8, 116u8, 116u8, 101u8, 114u8],
        "legal".spec_bytes() == seq![108u8, 101u8, 103u8, 97u8, 108u8],
        "tabloid".spec_bytes() == seq![116u8, 97u8, 98u8, 108u8, 111u8, 105u8, 100u8],
        "ledger".spec_bytes() == seq![108u8, 101u8, 100u8, 103u8, 101u8, 114u8],
        "executive".spec_bytes() == seq![101u8, 120u8, 101u8, 99u8, 117u8, 116u8, 105u8, 118u8, 101u8],
        "-l".spec_bytes() == seq![45u8, 108u8],
        "-landscape".spec_bytes() == seq![45u8, 108u8, 97u8, 110u8, 100u8, 115u8, 99u8, 97u8, 112u8, 101u8],
{
    reveal_strlit("a0");
    lemma_ascii_str("a0", seq![97u8, 48u8]);
    reveal_strlit("a1");
    lemma_ascii_str("a1", seq![97u8, 49u8]);
    reveal_strlit("a2");
    lemma_ascii_str("a2", seq![97u8, 50u8]);
    reveal_strlit("a3");
    lemma_ascii_str("a3", seq![97u8, 51u8]);
    reveal_strlit("a4");
    lemma_ascii_str("a4", seq![97u8, 52u8]);
    reveal_strlit("a5");
    lemma_ascii_str("a5", seq![97u8, 53u8]);
    reveal_strlit("a6");
    lemma_ascii_str("a6", seq![97u8, 54u8]);
    reveal_strlit("b4");
    lemma_ascii_str("b4", seq![98u8, 52u8]);
    reveal_strlit("b5");
    lemma_ascii_str("b5", seq![98u8, 53u8]);
    reveal_strlit("letter");
    lemma_ascii_str("letter", seq![108u8, 101u8, 116u8, 116u8, 101u8, 114u8]);
    reveal_strlit("legal");
    lemma_ascii_str("legal", seq![108u8, 101u8, 103u8, 97u8, 108u8]);
    reveal_strlit("tabloid");
    lemma_ascii_str("tabloid", seq![116u8, 97u8, 98u8, 108u8, 111u8, 105u8, 100u8]);
    reveal_strlit("ledger");
    lemma_ascii_str("ledger", seq![108u8, 101u8, 100u8, 103u8, 101u8, 114u8]);
    reveal_strlit("executive");
    lemma_ascii_str("executive", seq![101u8, 120u8, 101u8, 99u8, 117u8, 116u8, 105u8, 118u8, 101u8]);
    reveal_strlit("-l");
    lemma_ascii_str("-l", seq![45u8, 108u8]);
    reveal_strlit("-landscape");
    lemma_ascii_str("-landscape", seq![45u8, 108u8, 97u8, 110u8, 100u8, 115u8, 99u8, 97u8, 112u8, 101u8]);
}

/// Each entry of the paper table is found under its own name: the name,
/// with nothing to trim and no landscape suffix, gives the entry's size.
pub proof fn law_paper_size_finds_each_entry(i: int)
    requires
        0 <= i < paper_table().len(),
    ensures
        paper_size_spec(encode_utf8(trimmed(paper_table()[i].0@))) == Some((paper_table()[i].1, paper_table()[i].2)),
{
    let name = paper_table()[i].0;
    lemma_table_bytes();
    lemma_table_untrimmed(i);
    assert(encode_utf8(trimmed(name@)) == name.spec_bytes());
    reveal_with_fuel(dims_from, 15);
    let e = paper_table()[i].0.spec_bytes();
    assert(e.map_values(|b: u8| ascii_lower(b)) =~= e);
}

} // verus!
