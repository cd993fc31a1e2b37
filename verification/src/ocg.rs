//! Optional content groups (layers)
//!
//! The value types the layer readers produce, the visibility rules of an
//! optional-content configuration (a layer-panel override wins, then `/ON`,
//! then `/OFF`, otherwise `/BaseState`), the hidden-group oracle with the
//! `/P` policies of membership dictionaries, and the small readers of group
//! dictionaries (`/Type`, `/Intent`, text strings).

use std::collections::{BTreeMap, BTreeSet};

use vstd::prelude::*;
use vstd::string::StringSliceAdditionalSpecFns;

use crate::encrypt::dict_of;
use crate::error::Error;
use crate::filters::entry;
use crate::object::{Dict, Name, Object, PdfValue};
use crate::store::{dict_key_spec, lookup, resolve_spec, same_opt_outcome, ObjectStore, StoreView};
use crate::text::{be_units, latin1, latin1_string, string_from_utf16_lossy, string_from_utf8_lossy, units_be, utf16_lossy, utf8_lossy};

verus! {

/// One optional content group, as read from `/OCProperties`.
#[derive(Clone, Debug, PartialEq, Eq, Default)]
pub struct OcgInfo {
    /// The human-readable layer name (`/Name`); empty if absent.
    pub name: String,
    /// The `/Intent` names (default `["View"]`).
    pub intent: Vec<String>,
    /// Whether the layer is ON in the active configuration.
    pub on: bool,
    /// Whether the layer is locked (the UI must not toggle it).
    pub locked: bool,
}

/// One row of the layer-panel UI.
#[derive(Clone, Debug, PartialEq, Eq)]
pub struct LayerUiConfig {
    /// The row index in the panel list.
    pub number: usize,
    /// The group's object number; 0 for a label row.
    pub ocg: u32,
    /// The display text.
    pub text: String,
    /// Nesting depth in `/Order` (0 at the top).
    pub depth: i32,
    /// `"label"`, `"radiobox"` or `"checkbox"`.
    pub kind: &'static str,
    /// Whether the layer is ON.
    pub on: bool,
    /// Whether the layer is locked.
    pub locked: bool,
}

/// The in-memory optional-content view: the selected configuration and the
/// layer-panel overrides applied on top of it.
#[derive(Clone, Debug, Default, PartialEq, Eq)]
pub struct LayerView {
    /// `None` for the default `/D`, `Some(n)` for `/Configs[n]`.
    pub config: Option<usize>,
    /// Per-group ON (`true`) / OFF (`false`) overrides.
    pub overrides: BTreeMap<u32, bool>,
}

/// One layer configuration.
#[derive(Clone, Debug, PartialEq, Eq)]
pub struct LayerConfig {
    /// The configuration number.
    pub number: usize,
    /// The configuration `/Name`, if any.
    pub name: Option<String>,
    /// The configuration `/Creator`, if any.
    pub creator: Option<String>,
}

/// A visibility expression (`/VE`): an `/And` / `/Or` / `/Not` tree over
/// group object numbers.
#[derive(Debug, PartialEq, Eq)]
pub enum VeExpr {
    /// A group, by object number.
    Ocg(u32),
    /// An operator node.
    Op {
        /// `"And"`, `"Or"` or `"Not"`.
        op: String,
        /// The operands.
        args: Vec<VeExpr>,
    },
}

/// An optional content membership dictionary (`/Type /OCMD`).
#[derive(Debug, PartialEq, Eq)]
pub struct OcmdInfo {
    /// The dictionary's object number.
    pub xref: u32,
    /// The groups of `/OCGs`, `None` when absent.
    pub ocgs: Option<Vec<u32>>,
    /// The `/P` visibility policy, if present.
    pub policy: Option<String>,
    /// The `/VE` visibility expression, if present.
    pub ve: Option<VeExpr>,
}

/// One optional-content configuration: its ON / OFF / locked groups, base
/// state, radio-button groups and layer-panel overrides.
pub struct OcConfig {
    /// Groups listed in `/ON`.
    pub on: Vec<u32>,
    /// Groups listed in `/OFF`.
    pub off: Vec<u32>,
    /// Groups listed in `/Locked`.
    pub locked: Vec<u32>,
    /// `/BaseState /OFF` (the default is ON).
    pub base_off: bool,
    /// The raw `/Order` array (resolved one level), if any.
    pub order: Option<Vec<Object>>,
    /// The `/RBGroups` radio groups.
    pub rbgroups: Vec<Vec<u32>>,
    /// Layer-panel overrides, which win over everything else.
    pub overrides: BTreeMap<u32, bool>,
}

impl OcConfig {
    /// Whether group `num` is visible: an override wins, then `/ON`, then
    /// `/OFF`, otherwise the base state.
    pub open spec fn spec_is_on(self, num: u32) -> bool {
        if self.overrides@.contains_key(num) {
            self.overrides@[num]
        } else if self.on@.contains(num) {
            true
        } else if self.off@.contains(num) {
            false
        } else {
            !self.base_off
        }
    }

    /// Whether group `num` is visible in this configuration.
    pub fn is_on(&self, num: u32) -> (r: bool)
        ensures
            r == self.spec_is_on(num),
    {
        match self.overrides.get(&num) {
            Some(forced) => {
                return *forced;
            },
            None => {},
        }
        if contains_u32(&self.on, num) {
            return true;
        }
        if contains_u32(&self.off, num) {
            return false;
        }
        !self.base_off
    }

    /// The layer-panel row kind of group `num`: `"radiobox"` when it belongs
    /// to a radio group, else `"checkbox"`.
    pub fn ui_kind(&self, num: u32) -> (r: &'static str)
        ensures
            r == (if exists|g: int| 0 <= g < self.rbgroups@.len() && (#[trigger] self.rbgroups@[g])@.contains(num) {
                "radiobox"
            } else {
                "checkbox"
            }),
            r == self@.ui_kind(num),
    {
        proof {
            assert forall|g: int| 0 <= g < self.rbgroups@.len() implies #[trigger] self@.rbgroups[g] == self.rbgroups@[g]@ by {}
            if exists|g: int| 0 <= g < self@.rbgroups.len() && (#[trigger] self@.rbgroups[g]).contains(num) {
                let g = choose|g: int| 0 <= g < self@.rbgroups.len() && (#[trigger] self@.rbgroups[g]).contains(num);
                assert(self.rbgroups@[g]@.contains(num));
            }
        }
        let mut g: usize = 0;
        while g < self.rbgroups.len()
            invariant
                g <= self.rbgroups@.len(),
                forall|k: int| 0 <= k < g ==> !(#[trigger] self.rbgroups@[k])@.contains(num),
                forall|k: int| 0 <= k < self.rbgroups@.len() ==> #[trigger] self@.rbgroups[k] == self.rbgroups@[k]@,
            decreases self.rbgroups@.len() - g,
        {
            if contains_u32(&self.rbgroups[g], num) {
                proof {
                    assert(self@.rbgroups[g as int].contains(num));
                }
                return "radiobox";
            }
            g = g + 1;
        }
        "checkbox"
    }
}

/// Whether `v` holds `x`.
fn contains_u32(v: &Vec<u32>, x: u32) -> (r: bool)
    ensures
        r == v@.contains(x),
{
    let mut i: usize = 0;
    while i < v.len()
        invariant
            i <= v@.len(),
            forall|k: int| 0 <= k < i ==> v@[k] != x,
        decreases v@.len() - i,
    {
        if v[i] == x {
            return true;
        }
        i = i + 1;
    }
    false
}

/// A layer-panel override wins over the configuration arrays, and `/ON`
/// wins over `/OFF`.
pub proof fn law_override_precedence(c: OcConfig, num: u32)
    ensures
        c.overrides@.contains_key(num) ==> c.spec_is_on(num) == c.overrides@[num],
        !c.overrides@.contains_key(num) && c.on@.contains(num) ==> c.spec_is_on(num),
        !c.overrides@.contains_key(num) && !c.on@.contains(num) && c.off@.contains(num) ==> !c.spec_is_on(num),
{
}

/// Whether content under a membership policy is hidden, given the hidden
/// groups: with no groups it is shown; `AllOn` hides when any group is
/// hidden, `AnyOff` when none is, `AllOff` when not all are, and `AnyOn`
/// (the default, and any other name) when all are.
pub open spec fn policy_spec(hidden: Set<u32>, policy: Seq<u8>, ocgs: Seq<u32>) -> bool {
    ocgs.len() > 0 && {
        let any = exists|i: int| 0 <= i < ocgs.len() && hidden.contains(#[trigger] ocgs[i]);
        let all = forall|i: int| 0 <= i < ocgs.len() ==> hidden.contains(#[trigger] ocgs[i]);
        if policy == "AllOn".spec_bytes() {
            any
        } else if policy == "AnyOff".spec_bytes() {
            !any
        } else if policy == "AllOff".spec_bytes() {
            !all
        } else {
            all
        }
    }
}

/// The bytes of the visibility policy names.
proof fn lemma_policy_name_bytes()
    ensures
        "AllOn".spec_bytes() == seq![65u8, 108u8, 108u8, 79u8, 110u8],
        "AnyOn".spec_bytes() == seq![65u8, 110u8, 121u8, 79u8, 110u8],
        "AnyOff".spec_bytes() == seq![65u8, 110u8, 121u8, 79u8, 102u8, 102u8],
        "AllOff".spec_bytes() == seq![65u8, 108u8, 108u8, 79u8, 102u8, 102u8],
{
    reveal_strlit("AllOn");
    crate::object::name::lemma_ascii_str("AllOn", seq![65u8, 108u8, 108u8, 79u8, 110u8]);
    reveal_strlit("AnyOn");
    crate::object::name::lemma_ascii_str("AnyOn", seq![65u8, 110u8, 121u8, 79u8, 110u8]);
    reveal_strlit("AnyOff");
    crate::object::name::lemma_ascii_str("AnyOff", seq![65u8, 110u8, 121u8, 79u8, 102u8, 102u8]);
    reveal_strlit("AllOff");
    crate::object::name::lemma_ascii_str("AllOff", seq![65u8, 108u8, 108u8, 79u8, 102u8, 102u8]);
}

/// The `/P` policies of a membership dictionary, over the groups it lists
/// and the set of hidden groups: content with no groups is never hidden;
/// under `AllOn` it is hidden when some group is hidden, under `AnyOn` when
/// every group is, under `AnyOff` when no group is, and under `AllOff` when
/// some group is not (so content whose groups are all hidden is shown).
pub proof fn law_membership_policies(hidden: Set<u32>, ocgs: Seq<u32>, policy: Seq<u8>)
    ensures
        ocgs.len() == 0 ==> !policy_spec(hidden, policy, ocgs),
        ocgs.len() > 0 ==> (policy_spec(hidden, "AllOn".spec_bytes(), ocgs)
            <==> exists|i: int| 0 <= i < ocgs.len() && hidden.contains(#[trigger] ocgs[i])),
        ocgs.len() > 0 ==> (policy_spec(hidden, "AnyOn".spec_bytes(), ocgs)
            <==> forall|i: int| 0 <= i < ocgs.len() ==> hidden.contains(#[trigger] ocgs[i])),
        ocgs.len() > 0 ==> (policy_spec(hidden, "AnyOff".spec_bytes(), ocgs)
            <==> forall|i: int| 0 <= i < ocgs.len() ==> !hidden.contains(#[trigger] ocgs[i])),
        ocgs.len() > 0 ==> (policy_spec(hidden, "AllOff".spec_bytes(), ocgs)
            <==> exists|i: int| 0 <= i < ocgs.len() && !hidden.contains(#[trigger] ocgs[i])),
{
    lemma_policy_name_bytes();
}

/// The hidden-group oracle: the groups that are OFF in the active
/// configuration.
#[derive(Clone, Debug)]
pub struct OcVisibility {
    hidden: BTreeSet<u32>,
}

impl Default for OcVisibility {
    /// The oracle that hides nothing.
    fn default() -> (r: Self)
        ensures
            r.hidden_set() == Set::<u32>::empty(),
    {
        OcVisibility { hidden: BTreeSet::new() }
    }
}

impl OcVisibility {
    /// The hidden groups.
    pub closed spec fn hidden_set(self) -> Set<u32> {
        self.hidden@
    }

    /// An oracle hiding the groups of `config` that are OFF among `groups`.
    pub fn from_config(groups: &Vec<u32>, config: &OcConfig) -> (r: OcVisibility)
        ensures
            forall|n: u32| r.hidden_set().contains(n) <==> groups@.contains(n) && !config.spec_is_on(n),
    {
        let mut hidden: BTreeSet<u32> = BTreeSet::new();
        let mut i: usize = 0;
        while i < groups.len()
            invariant
                i <= groups@.len(),
                forall|x: u32| #[trigger] hidden@.contains(x) <==> (groups@.subrange(0, i as int).contains(x) && !config.spec_is_on(x)),
            decreases groups@.len() - i,
        {
            let n = groups[i];
            let ghost before = hidden@;
            let on = config.is_on(n);
            if !on {
                hidden.insert(n);
            }
            proof {
                let pre = groups@.subrange(0, i as int);
                let post = groups@.subrange(0, i + 1);
                assert(post[i as int] == n);
                assert forall|x: u32| post.contains(x) <==> (pre.contains(x) || x == n) by {
                    if post.contains(x) {
                        let k = choose|k: int| 0 <= k < post.len() && post[k] == x;
                        if k < i {
                            assert(pre[k] == x);
                        }
                    }
                    if pre.contains(x) {
                        let k = choose|k: int| 0 <= k < pre.len() && pre[k] == x;
                        assert(post[k] == x);
                    }
                }
            }
            i = i + 1;
        }
        proof {
            assert(groups@.subrange(0, groups@.len() as int) == groups@);
        }
        OcVisibility { hidden }
    }

    /// Whether any group is hidden at all.
    pub fn hides_anything(&self) -> (r: bool)
        ensures
            r == (self.hidden_set() != Set::<u32>::empty()),
    {
        let r = !self.hidden.is_empty();
        proof {
            if !r {
                assert(self.hidden@ =~= Set::<u32>::empty());
            }
        }
        r
    }

    /// Whether group `num` is OFF.
    pub fn is_ocg_hidden(&self, num: u32) -> (r: bool)
        ensures
            r == self.hidden_set().contains(num),
    {
        self.hidden.contains(&num)
    }

    /// Whether content governed by a membership dictionary with groups `ocgs`
    /// and `/P` policy `policy` is hidden: with no groups it is shown;
    /// `AllOn` hides when any group is hidden, `AnyOff` when none is,
    /// `AllOff` when not all are, and `AnyOn` (the default, and any other
    /// name) when all are.
    pub fn policy_hidden(&self, policy: &[u8], ocgs: &[u32]) -> (r: bool)
        ensures
            r == policy_spec(self.hidden_set(), policy@, ocgs@),
    {
        if ocgs.len() == 0 {
            return false;
        }
        let mut any = false;
        let mut all = true;
        let mut i: usize = 0;
        while i < ocgs.len()
            invariant
                i <= ocgs@.len(),
                any == exists|k: int| 0 <= k < i && self.hidden_set().contains(#[trigger] ocgs@[k]),
                all == forall|k: int| 0 <= k < i ==> self.hidden_set().contains(#[trigger] ocgs@[k]),
            decreases ocgs@.len() - i,
        {
            let h = self.hidden.contains(&ocgs[i]);
            any = any || h;
            all = all && h;
            i = i + 1;
        }
        if crate::object::name::bytes_equal(policy, "AllOn".as_bytes()) {
            any
        } else if crate::object::name::bytes_equal(policy, "AnyOff".as_bytes()) {
            !any
        } else if crate::object::name::bytes_equal(policy, "AllOff".as_bytes()) {
            !all
        } else {
            all
        }
    }
}

/// Whether `d` has `/Type /<name>`.
pub fn is_type(d: &Dict, name: &[u8]) -> (r: bool)
    ensures
        r == (entry(d.map(), "Type".spec_bytes()) matches Some(PdfValue::Name(n)) && n == name@),
{
    match d.get(&Name::new("Type")) {
        Some(Object::Name(n)) => crate::object::name::bytes_equal(n.as_bytes(), name),
        _ => false,
    }
}

/// A name's bytes as text, invalid UTF-8 replaced.
pub fn name_string(n: &Name) -> (r: String)
    ensures
        r@ == utf8_lossy(n@),
{
    string_from_utf8_lossy(n.as_bytes())
}

/// What a PDF text string reads as: UTF-16BE after the `FE FF` byte order
/// mark, otherwise one character per byte.
pub open spec fn decode_text_spec(b: Seq<u8>) -> Seq<char> {
    if b.len() >= 2 && b[0] == 0xfe && b[1] == 0xff {
        utf16_lossy(be_units(b.subrange(2, b.len() as int)))
    } else {
        latin1(b)
    }
}

/// Decodes a PDF text string.
pub fn decode_text(bytes: &[u8]) -> (r: String)
    ensures
        r@ == decode_text_spec(bytes@),
{
    if bytes.len() >= 2 && bytes[0] == 0xfe && bytes[1] == 0xff {
        let units = units_be(vstd::slice::slice_subrange(bytes, 2, bytes.len()));
        string_from_utf16_lossy(units.as_slice())
    } else {
        latin1_string(bytes)
    }
}

/// Whether `r` is the `/Intent` list of a group dictionary `m`: its single
/// name, or the names of its array (non-names skipped), or `["View"]` when
/// absent or when no name is found.
pub open spec fn intent_ok(m: Map<Seq<u8>, PdfValue>, r: Seq<String>) -> bool {
    match entry(m, "Intent".spec_bytes()) {
        Some(PdfValue::Name(n)) => r.len() == 1 && r[0]@ == utf8_lossy(n),
        Some(PdfValue::Array(a)) => {
            let names = a.filter(|v: PdfValue| v is Name);
            if names.len() == 0 {
                r.len() == 1 && r[0]@ == "View"@
            } else {
                r.len() == names.len() && forall|i: int| 0 <= i < names.len() ==> #[trigger] r[i]@ == utf8_lossy(names[i]->Name_0)
            }
        },
        _ => r.len() == 1 && r[0]@ == "View"@,
    }
}

/// `/Intent`: a single name or an array of names (non-names skipped),
/// defaulting to `["View"]` when absent or when no name is found.
pub fn read_intent(d: &Dict) -> (r: Vec<String>)
    ensures
        intent_ok(d.map(), r@),
{
    let mut out: Vec<String> = Vec::new();
    match d.get(&Name::new("Intent")) {
        Some(Object::Name(n)) => {
            out.push(name_string(n));
            return out;
        },
        Some(Object::Array(items)) => {
            proof {
                Object::lemma_array_values_index(items@, items@.len() as int);
            }
            let ghost a = Object::array_values(items@, items@.len() as int);
            let mut i: usize = 0;
            while i < items.len()
                invariant
                    i <= items@.len(),
                    a == Object::array_values(items@, items@.len() as int),
                    a.len() == items@.len(),
                    forall|k: int| 0 <= k < items@.len() ==> #[trigger] a[k] == items@[k].value(),
                    out@.len() == a.take(i as int).filter(|v: PdfValue| v is Name).len(),
                    forall|k: int| 0 <= k < out@.len() ==> #[trigger] out@[k]@ == utf8_lossy(a.take(i as int).filter(|v: PdfValue| v is Name)[k]->Name_0),
                decreases items@.len() - i,
            {
                proof {
                    assert(a.take(i + 1).drop_last() == a.take(i as int));
                    reveal(Seq::filter);
                }
                match &items[i] {
                    Object::Name(n) => {
                        out.push(name_string(n));
                    },
                    _ => {},
                }
                i = i + 1;
            }
            proof {
                assert(a.take(a.len() as int) == a);
            }
            if out.len() == 0 {
                out.push(String::from_str("View"));
            }
            out
        },
        _ => {
            out.push(String::from_str("View"));
            out
        },
    }
}


/// The object numbers of the references among `a`, in order.
pub open spec fn ref_numbers(a: Seq<PdfValue>) -> Seq<u32>
    decreases a.len(),
{
    if a.len() == 0 {
        Seq::empty()
    } else {
        let rest = ref_numbers(a.drop_last());
        match a.last() {
            PdfValue::Reference(x) => rest.push(x.num),
            _ => rest,
        }
    }
}

/// The array a read gives, if it gives one.
pub open spec fn array_of(r: Result<Option<PdfValue>, Error>) -> Option<Seq<PdfValue>> {
    match r {
        Ok(Some(PdfValue::Array(a))) => Some(a),
        _ => None,
    }
}

/// The dictionary a read gives, if it gives one.
pub open spec fn dict_read(r: Result<Option<PdfValue>, Error>) -> Option<Map<Seq<u8>, PdfValue>> {
    match r {
        Ok(Some(v)) => dict_of(v),
        _ => None,
    }
}

/// The object numbers referenced by the array under `key` of `m` (resolved
/// one level); empty when there is no such array.
pub open spec fn ref_nums_spec(v: StoreView, m: Map<Seq<u8>, PdfValue>, key: Seq<u8>) -> Seq<u32> {
    match array_of(dict_key_spec(v, m, key)) {
        Some(a) => ref_numbers(a),
        None => Seq::empty(),
    }
}

/// The radio groups of an `/RBGroups` array: each array element (or
/// reference to an array) becomes the object numbers it references; other
/// elements are skipped.
pub open spec fn rb_collect(v: StoreView, gs: Seq<PdfValue>) -> Seq<Seq<u32>>
    decreases gs.len(),
{
    if gs.len() == 0 {
        Seq::empty()
    } else {
        let rest = rb_collect(v, gs.drop_last());
        match gs.last() {
            PdfValue::Array(items) => rest.push(ref_numbers(items)),
            PdfValue::Reference(r) => match resolve_spec(v, r) {
                Ok(PdfValue::Array(items)) => rest.push(ref_numbers(items)),
                _ => rest,
            },
            _ => rest,
        }
    }
}

/// The `/RBGroups` of a configuration dictionary.
pub open spec fn rbgroups_spec(v: StoreView, m: Map<Seq<u8>, PdfValue>) -> Seq<Seq<u32>> {
    match array_of(dict_key_spec(v, m, "RBGroups".spec_bytes())) {
        Some(gs) => rb_collect(v, gs),
        None => Seq::empty(),
    }
}

/// An optional-content configuration as values.
pub struct ConfigView {
    /// Groups listed in `/ON`.
    pub on: Seq<u32>,
    /// Groups listed in `/OFF`.
    pub off: Seq<u32>,
    /// Groups listed in `/Locked`.
    pub locked: Seq<u32>,
    /// `/BaseState /OFF`.
    pub base_off: bool,
    /// The `/Order` array, if any.
    pub order: Option<Seq<PdfValue>>,
    /// The radio groups.
    pub rbgroups: Seq<Seq<u32>>,
    /// Layer-panel overrides.
    pub overrides: Map<u32, bool>,
}

impl ConfigView {
    /// Whether group `num` is visible: an override wins, then `/ON`, then
    /// `/OFF`, otherwise the base state.
    pub open spec fn is_on(self, num: u32) -> bool {
        if self.overrides.contains_key(num) {
            self.overrides[num]
        } else if self.on.contains(num) {
            true
        } else if self.off.contains(num) {
            false
        } else {
            !self.base_off
        }
    }
}

impl ConfigView {
    /// The layer-panel row kind of group `num`: `"radiobox"` when it belongs
    /// to a radio group, else `"checkbox"`.
    pub open spec fn ui_kind(self, num: u32) -> &'static str {
        if exists|g: int| 0 <= g < self.rbgroups.len() && (#[trigger] self.rbgroups[g]).contains(num) {
            "radiobox"
        } else {
            "checkbox"
        }
    }
}

impl View for OcConfig {
    type V = ConfigView;

    open spec fn view(&self) -> ConfigView {
        ConfigView {
            on: self.on@,
            off: self.off@,
            locked: self.locked@,
            base_off: self.base_off,
            order: match self.order {
                Some(o) => Some(Object::array_values(o@, o@.len() as int)),
                None => None,
            },
            rbgroups: self.rbgroups@.map_values(|g: Vec<u32>| g@),
            overrides: self.overrides@,
        }
    }
}

/// What parsing the configuration dictionary `m` gives (no overrides).
pub open spec fn config_from(v: StoreView, m: Map<Seq<u8>, PdfValue>) -> ConfigView {
    ConfigView {
        on: ref_nums_spec(v, m, "ON".spec_bytes()),
        off: ref_nums_spec(v, m, "OFF".spec_bytes()),
        locked: ref_nums_spec(v, m, "Locked".spec_bytes()),
        base_off: entry(m, "BaseState".spec_bytes()) == Some(PdfValue::Name("OFF".spec_bytes())),
        order: array_of(dict_key_spec(v, m, "Order".spec_bytes())),
        rbgroups: rbgroups_spec(v, m),
        overrides: Map::empty(),
    }
}

/// The configuration dictionary for `number`: `/D` for `None`,
/// `/Configs[n]` (resolved through a reference) for `Some(n)`.
pub open spec fn config_dict_spec(v: StoreView, ocp: Map<Seq<u8>, PdfValue>, number: Option<usize>) -> Option<Map<Seq<u8>, PdfValue>> {
    match number {
        None => dict_read(dict_key_spec(v, ocp, "D".spec_bytes())),
        Some(n) => match array_of(dict_key_spec(v, ocp, "Configs".spec_bytes())) {
            Some(a) => if n < a.len() {
                match a[n as int] {
                    PdfValue::Reference(r) => match resolve_spec(v, r) {
                        Ok(val) => dict_of(val),
                        Err(_) => None,
                    },
                    other => dict_of(other),
                }
            } else {
                None
            },
            None => None,
        },
    }
}

/// The active configuration: the selected alternate (inheriting `/Order`
/// and `/RBGroups` from `/D` when it has none), else `/D`, with the
/// layer-panel overrides applied.
pub open spec fn active_spec(v: StoreView, ocp: Map<Seq<u8>, PdfValue>) -> ConfigView {
    let default = match config_dict_spec(v, ocp, None) {
        Some(d) => d,
        None => Map::empty(),
    };
    let alt = match v.layer_config {
        Some(n) => config_dict_spec(v, ocp, Some(n)),
        None => None,
    };
    match alt {
        Some(a) => {
            let c = config_from(v, a);
            ConfigView {
                order: if c.order is None { array_of(dict_key_spec(v, default, "Order".spec_bytes())) } else { c.order },
                rbgroups: if c.rbgroups.len() == 0 { rbgroups_spec(v, default) } else { c.rbgroups },
                overrides: v.layer_overrides,
                ..c
            }
        },
        None => ConfigView { overrides: v.layer_overrides, ..config_from(v, default) },
    }
}

/// The catalog's `/OCProperties` dictionary, resolved through references.
pub open spec fn ocp_spec(v: StoreView) -> Option<Map<Seq<u8>, PdfValue>> {
    match entry(v.trailer, "Root".spec_bytes()) {
        Some(PdfValue::Reference(root)) => match resolve_spec(v, root) {
            Ok(cat) => match dict_of(cat) {
                Some(c) => dict_read(dict_key_spec(v, c, "OCProperties".spec_bytes())),
                None => None,
            },
            Err(_) => None,
        },
        _ => None,
    }
}

/// The object numbers referenced by the elements of `items`.
fn refs_in(items: &[Object]) -> (r: Vec<u32>)
    ensures
        r@ == ref_numbers(Object::array_values(items@, items@.len() as int)),
{
    let mut out: Vec<u32> = Vec::new();
    let mut i: usize = 0;
    while i < items.len()
        invariant
            i <= items@.len(),
            out@ == ref_numbers(Object::array_values(items@, i as int)),
        decreases items@.len() - i,
    {
        let ghost a1 = Object::array_values(items@, i + 1);
        proof {
            assert(a1.drop_last() == Object::array_values(items@, i as int));
            assert(a1.last() == items@[i as int].value());
        }
        match &items[i] {
            Object::Reference(x) => {
                out.push(x.num);
            },
            _ => {
                assert(!(items@[i as int].value() is Reference));
            },
        }
        i = i + 1;
    }
    out
}

/// Whether a read gave an array, and its elements' values as a sequence.
fn read_array(r: Result<Option<Object>, Error>, Ghost(s): Ghost<Result<Option<PdfValue>, Error>>) -> (out: Option<Vec<Object>>)
    requires
        same_opt_outcome(r, s),
    ensures
        match out {
            Some(items) => array_of(s) == Some(Object::array_values(items@, items@.len() as int)),
            None => array_of(s) is None,
        },
{
    match r {
        Ok(Some(Object::Array(items))) => Some(items),
        _ => None,
    }
}

/// The object numbers referenced by the array under `key` of `d`
/// (resolved one level).
fn ref_nums(store: &ObjectStore, d: &Dict, key: &str) -> (r: Vec<u32>)
    ensures
        r@ == ref_nums_spec(store@, d.map(), key.spec_bytes()),
{
    let got = store.resolve_dict_key(d, &Name::new(key));
    match read_array(got, Ghost(dict_key_spec(store@, d.map(), key.spec_bytes()))) {
        Some(items) => refs_in(items.as_slice()),
        None => Vec::new(),
    }
}

/// The `/Order` array of a configuration (resolved one level).
fn read_order(store: &ObjectStore, d: &Dict) -> (r: Option<Vec<Object>>)
    ensures
        match r {
            Some(o) => array_of(dict_key_spec(store@, d.map(), "Order".spec_bytes())) == Some(Object::array_values(o@, o@.len() as int)),
            None => array_of(dict_key_spec(store@, d.map(), "Order".spec_bytes())) is None,
        },
{
    let got = store.resolve_dict_key(d, &Name::new("Order"));
    read_array(got, Ghost(dict_key_spec(store@, d.map(), "Order".spec_bytes())))
}

/// The `/RBGroups` of a configuration as lists of group object numbers.
fn read_rbgroups(store: &ObjectStore, d: &Dict) -> (r: Vec<Vec<u32>>)
    ensures
        r@.map_values(|g: Vec<u32>| g@) == rbgroups_spec(store@, d.map()),
{
    let got = store.resolve_dict_key(d, &Name::new("RBGroups"));
    let groups = match read_array(got, Ghost(dict_key_spec(store@, d.map(), "RBGroups".spec_bytes()))) {
        Some(items) => items,
        None => {
            let e: Vec<Vec<u32>> = Vec::new();
            proof {
                assert(e@.map_values(|g: Vec<u32>| g@) =~= Seq::<Seq<u32>>::empty());
            }
            return e;
        },
    };
    let ghost gv = Object::array_values(groups@, groups@.len() as int);
    let mut out: Vec<Vec<u32>> = Vec::new();
    let mut i: usize = 0;
    proof {
        Object::lemma_array_values_index(groups@, groups@.len() as int);
    }
    while i < groups.len()
        invariant
            i <= groups@.len(),
            gv == Object::array_values(groups@, groups@.len() as int),
            gv.len() == groups@.len(),
            forall|k: int| 0 <= k < groups@.len() ==> #[trigger] gv[k] == groups@[k].value(),
            out@.map_values(|g: Vec<u32>| g@) == rb_collect(store@, gv.take(i as int)),
        decreases groups@.len() - i,
    {
        proof {
            assert(gv.take(i + 1).drop_last() == gv.take(i as int));
        }
        let ghost before = out@;
        match &groups[i] {
            Object::Array(items) => {
                let g = refs_in(items.as_slice());
                out.push(g);
            },
            Object::Reference(x) => {
                match store.resolve(*x) {
                    Ok(Object::Array(items)) => {
                        let g = refs_in(items.as_slice());
                        out.push(g);
                    },
                    _ => {},
                }
            },
            _ => {},
        }
        proof {
            assert(out@.map_values(|g: Vec<u32>| g@) =~= rb_collect(store@, gv.take(i + 1)));
        }
        i = i + 1;
    }
    proof {
        assert(gv.take(groups@.len() as int) == gv);
    }
    out
}

impl OcConfig {
    /// Parses one configuration dictionary; an empty one yields an all-ON
    /// base state with empty sets.
    pub fn from_dict(store: &ObjectStore, d: &Dict) -> (r: OcConfig)
        ensures
            r@ == config_from(store@, d.map()),
    {
        let on = ref_nums(store, d, "ON");
        let off = ref_nums(store, d, "OFF");
        let locked = ref_nums(store, d, "Locked");
        let base_off = match d.get(&Name::new("BaseState")) {
            Some(Object::Name(n)) => crate::object::name::bytes_equal(n.as_bytes(), "OFF".as_bytes()),
            _ => false,
        };
        let order = read_order(store, d);
        let rbgroups = read_rbgroups(store, d);
        let r = OcConfig { on, off, locked, base_off, order, rbgroups, overrides: BTreeMap::new() };
        proof {
            assert(r@.overrides =~= Map::<u32, bool>::empty());
        }
        r
    }
}


/// The decoded text of string entry `key` of `m`, `None` when absent or not
/// a string.
pub open spec fn text_entry_spec(m: Map<Seq<u8>, PdfValue>, key: Seq<u8>) -> Option<Seq<char>> {
    match entry(m, key) {
        Some(PdfValue::Str(b, _)) => Some(decode_text_spec(b)),
        _ => None,
    }
}

/// A text-string entry of `d` (decoded), or `None` when absent.
pub fn text_entry(d: &Dict, key: &str) -> (r: Option<String>)
    ensures
        crate::api::opt_view(r) == text_entry_spec(d.map(), key.spec_bytes()),
{
    match d.get(&Name::new(key)) {
        Some(o) => match o.as_string() {
            Some(s) => Some(decode_text(s.as_bytes())),
            None => None,
        },
        None => None,
    }
}

/// The dictionary of `o` (a dictionary, or a stream's), copied.
fn dict_copy_of(o: &Object) -> (r: Option<Dict>)
    ensures
        match r {
            Some(d) => dict_of(o.value()) == Some(d.map()),
            None => dict_of(o.value()) is None,
        },
{
    match o.as_dict() {
        Some(d) => Some(d.copy()),
        None => None,
    }
}

/// The configuration dictionary for `number`: `/D` for `None`,
/// `/Configs[n]` (resolved through a reference) for `Some(n)`, or `None`
/// when absent.
pub fn config_dict(store: &ObjectStore, ocp: &Dict, number: Option<usize>) -> (r: Option<Dict>)
    ensures
        match r {
            Some(d) => config_dict_spec(store@, ocp.map(), number) == Some(d.map()),
            None => config_dict_spec(store@, ocp.map(), number) is None,
        },
{
    match number {
        None => match store.resolve_dict_key(ocp, &Name::new("D")) {
            Ok(Some(o)) => dict_copy_of(&o),
            _ => None,
        },
        Some(n) => {
            let got = store.resolve_dict_key(ocp, &Name::new("Configs"));
            let items = match read_array(got, Ghost(dict_key_spec(store@, ocp.map(), "Configs".spec_bytes()))) {
                Some(items) => items,
                None => {
                    return None;
                },
            };
            proof {
                Object::lemma_array_values_index(items@, items@.len() as int);
            }
            if n >= items.len() {
                return None;
            }
            match &items[n] {
                Object::Reference(x) => match store.resolve(*x) {
                    Ok(o) => dict_copy_of(&o),
                    Err(_) => None,
                },
                other => dict_copy_of(other),
            }
        },
    }
}

impl OcConfig {
    /// The configuration selected by the store's layer view (`/D`, or the
    /// selected `/Configs` entry, falling back to `/D` when it does not
    /// resolve), with the view's overrides applied. An alternate without
    /// `/Order` or `/RBGroups` inherits them from `/D`.
    pub fn active(store: &ObjectStore, ocp: &Dict) -> (r: OcConfig)
        ensures
            r@ == active_spec(store@, ocp.map()),
    {
        let view = store.layer_view();
        let default = match config_dict(store, ocp, None) {
            Some(d) => d,
            None => Dict::new(),
        };
        let alt = match view.config {
            Some(n) => config_dict(store, ocp, Some(n)),
            None => None,
        };
        let mut cfg = match alt {
            Some(a) => {
                let mut cfg = OcConfig::from_dict(store, &a);
                if cfg.order.is_none() {
                    cfg.order = read_order(store, &default);
                }
                if cfg.rbgroups.len() == 0 {
                    cfg.rbgroups = read_rbgroups(store, &default);
                }
                cfg
            },
            None => OcConfig::from_dict(store, &default),
        };
        cfg.overrides = view.overrides;
        cfg
    }
}

/// The catalog `/OCProperties` dictionary, resolved through any reference.
pub fn oc_properties(store: &ObjectStore) -> (r: Option<Dict>)
    ensures
        match r {
            Some(d) => ocp_spec(store@) == Some(d.map()),
            None => ocp_spec(store@) is None,
        },
{
    let root = match store.root() {
        Some(x) => x,
        None => {
            return None;
        },
    };
    let catalog = match store.resolve(root) {
        Ok(o) => o,
        Err(_) => {
            return None;
        },
    };
    let cat = match catalog.as_dict() {
        Some(d) => d,
        None => {
            return None;
        },
    };
    match store.resolve_dict_key(cat, &Name::new("OCProperties")) {
        Ok(Some(o)) => dict_copy_of(&o),
        _ => None,
    }
}

/// The object numbers of every group in `/OCProperties /OCGs`, in array
/// order.
pub fn ocg_object_numbers(store: &ObjectStore, ocp: &Dict) -> (r: Vec<u32>)
    ensures
        r@ == ref_nums_spec(store@, ocp.map(), "OCGs".spec_bytes()),
{
    ref_nums(store, ocp, "OCGs")
}

/// The decoded `/Name` of a group dictionary, empty when absent.
pub open spec fn name_text(m: Map<Seq<u8>, PdfValue>) -> Seq<char> {
    match text_entry_spec(m, "Name".spec_bytes()) {
        Some(t) => t,
        None => Seq::empty(),
    }
}

/// Whether `info` is what reading group `num` under configuration `cfg`
/// gives: its name, intents and state when it reads as a dictionary, else
/// the empty record.
pub open spec fn ocg_info_ok(v: StoreView, num: u32, cfg: ConfigView, info: OcgInfo) -> bool {
    let empty = info.name@ == Seq::<char>::empty() && info.intent@.len() == 0 && !info.on && !info.locked;
    match lookup(v, num) {
        Ok(val) => match dict_of(val) {
            Some(m) => info.name@ == name_text(m) && intent_ok(m, info.intent@) && info.on == cfg.is_on(num)
                && info.locked == cfg.locked.contains(num),
            None => empty,
        },
        Err(_) => empty,
    }
}

/// Reads group `num` (`/Name`, `/Intent`) and its ON / locked state under
/// `cfg`.
pub fn read_ocg(store: &ObjectStore, num: u32, cfg: &OcConfig) -> (r: OcgInfo)
    ensures
        ocg_info_ok(store@, num, cfg@, r),
{
    let empty = OcgInfo { name: String::new(), intent: Vec::new(), on: false, locked: false };
    let obj = match store.get_object(num, 0) {
        Ok(o) => o,
        Err(_) => {
            return empty;
        },
    };
    let d = match obj.as_dict() {
        Some(d) => d,
        None => {
            return empty;
        },
    };
    let name = match text_entry(d, "Name") {
        Some(t) => t,
        None => String::new(),
    };
    let intent = read_intent(d);
    OcgInfo { name, intent, on: cfg.is_on(num), locked: contains_u32(&cfg.locked, num) }
}

/// Every group of the document with its name, intents and state in the
/// active configuration; empty for a document without optional content.
pub fn get_ocgs(store: &ObjectStore) -> (r: BTreeMap<u32, OcgInfo>)
    ensures
        match ocp_spec(store@) {
            None => r@ == Map::<u32, OcgInfo>::empty(),
            Some(ocp) => {
                &&& r@.dom() == ref_nums_spec(store@, ocp, "OCGs".spec_bytes()).to_set()
                &&& forall|n: u32| #[trigger] r@.contains_key(n) ==> ocg_info_ok(store@, n, active_spec(store@, ocp), r@[n])
            },
        },
{
    let mut out: BTreeMap<u32, OcgInfo> = BTreeMap::new();
    let ocp = match oc_properties(store) {
        Some(d) => d,
        None => {
            return out;
        },
    };
    let nums = ocg_object_numbers(store, &ocp);
    let cfg = OcConfig::active(store, &ocp);
    let mut i: usize = 0;
    while i < nums.len()
        invariant
            i <= nums@.len(),
            out@.dom() == nums@.take(i as int).to_set(),
            cfg@ == active_spec(store@, ocp.map()),
            forall|n: u32| #[trigger] out@.contains_key(n) ==> ocg_info_ok(store@, n, cfg@, out@[n]),
        decreases nums@.len() - i,
    {
        let n = nums[i];
        let info = read_ocg(store, n, &cfg);
        out.insert(n, info);
        proof {
            assert(nums@.take(i + 1) == nums@.take(i as int).push(n));
            nums@.take(i as int).lemma_push_to_set_commute(n);
        }
        i = i + 1;
    }
    proof {
        assert(nums@.take(nums@.len() as int) == nums@);
    }
    out
}

/// The ON / OFF state of group `xref` in the active configuration; `false`
/// for a document without optional content.
pub fn ocg_state(store: &ObjectStore, xref: u32) -> (r: bool)
    ensures
        r == (match ocp_spec(store@) {
            Some(ocp) => active_spec(store@, ocp).is_on(xref),
            None => false,
        }),
{
    match oc_properties(store) {
        Some(ocp) => {
            let cfg = OcConfig::active(store, &ocp);
            cfg.is_on(xref)
        },
        None => false,
    }
}

/// The number of alternate configurations: the length of `/Configs` when
/// it is an array, else 0.
pub open spec fn config_count_spec(v: StoreView) -> nat {
    match ocp_spec(v) {
        Some(ocp) => match array_of(dict_key_spec(v, ocp, "Configs".spec_bytes())) {
            Some(a) => a.len(),
            None => 0,
        },
        None => 0,
    }
}

/// The number of alternate layer configurations (`/Configs`); the default
/// `/D` is never counted.
pub fn layer_config_count(store: &ObjectStore) -> (r: usize)
    ensures
        r == config_count_spec(store@),
{
    let ocp = match oc_properties(store) {
        Some(d) => d,
        None => {
            return 0;
        },
    };
    let got = store.resolve_dict_key(&ocp, &Name::new("Configs"));
    match read_array(got, Ghost(dict_key_spec(store@, ocp.map(), "Configs".spec_bytes()))) {
        Some(items) => {
            proof {
                Object::lemma_array_values_index(items@, items@.len() as int);
            }
            items.len()
        },
        None => 0,
    }
}

/// The alternate layer configurations, numbered by position, with their
/// `/Name` and `/Creator`; the default `/D` is not listed.
pub fn get_layers(store: &ObjectStore) -> (r: Vec<LayerConfig>)
    ensures
        r@.len() == config_count_spec(store@),
        forall|i: int| 0 <= i < r@.len() ==> {
            let d = match ocp_spec(store@) {
                Some(ocp) => match config_dict_spec(store@, ocp, Some(i as usize)) {
                    Some(m) => m,
                    None => Map::empty(),
                },
                None => Map::empty(),
            };
            &&& (#[trigger] r@[i]).number == i
            &&& crate::api::opt_view(r@[i].name) == text_entry_spec(d, "Name".spec_bytes())
            &&& crate::api::opt_view(r@[i].creator) == text_entry_spec(d, "Creator".spec_bytes())
        },
{
    let mut out: Vec<LayerConfig> = Vec::new();
    let ocp = match oc_properties(store) {
        Some(d) => d,
        None => {
            return out;
        },
    };
    let count = layer_config_count(store);
    let mut n: usize = 0;
    while n < count
        invariant
            n <= count,
            count == config_count_spec(store@),
            ocp_spec(store@) == Some(ocp.map()),
            out@.len() == n,
            forall|i: int| 0 <= i < n ==> {
                let d = match config_dict_spec(store@, ocp.map(), Some(i as usize)) {
                    Some(m) => m,
                    None => Map::empty(),
                };
                &&& (#[trigger] out@[i]).number == i
                &&& crate::api::opt_view(out@[i].name) == text_entry_spec(d, "Name".spec_bytes())
                &&& crate::api::opt_view(out@[i].creator) == text_entry_spec(d, "Creator".spec_bytes())
            },
        decreases count - n,
    {
        let d = match config_dict(store, &ocp, Some(n)) {
            Some(d) => d,
            None => Dict::new(),
        };
        out.push(LayerConfig { number: n, name: text_entry(&d, "Name"), creator: text_entry(&d, "Creator") });
        n = n + 1;
    }
    out
}

/// Selects the layer configuration the in-memory view uses: `None` for the
/// default `/D`, `Some(n)` for `/Configs[n]`. Layer-panel overrides are
/// discarded; nothing is written to the objects.
pub fn select_layer_config(store: &mut ObjectStore, number: Option<usize>) -> (r: Result<(), Error>)
    ensures
        (number matches Some(n) && n >= config_count_spec(old(store)@)) ==> r == Err::<(), Error>(Error::InvalidArgument("Illegal Layer config"))
            && final(store)@ == old(store)@,
        !(number matches Some(n) && n >= config_count_spec(old(store)@)) ==> r is Ok
            && final(store)@ == (StoreView { layer_config: number, layer_overrides: Map::empty(), ..old(store)@ }),
{
    match number {
        Some(n) => {
            if n >= layer_config_count(store) {
                return Err(Error::InvalidArgument("Illegal Layer config"));
            }
        },
        None => {},
    }
    let view = LayerView { config: number, overrides: BTreeMap::new() };
    store.set_layer_view(view);
    proof {
        assert(final(store)@.layer_overrides =~= Map::<u32, bool>::empty());
    }
    Ok(())
}

impl OcVisibility {
    /// Snapshots the active configuration's OFF groups; a document without
    /// optional content yields an oracle that hides nothing.
    pub fn read(store: &ObjectStore) -> (r: OcVisibility)
        ensures
            forall|n: u32| r.hidden_set().contains(n) <==> (match ocp_spec(store@) {
                Some(ocp) => ref_nums_spec(store@, ocp, "OCGs".spec_bytes()).contains(n) && !active_spec(store@, ocp).is_on(n),
                None => false,
            }),
    {
        match oc_properties(store) {
            Some(ocp) => {
                let cfg = OcConfig::active(store, &ocp);
                let nums = ocg_object_numbers(store, &ocp);
                let r = OcVisibility::from_config(&nums, &cfg);
                proof {
                    assert forall|n: u32| cfg.spec_is_on(n) == cfg@.is_on(n) by {}
                    assert(ocp_spec(store@) == Some(ocp.map()));
                    assert forall|n: u32| r.hidden_set().contains(n) <==> (ref_nums_spec(store@, ocp.map(), "OCGs".spec_bytes()).contains(n) && !active_spec(store@, ocp.map()).is_on(n)) by {
                        assert(cfg.spec_is_on(n) == cfg@.is_on(n));
                    }
                }
                r
            },
            None => {
                let r = OcVisibility { hidden: BTreeSet::new() };
                proof {
                    assert forall|n: u32| !r.hidden_set().contains(n) by {}
                }
                r
            },
        }
    }
}

/// The `/OC` reference of the image or form XObject `xref`: the group or
/// membership dictionary number, or 0 when it has no `/OC` reference;
/// [`Error::InvalidArgument`] when `xref` is not an image or form XObject.
pub fn get_oc(store: &ObjectStore, xref: u32) -> (r: Result<u32, Error>)
    ensures
        match lookup(store@, xref) {
            Err(e) => r == Err::<u32, Error>(e),
            Ok(val) => match dict_of(val) {
                Some(m) => if entry(m, "Subtype".spec_bytes()) == Some(PdfValue::Name("Image".spec_bytes()))
                    || entry(m, "Subtype".spec_bytes()) == Some(PdfValue::Name("Form".spec_bytes())) {
                    r == Ok::<u32, Error>(match entry(m, "OC".spec_bytes()) {
                        Some(PdfValue::Reference(x)) => x.num,
                        _ => 0,
                    })
                } else {
                    r == Err::<u32, Error>(Error::InvalidArgument("not an image or form XObject"))
                },
                None => r == Err::<u32, Error>(Error::InvalidArgument("not an image or form XObject")),
            },
        },
{
    let obj = match store.get_object(xref, 0) {
        Ok(o) => o,
        Err(e) => {
            return Err(e);
        },
    };
    let d = match obj.as_dict() {
        Some(d) => d,
        None => {
            return Err(Error::InvalidArgument("not an image or form XObject"));
        },
    };
    let is_xobject = match d.get(&Name::new("Subtype")) {
        Some(Object::Name(n)) => crate::object::name::bytes_equal(n.as_bytes(), "Image".as_bytes())
            || crate::object::name::bytes_equal(n.as_bytes(), "Form".as_bytes()),
        _ => false,
    };
    if !is_xobject {
        return Err(Error::InvalidArgument("not an image or form XObject"));
    }
    match d.get(&Name::new("OC")) {
        Some(Object::Reference(x)) => Ok(x.num),
        _ => Ok(0),
    }
}


/// Nesting cap for visibility-expression evaluation and parsing.
pub const MAX_VE_DEPTH: u32 = 32;

/// Whether a membership dictionary `m` has `/Type /OCMD`.
pub open spec fn is_ocmd(m: Map<Seq<u8>, PdfValue>) -> bool {
    entry(m, "Type".spec_bytes()) == Some(PdfValue::Name("OCMD".spec_bytes()))
}

/// The visibility (`true` = visible) of the `/VE` expression `arr` at
/// nesting `depth`, given the hidden groups `h`: `/Not`, `/And`, `/Or` over
/// operands; malformed nodes, and nodes past the nesting cap, are visible.
pub open spec fn ve_visible(v: StoreView, h: Set<u32>, arr: Seq<PdfValue>, depth: nat) -> bool
    decreases 40 - depth, arr.len() + 2,
{
    if depth > MAX_VE_DEPTH {
        true
    } else if arr.len() == 0 || !(arr[0] is Name) {
        true
    } else {
        let op = arr[0]->Name_0;
        if op == "Not".spec_bytes() {
            arr.len() < 2 || !operand_visible(v, h, arr[1], depth)
        } else if op == "And".spec_bytes() {
            all_operands(v, h, arr, 1, depth)
        } else if op == "Or".spec_bytes() {
            any_operand(v, h, arr, 1, depth)
        } else {
            true
        }
    }
}

/// The bytes of the visibility-expression operators.
proof fn lemma_ve_op_bytes()
    ensures
        "Not".spec_bytes() == seq![78u8, 111u8, 116u8],
        "And".spec_bytes() == seq![65u8, 110u8, 100u8],
        "Or".spec_bytes() == seq![79u8, 114u8],
{
    reveal_strlit("Not");
    crate::object::name::lemma_ascii_str("Not", seq![78u8, 111u8, 116u8]);
    reveal_strlit("And");
    crate::object::name::lemma_ascii_str("And", seq![65u8, 110u8, 100u8]);
    reveal_strlit("Or");
    crate::object::name::lemma_ascii_str("Or", seq![79u8, 114u8]);
}

/// Whether every item of `ops` is a reference to a group: it resolves to
/// something other than an expression array.
pub open spec fn group_operands(v: StoreView, ops: Seq<PdfValue>) -> bool {
    forall|i: int| 0 <= i < ops.len() ==> (#[trigger] ops[i]) is Reference
        && resolve_spec(v, ops[i]->Reference_0) is Ok
        && !(resolve_spec(v, ops[i]->Reference_0)->Ok_0 is Array)
}

/// Whether the group `ops[i]` refers to is hidden.
pub open spec fn operand_hidden(h: Set<u32>, ops: Seq<PdfValue>, i: int) -> bool {
    h.contains(ops[i]->Reference_0.num)
}

proof fn lemma_group_operands(v: StoreView, h: Set<u32>, arr: Seq<PdfValue>, ops: Seq<PdfValue>, i: nat, depth: nat)
    requires
        depth <= MAX_VE_DEPTH,
        group_operands(v, ops),
        arr.len() == ops.len() + 1,
        forall|j: int| 0 <= j < ops.len() ==> arr[j + 1] == ops[j],
        1 <= i <= arr.len(),
    ensures
        all_operands(v, h, arr, i, depth) <==> forall|j: int| i - 1 <= j < ops.len() ==> !operand_hidden(h, ops, j),
        any_operand(v, h, arr, i, depth) <==> exists|j: int| i - 1 <= j < ops.len() && !operand_hidden(h, ops, j),
    decreases arr.len() - i,
{
    if i < arr.len() {
        lemma_group_operands(v, h, arr, ops, i + 1, depth);
        let j0 = i - 1;
        assert(arr[i as int] == ops[j0]);
        assert(operand_visible(v, h, arr[i as int], depth) == !operand_hidden(h, ops, j0));
        if any_operand(v, h, arr, i + 1, depth) {
            let w = choose|j: int| i <= j < ops.len() && !operand_hidden(h, ops, j);
            assert(i - 1 <= w < ops.len() && !operand_hidden(h, ops, w));
        }
    }
}

/// Visibility expressions over groups: `[/Not g]` is visible exactly when
/// `g` is hidden; `[/And g1 … gn]` when none of the groups is hidden; `[/Or
/// g1 … gn]` when some group is not hidden (within the nesting cap).
pub proof fn law_visibility_operators(v: StoreView, h: Set<u32>, ops: Seq<PdfValue>, depth: nat)
    requires
        depth <= MAX_VE_DEPTH,
        group_operands(v, ops),
    ensures
        ops.len() > 0 ==> (ve_visible(v, h, seq![PdfValue::Name("Not".spec_bytes())] + ops, depth)
            <==> operand_hidden(h, ops, 0)),
        ve_visible(v, h, seq![PdfValue::Name("And".spec_bytes())] + ops, depth)
            <==> forall|j: int| 0 <= j < ops.len() ==> !operand_hidden(h, ops, j),
        ve_visible(v, h, seq![PdfValue::Name("Or".spec_bytes())] + ops, depth)
            <==> exists|j: int| 0 <= j < ops.len() && !operand_hidden(h, ops, j),
{
    lemma_ve_op_bytes();
    let not_arr = seq![PdfValue::Name("Not".spec_bytes())] + ops;
    let and_arr = seq![PdfValue::Name("And".spec_bytes())] + ops;
    let or_arr = seq![PdfValue::Name("Or".spec_bytes())] + ops;
    assert(and_arr[0] == PdfValue::Name("And".spec_bytes()));
    assert(or_arr[0] == PdfValue::Name("Or".spec_bytes()));
    assert(not_arr[0] == PdfValue::Name("Not".spec_bytes()));
    lemma_group_operands(v, h, and_arr, ops, 1, depth);
    lemma_group_operands(v, h, or_arr, ops, 1, depth);
    if ops.len() > 0 {
        assert(not_arr[1] == ops[0]);
        assert(operand_visible(v, h, not_arr[1], depth) == !operand_hidden(h, ops, 0));
    }
}

/// The visibility of one `/VE` operand: a group reference is visible unless
/// the group is hidden; a nested expression (direct or referenced) is
/// evaluated one level deeper; anything else is visible.
pub open spec fn operand_visible(v: StoreView, h: Set<u32>, o: PdfValue, depth: nat) -> bool
    decreases 40 - depth, 0nat,
{
    if depth > MAX_VE_DEPTH {
        true
    } else {
        match o {
            PdfValue::Reference(r) => match resolve_spec(v, r) {
                Ok(PdfValue::Array(nested)) => ve_visible(v, h, nested, depth + 1),
                Ok(_) => !h.contains(r.num),
                Err(_) => true,
            },
            PdfValue::Array(nested) => ve_visible(v, h, nested, depth + 1),
            _ => true,
        }
    }
}

/// Whether every operand of `arr` from index `i` on is visible.
pub open spec fn all_operands(v: StoreView, h: Set<u32>, arr: Seq<PdfValue>, i: nat, depth: nat) -> bool
    decreases 40 - depth, arr.len() + 1 - i,
{
    if depth > MAX_VE_DEPTH || i >= arr.len() {
        true
    } else {
        operand_visible(v, h, arr[i as int], depth) && all_operands(v, h, arr, i + 1, depth)
    }
}

/// Whether some operand of `arr` from index `i` on is visible.
pub open spec fn any_operand(v: StoreView, h: Set<u32>, arr: Seq<PdfValue>, i: nat, depth: nat) -> bool
    decreases 40 - depth, arr.len() + 1 - i,
{
    if depth > MAX_VE_DEPTH || i >= arr.len() {
        false
    } else {
        operand_visible(v, h, arr[i as int], depth) || any_operand(v, h, arr, i + 1, depth)
    }
}

/// The groups of a membership dictionary's `/OCGs` (a reference, to an
/// array or a single group, or an array of references); `None` when the
/// entry is absent.
pub open spec fn ocmd_ocgs_spec(v: StoreView, m: Map<Seq<u8>, PdfValue>) -> Option<Seq<u32>> {
    match entry(m, "OCGs".spec_bytes()) {
        None => None,
        Some(PdfValue::Reference(r)) => match resolve_spec(v, r) {
            Ok(PdfValue::Array(a)) => Some(ref_numbers(a)),
            Ok(_) => Some(seq![r.num]),
            Err(_) => Some(Seq::empty()),
        },
        Some(PdfValue::Array(items)) => Some(ref_numbers(items)),
        Some(_) => Some(Seq::empty()),
    }
}

/// Whether content under the membership dictionary `m` is hidden: by its
/// `/VE` expression when present, else by its groups under the `/P`
/// policy (`AnyOn` by default).
pub open spec fn ocmd_hidden_spec(v: StoreView, h: Set<u32>, m: Map<Seq<u8>, PdfValue>, depth: nat) -> bool {
    match array_of(dict_key_spec(v, m, "VE".spec_bytes())) {
        Some(arr) => !ve_visible(v, h, arr, depth + 1),
        None => {
            let ocgs = match ocmd_ocgs_spec(v, m) {
                Some(o) => o,
                None => Seq::empty(),
            };
            let policy = match entry(m, "P".spec_bytes()) {
                Some(PdfValue::Name(p)) => p,
                _ => "AnyOn".spec_bytes(),
            };
            policy_spec(h, policy, ocgs)
        },
    }
}

/// Whether content governed by the `/OC` value `oc` (a group or membership
/// dictionary, by reference or direct) is hidden.
pub open spec fn hidden_at_spec(v: StoreView, h: Set<u32>, oc: PdfValue, depth: nat) -> bool {
    if depth > MAX_VE_DEPTH {
        false
    } else {
        match oc {
            PdfValue::Reference(r) => match resolve_spec(v, r) {
                Ok(val) => match dict_of(val) {
                    Some(m) => if is_ocmd(m) { ocmd_hidden_spec(v, h, m, depth) } else { h.contains(r.num) },
                    None => false,
                },
                Err(_) => false,
            },
            PdfValue::Dictionary(m) => is_ocmd(m) && ocmd_hidden_spec(v, h, m, depth),
            _ => false,
        }
    }
}

/// The groups of a membership dictionary's `/OCGs`; `None` when absent.
pub fn ocmd_ocgs(store: &ObjectStore, d: &Dict) -> (r: Option<Vec<u32>>)
    ensures
        match r {
            Some(g) => ocmd_ocgs_spec(store@, d.map()) == Some(g@),
            None => ocmd_ocgs_spec(store@, d.map()) is None,
        },
{
    match d.get(&Name::new("OCGs")) {
        None => None,
        Some(Object::Reference(x)) => match store.resolve(*x) {
            Ok(obj) => match obj.as_array() {
                Some(items) => Some(refs_in(items)),
                None => {
                    let mut g: Vec<u32> = Vec::new();
                    g.push(x.num);
                    proof {
                        assert(g@ =~= seq![x.num]);
                    }
                    Some(g)
                },
            },
            Err(_) => Some(Vec::new()),
        },
        Some(Object::Array(items)) => Some(refs_in(items.as_slice())),
        Some(_) => Some(Vec::new()),
    }
}

impl OcVisibility {
    /// The visibility of one `/VE` operand.
    fn operand_visible(&self, store: &ObjectStore, o: &Object, depth: u32) -> (r: bool)
        ensures
            r == operand_visible(store@, self.hidden_set(), o.value(), depth as nat),
        decreases 40 - depth, 0nat,
    {
        if depth > MAX_VE_DEPTH {
            return true;
        }
        match o {
            Object::Reference(x) => match store.resolve(*x) {
                Ok(obj) => match obj.as_array() {
                    Some(nested) => self.eval_ve(store, nested, depth + 1),
                    None => !self.hidden.contains(&x.num),
                },
                Err(_) => true,
            },
            Object::Array(nested) => self.eval_ve(store, nested.as_slice(), depth + 1),
            _ => true,
        }
    }

    /// Evaluates a `/VE` array to its visibility (`true` = visible).
    fn eval_ve(&self, store: &ObjectStore, arr: &[Object], depth: u32) -> (r: bool)
        ensures
            r == ve_visible(store@, self.hidden_set(), Object::array_values(arr@, arr@.len() as int), depth as nat),
        decreases 40 - depth, arr@.len() + 2,
    {
        let ghost av = Object::array_values(arr@, arr@.len() as int);
        let ghost h = self.hidden_set();
        proof {
            Object::lemma_array_values_index(arr@, arr@.len() as int);
        }
        if depth > MAX_VE_DEPTH {
            return true;
        }
        if arr.len() == 0 {
            return true;
        }
        let op = match arr[0].as_name() {
            Some(n) => n,
            None => {
                return true;
            },
        };
        if crate::object::name::bytes_equal(op.as_bytes(), "Not".as_bytes()) {
            if arr.len() < 2 {
                return true;
            }
            return !self.operand_visible(store, &arr[1], depth);
        }
        let is_and = crate::object::name::bytes_equal(op.as_bytes(), "And".as_bytes());
        if !is_and && !crate::object::name::bytes_equal(op.as_bytes(), "Or".as_bytes()) {
            return true;
        }
        let mut i: usize = 1;
        while i < arr.len()
            invariant
                1 <= i <= arr@.len(),
                depth <= MAX_VE_DEPTH,
                av == Object::array_values(arr@, arr@.len() as int),
                av.len() == arr@.len(),
                forall|k: int| 0 <= k < arr@.len() ==> #[trigger] av[k] == arr@[k].value(),
                h == self.hidden_set(),
                av[0] == PdfValue::Name(op@),
                op@ != "Not".spec_bytes(),
                is_and == (op@ == "And".spec_bytes()),
                !is_and ==> op@ == "Or".spec_bytes(),
                is_and ==> all_operands(store@, h, av, 1, depth as nat) == all_operands(store@, h, av, i as nat, depth as nat),
                !is_and ==> any_operand(store@, h, av, 1, depth as nat) == any_operand(store@, h, av, i as nat, depth as nat),
            decreases arr@.len() - i,
        {
            let vis = self.operand_visible(store, &arr[i], depth);
            proof {
                assert(av[i as int] == arr@[i as int].value());
            }
            if is_and && !vis {
                return false;
            }
            if !is_and && vis {
                return true;
            }
            i = i + 1;
        }
        is_and
    }

    /// Evaluates a membership dictionary: its `/VE` expression when
    /// present, else its groups under the `/P` policy.
    fn ocmd_hidden(&self, store: &ObjectStore, d: &Dict, depth: u32) -> (r: bool)
        requires
            depth <= MAX_VE_DEPTH,
        ensures
            r == ocmd_hidden_spec(store@, self.hidden_set(), d.map(), depth as nat),
    {
        let got = store.resolve_dict_key(d, &Name::new("VE"));
        match read_array(got, Ghost(dict_key_spec(store@, d.map(), "VE".spec_bytes()))) {
            Some(arr) => {
                return !self.eval_ve(store, arr.as_slice(), depth + 1);
            },
            None => {},
        }
        let ocgs = match ocmd_ocgs(store, d) {
            Some(g) => g,
            None => Vec::new(),
        };
        match d.get(&Name::new("P")) {
            Some(Object::Name(p)) => self.policy_hidden(p.as_bytes(), ocgs.as_slice()),
            _ => self.policy_hidden("AnyOn".as_bytes(), ocgs.as_slice()),
        }
    }

    /// Whether content governed by `/OC` value `oc` is hidden, at nesting
    /// `depth`.
    fn is_hidden_at(&self, store: &ObjectStore, oc: &Object, depth: u32) -> (r: bool)
        ensures
            r == hidden_at_spec(store@, self.hidden_set(), oc.value(), depth as nat),
    {
        if depth > MAX_VE_DEPTH {
            return false;
        }
        match oc {
            Object::Reference(x) => {
                let obj = match store.resolve(*x) {
                    Ok(o) => o,
                    Err(_) => {
                        return false;
                    },
                };
                match obj.as_dict() {
                    Some(d) => if is_type(d, "OCMD".as_bytes()) {
                        self.ocmd_hidden(store, d, depth)
                    } else {
                        self.hidden.contains(&x.num)
                    },
                    None => false,
                }
            },
            Object::Dictionary(d) => is_type(d, "OCMD".as_bytes()) && self.ocmd_hidden(store, d, depth),
            _ => false,
        }
    }

    /// Whether content governed by the `/OC` value `oc` (a group or
    /// membership dictionary, by reference or direct) is hidden.
    pub fn is_hidden(&self, store: &ObjectStore, oc: &Object) -> (r: bool)
        ensures
            r == (self.hidden_set() != Set::<u32>::empty() && hidden_at_spec(store@, self.hidden_set(), oc.value(), 0)),
    {
        if !self.hides_anything() {
            return false;
        }
        self.is_hidden_at(store, oc, 0)
    }
}


/// One layer-panel row, as values (its position is its number).
pub struct UiRow {
    /// The group's object number; 0 for a label row.
    pub ocg: u32,
    /// The display text.
    pub text: Seq<char>,
    /// Nesting depth.
    pub depth: int,
    /// `"label"`, `"radiobox"` or `"checkbox"`.
    pub kind: &'static str,
    /// Whether the layer is ON.
    pub on: bool,
    /// Whether the layer is locked.
    pub locked: bool,
}

/// Nesting cap for `/Order` flattening.
pub const MAX_ORDER_DEPTH: i32 = 64;

/// The row of group `num` at `depth` under `cfg`: its name and state when
/// it reads as a dictionary, else an empty, OFF, unlocked row.
pub open spec fn ocg_row(v: StoreView, num: u32, depth: int, cfg: ConfigView) -> UiRow {
    let is_dict = match lookup(v, num) {
        Ok(val) => dict_of(val) is Some,
        Err(_) => false,
    };
    let text = match lookup(v, num) {
        Ok(val) => match dict_of(val) {
            Some(m) => name_text(m),
            None => Seq::empty(),
        },
        Err(_) => Seq::empty(),
    };
    UiRow {
        ocg: num,
        text,
        depth,
        kind: cfg.ui_kind(num),
        on: is_dict && cfg.is_on(num),
        locked: is_dict && cfg.locked.contains(num),
    }
}

/// The rows `/Order` yields at `depth`: a group reference is a row; a nested
/// array contributes its leading string as a locked label row, then its
/// remaining entries one level deeper; anything else is skipped. Nothing
/// past the nesting cap.
pub open spec fn order_rows(v: StoreView, order: Seq<PdfValue>, depth: int, cfg: ConfigView) -> Seq<UiRow>
    decreases 70 - depth, order.len() + 2,
{
    if depth > MAX_ORDER_DEPTH {
        Seq::empty()
    } else {
        order_rows_from(v, order, 0, depth, cfg)
    }
}

/// The rows of the `/Order` entry `o` at `depth`.
pub open spec fn entry_rows(v: StoreView, o: PdfValue, depth: int, cfg: ConfigView) -> Seq<UiRow>
    decreases 70 - depth, 0nat,
{
    if depth > MAX_ORDER_DEPTH {
        Seq::empty()
    } else {
        match o {
            PdfValue::Reference(r) => seq![ocg_row(v, r.num, depth, cfg)],
            PdfValue::Array(nested) => if nested.len() > 0 && nested[0] is Str {
                seq![UiRow { ocg: 0, text: decode_text_spec(nested[0]->Str_0), depth, kind: "label", on: false, locked: true }]
                    + order_rows(v, nested.subrange(1, nested.len() as int), depth + 1, cfg)
            } else {
                order_rows(v, nested, depth + 1, cfg)
            },
            _ => Seq::empty(),
        }
    }
}

/// The rows of `/Order` entries from index `i` on.
pub open spec fn order_rows_from(v: StoreView, order: Seq<PdfValue>, i: nat, depth: int, cfg: ConfigView) -> Seq<UiRow>
    decreases 70 - depth, order.len() + 1 - i,
{
    if depth > MAX_ORDER_DEPTH || i >= order.len() {
        Seq::empty()
    } else {
        entry_rows(v, order[i as int], depth, cfg) + order_rows_from(v, order, i + 1, depth, cfg)
    }
}

/// Whether the row `r` shows `u` (its number aside).
pub open spec fn row_matches(r: LayerUiConfig, u: UiRow) -> bool {
    &&& r.ocg == u.ocg
    &&& r.text@ == u.text
    &&& r.depth == u.depth
    &&& r.kind == u.kind
    &&& r.on == u.on
    &&& r.locked == u.locked
}

/// Whether `out` is `before` followed by rows showing `us`.
pub open spec fn appended(before: Seq<LayerUiConfig>, out: Seq<LayerUiConfig>, us: Seq<UiRow>) -> bool {
    &&& out.len() == before.len() + us.len()
    &&& forall|i: int| 0 <= i < before.len() ==> #[trigger] out[i] == before[i]
    &&& forall|k: int| 0 <= k < us.len() ==> row_matches(#[trigger] out[before.len() + k], us[k])
}

/// The row of group `num` at `depth` under `cfg`.
fn make_ocg_row(store: &ObjectStore, num: u32, depth: i32, cfg: &OcConfig) -> (r: LayerUiConfig)
    ensures
        row_matches(r, ocg_row(store@, num, depth as int, cfg@)),
{
    let info = read_ocg(store, num, cfg);
    let kind = cfg.ui_kind(num);
    LayerUiConfig { number: 0, ocg: num, text: info.name, depth, kind, on: info.on, locked: info.locked }
}

/// Flattens `/Order` into depth-tagged rows appended to `out`.
fn walk_order(store: &ObjectStore, order: &[Object], depth: i32, cfg: &OcConfig, out: &mut Vec<LayerUiConfig>)
    requires
        depth >= 0,
    ensures
        appended(old(out)@, final(out)@, order_rows(store@, Object::array_values(order@, order@.len() as int), depth as int, cfg@)),
    decreases 70 - depth, order@.len() + 2,
{
    let ghost av = Object::array_values(order@, order@.len() as int);
    let ghost start = out@;
    proof {
        Object::lemma_array_values_index(order@, order@.len() as int);
    }
    if depth > MAX_ORDER_DEPTH {
        return;
    }
    let ghost mut done: Seq<UiRow> = Seq::empty();
    let mut i: usize = 0;
    while i < order.len()
        invariant
            0 <= depth <= MAX_ORDER_DEPTH,
            i <= order@.len(),
            av == Object::array_values(order@, order@.len() as int),
            av.len() == order@.len(),
            forall|k: int| 0 <= k < order@.len() ==> #[trigger] av[k] == order@[k].value(),
            done + order_rows_from(store@, av, i as nat, depth as int, cfg@) == order_rows_from(store@, av, 0, depth as int, cfg@),
            appended(start, out@, done),
        decreases order@.len() - i,
    {
        let ghost before = out@;
        let ghost here = entry_rows(store@, av[i as int], depth as int, cfg@);
        proof {
            assert(av[i as int] == order@[i as int].value());
        }
        match &order[i] {
            Object::Reference(x) => {
                let row = make_ocg_row(store, x.num, depth, cfg);
                out.push(row);
                proof {
                    assert(here =~= seq![ocg_row(store@, x.num, depth as int, cfg@)]);
                }
            },
            Object::Array(nested) => {
                proof {
                    Object::lemma_array_values_index(nested@, nested@.len() as int);
                }
                let mut first_label = false;
                if nested.len() > 0 {
                    match &nested[0] {
                        Object::String(s) => {
                            let text = decode_text(s.as_bytes());
                            out.push(LayerUiConfig { number: 0, ocg: 0, text, depth, kind: "label", on: false, locked: true });
                            first_label = true;
                        },
                        _ => {},
                    }
                }
                let ghost mid = out@;
                let rest: &[Object] = if first_label {
                    vstd::slice::slice_subrange(nested.as_slice(), 1, nested.len())
                } else {
                    nested.as_slice()
                };
                proof {
                    let nv = Object::array_values(nested@, nested@.len() as int);
                    Object::lemma_array_values_index(rest@, rest@.len() as int);
                    if first_label {
                        assert(Object::array_values(rest@, rest@.len() as int) =~= nv.subrange(1, nv.len() as int));
                    } else {
                        assert(Object::array_values(rest@, rest@.len() as int) =~= nv);
                    }
                }
                walk_order(store, rest, depth + 1, cfg, out);
                proof {
                    let nv = Object::array_values(nested@, nested@.len() as int);
                    let sub = order_rows(store@, Object::array_values(rest@, rest@.len() as int), depth + 1, cfg@);
                    if first_label {
                        let lab = UiRow { ocg: 0, text: decode_text_spec(nv[0]->Str_0), depth: depth as int, kind: "label", on: false, locked: true };
                        assert(here == seq![lab] + sub);
                        assert forall|k: int| 0 <= k < here.len() implies row_matches(#[trigger] out@[before.len() + k], here[k]) by {
                            if k == 0 {
                                assert(out@[before.len() + k] == mid[before.len() as int]);
                            } else {
                                assert(here[k] == sub[k - 1]);
                                assert(out@[before.len() + k] == out@[mid.len() + (k - 1)]);
                            }
                        }
                    } else {
                        assert(here == sub);
                    }
                }
            },
            _ => {
                proof {
                    assert(here =~= Seq::<UiRow>::empty());
                }
            },
        }
        proof {
            assert(appended(before, out@, here));
            assert(order_rows_from(store@, av, i as nat, depth as int, cfg@)
                == here + order_rows_from(store@, av, (i + 1) as nat, depth as int, cfg@));
            assert(done + order_rows_from(store@, av, i as nat, depth as int, cfg@)
                =~= (done + here) + order_rows_from(store@, av, (i + 1) as nat, depth as int, cfg@));
            assert forall|k: int| 0 <= k < (done + here).len() implies row_matches(#[trigger] out@[start.len() + k], (done + here)[k]) by {
                if k < done.len() {
                    assert(out@[start.len() + k] == before[start.len() + k]);
                } else {
                    assert(out@[start.len() + k] == out@[before.len() + (k - done.len())]);
                }
            }
            done = done + here;
        }
        i = i + 1;
    }
    proof {
        assert(order_rows_from(store@, av, i as nat, depth as int, cfg@) =~= Seq::<UiRow>::empty());
        assert(done =~= order_rows_from(store@, av, 0, depth as int, cfg@));
    }
}


/// The layer-panel rows of the document: the active configuration's
/// `/Order` flattened, or, when that yields nothing, one row per group in
/// `/OCGs` order at depth 0; nothing for a document without groups.
pub open spec fn ui_rows_spec(v: StoreView) -> Seq<UiRow> {
    match ocp_spec(v) {
        None => Seq::empty(),
        Some(ocp) => {
            let nums = ref_nums_spec(v, ocp, "OCGs".spec_bytes());
            if nums.len() == 0 {
                Seq::empty()
            } else {
                let cfg = active_spec(v, ocp);
                let walked = match cfg.order {
                    Some(o) => order_rows(v, o, 0, cfg),
                    None => Seq::empty(),
                };
                if walked.len() > 0 {
                    walked
                } else {
                    Seq::new(nums.len(), |i: int| ocg_row(v, nums[i], 0, cfg))
                }
            }
        },
    }
}

/// The layer-panel rows, numbered by position: the active configuration's
/// `/Order` flattened into depth-tagged rows, or, when `/Order` yields
/// nothing, the groups in `/OCGs` order at depth 0.
pub fn layer_ui_configs(store: &ObjectStore) -> (r: Vec<LayerUiConfig>)
    ensures
        r@.len() == ui_rows_spec(store@).len(),
        forall|i: int| 0 <= i < r@.len() ==> (#[trigger] r@[i]).number == i && row_matches(r@[i], ui_rows_spec(store@)[i]),
{
    let mut out: Vec<LayerUiConfig> = Vec::new();
    let ocp = match oc_properties(store) {
        Some(d) => d,
        None => {
            return out;
        },
    };
    let nums = ocg_object_numbers(store, &ocp);
    if nums.len() == 0 {
        return out;
    }
    let cfg = OcConfig::active(store, &ocp);
    let ghost walked = match cfg@.order {
        Some(o) => order_rows(store@, o, 0, cfg@),
        None => Seq::<UiRow>::empty(),
    };
    match &cfg.order {
        Some(order) => {
            walk_order(store, order.as_slice(), 0, &cfg, &mut out);
        },
        None => {},
    }
    let ghost rows: Seq<UiRow> = if out@.len() > 0 { walked } else { Seq::new(nums@.len(), |i: int| ocg_row(store@, nums@[i], 0, cfg@)) };
    if out.len() == 0 {
        let mut i: usize = 0;
        while i < nums.len()
            invariant
                i <= nums@.len(),
                cfg@ == active_spec(store@, ocp.map()),
                out@.len() == i,
                forall|k: int| 0 <= k < i ==> row_matches(#[trigger] out@[k], ocg_row(store@, nums@[k], 0, cfg@)),
            decreases nums@.len() - i,
        {
            let row = make_ocg_row(store, nums[i], 0, &cfg);
            out.push(row);
            i = i + 1;
        }
    }
    proof {
        assert(out@.len() == rows.len());
        assert forall|k: int| 0 <= k < rows.len() implies row_matches(#[trigger] out@[k], rows[k]) by {
            if walked.len() > 0 {
                assert(out@[0 + k] == out@[k]);
            }
        }
    }
    let mut numbered: Vec<LayerUiConfig> = Vec::new();
    let mut j: usize = 0;
    while j < out.len()
        invariant
            j <= out@.len(),
            numbered@.len() == j,
            forall|k: int| 0 <= k < j ==> (#[trigger] numbered@[k]).number == k && row_matches(numbered@[k], rows[k]),
            out@.len() == rows.len(),
            forall|k: int| 0 <= k < rows.len() ==> row_matches(#[trigger] out@[k], rows[k]),
        decreases out@.len() - j,
    {
        let r = &out[j];
        numbered.push(LayerUiConfig {
            number: j,
            ocg: r.ocg,
            text: r.text.clone(),
            depth: r.depth,
            kind: r.kind,
            on: r.on,
            locked: r.locked,
        });
        j = j + 1;
    }
    numbered
}

/// Whether group `m` shares one of the first `n` radio groups with `ocg`.
pub open spec fn shares_group_upto(rb: Seq<Seq<u32>>, ocg: u32, m: u32, n: int) -> bool {
    exists|g: int| 0 <= g < n && (#[trigger] rb[g]).contains(ocg) && rb[g].contains(m)
}

/// Whether group `m` shares a radio group with `ocg`.
pub open spec fn in_radio_group(rb: Seq<Seq<u32>>, ocg: u32, m: u32) -> bool {
    shares_group_upto(rb, ocg, m, rb.len() as int)
}

/// `base` with every group sharing a radio group with `ocg` forced OFF.
pub open spec fn radio_cleared(base: Map<u32, bool>, rb: Seq<Seq<u32>>, ocg: u32) -> Map<u32, bool> {
    Map::new(
        |m: u32| base.contains_key(m) || in_radio_group(rb, ocg, m),
        |m: u32| if in_radio_group(rb, ocg, m) { false } else { base[m] },
    )
}

/// The layer view after acting on panel row `row` with `action`.
pub open spec fn ui_action_overrides(v: StoreView, row: UiRow, action: u8) -> Map<u32, bool> {
    let on = if action == 1 { !row.on } else if action == 2 { false } else { true };
    let cleared = if on && row.kind.spec_bytes() == "radiobox".spec_bytes() {
        match ocp_spec(v) {
            Some(ocp) => radio_cleared(v.layer_overrides, active_spec(v, ocp).rbgroups, row.ocg),
            None => v.layer_overrides,
        }
    } else {
        v.layer_overrides
    };
    cleared.insert(row.ocg, on)
}

/// Sets (`action` 0), toggles (1) or clears (2) the layer-panel row
/// `number` in the in-memory view. Label and locked rows are left
/// untouched; switching a radio-box row ON first switches OFF the other
/// members of its radio groups. Nothing is written to the objects.
pub fn set_layer_ui_config(store: &mut ObjectStore, number: usize, action: u8) -> (r: Result<(), Error>)
    ensures
        number >= ui_rows_spec(old(store)@).len() ==> r == Err::<(), Error>(Error::InvalidArgument("Out of range UI entry selected"))
            && final(store)@ == old(store)@,
        number < ui_rows_spec(old(store)@).len() ==> r is Ok && {
            let row = ui_rows_spec(old(store)@)[number as int];
            if row.kind.spec_bytes() == "label".spec_bytes() || row.locked {
                final(store)@ == old(store)@
            } else {
                final(store)@ == (StoreView { layer_overrides: ui_action_overrides(old(store)@, row, action), ..old(store)@ })
            }
        },
{
    let rows = layer_ui_configs(store);
    if number >= rows.len() {
        return Err(Error::InvalidArgument("Out of range UI entry selected"));
    }
    let row = &rows[number];
    let ghost urow = ui_rows_spec(store@)[number as int];
    if crate::object::name::bytes_equal(row.kind.as_bytes(), "label".as_bytes()) || row.locked {
        return Ok(());
    }
    let on = if action == 1 {
        !row.on
    } else if action == 2 {
        false
    } else {
        true
    };
    let mut view = store.layer_view();
    let ghost base = view.overrides@;
    proof {
        assert(row_matches(*row, urow));
    }
    if on && crate::object::name::bytes_equal(row.kind.as_bytes(), "radiobox".as_bytes()) {
        match oc_properties(store) {
            Some(ocp) => {
                let cfg = OcConfig::active(store, &ocp);
                let ghost rb = cfg@.rbgroups;
                let ocg = row.ocg;
                let mut g: usize = 0;
                while g < cfg.rbgroups.len()
                    invariant
                        g <= cfg.rbgroups@.len(),
                        rb == cfg@.rbgroups,
                        rb.len() == cfg.rbgroups@.len(),
                        view.config == store@.layer_config,
                        forall|q: int| 0 <= q < rb.len() ==> #[trigger] rb[q] == cfg.rbgroups@[q]@,
                        forall|m: u32| #[trigger] view.overrides@.contains_key(m) <==> (base.contains_key(m)
                            || shares_group_upto(rb, ocg, m, g as int)),
                        forall|m: u32| #[trigger] view.overrides@.contains_key(m) ==> view.overrides@[m] == (if shares_group_upto(rb, ocg, m, g as int) {
                            false
                        } else {
                            base[m]
                        }),
                    decreases cfg.rbgroups@.len() - g,
                {
                    let group = &cfg.rbgroups[g];
                    if contains_u32(group, ocg) {
                        let mut k: usize = 0;
                        while k < group.len()
                            invariant
                                k <= group@.len(),
                                g < rb.len(),
                                view.config == store@.layer_config,
                                rb[g as int] == group@,
                                group@.contains(ocg),
                                forall|m: u32| #[trigger] view.overrides@.contains_key(m) <==> (base.contains_key(m)
                                    || shares_group_upto(rb, ocg, m, g as int)
                                    || group@.take(k as int).contains(m)),
                                forall|m: u32| #[trigger] view.overrides@.contains_key(m) ==> view.overrides@[m] == (if shares_group_upto(rb, ocg, m, g as int)
                                    || group@.take(k as int).contains(m) {
                                    false
                                } else {
                                    base[m]
                                }),
                            decreases group@.len() - k,
                        {
                            let member = group[k];
                            view.overrides.insert(member, false);
                            proof {
                                assert forall|m: u32| group@.take(k + 1).contains(m) <==> (group@.take(k as int).contains(m) || m == member) by {
                                    if group@.take(k + 1).contains(m) {
                                        let j = choose|j: int| 0 <= j < group@.take(k + 1).len() && #[trigger] group@.take(k + 1)[j] == m;
                                        if j < k {
                                            assert(group@.take(k as int)[j] == m);
                                        }
                                    }
                                    if group@.take(k as int).contains(m) {
                                        let j = choose|j: int| 0 <= j < group@.take(k as int).len() && #[trigger] group@.take(k as int)[j] == m;
                                        assert(group@.take(k + 1)[j] == m);
                                    }
                                    if m == member {
                                        assert(group@.take(k + 1)[k as int] == m);
                                    }
                                }
                            }
                            k = k + 1;
                        }
                        proof {
                            assert(group@.take(group@.len() as int) == group@);
                            assert forall|m: u32| #[trigger] shares_group_upto(rb, ocg, m, g + 1)
                                <==> (shares_group_upto(rb, ocg, m, g as int) || group@.contains(m)) by {
                                if group@.contains(m) {
                                    assert(rb[g as int].contains(ocg) && rb[g as int].contains(m));
                                }
                                if shares_group_upto(rb, ocg, m, g + 1) {
                                    let q = choose|q: int| 0 <= q < g + 1 && (#[trigger] rb[q]).contains(ocg) && rb[q].contains(m);
                                    if q < g {
                                        assert(shares_group_upto(rb, ocg, m, g as int));
                                    }
                                }
                            }
                        }
                    } else {
                        proof {
                            assert forall|m: u32| #[trigger] shares_group_upto(rb, ocg, m, g + 1)
                                <==> shares_group_upto(rb, ocg, m, g as int) by {
                                if shares_group_upto(rb, ocg, m, g + 1) {
                                    let q = choose|q: int| 0 <= q < g + 1 && (#[trigger] rb[q]).contains(ocg) && rb[q].contains(m);
                                    assert(q != g);
                                    assert(shares_group_upto(rb, ocg, m, g as int));
                                }
                            }
                        }
                    }
                    g = g + 1;
                }
                proof {
                    assert(view.overrides@ =~= radio_cleared(base, rb, ocg));
                }
            },
            None => {},
        }
    }
    let ghost cleared = view.overrides@;
    view.overrides.insert(row.ocg, on);
    proof {
        let on_s = if action == 1 { !urow.on } else if action == 2 { false } else { true };
        assert(on == on_s);
        let cleared_s = if on_s && urow.kind.spec_bytes() == "radiobox".spec_bytes() {
            match ocp_spec(store@) {
                Some(ocp) => radio_cleared(store@.layer_overrides, active_spec(store@, ocp).rbgroups, urow.ocg),
                None => store@.layer_overrides,
            }
        } else {
            store@.layer_overrides
        };
        assert(cleared == cleared_s);
        assert(view.overrides@ == ui_action_overrides(store@, urow, action));
    }
    store.set_layer_view(view);
    Ok(())
}


/// A visibility expression as values.
pub enum VeView {
    /// A group, by object number.
    Ocg(u32),
    /// An operator node: its name and operands.
    Op(Seq<char>, Seq<VeView>),
}

/// The value of a visibility expression.
pub open spec fn ve_view(e: VeExpr) -> VeView
    decreases e, 0nat,
{
    match e {
        VeExpr::Ocg(n) => VeView::Ocg(n),
        VeExpr::Op { op, args } => VeView::Op(op@, ve_views(args@, args@.len())),
    }
}

/// The values of the first `n` expressions of `s`.
pub open spec fn ve_views(s: Seq<VeExpr>, n: nat) -> Seq<VeView>
    decreases s, n,
{
    if n == 0 || n > s.len() {
        Seq::empty()
    } else {
        ve_views(s, (n - 1) as nat).push(ve_view(s[n - 1]))
    }
}

proof fn lemma_ve_views_push(s: Seq<VeExpr>, x: VeExpr, n: nat)
    requires
        n <= s.len(),
    ensures
        ve_views(s.push(x), n) == ve_views(s, n),
    decreases n,
{
    if n > 0 {
        lemma_ve_views_push(s, x, (n - 1) as nat);
        assert(s.push(x)[n - 1] == s[n - 1]);
    }
}

/// What parsing the `/VE` array `arr` at nesting `depth` gives: an operator
/// node named by the leading name (empty if there is none) whose operands
/// are the group references and nested expressions (direct or referenced)
/// that follow; other operands are dropped, and past the nesting cap there
/// are none.
pub open spec fn parse_ve_spec(v: StoreView, arr: Seq<PdfValue>, depth: nat) -> VeView
    decreases 40 - depth, arr.len() + 2,
{
    let op = if arr.len() > 0 && arr[0] is Name { utf8_lossy(arr[0]->Name_0) } else { Seq::empty() };
    VeView::Op(op, if depth <= MAX_VE_DEPTH { ve_args(v, arr, 1, depth) } else { Seq::empty() })
}

/// The parsed operands of `arr` from index `i` on.
pub open spec fn ve_args(v: StoreView, arr: Seq<PdfValue>, i: nat, depth: nat) -> Seq<VeView>
    decreases 40 - depth, arr.len() + 1 - i,
{
    if depth > MAX_VE_DEPTH || i >= arr.len() {
        Seq::empty()
    } else {
        ve_arg(v, arr[i as int], depth) + ve_args(v, arr, i + 1, depth)
    }
}

/// The parsed form of one operand (none, or one expression).
pub open spec fn ve_arg(v: StoreView, item: PdfValue, depth: nat) -> Seq<VeView>
    decreases 40 - depth, 0nat,
{
    if depth > MAX_VE_DEPTH {
        Seq::empty()
    } else {
        match item {
            PdfValue::Reference(r) => match resolve_spec(v, r) {
                Ok(PdfValue::Array(nested)) => seq![parse_ve_spec(v, nested, depth + 1)],
                _ => seq![VeView::Ocg(r.num)],
            },
            PdfValue::Array(nested) => seq![parse_ve_spec(v, nested, depth + 1)],
            _ => Seq::empty(),
        }
    }
}

/// Parses a `/VE` array into a [`VeExpr`] (unknown operands are dropped).
fn parse_ve(store: &ObjectStore, arr: &[Object], depth: u32) -> (r: VeExpr)
    ensures
        ve_view(r) == parse_ve_spec(store@, Object::array_values(arr@, arr@.len() as int), depth as nat),
    decreases 40 - depth, arr@.len() + 2,
{
    let ghost av = Object::array_values(arr@, arr@.len() as int);
    proof {
        Object::lemma_array_values_index(arr@, arr@.len() as int);
    }
    let op = if arr.len() > 0 {
        match arr[0].as_name() {
            Some(n) => name_string(n),
            None => String::new(),
        }
    } else {
        String::new()
    };
    let mut args: Vec<VeExpr> = Vec::new();
    if depth <= MAX_VE_DEPTH {
        let ghost mut done: Seq<VeView> = Seq::empty();
        let mut i: usize = 1;
        while i < arr.len()
            invariant
                depth <= MAX_VE_DEPTH,
                1 <= i <= arr@.len() || arr@.len() == 0,
                av == Object::array_values(arr@, arr@.len() as int),
                av.len() == arr@.len(),
                forall|k: int| 0 <= k < arr@.len() ==> #[trigger] av[k] == arr@[k].value(),
                ve_views(args@, args@.len()) == done,
                done + ve_args(store@, av, i as nat, depth as nat) == ve_args(store@, av, 1, depth as nat),
            decreases arr@.len() - i,
        {
            let ghost here = ve_arg(store@, av[i as int], depth as nat);
            proof {
                assert(av[i as int] == arr@[i as int].value());
            }
            let ghost before = args@;
            match &arr[i] {
                Object::Reference(x) => {
                    let e = match store.resolve(*x) {
                        Ok(obj) => match obj.as_array() {
                            Some(nested) => parse_ve(store, nested, depth + 1),
                            None => VeExpr::Ocg(x.num),
                        },
                        Err(_) => VeExpr::Ocg(x.num),
                    };
                    args.push(e);
                    proof {
                        lemma_ve_views_push(before, e, before.len());
                        assert(here =~= seq![ve_view(e)]);
                    }
                },
                Object::Array(nested) => {
                    let e = parse_ve(store, nested.as_slice(), depth + 1);
                    args.push(e);
                    proof {
                        lemma_ve_views_push(before, e, before.len());
                        assert(here =~= seq![ve_view(e)]);
                    }
                },
                _ => {
                    proof {
                        assert(here =~= Seq::<VeView>::empty());
                    }
                },
            }
            proof {
                assert(ve_args(store@, av, i as nat, depth as nat) == here + ve_args(store@, av, (i + 1) as nat, depth as nat));
                assert(done + ve_args(store@, av, i as nat, depth as nat)
                    =~= (done + here) + ve_args(store@, av, (i + 1) as nat, depth as nat));
                assert(ve_views(args@, args@.len()) =~= done + here);
                done = done + here;
            }
            i = i + 1;
        }
        proof {
            if arr@.len() > 0 {
                assert(ve_args(store@, av, i as nat, depth as nat) =~= Seq::<VeView>::empty());
            } else {
                assert(ve_args(store@, av, 1, depth as nat) =~= Seq::<VeView>::empty());
            }
        }
    } else {
        proof {
            assert(ve_views(args@, args@.len()) =~= Seq::<VeView>::empty());
        }
    }
    VeExpr::Op { op, args }
}

/// Whether `info` is the reading of membership dictionary `m` (object
/// `xref`): its groups, its `/P` policy name and its parsed `/VE`.
pub open spec fn ocmd_info_ok(v: StoreView, xref: u32, m: Map<Seq<u8>, PdfValue>, info: OcmdInfo) -> bool {
    &&& info.xref == xref
    &&& match info.ocgs {
        Some(g) => ocmd_ocgs_spec(v, m) == Some(g@),
        None => ocmd_ocgs_spec(v, m) is None,
    }
    &&& crate::api::opt_view(info.policy) == (match entry(m, "P".spec_bytes()) {
        Some(PdfValue::Name(p)) => Some(utf8_lossy(p)),
        _ => None,
    })
    &&& match info.ve {
        Some(e) => array_of(dict_key_spec(v, m, "VE".spec_bytes())) matches Some(a) && ve_view(e) == parse_ve_spec(v, a, 0),
        None => array_of(dict_key_spec(v, m, "VE".spec_bytes())) is None,
    }
}

/// Reads the membership dictionary `xref`; [`Error::InvalidArgument`] when
/// it is not a `/Type /OCMD` dictionary.
pub fn get_ocmd(store: &ObjectStore, xref: u32) -> (r: Result<OcmdInfo, Error>)
    ensures
        match lookup(store@, xref) {
            Err(e) => r == Err::<OcmdInfo, Error>(e),
            Ok(val) => match dict_of(val) {
                Some(m) => if is_ocmd(m) {
                    r matches Ok(info) && ocmd_info_ok(store@, xref, m, info)
                } else {
                    r == Err::<OcmdInfo, Error>(Error::InvalidArgument("not an OCMD"))
                },
                None => r == Err::<OcmdInfo, Error>(Error::InvalidArgument("not an OCMD")),
            },
        },
{
    let obj = match store.get_object(xref, 0) {
        Ok(o) => o,
        Err(e) => {
            return Err(e);
        },
    };
    let d = match obj.as_dict() {
        Some(d) => d,
        None => {
            return Err(Error::InvalidArgument("not an OCMD"));
        },
    };
    if !is_type(d, "OCMD".as_bytes()) {
        return Err(Error::InvalidArgument("not an OCMD"));
    }
    let policy = match d.get(&Name::new("P")) {
        Some(Object::Name(p)) => Some(name_string(p)),
        _ => None,
    };
    let got = store.resolve_dict_key(d, &Name::new("VE"));
    let ve = match read_array(got, Ghost(dict_key_spec(store@, d.map(), "VE".spec_bytes()))) {
        Some(items) => Some(parse_ve(store, items.as_slice(), 0)),
        None => None,
    };
    Ok(OcmdInfo { xref, ocgs: ocmd_ocgs(store, d), policy, ve })
}


/// Radio groups are exclusive: switching a radio-box row ON in the panel
/// switches every other member of its radio groups OFF and the row's own
/// group ON; members of no shared group keep their overrides.
pub proof fn law_radio_exclusive(v: StoreView, row: UiRow, action: u8, m: u32)
    requires
        action != 1 || !row.on,
        action != 2,
        row.kind.spec_bytes() == "radiobox".spec_bytes(),
        ocp_spec(v) is Some,
    ensures
        ui_action_overrides(v, row, action).contains_key(row.ocg),
        ui_action_overrides(v, row, action)[row.ocg],
        m != row.ocg && in_radio_group(active_spec(v, ocp_spec(v)->Some_0).rbgroups, row.ocg, m) ==> {
            &&& ui_action_overrides(v, row, action).contains_key(m)
            &&& !ui_action_overrides(v, row, action)[m]
        },
        m != row.ocg && !in_radio_group(active_spec(v, ocp_spec(v)->Some_0).rbgroups, row.ocg, m) ==>
            ui_action_overrides(v, row, action).dom().contains(m) == v.layer_overrides.dom().contains(m)
            && (v.layer_overrides.dom().contains(m) ==> ui_action_overrides(v, row, action)[m] == v.layer_overrides[m]),
{
}

/// A panel action on a row sets that row's own override: ON for "set",
/// OFF for "clear", the opposite of the row's shown state for "toggle".
pub proof fn law_action_sets_row(v: StoreView, row: UiRow)
    ensures
        ui_action_overrides(v, row, 1)[row.ocg] == !row.on,
        ui_action_overrides(v, row, 0)[row.ocg],
        !ui_action_overrides(v, row, 2)[row.ocg],
{
}

} // verus!
