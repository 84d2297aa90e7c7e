//! Snapshots of a character's equipped items for display: every present, non-null slot in
//! slot order, with each field read as far as it can be and every problem listed, so that a
//! malformed row is shown rather than dropped.
use vstd::prelude::*;
use crate::encode::{compact_json_text, inline_text};
use crate::equipment::{slot_entry, slot_table, SLOT_COUNT};
use crate::inventory::{
    format_hash, format_instance_soid, hash_text, instance_soid_text, INVENTORY_FLAG_MASK,
    MAX_ITEM_PLUGS, NO_DEFINITION_HASH,
};
use crate::json::{
    as_i64, elems_view, get, get_member, lemma_array_deep, lemma_object_deep, member, member_of,
    members_view, parse_unsigned_value, unsigned_value, value_as_i64, JsonValue, JsonView,
};
use crate::text::{decimal, owned, push_decimal, push_str};
use crate::validation::known_item_member;

verus! {

/// One authored plug entry of an equipped item.
#[derive(Clone, Debug, PartialEq, Eq)]
pub enum EquippedPlugValue {
    Empty,
    Hash(u64),
    /// An entry that is not a hash, as compact JSON text.
    Malformed(String),
}

/// The plugs of an equipped item.
#[derive(Clone, Debug, PartialEq, Eq)]
pub enum EquippedItemPlugs {
    NativeDefaults,
    Authored(Vec<EquippedPlugValue>),
    Missing,
    /// A `plugs` member that is neither null nor an array, as compact JSON text.
    Malformed(String),
}

/// An equipped item as the equipment editor shows it.
#[derive(Clone, Debug, PartialEq, Eq)]
pub struct EquippedItemSnapshot {
    pub slot: &'static str,
    pub slot_label: &'static str,
    pub bucket_hash: u64,
    pub raw_item_text: String,
    pub definition_hash: Option<u64>,
    pub definition_text: String,
    pub instance_soid: Option<u64>,
    pub instance_soid_text: String,
    pub level: Option<i64>,
    pub quantity: Option<i64>,
    pub plugs: EquippedItemPlugs,
    pub issues: Vec<String>,
}

pub enum PlugValueView {
    Empty,
    Hash(u64),
    Malformed(Seq<char>),
}

pub enum EquippedPlugsView {
    NativeDefaults,
    Authored(Seq<PlugValueView>),
    Missing,
    Malformed(Seq<char>),
}

pub struct EquippedView {
    pub slot: Seq<char>,
    pub slot_label: Seq<char>,
    pub bucket_hash: u64,
    pub raw_item_text: Seq<char>,
    pub definition_hash: Option<u64>,
    pub definition_text: Seq<char>,
    pub instance_soid: Option<u64>,
    pub instance_soid_text: Seq<char>,
    pub level: Option<i64>,
    pub quantity: Option<i64>,
    pub plugs: EquippedPlugsView,
    pub issues: Seq<Seq<char>>,
}

pub open spec fn texts_view(v: Seq<String>) -> Seq<Seq<char>> {
    Seq::new(v.len(), |i: int| v[i]@)
}

impl EquippedPlugValue {
    pub open spec fn value_view(&self) -> PlugValueView {
        match self {
            EquippedPlugValue::Empty => PlugValueView::Empty,
            EquippedPlugValue::Hash(h) => PlugValueView::Hash(*h),
            EquippedPlugValue::Malformed(t) => PlugValueView::Malformed(t@),
        }
    }
}

pub open spec fn plug_values_view(v: Seq<EquippedPlugValue>) -> Seq<PlugValueView> {
    Seq::new(v.len(), |i: int| v[i].value_view())
}

impl EquippedItemPlugs {
    pub open spec fn plugs_view(&self) -> EquippedPlugsView {
        match self {
            EquippedItemPlugs::NativeDefaults => EquippedPlugsView::NativeDefaults,
            EquippedItemPlugs::Authored(v) => EquippedPlugsView::Authored(plug_values_view(v@)),
            EquippedItemPlugs::Missing => EquippedPlugsView::Missing,
            EquippedItemPlugs::Malformed(t) => EquippedPlugsView::Malformed(t@),
        }
    }
}

impl EquippedItemSnapshot {
    pub open spec fn snapshot_view(&self) -> EquippedView {
        EquippedView {
            slot: self.slot@,
            slot_label: self.slot_label@,
            bucket_hash: self.bucket_hash,
            raw_item_text: self.raw_item_text@,
            definition_hash: self.definition_hash,
            definition_text: self.definition_text@,
            instance_soid: self.instance_soid,
            instance_soid_text: self.instance_soid_text@,
            level: self.level,
            quantity: self.quantity,
            plugs: self.plugs.plugs_view(),
            issues: texts_view(self.issues@),
        }
    }
}

pub open spec fn snapshots_view(v: Seq<EquippedItemSnapshot>) -> Seq<EquippedView> {
    Seq::new(v.len(), |i: int| v[i].snapshot_view())
}

// ---------------------------------------------------------------------------------------
// What a row shows
// ---------------------------------------------------------------------------------------

pub open spec fn compact(v: JsonView) -> Seq<char> {
    inline_text(v, false)
}

/// How a field shows when it could not be read: `<missing>`, a string's own text, or the
/// value as compact JSON.
pub open spec fn field_display(v: Option<JsonView>) -> Seq<char> {
    match v {
        None => "<missing>"@,
        Some(JsonView::Str(t)) => t,
        Some(x) => compact(x),
    }
}

/// An issue for each of the first `n` members that an item may not hold.
pub open spec fn unknown_member_issues(o: Seq<(Seq<char>, JsonView)>, n: int) -> Seq<Seq<char>>
    decreases n,
{
    if n <= 0 || n > o.len() {
        Seq::empty()
    } else {
        unknown_member_issues(o, n - 1) + if known_item_member(o[n - 1].0) {
            Seq::<Seq<char>>::empty()
        } else {
            seq!["unknown item member "@ + o[n - 1].0]
        }
    }
}

pub open spec fn definition_issues(dv: Option<JsonView>) -> Seq<Seq<char>> {
    match dv {
        None => seq!["missing definition_hash"@],
        Some(v) => match unsigned_value(v) {
            None => seq!["definition_hash must be an unsigned integer or a 0x hex string"@],
            Some(h) => if h > u32::MAX {
                seq!["definition_hash must fit in an unsigned 32-bit value"@]
            } else if h == NO_DEFINITION_HASH {
                seq!["definition_hash is the engine no-definition sentinel"@]
            } else {
                Seq::empty()
            },
        },
    }
}

pub open spec fn soid_issues(sv: Option<JsonView>) -> Seq<Seq<char>> {
    match sv {
        None => seq!["missing instance_soid"@],
        Some(v) => match unsigned_value(v) {
            None => seq!["instance_soid must be an unsigned integer or a 0x hex string"@],
            Some(s) => if s == 0 {
                seq!["instance_soid must not be zero"@]
            } else {
                Seq::empty()
            },
        },
    }
}

/// Issues of an integer field that must lie in `low..=i32::MAX`.
pub open spec fn int_issues(v: Option<JsonView>, key: Seq<char>, low: int, range_message: Seq<char>) -> Seq<Seq<char>> {
    match v {
        None => seq!["missing "@ + key],
        Some(x) => match as_i64(x) {
            None => seq![key + " must be a signed 32-bit integer"@],
            Some(n) => if low <= n <= i32::MAX {
                Seq::empty()
            } else {
                seq![range_message]
            },
        },
    }
}

pub open spec fn plug_value(v: JsonView) -> PlugValueView {
    match v {
        JsonView::Null => PlugValueView::Empty,
        _ => match unsigned_value(v) {
            None => PlugValueView::Malformed(compact(v)),
            Some(h) => PlugValueView::Hash(h),
        },
    }
}

pub open spec fn plug_issues(v: JsonView, i: int) -> Seq<Seq<char>> {
    match v {
        JsonView::Null => Seq::empty(),
        _ => match unsigned_value(v) {
            None => seq!["plug "@ + decimal(i as nat) + " must be null, an unsigned integer, or a 0x hex string"@],
            Some(h) => if h > u32::MAX {
                seq!["plug "@ + decimal(i as nat) + " hash must fit in an unsigned 32-bit value"@]
            } else if h == NO_DEFINITION_HASH {
                seq!["plug "@ + decimal(i as nat) + " hash is the engine no-definition sentinel"@]
            } else {
                Seq::empty()
            },
        },
    }
}

pub open spec fn plug_entries_issues(a: Seq<JsonView>, n: int) -> Seq<Seq<char>>
    decreases n,
{
    if n <= 0 || n > a.len() {
        Seq::empty()
    } else {
        plug_entries_issues(a, n - 1) + plug_issues(a[n - 1], n - 1)
    }
}

/// An equipped item's plugs and their issues.
pub open spec fn equipped_plugs(pv: Option<JsonView>) -> (EquippedPlugsView, Seq<Seq<char>>) {
    match pv {
        None => (EquippedPlugsView::Missing, seq!["missing plugs"@]),
        Some(JsonView::Null) => (EquippedPlugsView::NativeDefaults, Seq::empty()),
        Some(JsonView::Array(a)) => (
            EquippedPlugsView::Authored(Seq::new(a.len(), |i: int| plug_value(a[i]))),
            (if a.len() > MAX_ITEM_PLUGS {
                seq!["plugs cannot contain more than "@ + decimal(MAX_ITEM_PLUGS as nat) + " entries"@]
            } else {
                Seq::<Seq<char>>::empty()
            }) + plug_entries_issues(a, a.len() as int),
        ),
        Some(x) => (EquippedPlugsView::Malformed(compact(x)), seq!["plugs must be null or an array"@]),
    }
}

pub open spec fn flags_issues(fv: Option<JsonView>) -> Seq<Seq<char>> {
    match fv {
        Some(f) => if (match unsigned_value(f) {
            Some(x) => x > INVENTORY_FLAG_MASK,
            None => true,
        }) {
            seq!["flags must be between 0 and "@ + decimal(INVENTORY_FLAG_MASK as nat)]
        } else {
            Seq::empty()
        },
        None => Seq::empty(),
    }
}

/// The snapshot of the item `v` in slot `k` of the slot table.
pub open spec fn spec_equipped_snapshot(k: int, v: JsonView) -> EquippedView {
    let slot = slot_table()[k];
    let raw = compact(v);
    match v {
        JsonView::Object(o) => {
            let dv = member(o, "definition_hash"@);
            let dh = match dv {
                Some(x) => unsigned_value(x),
                None => None,
            };
            let sv = member(o, "instance_soid"@);
            let sh = match sv {
                Some(x) => unsigned_value(x),
                None => None,
            };
            let lv = member(o, "level"@);
            let qv = member(o, "quantity"@);
            let plugs = equipped_plugs(member(o, "plugs"@));
            EquippedView {
                slot: slot.0,
                slot_label: slot.1,
                bucket_hash: slot.2,
                raw_item_text: raw,
                definition_hash: dh,
                definition_text: match dh {
                    Some(h) => hash_text(h),
                    None => field_display(dv),
                },
                instance_soid: sh,
                instance_soid_text: match sh {
                    Some(s) => instance_soid_text(s),
                    None => field_display(sv),
                },
                level: match lv {
                    Some(x) => as_i64(x),
                    None => None,
                },
                quantity: match qv {
                    Some(x) => as_i64(x),
                    None => None,
                },
                plugs: plugs.0,
                issues: unknown_member_issues(o, o.len() as int) + definition_issues(dv) + soid_issues(sv)
                    + int_issues(lv, "level"@, 0, "level must be a non-negative signed 32-bit integer"@)
                    + int_issues(qv, "quantity"@, 1, "quantity must be a positive signed 32-bit integer"@)
                    + plugs.1 + flags_issues(member(o, "flags"@)),
            }
        },
        _ => EquippedView {
            slot: slot.0,
            slot_label: slot.1,
            bucket_hash: slot.2,
            raw_item_text: raw,
            definition_hash: None,
            definition_text: "<missing>"@,
            instance_soid: None,
            instance_soid_text: "<missing>"@,
            level: None,
            quantity: None,
            plugs: EquippedPlugsView::Malformed(raw),
            issues: seq!["equipment row must be an object"@],
        },
    }
}

/// The snapshots of the non-null items among the first `n` slots of equipment `e`.
pub open spec fn slot_snapshots(e: Seq<(Seq<char>, JsonView)>, n: int) -> Seq<EquippedView>
    decreases n,
{
    if n <= 0 {
        Seq::empty()
    } else {
        slot_snapshots(e, n - 1) + match member(e, slot_table()[n - 1].0) {
            Some(JsonView::Null) => Seq::<EquippedView>::empty(),
            None => Seq::<EquippedView>::empty(),
            Some(v) => seq![spec_equipped_snapshot(n - 1, v)],
        }
    }
}

/// The snapshots of character `ci`'s equipped items in slot order, or why the character's
/// equipment cannot be found; a character without equipment has none.
pub open spec fn spec_equipped_snapshots(document: JsonView, ci: int) -> Result<Seq<EquippedView>, Seq<char>> {
    let characters = match get(document, "state"@) {
        Some(s) => get(s, "characters"@),
        None => None,
    };
    match characters {
        None => Err("Missing /state/characters"@),
        Some(JsonView::Array(cs)) => if ci >= cs.len() {
            Err("Missing character at index "@ + decimal(ci as nat))
        } else {
            match cs[ci] {
                JsonView::Object(c) => match member(c, "equipment"@) {
                    None => Ok(Seq::empty()),
                    Some(JsonView::Object(e)) => Ok(slot_snapshots(e, SLOT_COUNT as int)),
                    Some(_) => Err("Character "@ + decimal(ci as nat) + " equipment must be an object"@),
                },
                _ => Err("Character "@ + decimal(ci as nat) + " must be an object"@),
            }
        },
        Some(_) => Err("/state/characters must be an array"@),
    }
}

// ---------------------------------------------------------------------------------------
// Reading rows
// ---------------------------------------------------------------------------------------

fn push_issue(issues: &mut Vec<String>, text: String)
    ensures
        texts_view(final(issues)@) == texts_view(old(issues)@) + seq![text@],
{
    let ghost before = issues@;
    issues.push(text);
    assert(texts_view(issues@) =~= texts_view(before) + seq![text@]);
}

proof fn lemma_no_issues(issues: Seq<String>)
    ensures
        texts_view(issues) + Seq::<Seq<char>>::empty() == texts_view(issues),
{
    assert(texts_view(issues) + Seq::<Seq<char>>::empty() =~= texts_view(issues));
}

fn field_display_exec(v: Option<&JsonValue>) -> (t: String)
    ensures
        t@ == field_display(match v {
            Some(x) => Some(x.deep()),
            None => None,
        }),
{
    match v {
        None => owned("<missing>"),
        Some(JsonValue::String(t)) => t.clone(),
        Some(x) => compact_json_text(x),
    }
}

pub open spec fn opt_deep(v: Option<&JsonValue>) -> Option<JsonView> {
    match v {
        Some(x) => Some(x.deep()),
        None => None,
    }
}

fn unknown_member_issues_exec(o: &Vec<(String, JsonValue)>, issues: &mut Vec<String>)
    ensures
        texts_view(final(issues)@) == texts_view(old(issues)@) + unknown_member_issues(members_view(o@), o@.len() as int),
{
    let ghost ov = members_view(o@);
    let ghost start = issues@;
    assert(texts_view(start) + unknown_member_issues(ov, 0) =~= texts_view(start));
    let mut k: usize = 0;
    while k < o.len()
        invariant
            k <= o@.len(),
            ov == members_view(o@),
            start == old(issues)@,
            texts_view(issues@) == texts_view(start) + unknown_member_issues(ov, k as int),
        decreases o.len() - k,
    {
        let ghost before = issues@;
        assert(ov[k as int].0 == o@[k as int].0@);
        if !crate::validation::known_member_exec(o[k].0.as_str()) {
            let mut t = owned("unknown item member ");
            push_str(&mut t, o[k].0.as_str());
            push_issue(issues, t);
        }
        assert(texts_view(issues@) =~= texts_view(start) + unknown_member_issues(ov, k + 1));
        k += 1;
    }
}

fn definition_issues_exec(dv: Option<&JsonValue>, issues: &mut Vec<String>)
    ensures
        texts_view(final(issues)@) == texts_view(old(issues)@) + definition_issues(opt_deep(dv)),
{
    proof {
        lemma_no_issues(issues@);
    }
    match dv {
        None => push_issue(issues, owned("missing definition_hash")),
        Some(v) => match parse_unsigned_value(v) {
            None => push_issue(issues, owned("definition_hash must be an unsigned integer or a 0x hex string")),
            Some(h) => if h > u32::MAX as u64 {
                push_issue(issues, owned("definition_hash must fit in an unsigned 32-bit value"))
            } else if h == NO_DEFINITION_HASH as u64 {
                push_issue(issues, owned("definition_hash is the engine no-definition sentinel"))
            },
        },
    }
}

fn soid_issues_exec(sv: Option<&JsonValue>, issues: &mut Vec<String>)
    ensures
        texts_view(final(issues)@) == texts_view(old(issues)@) + soid_issues(opt_deep(sv)),
{
    proof {
        lemma_no_issues(issues@);
    }
    match sv {
        None => push_issue(issues, owned("missing instance_soid")),
        Some(v) => match parse_unsigned_value(v) {
            None => push_issue(issues, owned("instance_soid must be an unsigned integer or a 0x hex string")),
            Some(s) => if s == 0 {
                push_issue(issues, owned("instance_soid must not be zero"))
            },
        },
    }
}

fn int_issues_exec(v: Option<&JsonValue>, key: &str, low: i64, range_message: &str, issues: &mut Vec<String>)
    ensures
        texts_view(final(issues)@) == texts_view(old(issues)@) + int_issues(opt_deep(v), key@, low as int, range_message@),
{
    proof {
        lemma_no_issues(issues@);
    }
    match v {
        None => {
            let mut t = owned("missing ");
            push_str(&mut t, key);
            push_issue(issues, t);
        },
        Some(x) => match value_as_i64(x) {
            None => {
                let mut t = owned(key);
                push_str(&mut t, " must be a signed 32-bit integer");
                push_issue(issues, t);
            },
            Some(n) => if !(low <= n && n <= i32::MAX as i64) {
                push_issue(issues, owned(range_message));
            },
        },
    }
}

fn plug_issue(i: usize, tail: &str) -> (t: String)
    ensures
        t@ == "plug "@ + decimal(i as nat) + tail@,
{
    let mut t = owned("plug ");
    push_decimal(&mut t, i as u64);
    push_str(&mut t, tail);
    t
}

fn equipped_plugs_exec(pv: Option<&JsonValue>, issues: &mut Vec<String>) -> (plugs: EquippedItemPlugs)
    ensures
        plugs.plugs_view() == equipped_plugs(opt_deep(pv)).0,
        texts_view(final(issues)@) == texts_view(old(issues)@) + equipped_plugs(opt_deep(pv)).1,
{
    let a = match pv {
        None => {
            push_issue(issues, owned("missing plugs"));
            return EquippedItemPlugs::Missing;
        },
        Some(JsonValue::Null) => {
            proof {
                lemma_no_issues(issues@);
            }
            return EquippedItemPlugs::NativeDefaults;
        },
        Some(JsonValue::Array(a)) => a,
        Some(x) => {
            let raw = compact_json_text(x);
            push_issue(issues, owned("plugs must be null or an array"));
            return EquippedItemPlugs::Malformed(raw);
        },
    };
    proof {
        lemma_array_deep(*a);
    }
    let ghost av = elems_view(a@);
    let ghost start = issues@;
    if a.len() > MAX_ITEM_PLUGS {
        let mut t = owned("plugs cannot contain more than ");
        push_decimal(&mut t, MAX_ITEM_PLUGS as u64);
        push_str(&mut t, " entries");
        push_issue(issues, t);
    } else {
        proof {
            lemma_no_issues(issues@);
        }
    }
    let ghost head = issues@;
    assert(texts_view(head) + plug_entries_issues(av, 0) =~= texts_view(head));
    let mut values: Vec<EquippedPlugValue> = Vec::new();
    let mut i: usize = 0;
    while i < a.len()
        invariant
            i <= a@.len(),
            av == elems_view(a@),
            texts_view(issues@) == texts_view(head) + plug_entries_issues(av, i as int),
            values@.len() == i,
            forall|k: int| 0 <= k < i ==> (#[trigger] values@[k]).value_view() == plug_value(av[k]),
        decreases a.len() - i,
    {
        let ghost before = issues@;
        assert(av[i as int] == a@[i as int].deep());
        let v = &a[i];
        match v {
            JsonValue::Null => {
                values.push(EquippedPlugValue::Empty);
                proof {
                    lemma_no_issues(issues@);
                }
            },
            _ => match parse_unsigned_value(v) {
                None => {
                    values.push(EquippedPlugValue::Malformed(compact_json_text(v)));
                    push_issue(issues, plug_issue(i, " must be null, an unsigned integer, or a 0x hex string"));
                },
                Some(h) => {
                    values.push(EquippedPlugValue::Hash(h));
                    if h > u32::MAX as u64 {
                        push_issue(issues, plug_issue(i, " hash must fit in an unsigned 32-bit value"));
                    } else if h == NO_DEFINITION_HASH as u64 {
                        push_issue(issues, plug_issue(i, " hash is the engine no-definition sentinel"));
                    } else {
                        proof {
                            lemma_no_issues(issues@);
                        }
                    }
                },
            },
        }
        assert(texts_view(issues@) =~= texts_view(head) + plug_entries_issues(av, i + 1));
        i += 1;
    }
    let plugs = EquippedItemPlugs::Authored(values);
    proof {
        assert(plug_values_view(values@) =~= Seq::new(av.len(), |i: int| plug_value(av[i])));
        assert(texts_view(issues@) =~= texts_view(start) + equipped_plugs(opt_deep(pv)).1);
    }
    plugs
}

fn flags_issues_exec(fv: Option<&JsonValue>, issues: &mut Vec<String>)
    ensures
        texts_view(final(issues)@) == texts_view(old(issues)@) + flags_issues(opt_deep(fv)),
{
    proof {
        lemma_no_issues(issues@);
    }
    match fv {
        Some(f) => {
            let bad = match parse_unsigned_value(f) {
                Some(x) => x > INVENTORY_FLAG_MASK as u64,
                None => true,
            };
            if bad {
                let mut t = owned("flags must be between 0 and ");
                push_decimal(&mut t, INVENTORY_FLAG_MASK as u64);
                push_issue(issues, t);
            }
        },
        None => {},
    }
}

/// The snapshot of item `value` in slot `k` of the slot table, as `spec_equipped_snapshot`
/// describes.
pub fn equipped_item_snapshot(k: usize, value: &JsonValue) -> (snapshot: EquippedItemSnapshot)
    requires
        k < SLOT_COUNT,
    ensures
        snapshot.snapshot_view() == spec_equipped_snapshot(k as int, value.deep()),
{
    let (slot, slot_label, bucket_hash) = slot_entry(k);
    let raw_item_text = compact_json_text(value);
    let o = match value {
        JsonValue::Object(o) => o,
        _ => {
            let raw = compact_json_text(value);
            let mut issues: Vec<String> = Vec::new();
            issues.push(owned("equipment row must be an object"));
            let snapshot = EquippedItemSnapshot {
                slot,
                slot_label,
                bucket_hash,
                raw_item_text,
                definition_hash: None,
                definition_text: owned("<missing>"),
                instance_soid: None,
                instance_soid_text: owned("<missing>"),
                level: None,
                quantity: None,
                plugs: EquippedItemPlugs::Malformed(raw),
                issues,
            };
            proof {
                assert(texts_view(snapshot.issues@) =~= seq!["equipment row must be an object"@]);
            }
            return snapshot;
        },
    };
    proof {
        lemma_object_deep(*o);
    }
    let mut issues: Vec<String> = Vec::new();
    let ghost i0 = issues@;
    assert(texts_view(i0) =~= Seq::<Seq<char>>::empty());
    unknown_member_issues_exec(o, &mut issues);
    let dv = member_of(o, "definition_hash");
    let definition_hash = match dv {
        Some(x) => parse_unsigned_value(x),
        None => None,
    };
    let definition_text = match definition_hash {
        Some(h) => format_hash(h),
        None => field_display_exec(dv),
    };
    let ghost i1 = issues@;
    definition_issues_exec(dv, &mut issues);
    let ghost i2 = issues@;
    let sv = member_of(o, "instance_soid");
    let instance_soid = match sv {
        Some(x) => parse_unsigned_value(x),
        None => None,
    };
    let instance_soid_text = match instance_soid {
        Some(s) => format_instance_soid(s),
        None => field_display_exec(sv),
    };
    soid_issues_exec(sv, &mut issues);
    let ghost i3 = issues@;
    let lv = member_of(o, "level");
    let level = match lv {
        Some(x) => value_as_i64(x),
        None => None,
    };
    int_issues_exec(lv, "level", 0, "level must be a non-negative signed 32-bit integer", &mut issues);
    let ghost i4 = issues@;
    let qv = member_of(o, "quantity");
    let quantity = match qv {
        Some(x) => value_as_i64(x),
        None => None,
    };
    int_issues_exec(qv, "quantity", 1, "quantity must be a positive signed 32-bit integer", &mut issues);
    let ghost i5 = issues@;
    let plugs = equipped_plugs_exec(member_of(o, "plugs"), &mut issues);
    let ghost i6 = issues@;
    flags_issues_exec(member_of(o, "flags"), &mut issues);
    let snapshot = EquippedItemSnapshot {
        slot,
        slot_label,
        bucket_hash,
        raw_item_text,
        definition_hash,
        definition_text,
        instance_soid,
        instance_soid_text,
        level,
        quantity,
        plugs,
        issues,
    };
    proof {
        let ov = members_view(o@);
        assert(texts_view(snapshot.issues@) =~= unknown_member_issues(ov, ov.len() as int) + definition_issues(
            member(ov, "definition_hash"@),
        ) + soid_issues(member(ov, "instance_soid"@)) + int_issues(
            member(ov, "level"@),
            "level"@,
            0,
            "level must be a non-negative signed 32-bit integer"@,
        ) + int_issues(member(ov, "quantity"@), "quantity"@, 1, "quantity must be a positive signed 32-bit integer"@)
            + equipped_plugs(member(ov, "plugs"@)).1 + flags_issues(member(ov, "flags"@)));
    }
    snapshot
}

/// The snapshots of character `character_index`'s equipped items in slot order, as
/// `spec_equipped_snapshots` describes: null and absent slots are skipped, malformed rows
/// are kept with their issues. Reading never changes the document.
pub fn equipped_item_snapshots(document: &JsonValue, character_index: usize) -> (r: Result<
    Vec<EquippedItemSnapshot>,
    String,
>)
    ensures
        match spec_equipped_snapshots(document.deep(), character_index as int) {
            Ok(s) => r matches Ok(x) && snapshots_view(x@) == s,
            Err(e) => r matches Err(x) && x@ == e,
        },
{
    let ci = character_index;
    let characters = match get_member(document, "state") {
        Some(s) => get_member(s, "characters"),
        None => None,
    };
    let cs = match characters {
        None => {
            return Err(owned("Missing /state/characters"));
        },
        Some(JsonValue::Array(cs)) => cs,
        Some(_) => {
            return Err(owned("/state/characters must be an array"));
        },
    };
    proof {
        lemma_array_deep(*cs);
    }
    if ci >= cs.len() {
        let mut t = owned("Missing character at index ");
        push_decimal(&mut t, ci as u64);
        return Err(t);
    }
    let c = match &cs[ci] {
        JsonValue::Object(c) => c,
        _ => {
            let mut t = owned("Character ");
            push_decimal(&mut t, ci as u64);
            push_str(&mut t, " must be an object");
            return Err(t);
        },
    };
    proof {
        lemma_object_deep(*c);
    }
    let e = match member_of(c, "equipment") {
        None => {
            let out: Vec<EquippedItemSnapshot> = Vec::new();
            assert(snapshots_view(out@) =~= Seq::<EquippedView>::empty());
            return Ok(out);
        },
        Some(JsonValue::Object(e)) => e,
        Some(_) => {
            let mut t = owned("Character ");
            push_decimal(&mut t, ci as u64);
            push_str(&mut t, " equipment must be an object");
            return Err(t);
        },
    };
    proof {
        lemma_object_deep(*e);
    }
    let ghost ev = members_view(e@);
    let mut out: Vec<EquippedItemSnapshot> = Vec::new();
    assert(snapshots_view(out@) =~= slot_snapshots(ev, 0));
    let mut k: usize = 0;
    while k < SLOT_COUNT
        invariant
            k <= SLOT_COUNT,
            ev == members_view(e@),
            snapshots_view(out@) == slot_snapshots(ev, k as int),
        decreases SLOT_COUNT - k,
    {
        let ghost before = out@;
        let (slot, _, _) = slot_entry(k);
        match member_of(e, slot) {
            Some(JsonValue::Null) => {
                assert(snapshots_view(out@) =~= slot_snapshots(ev, k + 1));
            },
            None => {
                assert(snapshots_view(out@) =~= slot_snapshots(ev, k + 1));
            },
            Some(v) => {
                let snapshot = equipped_item_snapshot(k, v);
                out.push(snapshot);
                assert(snapshots_view(out@) =~= snapshots_view(before).push(snapshot.snapshot_view()));
                assert(snapshots_view(out@) =~= slot_snapshots(ev, k + 1));
            },
        }
        k += 1;
    }
    Ok(out)
}

} // verus!
