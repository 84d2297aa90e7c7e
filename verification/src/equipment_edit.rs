//! Edits of a character's equipped items: equipping a definition or a stored item,
//! equipping a subclass together with its default abilities, and editing an equipped item's
//! level, plugs, flags and catalyst. Every edit either succeeds whole or leaves the document
//! as it was.
use vstd::prelude::*;
use crate::character_inventory::{character_inventory, copy_character, known_slot, replace_character, spec_character, spec_character_inventory, spec_swap_with_equipment, swap_inventory_item_with_equipment, with_character, items_view, add_inventory_item, spec_add_inventory_item, lemma_with_character_reads};
use crate::equipment::{
    class_label, class_name, default_ability_values, default_movement, equipment_slot_label, pick_ability,
    slot_entry, slot_named, slot_table, AbilityOptions, SLOT_COUNT,
};
use crate::inventory::{
    document_version, error_text, schema_mode, spec_schema_mode, spec_set_flag, set_inventory_flag,
    SchemaMode, EQUIPMENT_FLAGS_SCHEMA_VERSION, INVENTORY_FLAG_MASK, INVENTORY_FLAG_MASTERWORK, MAX_ITEM_PLUGS, format_hash, format_instance_soid, hash_text, instance_soid_text,
    InventoryItemLocation, ItemPlugs, NewInventoryItem,
};
use crate::inventory_page::InventoryItemSnapshot;
use crate::json::{
    as_u64, copy_members, get, get_member, lemma_array_deep, lemma_object_deep, member, member_of,
    members_view, parse_unsigned_value, remove_member, remove_member_exec, set_member, set_member_exec,
    unsigned_value, elems_view, copy_elements, value_as_i64, value_as_u64, JsonNumber, JsonValue,
    JsonView, NumberView,
};
use crate::soids::{allocate_instance_soid, spec_allocate_soid};
use crate::text::{decimal, hex_digits, owned, push_decimal, push_hex, push_str, str_eq};
use crate::item_editor::NativePlugDefault;
use crate::json::{lemma_member_after_set, parse_hash, parse_hash_text, values_equal};

verus! {

/// The bucket hash of the subclass slot.
pub const SUBCLASS_BUCKET: u64 = 3_284_755_031;

/// The definition an editor equips: what the equipment logic reads of a catalog item.
#[derive(Clone, Debug, PartialEq, Eq)]
pub struct ItemDefinition {
    pub hash: u64,
    pub name: String,
    pub item_type: String,
    pub bucket_hash: u64,
    /// 3 for items every class can use.
    pub class_type: u64,
    /// The definition's native plugs: a hash text per socket, or none for an empty socket.
    pub default_plugs: Vec<Option<String>>,
    pub abilities: AbilityOptions,
}

pub open spec fn defaults_view(d: Seq<Option<String>>) -> Seq<Option<Seq<char>>> {
    Seq::new(
        d.len(),
        |i: int|
            match d[i] {
                Some(t) => Some(t@),
                None => None,
            },
    )
}

/// Native plugs as the document writes them: each hash text as a string, an empty socket as
/// null.
pub open spec fn default_values(d: Seq<Option<Seq<char>>>) -> Seq<JsonView> {
    Seq::new(
        d.len(),
        |i: int|
            match d[i] {
                Some(t) => JsonView::Str(t),
                None => JsonView::Null,
            },
    )
}

pub fn default_plug_values(defaults: &Vec<Option<String>>) -> (values: Vec<JsonValue>)
    ensures
        crate::json::elems_view(values@) == default_values(defaults_view(defaults@)),
{
    let mut out: Vec<JsonValue> = Vec::new();
    let mut i: usize = 0;
    while i < defaults.len()
        invariant
            i <= defaults@.len(),
            out@.len() == i,
            forall|k: int|
                0 <= k < i ==> (#[trigger] out@[k]).deep() == default_values(defaults_view(defaults@))[k],
        decreases defaults.len() - i,
    {
        match &defaults[i] {
            Some(t) => out.push(JsonValue::String(t.clone())),
            None => out.push(JsonValue::Null),
        }
        i += 1;
    }
    assert(crate::json::elems_view(out@) =~= default_values(defaults_view(defaults@)));
    out
}

/// A 64-bit integer as JSON holds it.
pub open spec fn i64_view(v: i64) -> JsonView {
    if v >= 0 {
        JsonView::Number(NumberView::PosInt(v as u64))
    } else {
        JsonView::Number(NumberView::NegInt(v))
    }
}

fn i64_value(v: i64) -> (r: JsonValue)
    ensures
        r.deep() == i64_view(v),
{
    if v >= 0 {
        JsonValue::Number(JsonNumber::PosInt(v as u64))
    } else {
        JsonValue::Number(JsonNumber::NegInt(v))
    }
}

/// The label of a slot, or the name itself for an unknown slot.
pub open spec fn slot_label_of(slot: Seq<char>) -> Seq<char> {
    match slot_named(slot, 0) {
        Some(k) => slot_table()[k].1,
        None => slot,
    }
}

/// Character `ci` as `/state/characters/ci` points to it.
pub open spec fn character_value(document: JsonView, ci: int) -> Option<JsonView> {
    match get(document, "state"@) {
        Some(s) => match get(s, "characters"@) {
            Some(JsonView::Array(cs)) => if 0 <= ci < cs.len() {
                Some(cs[ci])
            } else {
                None
            },
            _ => None,
        },
        None => None,
    }
}

/// Character `ci`'s equipment object.
pub open spec fn equipment_of(document: JsonView, ci: int) -> Option<Seq<(Seq<char>, JsonView)>> {
    match character_value(document, ci) {
        Some(c) => match get(c, "equipment"@) {
            Some(JsonView::Object(e)) => Some(e),
            _ => None,
        },
        None => None,
    }
}

/// The document with character `ci`'s equipment replaced by members `e`.
pub open spec fn with_equipment(document: JsonView, ci: int, e: Seq<(Seq<char>, JsonView)>) -> JsonView {
    match character_value(document, ci) {
        Some(JsonView::Object(c)) => with_character(document, ci, set_member(c, "equipment"@, JsonView::Object(e))),
        _ => document,
    }
}

/// A character found at `/state/characters/ci` is the one an edit replaces.
proof fn lemma_character_found(document: JsonView, ci: int)
    requires
        character_value(document, ci) matches Some(JsonView::Object(_)),
    ensures
        spec_character(document, ci) == Ok::<Seq<(Seq<char>, JsonView)>, (Seq<char>, Seq<char>)>(
            character_value(document, ci)->0->Object_0,
        ),
{
}

pub(crate) fn character_value_exec(document: &JsonValue, ci: usize) -> (r: Option<&JsonValue>)
    ensures
        match r {
            Some(x) => character_value(document.deep(), ci as int) == Some(x.deep()),
            None => character_value(document.deep(), ci as int) is None,
        },
{
    match get_member(document, "state") {
        Some(s) => match get_member(s, "characters") {
            Some(JsonValue::Array(cs)) => {
                proof {
                    lemma_array_deep(*cs);
                }
                if ci < cs.len() {
                    Some(&cs[ci])
                } else {
                    None
                }
            },
            _ => None,
        },
        None => None,
    }
}

fn equipment_exec(document: &JsonValue, ci: usize) -> (r: Option<&Vec<(String, JsonValue)>>)
    ensures
        match r {
            Some(x) => equipment_of(document.deep(), ci as int) == Some(members_view(x@)),
            None => equipment_of(document.deep(), ci as int) is None,
        },
{
    match character_value_exec(document, ci) {
        Some(c) => match get_member(c, "equipment") {
            Some(JsonValue::Object(e)) => {
                proof {
                    lemma_object_deep(*e);
                }
                Some(e)
            },
            _ => None,
        },
        None => None,
    }
}

/// Replaces character `ci`'s equipment by `e`.
fn replace_equipment(document: &mut JsonValue, ci: usize, e: Vec<(String, JsonValue)>)
    requires
        equipment_of(old(document).deep(), ci as int) is Some,
    ensures
        final(document).deep() == with_equipment(old(document).deep(), ci as int, members_view(e@)),
{
    proof {
        lemma_character_found(document.deep(), ci as int);
    }
    let mut c = copy_character(document, ci);
    let equipment = JsonValue::Object(e);
    proof {
        lemma_object_deep(equipment->Object_0);
    }
    set_member_exec(&mut c, "equipment", equipment);
    replace_character(document, ci, c);
}

// ---------------------------------------------------------------------------------------
// Level of a new item
// ---------------------------------------------------------------------------------------

/// The level of an item, when it is a positive 32-bit integer.
pub open spec fn positive_level(v: JsonView) -> Option<i64> {
    match get(v, "level"@) {
        Some(l) => match crate::json::as_i64(l) {
            Some(n) => if 1 <= n <= i32::MAX {
                Some(n)
            } else {
                None
            },
            None => None,
        },
        None => None,
    }
}

/// The highest positive level among the first `n` equipped items.
pub open spec fn max_level(e: Seq<(Seq<char>, JsonView)>, n: int) -> Option<i64>
    decreases n,
{
    if n <= 0 || n > e.len() {
        None
    } else {
        match (max_level(e, n - 1), positive_level(e[n - 1].1)) {
            (Some(a), Some(b)) => Some(if a >= b {
                a
            } else {
                b
            }),
            (Some(a), None) => Some(a),
            (None, b) => b,
        }
    }
}

/// The level a newly equipped item gets: the highest positive level the character has
/// equipped, else 106.
pub open spec fn spec_inferred_level(document: JsonView, ci: int) -> i64 {
    match equipment_of(document, ci) {
        Some(e) => match max_level(e, e.len() as int) {
            Some(l) => l,
            None => 106,
        },
        None => 106,
    }
}

/// The `level` member of an equipped item, read as an integer.
pub open spec fn level_member(v: JsonView) -> Option<i64> {
    match get(v, "level"@) {
        Some(l) => crate::json::as_i64(l),
        None => None,
    }
}

/// An equipped item whose level is a positive 32-bit integer.
pub open spec fn has_positive_level(v: JsonView) -> bool {
    level_member(v) matches Some(n) && 1 <= n <= i32::MAX
}

proof fn lemma_max_level_bounds(e: Seq<(Seq<char>, JsonView)>, n: int)
    requires
        0 <= n <= e.len(),
    ensures
        forall|i: int| 0 <= i < n && has_positive_level(#[trigger] e[i].1) ==> (max_level(e, n) matches Some(m) && level_member(
            e[i].1,
        )->0 <= m),
        max_level(e, n) matches Some(m) ==> exists|i: int| 0 <= i < n && has_positive_level(#[trigger] e[i].1) && level_member(e[i].1) == Some(m),
        max_level(e, n) is None ==> forall|i: int| 0 <= i < n ==> !has_positive_level(#[trigger] e[i].1),
    decreases n,
{
    if n > 0 {
        lemma_max_level_bounds(e, n - 1);
        assert(positive_level(e[n - 1].1) is Some <==> has_positive_level(e[n - 1].1));
        assert(positive_level(e[n - 1].1) matches Some(b) ==> level_member(e[n - 1].1) == Some(b));
        if let Some(m) = max_level(e, n) {
            if max_level(e, n - 1) is Some && max_level(e, n - 1)->0 == m {
                let a = m;
                let i = choose|i: int| 0 <= i < n - 1 && has_positive_level(#[trigger] e[i].1) && level_member(e[i].1) == Some(a);
                assert(0 <= i < n && has_positive_level(e[i].1) && level_member(e[i].1) == Some(m));
            } else {
                assert(has_positive_level(e[n - 1].1) && level_member(e[n - 1].1) == Some(m));
            }
        }
    }
}

/// The level a new item gets is the highest positive level the character has equipped: no
/// equipped item whose level is from 1 to `i32::MAX` is above it and one of them has it;
/// when none has such a level, or the character has no equipment, it is 106.
pub proof fn law_inferred_level_is_the_highest_equipped(document: JsonView, ci: int)
    ensures
        equipment_of(document, ci) matches Some(e) ==> {
            &&& forall|i: int|
                0 <= i < e.len() && has_positive_level(#[trigger] e[i].1) ==> level_member(e[i].1)->0 <= spec_inferred_level(
                    document,
                    ci,
                )
            &&& (exists|i: int| 0 <= i < e.len() && has_positive_level(#[trigger] e[i].1)) ==> exists|i: int|
                0 <= i < e.len() && has_positive_level(#[trigger] e[i].1) && level_member(e[i].1) == Some(
                    spec_inferred_level(document, ci),
                )
            &&& !(exists|i: int| 0 <= i < e.len() && has_positive_level(#[trigger] e[i].1)) ==> spec_inferred_level(
                document,
                ci,
            ) == 106
        },
        equipment_of(document, ci) is None ==> spec_inferred_level(document, ci) == 106,
{
    if let Some(e) = equipment_of(document, ci) {
        lemma_max_level_bounds(e, e.len() as int);
    }
}

pub fn inferred_item_level(document: &JsonValue, character_index: usize) -> (level: i64)
    ensures
        level == spec_inferred_level(document.deep(), character_index as int),
{
    let e = match equipment_exec(document, character_index) {
        Some(e) => e,
        None => {
            return 106;
        },
    };
    let ghost ev = members_view(e@);
    let mut best: Option<i64> = None;
    let mut k: usize = 0;
    while k < e.len()
        invariant
            k <= e@.len(),
            ev == members_view(e@),
            best == max_level(ev, k as int),
        decreases e.len() - k,
    {
        assert(ev[k as int].1 == e@[k as int].1.deep());
        let level = match get_member(&e[k].1, "level") {
            Some(l) => match value_as_i64(l) {
                Some(n) => if 1 <= n && n <= i32::MAX as i64 {
                    Some(n)
                } else {
                    None
                },
                None => None,
            },
            None => None,
        };
        best = match (best, level) {
            (Some(a), Some(b)) => Some(
                if a >= b {
                    a
                } else {
                    b
                },
            ),
            (Some(a), None) => Some(a),
            (None, b) => b,
        };
        k += 1;
    }
    match best {
        Some(l) => l,
        None => 106,
    }
}

/// The level a new row of a bucket starts at: the character's inferred level for buckets
/// whose native id is at most 7, zero for the others.
pub fn default_inventory_item_level(document: &JsonValue, character_index: usize, native_bucket_id: u8) -> (level: i64)
    ensures
        level == if native_bucket_id <= 7 {
            spec_inferred_level(document.deep(), character_index as int)
        } else {
            0
        },
{
    if native_bucket_id <= 7 {
        inferred_item_level(document, character_index)
    } else {
        0
    }
}

/// The level a picked definition's new row gets in a bucket: `default_inventory_item_level`.
pub open spec fn picked_level(document: JsonView, ci: int, native_bucket_id: u8) -> i64 {
    if native_bucket_id <= 7 {
        spec_inferred_level(document, ci)
    } else {
        0
    }
}

/// Adds the definition picked for one of a character's buckets as a single new row at the
/// bucket's default level. A hash above 32 bits, or a level outside `i32`, is refused with
/// its message; otherwise the row is added as `add_inventory_item` describes, its error given
/// as text. A refused add leaves the document as it was.
pub fn add_picked_inventory_item(
    document: &mut JsonValue,
    character_index: usize,
    hash: u64,
    native_bucket_id: u8,
) -> (r: Result<InventoryItemLocation, String>)
    ensures
        ({
            let level = picked_level(old(document).deep(), character_index as int, native_bucket_id);
            if hash > u32::MAX {
                r matches Err(t) && t@ == "The selected inventory hash does not fit in 32 bits"@
                    && final(document).deep() == old(document).deep()
            } else if !(i32::MIN <= level <= i32::MAX) {
                r matches Err(t) && t@ == "Could not infer a valid inventory item level"@
                    && final(document).deep() == old(document).deep()
            } else {
                match spec_add_inventory_item(
                    old(document).deep(),
                    character_index as int,
                    NewInventoryItem { definition_hash: hash as u32, level: level as i32, quantity: 1 },
                ) {
                    Ok((location, after)) => r == Ok::<InventoryItemLocation, String>(location) && final(document).deep() == after,
                    Err(e) => r matches Err(t) && t@ == error_text(e) && final(document).deep() == old(document).deep(),
                }
            }
        }),
{
    let level = default_inventory_item_level(document, character_index, native_bucket_id);
    if hash > 0xFFFF_FFFFu64 {
        return Err(owned("The selected inventory hash does not fit in 32 bits"));
    }
    if level < -2147483648i64 || level > 2147483647i64 {
        return Err(owned("Could not infer a valid inventory item level"));
    }
    match add_inventory_item(document, character_index, NewInventoryItem::single(hash as u32, level as i32)) {
        Ok(location) => Ok(location),
        Err(e) => Err(e.to_text()),
    }
}

// ---------------------------------------------------------------------------------------
// Equipping a definition
// ---------------------------------------------------------------------------------------

/// The row a definition equipped into an empty slot gets, its members in name order.
pub open spec fn new_equipped_row(soid: u64, hash: u64, level: i64, defaults: Seq<Option<Seq<char>>>) -> JsonView {
    JsonView::Object(
        seq![
            ("definition_hash"@, JsonView::Str(hash_text(hash))),
            ("instance_soid"@, JsonView::Str(instance_soid_text(soid))),
            ("level"@, i64_view(level)),
            ("plugs"@, JsonView::Array(default_values(defaults))),
            ("quantity"@, JsonView::Number(NumberView::PosInt(1))),
        ],
    )
}

/// Equipping definition `hash` into `slot`: an equipped item keeps its identity and gets
/// the new definition and native plugs; an empty slot gets a new item with a fresh SOID,
/// the inferred level and native plugs.
pub open spec fn spec_equip_definition(
    document: JsonView,
    ci: int,
    slot: Seq<char>,
    hash: u64,
    defaults: Seq<Option<Seq<char>>>,
) -> Result<JsonView, Seq<char>> {
    if hash > u32::MAX {
        Err("Cannot equip an invalid definition hash in the "@ + slot_label_of(slot) + " slot"@)
    } else {
        let current = match equipment_of(document, ci) {
            Some(e) => member(e, slot),
            None => None,
        };
        match current {
            Some(JsonView::Object(o)) => {
                let e = equipment_of(document, ci)->0;
                Ok(
                    with_equipment(
                        document,
                        ci,
                        set_member(
                            e,
                            slot,
                            JsonView::Object(
                                set_member(
                                    set_member(o, "definition_hash"@, JsonView::Str(hash_text(hash))),
                                    "plugs"@,
                                    JsonView::Array(default_values(defaults)),
                                ),
                            ),
                        ),
                    ),
                )
            },
            Some(JsonView::Null) | None => match spec_allocate_soid(document) {
                Err(_) => Err("Could not allocate a unique instance SOID for the selected item"@),
                Ok(soid) => match equipment_of(document, ci) {
                    None => Err("The selected character has no equipment object"@),
                    Some(e) => Ok(
                        with_equipment(
                            document,
                            ci,
                            set_member(e, slot, new_equipped_row(soid, hash, spec_inferred_level(document, ci), defaults)),
                        ),
                    ),
                },
            },
            Some(_) => Err("The "@ + slot_label_of(slot) + " slot must be an object or null before it can be changed"@),
        }
    }
}

fn slot_message(head: &str, slot: &str, tail: &str) -> (t: String)
    ensures
        t@ == head@ + slot_label_of(slot@) + tail@,
{
    let mut t = owned(head);
    push_str(&mut t, equipment_slot_label(slot));
    push_str(&mut t, tail);
    t
}

/// Equips definition `definition_hash` into `slot` of character `character_index`, as
/// `spec_equip_definition` describes. A refused edit changes nothing.
pub fn equip_definition(
    document: &mut JsonValue,
    character_index: usize,
    slot: &str,
    definition_hash: u64,
    default_plugs: &Vec<Option<String>>,
) -> (r: Result<(), String>)
    ensures
        match spec_equip_definition(old(document).deep(), character_index as int, slot@, definition_hash, defaults_view(default_plugs@)) {
            Ok(after) => r is Ok && final(document).deep() == after,
            Err(e) => r matches Err(x) && x@ == e && final(document).deep() == old(document).deep(),
        },
{
    let ci = character_index;
    if definition_hash > u32::MAX as u64 {
        return Err(slot_message("Cannot equip an invalid definition hash in the ", slot, " slot"));
    }
    let current = match equipment_exec(document, ci) {
        Some(e) => member_of(e, slot),
        None => None,
    };
    let replace_existing = match current {
        Some(JsonValue::Object(_)) => true,
        Some(JsonValue::Null) => false,
        None => false,
        Some(_) => {
            return Err(slot_message("The ", slot, " slot must be an object or null before it can be changed"));
        },
    };
    if replace_existing {
        let e = match equipment_exec(document, ci) {
            Some(e) => e,
            None => {
                proof {
                    assert(false);
                }
                return Ok(());
            },
        };
        let mut o = match member_of(e, slot) {
            Some(JsonValue::Object(o)) => {
                proof {
                    lemma_object_deep(*o);
                }
                copy_members(o)
            },
            _ => {
                proof {
                    assert(false);
                }
                return Ok(());
            },
        };
        set_member_exec(&mut o, "definition_hash", JsonValue::String(format_hash(definition_hash)));
        let plugs = JsonValue::Array(default_plug_values(default_plugs));
        proof {
            lemma_array_deep(plugs->Array_0);
        }
        set_member_exec(&mut o, "plugs", plugs);
        let item = JsonValue::Object(o);
        proof {
            lemma_object_deep(item->Object_0);
        }
        let mut e2 = copy_members(e);
        set_member_exec(&mut e2, slot, item);
        replace_equipment(document, ci, e2);
        return Ok(());
    }
    let soid = match allocate_instance_soid(document) {
        Ok(s) => s,
        Err(_) => {
            return Err(owned("Could not allocate a unique instance SOID for the selected item"));
        },
    };
    let level = inferred_item_level(document, ci);
    let e = match equipment_exec(document, ci) {
        Some(e) => e,
        None => {
            return Err(owned("The selected character has no equipment object"));
        },
    };
    let mut row: Vec<(String, JsonValue)> = Vec::new();
    row.push((owned("definition_hash"), JsonValue::String(format_hash(definition_hash))));
    row.push((owned("instance_soid"), JsonValue::String(format_instance_soid(soid))));
    row.push((owned("level"), i64_value(level)));
    let plugs = JsonValue::Array(default_plug_values(default_plugs));
    proof {
        lemma_array_deep(plugs->Array_0);
    }
    row.push((owned("plugs"), plugs));
    row.push((owned("quantity"), JsonValue::Number(JsonNumber::PosInt(1))));
    let item = JsonValue::Object(row);
    proof {
        lemma_object_deep(item->Object_0);
        assert(item.deep()->Object_0 =~= new_equipped_row(
            soid,
            definition_hash,
            level,
            defaults_view(default_plugs@),
        )->Object_0);
    }
    let mut e2 = copy_members(e);
    set_member_exec(&mut e2, slot, item);
    replace_equipment(document, ci, e2);
    Ok(())
}

// ---------------------------------------------------------------------------------------
// Subclasses and their abilities
// ---------------------------------------------------------------------------------------

/// The abilities a subclass starts with, as `default_ability_values` picks them.
pub open spec fn ability_defaults(class_type: u64, abilities: AbilityOptions, schema: Option<u64>) -> (u64, u64, u64, u64, u64) {
    (
        pick_ability(abilities.movement@, default_movement(class_type, schema)),
        pick_ability(abilities.grenade@, 7),
        pick_ability(abilities.super_ability@, 10),
        pick_ability(abilities.melee@, 11),
        pick_ability(abilities.class_ability@, 2),
    )
}

pub open spec fn entry_view(v: u64) -> JsonView {
    JsonView::Number(NumberView::PosInt(v))
}

/// A character's members with its five ability entries set.
pub open spec fn with_abilities(c: Seq<(Seq<char>, JsonView)>, v: (u64, u64, u64, u64, u64)) -> Seq<(Seq<char>, JsonView)> {
    set_member(
        set_member(
            set_member(
                set_member(set_member(c, "movement_ability"@, entry_view(v.0)), "grenade_ability"@, entry_view(v.1)),
                "super_ability"@,
                entry_view(v.2),
            ),
            "melee_ability"@,
            entry_view(v.3),
        ),
        "class_ability"@,
        entry_view(v.4),
    )
}

/// Setting character `ci`'s abilities to a subclass's defaults.
pub open spec fn spec_set_default_abilities(document: JsonView, ci: int, class_type: u64, abilities: AbilityOptions) -> Result<
    JsonView,
    Seq<char>,
> {
    match character_value(document, ci) {
        Some(JsonView::Object(c)) => Ok(
            with_character(
                document,
                ci,
                with_abilities(c, ability_defaults(class_type, abilities, document_version(document))),
            ),
        ),
        _ => Err("Character "@ + decimal((ci + 1) as nat) + " must be an object"@),
    }
}

/// Character `ci`'s class.
pub open spec fn class_of(document: JsonView, ci: int) -> Option<u64> {
    match character_value(document, ci) {
        Some(c) => match get(c, "class"@) {
            Some(v) => as_u64(v),
            None => None,
        },
        None => None,
    }
}

fn version_exec(document: &JsonValue) -> (v: Option<u64>)
    ensures
        v == document_version(document.deep()),
{
    match get_member(document, "version") {
        Some(v) => value_as_u64(v),
        None => None,
    }
}

fn class_exec(document: &JsonValue, ci: usize) -> (r: Option<u64>)
    ensures
        r == class_of(document.deep(), ci as int),
{
    match character_value_exec(document, ci) {
        Some(c) => match get_member(c, "class") {
            Some(v) => value_as_u64(v),
            None => None,
        },
        None => None,
    }
}

fn character_message(ci: usize, tail: &str) -> (t: String)
    requires
        ci < usize::MAX,
    ensures
        t@ == "Character "@ + decimal((ci + 1) as nat) + tail@,
{
    let mut t = owned("Character ");
    push_decimal(&mut t, ci as u64 + 1);
    push_str(&mut t, tail);
    t
}

/// Sets character `character_index`'s five ability entries to a subclass's defaults, as
/// `spec_set_default_abilities` describes.
pub fn set_default_subclass_abilities(
    document: &mut JsonValue,
    character_index: usize,
    class_type: u64,
    abilities: &AbilityOptions,
) -> (r: Result<(), String>)
    requires
        character_index < usize::MAX,
    ensures
        match spec_set_default_abilities(old(document).deep(), character_index as int, class_type, *abilities) {
            Ok(after) => r is Ok && final(document).deep() == after,
            Err(e) => r matches Err(x) && x@ == e && final(document).deep() == old(document).deep(),
        },
{
    let ci = character_index;
    let defaults = default_ability_values(class_type, abilities, version_exec(document));
    match character_value_exec(document, ci) {
        Some(JsonValue::Object(_)) => {},
        _ => {
            return Err(character_message(ci, " must be an object"));
        },
    }
    proof {
        lemma_character_found(document.deep(), ci as int);
    }
    let mut c = copy_character(document, ci);
    set_member_exec(&mut c, "movement_ability", JsonValue::Number(JsonNumber::PosInt(defaults.0)));
    set_member_exec(&mut c, "grenade_ability", JsonValue::Number(JsonNumber::PosInt(defaults.1)));
    set_member_exec(&mut c, "super_ability", JsonValue::Number(JsonNumber::PosInt(defaults.2)));
    set_member_exec(&mut c, "melee_ability", JsonValue::Number(JsonNumber::PosInt(defaults.3)));
    set_member_exec(&mut c, "class_ability", JsonValue::Number(JsonNumber::PosInt(defaults.4)));
    replace_character(document, ci, c);
    Ok(())
}

/// Equipping a subclass definition and resetting the character's abilities to its defaults,
/// as one edit.
pub open spec fn spec_equip_subclass(document: JsonView, ci: int, item: ItemDefinition) -> Result<JsonView, Seq<char>> {
    if item.bucket_hash != SUBCLASS_BUCKET {
        Err("The selected definition is not a subclass"@)
    } else {
        match class_of(document, ci) {
            None => Err("Character "@ + decimal((ci + 1) as nat) + " has no valid class"@),
            Some(ct) => if item.class_type != 3 && item.class_type != ct {
                Err(item.name@ + " is not compatible with "@ + class_label(ct))
            } else {
                match spec_equip_definition(document, ci, "subclass"@, item.hash, defaults_view(item.default_plugs@)) {
                    Err(e) => Err(e),
                    Ok(equipped) => spec_set_default_abilities(equipped, ci, ct, item.abilities),
                }
            },
        }
    }
}

fn not_compatible(item: &ItemDefinition, class_type: u64) -> (t: String)
    ensures
        t@ == item.name@ + " is not compatible with "@ + class_label(class_type),
{
    let mut t = item.name.clone();
    push_str(&mut t, " is not compatible with ");
    push_str(&mut t, class_name(class_type));
    t
}

/// Equips a subclass and resets the character's abilities to its defaults, as
/// `spec_equip_subclass` describes; both happen or neither.
pub fn equip_subclass_with_default_abilities(document: &mut JsonValue, character_index: usize, item: &ItemDefinition) -> (r:
    Result<(), String>)
    requires
        character_index < usize::MAX,
    ensures
        match spec_equip_subclass(old(document).deep(), character_index as int, *item) {
            Ok(after) => r is Ok && final(document).deep() == after,
            Err(e) => r matches Err(x) && x@ == e && final(document).deep() == old(document).deep(),
        },
{
    let ci = character_index;
    if item.bucket_hash != SUBCLASS_BUCKET {
        return Err(owned("The selected definition is not a subclass"));
    }
    let class_type = match class_exec(document, ci) {
        Some(c) => c,
        None => {
            return Err(character_message(ci, " has no valid class"));
        },
    };
    if item.class_type != 3 && item.class_type != class_type {
        return Err(not_compatible(item, class_type));
    }
    let mut candidate = document.deep_copy();
    match equip_definition(&mut candidate, ci, "subclass", item.hash, &item.default_plugs) {
        Ok(()) => {},
        Err(e) => {
            return Err(e);
        },
    }
    match set_default_subclass_abilities(&mut candidate, ci, class_type, &item.abilities) {
        Ok(()) => {},
        Err(e) => {
            return Err(e);
        },
    }
    *document = candidate;
    Ok(())
}

fn slot_index(slot: &str) -> (r: Option<usize>)
    ensures
        match r {
            Some(k) => slot_named(slot@, 0) == Some(k as int) && k < SLOT_COUNT,
            None => slot_named(slot@, 0) is None,
        },
{
    let mut k: usize = 0;
    while k < SLOT_COUNT
        invariant
            k <= SLOT_COUNT,
            slot_named(slot@, k as int) == slot_named(slot@, 0),
        decreases SLOT_COUNT - k,
    {
        let (name, _, _) = slot_entry(k);
        if str_eq(name, slot) {
            return Some(k);
        }
        k += 1;
    }
    None
}

/// Equipping stored row `location` into `slot`: the definition must belong to the slot's
/// bucket and suit the character's class, the row must still hold that definition and a
/// single item, and the swap must succeed; a subclass swap also resets the abilities.
/// Rows are found by their index, which is their location.
pub open spec fn spec_equip_inventory_item(
    document: JsonView,
    location: InventoryItemLocation,
    slot: Seq<char>,
    item: ItemDefinition,
) -> Result<(bool, JsonView), Seq<char>> {
    let ci = location.character_index as int;
    let ii = location.item_index as int;
    match slot_named(slot, 0) {
        None => Err("Unknown equipment slot: "@ + slot),
        Some(k) => if item.bucket_hash != slot_table()[k].2 {
            Err(item.name@ + " is not valid for the "@ + slot_table()[k].1 + " slot"@)
        } else {
            match spec_character_inventory(document, ci) {
                Err(e) => Err(error_text(e)),
                Ok(None) => Err("The selected character has no inventory array"@),
                Ok(Some(items)) => if ii >= items.len() {
                    Err("The selected inventory item no longer exists"@)
                } else if items[ii].definition_hash as u64 != item.hash {
                    Err("The selected inventory item changed before it could be equipped"@)
                } else if items[ii].quantity != 1 {
                    Err("Only a single inventory item can be equipped at a time"@)
                } else {
                    match class_of(document, ci) {
                        None => Err("Character "@ + decimal((ci + 1) as nat) + " has no valid class"@),
                        Some(ct) => if item.class_type != 3 && item.class_type != ct {
                            Err(item.name@ + " is not compatible with "@ + class_label(ct))
                        } else {
                            match spec_swap_with_equipment(document, location, slot) {
                                Err(e) => Err(error_text(e)),
                                Ok((replaced, swapped)) => if slot == "subclass"@ {
                                    match spec_set_default_abilities(swapped, ci, ct, item.abilities) {
                                        Err(e) => Err(e),
                                        Ok(after) => Ok((replaced, after)),
                                    }
                                } else {
                                    Ok((replaced, swapped))
                                },
                            }
                        },
                    }
                },
            }
        },
    }
}

/// Equips one stored item, putting the previously equipped item back in its row, as
/// `spec_equip_inventory_item` describes; says whether an item was put back.
pub fn equip_inventory_item(
    document: &mut JsonValue,
    location: InventoryItemLocation,
    slot: &str,
    item: &ItemDefinition,
) -> (r: Result<bool, String>)
    requires
        location.character_index < usize::MAX,
    ensures
        match spec_equip_inventory_item(old(document).deep(), location, slot@, *item) {
            Ok((replaced, after)) => r == Ok::<bool, String>(replaced) && final(document).deep() == after,
            Err(e) => r matches Err(x) && x@ == e && final(document).deep() == old(document).deep(),
        },
{
    let ci = location.character_index;
    let ii = location.item_index;
    let found = slot_index(slot);
    let k = match found {
        Some(k) => k,
        None => {
            let mut t = owned("Unknown equipment slot: ");
            push_str(&mut t, slot);
            return Err(t);
        },
    };
    let (_, label, bucket) = slot_entry(k);
    if item.bucket_hash != bucket {
        let mut t = item.name.clone();
        push_str(&mut t, " is not valid for the ");
        push_str(&mut t, label);
        push_str(&mut t, " slot");
        return Err(t);
    }
    let items = match character_inventory(document, ci) {
        Err(e) => {
            return Err(e.to_text());
        },
        Ok(None) => {
            return Err(owned("The selected character has no inventory array"));
        },
        Ok(Some(items)) => items,
    };
    if ii >= items.len() {
        return Err(owned("The selected inventory item no longer exists"));
    }
    assert(items_view(items@)[ii as int] == items@[ii as int].item_view());
    if items[ii].definition_hash as u64 != item.hash {
        return Err(owned("The selected inventory item changed before it could be equipped"));
    }
    if items[ii].quantity != 1 {
        return Err(owned("Only a single inventory item can be equipped at a time"));
    }
    let class_type = match class_exec(document, ci) {
        Some(c) => c,
        None => {
            return Err(character_message(ci, " has no valid class"));
        },
    };
    if item.class_type != 3 && item.class_type != class_type {
        return Err(not_compatible(item, class_type));
    }
    let mut candidate = document.deep_copy();
    let replaced = match swap_inventory_item_with_equipment(&mut candidate, location, slot) {
        Ok(b) => b,
        Err(e) => {
            return Err(e.to_text());
        },
    };
    if str_eq(slot, "subclass") {
        match set_default_subclass_abilities(&mut candidate, ci, class_type, &item.abilities) {
            Ok(()) => {},
            Err(e) => {
                return Err(e);
            },
        }
    }
    *document = candidate;
    Ok(replaced)
}

// ---------------------------------------------------------------------------------------
// Editing an equipped item
// ---------------------------------------------------------------------------------------

/// The object in `slot` of character `ci`: the slot must be known and hold an object.
pub open spec fn spec_equipped_object(document: JsonView, ci: int, slot: Seq<char>, missing: Seq<char>) -> Result<
    Seq<(Seq<char>, JsonView)>,
    Seq<char>,
> {
    if slot_named(slot, 0) is None {
        Err("Unknown equipment slot: "@ + slot)
    } else {
        match equipment_of(document, ci) {
            Some(e) => match member(e, slot) {
                Some(JsonView::Object(o)) => Ok(o),
                _ => Err(missing),
            },
            None => Err(missing),
        }
    }
}

pub open spec fn edit_missing(slot: Seq<char>) -> Seq<char> {
    "The "@ + slot_label_of(slot) + " slot must contain an item object before it can be edited"@
}

pub open spec fn read_missing(slot: Seq<char>) -> Seq<char> {
    "Missing equipped item in the "@ + slot_label_of(slot) + " slot"@
}

/// The document with the item in `slot` of character `ci` replaced by members `o`.
pub open spec fn with_item(document: JsonView, ci: int, slot: Seq<char>, o: Seq<(Seq<char>, JsonView)>) -> JsonView {
    with_equipment(document, ci, set_member(equipment_of(document, ci)->0, slot, JsonView::Object(o)))
}

fn unknown_slot(slot: &str) -> (t: String)
    ensures
        t@ == "Unknown equipment slot: "@ + slot@,
{
    let mut t = owned("Unknown equipment slot: ");
    push_str(&mut t, slot);
    t
}

/// A copy of the object in `slot`, as `spec_equipped_object` describes.
fn equipped_object(document: &JsonValue, ci: usize, slot: &str, for_edit: bool) -> (r: Result<
    Vec<(String, JsonValue)>,
    String,
>)
    ensures
        match spec_equipped_object(
            document.deep(),
            ci as int,
            slot@,
            if for_edit {
                edit_missing(slot@)
            } else {
                read_missing(slot@)
            },
        ) {
            Ok(o) => r matches Ok(x) && members_view(x@) == o,
            Err(e) => r matches Err(x) && x@ == e,
        },
{
    if !known_slot(slot) {
        return Err(unknown_slot(slot));
    }
    let missing = if for_edit {
        slot_message("The ", slot, " slot must contain an item object before it can be edited")
    } else {
        slot_message("Missing equipped item in the ", slot, " slot")
    };
    match equipment_exec(document, ci) {
        Some(e) => match member_of(e, slot) {
            Some(JsonValue::Object(o)) => {
                proof {
                    lemma_object_deep(*o);
                }
                Ok(copy_members(o))
            },
            _ => Err(missing),
        },
        None => Err(missing),
    }
}

/// Puts members `o` back as the item in `slot`.
fn replace_item(document: &mut JsonValue, ci: usize, slot: &str, o: Vec<(String, JsonValue)>)
    requires
        equipment_of(old(document).deep(), ci as int) is Some,
    ensures
        final(document).deep() == with_item(old(document).deep(), ci as int, slot@, members_view(o@)),
{
    let e = match equipment_exec(document, ci) {
        Some(e) => e,
        None => {
            proof {
                assert(false);
            }
            return;
        },
    };
    let mut e2 = copy_members(e);
    let item = JsonValue::Object(o);
    proof {
        lemma_object_deep(item->Object_0);
    }
    set_member_exec(&mut e2, slot, item);
    replace_equipment(document, ci, e2);
}

/// Setting the level of the item in `slot`.
pub open spec fn spec_set_level(document: JsonView, ci: int, slot: Seq<char>, level: i64) -> Result<JsonView, Seq<char>> {
    if !(0 <= level <= i32::MAX) {
        Err("Equipment level must be a non-negative signed 32-bit integer"@)
    } else {
        match spec_equipped_object(document, ci, slot, edit_missing(slot)) {
            Err(e) => Err(e),
            Ok(o) => Ok(with_item(document, ci, slot, set_member(o, "level"@, i64_view(level)))),
        }
    }
}

/// Sets the level of the item in `slot`, as `spec_set_level` describes; its other members
/// stay as they were.
pub fn set_equipment_item_level(document: &mut JsonValue, character_index: usize, slot: &str, level: i64) -> (r: Result<
    (),
    String,
>)
    ensures
        match spec_set_level(old(document).deep(), character_index as int, slot@, level) {
            Ok(after) => r is Ok && final(document).deep() == after,
            Err(e) => r matches Err(x) && x@ == e && final(document).deep() == old(document).deep(),
        },
{
    if !(0 <= level && level <= i32::MAX as i64) {
        return Err(owned("Equipment level must be a non-negative signed 32-bit integer"));
    }
    let mut o = match equipped_object(document, character_index, slot, true) {
        Ok(o) => o,
        Err(e) => {
            return Err(e);
        },
    };
    set_member_exec(&mut o, "level", i64_value(level));
    replace_item(document, character_index, slot, o);
    Ok(())
}

/// `plugs` lengthened with empty entries to at least `n`.
pub open spec fn padded(plugs: Seq<JsonView>, n: int) -> Seq<JsonView> {
    if plugs.len() >= n {
        plugs
    } else {
        plugs + Seq::new((n - plugs.len()) as nat, |i: int| JsonView::Null)
    }
}

/// Setting socket `socket` of the item in `slot` to `hash` (empty for none). Native plugs
/// (null) are first written out from the definition's defaults.
pub open spec fn spec_set_plug(
    document: JsonView,
    ci: int,
    slot: Seq<char>,
    socket: int,
    defaults: Seq<Option<Seq<char>>>,
    hash: Option<u64>,
) -> Result<JsonView, Seq<char>> {
    if socket >= MAX_ITEM_PLUGS {
        Err("Equipment socket index must be below "@ + decimal(MAX_ITEM_PLUGS as nat))
    } else if hash matches Some(h) && h > u32::MAX {
        Err("Equipment plug hash must fit in an unsigned 32-bit integer"@)
    } else {
        match spec_equipped_object(document, ci, slot, edit_missing(slot)) {
            Err(e) => Err(e),
            Ok(o) => match member(o, "plugs"@) {
                None => Err("Missing plugs value for "@ + slot),
                Some(pv) => {
                    let current = match pv {
                        JsonView::Null => Some(default_values(defaults)),
                        JsonView::Array(a) => Some(a),
                        _ => None,
                    };
                    match current {
                        None => Err("Invalid plugs value for "@ + slot),
                        Some(plugs) => Ok(
                            with_item(
                                document,
                                ci,
                                slot,
                                set_member(
                                    o,
                                    "plugs"@,
                                    JsonView::Array(
                                        padded(plugs, socket + 1).update(
                                            socket,
                                            match hash {
                                                Some(h) => JsonView::Str(hash_text(h)),
                                                None => JsonView::Null,
                                            },
                                        ),
                                    ),
                                ),
                            ),
                        ),
                    }
                },
            },
        }
    }
}

/// Sets one plug of the item in `slot`, as `spec_set_plug` describes; the other plugs and
/// members stay as they were.
pub fn set_equipment_item_plug(
    document: &mut JsonValue,
    character_index: usize,
    slot: &str,
    socket_index: usize,
    default_plugs: &Vec<Option<String>>,
    hash: Option<u64>,
) -> (r: Result<(), String>)
    ensures
        match spec_set_plug(old(document).deep(), character_index as int, slot@, socket_index as int, defaults_view(default_plugs@), hash) {
            Ok(after) => r is Ok && final(document).deep() == after,
            Err(e) => r matches Err(x) && x@ == e && final(document).deep() == old(document).deep(),
        },
{
    if socket_index >= MAX_ITEM_PLUGS {
        let mut t = owned("Equipment socket index must be below ");
        push_decimal(&mut t, MAX_ITEM_PLUGS as u64);
        return Err(t);
    }
    match hash {
        Some(h) => if h > u32::MAX as u64 {
            return Err(owned("Equipment plug hash must fit in an unsigned 32-bit integer"));
        },
        None => {},
    }
    let mut o = match equipped_object(document, character_index, slot, true) {
        Ok(o) => o,
        Err(e) => {
            return Err(e);
        },
    };
    let mut plugs = match member_of(&o, "plugs") {
        None => {
            let mut t = owned("Missing plugs value for ");
            push_str(&mut t, slot);
            return Err(t);
        },
        Some(JsonValue::Null) => default_plug_values(default_plugs),
        Some(JsonValue::Array(a)) => {
            proof {
                lemma_array_deep(*a);
            }
            copy_elements(a)
        },
        Some(_) => {
            let mut t = owned("Invalid plugs value for ");
            push_str(&mut t, slot);
            return Err(t);
        },
    };
    let ghost current = elems_view(plugs@);
    assert(elems_view(plugs@) =~= current + Seq::new(0, |i: int| JsonView::Null));
    while plugs.len() <= socket_index
        invariant
            socket_index < MAX_ITEM_PLUGS,
            current.len() <= plugs@.len(),
            plugs@.len() == current.len() || plugs@.len() <= socket_index + 1,
            elems_view(plugs@) == current + Seq::new((plugs@.len() - current.len()) as nat, |i: int| JsonView::Null),
        decreases socket_index + 1 - plugs.len(),
    {
        let ghost before = plugs@;
        plugs.push(JsonValue::Null);
        assert(elems_view(plugs@) =~= elems_view(before).push(JsonView::Null));
        assert(elems_view(plugs@) =~= current + Seq::new((plugs@.len() - current.len()) as nat, |i: int| JsonView::Null));
    }
    assert(padded(current, socket_index + 1) =~= elems_view(plugs@));
    let entry = match hash {
        Some(h) => JsonValue::String(format_hash(h)),
        None => JsonValue::Null,
    };
    let ghost entry_view = entry.deep();
    plugs.set(socket_index, entry);
    assert(elems_view(plugs@) =~= padded(current, socket_index + 1).update(socket_index as int, entry_view));
    let array = JsonValue::Array(plugs);
    proof {
        lemma_array_deep(array->Array_0);
    }
    set_member_exec(&mut o, "plugs", array);
    replace_item(document, character_index, slot, o);
    Ok(())
}

/// Whether a schema lets equipment flags be edited.
pub open spec fn flags_editable(mode: SchemaMode) -> bool {
    (mode is PreInventory || mode is InventoryV6) && match mode.spec_version() {
        Some(v) => v >= EQUIPMENT_FLAGS_SCHEMA_VERSION,
        None => false,
    }
}

/// Setting (or, with none, removing) the flags of the item in `slot`.
pub open spec fn spec_set_flags(document: JsonView, ci: int, slot: Seq<char>, flags: Option<u8>) -> Result<JsonView, Seq<char>> {
    if !flags_editable(spec_schema_mode(document_version(document))) {
        Err(
            "Equipment flags require a writable settings schema "@ + decimal(EQUIPMENT_FLAGS_SCHEMA_VERSION as nat)
                + " or newer"@,
        )
    } else if flags matches Some(f) && f > INVENTORY_FLAG_MASK {
        Err("Equipment flags must be between 0 and "@ + decimal(INVENTORY_FLAG_MASK as nat))
    } else {
        match spec_equipped_object(document, ci, slot, edit_missing(slot)) {
            Err(e) => Err(e),
            Ok(o) => Ok(
                with_item(
                    document,
                    ci,
                    slot,
                    match flags {
                        Some(f) => set_member(o, "flags"@, JsonView::Number(NumberView::PosInt(f as u64))),
                        None => remove_member(o, "flags"@),
                    },
                ),
            ),
        }
    }
}

/// Sets or removes the flags of the item in `slot`, as `spec_set_flags` describes.
pub fn set_equipment_item_flags(document: &mut JsonValue, character_index: usize, slot: &str, flags: Option<u8>) -> (r:
    Result<(), String>)
    ensures
        match spec_set_flags(old(document).deep(), character_index as int, slot@, flags) {
            Ok(after) => r is Ok && final(document).deep() == after,
            Err(e) => r matches Err(x) && x@ == e && final(document).deep() == old(document).deep(),
        },
{
    if !schema_mode(document).can_mutate_equipment_flags() {
        let mut t = owned("Equipment flags require a writable settings schema ");
        push_decimal(&mut t, EQUIPMENT_FLAGS_SCHEMA_VERSION);
        push_str(&mut t, " or newer");
        return Err(t);
    }
    match flags {
        Some(f) => if f > INVENTORY_FLAG_MASK {
            let mut t = owned("Equipment flags must be between 0 and ");
            push_decimal(&mut t, INVENTORY_FLAG_MASK as u64);
            return Err(t);
        },
        None => {},
    }
    let mut o = match equipped_object(document, character_index, slot, true) {
        Ok(o) => o,
        Err(e) => {
            return Err(e);
        },
    };
    match flags {
        Some(f) => set_member_exec(&mut o, "flags", JsonValue::Number(JsonNumber::PosInt(f as u64))),
        None => remove_member_exec(&mut o, "flags"),
    }
    replace_item(document, character_index, slot, o);
    Ok(())
}

// ---------------------------------------------------------------------------------------
// Catalysts
// ---------------------------------------------------------------------------------------

/// A weapon's catalyst socket and the plug that stands for each catalyst state.
#[derive(Clone, Copy, Debug, PartialEq, Eq, Structural)]
pub struct CatalystSocket {
    pub socket_index: usize,
    pub unacquired_plug: u64,
    pub in_progress_plug: u64,
    pub completed_plug: u64,
}

/// Where a catalyst stands.
#[derive(Clone, Copy, Debug, PartialEq, Eq, Structural)]
pub enum CatalystState {
    Unacquired,
    InProgress,
    Completed,
}

impl CatalystSocket {
    pub open spec fn spec_authored_state(self, state: CatalystState) -> (u64, bool) {
        match state {
            CatalystState::Unacquired => (self.unacquired_plug, false),
            CatalystState::InProgress => (self.in_progress_plug, false),
            CatalystState::Completed => (self.completed_plug, true),
        }
    }

    /// The plug a state is written as, and whether the weapon counts as masterworked: only
    /// a completed catalyst does.
    pub fn authored_state(self, state: CatalystState) -> (r: (u64, bool))
        ensures
            r == self.spec_authored_state(state),
    {
        match state {
            CatalystState::Unacquired => (self.unacquired_plug, false),
            CatalystState::InProgress => (self.in_progress_plug, false),
            CatalystState::Completed => (self.completed_plug, true),
        }
    }
}

/// The flags an equipped item holds: none, or an unsigned 8-bit value.
pub open spec fn current_flags(o: Seq<(Seq<char>, JsonView)>) -> Result<Option<u8>, Seq<char>> {
    match member(o, "flags"@) {
        None => Ok(None),
        Some(v) => match unsigned_value(v) {
            Some(f) => if f <= u8::MAX {
                Ok(Some(f as u8))
            } else {
                Err("Equipment flags must be an unsigned 8-bit value"@)
            },
            None => Err("Equipment flags must be an unsigned 8-bit value"@),
        },
    }
}

/// Setting a weapon's catalyst state: its catalyst plug and its masterwork flag change
/// together; the other flags stay.
pub open spec fn spec_set_catalyst(
    document: JsonView,
    ci: int,
    slot: Seq<char>,
    defaults: Seq<Option<Seq<char>>>,
    catalyst: CatalystSocket,
    state: CatalystState,
) -> Result<JsonView, Seq<char>> {
    let (plug, masterworked) = catalyst.spec_authored_state(state);
    match spec_equipped_object(document, ci, slot, read_missing(slot)) {
        Err(e) => Err(e),
        Ok(o) => match current_flags(o) {
            Err(e) => Err(e),
            Ok(flags) => match spec_set_plug(document, ci, slot, catalyst.socket_index as int, defaults, Some(plug)) {
                Err(e) => Err(e),
                Ok(plugged) => spec_set_flags(
                    plugged,
                    ci,
                    slot,
                    spec_set_flag(flags, INVENTORY_FLAG_MASTERWORK, masterworked),
                ),
            },
        },
    }
}

/// Sets a weapon's catalyst state, as `spec_set_catalyst` describes; plug and flags change
/// together or not at all.
pub fn set_equipment_item_catalyst(
    document: &mut JsonValue,
    character_index: usize,
    slot: &str,
    default_plugs: &Vec<Option<String>>,
    catalyst: CatalystSocket,
    state: CatalystState,
) -> (r: Result<(), String>)
    ensures
        match spec_set_catalyst(old(document).deep(), character_index as int, slot@, defaults_view(default_plugs@), catalyst, state) {
            Ok(after) => r is Ok && final(document).deep() == after,
            Err(e) => r matches Err(x) && x@ == e && final(document).deep() == old(document).deep(),
        },
{
    let (plug, masterworked) = catalyst.authored_state(state);
    let o = match equipped_object(document, character_index, slot, false) {
        Ok(o) => o,
        Err(e) => {
            return Err(e);
        },
    };
    let flags = match member_of(&o, "flags") {
        None => None,
        Some(v) => match parse_unsigned_value(v) {
            Some(f) => if f <= u8::MAX as u64 {
                Some(f as u8)
            } else {
                return Err(owned("Equipment flags must be an unsigned 8-bit value"));
            },
            None => {
                return Err(owned("Equipment flags must be an unsigned 8-bit value"));
            },
        },
    };
    let mut candidate = document.deep_copy();
    match set_equipment_item_plug(&mut candidate, character_index, slot, catalyst.socket_index, default_plugs, Some(plug)) {
        Ok(()) => {},
        Err(e) => {
            return Err(e);
        },
    }
    let new_flags = set_inventory_flag(flags, INVENTORY_FLAG_MASTERWORK, masterworked);
    match set_equipment_item_flags(&mut candidate, character_index, slot, new_flags) {
        Ok(()) => {},
        Err(e) => {
            return Err(e);
        },
    }
    *document = candidate;
    Ok(())
}

// ---------------------------------------------------------------------------------------
// Emptying a weapon slot
// ---------------------------------------------------------------------------------------

pub open spec fn is_weapon_slot(slot: Seq<char>) -> bool {
    slot == "kinetic"@ || slot == "energy"@ || slot == "heavy"@
}

/// Emptying a weapon slot: it becomes null, whether it held an item or nothing.
pub open spec fn spec_set_weapon_empty(document: JsonView, ci: int, slot: Seq<char>) -> Result<JsonView, Seq<char>> {
    if !is_weapon_slot(slot) {
        Err("Only weapon slots can be set to empty; "@ + slot_label_of(slot) + " was not changed"@)
    } else {
        match equipment_of(document, ci) {
            None => Err("The selected character has no equipment object"@),
            Some(e) => match member(e, slot) {
                Some(JsonView::Object(_)) | Some(JsonView::Null) | None => Ok(
                    with_equipment(document, ci, set_member(e, slot, JsonView::Null)),
                ),
                Some(_) => Err("The "@ + slot_label_of(slot) + " slot contains unexpected data and was not changed"@),
            },
        }
    }
}

/// Empties a weapon slot, as `spec_set_weapon_empty` describes.
pub fn set_weapon_slot_empty(document: &mut JsonValue, character_index: usize, slot: &str) -> (r: Result<(), String>)
    ensures
        match spec_set_weapon_empty(old(document).deep(), character_index as int, slot@) {
            Ok(after) => r is Ok && final(document).deep() == after,
            Err(e) => r matches Err(x) && x@ == e && final(document).deep() == old(document).deep(),
        },
{
    if !(str_eq(slot, "kinetic") || str_eq(slot, "energy") || str_eq(slot, "heavy")) {
        return Err(slot_message("Only weapon slots can be set to empty; ", slot, " was not changed"));
    }
    let e = match equipment_exec(document, character_index) {
        None => {
            return Err(owned("The selected character has no equipment object"));
        },
        Some(e) => e,
    };
    match member_of(e, slot) {
        Some(JsonValue::Object(_)) | Some(JsonValue::Null) | None => {},
        Some(_) => {
            return Err(slot_message("The ", slot, " slot contains unexpected data and was not changed"));
        },
    }
    let mut e2 = copy_members(e);
    set_member_exec(&mut e2, slot, JsonValue::Null);
    replace_equipment(document, character_index, e2);
    Ok(())
}

// ---------------------------------------------------------------------------------------
// Native plugs
// ---------------------------------------------------------------------------------------

/// The plugs an editor shows for an item, and whether they are the definition's native
/// plugs: authored plugs as they are; null as the native plugs; anything else as none.
pub open spec fn spec_displayed_plugs(plugs: Option<JsonView>, defaults: Seq<Option<Seq<char>>>) -> (Seq<JsonView>, bool) {
    match plugs {
        Some(JsonView::Array(a)) => (a, a == default_values(defaults)),
        Some(JsonView::Null) => (default_values(defaults), true),
        _ => (Seq::empty(), false),
    }
}

pub fn displayed_plugs(plugs: Option<&JsonValue>, defaults: &Vec<Option<String>>) -> (r: (Vec<JsonValue>, bool))
    ensures
        (elems_view(r.0@), r.1) == spec_displayed_plugs(
            match plugs {
                Some(x) => Some(x.deep()),
                None => None,
            },
            defaults_view(defaults@),
        ),
{
    match plugs {
        Some(JsonValue::Array(a)) => {
            proof {
                lemma_array_deep(*a);
            }
            let native = JsonValue::Array(default_plug_values(defaults));
            proof {
                lemma_array_deep(native->Array_0);
            }
            let same = values_equal(plugs.unwrap(), &native);
            (copy_elements(a), same)
        },
        Some(JsonValue::Null) => (default_plug_values(defaults), true),
        _ => {
            let none: Vec<JsonValue> = Vec::new();
            assert(elems_view(none@) =~= Seq::<JsonView>::empty());
            (none, false)
        },
    }
}

/// The plug a native default stands for: the hash its text gives, when that fits 32 bits.
pub open spec fn default_plug_hash(text: Option<Seq<char>>) -> Option<u32> {
    match text {
        Some(t) => match parse_hash_text(t) {
            Some(h) => if h <= u32::MAX {
                Some(h as u32)
            } else {
                None
            },
            None => None,
        },
        None => None,
    }
}

/// The plugs an inventory row's editor shows, and whether they are the definition's native
/// plugs: a row without authored plugs shows the native defaults; authored plugs show as
/// they are.
pub fn displayed_inventory_plugs(inventory: &InventoryItemSnapshot, item: &ItemDefinition) -> (r: (Vec<Option<u32>>, bool))
    ensures
        match inventory.plugs {
            ItemPlugs::NativeDefaults => r.1 && r.0@ == Seq::new(
                item.default_plugs@.len(),
                |i: int| default_plug_hash(defaults_view(item.default_plugs@)[i]),
            ),
            ItemPlugs::Authored(p) => !r.1 && r.0@ == p@,
        },
{
    let mut out: Vec<Option<u32>> = Vec::new();
    match &inventory.plugs {
        ItemPlugs::NativeDefaults => {
            let ghost dv = defaults_view(item.default_plugs@);
            let mut i: usize = 0;
            while i < item.default_plugs.len()
                invariant
                    i <= item.default_plugs@.len(),
                    dv == defaults_view(item.default_plugs@),
                    out@ == Seq::new(i as nat, |x: int| default_plug_hash(dv[x])),
                decreases item.default_plugs.len() - i,
            {
                let plug: Option<u32> = match &item.default_plugs[i] {
                    Some(text) => match parse_hash(text.as_str()) {
                        Some(h) => if h <= 0xFFFF_FFFFu64 {
                            Some(h as u32)
                        } else {
                            None
                        },
                        None => None,
                    },
                    None => None,
                };
                out.push(plug);
                assert(out@ =~= Seq::new((i + 1) as nat, |x: int| default_plug_hash(dv[x])));
                i += 1;
            }
            (out, true)
        },
        ItemPlugs::Authored(p) => {
            let mut i: usize = 0;
            while i < p.len()
                invariant
                    i <= p@.len(),
                    out@ == p@.take(i as int),
                decreases p.len() - i,
            {
                out.push(p[i]);
                assert(out@ =~= p@.take(i + 1));
                i += 1;
            }
            assert(out@ =~= p@);
            (out, false)
        },
    }
}

/// What socket `socket_index` of a definition holds natively: a plug, nothing, or unknown
/// when the definition has no such socket or its hash text does not read.
pub open spec fn spec_native_plug_default(defaults: Seq<Option<Seq<char>>>, socket_index: int) -> Option<NativePlugDefault> {
    if 0 <= socket_index < defaults.len() {
        match defaults[socket_index] {
            Some(t) => match parse_hash_text(t) {
                Some(h) => Some(NativePlugDefault::Plug(h)),
                None => None,
            },
            None => Some(NativePlugDefault::Empty),
        }
    } else {
        None
    }
}

pub fn native_plug_default(defaults: &Vec<Option<String>>, socket_index: usize) -> (r: Option<NativePlugDefault>)
    ensures
        r == spec_native_plug_default(defaults_view(defaults@), socket_index as int),
{
    if socket_index >= defaults.len() {
        return None;
    }
    match &defaults[socket_index] {
        Some(t) => match parse_hash(t.as_str()) {
            Some(h) => Some(NativePlugDefault::Plug(h)),
            None => None,
        },
        None => Some(NativePlugDefault::Empty),
    }
}

// ---------------------------------------------------------------------------------------
// Export names
// ---------------------------------------------------------------------------------------

/// The name a plug export gives a character: its SOID in sixteen hex digits, else its class
/// number after `class`, else its index after `char`.
pub open spec fn spec_character_export_id(document: JsonView, ci: int) -> Seq<char> {
    match character_value(document, ci) {
        Some(c) => match (match get(c, "soid"@) {
            Some(v) => unsigned_value(v),
            None => None,
        }) {
            Some(s) => hex_digits(s as nat, 16),
            None => match (match get(c, "class"@) {
                Some(v) => as_u64(v),
                None => None,
            }) {
                Some(n) => "class"@ + decimal(n as nat),
                None => "char"@ + decimal(ci as nat),
            },
        },
        None => "char"@ + decimal(ci as nat),
    }
}

pub fn character_id_for_export(document: &JsonValue, character_index: usize) -> (id: String)
    ensures
        id@ == spec_character_export_id(document.deep(), character_index as int),
{
    match character_value_exec(document, character_index) {
        Some(c) => {
            let soid = match get_member(c, "soid") {
                Some(v) => parse_unsigned_value(v),
                None => None,
            };
            match soid {
                Some(s) => {
                    let mut t = String::new();
                    push_hex(&mut t, s, 16);
                    proof {
                        reveal_strlit("");
                        assert(t@ =~= hex_digits(s as nat, 16));
                    }
                    return t;
                },
                None => {},
            }
            match get_member(c, "class") {
                Some(v) => match value_as_u64(v) {
                    Some(n) => {
                        let mut t = owned("class");
                        push_decimal(&mut t, n);
                        return t;
                    },
                    None => {},
                },
                None => {},
            }
        },
        None => {},
    }
    let mut t = owned("char");
    push_decimal(&mut t, character_index as u64);
    t
}

// ---------------------------------------------------------------------------------------
// Class armor
// ---------------------------------------------------------------------------------------

pub open spec fn armor_slots() -> Seq<Seq<char>> {
    seq!["helmet"@, "gauntlets"@, "chest"@, "legs"@, "class_item"@]
}

fn armor_slot(k: usize) -> (slot: &'static str)
    requires
        k < 5,
    ensures
        slot@ == armor_slots()[k as int],
{
    match k {
        0 => "helmet",
        1 => "gauntlets",
        2 => "chest",
        3 => "legs",
        _ => "class_item",
    }
}

/// The armor slots among the first `k` that equipment `e` has, with what they hold.
pub open spec fn armor_of(e: Seq<(Seq<char>, JsonView)>, k: int) -> Seq<(Seq<char>, JsonView)>
    decreases k,
{
    if k <= 0 || k > 5 {
        Seq::empty()
    } else {
        armor_of(e, k - 1) + match member(e, armor_slots()[k - 1]) {
            Some(v) => seq![(armor_slots()[k - 1], v)],
            None => Seq::<(Seq<char>, JsonView)>::empty(),
        }
    }
}

pub open spec fn has_class(d: Seq<(u64, Seq<(Seq<char>, JsonView)>)>, class_type: u64) -> bool {
    exists|i: int| 0 <= i < d.len() && d[i].0 == class_type
}

/// For each class among the first `n` characters, the armor of its first character that
/// has a class and an equipment object.
pub open spec fn class_defaults(cs: Seq<JsonView>, n: int) -> Seq<(u64, Seq<(Seq<char>, JsonView)>)>
    decreases n,
{
    if n <= 0 || n > cs.len() {
        Seq::empty()
    } else {
        let prev = class_defaults(cs, n - 1);
        let c = cs[n - 1];
        let class_type = match get(c, "class"@) {
            Some(v) => as_u64(v),
            None => None,
        };
        match (class_type, get(c, "equipment"@)) {
            (Some(ct), Some(JsonView::Object(e))) => if has_class(prev, ct) {
                prev
            } else {
                prev.push((ct, armor_of(e, 5)))
            },
            _ => prev,
        }
    }
}

/// The armor each class starts from, taken from the first character of that class.
pub open spec fn spec_class_armor_defaults(document: JsonView) -> Seq<(u64, Seq<(Seq<char>, JsonView)>)> {
    match get(document, "state"@) {
        Some(s) => match get(s, "characters"@) {
            Some(JsonView::Array(cs)) => class_defaults(cs, cs.len() as int),
            _ => Seq::empty(),
        },
        None => Seq::empty(),
    }
}

pub open spec fn armor_defaults_view(v: Seq<(u64, Vec<(String, JsonValue)>)>) -> Seq<(u64, Seq<(Seq<char>, JsonView)>)> {
    Seq::new(v.len(), |i: int| (v[i].0, members_view(v[i].1@)))
}

fn armor_copy(e: &Vec<(String, JsonValue)>) -> (armor: Vec<(String, JsonValue)>)
    ensures
        members_view(armor@) == armor_of(members_view(e@), 5),
{
    let mut out: Vec<(String, JsonValue)> = Vec::new();
    assert(members_view(out@) =~= armor_of(members_view(e@), 0));
    let mut k: usize = 0;
    while k < 5
        invariant
            k <= 5,
            members_view(out@) == armor_of(members_view(e@), k as int),
        decreases 5 - k,
    {
        let slot = armor_slot(k);
        let ghost before = out@;
        match member_of(e, slot) {
            Some(v) => {
                out.push((owned(slot), v.deep_copy()));
                assert(members_view(out@) =~= members_view(before) + seq![(armor_slots()[k as int], v.deep())]);
            },
            None => {},
        }
        assert(members_view(out@) =~= armor_of(members_view(e@), k + 1));
        k += 1;
    }
    out
}

/// The armor defaults of each class, as `spec_class_armor_defaults` describes, in the order
/// the classes first occur.
pub fn collect_class_armor_defaults(document: &JsonValue) -> (defaults: Vec<(u64, Vec<(String, JsonValue)>)>)
    ensures
        armor_defaults_view(defaults@) == spec_class_armor_defaults(document.deep()),
{
    let mut out: Vec<(u64, Vec<(String, JsonValue)>)> = Vec::new();
    assert(armor_defaults_view(out@) =~= Seq::<(u64, Seq<(Seq<char>, JsonView)>)>::empty());
    let cs = match get_member(document, "state") {
        Some(s) => match get_member(s, "characters") {
            Some(JsonValue::Array(cs)) => cs,
            _ => {
                return out;
            },
        },
        None => {
            return out;
        },
    };
    proof {
        lemma_array_deep(*cs);
    }
    let ghost cv = elems_view(cs@);
    let mut k: usize = 0;
    while k < cs.len()
        invariant
            k <= cs@.len(),
            cv == elems_view(cs@),
            armor_defaults_view(out@) == class_defaults(cv, k as int),
        decreases cs.len() - k,
    {
        assert(cv[k as int] == cs@[k as int].deep());
        let c = &cs[k];
        let class_type = match get_member(c, "class") {
            Some(v) => value_as_u64(v),
            None => None,
        };
        match (class_type, get_member(c, "equipment")) {
            (Some(ct), Some(JsonValue::Object(e))) => {
                proof {
                    lemma_object_deep(*e);
                }
                let mut seen = false;
                let mut i: usize = 0;
                while i < out.len()
                    invariant
                        i <= out@.len(),
                        seen == exists|j: int| 0 <= j < i && out@[j].0 == ct,
                    decreases out.len() - i,
                {
                    if out[i].0 == ct {
                        seen = true;
                    }
                    i += 1;
                }
                proof {
                    let d = armor_defaults_view(out@);
                    if seen {
                        let j = choose|j: int| 0 <= j < out@.len() && out@[j].0 == ct;
                        assert(d[j].0 == ct);
                    } else {
                        assert forall|j: int| 0 <= j < d.len() implies d[j].0 != ct by {
                            assert(d[j].0 == out@[j].0);
                        }
                    }
                }
                if !seen {
                    let ghost before = out@;
                    let armor = armor_copy(e);
                    let ghost av = members_view(armor@);
                    out.push((ct, armor));
                    assert(armor_defaults_view(out@) =~= armor_defaults_view(before).push((ct, av)));
                }
            },
            _ => {},
        }
        k += 1;
    }
    out
}

/// An item with every member of `r` but its SOID copied over (the first `n` members).
pub open spec fn merged_item(x: Seq<(Seq<char>, JsonView)>, r: Seq<(Seq<char>, JsonView)>, n: int) -> Seq<(Seq<char>, JsonView)>
    decreases n,
{
    if n <= 0 || n > r.len() {
        x
    } else {
        let prev = merged_item(x, r, n - 1);
        if r[n - 1].0 == "instance_soid"@ {
            prev
        } else {
            set_member(prev, r[n - 1].0, r[n - 1].1)
        }
    }
}

/// Equipment `e` with the first `k` armor slots restored from `d`, and whether any
/// changed.
pub open spec fn restore_slots(e: Seq<(Seq<char>, JsonView)>, d: Seq<(Seq<char>, JsonView)>, k: int) -> (Seq<(Seq<char>, JsonView)>, bool)
    decreases k,
{
    if k <= 0 || k > 5 {
        (e, false)
    } else {
        let (pe, changed) = restore_slots(e, d, k - 1);
        let slot = armor_slots()[k - 1];
        match (member(d, slot), member(pe, slot)) {
            (Some(JsonView::Object(r)), Some(JsonView::Object(x))) => {
                let merged = JsonView::Object(merged_item(x, r, r.len() as int));
                if JsonView::Object(x) != merged {
                    (set_member(pe, slot, merged), true)
                } else {
                    (pe, changed)
                }
            },
            _ => (pe, changed),
        }
    }
}

/// Restoring a character's armor from its class's defaults: each armor item the character
/// and the defaults both hold takes every member of the default but its SOID.
pub open spec fn spec_restore_class_armor(c: Seq<(Seq<char>, JsonView)>, d: Seq<(Seq<char>, JsonView)>) -> (Seq<(Seq<char>, JsonView)>, bool) {
    match member(c, "equipment"@) {
        Some(JsonView::Object(e)) => {
            let (e2, changed) = restore_slots(e, d, 5);
            (
                if changed {
                    set_member(c, "equipment"@, JsonView::Object(e2))
                } else {
                    c
                },
                changed,
            )
        },
        _ => (c, false),
    }
}

/// Restores a character's armor from its class's defaults, as `spec_restore_class_armor`
/// describes; says whether anything changed.
pub fn restore_class_armor(character: &mut Vec<(String, JsonValue)>, defaults: &Vec<(String, JsonValue)>) -> (changed: bool)
    ensures
        (members_view(final(character)@), changed) == spec_restore_class_armor(
            members_view(old(character)@),
            members_view(defaults@),
        ),
{
    let mut e = match member_of(character, "equipment") {
        Some(JsonValue::Object(e)) => {
            proof {
                lemma_object_deep(*e);
            }
            copy_members(e)
        },
        _ => {
            return false;
        },
    };
    let ghost ev = members_view(e@);
    let ghost dv = members_view(defaults@);
    let mut changed = false;
    let mut k: usize = 0;
    while k < 5
        invariant
            k <= 5,
            dv == members_view(defaults@),
            (members_view(e@), changed) == restore_slots(ev, dv, k as int),
        decreases 5 - k,
    {
        let slot = armor_slot(k);
        let replacement = match member_of(defaults, slot) {
            Some(JsonValue::Object(r)) => r,
            _ => {
                k += 1;
                continue;
            },
        };
        proof {
            lemma_object_deep(*replacement);
        }
        let existing = match member_of(&e, slot) {
            Some(JsonValue::Object(x)) => x,
            _ => {
                k += 1;
                continue;
            },
        };
        proof {
            lemma_object_deep(*existing);
        }
        let ghost xv = members_view(existing@);
        let ghost rv = members_view(replacement@);
        let mut merged = copy_members(existing);
        let mut i: usize = 0;
        while i < replacement.len()
            invariant
                i <= replacement@.len(),
                rv == members_view(replacement@),
                members_view(merged@) == merged_item(xv, rv, i as int),
            decreases replacement.len() - i,
        {
            assert(rv[i as int] == (replacement@[i as int].0@, replacement@[i as int].1.deep()));
            if !str_eq(replacement[i].0.as_str(), "instance_soid") {
                set_member_exec(&mut merged, replacement[i].0.as_str(), replacement[i].1.deep_copy());
            }
            i += 1;
        }
        let merged_value = JsonValue::Object(merged);
        proof {
            lemma_object_deep(merged_value->Object_0);
        }
        let same = match member_of(&e, slot) {
            Some(current) => values_equal(current, &merged_value),
            None => false,
        };
        if !same {
            set_member_exec(&mut e, slot, merged_value);
            changed = true;
        }
        k += 1;
    }
    if changed {
        let equipment = JsonValue::Object(e);
        proof {
            lemma_object_deep(equipment->Object_0);
        }
        set_member_exec(character, "equipment", equipment);
    }
    changed
}

/// Replacing one character leaves the others as they were.
proof fn lemma_with_character_other(d: JsonView, ci: int, c: Seq<(Seq<char>, JsonView)>, cj: int)
    requires
        0 <= ci,
        spec_character(d, ci) is Ok,
        0 <= cj,
        cj != ci,
    ensures
        spec_character(with_character(d, ci, c), cj) == spec_character(d, cj),
{
    let root = d->Object_0;
    let state = member(root, "state"@)->0->Object_0;
    let cs = member(state, "characters"@)->0->Array_0;
    let updated = cs.update(ci, JsonView::Object(c));
    let new_state = set_member(state, "characters"@, JsonView::Array(updated));
    lemma_member_after_set(root, "state"@, JsonView::Object(new_state), "state"@);
    lemma_member_after_set(state, "characters"@, JsonView::Array(updated), "characters"@);
    if 0 <= cj < cs.len() {
        assert(updated[cj] == cs[cj]);
    }
}

/// Replacing a character's equipment leaves every character's stored inventory reading as
/// it did.
pub proof fn law_equipment_change_keeps_inventories(document: JsonView, ci: int, e: Seq<(Seq<char>, JsonView)>, cj: int)
    requires
        0 <= ci,
        0 <= cj,
    ensures
        spec_character_inventory(with_equipment(document, ci, e), cj) == spec_character_inventory(document, cj),
{
    if let Some(JsonView::Object(c)) = character_value(document, ci) {
        lemma_character_found(document, ci);
        let c2 = set_member(c, "equipment"@, JsonView::Object(e));
        lemma_with_character_reads(document, ci, c2);
        if cj == ci {
            reveal_strlit("equipment");
            reveal_strlit("inventory");
            assert("equipment"@[0] != "inventory"@[0]);
            lemma_member_after_set(c, "equipment"@, JsonView::Object(e), "inventory"@);
        } else {
            lemma_with_character_other(document, ci, c2, cj);
        }
    }
}

/// Equipping a definition, editing an equipped item's level, a plug, its flags or its
/// catalyst, or emptying a weapon slot, leaves every character's stored inventory reading as
/// it did.
pub proof fn law_equipment_edits_keep_inventories(
    document: JsonView,
    ci: int,
    slot: Seq<char>,
    level: i64,
    socket: int,
    defaults: Seq<Option<Seq<char>>>,
    hash: Option<u64>,
    flags: Option<u8>,
    catalyst: CatalystSocket,
    state: CatalystState,
    definition_hash: u64,
    cj: int,
)
    requires
        0 <= ci,
        0 <= cj,
    ensures
        spec_equip_definition(document, ci, slot, definition_hash, defaults) matches Ok(after) ==> spec_character_inventory(
            after,
            cj,
        ) == spec_character_inventory(document, cj),
        spec_set_level(document, ci, slot, level) matches Ok(after) ==> spec_character_inventory(after, cj)
            == spec_character_inventory(document, cj),
        spec_set_plug(document, ci, slot, socket, defaults, hash) matches Ok(after) ==> spec_character_inventory(after, cj)
            == spec_character_inventory(document, cj),
        spec_set_flags(document, ci, slot, flags) matches Ok(after) ==> spec_character_inventory(after, cj)
            == spec_character_inventory(document, cj),
        spec_set_catalyst(document, ci, slot, defaults, catalyst, state) matches Ok(after) ==> spec_character_inventory(
            after,
            cj,
        ) == spec_character_inventory(document, cj),
        spec_set_weapon_empty(document, ci, slot) matches Ok(after) ==> spec_character_inventory(after, cj)
            == spec_character_inventory(document, cj),
{
    assert forall|e2: Seq<(Seq<char>, JsonView)>|
        spec_character_inventory(#[trigger] with_equipment(document, ci, e2), cj) == spec_character_inventory(document, cj) by {
        law_equipment_change_keeps_inventories(document, ci, e2, cj);
    }
    let e = equipment_of(document, ci)->0;
    assert forall|o: Seq<(Seq<char>, JsonView)>| #[trigger] with_item(document, ci, slot, o) == with_equipment(
        document,
        ci,
        set_member(e, slot, JsonView::Object(o)),
    ) by {}
    assert forall|o: Seq<(Seq<char>, JsonView)>|
        spec_character_inventory(#[trigger] with_item(document, ci, slot, o), cj) == spec_character_inventory(document, cj) by {
        law_equipment_change_keeps_inventories(document, ci, set_member(e, slot, JsonView::Object(o)), cj);
    }
    law_equipment_change_keeps_inventories(document, ci, set_member(e, slot, JsonView::Null), cj);
    let (plug, masterworked) = catalyst.spec_authored_state(state);
    if let Ok(plugged) = spec_set_plug(document, ci, slot, catalyst.socket_index as int, defaults, Some(plug)) {
        let e2 = equipment_of(plugged, ci)->0;
        assert forall|o: Seq<(Seq<char>, JsonView)>|
            spec_character_inventory(#[trigger] with_item(plugged, ci, slot, o), cj) == spec_character_inventory(plugged, cj) by {
            law_equipment_change_keeps_inventories(plugged, ci, set_member(e2, slot, JsonView::Object(o)), cj);
        }
    }
}

} // verus!
