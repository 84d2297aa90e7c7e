//! Character inventories: reading a character's `inventory` rows, adding, editing and
//! removing rows, and moving whole rows between inventory and equipment. Every read and edit
//! checks the document first; a refused edit leaves the document exactly as it was.
use vstd::prelude::*;
use crate::inventory::{document_version, item_path, level_message, quantity_message, read_only_message, read_only_schema_error, sentinel_message, spec_schema_mode, too_many_plugs_message, version_path, InventoryError, InventoryItemLocation, ItemPlugs, SchemaMode, CHARACTER_INVENTORY_CAPACITY, INVENTORY_FLAG_MASK, MAX_ITEM_PLUGS, NO_DEFINITION_HASH, inventory_item_path};
use crate::inventory_page::InventoryItemSnapshot;
use crate::json::{as_i64, copy_elements, copy_members, elems_view, find_member, get, lemma_array_deep, lemma_member_index_range, lemma_object_deep, member, member_of, members_view, parse_unsigned_value, remove_member, remove_member_exec, set_member, set_member_exec, unsigned_value, value_as_i64, JsonNumber, JsonValue, JsonView, NumberView};
use crate::inventory::{
    definition_hash_text, format_definition_hash, format_instance_soid, instance_soid_text,
    inventory_action_check, validate_inventory_action, InventoryItemAction, NewInventoryItem,
    INVENTORY_SCHEMA_VERSION,
};
use crate::profile::{int_value, int_view};
use crate::soids::{allocate_instance_soid, equipment_path, spec_allocate_soid};
use crate::equipment::{slot_entry, slot_named, SLOT_COUNT};
use crate::json::{lemma_member_after_set, lemma_set_commutes, lemma_set_same, lemma_set_twice};
use crate::profile::{
    error, field_path, hash_field, missing_version_error, positive_i32_field, readable_mode, spec_hash_field,
    spec_positive_i32_field, ErrorView,
};
use crate::text::{decimal, owned, push_decimal, push_str};

verus! {

/// Mathematical value of [`ItemPlugs`].
pub enum PlugsView {
    NativeDefaults,
    Authored(Seq<Option<u32>>),
}

impl ItemPlugs {
    pub open spec fn plugs_view(&self) -> PlugsView {
        match self {
            ItemPlugs::NativeDefaults => PlugsView::NativeDefaults,
            ItemPlugs::Authored(p) => PlugsView::Authored(p@),
        }
    }
}

/// Mathematical value of an [`InventoryItemSnapshot`].
pub struct ItemView {
    pub location: InventoryItemLocation,
    pub instance_soid: u64,
    pub definition_hash: u32,
    pub level: i32,
    pub quantity: i32,
    pub plugs: PlugsView,
    pub flags: Option<u8>,
}

impl InventoryItemSnapshot {
    pub open spec fn item_view(&self) -> ItemView {
        ItemView {
            location: self.location,
            instance_soid: self.instance_soid,
            definition_hash: self.definition_hash,
            level: self.level,
            quantity: self.quantity,
            plugs: self.plugs.plugs_view(),
            flags: self.flags,
        }
    }
}

pub open spec fn items_view(items: Seq<InventoryItemSnapshot>) -> Seq<ItemView> {
    Seq::new(items.len(), |i: int| items[i].item_view())
}

pub open spec fn character_path(ci: int) -> Seq<char> {
    "/state/characters/"@ + decimal(ci as nat)
}

pub open spec fn inventory_path(ci: int) -> Seq<char> {
    character_path(ci) + "/inventory"@
}

/// A nonzero SOID: an unsigned integer or hash string other than zero.
pub open spec fn spec_nonzero_soid(v: JsonView, path: Seq<char>) -> Result<u64, ErrorView> {
    match unsigned_value(v) {
        Some(s) => if s != 0 {
            Ok(s)
        } else {
            Err((path, "SOID must be a nonzero unsigned integer or 0x hex string"@))
        },
        None => Err((path, "SOID must be a nonzero unsigned integer or 0x hex string"@)),
    }
}

/// Reads member `key` of a row as a non-negative 32-bit integer.
pub open spec fn spec_nonnegative_i32_field(o: Seq<(Seq<char>, JsonView)>, key: Seq<char>, base: Seq<char>) -> Result<
    i32,
    ErrorView,
> {
    let path = base + "/"@ + key;
    match member(o, key) {
        None => Err((path, "item is missing "@ + key)),
        Some(v) => match as_i64(v) {
            None => Err((path, key + " must be a non-negative 32-bit integer"@)),
            Some(x) => if x < i32::MIN || x > i32::MAX {
                Err((path, key + " must fit in a signed 32-bit integer"@))
            } else if x < 0 {
                Err((path, level_message()))
            } else {
                Ok(x as i32)
            },
        },
    }
}

/// Reads one plug entry: null is an empty entry, anything else a hash.
pub open spec fn spec_plug_entry(v: JsonView, path: Seq<char>) -> Result<Option<u32>, ErrorView> {
    match v {
        JsonView::Null => Ok(None),
        _ => match unsigned_value(v) {
            None => Err((path, "plug hash must be null, an unsigned integer, or a 0x hex string"@)),
            Some(raw) => if raw > u32::MAX {
                Err((path, "plug hash must fit in an unsigned 32-bit value"@))
            } else if raw == NO_DEFINITION_HASH {
                Err((path, sentinel_message()))
            } else {
                Ok(Some(raw as u32))
            },
        },
    }
}

/// Reads the first `n` plug entries, stopping at the first that does not read.
pub open spec fn spec_plug_entries(entries: Seq<JsonView>, path: Seq<char>, n: int) -> Result<Seq<Option<u32>>, ErrorView>
    decreases n,
{
    if n <= 0 || n > entries.len() {
        Ok(Seq::empty())
    } else {
        match spec_plug_entries(entries, path, n - 1) {
            Err(e) => Err(e),
            Ok(prev) => match spec_plug_entry(entries[n - 1], path + "/"@ + decimal((n - 1) as nat)) {
                Err(e) => Err(e),
                Ok(p) => Ok(prev.push(p)),
            },
        }
    }
}

/// Reads an item's plugs: null for the native defaults, or an array of at most the plug
/// limit of entries.
pub open spec fn spec_plugs(v: JsonView, path: Seq<char>) -> Result<PlugsView, ErrorView> {
    match v {
        JsonView::Null => Ok(PlugsView::NativeDefaults),
        JsonView::Array(a) => if a.len() > MAX_ITEM_PLUGS {
            Err((path, too_many_plugs_message()))
        } else {
            match spec_plug_entries(a, path, a.len() as int) {
                Err(e) => Err(e),
                Ok(p) => Ok(PlugsView::Authored(p)),
            }
        },
        _ => Err((path, "plugs must be null or an array"@)),
    }
}

/// Reads an item's flags: a whole number within the flag mask.
pub open spec fn spec_flags(v: JsonView, path: Seq<char>) -> Result<u8, ErrorView> {
    match unsigned_value(v) {
        Some(f) => if f <= INVENTORY_FLAG_MASK {
            Ok(f as u8)
        } else {
            Err((path, "flags must be a whole number between 0 and "@ + decimal(INVENTORY_FLAG_MASK as nat)))
        },
        None => Err((path, "flags must be a whole number between 0 and "@ + decimal(INVENTORY_FLAG_MASK as nat))),
    }
}

/// Reads member `instance_soid` of an item.
pub open spec fn spec_soid_field(o: Seq<(Seq<char>, JsonView)>, path: Seq<char>, missing: Seq<char>) -> Result<u64, ErrorView> {
    match member(o, "instance_soid"@) {
        None => Err((path, missing)),
        Some(v) => spec_nonzero_soid(v, path + "/"@ + "instance_soid"@),
    }
}

/// Reads inventory row `ii` of character `ci`.
pub open spec fn spec_inventory_item(v: JsonView, ci: int, ii: int) -> Result<ItemView, ErrorView> {
    let location = InventoryItemLocation { character_index: ci as usize, item_index: ii as usize };
    let path = item_path(location);
    match v {
        JsonView::Object(o) => match spec_soid_field(o, path, "inventory item is missing instance_soid"@) {
            Err(e) => Err(e),
            Ok(soid) => match spec_hash_field(o, "definition_hash"@, path) {
                Err(e) => Err(e),
                Ok(hash) => match spec_nonnegative_i32_field(o, "level"@, path) {
                    Err(e) => Err(e),
                    Ok(level) => match spec_positive_i32_field(o, "quantity"@, path) {
                        Err(e) => Err(e),
                        Ok(quantity) => match member(o, "plugs"@) {
                            None => Err((path, "inventory item is missing plugs"@)),
                            Some(pv) => match spec_plugs(pv, path + "/"@ + "plugs"@) {
                                Err(e) => Err(e),
                                Ok(plugs) => match member(o, "flags"@) {
                                    None => Ok(
                                        ItemView {
                                            location,
                                            instance_soid: soid,
                                            definition_hash: hash,
                                            level,
                                            quantity,
                                            plugs,
                                            flags: None,
                                        },
                                    ),
                                    Some(fv) => match spec_flags(fv, path + "/"@ + "flags"@) {
                                        Err(e) => Err(e),
                                        Ok(f) => Ok(
                                            ItemView {
                                                location,
                                                instance_soid: soid,
                                                definition_hash: hash,
                                                level,
                                                quantity,
                                                plugs,
                                                flags: Some(f),
                                            },
                                        ),
                                    },
                                },
                            },
                        },
                    },
                },
            },
        },
        _ => Err((path, "inventory item must be an object"@)),
    }
}

/// Reads the first `n` rows of character `ci`, stopping at the first that does not read.
pub open spec fn spec_inventory_rows(rows: Seq<JsonView>, ci: int, n: int) -> Result<Seq<ItemView>, ErrorView>
    decreases n,
{
    if n <= 0 || n > rows.len() {
        Ok(Seq::empty())
    } else {
        match spec_inventory_rows(rows, ci, n - 1) {
            Err(e) => Err(e),
            Ok(prev) => match spec_inventory_item(rows[n - 1], ci, n - 1) {
                Err(e) => Err(e),
                Ok(s) => Ok(prev.push(s)),
            },
        }
    }
}

/// Reads a character's `inventory` member: an array of rows that read, and, unless the
/// schema is newer than supported, no more rows than the inventory holds.
pub open spec fn spec_parse_inventory(v: JsonView, ci: int, mode: SchemaMode) -> Result<Seq<ItemView>, ErrorView> {
    match v {
        JsonView::Array(rows) => if !(mode is Future) && rows.len() > CHARACTER_INVENTORY_CAPACITY {
            Err(
                (
                    inventory_path(ci),
                    "inventory contains "@ + decimal(rows.len()) + " items, but at most "@ + decimal(
                        CHARACTER_INVENTORY_CAPACITY as nat,
                    ) + " are permitted"@,
                ),
            )
        } else {
            spec_inventory_rows(rows, ci, rows.len() as int)
        },
        _ => Err((inventory_path(ci), "inventory must be an array"@)),
    }
}

/// The members of character `ci`: `state` must be an object, `characters` an array, and
/// the character an object.
pub open spec fn spec_character(document: JsonView, ci: int) -> Result<Seq<(Seq<char>, JsonView)>, ErrorView> {
    match get(document, "state"@) {
        Some(JsonView::Object(state)) => match member(state, "characters"@) {
            Some(JsonView::Array(characters)) => if ci >= characters.len() {
                Err((character_path(ci), "character index is out of range"@))
            } else {
                match characters[ci] {
                    JsonView::Object(c) => Ok(c),
                    _ => Err((character_path(ci), "character must be an object"@)),
                }
            },
            _ => Err(("/state/characters"@, "characters must be an array"@)),
        },
        _ => Err(("/state"@, "state must be an object"@)),
    }
}

/// The inventory of character `ci`: none when the character has no `inventory` member; an
/// error when the schema version is missing, the character cannot be found, or the
/// inventory does not read.
pub open spec fn spec_character_inventory(document: JsonView, ci: int) -> Result<Option<Seq<ItemView>>, ErrorView> {
    let mode = spec_schema_mode(document_version(document));
    if mode is MissingOrInvalid {
        Err(missing_version_error())
    } else {
        match spec_character(document, ci) {
            Err(e) => Err(e),
            Ok(c) => match member(c, "inventory"@) {
                None => Ok(None),
                Some(v) => match spec_parse_inventory(v, ci, mode) {
                    Err(e) => Err(e),
                    Ok(items) => Ok(Some(items)),
                },
            },
        }
    }
}

// ---------------------------------------------------------------------------------------
// Reading
// ---------------------------------------------------------------------------------------

fn indexed_path(base: &str, index: usize) -> (p: String)
    ensures
        p@ == base@ + "/"@ + decimal(index as nat),
{
    let mut p = owned(base);
    push_str(&mut p, "/");
    push_decimal(&mut p, index as u64);
    p
}

pub(crate) fn nonzero_soid(v: &JsonValue, path: &str) -> (r: Result<u64, InventoryError>)
    ensures
        match spec_nonzero_soid(v.deep(), path@) {
            Ok(s) => r == Ok::<u64, InventoryError>(s),
            Err(e) => r matches Err(x) && x@ == e,
        },
{
    match parse_unsigned_value(v) {
        Some(s) => if s != 0 {
            Ok(s)
        } else {
            Err(error(path, "SOID must be a nonzero unsigned integer or 0x hex string"))
        },
        None => Err(error(path, "SOID must be a nonzero unsigned integer or 0x hex string")),
    }
}

fn nonnegative_i32_field(o: &Vec<(String, JsonValue)>, key: &str, base: &str) -> (r: Result<i32, InventoryError>)
    ensures
        match spec_nonnegative_i32_field(members_view(o@), key@, base@) {
            Ok(q) => r == Ok::<i32, InventoryError>(q),
            Err(e) => r matches Err(x) && x@ == e,
        },
{
    let path = field_path(base, key);
    let v = match member_of(o, key) {
        Some(v) => v,
        None => {
            let mut m = owned("item is missing ");
            push_str(&mut m, key);
            return Err(InventoryError::new(path, m));
        },
    };
    let x = match value_as_i64(v) {
        Some(x) => x,
        None => {
            let mut m = owned(key);
            push_str(&mut m, " must be a non-negative 32-bit integer");
            return Err(InventoryError::new(path, m));
        },
    };
    if x < i32::MIN as i64 || x > i32::MAX as i64 {
        let mut m = owned(key);
        push_str(&mut m, " must fit in a signed 32-bit integer");
        return Err(InventoryError::new(path, m));
    }
    if x < 0 {
        return Err(error(path.as_str(), "level must be a non-negative signed 32-bit integer"));
    }
    Ok(x as i32)
}

fn plug_entry(v: &JsonValue, path: &str) -> (r: Result<Option<u32>, InventoryError>)
    ensures
        match spec_plug_entry(v.deep(), path@) {
            Ok(p) => r == Ok::<Option<u32>, InventoryError>(p),
            Err(e) => r matches Err(x) && x@ == e,
        },
{
    match v {
        JsonValue::Null => {
            return Ok(None);
        },
        _ => {},
    }
    match parse_unsigned_value(v) {
        None => Err(error(path, "plug hash must be null, an unsigned integer, or a 0x hex string")),
        Some(raw) => if raw > u32::MAX as u64 {
            Err(error(path, "plug hash must fit in an unsigned 32-bit value"))
        } else if raw == NO_DEFINITION_HASH as u64 {
            Err(error(path, "the engine no-definition sentinel is not a valid authored hash"))
        } else {
            Ok(Some(raw as u32))
        },
    }
}

/// Once an entry fails to read, reading more entries fails with the same error.
proof fn lemma_plug_error_propagates(entries: Seq<JsonView>, path: Seq<char>, n: int, m: int)
    requires
        0 < n <= m <= entries.len(),
        spec_plug_entries(entries, path, n) is Err,
    ensures
        spec_plug_entries(entries, path, m) == spec_plug_entries(entries, path, n),
    decreases m - n,
{
    if n < m {
        lemma_plug_error_propagates(entries, path, n, m - 1);
    }
}

fn plugs(v: &JsonValue, path: &str) -> (r: Result<ItemPlugs, InventoryError>)
    ensures
        match spec_plugs(v.deep(), path@) {
            Ok(p) => r matches Ok(x) && x.plugs_view() == p,
            Err(e) => r matches Err(x) && x@ == e,
        },
{
    let a = match v {
        JsonValue::Null => {
            return Ok(ItemPlugs::NativeDefaults);
        },
        JsonValue::Array(a) => a,
        _ => {
            return Err(error(path, "plugs must be null or an array"));
        },
    };
    proof {
        lemma_array_deep(*a);
    }
    if a.len() > MAX_ITEM_PLUGS {
        let mut m = owned("plugs cannot contain more than ");
        push_decimal(&mut m, MAX_ITEM_PLUGS as u64);
        push_str(&mut m, " entries");
        return Err(InventoryError::new(owned(path), m));
    }
    let ghost ev = elems_view(a@);
    let mut out: Vec<Option<u32>> = Vec::new();
    let mut k: usize = 0;
    while k < a.len()
        invariant
            k <= a@.len(),
            ev == elems_view(a@),
            v.deep() == JsonView::Array(ev),
            ev.len() <= MAX_ITEM_PLUGS,
            spec_plug_entries(ev, path@, k as int) == Ok::<Seq<Option<u32>>, ErrorView>(out@),
        decreases a.len() - k,
    {
        let entry_path = indexed_path(path, k);
        match plug_entry(&a[k], entry_path.as_str()) {
            Ok(p) => {
                out.push(p);
            },
            Err(e) => {
                proof {
                    assert(ev[k as int] == a@[k as int].deep());
                    lemma_plug_error_propagates(ev, path@, k as int + 1, ev.len() as int);
                }
                return Err(e);
            },
        }
        k += 1;
    }
    Ok(ItemPlugs::Authored(out))
}

fn flags(v: &JsonValue, path: &str) -> (r: Result<u8, InventoryError>)
    ensures
        match spec_flags(v.deep(), path@) {
            Ok(f) => r == Ok::<u8, InventoryError>(f),
            Err(e) => r matches Err(x) && x@ == e,
        },
{
    match parse_unsigned_value(v) {
        Some(f) => if f <= INVENTORY_FLAG_MASK as u64 {
            return Ok(f as u8);
        },
        None => {},
    }
    let mut m = owned("flags must be a whole number between 0 and ");
    push_decimal(&mut m, INVENTORY_FLAG_MASK as u64);
    Err(InventoryError::new(owned(path), m))
}

fn soid_field(o: &Vec<(String, JsonValue)>, path: &str, missing: &str) -> (r: Result<u64, InventoryError>)
    ensures
        match spec_soid_field(members_view(o@), path@, missing@) {
            Ok(s) => r == Ok::<u64, InventoryError>(s),
            Err(e) => r matches Err(x) && x@ == e,
        },
{
    match member_of(o, "instance_soid") {
        None => Err(error(path, missing)),
        Some(v) => {
            let p = field_path(path, "instance_soid");
            nonzero_soid(v, p.as_str())
        },
    }
}

fn inventory_item(v: &JsonValue, ci: usize, ii: usize) -> (r: Result<InventoryItemSnapshot, InventoryError>)
    ensures
        match spec_inventory_item(v.deep(), ci as int, ii as int) {
            Ok(s) => r matches Ok(x) && x.item_view() == s,
            Err(e) => r matches Err(x) && x@ == e,
        },
{
    let location = InventoryItemLocation { character_index: ci, item_index: ii };
    let path = inventory_item_path(location);
    let o = match v {
        JsonValue::Object(o) => o,
        _ => {
            return Err(error(path.as_str(), "inventory item must be an object"));
        },
    };
    proof {
        lemma_object_deep(*o);
    }
    let instance_soid = match soid_field(o, path.as_str(), "inventory item is missing instance_soid") {
        Ok(s) => s,
        Err(e) => {
            return Err(e);
        },
    };
    let definition_hash = match hash_field(o, "definition_hash", path.as_str()) {
        Ok(h) => h,
        Err(e) => {
            return Err(e);
        },
    };
    let level = match nonnegative_i32_field(o, "level", path.as_str()) {
        Ok(l) => l,
        Err(e) => {
            return Err(e);
        },
    };
    let quantity = match positive_i32_field(o, "quantity", path.as_str()) {
        Ok(q) => q,
        Err(e) => {
            return Err(e);
        },
    };
    let plug_value = match member_of(o, "plugs") {
        Some(pv) => pv,
        None => {
            return Err(error(path.as_str(), "inventory item is missing plugs"));
        },
    };
    let plugs_path = field_path(path.as_str(), "plugs");
    let item_plugs = match plugs(plug_value, plugs_path.as_str()) {
        Ok(p) => p,
        Err(e) => {
            return Err(e);
        },
    };
    let item_flags = match member_of(o, "flags") {
        None => None,
        Some(fv) => {
            let flags_path = field_path(path.as_str(), "flags");
            match flags(fv, flags_path.as_str()) {
                Ok(f) => Some(f),
                Err(e) => {
                    return Err(e);
                },
            }
        },
    };
    Ok(
        InventoryItemSnapshot {
            location,
            instance_soid,
            definition_hash,
            level,
            quantity,
            plugs: item_plugs,
            flags: item_flags,
        },
    )
}

/// Once a row fails to read, reading more rows fails with the same error.
proof fn lemma_rows_error_propagates(rows: Seq<JsonView>, ci: int, n: int, m: int)
    requires
        0 < n <= m <= rows.len(),
        spec_inventory_rows(rows, ci, n) is Err,
    ensures
        spec_inventory_rows(rows, ci, m) == spec_inventory_rows(rows, ci, n),
    decreases m - n,
{
    if n < m {
        lemma_rows_error_propagates(rows, ci, n, m - 1);
    }
}

/// Reading `n` rows gives `n` items, the last at row `n - 1`.
pub proof fn lemma_rows_len(rows: Seq<JsonView>, ci: int, n: int)
    requires
        0 <= n <= rows.len(),
    ensures
        spec_inventory_rows(rows, ci, n) matches Ok(s) ==> s.len() == n,
    decreases n,
{
    if n > 0 {
        lemma_rows_len(rows, ci, n - 1);
    }
}

fn parse_inventory(v: &JsonValue, ci: usize, mode: SchemaMode) -> (r: Result<Vec<InventoryItemSnapshot>, InventoryError>)
    ensures
        match spec_parse_inventory(v.deep(), ci as int, mode) {
            Ok(s) => r matches Ok(x) && items_view(x@) == s,
            Err(e) => r matches Err(x) && x@ == e,
        },
{
    let rows = match v {
        JsonValue::Array(a) => a,
        _ => {
            let mut p = owned("/state/characters/");
            push_decimal(&mut p, ci as u64);
            push_str(&mut p, "/inventory");
            return Err(InventoryError::new(p, owned("inventory must be an array")));
        },
    };
    proof {
        lemma_array_deep(*rows);
    }
    let enforces = match mode {
        SchemaMode::Future(_) => false,
        _ => true,
    };
    if enforces && rows.len() > CHARACTER_INVENTORY_CAPACITY {
        let mut p = owned("/state/characters/");
        push_decimal(&mut p, ci as u64);
        push_str(&mut p, "/inventory");
        let mut m = owned("inventory contains ");
        push_decimal(&mut m, rows.len() as u64);
        push_str(&mut m, " items, but at most ");
        push_decimal(&mut m, CHARACTER_INVENTORY_CAPACITY as u64);
        push_str(&mut m, " are permitted");
        return Err(InventoryError::new(p, m));
    }
    let ghost rv = elems_view(rows@);
    let mut out: Vec<InventoryItemSnapshot> = Vec::new();
    assert(items_view(out@) =~= Seq::<ItemView>::empty());
    let mut k: usize = 0;
    while k < rows.len()
        invariant
            k <= rows@.len(),
            rv == elems_view(rows@),
            v.deep() == JsonView::Array(rv),
            spec_parse_inventory(v.deep(), ci as int, mode) == spec_inventory_rows(rv, ci as int, rv.len() as int),
            spec_inventory_rows(rv, ci as int, k as int) == Ok::<Seq<ItemView>, ErrorView>(items_view(out@)),
        decreases rows.len() - k,
    {
        match inventory_item(&rows[k], ci, k) {
            Ok(s) => {
                let ghost before = out@;
                out.push(s);
                proof {
                    assert(rv[k as int] == rows@[k as int].deep());
                    assert(items_view(out@) =~= items_view(before).push(s.item_view()));
                }
            },
            Err(e) => {
                proof {
                    assert(rv[k as int] == rows@[k as int].deep());
                    lemma_rows_error_propagates(rv, ci as int, k as int + 1, rv.len() as int);
                }
                return Err(e);
            },
        }
        k += 1;
    }
    Ok(out)
}

/// The members of character `ci`.
pub(crate) fn character_members(document: &JsonValue, ci: usize) -> (r: Result<&Vec<(String, JsonValue)>, InventoryError>)
    ensures
        match spec_character(document.deep(), ci as int) {
            Ok(c) => r matches Ok(x) && members_view(x@) == c,
            Err(e) => r matches Err(x) && x@ == e,
        },
{
    let state = match document {
        JsonValue::Object(root) => {
            proof {
                lemma_object_deep(*root);
            }
            match member_of(root, "state") {
                Some(JsonValue::Object(s)) => s,
                _ => {
                    return Err(error("/state", "state must be an object"));
                },
            }
        },
        _ => {
            return Err(error("/state", "state must be an object"));
        },
    };
    proof {
        lemma_object_deep(*state);
    }
    let characters = match member_of(state, "characters") {
        Some(JsonValue::Array(c)) => c,
        _ => {
            return Err(error("/state/characters", "characters must be an array"));
        },
    };
    proof {
        lemma_array_deep(*characters);
    }
    if ci >= characters.len() {
        let mut p = owned("/state/characters/");
        push_decimal(&mut p, ci as u64);
        return Err(InventoryError::new(p, owned("character index is out of range")));
    }
    match &characters[ci] {
        JsonValue::Object(c) => {
            proof {
                lemma_object_deep(*c);
            }
            Ok(c)
        },
        _ => {
            let mut p = owned("/state/characters/");
            push_decimal(&mut p, ci as u64);
            Err(InventoryError::new(p, owned("character must be an object")))
        },
    }
}

pub open spec fn inventory_result_view(r: Option<Vec<InventoryItemSnapshot>>) -> Option<Seq<ItemView>> {
    match r {
        Some(x) => Some(items_view(x@)),
        None => None,
    }
}

/// The inventory of character `ci`, as `spec_character_inventory` describes. Reading never
/// changes the document.
pub fn character_inventory(document: &JsonValue, character_index: usize) -> (r: Result<
    Option<Vec<InventoryItemSnapshot>>,
    InventoryError,
>)
    ensures
        match spec_character_inventory(document.deep(), character_index as int) {
            Ok(x) => r matches Ok(y) && inventory_result_view(y) == x,
            Err(e) => r matches Err(x) && x@ == e,
        },
{
    let mode = match readable_mode(document) {
        Ok(m) => m,
        Err(e) => {
            return Err(e);
        },
    };
    let c = match character_members(document, character_index) {
        Ok(c) => c,
        Err(e) => {
            return Err(e);
        },
    };
    match member_of(c, "inventory") {
        None => Ok(None),
        Some(v) => match parse_inventory(v, character_index, mode) {
            Ok(items) => Ok(Some(items)),
            Err(e) => Err(e),
        },
    }
}

// ---------------------------------------------------------------------------------------
// Checks before an edit
// ---------------------------------------------------------------------------------------

/// Why a document's character inventories cannot be edited, if they cannot: only the
/// inventory schema allows it.
pub open spec fn inventory_mutation_error(mode: SchemaMode) -> Option<ErrorView> {
    match mode {
        SchemaMode::MissingOrInvalid => Some(missing_version_error()),
        SchemaMode::InventoryV6 => None,
        SchemaMode::PreInventory(v) => Some(
            (
                version_path(),
                "character inventory mutation requires schema "@ + decimal(INVENTORY_SCHEMA_VERSION as nat)
                    + "; schema "@ + decimal(v as nat) + " remains read-only"@,
            ),
        ),
        _ => Some((version_path(), read_only_message(mode, "character inventory"@))),
    }
}

/// A character's inventory, when it has one, must read.
pub open spec fn character_check(v: JsonView, k: int, mode: SchemaMode) -> Option<ErrorView> {
    match v {
        JsonView::Object(c) => match member(c, "inventory"@) {
            Some(inv) => match spec_parse_inventory(inv, k, mode) {
                Err(e) => Some(e),
                Ok(_) => None,
            },
            None => None,
        },
        _ => Some((character_path(k), "character must be an object"@)),
    }
}

/// The first `n` characters' inventories read.
pub open spec fn characters_check(cs: Seq<JsonView>, mode: SchemaMode, n: int) -> Option<ErrorView>
    decreases n,
{
    if n <= 0 || n > cs.len() {
        None
    } else {
        match characters_check(cs, mode, n - 1) {
            Some(e) => Some(e),
            None => character_check(cs[n - 1], n - 1, mode),
        }
    }
}

/// Every existing character inventory of a document reads.
pub open spec fn spec_inventories_check(document: JsonView, mode: SchemaMode) -> Option<ErrorView> {
    match document {
        JsonView::Object(root) => match member(root, "state"@) {
            None => None,
            Some(JsonView::Object(state)) => match member(state, "characters"@) {
                None => None,
                Some(JsonView::Array(cs)) => characters_check(cs, mode, cs.len() as int),
                Some(_) => Some(("/state/characters"@, "characters must be an array"@)),
            },
            Some(_) => Some(("/state"@, "state must be an object"@)),
        },
        _ => Some((""@, "settings document must be an object"@)),
    }
}

fn inventory_mutation_mode(document: &JsonValue) -> (r: Result<SchemaMode, InventoryError>)
    ensures
        match inventory_mutation_error(spec_schema_mode(document_version(document.deep()))) {
            Some(e) => r matches Err(x) && x@ == e,
            None => r == Ok::<SchemaMode, InventoryError>(spec_schema_mode(document_version(document.deep()))),
        },
{
    let mode = match readable_mode(document) {
        Ok(m) => m,
        Err(e) => {
            return Err(e);
        },
    };
    match mode {
        SchemaMode::InventoryV6 => Ok(mode),
        SchemaMode::PreInventory(v) => {
            let mut m = owned("character inventory mutation requires schema ");
            push_decimal(&mut m, INVENTORY_SCHEMA_VERSION);
            push_str(&mut m, "; schema ");
            push_decimal(&mut m, v);
            push_str(&mut m, " remains read-only");
            let p = owned("/version");
            proof {
                reveal_strlit("/version");
                assert(p@ =~= version_path());
            }
            Err(InventoryError::new(p, m))
        },
        _ => Err(read_only_schema_error(mode, "character inventory")),
    }
}

proof fn lemma_check_propagates(cs: Seq<JsonView>, mode: SchemaMode, n: int, m: int)
    requires
        0 < n <= m <= cs.len(),
        characters_check(cs, mode, n) is Some,
    ensures
        characters_check(cs, mode, m) == characters_check(cs, mode, n),
    decreases m - n,
{
    if n < m {
        lemma_check_propagates(cs, mode, n, m - 1);
    }
}

/// Checks every existing character inventory, as `spec_inventories_check` describes.
pub fn validate_existing_character_inventories(document: &JsonValue, mode: SchemaMode) -> (r: Result<(), InventoryError>)
    ensures
        match spec_inventories_check(document.deep(), mode) {
            None => r is Ok,
            Some(e) => r matches Err(x) && x@ == e,
        },
{
    let root = match document {
        JsonValue::Object(root) => root,
        _ => {
            return Err(error("", "settings document must be an object"));
        },
    };
    proof {
        lemma_object_deep(*root);
    }
    let state = match member_of(root, "state") {
        None => {
            return Ok(());
        },
        Some(JsonValue::Object(s)) => s,
        Some(_) => {
            return Err(error("/state", "state must be an object"));
        },
    };
    proof {
        lemma_object_deep(*state);
    }
    let cs = match member_of(state, "characters") {
        None => {
            return Ok(());
        },
        Some(JsonValue::Array(cs)) => cs,
        Some(_) => {
            return Err(error("/state/characters", "characters must be an array"));
        },
    };
    proof {
        lemma_array_deep(*cs);
    }
    let ghost cv = elems_view(cs@);
    let mut k: usize = 0;
    while k < cs.len()
        invariant
            k <= cs@.len(),
            cv == elems_view(cs@),
            spec_inventories_check(document.deep(), mode) == characters_check(cv, mode, cv.len() as int),
            characters_check(cv, mode, k as int) is None,
        decreases cs.len() - k,
    {
        assert(cv[k as int] == cs@[k as int].deep());
        match &cs[k] {
            JsonValue::Object(c) => {
                proof {
                    lemma_object_deep(*c);
                }
                match member_of(c, "inventory") {
                    Some(inv) => match parse_inventory(inv, k, mode) {
                        Ok(_) => {},
                        Err(e) => {
                            proof {
                                lemma_check_propagates(cv, mode, k as int + 1, cv.len() as int);
                            }
                            return Err(e);
                        },
                    },
                    None => {},
                }
            },
            _ => {
                proof {
                    lemma_check_propagates(cv, mode, k as int + 1, cv.len() as int);
                }
                let mut p = owned("/state/characters/");
                push_decimal(&mut p, k as u64);
                return Err(InventoryError::new(p, owned("character must be an object")));
            },
        }
        k += 1;
    }
    Ok(())
}

// ---------------------------------------------------------------------------------------
// Replacing a character
// ---------------------------------------------------------------------------------------

/// The document with character `ci` replaced by an object of members `c`.
pub open spec fn with_character(document: JsonView, ci: int, c: Seq<(Seq<char>, JsonView)>) -> JsonView {
    match document {
        JsonView::Object(root) => match member(root, "state"@) {
            Some(JsonView::Object(state)) => match member(state, "characters"@) {
                Some(JsonView::Array(cs)) => JsonView::Object(
                    set_member(
                        root,
                        "state"@,
                        JsonView::Object(set_member(state, "characters"@, JsonView::Array(cs.update(ci, JsonView::Object(c))))),
                    ),
                ),
                _ => document,
            },
            _ => document,
        },
        _ => document,
    }
}

pub(crate) fn replace_character(document: &mut JsonValue, ci: usize, c: Vec<(String, JsonValue)>)
    requires
        spec_character(old(document).deep(), ci as int) is Ok,
    ensures
        final(document).deep() == with_character(old(document).deep(), ci as int, members_view(c@)),
{
    let ghost cview = members_view(c@);
    let mut taken = JsonValue::Null;
    core::mem::swap(document, &mut taken);
    let mut o1 = match taken {
        JsonValue::Object(o) => o,
        other => {
            proof {
                assert(false);
            }
            *document = other;
            return;
        },
    };
    proof {
        lemma_object_deep(o1);
        lemma_member_index_range(members_view(o1@), "state"@, 0);
    }
    let ghost o1_before = members_view(o1@);
    let i1 = match find_member(&o1, "state") {
        Some(i) => i,
        None => {
            proof {
                assert(false);
            }
            return;
        },
    };
    let mut state_entry = (String::new(), JsonValue::Null);
    o1.set_and_swap(i1, &mut state_entry);
    let (state_key, state_value) = state_entry;
    let mut o2 = match state_value {
        JsonValue::Object(o) => o,
        _ => {
            proof {
                assert(false);
            }
            return;
        },
    };
    proof {
        lemma_object_deep(o2);
        lemma_member_index_range(members_view(o2@), "characters"@, 0);
    }
    let ghost o2_before = members_view(o2@);
    let i2 = match find_member(&o2, "characters") {
        Some(i) => i,
        None => {
            proof {
                assert(false);
            }
            return;
        },
    };
    let mut chars_entry = (String::new(), JsonValue::Null);
    o2.set_and_swap(i2, &mut chars_entry);
    let (chars_key, chars_value) = chars_entry;
    let mut cs = match chars_value {
        JsonValue::Array(a) => a,
        _ => {
            proof {
                assert(false);
            }
            return;
        },
    };
    proof {
        lemma_array_deep(cs);
    }
    let ghost cs_before = elems_view(cs@);
    let new_c = JsonValue::Object(c);
    proof {
        lemma_object_deep(new_c->Object_0);
    }
    cs.set(ci, new_c);
    assert(elems_view(cs@) =~= cs_before.update(ci as int, JsonView::Object(cview)));
    let new_chars = JsonValue::Array(cs);
    proof {
        lemma_array_deep(new_chars->Array_0);
    }
    let ghost ncv = new_chars.deep();
    o2.set(i2, (chars_key, new_chars));
    proof {
        lemma_object_deep(o2);
        assert(members_view(o2@) =~= set_member(o2_before, "characters"@, ncv));
    }
    let new_state = JsonValue::Object(o2);
    let ghost nsv = new_state.deep();
    proof {
        lemma_object_deep(new_state->Object_0);
    }
    o1.set(i1, (state_key, new_state));
    assert(members_view(o1@) =~= set_member(o1_before, "state"@, nsv));
    let result = JsonValue::Object(o1);
    proof {
        lemma_object_deep(result->Object_0);
    }
    *document = result;
}

/// A copy of character `ci`'s members.
pub(crate) fn copy_character(document: &JsonValue, ci: usize) -> (c: Vec<(String, JsonValue)>)
    requires
        spec_character(document.deep(), ci as int) is Ok,
    ensures
        members_view(c@) == spec_character(document.deep(), ci as int)->Ok_0,
{
    match character_members(document, ci) {
        Ok(c) => copy_members(c),
        Err(_) => {
            proof {
                assert(false);
            }
            Vec::new()
        },
    }
}

fn inventory_path_exec(ci: usize) -> (p: String)
    ensures
        p@ == inventory_path(ci as int),
{
    let mut p = owned("/state/characters/");
    push_decimal(&mut p, ci as u64);
    push_str(&mut p, "/inventory");
    p
}

// ---------------------------------------------------------------------------------------
// Adding a row
// ---------------------------------------------------------------------------------------

/// The row that adding an item writes, its members in name order.
pub open spec fn new_inventory_row(soid: u64, item: NewInventoryItem) -> JsonView {
    JsonView::Object(
        seq![
            ("definition_hash"@, JsonView::Str(definition_hash_text(item.definition_hash))),
            ("instance_soid"@, JsonView::Str(instance_soid_text(soid))),
            ("level"@, int_view(item.level)),
            ("plugs"@, JsonView::Null),
            ("quantity"@, int_view(item.quantity)),
        ],
    )
}

pub open spec fn full_message() -> Seq<char> {
    "character inventory is full (maximum "@ + decimal(CHARACTER_INVENTORY_CAPACITY as nat) + " items)"@
}

/// The rows of character members `c`: its `inventory` array, or none.
pub open spec fn inventory_rows(c: Seq<(Seq<char>, JsonView)>) -> Seq<JsonView> {
    match member(c, "inventory"@) {
        Some(JsonView::Array(rows)) => rows,
        _ => Seq::empty(),
    }
}

/// Adding an item to character `ci`: where the new row lands and the document afterwards,
/// or why the item cannot be added. The new row gets the first unused generated SOID and
/// the definition's native plugs.
pub open spec fn spec_add_inventory_item(document: JsonView, ci: int, item: NewInventoryItem) -> Result<
    (InventoryItemLocation, JsonView),
    ErrorView,
> {
    let mode = spec_schema_mode(document_version(document));
    match inventory_mutation_error(mode) {
        Some(e) => Err(e),
        None => if item.definition_hash == NO_DEFINITION_HASH {
            Err((inventory_path(ci) + "/<new>/definition_hash"@, sentinel_message()))
        } else if item.level < 0 {
            Err((inventory_path(ci) + "/<new>/level"@, level_message()))
        } else if item.quantity <= 0 {
            Err((inventory_path(ci) + "/<new>/quantity"@, quantity_message()))
        } else {
            match spec_inventories_check(document, mode) {
                Some(e) => Err(e),
                None => match spec_character_inventory(document, ci) {
                    Err(e) => Err(e),
                    Ok(existing) => {
                        let length = match existing {
                            Some(items) => items.len(),
                            None => 0,
                        };
                        if length >= CHARACTER_INVENTORY_CAPACITY {
                            Err((inventory_path(ci), full_message()))
                        } else {
                            match spec_allocate_soid(document) {
                                Err(e) => Err(e),
                                Ok(soid) => {
                                    let c = spec_character(document, ci)->Ok_0;
                                    Ok(
                                        (
                                            InventoryItemLocation { character_index: ci as usize, item_index: length as usize },
                                            with_character(
                                                document,
                                                ci,
                                                set_member(
                                                    c,
                                                    "inventory"@,
                                                    JsonView::Array(inventory_rows(c).push(new_inventory_row(soid, item))),
                                                ),
                                            ),
                                        ),
                                    )
                                },
                            }
                        }
                    },
                },
            }
        }
    }
}

/// Reading a character's inventory finds the character.
proof fn lemma_inventory_finds_character(document: JsonView, ci: int)
    requires
        spec_character_inventory(document, ci) is Ok,
    ensures
        spec_character(document, ci) is Ok,
        spec_character_inventory(document, ci) matches Ok(Some(items)) ==> member(
            spec_character(document, ci)->Ok_0,
            "inventory"@,
        ) matches Some(JsonView::Array(rows)) && rows.len() == items.len(),
        spec_character_inventory(document, ci) matches Ok(None) ==> member(
            spec_character(document, ci)->Ok_0,
            "inventory"@,
        ) is None,
{
    let c = spec_character(document, ci)->Ok_0;
    if let Some(JsonView::Array(rows)) = member(c, "inventory"@) {
        lemma_rows_len(rows, ci, rows.len() as int);
    }
}

fn new_row_value(soid: u64, item: NewInventoryItem) -> (r: JsonValue)
    ensures
        r.deep() == new_inventory_row(soid, item),
{
    let mut row: Vec<(String, JsonValue)> = Vec::new();
    row.push((owned("definition_hash"), JsonValue::String(format_definition_hash(item.definition_hash))));
    row.push((owned("instance_soid"), JsonValue::String(format_instance_soid(soid))));
    row.push((owned("level"), int_value(item.level)));
    row.push((owned("plugs"), JsonValue::Null));
    row.push((owned("quantity"), int_value(item.quantity)));
    let r = JsonValue::Object(row);
    proof {
        lemma_object_deep(r->Object_0);
        assert(r.deep()->Object_0 =~= new_inventory_row(soid, item)->Object_0);
    }
    r
}

/// A copy of the rows of character members `c`.
fn copy_rows(c: &Vec<(String, JsonValue)>) -> (rows: Vec<JsonValue>)
    ensures
        elems_view(rows@) == inventory_rows(members_view(c@)),
{
    match member_of(c, "inventory") {
        Some(JsonValue::Array(a)) => {
            proof {
                lemma_array_deep(*a);
            }
            copy_elements(a)
        },
        _ => {
            let rows: Vec<JsonValue> = Vec::new();
            assert(elems_view(rows@) =~= Seq::<JsonView>::empty());
            rows
        },
    }
}

/// Adds an item at the end of character `ci`'s inventory (creating the inventory when the
/// character has none) with a fresh instance SOID and native plugs, and says where it
/// landed. The schema must be the inventory schema, the hash must not be the engine's
/// sentinel, the level must not be negative and the quantity must be positive; every
/// character inventory must read, this one must have room, and a free SOID must remain. A
/// refused addition changes nothing.
pub fn add_inventory_item(document: &mut JsonValue, character_index: usize, item: NewInventoryItem) -> (r: Result<
    InventoryItemLocation,
    InventoryError,
>)
    ensures
        match spec_add_inventory_item(old(document).deep(), character_index as int, item) {
            Ok((location, after)) => r == Ok::<InventoryItemLocation, InventoryError>(location) && final(document).deep()
                == after,
            Err(e) => r matches Err(x) && x@ == e && final(document).deep() == old(document).deep(),
        },
{
    let ci = character_index;
    let mode = match inventory_mutation_mode(document) {
        Ok(m) => m,
        Err(e) => {
            return Err(e);
        },
    };
    if item.definition_hash == NO_DEFINITION_HASH {
        let mut p = inventory_path_exec(ci);
        push_str(&mut p, "/<new>/definition_hash");
        return Err(InventoryError::new(p, owned("the engine no-definition sentinel is not a valid authored hash")));
    }
    if item.level < 0 {
        let mut p = inventory_path_exec(ci);
        push_str(&mut p, "/<new>/level");
        return Err(InventoryError::new(p, owned("level must be a non-negative signed 32-bit integer")));
    }
    if item.quantity <= 0 {
        let mut p = inventory_path_exec(ci);
        push_str(&mut p, "/<new>/quantity");
        return Err(InventoryError::new(p, owned("quantity must be a positive signed 32-bit integer")));
    }
    match validate_existing_character_inventories(document, mode) {
        Ok(()) => {},
        Err(e) => {
            return Err(e);
        },
    }
    let existing = match character_inventory(document, ci) {
        Ok(x) => x,
        Err(e) => {
            return Err(e);
        },
    };
    let length = match &existing {
        Some(items) => items.len(),
        None => 0,
    };
    if length >= CHARACTER_INVENTORY_CAPACITY {
        let mut m = owned("character inventory is full (maximum ");
        push_decimal(&mut m, CHARACTER_INVENTORY_CAPACITY as u64);
        push_str(&mut m, " items)");
        return Err(InventoryError::new(inventory_path_exec(ci), m));
    }
    let soid = match allocate_instance_soid(document) {
        Ok(s) => s,
        Err(e) => {
            return Err(e);
        },
    };
    proof {
        lemma_inventory_finds_character(document.deep(), ci as int);
    }
    let mut c = copy_character(document, ci);
    let mut rows = copy_rows(&c);
    let ghost before_rows = elems_view(rows@);
    let new_row = new_row_value(soid, item);
    let ghost new_view = new_row.deep();
    rows.push(new_row);
    assert(elems_view(rows@) =~= before_rows.push(new_view));
    let array = JsonValue::Array(rows);
    proof {
        lemma_array_deep(array->Array_0);
    }
    set_member_exec(&mut c, "inventory", array);
    replace_character(document, ci, c);
    Ok(InventoryItemLocation { character_index: ci, item_index: length })
}

// ---------------------------------------------------------------------------------------
// Editing a row
// ---------------------------------------------------------------------------------------

/// Plugs as the document writes them: null for the native defaults, else one entry per
/// plug, an empty entry as null.
pub open spec fn plugs_json(plugs: PlugsView) -> JsonView {
    match plugs {
        PlugsView::NativeDefaults => JsonView::Null,
        PlugsView::Authored(p) => JsonView::Array(
            Seq::new(
                p.len(),
                |i: int|
                    match p[i] {
                        Some(h) => JsonView::Str(definition_hash_text(h)),
                        None => JsonView::Null,
                    },
            ),
        ),
    }
}

/// A row after an edit of one of its members; its other members stay as they were.
pub open spec fn edited_inventory_row(row: JsonView, action: InventoryItemAction) -> JsonView {
    match row {
        JsonView::Object(o) => match action {
            InventoryItemAction::SetDefinitionHash(h) => JsonView::Object(
                set_member(o, "definition_hash"@, JsonView::Str(definition_hash_text(h))),
            ),
            InventoryItemAction::SetLevel(l) => JsonView::Object(set_member(o, "level"@, int_view(l))),
            InventoryItemAction::SetQuantity(q) => JsonView::Object(set_member(o, "quantity"@, int_view(q))),
            InventoryItemAction::SetPlugs(p) => JsonView::Object(set_member(o, "plugs"@, plugs_json(p.plugs_view()))),
            InventoryItemAction::SetFlags(Some(f)) => JsonView::Object(
                set_member(o, "flags"@, JsonView::Number(NumberView::PosInt(f as u64))),
            ),
            InventoryItemAction::SetFlags(None) => JsonView::Object(remove_member(o, "flags"@)),
            InventoryItemAction::Remove => row,
        },
        _ => row,
    }
}

/// The rows after an edit of row `index`: removed, or edited in place.
pub open spec fn edited_inventory_rows(rows: Seq<JsonView>, index: int, action: InventoryItemAction) -> Seq<JsonView> {
    match action {
        InventoryItemAction::Remove => rows.remove(index),
        _ => rows.update(index, edited_inventory_row(rows[index], action)),
    }
}

/// The document after an edit of an inventory row, or why the edit is refused.
pub open spec fn spec_apply_inventory_item_action(
    document: JsonView,
    location: InventoryItemLocation,
    action: InventoryItemAction,
) -> Result<JsonView, ErrorView> {
    let mode = spec_schema_mode(document_version(document));
    let ci = location.character_index as int;
    let ii = location.item_index as int;
    match inventory_mutation_error(mode) {
        Some(e) => Err(e),
        None => match spec_character_inventory(document, ci) {
            Err(e) => Err(e),
            Ok(None) => Err((inventory_path(ci), "character inventory is missing; add an item before editing a row"@)),
            Ok(Some(items)) => if ii >= items.len() {
                Err((item_path(location), "inventory item index is out of range"@))
            } else {
                match inventory_action_check(location, action) {
                    Some(e) => Err(e),
                    None => {
                        let c = spec_character(document, ci)->Ok_0;
                        Ok(
                            with_character(
                                document,
                                ci,
                                set_member(
                                    c,
                                    "inventory"@,
                                    JsonView::Array(edited_inventory_rows(inventory_rows(c), ii, action)),
                                ),
                            ),
                        )
                    },
                }
            },
        },
    }
}

/// Setting a row's quantity to any positive number is refused exactly where removing the
/// row is, and for the same reason: no positive quantity is itself a reason to refuse.
pub proof fn law_positive_quantity_is_refused_only_where_removal_is(
    document: JsonView,
    location: InventoryItemLocation,
    quantity: i32,
)
    requires
        quantity >= 1,
    ensures
        spec_apply_inventory_item_action(document, location, InventoryItemAction::SetQuantity(quantity)) is Ok
            <==> spec_apply_inventory_item_action(document, location, InventoryItemAction::Remove) is Ok,
        spec_apply_inventory_item_action(document, location, InventoryItemAction::SetQuantity(quantity)) is Err
            ==> spec_apply_inventory_item_action(document, location, InventoryItemAction::SetQuantity(quantity))
            == spec_apply_inventory_item_action(document, location, InventoryItemAction::Remove),
{
    crate::inventory::law_inventory_action_check_accepts_valid_values(location, 0, 0, quantity, 0);
}

fn encode_plugs(plugs: &ItemPlugs) -> (r: JsonValue)
    ensures
        r.deep() == plugs_json(plugs.plugs_view()),
{
    match plugs {
        ItemPlugs::NativeDefaults => JsonValue::Null,
        ItemPlugs::Authored(p) => {
            let mut out: Vec<JsonValue> = Vec::new();
            let mut i: usize = 0;
            while i < p.len()
                invariant
                    i <= p@.len(),
                    out@.len() == i,
                    forall|k: int|
                        0 <= k < i ==> (#[trigger] out@[k]).deep() == (match p@[k] {
                            Some(h) => JsonView::Str(definition_hash_text(h)),
                            None => JsonView::Null,
                        }),
                decreases p.len() - i,
            {
                match p[i] {
                    Some(h) => out.push(JsonValue::String(format_definition_hash(h))),
                    None => out.push(JsonValue::Null),
                }
                i += 1;
            }
            let r = JsonValue::Array(out);
            proof {
                lemma_array_deep(out);
                assert(r.deep()->Array_0 =~= plugs_json(plugs.plugs_view())->Array_0);
            }
            r
        },
    }
}

/// Rows that read are objects.
proof fn lemma_rows_are_objects(rows: Seq<JsonView>, ci: int, n: int, k: int)
    requires
        0 <= k < n <= rows.len(),
        spec_inventory_rows(rows, ci, n) is Ok,
    ensures
        rows[k] is Object,
    decreases n,
{
    if k < n - 1 {
        lemma_rows_are_objects(rows, ci, n - 1, k);
    }
}

/// Edits or removes one row of a character inventory. The schema must be the inventory
/// schema, the inventory must read, the row must exist, and the requested value must be
/// valid; a refused edit changes nothing. Other rows, and the row's other members, stay as
/// they were.
pub fn apply_inventory_item_action(
    document: &mut JsonValue,
    location: InventoryItemLocation,
    action: InventoryItemAction,
) -> (r: Result<(), InventoryError>)
    ensures
        match spec_apply_inventory_item_action(old(document).deep(), location, action) {
            Ok(after) => r is Ok && final(document).deep() == after,
            Err(e) => r matches Err(x) && x@ == e && final(document).deep() == old(document).deep(),
        },
{
    let ci = location.character_index;
    let ii = location.item_index;
    match inventory_mutation_mode(document) {
        Ok(_) => {},
        Err(e) => {
            return Err(e);
        },
    }
    let items = match character_inventory(document, ci) {
        Ok(Some(items)) => items,
        Ok(None) => {
            return Err(
                InventoryError::new(
                    inventory_path_exec(ci),
                    owned("character inventory is missing; add an item before editing a row"),
                ),
            );
        },
        Err(e) => {
            return Err(e);
        },
    };
    if ii >= items.len() {
        return Err(InventoryError::new(inventory_item_path(location), owned("inventory item index is out of range")));
    }
    match validate_inventory_action(location, &action) {
        Ok(()) => {},
        Err(e) => {
            return Err(e);
        },
    }
    proof {
        lemma_inventory_finds_character(document.deep(), ci as int);
    }
    let mut c = copy_character(document, ci);
    let mut rows = copy_rows(&c);
    let ghost spec_rows = elems_view(rows@);
    proof {
        let cv = spec_character(document.deep(), ci as int)->Ok_0;
        let mode = spec_schema_mode(document_version(document.deep()));
        let rv = member(cv, "inventory"@)->0->Array_0;
        assert(spec_rows == rv);
        assert(spec_parse_inventory(JsonView::Array(rv), ci as int, mode) is Ok);
        lemma_rows_are_objects(rv, ci as int, rv.len() as int, ii as int);
    }
    match action {
        InventoryItemAction::Remove => {
            let _ = rows.remove(ii);
            assert(elems_view(rows@) =~= spec_rows.remove(ii as int));
        },
        _ => {
            let mut slot = JsonValue::Null;
            rows.set_and_swap(ii, &mut slot);
            assert(slot.deep() == spec_rows[ii as int]);
            let mut o = match slot {
                JsonValue::Object(o) => o,
                _ => {
                    proof {
                        assert(false);
                    }
                    return Ok(());
                },
            };
            proof {
                lemma_object_deep(o);
            }
            match &action {
                InventoryItemAction::SetDefinitionHash(h) => {
                    set_member_exec(&mut o, "definition_hash", JsonValue::String(format_definition_hash(*h)));
                },
                InventoryItemAction::SetLevel(l) => {
                    set_member_exec(&mut o, "level", int_value(*l));
                },
                InventoryItemAction::SetQuantity(q) => {
                    set_member_exec(&mut o, "quantity", int_value(*q));
                },
                InventoryItemAction::SetPlugs(p) => {
                    set_member_exec(&mut o, "plugs", encode_plugs(p));
                },
                InventoryItemAction::SetFlags(Some(f)) => {
                    set_member_exec(&mut o, "flags", JsonValue::Number(JsonNumber::PosInt(*f as u64)));
                },
                InventoryItemAction::SetFlags(None) => {
                    remove_member_exec(&mut o, "flags");
                },
                InventoryItemAction::Remove => {},
            }
            let row = JsonValue::Object(o);
            proof {
                lemma_object_deep(row->Object_0);
                assert(row.deep() == edited_inventory_row(spec_rows[ii as int], action));
            }
            rows.set(ii, row);
            assert(elems_view(rows@) =~= edited_inventory_rows(spec_rows, ii as int, action));
        },
    }
    let array = JsonValue::Array(rows);
    proof {
        lemma_array_deep(array->Array_0);
    }
    set_member_exec(&mut c, "inventory", array);
    replace_character(document, ci, c);
    Ok(())
}

// ---------------------------------------------------------------------------------------
// Moving rows between inventory and equipment
// ---------------------------------------------------------------------------------------

pub open spec fn slot_path(ci: int, slot: Seq<char>) -> Seq<char> {
    equipment_path(ci) + "/"@ + slot
}

/// Equipping stored row `location.item_index` into `slot`: whether an equipped item was
/// put back in the row's place, and the document afterwards; or why it is refused. The
/// whole rows move, unknown members included; with the slot empty the stored row leaves
/// the inventory. The result must still have an inventory that reads.
pub open spec fn spec_swap_with_equipment(document: JsonView, location: InventoryItemLocation, slot: Seq<char>) -> Result<
    (bool, JsonView),
    ErrorView,
> {
    let mode = spec_schema_mode(document_version(document));
    let ci = location.character_index as int;
    let ii = location.item_index as int;
    match inventory_mutation_error(mode) {
        Some(e) => Err(e),
        None => if slot_named(slot, 0) is None {
            Err((slot_path(ci, slot), "unknown equipment slot"@))
        } else {
            match spec_character_inventory(document, ci) {
                Err(e) => Err(e),
                Ok(None) => Err(
                    (inventory_path(ci), "character inventory is missing; add an item before equipping a row"@),
                ),
                Ok(Some(items)) => if ii >= items.len() {
                    Err((item_path(location), "inventory item index is out of range"@))
                } else {
                    let c = spec_character(document, ci)->Ok_0;
                    let rows = inventory_rows(c);
                    match member(c, "equipment"@) {
                        None => Err((equipment_path(ci), "equipment is missing"@)),
                        Some(JsonView::Object(e)) => {
                            let previous = match member(e, slot) {
                                Some(JsonView::Object(p)) => Ok(Some(JsonView::Object(p))),
                                Some(JsonView::Null) => Ok(None),
                                None => Ok(None),
                                Some(_) => Err((slot_path(ci, slot), "equipped item must be an object or null"@)),
                            };
                            match previous {
                                Err(x) => Err(x),
                                Ok(previous) => {
                                    let new_rows = match previous {
                                        Some(p) => rows.update(ii, p),
                                        None => rows.remove(ii),
                                    };
                                    let candidate = with_character(
                                        document,
                                        ci,
                                        set_member(
                                            set_member(c, "equipment"@, JsonView::Object(set_member(e, slot, rows[ii]))),
                                            "inventory"@,
                                            JsonView::Array(new_rows),
                                        ),
                                    );
                                    match spec_character_inventory(candidate, ci) {
                                        Err(x) => Err(x),
                                        Ok(_) => Ok((previous is Some, candidate)),
                                    }
                                },
                            }
                        },
                        Some(_) => Err((equipment_path(ci), "equipment must be an object"@)),
                    }
                },
            }
        }
    }
}

/// Moving the item in `slot` to the end of character `ci`'s inventory, leaving the slot
/// null: the document afterwards, or why it is refused. The inventory must have room and
/// still read afterwards.
pub open spec fn spec_move_to_inventory(document: JsonView, ci: int, slot: Seq<char>) -> Result<JsonView, ErrorView> {
    let mode = spec_schema_mode(document_version(document));
    match inventory_mutation_error(mode) {
        Some(e) => Err(e),
        None => if slot_named(slot, 0) is None {
            Err((slot_path(ci, slot), "unknown equipment slot"@))
        } else {
            match spec_character_inventory(document, ci) {
                Err(e) => Err(e),
                Ok(existing) => {
                    let length = match existing {
                        Some(items) => items.len(),
                        None => 0,
                    };
                    if length >= CHARACTER_INVENTORY_CAPACITY {
                        Err((inventory_path(ci), full_message()))
                    } else {
                        let c = spec_character(document, ci)->Ok_0;
                        match member(c, "equipment"@) {
                            None => Err((equipment_path(ci), "equipment is missing"@)),
                            Some(JsonView::Object(e)) => match member(e, slot) {
                                Some(JsonView::Object(item)) => {
                                    let candidate = with_character(
                                        document,
                                        ci,
                                        set_member(
                                            set_member(c, "equipment"@, JsonView::Object(set_member(e, slot, JsonView::Null))),
                                            "inventory"@,
                                            JsonView::Array(inventory_rows(c).push(JsonView::Object(item))),
                                        ),
                                    );
                                    match spec_character_inventory(candidate, ci) {
                                        Err(x) => Err(x),
                                        Ok(_) => Ok(candidate),
                                    }
                                },
                                Some(JsonView::Null) => Err((slot_path(ci, slot), "equipment slot is already empty"@)),
                                None => Err((slot_path(ci, slot), "equipment slot is already empty"@)),
                                Some(_) => Err((slot_path(ci, slot), "equipped item must be an object or null"@)),
                            },
                            Some(_) => Err((equipment_path(ci), "equipment must be an object"@)),
                        }
                    }
                },
            }
        }
    }
}

pub(crate) fn known_slot(slot: &str) -> (r: bool)
    ensures
        r == (slot_named(slot@, 0) is Some),
{
    let mut k: usize = 0;
    while k < SLOT_COUNT
        invariant
            k <= SLOT_COUNT,
            slot_named(slot@, k as int) == slot_named(slot@, 0),
        decreases SLOT_COUNT - k,
    {
        let (name, _, _) = slot_entry(k);
        if crate::text::str_eq(name, slot) {
            return true;
        }
        k += 1;
    }
    false
}

fn equipment_path_exec(ci: usize) -> (p: String)
    ensures
        p@ == equipment_path(ci as int),
{
    let mut p = owned("/state/characters/");
    push_decimal(&mut p, ci as u64);
    push_str(&mut p, "/equipment");
    p
}

fn slot_path_exec(ci: usize, slot: &str) -> (p: String)
    ensures
        p@ == slot_path(ci as int, slot@),
{
    let mut p = equipment_path_exec(ci);
    push_str(&mut p, "/");
    push_str(&mut p, slot);
    p
}

/// Moves stored row `location` into equipment `slot` and puts the item that was equipped
/// there in the row's place (or removes the row when the slot was empty), as
/// `spec_swap_with_equipment` describes; says whether an item was put back. The whole rows
/// move, with their SOIDs, plugs, flags and unknown members. A refused swap changes
/// nothing.
pub fn swap_inventory_item_with_equipment(document: &mut JsonValue, location: InventoryItemLocation, slot: &str) -> (r:
    Result<bool, InventoryError>)
    ensures
        match spec_swap_with_equipment(old(document).deep(), location, slot@) {
            Ok((replaced, after)) => r == Ok::<bool, InventoryError>(replaced) && final(document).deep() == after,
            Err(e) => r matches Err(x) && x@ == e && final(document).deep() == old(document).deep(),
        },
{
    let ci = location.character_index;
    let ii = location.item_index;
    match inventory_mutation_mode(document) {
        Ok(_) => {},
        Err(e) => {
            return Err(e);
        },
    }
    if !known_slot(slot) {
        return Err(InventoryError::new(slot_path_exec(ci, slot), owned("unknown equipment slot")));
    }
    let items = match character_inventory(document, ci) {
        Ok(Some(items)) => items,
        Ok(None) => {
            return Err(
                InventoryError::new(
                    inventory_path_exec(ci),
                    owned("character inventory is missing; add an item before equipping a row"),
                ),
            );
        },
        Err(e) => {
            return Err(e);
        },
    };
    if ii >= items.len() {
        return Err(InventoryError::new(inventory_item_path(location), owned("inventory item index is out of range")));
    }
    proof {
        lemma_inventory_finds_character(document.deep(), ci as int);
    }
    let c = match character_members(document, ci) {
        Ok(c) => c,
        Err(e) => {
            proof {
                assert(false);
            }
            return Err(e);
        },
    };
    let a = match member_of(c, "inventory") {
        Some(JsonValue::Array(a)) => a,
        _ => {
            proof {
                assert(false);
            }
            return Ok(false);
        },
    };
    proof {
        lemma_array_deep(*a);
    }
    let stored = a[ii].deep_copy();
    let e = match member_of(c, "equipment") {
        None => {
            return Err(InventoryError::new(equipment_path_exec(ci), owned("equipment is missing")));
        },
        Some(JsonValue::Object(e)) => e,
        Some(_) => {
            return Err(InventoryError::new(equipment_path_exec(ci), owned("equipment must be an object")));
        },
    };
    proof {
        lemma_object_deep(*e);
    }
    let previous = match member_of(e, slot) {
        Some(JsonValue::Object(p)) => {
            let copy = JsonValue::Object(copy_members(p));
            proof {
                lemma_object_deep(*p);
                lemma_object_deep(copy->Object_0);
            }
            Some(copy)
        },
        Some(JsonValue::Null) => None,
        None => None,
        Some(_) => {
            return Err(InventoryError::new(slot_path_exec(ci, slot), owned("equipped item must be an object or null")));
        },
    };
    let replaced = previous.is_some();
    let mut c2 = copy_members(c);
    let mut e2 = copy_members(e);
    set_member_exec(&mut e2, slot, stored);
    let equipment = JsonValue::Object(e2);
    proof {
        lemma_object_deep(equipment->Object_0);
    }
    set_member_exec(&mut c2, "equipment", equipment);
    let mut rows = copy_elements(a);
    let ghost before_rows = elems_view(rows@);
    match previous {
        Some(p) => {
            let ghost pv = p.deep();
            rows.set(ii, p);
            assert(elems_view(rows@) =~= before_rows.update(ii as int, pv));
        },
        None => {
            let _ = rows.remove(ii);
            assert(elems_view(rows@) =~= before_rows.remove(ii as int));
        },
    }
    let array = JsonValue::Array(rows);
    proof {
        lemma_array_deep(array->Array_0);
    }
    set_member_exec(&mut c2, "inventory", array);
    let mut candidate = document.deep_copy();
    replace_character(&mut candidate, ci, c2);
    match character_inventory(&candidate, ci) {
        Ok(_) => {},
        Err(x) => {
            return Err(x);
        },
    }
    *document = candidate;
    Ok(replaced)
}

/// Moves the item equipped in `slot` to the end of character `ci`'s inventory and leaves
/// the slot null, as `spec_move_to_inventory` describes; a missing inventory is created.
/// The whole row moves. A refused move changes nothing.
pub fn move_equipment_item_to_inventory(document: &mut JsonValue, character_index: usize, slot: &str) -> (r: Result<
    (),
    InventoryError,
>)
    ensures
        match spec_move_to_inventory(old(document).deep(), character_index as int, slot@) {
            Ok(after) => r is Ok && final(document).deep() == after,
            Err(e) => r matches Err(x) && x@ == e && final(document).deep() == old(document).deep(),
        },
{
    let ci = character_index;
    match inventory_mutation_mode(document) {
        Ok(_) => {},
        Err(e) => {
            return Err(e);
        },
    }
    if !known_slot(slot) {
        return Err(InventoryError::new(slot_path_exec(ci, slot), owned("unknown equipment slot")));
    }
    let existing = match character_inventory(document, ci) {
        Ok(x) => x,
        Err(e) => {
            return Err(e);
        },
    };
    let length = match &existing {
        Some(items) => items.len(),
        None => 0,
    };
    if length >= CHARACTER_INVENTORY_CAPACITY {
        let mut m = owned("character inventory is full (maximum ");
        push_decimal(&mut m, CHARACTER_INVENTORY_CAPACITY as u64);
        push_str(&mut m, " items)");
        return Err(InventoryError::new(inventory_path_exec(ci), m));
    }
    proof {
        lemma_inventory_finds_character(document.deep(), ci as int);
    }
    let c = match character_members(document, ci) {
        Ok(c) => c,
        Err(e) => {
            proof {
                assert(false);
            }
            return Err(e);
        },
    };
    let e = match member_of(c, "equipment") {
        None => {
            return Err(InventoryError::new(equipment_path_exec(ci), owned("equipment is missing")));
        },
        Some(JsonValue::Object(e)) => e,
        Some(_) => {
            return Err(InventoryError::new(equipment_path_exec(ci), owned("equipment must be an object")));
        },
    };
    proof {
        lemma_object_deep(*e);
    }
    let item = match member_of(e, slot) {
        Some(JsonValue::Object(p)) => {
            let copy = JsonValue::Object(copy_members(p));
            proof {
                lemma_object_deep(*p);
                lemma_object_deep(copy->Object_0);
            }
            copy
        },
        Some(JsonValue::Null) => {
            return Err(InventoryError::new(slot_path_exec(ci, slot), owned("equipment slot is already empty")));
        },
        None => {
            return Err(InventoryError::new(slot_path_exec(ci, slot), owned("equipment slot is already empty")));
        },
        Some(_) => {
            return Err(InventoryError::new(slot_path_exec(ci, slot), owned("equipped item must be an object or null")));
        },
    };
    let mut c2 = copy_members(c);
    let mut e2 = copy_members(e);
    set_member_exec(&mut e2, slot, JsonValue::Null);
    let equipment = JsonValue::Object(e2);
    proof {
        lemma_object_deep(equipment->Object_0);
    }
    set_member_exec(&mut c2, "equipment", equipment);
    let mut rows = copy_rows(c);
    let ghost before_rows = elems_view(rows@);
    let ghost item_view = item.deep();
    rows.push(item);
    assert(elems_view(rows@) =~= before_rows.push(item_view));
    let array = JsonValue::Array(rows);
    proof {
        lemma_array_deep(array->Array_0);
    }
    set_member_exec(&mut c2, "inventory", array);
    let mut candidate = document.deep_copy();
    replace_character(&mut candidate, ci, c2);
    match character_inventory(&candidate, ci) {
        Ok(_) => {},
        Err(x) => {
            return Err(x);
        },
    }
    *document = candidate;
    Ok(())
}

// ---------------------------------------------------------------------------------------
// Several edits at once
// ---------------------------------------------------------------------------------------

/// The document after applying `actions` to one row in turn, or the first refusal.
pub open spec fn spec_apply_actions(document: JsonView, location: InventoryItemLocation, actions: Seq<InventoryItemAction>) -> Result<
    JsonView,
    ErrorView,
>
    decreases actions.len(),
{
    if actions.len() == 0 {
        Ok(document)
    } else {
        match spec_apply_inventory_item_action(document, location, actions[0]) {
            Err(e) => Err(e),
            Ok(next) => spec_apply_actions(next, location, actions.drop_first()),
        }
    }
}

/// Applies several edits to one inventory row, all or none: when one is refused, the
/// document stays as it was and the refusal is returned as text.
pub fn apply_inventory_actions_atomic(
    document: &mut JsonValue,
    location: InventoryItemLocation,
    actions: Vec<InventoryItemAction>,
) -> (r: Result<(), String>)
    ensures
        match spec_apply_actions(old(document).deep(), location, actions@) {
            Ok(after) => r is Ok && final(document).deep() == after,
            Err(e) => r matches Err(x) && x@ == crate::inventory::error_text(e) && final(document).deep() == old(
                document,
            ).deep(),
        },
{
    let mut remaining = actions;
    let mut candidate = document.deep_copy();
    while remaining.len() > 0
        invariant
            spec_apply_actions(old(document).deep(), location, actions@) == spec_apply_actions(
                candidate.deep(),
                location,
                remaining@,
            ),
            document.deep() == old(document).deep(),
        decreases remaining.len(),
    {
        let ghost before = remaining@;
        let action = remaining.remove(0);
        assert(remaining@ =~= before.drop_first());
        match apply_inventory_item_action(&mut candidate, location, action) {
            Ok(()) => {},
            Err(e) => {
                return Err(e.to_text());
            },
        }
    }
    *document = candidate;
    Ok(())
}

// ---------------------------------------------------------------------------------------
// Laws of moving rows
// ---------------------------------------------------------------------------------------

/// Replacing a character leaves the schema version and reads back the new character.
pub proof fn lemma_with_character_reads(d: JsonView, ci: int, c: Seq<(Seq<char>, JsonView)>)
    requires
        0 <= ci,
        spec_character(d, ci) is Ok,
    ensures
        spec_character(with_character(d, ci, c), ci) == Ok::<Seq<(Seq<char>, JsonView)>, ErrorView>(c),
        document_version(with_character(d, ci, c)) == document_version(d),
{
    let root = d->Object_0;
    let state = member(root, "state"@)->0->Object_0;
    let cs = member(state, "characters"@)->0->Array_0;
    let new_state = set_member(state, "characters"@, JsonView::Array(cs.update(ci, JsonView::Object(c))));
    lemma_member_after_set(root, "state"@, JsonView::Object(new_state), "version"@);
    lemma_member_after_set(state, "characters"@, JsonView::Array(cs.update(ci, JsonView::Object(c))), "characters"@);
    reveal_strlit("version");
    reveal_strlit("state");
    assert("version"@.len() != "state"@.len());
}

/// Replacing a character twice keeps the second replacement.
pub proof fn lemma_with_character_twice(d: JsonView, ci: int, c1: Seq<(Seq<char>, JsonView)>, c2: Seq<(Seq<char>, JsonView)>)
    requires
        0 <= ci,
        spec_character(d, ci) is Ok,
    ensures
        with_character(with_character(d, ci, c1), ci, c2) == with_character(d, ci, c2),
{
    let root = d->Object_0;
    let state = member(root, "state"@)->0->Object_0;
    let cs = member(state, "characters"@)->0->Array_0;
    let a1 = JsonView::Array(cs.update(ci, JsonView::Object(c1)));
    let a2 = JsonView::Array(cs.update(ci, JsonView::Object(c2)));
    let state1 = set_member(state, "characters"@, a1);
    lemma_member_after_set(root, "state"@, JsonView::Object(state1), "state"@);
    lemma_member_after_set(state, "characters"@, a1, "characters"@);
    assert(cs.update(ci, JsonView::Object(c1)).update(ci, JsonView::Object(c2)) =~= cs.update(ci, JsonView::Object(c2)));
    lemma_set_twice(state, "characters"@, a1, a2);
    lemma_set_twice(root, "state"@, JsonView::Object(state1), JsonView::Object(set_member(state, "characters"@, a2)));
}

/// Putting a character back as it is changes nothing.
pub proof fn lemma_with_character_same(d: JsonView, ci: int)
    requires
        0 <= ci,
        spec_character(d, ci) is Ok,
    ensures
        with_character(d, ci, spec_character(d, ci)->Ok_0) == d,
{
    let root = d->Object_0;
    let state = member(root, "state"@)->0->Object_0;
    let cs = member(state, "characters"@)->0->Array_0;
    let c = spec_character(d, ci)->Ok_0;
    assert(cs.update(ci, JsonView::Object(c)) =~= cs);
    lemma_set_same(state, "characters"@);
    lemma_set_same(root, "state"@);
}

/// Equipping a stored item into an occupied slot, and then equipping the row that took its
/// place back into that slot, gives back the document as it was.
pub proof fn law_equipping_back_restores(document: JsonView, location: InventoryItemLocation, slot: Seq<char>)
    requires
        spec_swap_with_equipment(document, location, slot) matches Ok((true, _)),
    ensures
        spec_swap_with_equipment(spec_swap_with_equipment(document, location, slot)->Ok_0.1, location, slot) == Ok::<
            (bool, JsonView),
            ErrorView,
        >((true, document)),
{
    let ci = location.character_index as int;
    let ii = location.item_index as int;
    let mode = spec_schema_mode(document_version(document));
    lemma_inventory_finds_character(document, ci);
    let c = spec_character(document, ci)->Ok_0;
    let rows = inventory_rows(c);
    let items = spec_character_inventory(document, ci)->Ok_0->0;
    assert(spec_parse_inventory(JsonView::Array(rows), ci, mode) is Ok);
    lemma_rows_are_objects(rows, ci, rows.len() as int, ii);
    let e = member(c, "equipment"@)->0->Object_0;
    let p = member(e, slot)->0;
    let e2 = set_member(e, slot, rows[ii]);
    let new_rows = rows.update(ii, p);
    let ca = set_member(c, "equipment"@, JsonView::Object(e2));
    let c2 = set_member(ca, "inventory"@, JsonView::Array(new_rows));
    let after = with_character(document, ci, c2);
    assert(spec_swap_with_equipment(document, location, slot) == Ok::<(bool, JsonView), ErrorView>((true, after)));
    lemma_with_character_reads(document, ci, c2);
    reveal_strlit("equipment");
    reveal_strlit("inventory");
    assert("equipment"@[0] != "inventory"@[0]);
    lemma_set_commutes(c, "equipment"@, JsonView::Object(e2), "inventory"@, JsonView::Array(new_rows));
    lemma_member_after_set(ca, "inventory"@, JsonView::Array(new_rows), "inventory"@);
    lemma_member_after_set(ca, "inventory"@, JsonView::Array(new_rows), "equipment"@);
    lemma_member_after_set(c, "equipment"@, JsonView::Object(e2), "equipment"@);
    lemma_member_after_set(e, slot, rows[ii], slot);
    assert(inventory_rows(c2) == new_rows);
    lemma_inventory_finds_character(after, ci);
    let e3 = set_member(e2, slot, new_rows[ii]);
    lemma_set_twice(e, slot, rows[ii], p);
    lemma_set_same(e, slot);
    assert(e3 == e);
    assert(new_rows.update(ii, rows[ii]) =~= rows);
    let c3 = set_member(set_member(c2, "equipment"@, JsonView::Object(e3)), "inventory"@, JsonView::Array(rows));
    lemma_set_commutes(ca, "inventory"@, JsonView::Array(new_rows), "equipment"@, JsonView::Object(e));
    lemma_set_twice(c, "equipment"@, JsonView::Object(e2), JsonView::Object(e));
    lemma_set_same(c, "equipment"@);
    lemma_set_twice(c, "inventory"@, JsonView::Array(new_rows), JsonView::Array(rows));
    lemma_set_same(c, "inventory"@);
    assert(c3 == c);
    lemma_with_character_twice(document, ci, c2, c);
    lemma_with_character_same(document, ci);
}

/// Reading the first `k` rows is not changed by a row added after them.
proof fn lemma_inventory_rows_prefix(rows: Seq<JsonView>, x: JsonView, ci: int, k: int)
    requires
        0 <= k <= rows.len(),
    ensures
        spec_inventory_rows(rows.push(x), ci, k) == spec_inventory_rows(rows, ci, k),
    decreases k,
{
    if k > 0 {
        lemma_inventory_rows_prefix(rows, x, ci, k - 1);
        assert(rows.push(x)[k - 1] == rows[k - 1]);
    }
}

/// The row that adding an item writes reads back as that item, with native plugs and no
/// flags.
proof fn lemma_new_inventory_row_reads(soid: u64, item: NewInventoryItem, ci: int, index: int)
    requires
        soid != 0,
        item.definition_hash != NO_DEFINITION_HASH,
        item.level >= 0,
        item.quantity > 0,
        0 <= ci <= usize::MAX,
        0 <= index <= usize::MAX,
    ensures
        spec_inventory_item(new_inventory_row(soid, item), ci, index) == Ok::<ItemView, ErrorView>(
            ItemView {
                location: InventoryItemLocation { character_index: ci as usize, item_index: index as usize },
                instance_soid: soid,
                definition_hash: item.definition_hash,
                level: item.level,
                quantity: item.quantity,
                plugs: PlugsView::NativeDefaults,
                flags: None,
            },
        ),
{
    let o = new_inventory_row(soid, item)->Object_0;
    reveal_strlit("definition_hash");
    reveal_strlit("instance_soid");
    reveal_strlit("level");
    reveal_strlit("plugs");
    reveal_strlit("quantity");
    reveal_strlit("flags");
    assert("definition_hash"@[0] != "instance_soid"@[0]);
    assert("level"@[0] != "plugs"@[0]);
    assert("level"@[0] != "flags"@[0]);
    assert("plugs"@[0] != "flags"@[0]);
    crate::json::lemma_member_of_first(o, "definition_hash"@, 0);
    crate::json::lemma_member_of_first(o, "instance_soid"@, 1);
    crate::json::lemma_member_of_first(o, "level"@, 2);
    crate::json::lemma_member_of_first(o, "plugs"@, 3);
    crate::json::lemma_member_of_first(o, "quantity"@, 4);
    crate::json::lemma_member_absent(o, "flags"@);
    crate::inventory::law_definition_hash_text_reads_back(item.definition_hash);
    crate::inventory::law_instance_soid_text_reads_back(soid);
}

/// After an item is added to a character's inventory, reading that inventory gives the
/// items read before with the new item at the end, at the location the addition returned,
/// with its fresh SOID, native plugs and no flags.
pub proof fn law_added_inventory_item_reads_back(document: JsonView, ci: int, item: NewInventoryItem)
    requires
        0 <= ci <= usize::MAX,
        spec_add_inventory_item(document, ci, item) is Ok,
    ensures
        ({
            let (location, after) = spec_add_inventory_item(document, ci, item)->Ok_0;
            let before = match spec_character_inventory(document, ci) {
                Ok(Some(items)) => items,
                _ => Seq::empty(),
            };
            &&& location == InventoryItemLocation { character_index: ci as usize, item_index: before.len() as usize }
            &&& spec_character_inventory(after, ci) matches Ok(Some(items)) && items == before.push(
                ItemView {
                    location,
                    instance_soid: spec_allocate_soid(document)->Ok_0,
                    definition_hash: item.definition_hash,
                    level: item.level,
                    quantity: item.quantity,
                    plugs: PlugsView::NativeDefaults,
                    flags: None,
                },
            )
        }),
{
    let (location, after) = spec_add_inventory_item(document, ci, item)->Ok_0;
    let mode = spec_schema_mode(document_version(document));
    lemma_inventory_finds_character(document, ci);
    let c = spec_character(document, ci)->Ok_0;
    let rows = inventory_rows(c);
    let before = match spec_character_inventory(document, ci) {
        Ok(Some(items)) => items,
        _ => Seq::<ItemView>::empty(),
    };
    if let Some(JsonView::Array(r)) = member(c, "inventory"@) {
        lemma_rows_len(r, ci, r.len() as int);
    }
    assert(before.len() == rows.len());
    let soid = spec_allocate_soid(document)->Ok_0;
    crate::soids::lemma_allocated_soid_nonzero(document);
    let new_row = new_inventory_row(soid, item);
    let c2 = set_member(c, "inventory"@, JsonView::Array(rows.push(new_row)));
    assert(after == with_character(document, ci, c2));
    lemma_with_character_reads(document, ci, c2);
    crate::json::lemma_member_after_set(c, "inventory"@, JsonView::Array(rows.push(new_row)), "inventory"@);
    lemma_inventory_rows_prefix(rows, new_row, ci, rows.len() as int);
    assert(rows.push(new_row).drop_last() =~= rows);
    lemma_new_inventory_row_reads(soid, item, ci, rows.len() as int);
    assert(spec_inventory_rows(rows.push(new_row), ci, rows.len() as int + 1) == Ok::<Seq<ItemView>, ErrorView>(
        before.push(
            ItemView {
                location,
                instance_soid: soid,
                definition_hash: item.definition_hash,
                level: item.level,
                quantity: item.quantity,
                plugs: PlugsView::NativeDefaults,
                flags: None,
            },
        ),
    ));
}

/// Unequipping an item into an existing inventory, and then equipping the row it became
/// back into the emptied slot, gives back the document as it was.
pub proof fn law_unequip_then_equip_restores(document: JsonView, ci: int, slot: Seq<char>)
    requires
        0 <= ci <= usize::MAX,
        spec_move_to_inventory(document, ci, slot) is Ok,
        spec_character_inventory(document, ci) matches Ok(Some(_)),
    ensures
        ({
            let after = spec_move_to_inventory(document, ci, slot)->Ok_0;
            let n = spec_character_inventory(document, ci)->Ok_0->0.len();
            spec_swap_with_equipment(
                after,
                InventoryItemLocation { character_index: ci as usize, item_index: n as usize },
                slot,
            ) == Ok::<(bool, JsonView), ErrorView>((false, document))
        }),
{
    let after = spec_move_to_inventory(document, ci, slot)->Ok_0;
    let items = spec_character_inventory(document, ci)->Ok_0->0;
    let n = items.len();
    let location = InventoryItemLocation { character_index: ci as usize, item_index: n as usize };
    lemma_inventory_finds_character(document, ci);
    let c = spec_character(document, ci)->Ok_0;
    let rows = inventory_rows(c);
    assert(rows.len() == n);
    let e = member(c, "equipment"@)->0->Object_0;
    let item = member(e, slot)->0;
    let e2 = set_member(e, slot, JsonView::Null);
    let rows2 = rows.push(item);
    let ca = set_member(c, "equipment"@, JsonView::Object(e2));
    let c2 = set_member(ca, "inventory"@, JsonView::Array(rows2));
    assert(after == with_character(document, ci, c2));
    lemma_with_character_reads(document, ci, c2);
    reveal_strlit("equipment");
    reveal_strlit("inventory");
    assert("equipment"@[0] != "inventory"@[0]);
    lemma_set_commutes(c, "equipment"@, JsonView::Object(e2), "inventory"@, JsonView::Array(rows2));
    lemma_member_after_set(ca, "inventory"@, JsonView::Array(rows2), "inventory"@);
    lemma_member_after_set(ca, "inventory"@, JsonView::Array(rows2), "equipment"@);
    lemma_member_after_set(c, "equipment"@, JsonView::Object(e2), "equipment"@);
    lemma_member_after_set(e, slot, JsonView::Null, slot);
    lemma_inventory_finds_character(after, ci);
    assert(rows2.remove(n as int) =~= rows);
    let e3 = set_member(e2, slot, rows2[n as int]);
    lemma_set_twice(e, slot, JsonView::Null, item);
    lemma_set_same(e, slot);
    assert(e3 == e);
    let c3 = set_member(set_member(c2, "equipment"@, JsonView::Object(e3)), "inventory"@, JsonView::Array(rows));
    lemma_set_commutes(ca, "inventory"@, JsonView::Array(rows2), "equipment"@, JsonView::Object(e));
    lemma_set_twice(c, "equipment"@, JsonView::Object(e2), JsonView::Object(e));
    lemma_set_same(c, "equipment"@);
    lemma_set_twice(c, "inventory"@, JsonView::Array(rows2), JsonView::Array(rows));
    lemma_set_same(c, "inventory"@);
    assert(c3 == c);
    lemma_with_character_twice(document, ci, c2, c);
    lemma_with_character_same(document, ci);
}

/// A row's reading after an edit of one of its members.
pub open spec fn edited_item(s: ItemView, action: InventoryItemAction) -> ItemView {
    match action {
        InventoryItemAction::SetDefinitionHash(h) => ItemView { definition_hash: h, ..s },
        InventoryItemAction::SetLevel(l) => ItemView { level: l, ..s },
        InventoryItemAction::SetQuantity(q) => ItemView { quantity: q, ..s },
        InventoryItemAction::SetPlugs(p) => ItemView { plugs: p.plugs_view(), ..s },
        InventoryItemAction::SetFlags(f) => ItemView { flags: f, ..s },
        InventoryItemAction::Remove => s,
    }
}

proof fn lemma_no_sentinel_plug(p: Seq<Option<u32>>, k: int)
    requires
        0 <= k,
        crate::inventory::first_sentinel_plug(p, k) is None,
    ensures
        forall|j: int| k <= j < p.len() ==> p[j] != Some(NO_DEFINITION_HASH),
    decreases p.len() - k,
{
    if k < p.len() {
        lemma_no_sentinel_plug(p, k + 1);
    }
}

/// Authored plugs written as JSON read back as the same plugs.
proof fn lemma_plug_entries_read_back(p: Seq<Option<u32>>, path: Seq<char>, n: int)
    requires
        0 <= n <= p.len(),
        forall|j: int| 0 <= j < p.len() ==> p[j] != Some(NO_DEFINITION_HASH),
    ensures
        spec_plug_entries(plugs_json(PlugsView::Authored(p))->Array_0, path, n) == Ok::<Seq<Option<u32>>, ErrorView>(p.take(n)),
    decreases n,
{
    let a = plugs_json(PlugsView::Authored(p))->Array_0;
    if n > 0 {
        lemma_plug_entries_read_back(p, path, n - 1);
        if let Some(h) = p[n - 1] {
            crate::inventory::law_definition_hash_text_reads_back(h);
        }
        assert(spec_plug_entry(a[n - 1], path + "/"@ + decimal((n - 1) as nat)) == Ok::<Option<u32>, ErrorView>(p[n - 1]));
        assert(p.take(n) =~= p.take(n - 1).push(p[n - 1]));
    } else {
        assert(p.take(0) =~= Seq::<Option<u32>>::empty());
    }
}

/// An edited row reads back as the row read before with the edited member changed.
proof fn lemma_edited_item_reads(row: JsonView, ci: int, ii: int, action: InventoryItemAction)
    requires
        spec_inventory_item(row, ci, ii) is Ok,
        !(action is Remove),
        action != InventoryItemAction::SetFlags(None),
        inventory_action_check(InventoryItemLocation { character_index: ci as usize, item_index: ii as usize }, action) is None,
    ensures
        spec_inventory_item(edited_inventory_row(row, action), ci, ii) == Ok::<ItemView, ErrorView>(
            edited_item(spec_inventory_item(row, ci, ii)->Ok_0, action),
        ),
{
    let o = row->Object_0;
    reveal_strlit("instance_soid");
    reveal_strlit("definition_hash");
    reveal_strlit("level");
    reveal_strlit("quantity");
    reveal_strlit("plugs");
    reveal_strlit("flags");
    let keys = seq!["instance_soid"@, "definition_hash"@, "level"@, "quantity"@, "plugs"@, "flags"@];
    assert("level"@[0] != "plugs"@[0] && "level"@[0] != "flags"@[0] && "plugs"@[0] != "flags"@[0]);
    match action {
        InventoryItemAction::SetDefinitionHash(h) => {
            let v = JsonView::Str(definition_hash_text(h));
            crate::inventory::law_definition_hash_text_reads_back(h);
            assert forall|j: int| 0 <= j < keys.len() && keys[j] != "definition_hash"@ implies member(
                set_member(o, "definition_hash"@, v),
                #[trigger] keys[j],
            ) == member(o, keys[j]) by {
                lemma_member_after_set(o, "definition_hash"@, v, keys[j]);
            }
            lemma_member_after_set(o, "definition_hash"@, v, "definition_hash"@);
            assert(keys[0] == "instance_soid"@ && keys[2] == "level"@ && keys[3] == "quantity"@ && keys[4] == "plugs"@ && keys[5] == "flags"@);
        },
        InventoryItemAction::SetLevel(l) => {
            let v = int_view(l);
            assert forall|j: int| 0 <= j < keys.len() && keys[j] != "level"@ implies member(
                set_member(o, "level"@, v),
                #[trigger] keys[j],
            ) == member(o, keys[j]) by {
                lemma_member_after_set(o, "level"@, v, keys[j]);
            }
            lemma_member_after_set(o, "level"@, v, "level"@);
            assert(keys[0] == "instance_soid"@ && keys[1] == "definition_hash"@ && keys[3] == "quantity"@ && keys[4] == "plugs"@ && keys[5] == "flags"@);
        },
        InventoryItemAction::SetQuantity(q) => {
            let v = int_view(q);
            assert forall|j: int| 0 <= j < keys.len() && keys[j] != "quantity"@ implies member(
                set_member(o, "quantity"@, v),
                #[trigger] keys[j],
            ) == member(o, keys[j]) by {
                lemma_member_after_set(o, "quantity"@, v, keys[j]);
            }
            lemma_member_after_set(o, "quantity"@, v, "quantity"@);
            assert(keys[0] == "instance_soid"@ && keys[1] == "definition_hash"@ && keys[2] == "level"@ && keys[4] == "plugs"@ && keys[5] == "flags"@);
        },
        InventoryItemAction::SetPlugs(pl) => {
            let v = plugs_json(pl.plugs_view());
            assert forall|j: int| 0 <= j < keys.len() && keys[j] != "plugs"@ implies member(
                set_member(o, "plugs"@, v),
                #[trigger] keys[j],
            ) == member(o, keys[j]) by {
                lemma_member_after_set(o, "plugs"@, v, keys[j]);
            }
            lemma_member_after_set(o, "plugs"@, v, "plugs"@);
            assert(keys[0] == "instance_soid"@ && keys[1] == "definition_hash"@ && keys[2] == "level"@ && keys[3] == "quantity"@ && keys[5] == "flags"@);
            let location = InventoryItemLocation { character_index: ci as usize, item_index: ii as usize };
            let path = item_path(location) + "/"@ + "plugs"@;
            if let ItemPlugs::Authored(list) = pl {
                lemma_no_sentinel_plug(list@, 0);
                lemma_plug_entries_read_back(list@, path, list@.len() as int);
                assert(list@.take(list@.len() as int) =~= list@);
            }
        },
        InventoryItemAction::SetFlags(f) => {
            let fv = f->0;
            let v = JsonView::Number(NumberView::PosInt(fv as u64));
            assert forall|j: int| 0 <= j < keys.len() && keys[j] != "flags"@ implies member(
                set_member(o, "flags"@, v),
                #[trigger] keys[j],
            ) == member(o, keys[j]) by {
                lemma_member_after_set(o, "flags"@, v, keys[j]);
            }
            lemma_member_after_set(o, "flags"@, v, "flags"@);
            assert(keys[0] == "instance_soid"@ && keys[1] == "definition_hash"@ && keys[2] == "level"@ && keys[3] == "quantity"@ && keys[4] == "plugs"@);
        },
        InventoryItemAction::Remove => {},
    }
}

/// A prefix of rows that read reads too.
proof fn lemma_inventory_rows_prefix_ok(rows: Seq<JsonView>, ci: int, k: int, n: int)
    requires
        0 <= k <= n <= rows.len(),
        spec_inventory_rows(rows, ci, n) is Ok,
    ensures
        spec_inventory_rows(rows, ci, k) is Ok,
        spec_inventory_rows(rows, ci, k)->Ok_0 == spec_inventory_rows(rows, ci, n)->Ok_0.take(k),
    decreases n - k,
{
    lemma_rows_len(rows, ci, n);
    if k < n {
        lemma_inventory_rows_prefix_ok(rows, ci, k, n - 1);
        lemma_rows_len(rows, ci, n - 1);
        let prev = spec_inventory_rows(rows, ci, n - 1)->Ok_0;
        let all = spec_inventory_rows(rows, ci, n)->Ok_0;
        assert(all == prev.push(spec_inventory_item(rows[n - 1], ci, n - 1)->Ok_0));
        assert(all.take(k) =~= prev.take(k));
    } else {
        assert(spec_inventory_rows(rows, ci, n)->Ok_0.take(n) =~= spec_inventory_rows(rows, ci, n)->Ok_0);
    }
}

/// When all rows read, row `i` reads as the `i`-th item.
proof fn lemma_inventory_row_of_rows(rows: Seq<JsonView>, ci: int, i: int)
    requires
        0 <= i < rows.len(),
        spec_inventory_rows(rows, ci, rows.len() as int) is Ok,
    ensures
        spec_inventory_item(rows[i], ci, i) == Ok::<ItemView, ErrorView>(spec_inventory_rows(rows, ci, rows.len() as int)->Ok_0[i]),
{
    lemma_inventory_rows_prefix_ok(rows, ci, i + 1, rows.len() as int);
    lemma_inventory_rows_prefix_ok(rows, ci, i, rows.len() as int);
    lemma_rows_len(rows, ci, i);
    lemma_rows_len(rows, ci, rows.len() as int);
    let prev = spec_inventory_rows(rows, ci, i)->Ok_0;
    let upto = spec_inventory_rows(rows, ci, i + 1)->Ok_0;
    assert(spec_inventory_item(rows[i], ci, i) is Ok);
    assert(upto == prev.push(spec_inventory_item(rows[i], ci, i)->Ok_0));
    assert(upto[i] == spec_inventory_item(rows[i], ci, i)->Ok_0);
    assert(spec_inventory_rows(rows, ci, rows.len() as int)->Ok_0.take(i + 1)[i] == spec_inventory_rows(
        rows,
        ci,
        rows.len() as int,
    )->Ok_0[i]);
}

/// Reading rows after one of them is replaced: the same items, with the replaced row's
/// item in its place.
proof fn lemma_inventory_rows_update(rows: Seq<JsonView>, ci: int, i: int, row: JsonView, item: ItemView, n: int)
    requires
        0 <= i < rows.len(),
        0 <= n <= rows.len(),
        spec_inventory_rows(rows, ci, n) is Ok,
        spec_inventory_item(row, ci, i) == Ok::<ItemView, ErrorView>(item),
    ensures
        spec_inventory_rows(rows.update(i, row), ci, n) == Ok::<Seq<ItemView>, ErrorView>(
            if i < n {
                spec_inventory_rows(rows, ci, n)->Ok_0.update(i, item)
            } else {
                spec_inventory_rows(rows, ci, n)->Ok_0
            },
        ),
    decreases n,
{
    if n > 0 {
        lemma_inventory_rows_update(rows, ci, i, row, item, n - 1);
        lemma_rows_len(rows, ci, n - 1);
        let prev = spec_inventory_rows(rows, ci, n - 1)->Ok_0;
        let s = spec_inventory_item(rows[n - 1], ci, n - 1)->Ok_0;
        if n - 1 == i {
            assert(prev.push(item) =~= prev.push(s).update(i, item));
        } else if n - 1 > i {
            assert(rows.update(i, row)[n - 1] == rows[n - 1]);
            assert(prev.update(i, item).push(s) =~= prev.push(s).update(i, item));
        } else {
            assert(rows.update(i, row)[n - 1] == rows[n - 1]);
        }
    }
}

/// After a row's definition, level, quantity, plugs or flags are set, reading the
/// character's inventory gives the rows read before, with that row's edited member changed
/// and every other row as it was.
pub proof fn law_inventory_edit_reads_back(document: JsonView, location: InventoryItemLocation, action: InventoryItemAction)
    requires
        spec_apply_inventory_item_action(document, location, action) is Ok,
        !(action is Remove),
        action != InventoryItemAction::SetFlags(None),
    ensures
        ({
            let after = spec_apply_inventory_item_action(document, location, action)->Ok_0;
            let ci = location.character_index as int;
            let before = spec_character_inventory(document, ci)->Ok_0->0;
            let i = location.item_index as int;
            spec_character_inventory(after, ci) == Ok::<Option<Seq<ItemView>>, ErrorView>(
                Some(before.update(i, edited_item(before[i], action))),
            )
        }),
{
    let after = spec_apply_inventory_item_action(document, location, action)->Ok_0;
    let ci = location.character_index as int;
    let i = location.item_index as int;
    let before = spec_character_inventory(document, ci)->Ok_0->0;
    lemma_inventory_finds_character(document, ci);
    let c = spec_character(document, ci)->Ok_0;
    let rows = inventory_rows(c);
    assert(spec_inventory_rows(rows, ci, rows.len() as int) == Ok::<Seq<ItemView>, ErrorView>(before));
    lemma_rows_len(rows, ci, rows.len() as int);
    let edited = edited_inventory_row(rows[i], action);
    lemma_inventory_row_of_rows(rows, ci, i);
    lemma_edited_item_reads(rows[i], ci, i, action);
    lemma_inventory_rows_update(rows, ci, i, edited, edited_item(before[i], action), rows.len() as int);
    assert(edited_inventory_rows(rows, i, action) == rows.update(i, edited));
    let c2 = set_member(c, "inventory"@, JsonView::Array(rows.update(i, edited)));
    assert(after == with_character(document, ci, c2));
    lemma_with_character_reads(document, ci, c2);
    lemma_member_after_set(c, "inventory"@, JsonView::Array(rows.update(i, edited)), "inventory"@);
}

proof fn lemma_plug_entries_any_path(entries: Seq<JsonView>, p1: Seq<char>, p2: Seq<char>, n: int)
    requires
        spec_plug_entries(entries, p1, n) is Ok,
    ensures
        spec_plug_entries(entries, p2, n) == spec_plug_entries(entries, p1, n),
    decreases n,
{
    if n > 0 && n <= entries.len() {
        lemma_plug_entries_any_path(entries, p1, p2, n - 1);
    }
}

/// A row that reads at one position reads the same at another, numbered there.
proof fn lemma_item_reindex(v: JsonView, ci: int, j: int, k: int)
    requires
        spec_inventory_item(v, ci, j) is Ok,
    ensures
        spec_inventory_item(v, ci, k) == Ok::<ItemView, ErrorView>(
            ItemView {
                location: InventoryItemLocation { character_index: ci as usize, item_index: k as usize },
                ..spec_inventory_item(v, ci, j)->Ok_0
            },
        ),
{
    let o = v->Object_0;
    let pj = item_path(InventoryItemLocation { character_index: ci as usize, item_index: j as usize }) + "/"@ + "plugs"@;
    let pk = item_path(InventoryItemLocation { character_index: ci as usize, item_index: k as usize }) + "/"@ + "plugs"@;
    if let Some(JsonView::Array(a)) = member(o, "plugs"@) {
        if a.len() <= MAX_ITEM_PLUGS {
            if spec_plug_entries(a, pj, a.len() as int) is Ok {
                lemma_plug_entries_any_path(a, pj, pk, a.len() as int);
            }
        }
    }
}

/// Items numbered by their position.
pub open spec fn renumbered(items: Seq<ItemView>, ci: int) -> Seq<ItemView> {
    Seq::new(
        items.len(),
        |k: int| ItemView { location: InventoryItemLocation { character_index: ci as usize, item_index: k as usize }, ..items[k] },
    )
}

proof fn lemma_inventory_rows_remove(rows: Seq<JsonView>, ci: int, i: int, n: int)
    requires
        0 <= i < rows.len(),
        0 <= n < rows.len(),
        spec_inventory_rows(rows, ci, rows.len() as int) is Ok,
    ensures
        spec_inventory_rows(rows.remove(i), ci, n) == Ok::<Seq<ItemView>, ErrorView>(
            renumbered(spec_inventory_rows(rows, ci, rows.len() as int)->Ok_0.remove(i), ci).take(n),
        ),
    decreases n,
{
    let all = spec_inventory_rows(rows, ci, rows.len() as int)->Ok_0;
    lemma_rows_len(rows, ci, rows.len() as int);
    let target = renumbered(all.remove(i), ci);
    if n == 0 {
        assert(target.take(0) =~= Seq::<ItemView>::empty());
    } else {
        lemma_inventory_rows_remove(rows, ci, i, n - 1);
        let source = if n - 1 < i {
            n - 1
        } else {
            n
        };
        assert(rows.remove(i)[n - 1] == rows[source]);
        lemma_inventory_row_of_rows(rows, ci, source);
        lemma_item_reindex(rows[source], ci, source, n - 1);
        assert(target.take(n) =~= target.take(n - 1).push(target[n - 1]));
    }
}

/// After a row is removed, reading the character's inventory gives the other rows in their
/// order, each numbered by its new position.
pub proof fn law_inventory_remove_reads_back(document: JsonView, location: InventoryItemLocation)
    requires
        spec_apply_inventory_item_action(document, location, InventoryItemAction::Remove) is Ok,
    ensures
        ({
            let after = spec_apply_inventory_item_action(document, location, InventoryItemAction::Remove)->Ok_0;
            let ci = location.character_index as int;
            let before = spec_character_inventory(document, ci)->Ok_0->0;
            spec_character_inventory(after, ci) == Ok::<Option<Seq<ItemView>>, ErrorView>(
                Some(renumbered(before.remove(location.item_index as int), ci)),
            )
        }),
{
    let action = InventoryItemAction::Remove;
    let after = spec_apply_inventory_item_action(document, location, action)->Ok_0;
    let ci = location.character_index as int;
    let i = location.item_index as int;
    let before = spec_character_inventory(document, ci)->Ok_0->0;
    lemma_inventory_finds_character(document, ci);
    let c = spec_character(document, ci)->Ok_0;
    let rows = inventory_rows(c);
    assert(spec_inventory_rows(rows, ci, rows.len() as int) == Ok::<Seq<ItemView>, ErrorView>(before));
    lemma_rows_len(rows, ci, rows.len() as int);
    let remaining = rows.remove(i);
    lemma_inventory_rows_remove(rows, ci, i, remaining.len() as int);
    assert(renumbered(before.remove(i), ci).take(remaining.len() as int) =~= renumbered(before.remove(i), ci));
    assert(edited_inventory_rows(rows, i, action) == remaining);
    let c2 = set_member(c, "inventory"@, JsonView::Array(remaining));
    assert(after == with_character(document, ci, c2));
    lemma_with_character_reads(document, ci, c2);
    lemma_member_after_set(c, "inventory"@, JsonView::Array(remaining), "inventory"@);
}

} // verus!
