//! Schema rules and checks for authored items: which settings schema allows which edits,
//! item flags, and validation of requested item edits with the errors they report.
use vstd::prelude::*;
use crate::json::{as_u64, get, get_member, value_as_u64, JsonValue, JsonView};
use crate::text::{decimal, hex_digits, owned, push_decimal, push_hex, push_str};

verus! {

/// Oldest settings schema that Sundial edits.
pub const MIN_SUPPORTED_SCHEMA: u64 = 2;
/// Newest settings schema that Sundial edits.
pub const MAX_SUPPORTED_SCHEMA: u64 = 6;
/// Profile item rows allowed by schema 3 and older.
pub const LEGACY_PROFILE_ITEM_CAPACITY: usize = 32;
/// Profile item rows allowed by schema 4 and newer.
pub const PROFILE_ITEM_CAPACITY: usize = 701;
/// Rows a character inventory holds.
pub const CHARACTER_INVENTORY_CAPACITY: usize = 135;
/// Most plug entries an item carries.
pub const MAX_ITEM_PLUGS: usize = 12;
/// The schema that introduced character inventories.
pub const INVENTORY_SCHEMA_VERSION: u64 = 6;
/// The schema that introduced equipment flags.
pub const EQUIPMENT_FLAGS_SCHEMA_VERSION: u64 = 4;
/// The schema that introduced dismantle rewards.
pub const DISMANTLE_REWARDS_SCHEMA_VERSION: u64 = 5;
/// First instance SOID that Sundial hands out.
pub const GENERATED_INSTANCE_SOID_START: u64 = 0x4000_0000_0000_0001;
pub const INVENTORY_FLAG_LOCKED: u8 = 1;
pub const INVENTORY_FLAG_TRACKED: u8 = 2;
pub const INVENTORY_FLAG_MASTERWORK: u8 = 4;
/// Every flag Sunrise knows.
pub const INVENTORY_FLAG_MASK: u8 = 7;
/// The engine's "no definition" hash, never a valid authored hash.
pub const NO_DEFINITION_HASH: u32 = 0x811C_9DC5;

// ---------------------------------------------------------------------------------------
// Flags
// ---------------------------------------------------------------------------------------

/// `flags` with `flag` set or cleared; no flags at all is `None`.
pub open spec fn spec_set_flag(flags: Option<u8>, flag: u8, enabled: bool) -> Option<u8> {
    let base: u8 = match flags {
        Some(f) => f,
        None => 0,
    };
    let next: u8 = if enabled {
        base | flag
    } else {
        base & !flag
    };
    if next != 0 {
        Some(next)
    } else {
        None
    }
}

/// Sets or clears one flag, leaving the others as they were.
pub fn set_inventory_flag(flags: Option<u8>, flag: u8, enabled: bool) -> (r: Option<u8>)
    ensures
        r == spec_set_flag(flags, flag, enabled),
{
    let mut value: u8 = match flags {
        Some(f) => f,
        None => 0,
    };
    if enabled {
        value = value | flag;
    } else {
        value = value & !flag;
    }
    if value != 0 {
        Some(value)
    } else {
        None
    }
}

pub fn set_inventory_locked_flag(flags: Option<u8>, locked: bool) -> (r: Option<u8>)
    ensures
        r == spec_set_flag(flags, INVENTORY_FLAG_LOCKED, locked),
{
    set_inventory_flag(flags, INVENTORY_FLAG_LOCKED, locked)
}

pub fn set_inventory_masterwork_flag(flags: Option<u8>, masterworked: bool) -> (r: Option<u8>)
    ensures
        r == spec_set_flag(flags, INVENTORY_FLAG_MASTERWORK, masterworked),
{
    set_inventory_flag(flags, INVENTORY_FLAG_MASTERWORK, masterworked)
}

/// The masterwork flag is set.
pub fn inventory_masterwork_feature_present(flags: Option<u8>) -> (r: bool)
    ensures
        r == match flags {
            Some(f) => f & INVENTORY_FLAG_MASTERWORK != 0,
            None => false,
        },
{
    match flags {
        Some(f) => f & INVENTORY_FLAG_MASTERWORK != 0,
        None => false,
    }
}

/// Setting one flag and then clearing it again gives the flags back, when that flag was not
/// set to begin with and the item had some other flag.
pub proof fn law_flag_set_then_clear(flags: u8, flag: u8)
    requires
        flags & flag == 0,
        flags != 0,
    ensures
        spec_set_flag(spec_set_flag(Some(flags), flag, true), flag, false) == Some(flags),
{
    assert((flags | flag) & !flag == flags) by (bit_vector)
        requires
            flags & flag == 0,
    ;
    assert((flags | flag) != 0) by (bit_vector)
        requires
            flags != 0,
    ;
}

/// Setting or clearing one flag never changes any other flag.
pub proof fn law_flag_edit_keeps_other_flags(flags: Option<u8>, flag: u8, enabled: bool, other: u8)
    requires
        flag & other == 0,
    ensures
        ({
            let before: u8 = match flags {
                Some(f) => f,
                None => 0,
            };
            let after: u8 = match spec_set_flag(flags, flag, enabled) {
                Some(f) => f,
                None => 0,
            };
            after & other == before & other
        }),
{
    let before: u8 = match flags {
        Some(f) => f,
        None => 0,
    };
    assert((before | flag) & other == before & other) by (bit_vector)
        requires
            flag & other == 0,
    ;
    assert((before & !flag) & other == before & other) by (bit_vector)
        requires
            flag & other == 0,
    ;
    assert(0u8 & other == 0) by (bit_vector);
}

// ---------------------------------------------------------------------------------------
// Schema modes
// ---------------------------------------------------------------------------------------

/// What a settings document's schema version allows.
#[derive(Clone, Copy, Debug, PartialEq, Eq, Structural)]
pub enum SchemaMode {
    MissingOrInvalid,
    Unsupported(u64),
    PreInventory(u64),
    InventoryV6,
    Future(u64),
}

/// The mode of a document whose `version` member reads as `version` (an unsigned integer),
/// or has none.
pub open spec fn spec_schema_mode(version: Option<u64>) -> SchemaMode {
    match version {
        None => SchemaMode::MissingOrInvalid,
        Some(v) => if v == INVENTORY_SCHEMA_VERSION {
            SchemaMode::InventoryV6
        } else if v > MAX_SUPPORTED_SCHEMA {
            SchemaMode::Future(v)
        } else if v >= MIN_SUPPORTED_SCHEMA {
            SchemaMode::PreInventory(v)
        } else {
            SchemaMode::Unsupported(v)
        },
    }
}

/// The schema version a document declares: its `version` member, when that is an unsigned
/// integer.
pub open spec fn document_version(document: JsonView) -> Option<u64> {
    match get(document, "version"@) {
        Some(v) => as_u64(v),
        None => None,
    }
}

/// What a document's schema allows.
pub fn schema_mode(document: &JsonValue) -> (mode: SchemaMode)
    ensures
        mode == spec_schema_mode(document_version(document.deep())),
{
    let version = match get_member(document, "version") {
        Some(v) => value_as_u64(v),
        None => None,
    };
    schema_mode_for_version(version)
}

/// The mode for a document's schema version.
pub fn schema_mode_for_version(version: Option<u64>) -> (mode: SchemaMode)
    ensures
        mode == spec_schema_mode(version),
{
    match version {
        None => SchemaMode::MissingOrInvalid,
        Some(v) => if v == INVENTORY_SCHEMA_VERSION {
            SchemaMode::InventoryV6
        } else if v > MAX_SUPPORTED_SCHEMA {
            SchemaMode::Future(v)
        } else if v >= MIN_SUPPORTED_SCHEMA {
            SchemaMode::PreInventory(v)
        } else {
            SchemaMode::Unsupported(v)
        },
    }
}

/// Profile item rows allowed by a schema.
pub open spec fn spec_profile_item_capacity(schema_version: u64) -> usize {
    if schema_version <= 3 {
        LEGACY_PROFILE_ITEM_CAPACITY
    } else {
        PROFILE_ITEM_CAPACITY
    }
}

pub fn profile_item_capacity(schema_version: u64) -> (capacity: usize)
    ensures
        capacity == spec_profile_item_capacity(schema_version),
{
    if schema_version <= 3 {
        LEGACY_PROFILE_ITEM_CAPACITY
    } else {
        PROFILE_ITEM_CAPACITY
    }
}

impl SchemaMode {
    pub open spec fn spec_version(self) -> Option<u64> {
        match self {
            SchemaMode::MissingOrInvalid => None,
            SchemaMode::Unsupported(v) => Some(v),
            SchemaMode::PreInventory(v) => Some(v),
            SchemaMode::Future(v) => Some(v),
            SchemaMode::InventoryV6 => Some(INVENTORY_SCHEMA_VERSION),
        }
    }

    /// The schema version, if the document has a valid one.
    pub fn version(self) -> (v: Option<u64>)
        ensures
            v == self.spec_version(),
    {
        match self {
            SchemaMode::MissingOrInvalid => None,
            SchemaMode::Unsupported(v) => Some(v),
            SchemaMode::PreInventory(v) => Some(v),
            SchemaMode::Future(v) => Some(v),
            SchemaMode::InventoryV6 => Some(INVENTORY_SCHEMA_VERSION),
        }
    }

    /// Documents without a valid, supported schema are read-only.
    pub fn is_read_only(self) -> (r: bool)
        ensures
            r == (self is MissingOrInvalid || self is Unsupported || self is Future),
    {
        match self {
            SchemaMode::MissingOrInvalid | SchemaMode::Unsupported(_) | SchemaMode::Future(_) => true,
            _ => false,
        }
    }

    pub fn can_mutate_profile_items(self) -> (r: bool)
        ensures
            r == (self is PreInventory || self is InventoryV6),
    {
        match self {
            SchemaMode::PreInventory(_) | SchemaMode::InventoryV6 => true,
            _ => false,
        }
    }

    pub fn can_mutate_character_inventory(self) -> (r: bool)
        ensures
            r == (self is InventoryV6),
    {
        match self {
            SchemaMode::InventoryV6 => true,
            _ => false,
        }
    }

    pub fn can_mutate_equipment(self) -> (r: bool)
        ensures
            r == (self is PreInventory || self is InventoryV6),
    {
        match self {
            SchemaMode::PreInventory(_) | SchemaMode::InventoryV6 => true,
            _ => false,
        }
    }

    /// Equipment flags exist from their schema on, also in schemas newer than supported.
    pub fn supports_equipment_flags(self) -> (r: bool)
        ensures
            r == match self.spec_version() {
                Some(v) => v >= EQUIPMENT_FLAGS_SCHEMA_VERSION,
                None => false,
            },
    {
        match self.version() {
            Some(v) => v >= EQUIPMENT_FLAGS_SCHEMA_VERSION,
            None => false,
        }
    }

    pub fn can_mutate_equipment_flags(self) -> (r: bool)
        ensures
            r == ((self is PreInventory || self is InventoryV6) && match self.spec_version() {
                Some(v) => v >= EQUIPMENT_FLAGS_SCHEMA_VERSION,
                None => false,
            }),
    {
        self.can_mutate_equipment() && self.supports_equipment_flags()
    }

    pub fn supports_dismantle_rewards(self) -> (r: bool)
        ensures
            r == match self.spec_version() {
                Some(v) => v >= DISMANTLE_REWARDS_SCHEMA_VERSION,
                None => false,
            },
    {
        match self.version() {
            Some(v) => v >= DISMANTLE_REWARDS_SCHEMA_VERSION,
            None => false,
        }
    }

    /// Profile item rows the schema allows, for the schemas Sundial edits.
    pub fn profile_item_capacity(self) -> (capacity: Option<usize>)
        ensures
            capacity == match self {
                SchemaMode::PreInventory(v) => Some(spec_profile_item_capacity(v)),
                SchemaMode::InventoryV6 => Some(PROFILE_ITEM_CAPACITY),
                _ => None,
            },
    {
        match self {
            SchemaMode::PreInventory(v) => Some(profile_item_capacity(v)),
            SchemaMode::InventoryV6 => Some(PROFILE_ITEM_CAPACITY),
            _ => None,
        }
    }

    /// Every schema but a future one has its character inventories held to their capacity.
    pub fn enforces_character_inventory_capacity(self) -> (r: bool)
        ensures
            r == !(self is Future),
    {
        match self {
            SchemaMode::Future(_) => false,
            _ => true,
        }
    }
}

/// Why the equipment editor refuses edits under a schema: nothing when the schema lets
/// equipment be edited.
pub fn equipment_edit_refusal(mode: SchemaMode) -> (refusal: Option<String>)
    ensures
        match refusal {
            None => mode is PreInventory || mode is InventoryV6,
            Some(t) => !(mode is PreInventory || mode is InventoryV6) && t@ == "Equipment editing is disabled for this settings schema"@,
        },
{
    if mode.can_mutate_equipment() {
        None
    } else {
        Some(owned("Equipment editing is disabled for this settings schema"))
    }
}

/// The schema is writable and has equipment flags.
pub open spec fn equipment_flags_writable(mode: SchemaMode) -> bool {
    (mode is PreInventory || mode is InventoryV6) && match mode.spec_version() {
        Some(v) => v >= EQUIPMENT_FLAGS_SCHEMA_VERSION,
        None => false,
    }
}

/// Why the equipment editor refuses lock-state edits under a schema: nothing when the schema
/// is writable and has equipment flags.
pub fn equipment_flags_edit_refusal(mode: SchemaMode) -> (refusal: Option<String>)
    ensures
        match refusal {
            None => equipment_flags_writable(mode),
            Some(t) => !equipment_flags_writable(mode) && t@ == "Equipment lock-state editing requires a writable settings schema "@
                + decimal(EQUIPMENT_FLAGS_SCHEMA_VERSION as nat) + " or newer"@,
        },
{
    if mode.can_mutate_equipment_flags() {
        None
    } else {
        let mut t = owned("Equipment lock-state editing requires a writable settings schema ");
        push_decimal(&mut t, EQUIPMENT_FLAGS_SCHEMA_VERSION);
        push_str(&mut t, " or newer");
        Some(t)
    }
}

/// Modes that allow editing character inventories also allow every other edit.
pub proof fn law_inventory_mutation_implies_other_mutations(mode: SchemaMode)
    requires
        mode is InventoryV6,
    ensures
        mode is PreInventory || mode is InventoryV6,
        mode.spec_version() == Some(INVENTORY_SCHEMA_VERSION),
        INVENTORY_SCHEMA_VERSION >= EQUIPMENT_FLAGS_SCHEMA_VERSION,
        INVENTORY_SCHEMA_VERSION >= DISMANTLE_REWARDS_SCHEMA_VERSION,
{
}

/// A read-only mode never allows an edit, and an editable mode is never read-only.
pub proof fn law_read_only_modes_allow_no_edit(version: Option<u64>)
    ensures
        ({
            let mode = spec_schema_mode(version);
            let read_only = mode is MissingOrInvalid || mode is Unsupported || mode is Future;
            let editable = mode is PreInventory || mode is InventoryV6;
            read_only != editable
        }),
        spec_schema_mode(version).spec_version() == version,
{
}

// ---------------------------------------------------------------------------------------
// Errors
// ---------------------------------------------------------------------------------------

/// A refused item read or edit: the JSON pointer of the offending member (empty when it is
/// not about one member) and what is wrong there.
#[derive(Clone, Debug, PartialEq, Eq)]
pub struct InventoryError {
    path: String,
    message: String,
}

impl View for InventoryError {
    type V = (Seq<char>, Seq<char>);

    closed spec fn view(&self) -> (Seq<char>, Seq<char>) {
        (self.path@, self.message@)
    }
}

/// How an error reads: `path: message`, or the message alone when there is no path.
pub open spec fn error_text(e: (Seq<char>, Seq<char>)) -> Seq<char> {
    if e.0.len() == 0 {
        e.1
    } else {
        e.0 + seq![':', ' '] + e.1
    }
}

impl InventoryError {
    pub fn new(path: String, message: String) -> (e: InventoryError)
        ensures
            e@ == (path@, message@),
    {
        InventoryError { path, message }
    }

    pub fn path(&self) -> (p: &str)
        ensures
            p@ == self@.0,
    {
        self.path.as_str()
    }

    pub fn message(&self) -> (m: &str)
        ensures
            m@ == self@.1,
    {
        self.message.as_str()
    }

    /// The error as shown to the user.
    pub fn to_text(&self) -> (t: String)
        ensures
            t@ == error_text(self@),
    {
        if self.path.as_str().is_empty() {
            owned(self.message.as_str())
        } else {
            let mut t = owned(self.path.as_str());
            push_str(&mut t, ": ");
            push_str(&mut t, self.message.as_str());
            proof {
                reveal_strlit(": ");
            }
            t
        }
    }
}

/// What a schema-version error names: the version field.
pub open spec fn version_path() -> Seq<char> {
    seq!['/', 'v', 'e', 'r', 's', 'i', 'o', 'n']
}

/// The message of the error refusing an edit of `section` in a read-only mode.
pub open spec fn read_only_message(mode: SchemaMode, section: Seq<char>) -> Seq<char> {
    match mode {
        SchemaMode::Future(v) => "settings schema "@ + decimal(v as nat) + " is newer than supported schema "@
            + decimal(MAX_SUPPORTED_SCHEMA as nat) + "; "@ + section + " is read-only"@,
        SchemaMode::Unsupported(v) => "settings schema "@ + decimal(v as nat) + " predates supported schema "@
            + decimal(MIN_SUPPORTED_SCHEMA as nat) + "; "@ + section + " is read-only"@,
        SchemaMode::MissingOrInvalid => "settings schema version is missing or invalid; "@ + section
            + " is read-only"@,
        _ => section + " is read-only"@,
    }
}

/// The error that refuses an edit of `section` because of the document's schema.
pub fn read_only_schema_error(mode: SchemaMode, section: &str) -> (e: InventoryError)
    ensures
        e@ == (version_path(), read_only_message(mode, section@)),
{
    let path = owned("/version");
    proof {
        reveal_strlit("/version");
        assert(path@ =~= version_path());
    }
    let mut m = String::new();
    match mode {
        SchemaMode::Future(v) => {
            push_str(&mut m, "settings schema ");
            push_decimal(&mut m, v);
            push_str(&mut m, " is newer than supported schema ");
            push_decimal(&mut m, MAX_SUPPORTED_SCHEMA);
            push_str(&mut m, "; ");
            push_str(&mut m, section);
            push_str(&mut m, " is read-only");
        },
        SchemaMode::Unsupported(v) => {
            push_str(&mut m, "settings schema ");
            push_decimal(&mut m, v);
            push_str(&mut m, " predates supported schema ");
            push_decimal(&mut m, MIN_SUPPORTED_SCHEMA);
            push_str(&mut m, "; ");
            push_str(&mut m, section);
            push_str(&mut m, " is read-only");
        },
        SchemaMode::MissingOrInvalid => {
            push_str(&mut m, "settings schema version is missing or invalid; ");
            push_str(&mut m, section);
            push_str(&mut m, " is read-only");
        },
        _ => {
            push_str(&mut m, section);
            push_str(&mut m, " is read-only");
        },
    }
    proof {
        assert(m@ =~= read_only_message(mode, section@));
    }
    InventoryError::new(path, m)
}

// ---------------------------------------------------------------------------------------
// Items and requested edits
// ---------------------------------------------------------------------------------------

/// Where a character inventory row is: the character's index and the row's index.
#[derive(Clone, Copy, Debug, PartialEq, Eq, Structural)]
pub struct InventoryItemLocation {
    pub character_index: usize,
    pub item_index: usize,
}

/// The plugs of an item: the definition's native defaults, or authored entries (an empty
/// entry stays empty).
#[derive(Clone, Debug, PartialEq, Eq)]
pub enum ItemPlugs {
    NativeDefaults,
    Authored(Vec<Option<u32>>),
}

/// A requested edit of a character inventory row.
#[derive(Clone, Debug, PartialEq, Eq)]
pub enum InventoryItemAction {
    SetDefinitionHash(u32),
    SetLevel(i32),
    SetQuantity(i32),
    SetPlugs(ItemPlugs),
    SetFlags(Option<u8>),
    Remove,
}

/// An item to add: its definition, level and quantity.
#[derive(Clone, Copy, Debug, PartialEq, Eq, Structural)]
pub struct NewInventoryItem {
    pub definition_hash: u32,
    pub level: i32,
    pub quantity: i32,
}

impl NewInventoryItem {
    /// One item of the given definition and level.
    pub fn single(definition_hash: u32, level: i32) -> (item: NewInventoryItem)
        ensures
            item == (NewInventoryItem { definition_hash, level, quantity: 1 }),
    {
        NewInventoryItem { definition_hash, level, quantity: 1 }
    }
}

/// `0x` and eight uppercase hex digits.
pub open spec fn definition_hash_text(hash: u32) -> Seq<char> {
    seq!['0', 'x'] + hex_digits(hash as nat, 8)
}

/// `0x` and sixteen uppercase hex digits.
pub open spec fn instance_soid_text(soid: u64) -> Seq<char> {
    seq!['0', 'x'] + hex_digits(soid as nat, 16)
}

pub fn format_definition_hash(hash: u32) -> (text: String)
    ensures
        text@ == definition_hash_text(hash),
{
    let mut text = owned("0x");
    proof {
        reveal_strlit("0x");
    }
    push_hex(&mut text, hash as u64, 8);
    text
}

pub fn format_instance_soid(soid: u64) -> (text: String)
    ensures
        text@ == instance_soid_text(soid),
{
    let mut text = owned("0x");
    proof {
        reveal_strlit("0x");
    }
    push_hex(&mut text, soid, 16);
    text
}

/// The JSON pointer of a character inventory row.
pub open spec fn item_path(location: InventoryItemLocation) -> Seq<char> {
    "/state/characters/"@ + decimal(location.character_index as nat) + "/inventory/"@ + decimal(
        location.item_index as nat,
    )
}

pub fn inventory_item_path(location: InventoryItemLocation) -> (path: String)
    ensures
        path@ == item_path(location),
{
    let mut path = owned("/state/characters/");
    push_decimal(&mut path, location.character_index as u64);
    push_str(&mut path, "/inventory/");
    push_decimal(&mut path, location.item_index as u64);
    path
}

fn child_path(path: &str, member: &str) -> (p: String)
    ensures
        p@ == path@ + seq!['/'] + member@,
{
    let mut p = owned(path);
    push_str(&mut p, "/");
    proof {
        reveal_strlit("/");
    }
    push_str(&mut p, member);
    p
}

fn index_path(path: &str, index: usize) -> (p: String)
    ensures
        p@ == path@ + seq!['/'] + decimal(index as nat),
{
    let mut p = owned(path);
    push_str(&mut p, "/");
    proof {
        reveal_strlit("/");
    }
    push_decimal(&mut p, index as u64);
    p
}

pub open spec fn quantity_message() -> Seq<char> {
    "quantity must be a positive signed 32-bit integer"@
}

pub open spec fn level_message() -> Seq<char> {
    "level must be a non-negative signed 32-bit integer"@
}

pub open spec fn sentinel_message() -> Seq<char> {
    "the engine no-definition sentinel is not a valid authored hash"@
}

pub open spec fn too_many_plugs_message() -> Seq<char> {
    "plugs cannot contain more than "@ + decimal(MAX_ITEM_PLUGS as nat) + " entries"@
}

pub open spec fn flags_range_message() -> Seq<char> {
    "flags must be between 0 and "@ + decimal(INVENTORY_FLAG_MASK as nat)
}

/// A quantity must be positive.
pub fn validate_positive_i32(value: i32, path: &str) -> (r: Result<(), InventoryError>)
    ensures
        r is Ok <==> value > 0,
        r matches Err(e) ==> e@ == (path@, quantity_message()),
{
    if value > 0 {
        Ok(())
    } else {
        Err(InventoryError::new(owned(path), owned("quantity must be a positive signed 32-bit integer")))
    }
}

/// A level must not be negative.
pub fn validate_nonnegative_i32(value: i32, path: &str) -> (r: Result<(), InventoryError>)
    ensures
        r is Ok <==> value >= 0,
        r matches Err(e) ==> e@ == (path@, level_message()),
{
    if value >= 0 {
        Ok(())
    } else {
        Err(InventoryError::new(owned(path), owned("level must be a non-negative signed 32-bit integer")))
    }
}

/// An authored definition hash must not be the engine's no-definition sentinel.
pub fn validate_inventory_definition_hash(hash: u32, path: &str) -> (r: Result<(), InventoryError>)
    ensures
        r is Ok <==> hash != NO_DEFINITION_HASH,
        r matches Err(e) ==> e@ == (path@, sentinel_message()),
{
    if hash == NO_DEFINITION_HASH {
        Err(InventoryError::new(owned(path), owned("the engine no-definition sentinel is not a valid authored hash")))
    } else {
        Ok(())
    }
}

/// Index of the first authored plug entry (from `k` on) that holds the sentinel hash.
pub open spec fn first_sentinel_plug(plugs: Seq<Option<u32>>, k: int) -> Option<int>
    decreases plugs.len() - k,
{
    if k < 0 || k >= plugs.len() {
        None
    } else if plugs[k] == Some(NO_DEFINITION_HASH) {
        Some(k)
    } else {
        first_sentinel_plug(plugs, k + 1)
    }
}

/// The outcome of checking a plug snapshot at `path`.
pub open spec fn plug_snapshot_check(plugs: ItemPlugs, path: Seq<char>) -> Option<(Seq<char>, Seq<char>)> {
    match plugs {
        ItemPlugs::NativeDefaults => None,
        ItemPlugs::Authored(p) => if p@.len() > MAX_ITEM_PLUGS {
            Some((path, too_many_plugs_message()))
        } else {
            match first_sentinel_plug(p@, 0) {
                Some(i) => Some((path + seq!['/'] + decimal(i as nat), sentinel_message())),
                None => None,
            }
        },
    }
}

/// Authored plugs are at most the plug limit, and none of them is the sentinel hash.
pub fn validate_plug_snapshot(plugs: &ItemPlugs, path: &str) -> (r: Result<(), InventoryError>)
    ensures
        match plug_snapshot_check(*plugs, path@) {
            None => r is Ok,
            Some(e) => r matches Err(x) && x@ == e,
        },
{
    let list = match plugs {
        ItemPlugs::NativeDefaults => {
            return Ok(());
        },
        ItemPlugs::Authored(p) => p,
    };
    if list.len() > MAX_ITEM_PLUGS {
        let mut m = owned("plugs cannot contain more than ");
        push_decimal(&mut m, MAX_ITEM_PLUGS as u64);
        push_str(&mut m, " entries");
        return Err(InventoryError::new(owned(path), m));
    }
    let mut i: usize = 0;
    while i < list.len()
        invariant
            i <= list@.len(),
            *plugs == ItemPlugs::Authored(*list),
            list@.len() <= MAX_ITEM_PLUGS,
            first_sentinel_plug(list@, i as int) == first_sentinel_plug(list@, 0),
        decreases list.len() - i,
    {
        match list[i] {
            Some(hash) => {
                let entry = index_path(path, i);
                let checked = validate_inventory_definition_hash(hash, entry.as_str());
                if checked.is_err() {
                    assert(first_sentinel_plug(list@, i as int) == Some(i as int));
                    return checked;
                }
            },
            None => {},
        }
        i += 1;
    }
    Ok(())
}

/// The outcome of checking a requested edit of the row at `location`.
pub open spec fn inventory_action_check(location: InventoryItemLocation, action: InventoryItemAction) -> Option<
    (Seq<char>, Seq<char>),
> {
    let path = item_path(location);
    match action {
        InventoryItemAction::SetDefinitionHash(hash) => if hash == NO_DEFINITION_HASH {
            Some((path + "/definition_hash"@, sentinel_message()))
        } else {
            None
        },
        InventoryItemAction::SetLevel(level) => if level < 0 {
            Some((path + "/level"@, level_message()))
        } else {
            None
        },
        InventoryItemAction::SetQuantity(quantity) => if quantity <= 0 {
            Some((path + "/quantity"@, quantity_message()))
        } else {
            None
        },
        InventoryItemAction::SetPlugs(plugs) => plug_snapshot_check(plugs, path + "/plugs"@),
        InventoryItemAction::SetFlags(Some(flags)) => if flags > INVENTORY_FLAG_MASK {
            Some((path + "/flags"@, flags_range_message()))
        } else {
            None
        },
        _ => None,
    }
}

/// Checking a requested edit of an inventory row accepts exactly the values a row may hold:
/// any definition hash but 0x811C9DC5 (the "no definition" sentinel), any level from 0 up,
/// any quantity from 1 up and any flags from 0 to 7; clearing the flags and removing the row
/// are always accepted. A refused quantity is reported at the row's `quantity`.
pub proof fn law_inventory_action_check_accepts_valid_values(
    location: InventoryItemLocation,
    hash: u32,
    level: i32,
    quantity: i32,
    flags: u8,
)
    ensures
        inventory_action_check(location, InventoryItemAction::SetDefinitionHash(hash)) is None <==> hash != 0x811C_9DC5u32,
        inventory_action_check(location, InventoryItemAction::SetLevel(level)) is None <==> level >= 0,
        inventory_action_check(location, InventoryItemAction::SetQuantity(quantity)) is None <==> quantity >= 1,
        inventory_action_check(location, InventoryItemAction::SetQuantity(quantity)) matches Some(e) ==> e.0
            == item_path(location) + "/quantity"@,
        inventory_action_check(location, InventoryItemAction::SetFlags(Some(flags))) is None <==> flags <= 7,
        inventory_action_check(location, InventoryItemAction::SetFlags(None)) is None,
        inventory_action_check(location, InventoryItemAction::Remove) is None,
{
}

/// Checks a requested edit of a character inventory row before it is applied.
pub fn validate_inventory_action(location: InventoryItemLocation, action: &InventoryItemAction) -> (r: Result<
    (),
    InventoryError,
>)
    ensures
        match inventory_action_check(location, *action) {
            None => r is Ok,
            Some(e) => r matches Err(x) && x@ == e,
        },
        *action matches InventoryItemAction::SetQuantity(q) ==> (r is Ok <==> q > 0),
        *action matches InventoryItemAction::SetLevel(l) ==> (r is Ok <==> l >= 0),
{
    proof {
        law_inventory_action_check_accepts_valid_values(location, 0, 0, 0, 0);
        match *action {
            InventoryItemAction::SetQuantity(q) => law_inventory_action_check_accepts_valid_values(location, 0, 0, q, 0),
            InventoryItemAction::SetLevel(l) => law_inventory_action_check_accepts_valid_values(location, 0, l, 1, 0),
            _ => {},
        }
    }
    let path = inventory_item_path(location);
    match action {
        InventoryItemAction::SetDefinitionHash(hash) => {
            let p = child_path(path.as_str(), "definition_hash");
            proof {
                reveal_strlit("definition_hash");
                reveal_strlit("/definition_hash");
                assert(p@ =~= item_path(location) + "/definition_hash"@);
            }
            validate_inventory_definition_hash(*hash, p.as_str())
        },
        InventoryItemAction::SetLevel(level) => {
            let p = child_path(path.as_str(), "level");
            proof {
                reveal_strlit("level");
                reveal_strlit("/level");
                assert(p@ =~= item_path(location) + "/level"@);
            }
            validate_nonnegative_i32(*level, p.as_str())
        },
        InventoryItemAction::SetQuantity(quantity) => {
            let p = child_path(path.as_str(), "quantity");
            proof {
                reveal_strlit("quantity");
                reveal_strlit("/quantity");
                assert(p@ =~= item_path(location) + "/quantity"@);
            }
            validate_positive_i32(*quantity, p.as_str())
        },
        InventoryItemAction::SetPlugs(plugs) => {
            let p = child_path(path.as_str(), "plugs");
            proof {
                reveal_strlit("plugs");
                reveal_strlit("/plugs");
                assert(p@ =~= item_path(location) + "/plugs"@);
            }
            validate_plug_snapshot(plugs, p.as_str())
        },
        InventoryItemAction::SetFlags(Some(flags)) => {
            if *flags > INVENTORY_FLAG_MASK {
                let p = child_path(path.as_str(), "flags");
                let mut m = owned("flags must be between 0 and ");
                push_decimal(&mut m, INVENTORY_FLAG_MASK as u64);
                proof {
                    reveal_strlit("flags");
                    reveal_strlit("/flags");
                    assert(p@ =~= item_path(location) + "/flags"@);
                }
                Err(InventoryError::new(p, m))
            } else {
                Ok(())
            }
        },
        _ => Ok(()),
    }
}

/// Number of hexadecimal digits of `v` (none for zero).
pub open spec fn hex_len(v: nat) -> nat
    decreases v,
{
    if v == 0 {
        0
    } else {
        1 + hex_len(v / 16)
    }
}

/// A hash as `format!("0x{hash:08X}")` writes it: `0x` and its uppercase hex digits, at
/// least eight.
pub open spec fn hash_text(hash: u64) -> Seq<char> {
    seq!['0', 'x'] + hex_digits(
        hash as nat,
        if hex_len(hash as nat) < 8 {
            8
        } else {
            hex_len(hash as nat)
        },
    )
}

pub fn format_hash(hash: u64) -> (text: String)
    ensures
        text@ == hash_text(hash),
{
    proof {
        assert(crate::json::pow16(16) == 0x1_0000_0000_0000_0000) by {
            reveal_with_fuel(crate::json::pow16, 17);
        }
        lemma_hex_len_at_most(hash as nat, 16);
    }
    let mut digits: usize = 0;
    let mut rest = hash;
    while rest > 0
        invariant
            digits + hex_len(rest as nat) == hex_len(hash as nat),
            hex_len(hash as nat) <= 16,
        decreases rest,
    {
        rest = rest / 16;
        digits = digits + 1;
    }
    let width = if digits < 8 {
        8
    } else {
        digits
    };
    let mut text = owned("0x");
    proof {
        reveal_strlit("0x");
    }
    push_hex(&mut text, hash, width);
    text
}

proof fn lemma_hex_len_at_most(v: nat, n: nat)
    ensures
        v < crate::json::pow16(n) ==> hex_len(v) <= n,
    decreases n,
{
    if n > 0 && v > 0 {
        lemma_hex_len_at_most(v / 16, (n - 1) as nat);
    }
}

/// A definition hash written as the editors write it reads back as the same hash.
pub proof fn law_definition_hash_text_reads_back(hash: u32)
    ensures
        crate::json::parse_hash_text(definition_hash_text(hash)) == Some(hash as u64),
{
    assert(crate::json::pow16(8) == 0x1_0000_0000) by {
        reveal_with_fuel(crate::json::pow16, 9);
    }
    crate::json::lemma_hex_text_reads_back(hash as u64, 8);
}

/// An instance SOID written as the editors write it reads back as the same SOID.
pub proof fn law_instance_soid_text_reads_back(soid: u64)
    ensures
        crate::json::parse_hash_text(instance_soid_text(soid)) == Some(soid),
{
    assert(crate::json::pow16(16) == 0x1_0000_0000_0000_0000) by {
        reveal_with_fuel(crate::json::pow16, 17);
    }
    crate::json::lemma_hex_text_reads_back(soid, 16);
}

} // verus!
