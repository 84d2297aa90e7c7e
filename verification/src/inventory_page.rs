//! Rules behind the inventory pages: bucket order and capacity, what an add button says,
//! stable identities of inventory rows, and the picker's request to open.
use std::collections::HashMap;
use vstd::prelude::*;
use crate::inventory::{InventoryItemAction, InventoryItemLocation, ItemPlugs, MAX_ITEM_PLUGS};
use crate::item_editor::DefinitionChoice;
use crate::text::{decimal, owned, push_decimal, push_str, str_eq};

verus! {

broadcast use vstd::std_specs::hash::group_hash_axioms;

/// Which inventory a bucket belongs to.
#[derive(Clone, Copy, Debug, Default, PartialEq, Eq, Structural)]
pub enum InventoryScope {
    #[default]
    Unknown,
    Character,
    Profile,
    SmallProfile,
}

/// How items of a definition stack.
#[derive(Clone, Copy, Debug, Default, PartialEq, Eq, Structural)]
pub enum ItemStackability {
    #[default]
    Unknown,
    Stackable,
    Instanced,
}

/// What the installed game says about where a definition's items are kept.
#[derive(Clone, Copy, Debug, Default, PartialEq, Eq, Structural)]
pub struct InventoryMetadata {
    pub scope: InventoryScope,
    pub native_bucket_id: u8,
    pub stackability: ItemStackability,
    pub max_stack_size: Option<u32>,
    pub bucket_capacity: Option<u16>,
}

impl InventoryMetadata {
    /// How many authored rows the bucket holds, if that is known.
    pub fn authored_row_capacity(&self) -> (capacity: Option<u16>)
        ensures
            capacity == self.bucket_capacity,
    {
        self.bucket_capacity
    }
}

/// A bucket: its scope and native id.
#[derive(Clone, Copy, Debug, PartialEq, Eq, Structural)]
pub struct BucketKey {
    pub scope: InventoryScope,
    pub native_id: u8,
}

/// How full the buckets of one inventory are: rows counted per native bucket, rows whose
/// bucket is unknown, and whether every row could be counted.
pub struct BucketUsage {
    pub counts: HashMap<u8, usize>,
    pub unresolved_count: usize,
    pub occupancy_complete: bool,
}

/// Rows counted in a bucket: its entry, or none.
pub open spec fn counted(usage: BucketUsage, bucket: u8) -> usize {
    if usage.counts@.contains_key(bucket) {
        usage.counts@[bucket]
    } else {
        0
    }
}

pub(crate) fn counted_exec(usage: &BucketUsage, bucket: u8) -> (n: usize)
    ensures
        n == counted(*usage, bucket),
{
    match usage.counts.get(&bucket) {
        Some(n) => *n,
        None => 0,
    }
}

pub open spec fn saturating_add(a: usize, b: usize) -> usize {
    if a + b > usize::MAX {
        usize::MAX
    } else {
        (a + b) as usize
    }
}

/// A bucket with a known capacity has room when its counted rows, with every unresolved row
/// counted against it too, stay below the capacity.
pub fn bucket_key_has_room(key: BucketKey, capacity: Option<u16>, usage: &BucketUsage) -> (r: bool)
    ensures
        r == match capacity {
            Some(c) => saturating_add(counted(*usage, key.native_id), usage.unresolved_count) < c,
            None => false,
        },
{
    match capacity {
        Some(c) => {
            let occupied = counted_exec(usage, key.native_id);
            occupied.saturating_add(usage.unresolved_count) < c as usize
        },
        None => false,
    }
}

/// The room rule of `bucket_has_room`.
pub open spec fn spec_bucket_has_room(
    metadata: InventoryMetadata,
    usage: BucketUsage,
    current_bucket: Option<u8>,
    replacing_unresolved: bool,
) -> bool {
    current_bucket == Some(metadata.native_bucket_id) || match metadata.bucket_capacity {
        Some(c) => {
            let unresolved = if replacing_unresolved && usage.unresolved_count > 0 {
                (usage.unresolved_count - 1) as usize
            } else {
                usage.unresolved_count
            };
            saturating_add(counted(usage, metadata.native_bucket_id), unresolved) < c
        },
        None => false,
    }
}

/// An item may go into the bucket of `metadata` when it already is in that bucket, or when
/// the bucket has a known capacity that its rows stay below. The unresolved rows count
/// against it, less the one being replaced when that is one of them.
pub fn bucket_has_room(
    metadata: &InventoryMetadata,
    usage: &BucketUsage,
    current_bucket: Option<u8>,
    replacing_unresolved: bool,
) -> (r: bool)
    ensures
        r == spec_bucket_has_room(*metadata, *usage, current_bucket, replacing_unresolved),
{
    if current_bucket == Some(metadata.native_bucket_id) {
        return true;
    }
    match metadata.authored_row_capacity() {
        Some(c) => {
            let known = counted_exec(usage, metadata.native_bucket_id);
            let unresolved = usage.unresolved_count.saturating_sub(if replacing_unresolved {
                1
            } else {
                0
            });
            known.saturating_add(unresolved) < c as usize
        },
        None => false,
    }
}

/// Why an add button is enabled or not, for its tooltip.
pub open spec fn add_tooltip_text(
    can_add: bool,
    editable: bool,
    target_ready: bool,
    array_has_room: bool,
    occupancy_complete: bool,
    bucket_has_room: bool,
    bucket_label: Seq<char>,
) -> Seq<char> {
    if can_add {
        "Add an item to "@ + bucket_label
    } else if !editable {
        "Adding items is disabled for this schema"@
    } else if !target_ready {
        "The inventory target is missing or invalid"@
    } else if !array_has_room {
        "The inventory array is full"@
    } else if !occupancy_complete {
        "Bucket occupancy cannot be established until malformed or unsupported rows are repaired"@
    } else if !bucket_has_room {
        bucket_label + " is at capacity"@
    } else {
        "This bucket cannot accept another item"@
    }
}

pub fn bucket_add_tooltip(
    can_add: bool,
    editable: bool,
    target_ready: bool,
    array_has_room: bool,
    occupancy_complete: bool,
    bucket_has_room: bool,
    bucket_label: &str,
) -> (text: String)
    ensures
        text@ == add_tooltip_text(
            can_add,
            editable,
            target_ready,
            array_has_room,
            occupancy_complete,
            bucket_has_room,
            bucket_label@,
        ),
{
    if can_add {
        let mut t = owned("Add an item to ");
        push_str(&mut t, bucket_label);
        return t;
    }
    if !editable {
        owned("Adding items is disabled for this schema")
    } else if !target_ready {
        owned("The inventory target is missing or invalid")
    } else if !array_has_room {
        owned("The inventory array is full")
    } else if !occupancy_complete {
        owned("Bucket occupancy cannot be established until malformed or unsupported rows are repaired")
    } else if !bucket_has_room {
        let mut t = owned(bucket_label);
        push_str(&mut t, " is at capacity");
        t
    } else {
        owned("This bucket cannot accept another item")
    }
}

/// "1 item", or the count and "items".
pub fn item_count_label(count: usize) -> (label: String)
    ensures
        label@ == if count == 1 {
            "1 item"@
        } else {
            decimal(count as nat) + " items"@
        },
{
    if count == 1 {
        owned("1 item")
    } else {
        let mut t = String::new();
        push_decimal(&mut t, count as u64);
        push_str(&mut t, " items");
        t
    }
}

/// A small number for each scope, used to order buckets of other scopes.
pub fn scope_id(scope: InventoryScope) -> (id: u8)
    ensures
        id == match scope {
            InventoryScope::Unknown => 0u8,
            InventoryScope::Character => 1u8,
            InventoryScope::Profile => 2u8,
            InventoryScope::SmallProfile => 3u8,
        },
{
    match scope {
        InventoryScope::Unknown => 0,
        InventoryScope::Character => 1,
        InventoryScope::Profile => 2,
        InventoryScope::SmallProfile => 3,
    }
}

/// Display order of the profile buckets: currencies first, then consumables, shaders, mods
/// and general items, then the rest.
pub open spec fn spec_profile_bucket_rank(bucket: u8) -> u16 {
    match bucket {
        21 => 0,
        22 => 1,
        24 => 2,
        15 => 3,
        23 => 4,
        14 => 5,
        13 => 6,
        42 => 7,
        _ => 8,
    }
}

pub fn profile_bucket_rank(bucket: u8) -> (rank: u16)
    ensures
        rank == spec_profile_bucket_rank(bucket),
{
    match bucket {
        21 => 0,
        22 => 1,
        24 => 2,
        15 => 3,
        23 => 4,
        14 => 5,
        13 => 6,
        42 => 7,
        _ => 8,
    }
}

/// Display order of the character buckets: weapons, armor, ghost, vehicle, ship, subclass,
/// banner, emblem, emote, finisher, artifact, then the rest by native id.
pub open spec fn spec_character_bucket_rank(bucket: u8) -> u16 {
    match bucket {
        0 => 0,
        1 => 1,
        2 => 2,
        3 => 3,
        4 => 4,
        5 => 5,
        6 => 6,
        7 => 7,
        8 => 8,
        9 => 9,
        10 => 10,
        16 => 11,
        17 => 12,
        27 => 13,
        41 => 14,
        47 => 15,
        49 => 16,
        _ => (100 + bucket) as u16,
    }
}

pub fn character_bucket_rank(bucket: u8) -> (rank: u16)
    ensures
        rank == spec_character_bucket_rank(bucket),
{
    match bucket {
        0 => 0,
        1 => 1,
        2 => 2,
        3 => 3,
        4 => 4,
        5 => 5,
        6 => 6,
        7 => 7,
        8 => 8,
        9 => 9,
        10 => 10,
        16 => 11,
        17 => 12,
        27 => 13,
        41 => 14,
        47 => 15,
        49 => 16,
        _ => 100 + bucket as u16,
    }
}

/// Where a bucket sorts on a page for `expected_scope`: the page's own buckets by their
/// rank, buckets of other known scopes after them grouped by scope, unknown ones last.
pub open spec fn spec_page_bucket_display_rank(expected_scope: InventoryScope, key: BucketKey) -> u16 {
    if key.scope == expected_scope {
        match expected_scope {
            InventoryScope::Character => spec_character_bucket_rank(key.native_id),
            InventoryScope::Profile => spec_profile_bucket_rank(key.native_id),
            InventoryScope::SmallProfile => key.native_id as u16,
            InventoryScope::Unknown => u16::MAX,
        }
    } else {
        match key.scope {
            InventoryScope::Unknown => u16::MAX,
            InventoryScope::Character => (10_000 + 1 * 256 + key.native_id) as u16,
            InventoryScope::Profile => (10_000 + 2 * 256 + key.native_id) as u16,
            InventoryScope::SmallProfile => (10_000 + 3 * 256 + key.native_id) as u16,
        }
    }
}

pub fn page_bucket_display_rank(expected_scope: InventoryScope, key: BucketKey) -> (rank: u16)
    ensures
        rank == spec_page_bucket_display_rank(expected_scope, key),
{
    if key.scope == expected_scope {
        return match expected_scope {
            InventoryScope::Character => character_bucket_rank(key.native_id),
            InventoryScope::Profile => profile_bucket_rank(key.native_id),
            InventoryScope::SmallProfile => key.native_id as u16,
            InventoryScope::Unknown => u16::MAX,
        };
    }
    match key.scope {
        InventoryScope::Unknown => u16::MAX,
        _ => 10_000 + (scope_id(key.scope) as u16) * 256 + key.native_id as u16,
    }
}

/// Every bucket on a page sorts before the buckets of other scopes and before unknown ones.
pub proof fn law_page_buckets_sort_first(expected_scope: InventoryScope, own: u8, other: BucketKey)
    requires
        expected_scope !is Unknown,
        other.scope != expected_scope,
    ensures
        spec_page_bucket_display_rank(expected_scope, BucketKey { scope: expected_scope, native_id: own })
            < spec_page_bucket_display_rank(expected_scope, other),
{
}

// ---------------------------------------------------------------------------------------
// The picker's request to open
// ---------------------------------------------------------------------------------------

/// The search-state entry that asks a bucket picker to open.
pub fn bucket_picker_open_request_key(picker_key: &str) -> (key: String)
    ensures
        key@ == picker_key@ + ":request-open"@,
{
    let mut key = owned(picker_key);
    push_str(&mut key, ":request-open");
    key
}

/// Search states are held as pairs of an entry name and its text.
pub open spec fn has_entry(states: Seq<(String, String)>, key: Seq<char>) -> bool {
    exists|i: int| 0 <= i < states.len() && (#[trigger] states[i]).0@ == key
}

/// The search states as pairs of plain texts.
pub open spec fn entries_view(states: Seq<(String, String)>) -> Seq<(Seq<char>, Seq<char>)> {
    Seq::new(states.len(), |i: int| (states[i].0@, states[i].1@))
}

/// The entries whose name is not `key`, in order, with their texts.
pub open spec fn without_entry(entries: Seq<(Seq<char>, Seq<char>)>, key: Seq<char>) -> Seq<(Seq<char>, Seq<char>)>
    decreases entries.len(),
{
    if entries.len() == 0 {
        entries
    } else {
        let rest = without_entry(entries.drop_last(), key);
        if entries.last().0 != key {
            rest.push(entries.last())
        } else {
            rest
        }
    }
}

/// Takes the picker's pending request to open: a request set by the click that opened the
/// picker waits until a frame where the pointer was not clicked; then it is removed and
/// reported once. Every other entry is kept, with its text, in order.
pub fn take_bucket_picker_open_request(
    searches: &mut Vec<(String, String)>,
    picker_key: &str,
    pointer_clicked: bool,
) -> (taken: bool)
    ensures
        taken == (!pointer_clicked && has_entry(old(searches)@, picker_key@ + ":request-open"@)),
        pointer_clicked ==> final(searches)@ == old(searches)@,
        !pointer_clicked ==> entries_view(final(searches)@) == without_entry(
            entries_view(old(searches)@),
            picker_key@ + ":request-open"@,
        ),
{
    if pointer_clicked {
        return false;
    }
    let request = bucket_picker_open_request_key(picker_key);
    let ghost req = request@;
    let ghost all = entries_view(searches@);
    let mut kept: Vec<(String, String)> = Vec::new();
    let mut found = false;
    let mut i: usize = 0;
    assert(all.take(0) =~= Seq::<(Seq<char>, Seq<char>)>::empty());
    while i < searches.len()
        invariant
            i <= searches@.len(),
            req == picker_key@ + ":request-open"@,
            request@ == req,
            all == entries_view(searches@),
            searches@ == old(searches)@,
            entries_view(kept@) == without_entry(all.take(i as int), req),
            found == has_entry(searches@.take(i as int), req),
        decreases searches.len() - i,
    {
        let ghost prev = kept@;
        proof {
            assert(all.take(i + 1).drop_last() =~= all.take(i as int));
            assert(all.take(i + 1).last() == all[i as int]);
            assert(searches@.take(i + 1) =~= searches@.take(i as int).push(searches@[i as int]));
            assert(has_entry(searches@.take(i + 1), req) == (has_entry(searches@.take(i as int), req) || searches@[i as int].0@ == req)) by {
                if has_entry(searches@.take(i + 1), req) {
                    let w = choose|w: int| 0 <= w < i + 1 && (#[trigger] searches@.take(i + 1)[w]).0@ == req;
                    if w < i {
                        assert(searches@.take(i as int)[w] == searches@.take(i + 1)[w]);
                    }
                }
                if has_entry(searches@.take(i as int), req) {
                    let w = choose|w: int| 0 <= w < i && (#[trigger] searches@.take(i as int)[w]).0@ == req;
                    assert(searches@.take(i + 1)[w] == searches@.take(i as int)[w]);
                }
                if searches@[i as int].0@ == req {
                    assert(searches@.take(i + 1)[i as int] == searches@[i as int]);
                }
            }
        }
        assert(all[i as int] == (searches@[i as int].0@, searches@[i as int].1@));
        assert(without_entry(all.take(i + 1), req) == if all[i as int].0 != req {
            without_entry(all.take(i as int), req).push(all[i as int])
        } else {
            without_entry(all.take(i as int), req)
        });
        if str_eq(searches[i].0.as_str(), request.as_str()) {
            found = true;
        } else {
            let name = owned(searches[i].0.as_str());
            let text = owned(searches[i].1.as_str());
            kept.push((name, text));
            assert(entries_view(kept@) =~= entries_view(prev).push(all[i as int]));
        }
        i += 1;
    }
    assert(all.take(searches@.len() as int) =~= all);
    assert(searches@.take(searches@.len() as int) =~= searches@);
    *searches = kept;
    found
}

// ---------------------------------------------------------------------------------------
// Row identities
// ---------------------------------------------------------------------------------------

/// A character inventory row as read from the document.
#[derive(Clone, Debug, PartialEq, Eq)]
pub struct InventoryItemSnapshot {
    pub location: InventoryItemLocation,
    pub instance_soid: u64,
    pub definition_hash: u32,
    pub level: i32,
    pub quantity: i32,
    pub plugs: ItemPlugs,
    pub flags: Option<u8>,
}

/// The identity the page gives an inventory row, so that its editor state follows the row
/// when rows before it are added or removed: the character and the instance SOID, and for a
/// SOID that several rows share, which of them it is.
#[derive(Clone, Copy, Debug, PartialEq, Eq, Hash, Structural)]
pub struct InventoryItemUiId {
    pub character_index: usize,
    pub instance_soid: u64,
    pub duplicate_ordinal: Option<usize>,
}

/// How many of the first `n` rows carry `soid`.
pub open spec fn soid_count(items: Seq<InventoryItemSnapshot>, soid: u64, n: int) -> int
    decreases n,
{
    if n <= 0 {
        0
    } else {
        soid_count(items, soid, n - 1) + if items[n - 1].instance_soid == soid {
            1int
        } else {
            0int
        }
    }
}

/// The identity of row `k`.
pub open spec fn ui_identity(items: Seq<InventoryItemSnapshot>, k: int) -> InventoryItemUiId {
    InventoryItemUiId {
        character_index: items[k].location.character_index,
        instance_soid: items[k].instance_soid,
        duplicate_ordinal: if soid_count(items, items[k].instance_soid, items.len() as int) > 1 {
            Some(soid_count(items, items[k].instance_soid, k) as usize)
        } else {
            None
        },
    }
}

proof fn lemma_soid_count_bounds(items: Seq<InventoryItemSnapshot>, soid: u64, n: int)
    requires
        0 <= n <= items.len(),
    ensures
        0 <= soid_count(items, soid, n) <= n,
    decreases n,
{
    if n > 0 {
        lemma_soid_count_bounds(items, soid, n - 1);
    }
}

fn count_soid(items: &[InventoryItemSnapshot], soid: u64, n: usize) -> (c: usize)
    requires
        n <= items@.len(),
    ensures
        c == soid_count(items@, soid, n as int),
{
    let mut c: usize = 0;
    let mut i: usize = 0;
    while i < n
        invariant
            i <= n <= items@.len(),
            c == soid_count(items@, soid, i as int),
            c <= i,
        decreases n - i,
    {
        if items[i].instance_soid == soid {
            c += 1;
        }
        i += 1;
    }
    c
}

/// The identities of the rows of one character inventory, in row order.
pub fn inventory_item_ui_identities(items: &[InventoryItemSnapshot]) -> (ids: Vec<InventoryItemUiId>)
    ensures
        ids@.len() == items@.len(),
        forall|k: int| 0 <= k < items@.len() ==> #[trigger] ids@[k] == ui_identity(items@, k),
{
    let mut ids: Vec<InventoryItemUiId> = Vec::new();
    let mut k: usize = 0;
    while k < items.len()
        invariant
            k <= items@.len(),
            ids@.len() == k,
            forall|j: int| 0 <= j < k ==> #[trigger] ids@[j] == ui_identity(items@, j),
        decreases items.len() - k,
    {
        let item = &items[k];
        let total = count_soid(items, item.instance_soid, items.len());
        let duplicate_ordinal = if total > 1 {
            Some(count_soid(items, item.instance_soid, k))
        } else {
            None
        };
        ids.push(
            InventoryItemUiId {
                character_index: item.location.character_index,
                instance_soid: item.instance_soid,
                duplicate_ordinal,
            },
        );
        k += 1;
    }
    ids
}

/// Rows that share a SOID get distinct identities.
pub proof fn law_ui_identities_are_distinct(items: Seq<InventoryItemSnapshot>, i: int, j: int)
    requires
        0 <= i < j < items.len(),
        items.len() <= usize::MAX,
    ensures
        ui_identity(items, i) != ui_identity(items, j) || items[i].location.character_index
            != items[j].location.character_index,
{
    if items[i].instance_soid == items[j].instance_soid {
        let soid = items[i].instance_soid;
        lemma_soid_count_strictly_grows(items, soid, i, j);
        lemma_soid_count_monotonic(items, soid, j + 1, items.len() as int);
        lemma_soid_count_bounds(items, soid, j);
        lemma_soid_count_bounds(items, soid, i);
        assert(ui_identity(items, i).duplicate_ordinal != ui_identity(items, j).duplicate_ordinal);
    }
}

/// A row whose SOID no other row of its inventory shares keeps its identity whatever rows
/// come before or after it: two such rows of the same character with the same SOID have the
/// same identity, wherever they stand.
pub proof fn law_unique_row_identity_survives_shifts(
    a: Seq<InventoryItemSnapshot>,
    k: int,
    b: Seq<InventoryItemSnapshot>,
    m: int,
)
    requires
        0 <= k < a.len(),
        0 <= m < b.len(),
        a[k].location.character_index == b[m].location.character_index,
        a[k].instance_soid == b[m].instance_soid,
        soid_count(a, a[k].instance_soid, a.len() as int) == 1,
        soid_count(b, b[m].instance_soid, b.len() as int) == 1,
    ensures
        ui_identity(a, k) == ui_identity(b, m),
{
}

proof fn lemma_soid_count_monotonic(items: Seq<InventoryItemSnapshot>, soid: u64, a: int, b: int)
    requires
        0 <= a <= b <= items.len(),
    ensures
        soid_count(items, soid, a) <= soid_count(items, soid, b),
    decreases b - a,
{
    if a < b {
        lemma_soid_count_monotonic(items, soid, a, b - 1);
    }
}

proof fn lemma_soid_count_strictly_grows(items: Seq<InventoryItemSnapshot>, soid: u64, i: int, j: int)
    requires
        0 <= i < j < items.len(),
        items[i].instance_soid == soid,
        items[j].instance_soid == soid,
    ensures
        soid_count(items, soid, i) < soid_count(items, soid, j),
        soid_count(items, soid, j + 1) >= 2,
{
    lemma_soid_count_monotonic(items, soid, i + 1, j);
    lemma_soid_count_bounds(items, soid, i);
}

/// The key under which the page keeps a row's editor state.
pub open spec fn state_key_text(identity: InventoryItemUiId) -> Seq<char> {
    "character-inventory:"@ + decimal(identity.character_index as nat) + ":"@ + decimal(
        identity.instance_soid as nat,
    ) + match identity.duplicate_ordinal {
        Some(o) => ":duplicate-"@ + decimal(o as nat),
        None => Seq::empty(),
    }
}

pub fn inventory_item_state_key(identity: InventoryItemUiId) -> (key: String)
    ensures
        key@ == state_key_text(identity),
{
    let mut key = owned("character-inventory:");
    push_decimal(&mut key, identity.character_index as u64);
    push_str(&mut key, ":");
    push_decimal(&mut key, identity.instance_soid);
    match identity.duplicate_ordinal {
        Some(o) => {
            push_str(&mut key, ":duplicate-");
            push_decimal(&mut key, o as u64);
        },
        None => {
            assert(key@ =~= key@ + Seq::<char>::empty());
        },
    }
    key
}

// ---------------------------------------------------------------------------------------
// Choices
// ---------------------------------------------------------------------------------------

/// The same choices without their browse groups, for pickers that list one bucket.
pub fn without_definition_groups(choices: Vec<DefinitionChoice>) -> (out: Vec<DefinitionChoice>)
    ensures
        out@.len() == choices@.len(),
        forall|k: int|
            0 <= k < out@.len() ==> (#[trigger] out@[k]).group is None && out@[k].hash == choices@[k].hash
                && out@[k].name == choices@[k].name && out@[k].item_type == choices@[k].item_type,
{
    let mut out: Vec<DefinitionChoice> = Vec::new();
    let mut rest = choices;
    let ghost all = rest@;
    let mut k: usize = 0;
    assert(all.len() == rest.len());
    while rest.len() > 0
        invariant
            all.len() <= usize::MAX,
            k + rest@.len() == all.len(),
            rest@ == all.skip(k as int),
            out@.len() == k,
            forall|j: int|
                0 <= j < k ==> (#[trigger] out@[j]).group is None && out@[j].hash == all[j].hash && out@[j].name
                    == all[j].name && out@[j].item_type == all[j].item_type,
        decreases rest.len(),
    {
        let ghost before = rest@;
        let choice = rest.remove(0);
        assert(choice == all[k as int]);
        assert(rest@ =~= all.skip(k + 1));
        out.push(DefinitionChoice { hash: choice.hash, name: choice.name, item_type: choice.item_type, group: None });
        k += 1;
    }
    out
}

/// The candidate buckets with repeats left out: the first metadata of each scope and native
/// bucket, in order.
pub fn distinct_candidate_buckets(metadata: Vec<InventoryMetadata>) -> (buckets: Vec<InventoryMetadata>)
    ensures
        forall|i: int, j: int|
            0 <= i < j < buckets@.len() ==> !((#[trigger] buckets@[i]).scope == (#[trigger] buckets@[j]).scope
                && buckets@[i].native_bucket_id == buckets@[j].native_bucket_id),
        forall|i: int| 0 <= i < buckets@.len() ==> metadata@.contains(#[trigger] buckets@[i]),
        forall|i: int|
            0 <= i < metadata@.len() ==> exists|j: int|
                0 <= j < buckets@.len() && (#[trigger] buckets@[j]).scope == (#[trigger] metadata@[i]).scope
                    && buckets@[j].native_bucket_id == metadata@[i].native_bucket_id,
{
    let mut buckets: Vec<InventoryMetadata> = Vec::new();
    let mut i: usize = 0;
    while i < metadata.len()
        invariant
            i <= metadata@.len(),
            forall|a: int, b: int|
                0 <= a < b < buckets@.len() ==> !((#[trigger] buckets@[a]).scope == (#[trigger] buckets@[b]).scope
                    && buckets@[a].native_bucket_id == buckets@[b].native_bucket_id),
            forall|a: int| 0 <= a < buckets@.len() ==> metadata@.contains(#[trigger] buckets@[a]),
            forall|a: int|
                0 <= a < i ==> exists|j: int|
                    0 <= j < buckets@.len() && (#[trigger] buckets@[j]).scope == (#[trigger] metadata@[a]).scope
                        && buckets@[j].native_bucket_id == metadata@[a].native_bucket_id,
        decreases metadata.len() - i,
    {
        let m = metadata[i];
        let mut j: usize = 0;
        while j < buckets.len() && !(buckets[j].scope == m.scope && buckets[j].native_bucket_id == m.native_bucket_id)
            invariant
                j <= buckets@.len(),
                forall|b: int|
                    0 <= b < j ==> !((#[trigger] buckets@[b]).scope == m.scope && buckets@[b].native_bucket_id
                        == m.native_bucket_id),
            decreases buckets.len() - j,
        {
            j += 1;
        }
        let seen = j < buckets.len();
        if !seen {
            let ghost prev = buckets@;
            buckets.push(m);
            proof {
                assert(metadata@[i as int] == m);
                assert forall|a: int| 0 <= a < buckets@.len() implies metadata@.contains(#[trigger] buckets@[a]) by {
                    if a < prev.len() {
                        assert(buckets@[a] == prev[a]);
                    } else {
                        assert(metadata@[i as int] == buckets@[a]);
                    }
                }
                assert forall|a: int| 0 <= a <= i implies exists|b: int|
                    0 <= b < buckets@.len() && (#[trigger] buckets@[b]).scope == (#[trigger] metadata@[a]).scope
                        && buckets@[b].native_bucket_id == metadata@[a].native_bucket_id by {
                    if a < i {
                        let b = choose|b: int|
                            0 <= b < prev.len() && (#[trigger] prev[b]).scope == metadata@[a].scope
                                && prev[b].native_bucket_id == metadata@[a].native_bucket_id;
                        assert(buckets@[b] == prev[b]);
                    } else {
                        assert(buckets@[prev.len() as int] == m);
                    }
                }
            }
        } else {
            proof {
                assert(buckets@[j as int].scope == metadata@[i as int].scope);
            }
        }
        i += 1;
    }
    buckets
}

// ---------------------------------------------------------------------------------------
// A stored row's card
// ---------------------------------------------------------------------------------------

/// The largest stack a definition allows, as an `i32` quantity.
pub open spec fn stack_limit(max_stack_size: u32) -> i32 {
    if max_stack_size > i32::MAX as u32 {
        i32::MAX
    } else {
        max_stack_size as i32
    }
}

/// The edits that give a stored row a new definition: the new hash and the definition's
/// native plugs, and, when the new definition stacks fewer than the row holds, the quantity
/// lowered to its largest stack (at least 1).
pub open spec fn spec_definition_change_actions(hash: u32, quantity: i32, max_stack_size: Option<u32>) -> Seq<InventoryItemAction> {
    let base = seq![InventoryItemAction::SetDefinitionHash(hash), InventoryItemAction::SetPlugs(ItemPlugs::NativeDefaults)];
    match max_stack_size {
        Some(m) => if quantity > stack_limit(m) {
            base.push(
                InventoryItemAction::SetQuantity(
                    if stack_limit(m) < 1 {
                        1
                    } else {
                        stack_limit(m)
                    },
                ),
            )
        } else {
            base
        },
        None => base,
    }
}

pub fn definition_change_actions(hash: u32, quantity: i32, max_stack_size: Option<u32>) -> (actions: Vec<InventoryItemAction>)
    ensures
        actions@ == spec_definition_change_actions(hash, quantity, max_stack_size),
{
    let mut actions: Vec<InventoryItemAction> = Vec::new();
    actions.push(InventoryItemAction::SetDefinitionHash(hash));
    actions.push(InventoryItemAction::SetPlugs(ItemPlugs::NativeDefaults));
    if let Some(m) = max_stack_size {
        let maximum: i32 = if m > 0x7FFF_FFFFu32 {
            i32::MAX
        } else {
            m as i32
        };
        if quantity > maximum {
            actions.push(InventoryItemAction::SetQuantity(if maximum < 1 {
                1
            } else {
                maximum
            }));
        }
    }
    actions
}

/// Whether a stored row's Equip button is enabled, and its tooltip: only an editable, valid,
/// single item can be equipped; the tooltip says why not, or whether the slot's current
/// item moves to the inventory.
pub open spec fn equip_tooltip(valid: bool, quantity: i32, target_occupied: bool, slot_label: Seq<char>) -> Seq<char> {
    if quantity != 1 {
        "Only a single inventory item can be equipped at a time"@
    } else if !valid {
        "This item is not valid for the "@ + slot_label + " slot"@
    } else if target_occupied {
        "Equip in the "@ + slot_label + " slot and move its current item here"@
    } else {
        "Equip in the empty "@ + slot_label + " slot"@
    }
}

pub fn equip_button_state(
    editable: bool,
    valid: bool,
    quantity: i32,
    target_occupied: bool,
    slot_label: &str,
) -> (state: (bool, String))
    ensures
        state.0 == (editable && valid && quantity == 1),
        state.1@ == equip_tooltip(valid, quantity, target_occupied, slot_label@),
{
    let can_equip = editable && valid && quantity == 1;
    let tooltip = if quantity != 1 {
        owned("Only a single inventory item can be equipped at a time")
    } else if !valid {
        let mut t = owned("This item is not valid for the ");
        push_str(&mut t, slot_label);
        push_str(&mut t, " slot");
        t
    } else if target_occupied {
        let mut t = owned("Equip in the ");
        push_str(&mut t, slot_label);
        push_str(&mut t, " slot and move its current item here");
        t
    } else {
        let mut t = owned("Equip in the empty ");
        push_str(&mut t, slot_label);
        push_str(&mut t, " slot");
        t
    };
    (can_equip, tooltip)
}

/// How many plug sockets a row's editor shows (the definition's sockets or the row's plugs,
/// whichever are more, at most the plug limit) and the section's title, which says when the
/// plugs are the native defaults.
pub open spec fn plugs_section(sockets: usize, plugs: usize, native_defaults: bool) -> (usize, Seq<char>) {
    let wider = if sockets > plugs {
        sockets
    } else {
        plugs
    };
    let count = if wider > MAX_ITEM_PLUGS {
        MAX_ITEM_PLUGS
    } else {
        wider
    };
    (
        count,
        if native_defaults {
            "Plugs ("@ + decimal(count as nat) + ", native defaults)"@
        } else {
            "Plugs ("@ + decimal(count as nat) + ")"@
        },
    )
}

pub fn plugs_section_title(sockets: usize, plugs: usize, native_defaults: bool) -> (section: (usize, String))
    ensures
        (section.0, section.1@) == plugs_section(sockets, plugs, native_defaults),
{
    let wider = if sockets > plugs {
        sockets
    } else {
        plugs
    };
    let count = if wider > MAX_ITEM_PLUGS {
        MAX_ITEM_PLUGS
    } else {
        wider
    };
    let mut title = owned("Plugs (");
    push_decimal(&mut title, count as u64);
    if native_defaults {
        push_str(&mut title, ", native defaults)");
    } else {
        push_str(&mut title, ")");
    }
    (count, title)
}

/// What a row being replaced on a page counts for: the bucket it already fills in the page's
/// scope, if any, and whether it is one of the unresolved rows (no metadata, or metadata
/// without a scope).
pub open spec fn spec_replacement_context(metadata: Option<InventoryMetadata>, scope: InventoryScope) -> (Option<u8>, bool) {
    (
        match metadata {
            Some(m) => if m.scope == scope {
                Some(m.native_bucket_id)
            } else {
                None
            },
            None => None,
        },
        match metadata {
            Some(m) => m.scope == InventoryScope::Unknown,
            None => true,
        },
    )
}

pub fn replacement_context(metadata: Option<InventoryMetadata>, scope: InventoryScope) -> (context: (Option<u8>, bool))
    ensures
        context == spec_replacement_context(metadata, scope),
{
    match metadata {
        Some(m) => (
            if m.scope == scope {
                Some(m.native_bucket_id)
            } else {
                None
            },
            m.scope == InventoryScope::Unknown,
        ),
        None => (None, true),
    }
}

/// The largest quantity a profile row's editor accepts: its definition's largest stack (or
/// the `i32` limit when that is unknown), and never less than what the row holds.
pub open spec fn spec_profile_quantity_max(max_stack_size: Option<u32>, quantity: i32) -> i64 {
    let limit: i64 = match max_stack_size {
        Some(m) => if m > i32::MAX as u32 {
            i32::MAX as i64
        } else {
            m as i64
        },
        None => i32::MAX as i64,
    };
    if limit < quantity as i64 {
        quantity as i64
    } else {
        limit
    }
}

pub fn profile_quantity_max(max_stack_size: Option<u32>, quantity: i32) -> (maximum: i64)
    ensures
        maximum == spec_profile_quantity_max(max_stack_size, quantity),
{
    let limit: i64 = match max_stack_size {
        Some(m) => if m > 0x7FFF_FFFFu32 {
            0x7FFF_FFFFi64
        } else {
            m as i64
        },
        None => 0x7FFF_FFFFi64,
    };
    if limit < quantity as i64 {
        quantity as i64
    } else {
        limit
    }
}

/// A definition a profile row may be switched to: its hash fits 32 bits, it stacks at least
/// as many as the row holds (the quantity read as `u32`), and its bucket has room.
pub open spec fn profile_swap_allowed(
    hash: u64,
    metadata: InventoryMetadata,
    quantity: i32,
    usage: BucketUsage,
    current_bucket: Option<u8>,
    replacing_unresolved: bool,
) -> bool {
    &&& hash <= u32::MAX
    &&& metadata.max_stack_size matches Some(m) && m >= quantity as u32
    &&& spec_bucket_has_room(metadata, usage, current_bucket, replacing_unresolved)
}

pub fn profile_swap_candidate(
    hash: u64,
    metadata: &InventoryMetadata,
    quantity: i32,
    usage: &BucketUsage,
    current_bucket: Option<u8>,
    replacing_unresolved: bool,
) -> (allowed: bool)
    ensures
        allowed == profile_swap_allowed(hash, *metadata, quantity, *usage, current_bucket, replacing_unresolved),
{
    if hash > 0xFFFF_FFFFu64 {
        return false;
    }
    let fits = match metadata.max_stack_size {
        Some(m) => m >= quantity as u32,
        None => false,
    };
    fits && bucket_has_room(metadata, usage, current_bucket, replacing_unresolved)
}

} // verus!
