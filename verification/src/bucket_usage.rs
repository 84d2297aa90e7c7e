//! How full the buckets of an inventory page are: each row counted in its definition's
//! bucket when the installed game places it in the page's inventory, rows it cannot place
//! counted as unresolved, and whether the count is complete.
use std::collections::HashMap;
use vstd::prelude::*;
use crate::equipment::slot_named;
use crate::equipment_edit::character_value;
use crate::inventory_page::{BucketUsage, InventoryItemSnapshot, InventoryMetadata, InventoryScope};
use crate::json::{get, get_member, lemma_object_deep, members_view, parse_unsigned_value, unsigned_value, JsonValue, JsonView};
use crate::profile::ProfileItemSnapshot;

verus! {

broadcast use vstd::std_specs::hash::group_hash_axioms;

/// The inventory metadata the installed game gives a definition hash: the first entry of
/// the table with that hash.
pub open spec fn table_lookup(table: Seq<(u64, InventoryMetadata)>, hash: u64) -> Option<InventoryMetadata>
    decreases table.len(),
{
    if table.len() == 0 {
        None
    } else if table[0].0 == hash {
        Some(table[0].1)
    } else {
        table_lookup(table.drop_first(), hash)
    }
}

pub fn metadata_lookup(table: &Vec<(u64, InventoryMetadata)>, hash: u64) -> (r: Option<InventoryMetadata>)
    ensures
        r == table_lookup(table@, hash),
{
    let mut i: usize = 0;
    assert(table@.skip(0) =~= table@);
    while i < table.len()
        invariant
            i <= table@.len(),
            table_lookup(table@.skip(i as int), hash) == table_lookup(table@, hash),
        decreases table.len() - i,
    {
        assert(table@.skip(i as int).drop_first() =~= table@.skip(i + 1));
        if table[i].0 == hash {
            return Some(table[i].1);
        }
        i += 1;
    }
    None
}

pub open spec fn sat_inc(n: usize) -> usize {
    if n == usize::MAX {
        n
    } else {
        (n + 1) as usize
    }
}

/// Counts, unresolved rows and completeness.
pub type Tally = (Map<u8, usize>, usize, bool);

/// One more row: counted in its bucket when the game places it in `scope`; unresolved
/// otherwise, and making the count incomplete when the game places it elsewhere.
pub open spec fn tally_step(t: Tally, meta: Option<InventoryMetadata>, scope: InventoryScope) -> Tally {
    match meta {
        Some(m) => if m.scope == scope {
            (
                t.0.insert(
                    m.native_bucket_id,
                    if t.0.contains_key(m.native_bucket_id) {
                        sat_inc(t.0[m.native_bucket_id])
                    } else {
                        1
                    },
                ),
                t.1,
                t.2,
            )
        } else if m.scope != InventoryScope::Unknown {
            (t.0, sat_inc(t.1), false)
        } else {
            (t.0, sat_inc(t.1), t.2)
        },
        None => (t.0, sat_inc(t.1), t.2),
    }
}

/// The tally after the first `n` looked-up rows.
pub open spec fn tally_all(t: Tally, metas: Seq<Option<InventoryMetadata>>, scope: InventoryScope, n: int) -> Tally
    decreases n,
{
    if n <= 0 || n > metas.len() {
        t
    } else {
        tally_step(tally_all(t, metas, scope, n - 1), metas[n - 1], scope)
    }
}

pub open spec fn usage_view(u: BucketUsage) -> Tally {
    (u.counts@, u.unresolved_count, u.occupancy_complete)
}

fn tally_exec(usage: &mut BucketUsage, meta: Option<InventoryMetadata>, scope: InventoryScope)
    ensures
        usage_view(*final(usage)) == tally_step(usage_view(*old(usage)), meta, scope),
{
    let bump_unresolved = |n: usize| -> (r: usize)
        ensures
            r == sat_inc(n),
        {
            if n == usize::MAX {
                n
            } else {
                n + 1
            }
        };
    match meta {
        Some(m) => if m.scope == scope {
            let current = match usage.counts.get(&m.native_bucket_id) {
                Some(n) => if *n == usize::MAX {
                    *n
                } else {
                    *n + 1
                },
                None => 1,
            };
            usage.counts.insert(m.native_bucket_id, current);
        } else if m.scope != InventoryScope::Unknown {
            usage.unresolved_count = bump_unresolved(usage.unresolved_count);
            usage.occupancy_complete = false;
        } else {
            usage.unresolved_count = bump_unresolved(usage.unresolved_count);
        },
        None => {
            usage.unresolved_count = bump_unresolved(usage.unresolved_count);
        },
    }
}

/// The looked-up metadata of profile rows.
pub open spec fn profile_metas(table: Seq<(u64, InventoryMetadata)>, items: Seq<ProfileItemSnapshot>) -> Seq<Option<InventoryMetadata>> {
    Seq::new(items.len(), |i: int| table_lookup(table, items[i].definition_hash as u64))
}

/// How full a profile page's buckets are, as `tally_all` counts its rows in the profile
/// scope, starting from a complete, empty count.
pub fn profile_bucket_usage(catalog: &Vec<(u64, InventoryMetadata)>, items: &Vec<ProfileItemSnapshot>) -> (usage: BucketUsage)
    ensures
        usage_view(usage) == tally_all(
            (Map::empty(), 0, true),
            profile_metas(catalog@, items@),
            InventoryScope::Profile,
            items@.len() as int,
        ),
{
    let mut usage = BucketUsage { counts: HashMap::new(), unresolved_count: 0, occupancy_complete: true };
    let ghost metas = profile_metas(catalog@, items@);
    let mut i: usize = 0;
    while i < items.len()
        invariant
            i <= items@.len(),
            metas == profile_metas(catalog@, items@),
            usage_view(usage) == tally_all((Map::empty(), 0, true), metas, InventoryScope::Profile, i as int),
        decreases items.len() - i,
    {
        let meta = metadata_lookup(catalog, items[i].definition_hash as u64);
        tally_exec(&mut usage, meta, InventoryScope::Profile);
        i += 1;
    }
    usage
}

/// The looked-up metadata of an equipment object's non-null items, in order.
pub open spec fn equipped_metas(table: Seq<(u64, InventoryMetadata)>, e: Seq<(Seq<char>, JsonView)>, n: int) -> Seq<Option<InventoryMetadata>>
    decreases n,
{
    if n <= 0 || n > e.len() {
        Seq::empty()
    } else {
        equipped_metas(table, e, n - 1) + match e[n - 1].1 {
            JsonView::Null => Seq::<Option<InventoryMetadata>>::empty(),
            v => seq![
                match get(v, "definition_hash"@) {
                    Some(h) => match unsigned_value(h) {
                        Some(hash) => table_lookup(table, hash),
                        None => None,
                    },
                    None => None,
                },
            ],
        }
    }
}

/// Every member of an equipment object names a known slot.
pub open spec fn known_slots_only(e: Seq<(Seq<char>, JsonView)>) -> bool {
    forall|i: int| 0 <= i < e.len() ==> slot_named(#[trigger] e[i].0, 0) is Some
}

/// The tally a character page starts from: its equipped items counted in the character
/// scope; incomplete when the character is missing, its equipment is not an object or names
/// an unknown slot.
pub open spec fn character_start(document: JsonView, ci: int, table: Seq<(u64, InventoryMetadata)>) -> Tally {
    let character = character_value(document, ci);
    let complete = character is Some;
    match character {
        Some(c) => match get(c, "equipment"@) {
            Some(JsonView::Object(e)) => tally_all(
                (Map::empty(), 0, complete && known_slots_only(e)),
                equipped_metas(table, e, e.len() as int),
                InventoryScope::Character,
                equipped_metas(table, e, e.len() as int).len() as int,
            ),
            Some(_) => (Map::empty(), 0, false),
            None => (Map::empty(), 0, complete),
        },
        None => (Map::empty(), 0, complete),
    }
}

pub open spec fn item_metas(table: Seq<(u64, InventoryMetadata)>, items: Seq<InventoryItemSnapshot>) -> Seq<Option<InventoryMetadata>> {
    Seq::new(items.len(), |i: int| table_lookup(table, items[i].definition_hash as u64))
}

/// How full a character page's buckets are: its equipped items and then its stored rows
/// counted in the character scope.
pub fn inventory_bucket_usage(
    document: &JsonValue,
    character_index: usize,
    catalog: &Vec<(u64, InventoryMetadata)>,
    items: &Vec<InventoryItemSnapshot>,
) -> (usage: BucketUsage)
    ensures
        usage_view(usage) == tally_all(
            character_start(document.deep(), character_index as int, catalog@),
            item_metas(catalog@, items@),
            InventoryScope::Character,
            items@.len() as int,
        ),
{
    let mut usage = BucketUsage { counts: HashMap::new(), unresolved_count: 0, occupancy_complete: false };
    let ghost start = character_start(document.deep(), character_index as int, catalog@);
    match crate::equipment_edit::character_value_exec(document, character_index) {
        Some(c) => {
            usage.occupancy_complete = true;
            match get_member(c, "equipment") {
                Some(JsonValue::Object(e)) => {
                    proof {
                        lemma_object_deep(*e);
                    }
                    let ghost ev = members_view(e@);
                    let mut k: usize = 0;
                    while k < e.len()
                        invariant
                            k <= e@.len(),
                            ev == members_view(e@),
                            usage.occupancy_complete == (forall|i: int| 0 <= i < k ==> slot_named(#[trigger] ev[i].0, 0) is Some),
                            usage.counts@ == Map::<u8, usize>::empty(),
                            usage.unresolved_count == 0,
                        decreases e.len() - k,
                    {
                        assert(ev[k as int].0 == e@[k as int].0@);
                        if !crate::character_inventory::known_slot(e[k].0.as_str()) {
                            usage.occupancy_complete = false;
                        }
                        k += 1;
                    }
                    let ghost metas = equipped_metas(catalog@, ev, ev.len() as int);
                    let ghost mut seen: Seq<Option<InventoryMetadata>> = Seq::empty();
                    let ghost first = usage_view(usage);
                    let mut k: usize = 0;
                    while k < e.len()
                        invariant
                            k <= e@.len(),
                            ev == members_view(e@),
                            seen == equipped_metas(catalog@, ev, k as int),
                            usage_view(usage) == tally_all(first, seen, InventoryScope::Character, seen.len() as int),
                        decreases e.len() - k,
                    {
                        assert(ev[k as int] == (e@[k as int].0@, e@[k as int].1.deep()));
                        let ghost before = seen;
                        match &e[k].1 {
                            JsonValue::Null => {
                                proof {
                                    seen = equipped_metas(catalog@, ev, k + 1);
                                    assert(seen =~= before);
                                }
                            },
                            v => {
                                let meta = match get_member(v, "definition_hash") {
                                    Some(h) => match parse_unsigned_value(h) {
                                        Some(hash) => metadata_lookup(catalog, hash),
                                        None => None,
                                    },
                                    None => None,
                                };
                                tally_exec(&mut usage, meta, InventoryScope::Character);
                                proof {
                                    seen = equipped_metas(catalog@, ev, k + 1);
                                    assert(seen =~= before.push(meta));
                                    assert(seen.drop_last() =~= before);
                                    lemma_tally_prefix(first, seen, InventoryScope::Character, before.len() as int);
                                }
                            },
                        }
                        k += 1;
                    }
                },
                Some(_) => {
                    usage.occupancy_complete = false;
                },
                None => {},
            }
        },
        None => {},
    }
    assert(usage_view(usage) == start);
    let ghost metas = item_metas(catalog@, items@);
    let mut i: usize = 0;
    while i < items.len()
        invariant
            i <= items@.len(),
            metas == item_metas(catalog@, items@),
            usage_view(usage) == tally_all(start, metas, InventoryScope::Character, i as int),
        decreases items.len() - i,
    {
        let meta = metadata_lookup(catalog, items[i].definition_hash as u64);
        tally_exec(&mut usage, meta, InventoryScope::Character);
        i += 1;
    }
    usage
}

/// Tallying a prefix of a sequence is tallying the same rows of a longer one.
proof fn lemma_tally_prefix(t: Tally, metas: Seq<Option<InventoryMetadata>>, scope: InventoryScope, k: int)
    requires
        0 <= k < metas.len(),
    ensures
        tally_all(t, metas, scope, k) == tally_all(t, metas.drop_last(), scope, k),
    decreases k,
{
    if k > 0 {
        lemma_tally_prefix(t, metas, scope, k - 1);
    }
}

} // verus!
