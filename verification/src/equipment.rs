//! Equipment slots, class names and ability defaults used by the character editors.
use vstd::prelude::*;
use crate::text::{owned, push_str, str_eq};

verus! {

/// Number of equipment slots a character has.
pub const SLOT_COUNT: usize = 16;

/// The equipment slots in display order: the member name in a character's `equipment`
/// object, its label, and the hash of its inventory bucket.
pub open spec fn slot_table() -> Seq<(Seq<char>, Seq<char>, u64)> {
    seq![
        ("kinetic"@, "Kinetic"@, 1_498_876_634u64),
        ("energy"@, "Energy"@, 2_465_295_065u64),
        ("heavy"@, "Power"@, 953_998_645u64),
        ("helmet"@, "Helmet"@, 3_448_274_439u64),
        ("gauntlets"@, "Gauntlets"@, 3_551_918_588u64),
        ("chest"@, "Chest"@, 14_239_492u64),
        ("legs"@, "Legs"@, 20_886_954u64),
        ("class_item"@, "Class item"@, 1_585_787_867u64),
        ("ghost"@, "Ghost"@, 4_023_194_814u64),
        ("vehicle"@, "Vehicle"@, 2_025_709_351u64),
        ("ship"@, "Ship"@, 284_967_655u64),
        ("subclass"@, "Subclass"@, 3_284_755_031u64),
        ("clan_banner"@, "Clan banner"@, 4_292_445_962u64),
        ("emblem"@, "Emblem"@, 4_274_335_291u64),
        ("emote"@, "Emote"@, 2_401_704_334u64),
        ("finisher"@, "Finisher"@, 3_683_254_069u64),
    ]
}

/// The slot at index `k` of the slot table.
pub fn slot_entry(k: usize) -> (slot: (&'static str, &'static str, u64))
    requires
        k < SLOT_COUNT,
    ensures
        (slot.0@, slot.1@, slot.2) == slot_table()[k as int],
{
    match k {
        0 => ("kinetic", "Kinetic", 1_498_876_634),
        1 => ("energy", "Energy", 2_465_295_065),
        2 => ("heavy", "Power", 953_998_645),
        3 => ("helmet", "Helmet", 3_448_274_439),
        4 => ("gauntlets", "Gauntlets", 3_551_918_588),
        5 => ("chest", "Chest", 14_239_492),
        6 => ("legs", "Legs", 20_886_954),
        7 => ("class_item", "Class item", 1_585_787_867),
        8 => ("ghost", "Ghost", 4_023_194_814),
        9 => ("vehicle", "Vehicle", 2_025_709_351),
        10 => ("ship", "Ship", 284_967_655),
        11 => ("subclass", "Subclass", 3_284_755_031),
        12 => ("clan_banner", "Clan banner", 4_292_445_962),
        13 => ("emblem", "Emblem", 4_274_335_291),
        14 => ("emote", "Emote", 2_401_704_334),
        _ => ("finisher", "Finisher", 3_683_254_069),
    }
}

/// Index of the first slot (from `k` on) whose bucket hash is `bucket`.
pub open spec fn slot_with_bucket(bucket: u64, k: int) -> Option<int>
    decreases SLOT_COUNT - k,
{
    if k < 0 || k >= SLOT_COUNT {
        None
    } else if slot_table()[k].2 == bucket {
        Some(k)
    } else {
        slot_with_bucket(bucket, k + 1)
    }
}

/// Index of the first slot (from `k` on) whose member name is `name`.
pub open spec fn slot_named(name: Seq<char>, k: int) -> Option<int>
    decreases SLOT_COUNT - k,
{
    if k < 0 || k >= SLOT_COUNT {
        None
    } else if slot_table()[k].0 == name {
        Some(k)
    } else {
        slot_named(name, k + 1)
    }
}

/// The equipment slot (member name and label) that items of an inventory bucket are
/// equipped into; buckets without a slot have none.
pub fn equipment_target_for_bucket(bucket_hash: u64) -> (target: Option<(&'static str, &'static str)>)
    ensures
        match slot_with_bucket(bucket_hash, 0) {
            Some(k) => target matches Some(t) && t.0@ == slot_table()[k].0 && t.1@ == slot_table()[k].1,
            None => target is None,
        },
{
    let mut k: usize = 0;
    while k < SLOT_COUNT
        invariant
            k <= SLOT_COUNT,
            slot_with_bucket(bucket_hash, k as int) == slot_with_bucket(bucket_hash, 0),
        decreases SLOT_COUNT - k,
    {
        let (name, label, bucket) = slot_entry(k);
        if bucket == bucket_hash {
            return Some((name, label));
        }
        k += 1;
    }
    None
}

/// The label of an equipment slot, or the member name itself for an unknown slot.
pub fn equipment_slot_label(slot: &str) -> (label: &str)
    ensures
        match slot_named(slot@, 0) {
            Some(k) => label@ == slot_table()[k].1,
            None => label@ == slot@,
        },
{
    let mut k: usize = 0;
    while k < SLOT_COUNT
        invariant
            k <= SLOT_COUNT,
            slot_named(slot@, k as int) == slot_named(slot@, 0),
        decreases SLOT_COUNT - k,
    {
        let (name, label, _) = slot_entry(k);
        if str_eq(name, slot) {
            return label;
        }
        k += 1;
    }
    slot
}

/// The heading of an equipped item card: "Equipped" on the character inventory page,
/// "<slot> Slot" elsewhere.
pub fn equipped_header_label(id_scope: &str, slot_label: &str) -> (label: String)
    ensures
        label@ == if id_scope@ == "character-inventory-equipped"@ {
            "Equipped"@
        } else {
            slot_label@ + " Slot"@
        },
{
    if str_eq(id_scope, "character-inventory-equipped") {
        owned("Equipped")
    } else {
        let mut label = owned(slot_label);
        push_str(&mut label, " Slot");
        label
    }
}

/// The name of a character class.
pub open spec fn class_label(class_type: u64) -> Seq<char> {
    match class_type {
        0 => "Titan"@,
        1 => "Hunter"@,
        2 => "Warlock"@,
        _ => "Invalid class"@,
    }
}

/// The name of a character class.
pub fn class_name(class_type: u64) -> (name: &'static str)
    ensures
        name@ == class_label(class_type),
{
    match class_type {
        0 => "Titan",
        1 => "Hunter",
        2 => "Warlock",
        _ => "Invalid class",
    }
}

/// The subclass a new character of a class starts with; none for an unknown class.
pub fn default_subclass_name(class_type: u64) -> (name: &'static str)
    ensures
        name@ == match class_type {
            0 => "Sunbreaker"@,
            1 => "Nightstalker"@,
            2 => "Dawnblade"@,
            _ => ""@,
        },
{
    match class_type {
        0 => "Sunbreaker",
        1 => "Nightstalker",
        2 => "Dawnblade",
        _ => "",
    }
}

// ---------------------------------------------------------------------------------------
// Abilities
// ---------------------------------------------------------------------------------------

/// One selectable ability: the entry number the settings store.
#[derive(Clone, Copy, Debug, PartialEq, Eq, Structural)]
pub struct AbilityChoice {
    pub entry: u64,
}

/// One attunement (subclass tree): its melee, the supers and perks it offers.
#[derive(Clone, Debug, PartialEq, Eq)]
pub struct Attunement {
    pub melee: AbilityChoice,
    pub super_abilities: Vec<AbilityChoice>,
    pub perks: Vec<AbilityChoice>,
}

/// The abilities a subclass offers in each ability slot, and its attunements.
#[derive(Clone, Debug, PartialEq, Eq)]
pub struct AbilityOptions {
    pub movement: Vec<AbilityChoice>,
    pub grenade: Vec<AbilityChoice>,
    pub super_ability: Vec<AbilityChoice>,
    pub melee: Vec<AbilityChoice>,
    pub class_ability: Vec<AbilityChoice>,
    pub attunements: Vec<Attunement>,
}

/// `entry` is among `choices`.
pub open spec fn offers(choices: Seq<AbilityChoice>, entry: u64) -> bool {
    exists|i: int| 0 <= i < choices.len() && (#[trigger] choices[i]).entry == entry
}

/// The preferred entry when it is offered, else the first offered entry, else the preferred
/// entry anyway.
pub open spec fn pick_ability(choices: Seq<AbilityChoice>, preferred: u64) -> u64 {
    if offers(choices, preferred) {
        preferred
    } else if choices.len() > 0 {
        choices[0].entry
    } else {
        preferred
    }
}

fn offers_exec(choices: &Vec<AbilityChoice>, entry: u64) -> (r: bool)
    ensures
        r == offers(choices@, entry),
{
    let mut i: usize = 0;
    while i < choices.len()
        invariant
            i <= choices@.len(),
            forall|k: int| 0 <= k < i ==> (#[trigger] choices@[k]).entry != entry,
        decreases choices.len() - i,
    {
        if choices[i].entry == entry {
            return true;
        }
        i += 1;
    }
    false
}

fn pick_ability_exec(choices: &Vec<AbilityChoice>, preferred: u64) -> (r: u64)
    ensures
        r == pick_ability(choices@, preferred),
{
    if offers_exec(choices, preferred) {
        preferred
    } else if choices.len() > 0 {
        choices[0].entry
    } else {
        preferred
    }
}

/// The movement ability a new character of a class starts with. Titans start with entry 6
/// from schema 3 on.
pub open spec fn default_movement(class_type: u64, settings_schema: Option<u64>) -> u64 {
    if class_type == 0 && (settings_schema matches Some(v) && v >= 3) {
        6
    } else if class_type == 0 || class_type == 2 {
        5
    } else if class_type == 1 {
        6
    } else {
        4
    }
}

/// The abilities (movement, grenade, super, melee, class ability) a new subclass starts
/// with: the usual defaults where the subclass offers them, else its first offered choice.
pub fn default_ability_values(class_type: u64, abilities: &AbilityOptions, settings_schema: Option<u64>) -> (values: (
    u64,
    u64,
    u64,
    u64,
    u64,
))
    ensures
        values == (
            pick_ability(abilities.movement@, default_movement(class_type, settings_schema)),
            pick_ability(abilities.grenade@, 7),
            pick_ability(abilities.super_ability@, 10),
            pick_ability(abilities.melee@, 11),
            pick_ability(abilities.class_ability@, 2),
        ),
{
    let schema_three = match settings_schema {
        Some(v) => v >= 3,
        None => false,
    };
    let movement = if class_type == 0 && schema_three {
        6
    } else if class_type == 0 || class_type == 2 {
        5
    } else if class_type == 1 {
        6
    } else {
        4
    };
    (
        pick_ability_exec(&abilities.movement, movement),
        pick_ability_exec(&abilities.grenade, 7),
        pick_ability_exec(&abilities.super_ability, 10),
        pick_ability_exec(&abilities.melee, 11),
        pick_ability_exec(&abilities.class_ability, 2),
    )
}

/// Attunement `a` has melee `melee` and offers super `sup`.
pub open spec fn tree_matches_both(a: Attunement, sup: u64, melee: u64) -> bool {
    a.melee.entry == melee && offers(a.super_abilities@, sup)
}

/// Attunement `a` offers `sup` as a super or a perk.
pub open spec fn tree_offers_super_or_perk(a: Attunement, sup: u64) -> bool {
    offers(a.super_abilities@, sup) || offers(a.perks@, sup)
}

/// Index of the first attunement (from `k` on) that satisfies the given test.
pub open spec fn first_tree(paths: Seq<Attunement>, sup: u64, melee: u64, test: int, k: int) -> Option<int>
    decreases paths.len() - k,
{
    if k < 0 || k >= paths.len() {
        None
    } else if (test == 0 && tree_matches_both(paths[k], sup, melee)) || (test == 1 && tree_offers_super_or_perk(
        paths[k],
        sup,
    )) || (test == 2 && paths[k].melee.entry == melee) || (test == 3 && offers(paths[k].super_abilities@, sup)) {
        Some(k)
    } else {
        first_tree(paths, sup, melee, test, k + 1)
    }
}

/// The attunement a character's super and melee select: the first tree with both; else
/// (unless the super is the shared entry 10) the first offering the super as a super or perk;
/// else the first with the melee; else the first offering the super; else the first tree.
pub open spec fn spec_selected_attunement(paths: Seq<Attunement>, sup: u64, melee: u64) -> int {
    match first_tree(paths, sup, melee, 0, 0) {
        Some(i) => i,
        None => match (if sup == 10 {
            None
        } else {
            first_tree(paths, sup, melee, 1, 0)
        }) {
            Some(i) => i,
            None => match first_tree(paths, sup, melee, 2, 0) {
                Some(i) => i,
                None => match first_tree(paths, sup, melee, 3, 0) {
                    Some(i) => i,
                    None => 0,
                },
            },
        },
    }
}

fn tree_test(a: &Attunement, sup: u64, melee: u64, test: u8) -> (r: bool)
    requires
        test < 4,
    ensures
        r == ((test == 0 && tree_matches_both(*a, sup, melee)) || (test == 1 && tree_offers_super_or_perk(*a, sup))
            || (test == 2 && a.melee.entry == melee) || (test == 3 && offers(a.super_abilities@, sup))),
{
    if test == 0 {
        a.melee.entry == melee && offers_exec(&a.super_abilities, sup)
    } else if test == 1 {
        offers_exec(&a.super_abilities, sup) || offers_exec(&a.perks, sup)
    } else if test == 2 {
        a.melee.entry == melee
    } else {
        offers_exec(&a.super_abilities, sup)
    }
}

fn find_tree(paths: &Vec<Attunement>, sup: u64, melee: u64, test: u8) -> (r: Option<usize>)
    requires
        test < 4,
    ensures
        match r {
            Some(i) => first_tree(paths@, sup, melee, test as int, 0) == Some(i as int),
            None => first_tree(paths@, sup, melee, test as int, 0) is None,
        },
{
    let mut k: usize = 0;
    while k < paths.len()
        invariant
            test < 4,
            k <= paths@.len(),
            first_tree(paths@, sup, melee, test as int, k as int) == first_tree(paths@, sup, melee, test as int, 0),
        decreases paths.len() - k,
    {
        if tree_test(&paths[k], sup, melee, test) {
            return Some(k);
        }
        k += 1;
    }
    None
}

/// Which attunement of a subclass the character's super and melee select.
pub fn selected_attunement_index(abilities: &AbilityOptions, super_ability: u64, melee: u64) -> (index: usize)
    ensures
        index as int == spec_selected_attunement(abilities.attunements@, super_ability, melee),
{
    let paths = &abilities.attunements;
    if let Some(i) = find_tree(paths, super_ability, melee, 0) {
        return i;
    }
    if super_ability != 10 {
        if let Some(i) = find_tree(paths, super_ability, melee, 1) {
            return i;
        }
    }
    if let Some(i) = find_tree(paths, super_ability, melee, 2) {
        return i;
    }
    if let Some(i) = find_tree(paths, super_ability, melee, 3) {
        return i;
    }
    0
}

} // verus!
