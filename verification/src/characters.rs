//! Validation of the characters in a settings document, and the ability rules of the
//! Shadowkeep subclasses.
use vstd::prelude::*;
use crate::equipment::{slot_entry, slot_named, slot_table, SLOT_COUNT};
use crate::inventory::{document_version, schema_mode, spec_schema_mode, INVENTORY_FLAG_MASK};
use crate::json::{as_i64, as_u64, get, get_member, lemma_array_deep, lemma_member_after_set, lemma_set_same, lemma_object_deep, member, member_of, members_view, elems_view, parse_unsigned_value, set_member, set_member_exec, find_member, lemma_member_index_range, unsigned_value, value_as_i64, value_as_u64, JsonNumber, JsonValue, JsonView, NumberView};
use crate::settings::{shadowkeep_subclass_rules, spec_shadowkeep_subclass_rules};
use crate::text::{decimal, owned, push_decimal, push_str, str_eq};

verus! {

/// Most characters an account holds.
pub const MAX_CHARACTERS: usize = 3;
/// Most plug entries an equipped item holds.
pub const MAX_PLUGS: usize = 12;
/// The engine's "no definition" hash.
pub const NO_DEFINITION_HASH: u64 = 0x811C_9DC5;

// ---------------------------------------------------------------------------------------
// Ability rules
// ---------------------------------------------------------------------------------------

/// The definition hash of the subclass a character has equipped, if it reads as one.
pub open spec fn subclass_hash(character: Seq<(Seq<char>, JsonView)>) -> Option<u64> {
    match member(character, "equipment"@) {
        Some(JsonView::Object(e)) => match member(e, "subclass"@) {
            Some(JsonView::Object(s)) => match member(s, "definition_hash"@) {
                Some(h) => unsigned_value(h),
                None => None,
            },
            _ => None,
        },
        _ => None,
    }
}

/// A member read as an unsigned integer.
pub open spec fn member_u64(o: Seq<(Seq<char>, JsonView)>, key: Seq<char>) -> Option<u64> {
    match member(o, key) {
        Some(v) => as_u64(v),
        None => None,
    }
}

/// The super and melee entries that a Shadowkeep subclass supports together.
pub open spec fn supported_pair(super_ability: u64, melee: u64, middle_super: u64) -> bool {
    (super_ability == 10 && melee == 11) || (super_ability == 10 && melee == 15) || (super_ability
        == middle_super && melee == 21)
}

/// An ability slot whose entry lies outside what the subclass allows.
pub open spec fn ability_out_of_range(o: Seq<(Seq<char>, JsonView)>, key: Seq<char>, lo: u64, hi: u64) -> bool {
    member_u64(o, key) matches Some(v) && !(lo <= v <= hi)
}

/// What is wrong with a character's abilities for its Shadowkeep subclass, if anything:
/// a movement, grenade or class ability outside the subclass's entries, or a super and melee
/// pair that no tree of the subclass has. Characters without a known Shadowkeep subclass
/// have none.
pub open spec fn spec_ability_issue(character: Seq<(Seq<char>, JsonView)>) -> Option<Seq<char>> {
    match subclass_hash(character) {
        None => None,
        Some(h) => match spec_shadowkeep_subclass_rules(h) {
            None => None,
            Some(rules) => {
                let name = rules.0;
                let middle = rules.1;
                if ability_out_of_range(character, "movement_ability"@, 4, 6) {
                    Some(
                        "has an unsupported movement ability entry "@ + decimal(
                            member_u64(character, "movement_ability"@)->0 as nat,
                        ) + " for "@ + name,
                    )
                } else if ability_out_of_range(character, "grenade_ability"@, 7, 9) {
                    Some(
                        "has an unsupported grenade ability entry "@ + decimal(
                            member_u64(character, "grenade_ability"@)->0 as nat,
                        ) + " for "@ + name,
                    )
                } else if ability_out_of_range(character, "class_ability"@, 2, 3) {
                    Some(
                        "has an unsupported class ability entry "@ + decimal(
                            member_u64(character, "class_ability"@)->0 as nat,
                        ) + " for "@ + name,
                    )
                } else {
                    match (member_u64(character, "super_ability"@), member_u64(character, "melee_ability"@)) {
                        (Some(s), Some(m)) => if supported_pair(s, m, middle) {
                            None
                        } else {
                            Some(
                                "has an unsupported super and melee combination ("@ + decimal(s as nat) + "/"@
                                    + decimal(m as nat) + ") for "@ + name + "; expected 10/11, 10/15, or "@
                                    + decimal(middle as nat) + "/21"@,
                            )
                        },
                        _ => None,
                    }
                }
            },
        },
    }
}

fn member_u64_exec(o: &Vec<(String, JsonValue)>, key: &str) -> (r: Option<u64>)
    ensures
        r == member_u64(members_view(o@), key@),
{
    match member_of(o, key) {
        Some(v) => value_as_u64(v),
        None => None,
    }
}

fn subclass_hash_exec(character: &Vec<(String, JsonValue)>) -> (r: Option<u64>)
    ensures
        r == subclass_hash(members_view(character@)),
{
    let equipment = match member_of(character, "equipment") {
        Some(e) => e,
        None => {
            return None;
        },
    };
    let e = match equipment {
        JsonValue::Object(e) => e,
        _ => {
            return None;
        },
    };
    proof {
        lemma_object_deep(*e);
    }
    let subclass = match member_of(e, "subclass") {
        Some(s) => s,
        None => {
            return None;
        },
    };
    let s = match subclass {
        JsonValue::Object(s) => s,
        _ => {
            return None;
        },
    };
    proof {
        lemma_object_deep(*s);
    }
    match member_of(s, "definition_hash") {
        Some(h) => parse_unsigned_value(h),
        None => None,
    }
}

fn range_issue(label: &str, value: u64, name: &str) -> (t: String)
    ensures
        t@ == "has an unsupported "@ + label@ + " entry "@ + decimal(value as nat) + " for "@ + name@,
{
    let mut t = owned("has an unsupported ");
    push_str(&mut t, label);
    push_str(&mut t, " entry ");
    push_decimal(&mut t, value);
    push_str(&mut t, " for ");
    push_str(&mut t, name);
    t
}

/// What is wrong with a character's abilities for its Shadowkeep subclass, if anything.
pub fn character_ability_issue(character: &Vec<(String, JsonValue)>) -> (issue: Option<String>)
    ensures
        match spec_ability_issue(members_view(character@)) {
            Some(t) => issue matches Some(s) && s@ == t,
            None => issue is None,
        },
{
    let hash = match subclass_hash_exec(character) {
        Some(h) => h,
        None => {
            return None;
        },
    };
    let (name, middle) = match shadowkeep_subclass_rules(hash) {
        Some(r) => r,
        None => {
            return None;
        },
    };
    if let Some(v) = member_u64_exec(character, "movement_ability") {
        if !(4 <= v && v <= 6) {
            let t = range_issue("movement ability", v, name);
            proof {
                reveal_strlit("movement ability");
                reveal_strlit("has an unsupported movement ability entry ");
                reveal_strlit("has an unsupported ");
                reveal_strlit(" entry ");
                assert(t@ =~= "has an unsupported movement ability entry "@ + decimal(v as nat) + " for "@ + name@);
            }
            return Some(t);
        }
    }
    if let Some(v) = member_u64_exec(character, "grenade_ability") {
        if !(7 <= v && v <= 9) {
            let t = range_issue("grenade ability", v, name);
            proof {
                reveal_strlit("grenade ability");
                reveal_strlit("has an unsupported grenade ability entry ");
                reveal_strlit("has an unsupported ");
                reveal_strlit(" entry ");
                assert(t@ =~= "has an unsupported grenade ability entry "@ + decimal(v as nat) + " for "@ + name@);
            }
            return Some(t);
        }
    }
    if let Some(v) = member_u64_exec(character, "class_ability") {
        if !(2 <= v && v <= 3) {
            let t = range_issue("class ability", v, name);
            proof {
                reveal_strlit("class ability");
                reveal_strlit("has an unsupported class ability entry ");
                reveal_strlit("has an unsupported ");
                reveal_strlit(" entry ");
                assert(t@ =~= "has an unsupported class ability entry "@ + decimal(v as nat) + " for "@ + name@);
            }
            return Some(t);
        }
    }
    let s = match member_u64_exec(character, "super_ability") {
        Some(s) => s,
        None => {
            return None;
        },
    };
    let m = match member_u64_exec(character, "melee_ability") {
        Some(m) => m,
        None => {
            return None;
        },
    };
    if (s == 10 && m == 11) || (s == 10 && m == 15) || (s == middle && m == 21) {
        return None;
    }
    let mut t = owned("has an unsupported super and melee combination (");
    push_decimal(&mut t, s);
    push_str(&mut t, "/");
    push_decimal(&mut t, m);
    push_str(&mut t, ") for ");
    push_str(&mut t, name);
    push_str(&mut t, "; expected 10/11, 10/15, or ");
    push_decimal(&mut t, middle);
    push_str(&mut t, "/21");
    Some(t)
}

// ---------------------------------------------------------------------------------------
// Character validation
// ---------------------------------------------------------------------------------------

/// The optional members that must be unsigned integers no larger than a bound: member
/// name, how an error names it, and the bound.
pub open spec fn bounded_fields() -> Seq<(Seq<char>, Seq<char>, u64)> {
    seq![
        ("class"@, "class"@, 2u64),
        ("race"@, "race"@, 2u64),
        ("gender"@, "gender"@, 1u64),
        ("level"@, "level (expected 0 to 255)"@, 255u64),
        ("movement_ability"@, "movement ability"@, 63u64),
        ("grenade_ability"@, "grenade ability"@, 63u64),
        ("super_ability"@, "super ability"@, 63u64),
        ("melee_ability"@, "melee ability"@, 63u64),
        ("class_ability"@, "class ability"@, 63u64),
    ]
}

fn bounded_entry(k: usize) -> (e: (&'static str, &'static str, u64))
    requires
        k < 9,
    ensures
        (e.0@, e.1@, e.2) == bounded_fields()[k as int],
{
    match k {
        0 => ("class", "class", 2),
        1 => ("race", "race", 2),
        2 => ("gender", "gender", 1),
        3 => ("level", "level (expected 0 to 255)", 255),
        4 => ("movement_ability", "movement ability", 63),
        5 => ("grenade_ability", "grenade ability", 63),
        6 => ("super_ability", "super ability", 63),
        7 => ("melee_ability", "melee ability", 63),
        _ => ("class_ability", "class ability", 63),
    }
}

/// The optional members that must be booleans, and how an error names them.
pub open spec fn boolean_fields() -> Seq<(Seq<char>, Seq<char>)> {
    seq![
        ("accepted"@, "accepted state"@),
        ("preview_available"@, "preview availability"@),
        ("content_bypass"@, "content bypass state"@),
    ]
}

fn boolean_entry(k: usize) -> (e: (&'static str, &'static str))
    requires
        k < 3,
    ensures
        (e.0@, e.1@) == boolean_fields()[k as int],
{
    match k {
        0 => ("accepted", "accepted state"),
        1 => ("preview_available", "preview availability"),
        _ => ("content_bypass", "content bypass state"),
    }
}

/// A present member that is not an unsigned integer within its bound.
pub open spec fn bounded_bad(o: Seq<(Seq<char>, JsonView)>, f: (Seq<char>, Seq<char>, u64)) -> bool {
    match member(o, f.0) {
        Some(v) => !(as_u64(v) matches Some(n) && n <= f.2),
        None => false,
    }
}

/// Index of the first bounded member (from `k` on) that is bad.
pub open spec fn first_bounded_bad(o: Seq<(Seq<char>, JsonView)>, k: int) -> Option<int>
    decreases 9 - k,
{
    if k < 0 || k >= 9 {
        None
    } else if bounded_bad(o, bounded_fields()[k]) {
        Some(k)
    } else {
        first_bounded_bad(o, k + 1)
    }
}

/// Index of the first boolean member (from `k` on) that is present and not a boolean.
pub open spec fn first_boolean_bad(o: Seq<(Seq<char>, JsonView)>, k: int) -> Option<int>
    decreases 3 - k,
{
    if k < 0 || k >= 3 {
        None
    } else if member(o, boolean_fields()[k].0) matches Some(v) && !(v is Bool) {
        Some(k)
    } else {
        first_boolean_bad(o, k + 1)
    }
}

/// The appearance value is present and is not a number that is finite as a 32-bit float.
pub open spec fn appearance_bad(o: Seq<(Seq<char>, JsonView)>) -> bool {
    match member(o, "appearance_value"@) {
        Some(JsonView::Number(NumberView::Float(_, finite))) => !finite,
        Some(JsonView::Number(_)) => false,
        Some(_) => true,
        None => false,
    }
}

/// The last orbited destination is present and is not an unsigned value that fits 32 bits.
pub open spec fn orbit_bad(o: Seq<(Seq<char>, JsonView)>) -> bool {
    match member(o, "last_orbited_destination"@) {
        Some(v) => !(unsigned_value(v) matches Some(x) && x <= u32::MAX),
        None => false,
    }
}

/// The character's SOID reads as a non-zero unsigned value.
pub open spec fn soid_ok(o: Seq<(Seq<char>, JsonView)>) -> bool {
    member(o, "soid"@) matches Some(v) && unsigned_value(v) matches Some(x) && x != 0
}

/// A definition or plug hash: an unsigned value that fits 32 bits and is not the sentinel.
pub open spec fn hash_ok(v: JsonView) -> bool {
    unsigned_value(v) matches Some(h) && h <= u32::MAX && h != NO_DEFINITION_HASH
}

/// Index of the first plug entry (from `k` on) that is neither null nor a valid hash.
pub open spec fn first_bad_plug(p: Seq<JsonView>, k: int) -> Option<int>
    decreases p.len() - k,
{
    if k < 0 || k >= p.len() {
        None
    } else if !(p[k] is Null) && !hash_ok(p[k]) {
        Some(k)
    } else {
        first_bad_plug(p, k + 1)
    }
}

/// What is wrong with the item equipped in a slot, as the rest of the sentence after the
/// slot's label; `e` is a present, non-null member of `equipment`.
pub open spec fn slot_issue(e: JsonView, supports_flags: bool) -> Option<Seq<char>> {
    match e {
        JsonView::Object(o) => {
            if !(member(o, "definition_hash"@) matches Some(h) && hash_ok(h)) {
                Some("has an invalid definition hash"@)
            } else if !(member(o, "instance_soid"@) matches Some(s) && unsigned_value(s) matches Some(x) && x
                != 0) {
                Some("has an invalid instance SOID"@)
            } else if !(member(o, "level"@) matches Some(l) && as_i64(l) matches Some(x) && 0 <= x <= i32::MAX) {
                Some("has an invalid item level"@)
            } else if !(member(o, "quantity"@) matches Some(q) && as_i64(q) matches Some(x) && 1 <= x
                <= i32::MAX) {
                Some("has an invalid quantity"@)
            } else {
                let plugs = match member(o, "plugs"@) {
                    Some(JsonView::Null) => None,
                    Some(JsonView::Array(p)) => if p.len() > MAX_PLUGS {
                        Some("cannot contain more than 12 plugs"@)
                    } else if first_bad_plug(p, 0) is Some {
                        Some("contains an invalid plug hash"@)
                    } else {
                        None
                    },
                    _ => Some("plugs must be null or an array"@),
                };
                if plugs is Some {
                    plugs
                } else {
                    match member(o, "flags"@) {
                        Some(f) => if !supports_flags {
                            Some("flags require settings schema 4 or newer"@)
                        } else if !(unsigned_value(f) matches Some(x) && x <= INVENTORY_FLAG_MASK) {
                            Some("flags must be between 0 and 7"@)
                        } else {
                            None
                        },
                        None => None,
                    }
                }
            }
        },
        _ => Some("must be an object or null"@),
    }
}

/// Index of the first equipment member (from `k` on) that names no slot.
pub open spec fn first_unknown_slot(e: Seq<(Seq<char>, JsonView)>, k: int) -> Option<int>
    decreases e.len() - k,
{
    if k < 0 || k >= e.len() {
        None
    } else if slot_named(e[k].0, 0) is None {
        Some(k)
    } else {
        first_unknown_slot(e, k + 1)
    }
}

/// The first problem among the equipped items, slots taken in slot order from `k` on.
pub open spec fn first_slot_error(
    e: Seq<(Seq<char>, JsonView)>,
    prefix: Seq<char>,
    supports_flags: bool,
    k: int,
) -> Option<Seq<char>>
    decreases SLOT_COUNT - k,
{
    if k < 0 || k >= SLOT_COUNT {
        None
    } else {
        match member(e, slot_table()[k].0) {
            Some(v) => if v is Null {
                first_slot_error(e, prefix, supports_flags, k + 1)
            } else {
                match slot_issue(v, supports_flags) {
                    Some(t) => Some(prefix + seq![' '] + slot_table()[k].1 + seq![' '] + t),
                    None => first_slot_error(e, prefix, supports_flags, k + 1),
                }
            },
            None => first_slot_error(e, prefix, supports_flags, k + 1),
        }
    }
}

/// "Character" and the character's one-based number.
pub open spec fn character_prefix(number: nat) -> Seq<char> {
    "Character "@ + decimal(number)
}

/// The first problem with character number `number`, if any.
pub open spec fn character_error(c: JsonView, number: nat, supports_flags: bool) -> Option<Seq<char>> {
    let prefix = character_prefix(number);
    match c {
        JsonView::Object(o) => if !soid_ok(o) {
            Some(prefix + " has an invalid SOID"@)
        } else if first_bounded_bad(o, 0) is Some {
            Some(prefix + " has an invalid "@ + bounded_fields()[first_bounded_bad(o, 0)->0].1)
        } else if first_boolean_bad(o, 0) is Some {
            Some(prefix + " has an invalid "@ + boolean_fields()[first_boolean_bad(o, 0)->0].1)
        } else if appearance_bad(o) {
            Some(prefix + " has an invalid appearance value"@)
        } else if orbit_bad(o) {
            Some(prefix + " has an invalid last orbited destination"@)
        } else {
            match member(o, "equipment"@) {
                None => None,
                Some(JsonView::Object(e)) => match spec_ability_issue(o) {
                    Some(issue) => Some(prefix + seq![' '] + issue),
                    None => match first_unknown_slot(e, 0) {
                        Some(k) => Some(prefix + " has an unknown equipment slot: "@ + e[k].0),
                        None => first_slot_error(e, prefix, supports_flags, 0),
                    },
                },
                Some(_) => Some(prefix + " equipment must be an object"@),
            }
        },
        _ => Some(prefix + " must be an object"@),
    }
}

/// The first problem among the characters from index `k` on.
pub open spec fn first_character_error(chars: Seq<JsonView>, supports_flags: bool, k: int) -> Option<Seq<char>>
    decreases chars.len() - k,
{
    if k < 0 || k >= chars.len() {
        None
    } else {
        match character_error(chars[k], (k + 1) as nat, supports_flags) {
            Some(t) => Some(t),
            None => first_character_error(chars, supports_flags, k + 1),
        }
    }
}

/// The `characters` member of the document's `state` object, if both are there.
pub open spec fn characters_value(document: JsonView) -> Option<JsonView> {
    match get(document, "state"@) {
        Some(state) => get(state, "characters"@),
        None => None,
    }
}

/// The first problem with the document's characters, if any. A document without
/// characters has none.
pub open spec fn spec_characters_error(document: JsonView) -> Option<Seq<char>> {
    let mode = spec_schema_mode(document_version(document));
    let supports_flags = match mode.spec_version() {
        Some(v) => v >= 4,
        None => false,
    };
    match characters_value(document) {
        None => None,
        Some(JsonView::Array(chars)) => if chars.len() > MAX_CHARACTERS {
            Some("state.characters cannot contain more than 3 characters"@)
        } else {
            first_character_error(chars, supports_flags, 0)
        },
        Some(_) => Some("state.characters must be an array"@),
    }
}

/// Member `key` is absent, or an unsigned integer no larger than `max`.
pub open spec fn absent_or_at_most(o: Seq<(Seq<char>, JsonView)>, key: Seq<char>, max: u64) -> bool {
    member(o, key) matches Some(v) ==> (v matches JsonView::Number(NumberView::PosInt(n)) && n <= max)
}

/// A character without equipment whose members are all well formed: a nonzero SOID; class
/// and race 0 to 2, gender 0 or 1, level 0 to 255 and each ability entry 0 to 63 when
/// present; booleans where flags are present; an integer appearance value and a 32-bit
/// last orbited destination when present.
pub open spec fn well_formed_character(o: Seq<(Seq<char>, JsonView)>) -> bool {
    &&& member(o, "soid"@) matches Some(v) && unsigned_value(v) matches Some(x) && x != 0
    &&& absent_or_at_most(o, "class"@, 2)
    &&& absent_or_at_most(o, "race"@, 2)
    &&& absent_or_at_most(o, "gender"@, 1)
    &&& absent_or_at_most(o, "level"@, 255)
    &&& absent_or_at_most(o, "movement_ability"@, 63)
    &&& absent_or_at_most(o, "grenade_ability"@, 63)
    &&& absent_or_at_most(o, "super_ability"@, 63)
    &&& absent_or_at_most(o, "melee_ability"@, 63)
    &&& absent_or_at_most(o, "class_ability"@, 63)
    &&& member(o, "accepted"@) matches Some(v) ==> v is Bool
    &&& member(o, "preview_available"@) matches Some(v) ==> v is Bool
    &&& member(o, "content_bypass"@) matches Some(v) ==> v is Bool
    &&& member(o, "appearance_value"@) matches Some(v) ==> (v matches JsonView::Number(NumberView::PosInt(_)))
    &&& member(o, "last_orbited_destination"@) matches Some(v) ==> (unsigned_value(v) matches Some(x) && x <= u32::MAX)
    &&& member(o, "equipment"@) is None
}

/// A well-formed character is accepted: validation finds nothing wrong with it, whatever its
/// number and schema. In particular a Warlock (class 2), gender 1 or level 255 is fine.
pub proof fn law_well_formed_character_is_accepted(o: Seq<(Seq<char>, JsonView)>, number: nat, supports_flags: bool)
    requires
        well_formed_character(o),
    ensures
        character_error(JsonView::Object(o), number, supports_flags) is None,
{
    reveal_with_fuel(first_bounded_bad, 10);
    reveal_with_fuel(first_boolean_bad, 4);
    assert(bounded_fields()[0].0 == "class"@ && bounded_fields()[0].2 == 2);
    assert(bounded_fields()[1].0 == "race"@ && bounded_fields()[1].2 == 2);
    assert(bounded_fields()[2].0 == "gender"@ && bounded_fields()[2].2 == 1);
    assert(bounded_fields()[3].0 == "level"@ && bounded_fields()[3].2 == 255);
    assert(bounded_fields()[4].0 == "movement_ability"@ && bounded_fields()[4].2 == 63);
    assert(bounded_fields()[5].0 == "grenade_ability"@ && bounded_fields()[5].2 == 63);
    assert(bounded_fields()[6].0 == "super_ability"@ && bounded_fields()[6].2 == 63);
    assert(bounded_fields()[7].0 == "melee_ability"@ && bounded_fields()[7].2 == 63);
    assert(bounded_fields()[8].0 == "class_ability"@ && bounded_fields()[8].2 == 63);
    assert(boolean_fields()[0].0 == "accepted"@);
    assert(boolean_fields()[1].0 == "preview_available"@);
    assert(boolean_fields()[2].0 == "content_bypass"@);
    assert(first_bounded_bad(o, 0) is None);
    assert(first_boolean_bad(o, 0) is None);
}

/// A document whose characters, at most three, are all well formed passes character
/// validation.
pub proof fn law_well_formed_characters_are_accepted(document: JsonView)
    requires
        characters_value(document) matches Some(JsonView::Array(chars)) && chars.len() <= 3 && forall|k: int|
            0 <= k < chars.len() ==> (#[trigger] chars[k] matches JsonView::Object(o) && well_formed_character(o)),
    ensures
        spec_characters_error(document) is None,
{
    let chars = characters_value(document)->Some_0->Array_0;
    let mode = spec_schema_mode(document_version(document));
    let supports_flags = match mode.spec_version() {
        Some(v) => v >= 4,
        None => false,
    };
    lemma_first_character_error_none(chars, supports_flags, 0);
}

proof fn lemma_first_character_error_none(chars: Seq<JsonView>, supports_flags: bool, k: int)
    requires
        0 <= k,
        forall|j: int| 0 <= j < chars.len() ==> (#[trigger] chars[j] matches JsonView::Object(o) && well_formed_character(o)),
    ensures
        first_character_error(chars, supports_flags, k) is None,
    decreases chars.len() - k,
{
    if k < chars.len() {
        assert(chars[k] matches JsonView::Object(o) && well_formed_character(o));
        law_well_formed_character_is_accepted(chars[k]->Object_0, (k + 1) as nat, supports_flags);
        lemma_first_character_error_none(chars, supports_flags, k + 1);
    }
}

fn join(prefix: &str, rest: &str) -> (t: String)
    ensures
        t@ == prefix@ + rest@,
{
    let mut t = owned(prefix);
    push_str(&mut t, rest);
    t
}

fn first_bounded_bad_exec(o: &Vec<(String, JsonValue)>) -> (r: Option<usize>)
    ensures
        match r {
            Some(k) => first_bounded_bad(members_view(o@), 0) == Some(k as int) && k < 9,
            None => first_bounded_bad(members_view(o@), 0) is None,
        },
{
    let mut k: usize = 0;
    while k < 9
        invariant
            k <= 9,
            first_bounded_bad(members_view(o@), k as int) == first_bounded_bad(members_view(o@), 0),
        decreases 9 - k,
    {
        let (key, _, max) = bounded_entry(k);
        let bad = match member_of(o, key) {
            Some(v) => match value_as_u64(v) {
                Some(n) => n > max,
                None => true,
            },
            None => false,
        };
        if bad {
            return Some(k);
        }
        k += 1;
    }
    None
}

fn first_boolean_bad_exec(o: &Vec<(String, JsonValue)>) -> (r: Option<usize>)
    ensures
        match r {
            Some(k) => first_boolean_bad(members_view(o@), 0) == Some(k as int) && k < 3,
            None => first_boolean_bad(members_view(o@), 0) is None,
        },
{
    let mut k: usize = 0;
    while k < 3
        invariant
            k <= 3,
            first_boolean_bad(members_view(o@), k as int) == first_boolean_bad(members_view(o@), 0),
        decreases 3 - k,
    {
        let (key, _) = boolean_entry(k);
        let bad = match member_of(o, key) {
            Some(JsonValue::Bool(_)) => false,
            Some(_) => true,
            None => false,
        };
        if bad {
            return Some(k);
        }
        k += 1;
    }
    None
}

fn appearance_bad_exec(o: &Vec<(String, JsonValue)>) -> (r: bool)
    ensures
        r == appearance_bad(members_view(o@)),
{
    match member_of(o, "appearance_value") {
        Some(JsonValue::Number(JsonNumber::Float(f))) => !f.finite_as_f32,
        Some(JsonValue::Number(_)) => false,
        Some(_) => true,
        None => false,
    }
}

fn orbit_bad_exec(o: &Vec<(String, JsonValue)>) -> (r: bool)
    ensures
        r == orbit_bad(members_view(o@)),
{
    match member_of(o, "last_orbited_destination") {
        Some(v) => match parse_unsigned_value(v) {
            Some(x) => x > u32::MAX as u64,
            None => true,
        },
        None => false,
    }
}

fn soid_ok_exec(o: &Vec<(String, JsonValue)>) -> (r: bool)
    ensures
        r == soid_ok(members_view(o@)),
{
    match member_of(o, "soid") {
        Some(v) => match parse_unsigned_value(v) {
            Some(x) => x != 0,
            None => false,
        },
        None => false,
    }
}

fn hash_ok_exec(v: &JsonValue) -> (r: bool)
    ensures
        r == hash_ok(v.deep()),
{
    match parse_unsigned_value(v) {
        Some(h) => h <= u32::MAX as u64 && h != NO_DEFINITION_HASH,
        None => false,
    }
}

fn first_bad_plug_exec(p: &Vec<JsonValue>) -> (r: bool)
    ensures
        r == first_bad_plug(elems_view(p@), 0) is Some,
{
    let ghost pv = elems_view(p@);
    let mut k: usize = 0;
    while k < p.len()
        invariant
            k <= p@.len(),
            pv == elems_view(p@),
            first_bad_plug(pv, k as int) == first_bad_plug(pv, 0),
        decreases p.len() - k,
    {
        let bad = match &p[k] {
            JsonValue::Null => false,
            v => !hash_ok_exec(v),
        };
        if bad {
            return true;
        }
        k += 1;
    }
    false
}

fn slot_issue_exec(e: &JsonValue, supports_flags: bool) -> (r: Option<&'static str>)
    ensures
        match slot_issue(e.deep(), supports_flags) {
            Some(t) => r matches Some(s) && s@ == t,
            None => r is None,
        },
{
    let o = match e {
        JsonValue::Object(o) => o,
        _ => {
            return Some("must be an object or null");
        },
    };
    proof {
        lemma_object_deep(*o);
    }
    let hash_good = match member_of(o, "definition_hash") {
        Some(h) => hash_ok_exec(h),
        None => false,
    };
    if !hash_good {
        return Some("has an invalid definition hash");
    }
    let soid_good = match member_of(o, "instance_soid") {
        Some(s) => match parse_unsigned_value(s) {
            Some(x) => x != 0,
            None => false,
        },
        None => false,
    };
    if !soid_good {
        return Some("has an invalid instance SOID");
    }
    let level_good = match member_of(o, "level") {
        Some(l) => match value_as_i64(l) {
            Some(x) => 0 <= x && x <= i32::MAX as i64,
            None => false,
        },
        None => false,
    };
    if !level_good {
        return Some("has an invalid item level");
    }
    let quantity_good = match member_of(o, "quantity") {
        Some(q) => match value_as_i64(q) {
            Some(x) => 1 <= x && x <= i32::MAX as i64,
            None => false,
        },
        None => false,
    };
    if !quantity_good {
        return Some("has an invalid quantity");
    }
    match member_of(o, "plugs") {
        Some(JsonValue::Null) => {},
        Some(JsonValue::Array(p)) => {
            proof {
                lemma_array_deep(*p);
            }
            if p.len() > MAX_PLUGS {
                return Some("cannot contain more than 12 plugs");
            }
            if first_bad_plug_exec(p) {
                return Some("contains an invalid plug hash");
            }
        },
        _ => {
            return Some("plugs must be null or an array");
        },
    }
    match member_of(o, "flags") {
        Some(f) => {
            if !supports_flags {
                return Some("flags require settings schema 4 or newer");
            }
            let good = match parse_unsigned_value(f) {
                Some(x) => x <= INVENTORY_FLAG_MASK as u64,
                None => false,
            };
            if !good {
                return Some("flags must be between 0 and 7");
            }
            None
        },
        None => None,
    }
}

fn first_unknown_slot_exec(e: &Vec<(String, JsonValue)>) -> (r: Option<usize>)
    ensures
        match r {
            Some(k) => first_unknown_slot(members_view(e@), 0) == Some(k as int) && k < e@.len(),
            None => first_unknown_slot(members_view(e@), 0) is None,
        },
{
    let ghost ev = members_view(e@);
    let mut k: usize = 0;
    while k < e.len()
        invariant
            k <= e@.len(),
            ev == members_view(e@),
            first_unknown_slot(ev, k as int) == first_unknown_slot(ev, 0),
        decreases e.len() - k,
    {
        let name = e[k].0.as_str();
        let mut j: usize = 0;
        let mut known = false;
        while j < SLOT_COUNT && !known
            invariant
                j <= SLOT_COUNT,
                k < e@.len(),
                name@ == ev[k as int].0,
                known ==> slot_named(name@, 0) is Some,
                !known ==> slot_named(name@, j as int) == slot_named(name@, 0),
            decreases (SLOT_COUNT - j) * 2 + if known {
                0int
            } else {
                1int
            },
        {
            let (slot, _, _) = slot_entry(j);
            if str_eq(slot, name) {
                known = true;
            } else {
                j += 1;
            }
        }
        if !known {
            return Some(k);
        }
        k += 1;
    }
    None
}

fn first_slot_error_exec(e: &Vec<(String, JsonValue)>, prefix: &str, supports_flags: bool) -> (r: Option<String>)
    ensures
        match first_slot_error(members_view(e@), prefix@, supports_flags, 0) {
            Some(t) => r matches Some(s) && s@ == t,
            None => r is None,
        },
{
    let ghost ev = members_view(e@);
    let mut k: usize = 0;
    while k < SLOT_COUNT
        invariant
            k <= SLOT_COUNT,
            ev == members_view(e@),
            first_slot_error(ev, prefix@, supports_flags, k as int) == first_slot_error(ev, prefix@, supports_flags, 0),
        decreases SLOT_COUNT - k,
    {
        let (slot, label, _) = slot_entry(k);
        match member_of(e, slot) {
            Some(JsonValue::Null) => {},
            Some(v) => {
                match slot_issue_exec(v, supports_flags) {
                    Some(t) => {
                        let mut m = owned(prefix);
                        push_str(&mut m, " ");
                        push_str(&mut m, label);
                        push_str(&mut m, " ");
                        push_str(&mut m, t);
                        proof {
                            reveal_strlit(" ");
                        }
                        return Some(m);
                    },
                    None => {},
                }
            },
            None => {},
        }
        k += 1;
    }
    None
}

fn character_error_exec(c: &JsonValue, number: usize, supports_flags: bool) -> (r: Option<String>)
    ensures
        match character_error(c.deep(), number as nat, supports_flags) {
            Some(t) => r matches Some(s) && s@ == t,
            None => r is None,
        },
{
    let mut prefix = owned("Character ");
    push_decimal(&mut prefix, number as u64);
    let o = match c {
        JsonValue::Object(o) => o,
        _ => {
            return Some(join(prefix.as_str(), " must be an object"));
        },
    };
    proof {
        lemma_object_deep(*o);
    }
    if !soid_ok_exec(o) {
        return Some(join(prefix.as_str(), " has an invalid SOID"));
    }
    if let Some(k) = first_bounded_bad_exec(o) {
        let (_, label, _) = bounded_entry(k);
        let mut m = join(prefix.as_str(), " has an invalid ");
        push_str(&mut m, label);
        return Some(m);
    }
    if let Some(k) = first_boolean_bad_exec(o) {
        let (_, label) = boolean_entry(k);
        let mut m = join(prefix.as_str(), " has an invalid ");
        push_str(&mut m, label);
        return Some(m);
    }
    if appearance_bad_exec(o) {
        return Some(join(prefix.as_str(), " has an invalid appearance value"));
    }
    if orbit_bad_exec(o) {
        return Some(join(prefix.as_str(), " has an invalid last orbited destination"));
    }
    let equipment = match member_of(o, "equipment") {
        Some(e) => e,
        None => {
            return None;
        },
    };
    let e = match equipment {
        JsonValue::Object(e) => e,
        _ => {
            return Some(join(prefix.as_str(), " equipment must be an object"));
        },
    };
    proof {
        lemma_object_deep(*e);
    }
    if let Some(issue) = character_ability_issue(o) {
        let mut m = join(prefix.as_str(), " ");
        push_str(&mut m, issue.as_str());
        proof {
            reveal_strlit(" ");
        }
        return Some(m);
    }
    if let Some(k) = first_unknown_slot_exec(e) {
        let mut m = join(prefix.as_str(), " has an unknown equipment slot: ");
        push_str(&mut m, e[k].0.as_str());
        return Some(m);
    }
    first_slot_error_exec(e, prefix.as_str(), supports_flags)
}

/// Checks the document's characters: at most three, each an object with a valid SOID, ability
/// and state members in range, known equipment slots, and equipped items with valid hashes,
/// SOIDs, levels, quantities, plugs and flags. Reports the first problem found.
pub fn validate_characters(document: &JsonValue) -> (r: Result<(), String>)
    ensures
        match spec_characters_error(document.deep()) {
            Some(t) => r matches Err(s) && s@ == t,
            None => r is Ok,
        },
{
    let mode = schema_mode(document);
    let supports_flags = mode.supports_equipment_flags();
    let state = match get_member(document, "state") {
        Some(s) => s,
        None => {
            return Ok(());
        },
    };
    let characters = match get_member(state, "characters") {
        Some(c) => c,
        None => {
            return Ok(());
        },
    };
    let chars = match characters {
        JsonValue::Array(a) => a,
        _ => {
            return Err(owned("state.characters must be an array"));
        },
    };
    proof {
        lemma_array_deep(*chars);
    }
    if chars.len() > MAX_CHARACTERS {
        return Err(owned("state.characters cannot contain more than 3 characters"));
    }
    let ghost cv = elems_view(chars@);
    assert(spec_characters_error(document.deep()) == first_character_error(cv, supports_flags, 0));
    let mut k: usize = 0;
    while k < chars.len()
        invariant
            k <= chars@.len() <= MAX_CHARACTERS,
            cv == elems_view(chars@),
            spec_characters_error(document.deep()) == first_character_error(cv, supports_flags, 0),
            first_character_error(cv, supports_flags, k as int) == first_character_error(cv, supports_flags, 0),
        decreases chars.len() - k,
    {
        if let Some(t) = character_error_exec(&chars[k], k + 1, supports_flags) {
            return Err(t);
        }
        k += 1;
    }
    Ok(())
}

// ---------------------------------------------------------------------------------------
// Repairing super and melee pairs
// ---------------------------------------------------------------------------------------

/// The supported pair a mismatched super and melee are repaired to: the melee entry names
/// the tree; without a known melee, a middle-tree super (entry 20) picks the middle tree,
/// and anything else the top tree.
pub open spec fn repaired_pair(super_ability: u64, melee: u64, middle_super: u64) -> (u64, u64) {
    if melee == 11 {
        (10, 11)
    } else if melee == 15 {
        (10, 15)
    } else if melee == 21 {
        (middle_super, 21)
    } else if super_ability == 20 {
        (middle_super, 21)
    } else {
        (10, 11)
    }
}

pub open spec fn number(n: u64) -> JsonView {
    JsonView::Number(NumberView::PosInt(n))
}

/// The character with its super and melee repaired, when it has a known Shadowkeep
/// subclass and a super and melee pair that no tree of it supports.
pub open spec fn repair_character(c: JsonView) -> Option<JsonView> {
    match c {
        JsonView::Object(o) => match subclass_hash(o) {
            Some(h) => match spec_shadowkeep_subclass_rules(h) {
                Some(rules) => match (member_u64(o, "super_ability"@), member_u64(o, "melee_ability"@)) {
                    (Some(s), Some(m)) => if supported_pair(s, m, rules.1) {
                        None
                    } else {
                        let p = repaired_pair(s, m, rules.1);
                        Some(
                            JsonView::Object(
                                set_member(set_member(o, "super_ability"@, number(p.0)), "melee_ability"@, number(p.1)),
                            ),
                        )
                    },
                    _ => None,
                },
                None => None,
            },
            None => None,
        },
        _ => None,
    }
}

/// Every character repaired where needed.
pub open spec fn repaired_characters(chars: Seq<JsonView>) -> Seq<JsonView> {
    Seq::new(
        chars.len(),
        |i: int|
            match repair_character(chars[i]) {
                Some(r) => r,
                None => chars[i],
            },
    )
}

/// How many of the first `n` characters need a repair.
pub open spec fn repair_count(chars: Seq<JsonView>, n: int) -> int
    decreases n,
{
    if n <= 0 {
        0
    } else {
        repair_count(chars, n - 1) + if repair_character(chars[n - 1]) is Some {
            1int
        } else {
            0int
        }
    }
}

/// The document with its `state.characters` member replaced.
pub open spec fn with_characters(document: JsonView, characters: JsonView) -> JsonView {
    match document {
        JsonView::Object(o) => match member(o, "state"@) {
            Some(JsonView::Object(state)) => JsonView::Object(
                set_member(o, "state"@, JsonView::Object(set_member(state, "characters"@, characters))),
            ),
            _ => document,
        },
        _ => document,
    }
}

fn repair_one(c: JsonValue) -> (r: (JsonValue, bool))
    ensures
        match repair_character(c.deep()) {
            Some(x) => r.0.deep() == x && r.1,
            None => r.0.deep() == c.deep() && !r.1,
        },
{
    let mut o = match c {
        JsonValue::Object(o) => o,
        other => {
            return (other, false);
        },
    };
    proof {
        lemma_object_deep(o);
    }
    let ghost ov = members_view(o@);
    let hash = match subclass_hash_exec(&o) {
        Some(h) => h,
        None => {
            return (JsonValue::Object(o), false);
        },
    };
    let middle = match shadowkeep_subclass_rules(hash) {
        Some(r) => r.1,
        None => {
            return (JsonValue::Object(o), false);
        },
    };
    let s = match member_u64_exec(&o, "super_ability") {
        Some(s) => s,
        None => {
            return (JsonValue::Object(o), false);
        },
    };
    let m = match member_u64_exec(&o, "melee_ability") {
        Some(m) => m,
        None => {
            return (JsonValue::Object(o), false);
        },
    };
    if (s == 10 && m == 11) || (s == 10 && m == 15) || (s == middle && m == 21) {
        return (JsonValue::Object(o), false);
    }
    let (new_super, new_melee) = if m == 11 {
        (10, 11)
    } else if m == 15 {
        (10, 15)
    } else if m == 21 {
        (middle, 21)
    } else if s == 20 {
        (middle, 21)
    } else {
        (10, 11)
    };
    set_member_exec(&mut o, "super_ability", JsonValue::Number(JsonNumber::PosInt(new_super)));
    set_member_exec(&mut o, "melee_ability", JsonValue::Number(JsonNumber::PosInt(new_melee)));
    proof {
        lemma_object_deep(o);
    }
    (JsonValue::Object(o), true)
}

fn repair_all(chars: Vec<JsonValue>) -> (r: (Vec<JsonValue>, usize))
    ensures
        elems_view(r.0@) == repaired_characters(elems_view(chars@)),
        r.1 == repair_count(elems_view(chars@), chars@.len() as int),
{
    let ghost cv = elems_view(chars@);
    let mut rest = chars;
    let mut out: Vec<JsonValue> = Vec::new();
    let mut count: usize = 0;
    let mut k: usize = 0;
    assert(rest@.len() == rest.len());
    while rest.len() > 0
        invariant
            k + rest@.len() == cv.len(),
            cv.len() <= usize::MAX,
            forall|j: int| 0 <= j < rest@.len() ==> (#[trigger] rest@[j]).deep() == cv[k + j],
            out@.len() == k,
            forall|j: int| 0 <= j < k ==> (#[trigger] out@[j]).deep() == repaired_characters(cv)[j],
            count == repair_count(cv, k as int),
            count <= k,
        decreases rest.len(),
    {
        let ghost before = rest@;
        let c = rest.remove(0);
        assert(c.deep() == cv[k as int]) by {
            assert(before[0] == c);
        }
        assert forall|j: int| 0 <= j < rest@.len() implies (#[trigger] rest@[j]).deep() == cv[k + 1 + j] by {
            assert(rest@[j] == before[j + 1]);
        }
        let (fixed, changed) = repair_one(c);
        out.push(fixed);
        if changed {
            count += 1;
        }
        k += 1;
    }
    assert(elems_view(out@) =~= repaired_characters(cv));
    (out, count)
}

/// Repairs every character whose super and melee pair is not one its Shadowkeep subclass
/// supports, choosing the pair as [`repaired_pair`] describes, and says how many it
/// repaired. Nothing else in the document changes.
pub fn repair_known_ability_pairs(document: &mut JsonValue) -> (repaired: usize)
    ensures
        match characters_value(old(document).deep()) {
            Some(JsonView::Array(chars)) => {
                &&& final(document).deep() == with_characters(
                    old(document).deep(),
                    JsonView::Array(repaired_characters(chars)),
                )
                &&& repaired == repair_count(chars, chars.len() as int)
            },
            _ => final(document).deep() == old(document).deep() && repaired == 0,
        },
{
    let mut taken = JsonValue::Null;
    core::mem::swap(document, &mut taken);
    let ghost original = taken.deep();
    let mut o1 = match taken {
        JsonValue::Object(o) => o,
        other => {
            *document = other;
            return 0;
        },
    };
    proof {
        lemma_object_deep(o1);
    }
    let i1 = match find_member(&o1, "state") {
        Some(i) => i,
        None => {
            *document = JsonValue::Object(o1);
            return 0;
        },
    };
    let ghost o1_before = o1@;
    let ghost o1_initial = o1;
    assert(taken == JsonValue::Object(o1_initial));
    let mut state_entry = (String::new(), JsonValue::Null);
    o1.set_and_swap(i1, &mut state_entry);
    let ghost state_entry_view = (state_entry.0@, state_entry.1.deep());
    assert(members_view(o1_before)[i1 as int] == state_entry_view);
    let (state_key, state_value) = state_entry;
    let mut o2 = match state_value {
        JsonValue::Object(o) => o,
        other => {
            o1.set(i1, (state_key, other));
            assert(o1@ =~= o1_before);
            *document = JsonValue::Object(o1);
            return 0;
        },
    };
    proof {
        lemma_object_deep(o2);
        assert(state_entry_view == (state_key@, JsonValue::Object(o2).deep()));
    }
    let i2 = match find_member(&o2, "characters") {
        Some(i) => i,
        None => {
            o1.set(i1, (state_key, JsonValue::Object(o2)));
            assert(o1@ =~= o1_before);
            let restored = JsonValue::Object(o1);
            proof {
                lemma_object_deep(restored->Object_0);
                lemma_object_deep(o1_initial);
                assert(restored.deep() == JsonView::Object(members_view(o1_before)));
                assert(JsonValue::Object(o1_initial).deep() == JsonView::Object(members_view(o1_before)));
                assert(old(document).deep() == JsonValue::Object(o1_initial).deep());
            }
            *document = restored;
            return 0;
        },
    };
    let ghost o2_before = o2@;
    let ghost o2_orig = o2;
    let mut chars_entry = (String::new(), JsonValue::Null);
    o2.set_and_swap(i2, &mut chars_entry);
    let ghost chars_entry_view = (chars_entry.0@, chars_entry.1.deep());
    assert(members_view(o2_before)[i2 as int] == chars_entry_view);
    let (chars_key, chars_value) = chars_entry;
    let chars = match chars_value {
        JsonValue::Array(a) => a,
        other => {
            o2.set(i2, (chars_key, other));
            assert(o2@ =~= o2_before);
            proof {
                lemma_object_deep(o2);
                lemma_object_deep(o2_orig);
            }
            let restored_state = JsonValue::Object(o2);
            assert(restored_state.deep() == state_entry_view.1);
            o1.set(i1, (state_key, restored_state));
            assert(members_view(o1@) =~= members_view(o1_before));
            let restored = JsonValue::Object(o1);
            proof {
                lemma_object_deep(restored->Object_0);
                lemma_object_deep(o1_initial);
            }
            *document = restored;
            return 0;
        },
    };
    let ghost chars_orig = chars;
    proof {
        lemma_array_deep(chars_orig);
        lemma_object_deep(o2_orig);
        lemma_object_deep(o1_initial);
        lemma_member_index_range(members_view(o1_before), "state"@, 0);
        lemma_member_index_range(members_view(o2_before), "characters"@, 0);
        assert(characters_value(old(document).deep()) == Some(JsonView::Array(elems_view(chars_orig@))));
    }
    let (fixed, count) = repair_all(chars);
    let new_chars = JsonValue::Array(fixed);
    let ghost new_chars_view = new_chars.deep();
    proof {
        lemma_array_deep(new_chars->Array_0);
        assert(new_chars_view == JsonView::Array(repaired_characters(elems_view(chars_orig@))));
    }
    o2.set(i2, (chars_key, new_chars));
    proof {
        lemma_object_deep(o2);
        assert(members_view(o2@) =~= set_member(members_view(o2_before), "characters"@, new_chars_view));
    }
    let new_state = JsonValue::Object(o2);
    let ghost new_state_view = new_state.deep();
    proof {
        lemma_object_deep(new_state->Object_0);
    }
    o1.set(i1, (state_key, new_state));
    assert(members_view(o1@) =~= set_member(members_view(o1_before), "state"@, new_state_view));
    let result = JsonValue::Object(o1);
    proof {
        lemma_object_deep(result->Object_0);
    }
    *document = result;
    count
}

/// A repaired character needs no further repair: its subclass is untouched and its new super
/// and melee pair is one the subclass supports.
proof fn lemma_repaired_character_settles(c: JsonView)
    ensures
        repair_character(c) matches Some(r) ==> repair_character(r) is None,
{
    if let JsonView::Object(o) = c {
        if let Some(h) = subclass_hash(o) {
            if let Some(rules) = spec_shadowkeep_subclass_rules(h) {
                if let (Some(s), Some(m)) = (member_u64(o, "super_ability"@), member_u64(o, "melee_ability"@)) {
                    if !supported_pair(s, m, rules.1) {
                        let p = repaired_pair(s, m, rules.1);
                        let o1 = set_member(o, "super_ability"@, number(p.0));
                        reveal_strlit("super_ability");
                        reveal_strlit("melee_ability");
                        reveal_strlit("equipment");
                        lemma_member_after_set(o, "super_ability"@, number(p.0), "equipment"@);
                        lemma_member_after_set(o1, "melee_ability"@, number(p.1), "equipment"@);
                        assert("super_ability"@[0] != "melee_ability"@[0]);
                        lemma_member_after_set(o1, "melee_ability"@, number(p.1), "super_ability"@);
                        lemma_member_after_set(o, "super_ability"@, number(p.0), "super_ability"@);
                    }
                }
            }
        }
    }
}

/// Repairing a document's characters settles them: the repaired characters are what the
/// document then holds, a second repair finds nothing to repair and leaves the document as
/// it is.
pub proof fn law_repair_settles(document: JsonView)
    requires
        characters_value(document) matches Some(JsonView::Array(_)),
    ensures
        ({
            let chars = characters_value(document)->0->Array_0;
            let fixed = repaired_characters(chars);
            let once = with_characters(document, JsonView::Array(fixed));
            &&& characters_value(once) == Some(JsonView::Array(fixed))
            &&& repaired_characters(fixed) == fixed
            &&& repair_count(fixed, fixed.len() as int) == 0
            &&& with_characters(once, JsonView::Array(repaired_characters(fixed))) == once
        }),
{
    let chars = characters_value(document)->0->Array_0;
    let fixed = repaired_characters(chars);
    assert forall|i: int| 0 <= i < fixed.len() implies repair_character(#[trigger] fixed[i]) is None by {
        lemma_repaired_character_settles(chars[i]);
    }
    assert(repaired_characters(fixed) =~= fixed);
    assert forall|n: int| 0 <= n <= fixed.len() implies repair_count(fixed, n) == 0 by {
        lemma_no_repairs(fixed, n);
    }
    let o = document->Object_0;
    let state = member(o, "state"@)->0->Object_0;
    let x = JsonView::Array(fixed);
    let state1 = set_member(state, "characters"@, x);
    let o1 = set_member(o, "state"@, JsonView::Object(state1));
    reveal_strlit("state");
    reveal_strlit("characters");
    lemma_member_after_set(state, "characters"@, x, "characters"@);
    lemma_member_after_set(o, "state"@, JsonView::Object(state1), "state"@);
    lemma_set_same(state1, "characters"@);
    lemma_set_same(o1, "state"@);
}

proof fn lemma_no_repairs(chars: Seq<JsonView>, n: int)
    requires
        0 <= n <= chars.len(),
        forall|i: int| 0 <= i < chars.len() ==> repair_character(#[trigger] chars[i]) is None,
    ensures
        repair_count(chars, n) == 0,
    decreases n,
{
    if n > 0 {
        lemma_no_repairs(chars, n - 1);
    }
}

} // verus!
