//! Whole-document checks run before saving: the schema must be supported, the account must
//! have its primary SOID, every item section must read, schema 5 and newer dismantle
//! rewards must satisfy the game's limits, schema 6 items may hold only members the game
//! accepts, and no SOID may be used twice.
use vstd::prelude::*;
use crate::character_inventory::{inventory_path, nonzero_soid, spec_inventories_check, spec_nonzero_soid, validate_existing_character_inventories};
use crate::inventory::{
    document_version, read_only_message, read_only_schema_error, schema_mode, sentinel_message,
    error_text, spec_schema_mode, version_path, InventoryError, SchemaMode, NO_DEFINITION_HASH,
};
use crate::json::{
    as_u64, elems_view, get, get_member, lemma_array_deep, lemma_object_deep, member, member_of,
    members_view, parse_unsigned_value, unsigned_value, value_as_u64, JsonValue, JsonView,
};
use crate::profile::{error, field_path, missing_version_error, profile_items, spec_profile_items, ErrorView};
use crate::soids::{equipment_path, spec_unique_soids, validate_unique_soids};
use crate::text::{decimal, owned, push_decimal, push_str};
use crate::characters::{spec_characters_error, validate_characters};

verus! {

/// Most dismantle rewards an account may hold.
pub const DISMANTLE_REWARD_CAPACITY: usize = 8;

/// The first error among `n` steps.
pub open spec fn first_error(step: spec_fn(int) -> Option<ErrorView>, n: int) -> Option<ErrorView>
    decreases n,
{
    if n <= 0 {
        None
    } else {
        match first_error(step, n - 1) {
            Some(e) => Some(e),
            None => step(n - 1),
        }
    }
}

proof fn lemma_first_error_stays(step: spec_fn(int) -> Option<ErrorView>, n: int, m: int)
    requires
        0 < n <= m,
        first_error(step, n) is Some,
    ensures
        first_error(step, m) == first_error(step, n),
    decreases m - n,
{
    if n < m {
        lemma_first_error_stays(step, n, m - 1);
    }
}

// ---------------------------------------------------------------------------------------
// The account's primary SOID
// ---------------------------------------------------------------------------------------

pub open spec fn primary_soid_check(document: JsonView) -> Option<ErrorView> {
    match document {
        JsonView::Object(root) => match member(root, "state"@) {
            None => Some(("/state"@, "settings state is missing"@)),
            Some(JsonView::Object(state)) => match member(state, "account"@) {
                None => Some(("/state/account"@, "account is missing"@)),
                Some(JsonView::Object(account)) => match member(account, "primary_soid"@) {
                    None => Some(("/state/account/primary_soid"@, "account is missing primary_soid"@)),
                    Some(v) => match spec_nonzero_soid(v, "/state/account/primary_soid"@) {
                        Ok(_) => None,
                        Err(e) => Some(e),
                    },
                },
                Some(_) => Some(("/state/account"@, "account must be an object"@)),
            },
            Some(_) => Some(("/state"@, "state must be an object"@)),
        },
        _ => Some((""@, "settings document must be an object"@)),
    }
}

/// The account must have a nonzero `primary_soid`.
pub fn validate_required_account_primary_soid(document: &JsonValue) -> (r: Result<(), InventoryError>)
    ensures
        match primary_soid_check(document.deep()) {
            None => r is Ok,
            Some(e) => r matches Err(x) && x@ == e,
        },
{
    let root = match document {
        JsonValue::Object(root) => root,
        _ => {
            return Err(error("", "settings document must be an object"));
        },
    };
    proof {
        lemma_object_deep(*root);
    }
    let state = match member_of(root, "state") {
        None => {
            return Err(error("/state", "settings state is missing"));
        },
        Some(JsonValue::Object(s)) => s,
        Some(_) => {
            return Err(error("/state", "state must be an object"));
        },
    };
    proof {
        lemma_object_deep(*state);
    }
    let account = match member_of(state, "account") {
        None => {
            return Err(error("/state/account", "account is missing"));
        },
        Some(JsonValue::Object(a)) => a,
        Some(_) => {
            return Err(error("/state/account", "account must be an object"));
        },
    };
    proof {
        lemma_object_deep(*account);
    }
    match member_of(account, "primary_soid") {
        None => Err(error("/state/account/primary_soid", "account is missing primary_soid")),
        Some(v) => match nonzero_soid(v, "/state/account/primary_soid") {
            Ok(_) => Ok(()),
            Err(e) => Err(e),
        },
    }
}

// ---------------------------------------------------------------------------------------
// Dismantle rewards
// ---------------------------------------------------------------------------------------

pub open spec fn dismantle_path() -> Seq<char> {
    "/state/account/dismantle_rewards"@
}

/// Member `key` of the account object, when the state and the account are objects.
pub open spec fn account_member(document: JsonView, key: Seq<char>) -> Option<JsonView> {
    match get(document, "state"@) {
        Some(s) => match get(s, "account"@) {
            Some(a) => get(a, key),
            None => None,
        },
        None => None,
    }
}

/// A reward's definition hash: a nonzero 32-bit hash other than the sentinel.
pub open spec fn reward_hash(o: Seq<(Seq<char>, JsonView)>, path: Seq<char>) -> Result<u32, ErrorView> {
    match member(o, "definition_hash"@) {
        None => Err((path, "dismantle reward is missing definition_hash"@)),
        Some(v) => match unsigned_value(v) {
            None => Err((path, "definition_hash must be an unsigned integer or a 0x hex string"@)),
            Some(raw) => if raw > u32::MAX {
                Err((path, "definition_hash must fit in an unsigned 32-bit value"@))
            } else if raw == 0 {
                Err((path, "definition_hash must be nonzero"@))
            } else if raw == NO_DEFINITION_HASH {
                Err((path, sentinel_message()))
            } else {
                Ok(raw as u32)
            },
        },
    }
}

/// A reward's quantity must be a positive 32-bit integer.
pub open spec fn reward_quantity_check(o: Seq<(Seq<char>, JsonView)>, path: Seq<char>) -> Option<ErrorView> {
    match member(o, "quantity"@) {
        None => Some((path, "dismantle reward is missing quantity"@)),
        Some(v) => match as_u64(v) {
            Some(q) => if 1 <= q <= i32::MAX {
                None
            } else {
                Some((path, "quantity must be a positive 32-bit integer"@))
            },
            None => Some((path, "quantity must be a positive 32-bit integer"@)),
        },
    }
}

/// Checks the first `n` rewards, giving their hashes; each hash may occur once.
pub open spec fn rewards_check(rewards: Seq<JsonView>, n: int) -> Result<Seq<u32>, ErrorView>
    decreases n,
{
    if n <= 0 || n > rewards.len() {
        Ok(Seq::empty())
    } else {
        match rewards_check(rewards, n - 1) {
            Err(e) => Err(e),
            Ok(seen) => {
                let path = dismantle_path() + "/"@ + decimal((n - 1) as nat);
                match rewards[n - 1] {
                    JsonView::Object(o) => {
                        let hash_path = path + "/"@ + "definition_hash"@;
                        match reward_hash(o, hash_path) {
                            Err(e) => Err(e),
                            Ok(h) => if seen.contains(h) {
                                Err((hash_path, "dismantle reward definition_hash values must be unique"@))
                            } else {
                                match reward_quantity_check(o, path + "/"@ + "quantity"@) {
                                    Some(e) => Err(e),
                                    None => Ok(seen.push(h)),
                                }
                            },
                        }
                    },
                    _ => Err((path, "dismantle reward must be an object"@)),
                }
            },
        }
    }
}

/// The account's dismantle rewards, when it has them: an array of at most
/// `DISMANTLE_REWARD_CAPACITY` rewards, each with a distinct valid hash and a positive
/// quantity.
pub open spec fn spec_dismantle_check(document: JsonView) -> Option<ErrorView> {
    match account_member(document, "dismantle_rewards"@) {
        None => None,
        Some(JsonView::Array(rewards)) => if rewards.len() > DISMANTLE_REWARD_CAPACITY {
            Some(
                (
                    dismantle_path(),
                    "dismantle_rewards cannot contain more than "@ + decimal(DISMANTLE_REWARD_CAPACITY as nat)
                        + " entries"@,
                ),
            )
        } else {
            match rewards_check(rewards, rewards.len() as int) {
                Err(e) => Some(e),
                Ok(_) => None,
            }
        },
        Some(_) => Some((dismantle_path(), "dismantle_rewards must be an array"@)),
    }
}

proof fn lemma_rewards_stay(rewards: Seq<JsonView>, n: int, m: int)
    requires
        0 < n <= m <= rewards.len(),
        rewards_check(rewards, n) is Err,
    ensures
        rewards_check(rewards, m) == rewards_check(rewards, n),
    decreases m - n,
{
    if n < m {
        lemma_rewards_stay(rewards, n, m - 1);
    }
}

fn holds_u32(v: &Vec<u32>, x: u32) -> (r: bool)
    ensures
        r == v@.contains(x),
{
    let mut i: usize = 0;
    while i < v.len()
        invariant
            i <= v@.len(),
            forall|k: int| 0 <= k < i ==> v@[k] != x,
        decreases v.len() - i,
    {
        if v[i] == x {
            return true;
        }
        i += 1;
    }
    false
}

fn reward_hash_exec(o: &Vec<(String, JsonValue)>, path: &str) -> (r: Result<u32, InventoryError>)
    ensures
        match reward_hash(members_view(o@), path@) {
            Ok(h) => r == Ok::<u32, InventoryError>(h),
            Err(e) => r matches Err(x) && x@ == e,
        },
{
    let v = match member_of(o, "definition_hash") {
        None => {
            return Err(error(path, "dismantle reward is missing definition_hash"));
        },
        Some(v) => v,
    };
    let raw = match parse_unsigned_value(v) {
        None => {
            return Err(error(path, "definition_hash must be an unsigned integer or a 0x hex string"));
        },
        Some(raw) => raw,
    };
    if raw > u32::MAX as u64 {
        Err(error(path, "definition_hash must fit in an unsigned 32-bit value"))
    } else if raw == 0 {
        Err(error(path, "definition_hash must be nonzero"))
    } else if raw == NO_DEFINITION_HASH as u64 {
        Err(error(path, "the engine no-definition sentinel is not a valid authored hash"))
    } else {
        Ok(raw as u32)
    }
}

fn reward_quantity_exec(o: &Vec<(String, JsonValue)>, path: &str) -> (r: Result<(), InventoryError>)
    ensures
        match reward_quantity_check(members_view(o@), path@) {
            None => r is Ok,
            Some(e) => r matches Err(x) && x@ == e,
        },
{
    match member_of(o, "quantity") {
        None => Err(error(path, "dismantle reward is missing quantity")),
        Some(v) => match value_as_u64(v) {
            Some(q) => if 1 <= q && q <= i32::MAX as u64 {
                Ok(())
            } else {
                Err(error(path, "quantity must be a positive 32-bit integer"))
            },
            None => Err(error(path, "quantity must be a positive 32-bit integer")),
        },
    }
}

fn account_member_exec<'a>(document: &'a JsonValue, key: &str) -> (r: Option<&'a JsonValue>)
    ensures
        match r {
            Some(x) => account_member(document.deep(), key@) == Some(x.deep()),
            None => account_member(document.deep(), key@) is None,
        },
{
    match get_member(document, "state") {
        Some(s) => match get_member(s, "account") {
            Some(a) => get_member(a, key),
            None => None,
        },
        None => None,
    }
}

/// Checks the account's dismantle rewards, as `spec_dismantle_check` describes.
pub fn validate_dismantle_rewards(document: &JsonValue) -> (r: Result<(), InventoryError>)
    ensures
        match spec_dismantle_check(document.deep()) {
            None => r is Ok,
            Some(e) => r matches Err(x) && x@ == e,
        },
{
    let rewards = match account_member_exec(document, "dismantle_rewards") {
        None => {
            return Ok(());
        },
        Some(JsonValue::Array(a)) => a,
        Some(_) => {
            return Err(error("/state/account/dismantle_rewards", "dismantle_rewards must be an array"));
        },
    };
    proof {
        lemma_array_deep(*rewards);
    }
    if rewards.len() > DISMANTLE_REWARD_CAPACITY {
        let mut m = owned("dismantle_rewards cannot contain more than ");
        push_decimal(&mut m, DISMANTLE_REWARD_CAPACITY as u64);
        push_str(&mut m, " entries");
        return Err(InventoryError::new(owned("/state/account/dismantle_rewards"), m));
    }
    let ghost rv = elems_view(rewards@);
    let mut seen: Vec<u32> = Vec::new();
    let mut k: usize = 0;
    while k < rewards.len()
        invariant
            k <= rewards@.len(),
            rv == elems_view(rewards@),
            spec_dismantle_check(document.deep()) == (match rewards_check(rv, rv.len() as int) {
                Err(e) => Some(e),
                Ok(_) => None::<ErrorView>,
            }),
            rewards_check(rv, k as int) == Ok::<Seq<u32>, ErrorView>(seen@),
        decreases rewards.len() - k,
    {
        assert(rv[k as int] == rewards@[k as int].deep());
        let mut path = owned("/state/account/dismantle_rewards/");
        push_decimal(&mut path, k as u64);
        proof {
            reveal_strlit("/");
            reveal_strlit("/state/account/dismantle_rewards");
            reveal_strlit("/state/account/dismantle_rewards/");
            assert(path@ =~= dismantle_path() + "/"@ + decimal(k as nat));
        }
        let o = match &rewards[k] {
            JsonValue::Object(o) => o,
            _ => {
                proof {
                    lemma_rewards_stay(rv, k as int + 1, rv.len() as int);
                }
                return Err(InventoryError::new(path, owned("dismantle reward must be an object")));
            },
        };
        proof {
            lemma_object_deep(*o);
        }
        let hash_path = field_path(path.as_str(), "definition_hash");
        let h = match reward_hash_exec(o, hash_path.as_str()) {
            Ok(h) => h,
            Err(e) => {
                proof {
                    lemma_rewards_stay(rv, k as int + 1, rv.len() as int);
                }
                return Err(e);
            },
        };
        if holds_u32(&seen, h) {
            proof {
                lemma_rewards_stay(rv, k as int + 1, rv.len() as int);
            }
            return Err(InventoryError::new(hash_path, owned("dismantle reward definition_hash values must be unique")));
        }
        let quantity_path = field_path(path.as_str(), "quantity");
        match reward_quantity_exec(o, quantity_path.as_str()) {
            Ok(()) => {},
            Err(e) => {
                proof {
                    lemma_rewards_stay(rv, k as int + 1, rv.len() as int);
                }
                return Err(e);
            },
        }
        seen.push(h);
        k += 1;
    }
    Ok(())
}

// ---------------------------------------------------------------------------------------
// Schema 6 item members
// ---------------------------------------------------------------------------------------

/// The `Debug` form of a text, as `<str as Debug>::fmt` writes it.
pub uninterp spec fn debug_quoted(text: Seq<char>) -> Seq<char>;

/// `format!("{:?}", text)`: the text in double quotes, with the characters that `Debug`
/// escapes escaped. The contract names the text it gives and claims nothing else of it.
#[verifier::external_body]
fn debug_quote(text: &str) -> (r: String)
    ensures
        r@ == debug_quoted(text@),
{
    format!("{:?}", text)
}

/// The members a schema 6 item may hold.
pub open spec fn known_item_member(key: Seq<char>) -> bool {
    key == "instance_soid"@ || key == "definition_hash"@ || key == "level"@ || key == "quantity"@ || key
        == "plugs"@ || key == "flags"@
}

/// Index of the first member (from `k` on) that a schema 6 item may not hold.
pub open spec fn first_unknown_member(item: Seq<(Seq<char>, JsonView)>, k: int) -> Option<int>
    decreases item.len() - k,
{
    if k < 0 || k >= item.len() {
        None
    } else if !known_item_member(item[k].0) {
        Some(k)
    } else {
        first_unknown_member(item, k + 1)
    }
}

/// An item at `path` may hold only the members the game accepts.
pub open spec fn item_members_check(item: Seq<(Seq<char>, JsonView)>, path: Seq<char>) -> Option<ErrorView> {
    match first_unknown_member(item, 0) {
        Some(i) => Some(
            (
                path + "/"@ + item[i].0,
                "schema 6 item member "@ + debug_quoted(item[i].0)
                    + " is preserved by Sundial but is not accepted by Sunrise"@,
            ),
        ),
        None => None,
    }
}

pub open spec fn object_item_check(v: JsonView, path: Seq<char>) -> Option<ErrorView> {
    match v {
        JsonView::Object(item) => item_members_check(item, path),
        _ => None,
    }
}

/// A character's equipped items, then its stored rows; what is not an object is skipped.
pub open spec fn character_members_check(v: JsonView, k: int) -> Option<ErrorView> {
    match v {
        JsonView::Object(c) => {
            let equipment = match member(c, "equipment"@) {
                Some(JsonView::Object(e)) => first_error(
                    |i: int| object_item_check(e[i].1, equipment_path(k) + "/"@ + e[i].0),
                    e.len() as int,
                ),
                _ => None,
            };
            match equipment {
                Some(x) => Some(x),
                None => match member(c, "inventory"@) {
                    Some(JsonView::Array(items)) => first_error(
                        |i: int| object_item_check(items[i], inventory_path(k) + "/"@ + decimal(i as nat)),
                        items.len() as int,
                    ),
                    _ => None,
                },
            }
        },
        _ => None,
    }
}

/// Every equipped and stored item of every character holds only accepted members.
pub open spec fn spec_v6_members_check(document: JsonView) -> Option<ErrorView> {
    match get(document, "state"@) {
        Some(s) => match get(s, "characters"@) {
            Some(JsonView::Array(cs)) => first_error(|k: int| character_members_check(cs[k], k), cs.len() as int),
            _ => None,
        },
        None => None,
    }
}

pub(crate) fn known_member_exec(key: &str) -> (r: bool)
    ensures
        r == known_item_member(key@),
{
    crate::text::str_eq(key, "instance_soid") || crate::text::str_eq(key, "definition_hash")
        || crate::text::str_eq(key, "level") || crate::text::str_eq(key, "quantity")
        || crate::text::str_eq(key, "plugs") || crate::text::str_eq(key, "flags")
}

fn item_members_exec(v: &JsonValue, path: &str) -> (r: Result<(), InventoryError>)
    ensures
        match object_item_check(v.deep(), path@) {
            None => r is Ok,
            Some(e) => r matches Err(x) && x@ == e,
        },
{
    let item = match v {
        JsonValue::Object(item) => item,
        _ => {
            return Ok(());
        },
    };
    proof {
        lemma_object_deep(*item);
    }
    let ghost iv = members_view(item@);
    let mut k: usize = 0;
    while k < item.len()
        invariant
            k <= item@.len(),
            iv == members_view(item@),
            v.deep() == JsonView::Object(iv),
            first_unknown_member(iv, k as int) == first_unknown_member(iv, 0),
        decreases item.len() - k,
    {
        assert(iv[k as int].0 == item@[k as int].0@);
        if !known_member_exec(item[k].0.as_str()) {
            let key = item[k].0.as_str();
            let p = field_path(path, key);
            let mut m = owned("schema 6 item member ");
            let quoted = debug_quote(key);
            push_str(&mut m, quoted.as_str());
            push_str(&mut m, " is preserved by Sundial but is not accepted by Sunrise");
            return Err(InventoryError::new(p, m));
        }
        k += 1;
    }
    Ok(())
}

#[verifier::loop_isolation(false)]
fn character_members_exec(v: &JsonValue, k: usize) -> (r: Result<(), InventoryError>)
    ensures
        match character_members_check(v.deep(), k as int) {
            None => r is Ok,
            Some(e) => r matches Err(x) && x@ == e,
        },
{
    let c = match v {
        JsonValue::Object(c) => c,
        _ => {
            return Ok(());
        },
    };
    proof {
        lemma_object_deep(*c);
    }
    let mut base = owned("/state/characters/");
    push_decimal(&mut base, k as u64);
    match member_of(c, "equipment") {
        Some(JsonValue::Object(e)) => {
            proof {
                lemma_object_deep(*e);
            }
            let mut ep = owned(base.as_str());
            push_str(&mut ep, "/equipment");
            let ghost ev = members_view(e@);
            let ghost step = |i: int| object_item_check(ev[i].1, equipment_path(k as int) + "/"@ + ev[i].0);
            let mut i: usize = 0;
            while i < e.len()
                invariant
                    i <= e@.len(),
                    ev == members_view(e@),
                    ep@ == equipment_path(k as int),
                    step == (|i: int| object_item_check(ev[i].1, equipment_path(k as int) + "/"@ + ev[i].0)),
                    first_error(step, i as int) is None,
                decreases e.len() - i,
            {
                assert(ev[i as int] == (e@[i as int].0@, e@[i as int].1.deep()));
                let p = field_path(ep.as_str(), e[i].0.as_str());
                match item_members_exec(&e[i].1, p.as_str()) {
                    Ok(()) => {},
                    Err(x) => {
                        proof {
                            lemma_first_error_stays(step, i as int + 1, ev.len() as int);
                        }
                        return Err(x);
                    },
                }
                i += 1;
            }
        },
        _ => {},
    }
    match member_of(c, "inventory") {
        Some(JsonValue::Array(items)) => {
            proof {
                lemma_array_deep(*items);
            }
            let mut ip = owned(base.as_str());
            push_str(&mut ip, "/inventory");
            let ghost iv = elems_view(items@);
            let ghost step = |i: int| object_item_check(iv[i], inventory_path(k as int) + "/"@ + decimal(i as nat));
            let mut i: usize = 0;
            while i < items.len()
                invariant
                    i <= items@.len(),
                    iv == elems_view(items@),
                    ip@ == inventory_path(k as int),
                    step == (|i: int| object_item_check(iv[i], inventory_path(k as int) + "/"@ + decimal(i as nat))),
                    first_error(step, i as int) is None,
                decreases items.len() - i,
            {
                assert(iv[i as int] == items@[i as int].deep());
                let mut p = owned(ip.as_str());
                push_str(&mut p, "/");
                push_decimal(&mut p, i as u64);
                match item_members_exec(&items[i], p.as_str()) {
                    Ok(()) => {},
                    Err(x) => {
                        proof {
                            lemma_first_error_stays(step, i as int + 1, iv.len() as int);
                        }
                        return Err(x);
                    },
                }
                i += 1;
            }
        },
        _ => {},
    }
    Ok(())
}

/// Checks that schema 6 items hold only accepted members, as `spec_v6_members_check`
/// describes; unknown members are reported, never removed.
pub fn validate_v6_item_members(document: &JsonValue) -> (r: Result<(), InventoryError>)
    ensures
        match spec_v6_members_check(document.deep()) {
            None => r is Ok,
            Some(e) => r matches Err(x) && x@ == e,
        },
{
    let cs = match get_member(document, "state") {
        Some(s) => match get_member(s, "characters") {
            Some(JsonValue::Array(cs)) => cs,
            _ => {
                return Ok(());
            },
        },
        None => {
            return Ok(());
        },
    };
    proof {
        lemma_array_deep(*cs);
    }
    let ghost cv = elems_view(cs@);
    let ghost step = |k: int| character_members_check(cv[k], k);
    let mut k: usize = 0;
    while k < cs.len()
        invariant
            k <= cs@.len(),
            cv == elems_view(cs@),
            step == (|k: int| character_members_check(cv[k], k)),
            spec_v6_members_check(document.deep()) == first_error(step, cv.len() as int),
            first_error(step, k as int) is None,
        decreases cs.len() - k,
    {
        assert(cv[k as int] == cs@[k as int].deep());
        match character_members_exec(&cs[k], k) {
            Ok(()) => {},
            Err(x) => {
                proof {
                    lemma_first_error_stays(step, k as int + 1, cv.len() as int);
                }
                return Err(x);
            },
        }
        k += 1;
    }
    Ok(())
}

// ---------------------------------------------------------------------------------------
// The whole document
// ---------------------------------------------------------------------------------------

/// The checks a document must pass before it is saved, in order: a supported schema, the
/// account's primary SOID, readable profile items and character inventories, dismantle
/// rewards from schema 5 on, accepted item members in schema 6, and unique SOIDs.
pub open spec fn spec_validate_document(document: JsonView) -> Result<(), ErrorView> {
    let mode = spec_schema_mode(document_version(document));
    match mode {
        SchemaMode::MissingOrInvalid => Err(missing_version_error()),
        SchemaMode::Future(_) => Err((version_path(), read_only_message(mode, "inventory"@))),
        SchemaMode::Unsupported(_) => Err((version_path(), read_only_message(mode, "inventory"@))),
        _ => match primary_soid_check(document) {
            Some(e) => Err(e),
            None => match spec_profile_items(document) {
                Err(e) => Err(e),
                Ok(_) => match spec_inventories_check(document, mode) {
                    Some(e) => Err(e),
                    None => match (if mode.spec_version()->0 >= 5 {
                        spec_dismantle_check(document)
                    } else {
                        None
                    }) {
                        Some(e) => Err(e),
                        None => match (if mode is InventoryV6 {
                            spec_v6_members_check(document)
                        } else {
                            None
                        }) {
                            Some(e) => Err(e),
                            None => spec_unique_soids(document),
                        },
                    },
                },
            },
        },
    }
}

/// Runs every check a document must pass before it is saved, as `spec_validate_document`
/// describes. Checking never changes the document.
pub fn validate_document_items(document: &JsonValue) -> (r: Result<(), InventoryError>)
    ensures
        match spec_validate_document(document.deep()) {
            Ok(()) => r is Ok,
            Err(e) => r matches Err(x) && x@ == e,
        },
{
    let mode = schema_mode(document);
    match mode {
        SchemaMode::MissingOrInvalid => {
            let e = error("/version", "settings schema version is missing or invalid");
            proof {
                reveal_strlit("/version");
                assert(e@.0 =~= version_path());
            }
            return Err(e);
        },
        SchemaMode::Future(_) => {
            return Err(read_only_schema_error(mode, "inventory"));
        },
        SchemaMode::Unsupported(_) => {
            return Err(read_only_schema_error(mode, "inventory"));
        },
        _ => {},
    }
    match validate_required_account_primary_soid(document) {
        Ok(()) => {},
        Err(e) => {
            return Err(e);
        },
    }
    match profile_items(document) {
        Ok(_) => {},
        Err(e) => {
            return Err(e);
        },
    }
    match validate_existing_character_inventories(document, mode) {
        Ok(()) => {},
        Err(e) => {
            return Err(e);
        },
    }
    if mode.supports_dismantle_rewards() {
        match validate_dismantle_rewards(document) {
            Ok(()) => {},
            Err(e) => {
                return Err(e);
            },
        }
    }
    match mode {
        SchemaMode::InventoryV6 => match validate_v6_item_members(document) {
            Ok(()) => {},
            Err(e) => {
                return Err(e);
            },
        },
        _ => {},
    }
    validate_unique_soids(document)
}

/// The document's character rules, then its item rules: the first broken rule's message.
pub open spec fn spec_document_error(document: JsonView) -> Option<Seq<char>> {
    match spec_characters_error(document) {
        Some(t) => Some(t),
        None => match spec_validate_document(document) {
            Ok(()) => None,
            Err(e) => Some(error_text(e)),
        },
    }
}

/// Checks the character rules and then the item rules, as `spec_document_error` describes.
pub fn validate_document(document: &JsonValue) -> (r: Result<(), String>)
    ensures
        match spec_document_error(document.deep()) {
            Some(t) => r matches Err(s) && s@ == t,
            None => r is Ok,
        },
{
    match validate_characters(document) {
        Err(e) => {
            return Err(e);
        },
        Ok(()) => {},
    }
    match validate_document_items(document) {
        Ok(()) => Ok(()),
        Err(e) => Err(e.to_text()),
    }
}

} // verus!
