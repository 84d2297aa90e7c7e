//! Instance SOIDs: the walk over every SOID a document holds (the account's, each
//! character's, each equipped item's and each inventory row's, in that order), the SOIDs in
//! use, the next free one for a new item, and the check that no SOID is used twice.
use vstd::prelude::*;
use crate::character_inventory::{character_path, inventory_path, nonzero_soid, spec_nonzero_soid};
use crate::inventory::{instance_soid_text, format_instance_soid, InventoryError, GENERATED_INSTANCE_SOID_START};
use crate::json::{lemma_array_deep, lemma_object_deep, member, member_of, members_view, unsigned_value, JsonValue, JsonView};
use crate::profile::{error, field_path, ErrorView};
use crate::text::{decimal, owned, push_decimal, push_str};

verus! {

/// A SOID and the JSON pointer where it was found.
pub type Site = (u64, Seq<char>);

/// What a walk finds: the sites in the order visited, and the error that stopped it, if one
/// did.
pub type Walk = (Seq<Site>, Option<ErrorView>);

pub open spec fn done() -> Walk {
    (Seq::empty(), None)
}

pub open spec fn stop(e: ErrorView) -> Walk {
    (Seq::empty(), Some(e))
}

/// One walk after another; the second is not taken when the first stopped.
pub open spec fn then(a: Walk, b: Walk) -> Walk {
    if a.1 is Some {
        a
    } else {
        (a.0 + b.0, b.1)
    }
}

/// Walks the first `n` steps.
pub open spec fn prefix_walk(step: spec_fn(int) -> Walk, n: int) -> Walk
    decreases n,
{
    if n <= 0 {
        done()
    } else {
        then(prefix_walk(step, n - 1), step(n - 1))
    }
}

/// The SOID at `path`.
pub open spec fn soid_at(v: JsonView, path: Seq<char>) -> Walk {
    match spec_nonzero_soid(v, path) {
        Ok(s) => (seq![(s, path)], None),
        Err(e) => stop(e),
    }
}

/// Member `key`'s SOID, when there is such a member.
pub open spec fn key_walk(o: Seq<(Seq<char>, JsonView)>, key: Seq<char>, path: Seq<char>) -> Walk {
    match member(o, key) {
        None => done(),
        Some(v) => soid_at(v, path),
    }
}

/// An item's `instance_soid`; the item must be an object that has one.
pub open spec fn item_walk(v: JsonView, path: Seq<char>, missing: Seq<char>, shape: Seq<char>) -> Walk {
    match v {
        JsonView::Object(item) => match member(item, "instance_soid"@) {
            None => stop((path, missing)),
            Some(x) => soid_at(x, path + "/"@ + "instance_soid"@),
        },
        _ => stop((path, shape)),
    }
}

pub open spec fn equipment_path(k: int) -> Seq<char> {
    character_path(k) + "/equipment"@
}

/// An equipment slot: nothing when it is null.
pub open spec fn slot_walk(entry: (Seq<char>, JsonView), k: int) -> Walk {
    match entry.1 {
        JsonView::Null => done(),
        _ => item_walk(
            entry.1,
            equipment_path(k) + "/"@ + entry.0,
            "equipped item is missing instance_soid"@,
            "equipped item must be an object or null"@,
        ),
    }
}

pub open spec fn equipment_walk(c: Seq<(Seq<char>, JsonView)>, k: int) -> Walk {
    match member(c, "equipment"@) {
        None => done(),
        Some(JsonView::Object(e)) => prefix_walk(|i: int| slot_walk(e[i], k), e.len() as int),
        Some(_) => stop((equipment_path(k), "equipment must be an object"@)),
    }
}

pub open spec fn row_walk(v: JsonView, k: int, i: int) -> Walk {
    item_walk(
        v,
        inventory_path(k) + "/"@ + decimal(i as nat),
        "inventory item is missing instance_soid"@,
        "inventory item must be an object"@,
    )
}

pub open spec fn inventory_walk(c: Seq<(Seq<char>, JsonView)>, k: int) -> Walk {
    match member(c, "inventory"@) {
        None => done(),
        Some(JsonView::Array(items)) => prefix_walk(|i: int| row_walk(items[i], k, i), items.len() as int),
        Some(_) => stop((inventory_path(k), "inventory must be an array"@)),
    }
}

/// A character: its own SOID, then its equipment, then its inventory.
pub open spec fn character_walk(v: JsonView, k: int) -> Walk {
    match v {
        JsonView::Object(c) => then(
            key_walk(c, "soid"@, character_path(k) + "/soid"@),
            then(equipment_walk(c, k), inventory_walk(c, k)),
        ),
        _ => stop((character_path(k), "character must be an object"@)),
    }
}

pub open spec fn account_walk(state: Seq<(Seq<char>, JsonView)>) -> Walk {
    match member(state, "account"@) {
        None => done(),
        Some(JsonView::Object(a)) => then(
            key_walk(a, "primary_soid"@, "/state/account/primary_soid"@),
            key_walk(a, "soid"@, "/state/account/soid"@),
        ),
        Some(_) => stop(("/state/account"@, "account must be an object"@)),
    }
}

pub open spec fn characters_walk(state: Seq<(Seq<char>, JsonView)>) -> Walk {
    match member(state, "characters"@) {
        None => done(),
        Some(JsonView::Array(cs)) => prefix_walk(|k: int| character_walk(cs[k], k), cs.len() as int),
        Some(_) => stop(("/state/characters"@, "characters must be an array"@)),
    }
}

/// Every SOID of a document, in the order the account, the characters, their equipment and
/// their inventories hold them.
pub open spec fn document_walk(document: JsonView) -> Walk {
    match document {
        JsonView::Object(root) => match member(root, "state"@) {
            None => done(),
            Some(JsonView::Object(state)) => then(account_walk(state), characters_walk(state)),
            Some(_) => stop(("/state"@, "state must be an object"@)),
        },
        _ => stop((""@, "settings document must be an object"@)),
    }
}

// ---------------------------------------------------------------------------------------
// Walking
// ---------------------------------------------------------------------------------------

pub open spec fn sites_view(sites: Seq<(u64, String)>) -> Seq<Site> {
    Seq::new(sites.len(), |i: int| (sites[i].0, sites[i].1@))
}

/// A step of the walk appended its sites and ended as the walk did.
pub open spec fn walked(before: Seq<(u64, String)>, after: Seq<(u64, String)>, r: Result<(), InventoryError>, w: Walk) -> bool {
    &&& sites_view(after) == sites_view(before) + w.0
    &&& match w.1 {
        None => r is Ok,
        Some(e) => r matches Err(x) && x@ == e,
    }
}

proof fn lemma_then(
    a: Seq<(u64, String)>,
    b: Seq<(u64, String)>,
    c: Seq<(u64, String)>,
    r: Result<(), InventoryError>,
    w1: Walk,
    w2: Walk,
)
    requires
        walked(a, b, Ok(()), w1),
        walked(b, c, r, w2),
    ensures
        walked(a, c, r, then(w1, w2)),
{
    assert(sites_view(a) + w1.0 + w2.0 =~= sites_view(a) + (w1.0 + w2.0));
}

proof fn lemma_prefix_stops(step: spec_fn(int) -> Walk, n: int, m: int)
    requires
        0 < n <= m,
        prefix_walk(step, n).1 is Some,
    ensures
        prefix_walk(step, m) == prefix_walk(step, n),
    decreases m - n,
{
    if n < m {
        lemma_prefix_stops(step, n, m - 1);
    }
}

fn push_site(sites: &mut Vec<(u64, String)>, v: &JsonValue, path: String) -> (r: Result<(), InventoryError>)
    ensures
        walked(old(sites)@, final(sites)@, r, soid_at(v.deep(), path@)),
{
    match nonzero_soid(v, path.as_str()) {
        Ok(s) => {
            let ghost before = sites@;
            sites.push((s, path));
            assert(sites_view(sites@) =~= sites_view(before) + seq![(s, path@)]);
            Ok(())
        },
        Err(e) => {
            assert(sites_view(sites@) =~= sites_view(sites@) + Seq::<Site>::empty());
            Err(e)
        },
    }
}

fn walk_key(sites: &mut Vec<(u64, String)>, o: &Vec<(String, JsonValue)>, key: &str, path: String) -> (r: Result<(), InventoryError>)
    ensures
        walked(old(sites)@, final(sites)@, r, key_walk(members_view(o@), key@, path@)),
{
    match member_of(o, key) {
        None => {
            assert(sites_view(sites@) =~= sites_view(sites@) + Seq::<Site>::empty());
            Ok(())
        },
        Some(v) => push_site(sites, v, path),
    }
}

fn walk_item(sites: &mut Vec<(u64, String)>, v: &JsonValue, path: String, missing: &str, shape: &str) -> (r: Result<(), InventoryError>)
    ensures
        walked(old(sites)@, final(sites)@, r, item_walk(v.deep(), path@, missing@, shape@)),
{
    assert(sites_view(sites@) =~= sites_view(sites@) + Seq::<Site>::empty());
    let item = match v {
        JsonValue::Object(item) => item,
        _ => {
            return Err(InventoryError::new(path, owned(shape)));
        },
    };
    proof {
        lemma_object_deep(*item);
    }
    match member_of(item, "instance_soid") {
        None => Err(InventoryError::new(path, owned(missing))),
        Some(x) => push_site(sites, x, field_path(path.as_str(), "instance_soid")),
    }
}

fn character_path_exec(k: usize) -> (p: String)
    ensures
        p@ == character_path(k as int),
{
    let mut p = owned("/state/characters/");
    push_decimal(&mut p, k as u64);
    p
}

fn walk_equipment(sites: &mut Vec<(u64, String)>, c: &Vec<(String, JsonValue)>, k: usize) -> (r: Result<(), InventoryError>)
    ensures
        walked(old(sites)@, final(sites)@, r, equipment_walk(members_view(c@), k as int)),
{
    let mut base = character_path_exec(k);
    push_str(&mut base, "/equipment");
    assert(sites_view(sites@) =~= sites_view(sites@) + Seq::<Site>::empty());
    let e = match member_of(c, "equipment") {
        None => {
            return Ok(());
        },
        Some(JsonValue::Object(e)) => e,
        Some(_) => {
            return Err(InventoryError::new(base, owned("equipment must be an object")));
        },
    };
    proof {
        lemma_object_deep(*e);
    }
    let ghost ev = members_view(e@);
    let ghost step = |i: int| slot_walk(ev[i], k as int);
    assert(equipment_walk(members_view(c@), k as int) == prefix_walk(step, ev.len() as int));
    let ghost start = sites@;
    let mut i: usize = 0;
    while i < e.len()
        invariant
            i <= e@.len(),
            ev == members_view(e@),
            step == (|i: int| slot_walk(ev[i], k as int)),
            base@ == equipment_path(k as int),
            start == old(sites)@,
            equipment_walk(members_view(c@), k as int) == prefix_walk(step, ev.len() as int),
            walked(start, sites@, Ok(()), prefix_walk(step, i as int)),
        decreases e.len() - i,
    {
        let ghost mid = sites@;
        let r = match &e[i].1 {
            JsonValue::Null => {
                assert(sites_view(sites@) =~= sites_view(sites@) + Seq::<Site>::empty());
                Ok(())
            },
            v => {
                let mut path = owned(base.as_str());
                push_str(&mut path, "/");
                push_str(&mut path, e[i].0.as_str());
                walk_item(
                    sites,
                    v,
                    path,
                    "equipped item is missing instance_soid",
                    "equipped item must be an object or null",
                )
            },
        };
        proof {
            assert(ev[i as int] == (e@[i as int].0@, e@[i as int].1.deep()));
            lemma_then(start, mid, sites@, r, prefix_walk(step, i as int), step(i as int));
        }
        match r {
            Ok(()) => {},
            Err(x) => {
                proof {
                    lemma_prefix_stops(step, i as int + 1, ev.len() as int);
                }
                return Err(x);
            },
        }
        i += 1;
    }
    Ok(())
}

fn walk_inventory(sites: &mut Vec<(u64, String)>, c: &Vec<(String, JsonValue)>, k: usize) -> (r: Result<(), InventoryError>)
    ensures
        walked(old(sites)@, final(sites)@, r, inventory_walk(members_view(c@), k as int)),
{
    let mut base = character_path_exec(k);
    push_str(&mut base, "/inventory");
    assert(sites_view(sites@) =~= sites_view(sites@) + Seq::<Site>::empty());
    let items = match member_of(c, "inventory") {
        None => {
            return Ok(());
        },
        Some(JsonValue::Array(items)) => items,
        Some(_) => {
            return Err(InventoryError::new(base, owned("inventory must be an array")));
        },
    };
    proof {
        lemma_array_deep(*items);
    }
    let ghost iv = crate::json::elems_view(items@);
    let ghost step = |i: int| row_walk(iv[i], k as int, i);
    assert(inventory_walk(members_view(c@), k as int) == prefix_walk(step, iv.len() as int));
    let ghost start = sites@;
    let mut i: usize = 0;
    while i < items.len()
        invariant
            i <= items@.len(),
            iv == crate::json::elems_view(items@),
            step == (|i: int| row_walk(iv[i], k as int, i)),
            base@ == inventory_path(k as int),
            start == old(sites)@,
            inventory_walk(members_view(c@), k as int) == prefix_walk(step, iv.len() as int),
            walked(start, sites@, Ok(()), prefix_walk(step, i as int)),
        decreases items.len() - i,
    {
        let ghost mid = sites@;
        let mut path = owned(base.as_str());
        push_str(&mut path, "/");
        push_decimal(&mut path, i as u64);
        let r = walk_item(
            sites,
            &items[i],
            path,
            "inventory item is missing instance_soid",
            "inventory item must be an object",
        );
        proof {
            assert(iv[i as int] == items@[i as int].deep());
            lemma_then(start, mid, sites@, r, prefix_walk(step, i as int), step(i as int));
        }
        match r {
            Ok(()) => {},
            Err(x) => {
                proof {
                    lemma_prefix_stops(step, i as int + 1, iv.len() as int);
                }
                return Err(x);
            },
        }
        i += 1;
    }
    Ok(())
}

fn walk_character(sites: &mut Vec<(u64, String)>, v: &JsonValue, k: usize) -> (r: Result<(), InventoryError>)
    ensures
        walked(old(sites)@, final(sites)@, r, character_walk(v.deep(), k as int)),
{
    assert(sites_view(sites@) =~= sites_view(sites@) + Seq::<Site>::empty());
    let c = match v {
        JsonValue::Object(c) => c,
        _ => {
            return Err(InventoryError::new(character_path_exec(k), owned("character must be an object")));
        },
    };
    proof {
        lemma_object_deep(*c);
    }
    let ghost cv = members_view(c@);
    let ghost s0 = sites@;
    let mut soid_path = character_path_exec(k);
    push_str(&mut soid_path, "/soid");
    let r1 = walk_key(sites, c, "soid", soid_path);
    match r1 {
        Ok(()) => {},
        Err(x) => {
            return Err(x);
        },
    }
    let ghost s1 = sites@;
    let r2 = walk_equipment(sites, c, k);
    match r2 {
        Ok(()) => {},
        Err(x) => {
            proof {
                lemma_then(s0, s1, sites@, r2, key_walk(cv, "soid"@, character_path(k as int) + "/soid"@), then(equipment_walk(cv, k as int), inventory_walk(cv, k as int)));
            }
            return Err(x);
        },
    }
    let ghost s2 = sites@;
    let r3 = walk_inventory(sites, c, k);
    proof {
        lemma_then(s1, s2, sites@, r3, equipment_walk(cv, k as int), inventory_walk(cv, k as int));
        lemma_then(s0, s1, sites@, r3, key_walk(cv, "soid"@, character_path(k as int) + "/soid"@), then(equipment_walk(cv, k as int), inventory_walk(cv, k as int)));
    }
    r3
}

fn walk_document(sites: &mut Vec<(u64, String)>, document: &JsonValue) -> (r: Result<(), InventoryError>)
    ensures
        walked(old(sites)@, final(sites)@, r, document_walk(document.deep())),
{
    assert(sites_view(sites@) =~= sites_view(sites@) + Seq::<Site>::empty());
    let root = match document {
        JsonValue::Object(root) => root,
        _ => {
            return Err(error("", "settings document must be an object"));
        },
    };
    proof {
        lemma_object_deep(*root);
    }
    let state = match member_of(root, "state") {
        None => {
            return Ok(());
        },
        Some(JsonValue::Object(s)) => s,
        Some(_) => {
            return Err(error("/state", "state must be an object"));
        },
    };
    proof {
        lemma_object_deep(*state);
    }
    let ghost sv = members_view(state@);
    let ghost s0 = sites@;
    match member_of(state, "account") {
        None => {},
        Some(JsonValue::Object(a)) => {
            proof {
                lemma_object_deep(*a);
            }
            let r1 = walk_key(sites, a, "primary_soid", owned("/state/account/primary_soid"));
            match r1 {
                Ok(()) => {},
                Err(x) => {
                    return Err(x);
                },
            }
            let ghost s1 = sites@;
            let r2 = walk_key(sites, a, "soid", owned("/state/account/soid"));
            proof {
                lemma_then(s0, s1, sites@, r2, key_walk(members_view(a@), "primary_soid"@, "/state/account/primary_soid"@), key_walk(members_view(a@), "soid"@, "/state/account/soid"@));
            }
            match r2 {
                Ok(()) => {},
                Err(x) => {
                    return Err(x);
                },
            }
        },
        Some(_) => {
            return Err(error("/state/account", "account must be an object"));
        },
    }
    let ghost s1 = sites@;
    assert(walked(s0, s1, Ok(()), account_walk(sv)));
    let cs = match member_of(state, "characters") {
        None => {
            proof {
                lemma_then(s0, s1, sites@, Ok(()), account_walk(sv), characters_walk(sv));
            }
            return Ok(());
        },
        Some(JsonValue::Array(cs)) => cs,
        Some(_) => {
            let r = Err(error("/state/characters", "characters must be an array"));
            proof {
                assert(sites_view(sites@) =~= sites_view(sites@) + Seq::<Site>::empty());
                lemma_then(s0, s1, sites@, r, account_walk(sv), characters_walk(sv));
            }
            return r;
        },
    };
    proof {
        lemma_array_deep(*cs);
    }
    let ghost cv = crate::json::elems_view(cs@);
    let ghost step = |k: int| character_walk(cv[k], k);
    assert(characters_walk(sv) == prefix_walk(step, cv.len() as int));
    assert(sites_view(sites@) =~= sites_view(sites@) + Seq::<Site>::empty());
    let mut k: usize = 0;
    while k < cs.len()
        invariant
            k <= cs@.len(),
            cv == crate::json::elems_view(cs@),
            step == (|k: int| character_walk(cv[k], k)),
            s0 == old(sites)@,
            sv == members_view(state@),
            walked(s0, s1, Ok(()), account_walk(sv)),
            characters_walk(sv) == prefix_walk(step, cv.len() as int),
            document_walk(document.deep()) == then(account_walk(sv), characters_walk(sv)),
            walked(s1, sites@, Ok(()), prefix_walk(step, k as int)),
        decreases cs.len() - k,
    {
        let ghost mid = sites@;
        let r = walk_character(sites, &cs[k], k);
        proof {
            assert(cv[k as int] == cs@[k as int].deep());
            lemma_then(s1, mid, sites@, r, prefix_walk(step, k as int), step(k as int));
        }
        match r {
            Ok(()) => {},
            Err(x) => {
                proof {
                    lemma_prefix_stops(step, k as int + 1, cv.len() as int);
                    lemma_then(s0, s1, sites@, Err(x), account_walk(sv), characters_walk(sv));
                }
                return Err(x);
            },
        }
        k += 1;
    }
    proof {
        lemma_then(s0, s1, sites@, Ok(()), account_walk(sv), characters_walk(sv));
    }
    Ok(())
}

// ---------------------------------------------------------------------------------------
// SOIDs in use, allocation, uniqueness
// ---------------------------------------------------------------------------------------

/// Index of the first site in `i..j` holding `soid`.
pub open spec fn first_match(sites: Seq<Site>, soid: u64, i: int, j: int) -> Option<int>
    decreases j - i,
{
    if i >= j || i < 0 || j > sites.len() {
        None
    } else if sites[i].0 == soid {
        Some(i)
    } else {
        first_match(sites, soid, i + 1, j)
    }
}

/// Index of the first site (from `j` on) whose SOID an earlier site already holds.
pub open spec fn first_duplicate(sites: Seq<Site>, j: int) -> Option<int>
    decreases sites.len() - j,
{
    if j < 0 || j >= sites.len() {
        None
    } else if first_match(sites, sites[j].0, 0, j) is Some {
        Some(j)
    } else {
        first_duplicate(sites, j + 1)
    }
}

/// The check that no nonzero SOID is used twice: the first reuse is refused, naming where
/// the SOID was first used; a document whose SOIDs cannot all be read is refused with the
/// reading error, unless a reuse came before it.
pub open spec fn spec_unique_soids(document: JsonView) -> Result<(), ErrorView> {
    let w = document_walk(document);
    match first_duplicate(w.0, 0) {
        Some(j) => {
            let i = first_match(w.0, w.0[j].0, 0, j)->0;
            Err(
                (
                    w.0[j].1,
                    "duplicate nonzero SOID "@ + instance_soid_text(w.0[j].0) + "; first used at "@ + w.0[i].1,
                ),
            )
        },
        None => match w.1 {
            Some(e) => Err(e),
            None => Ok(()),
        },
    }
}

pub open spec fn used_soid(sites: Seq<Site>, soid: u64) -> bool {
    exists|i: int| 0 <= i < sites.len() && sites[i].0 == soid
}

/// The SOIDs of the first `n` sites, each once, in the order first found.
pub open spec fn distinct_soids(sites: Seq<Site>, n: int) -> Seq<u64>
    decreases n,
{
    if n <= 0 || n > sites.len() {
        Seq::empty()
    } else {
        let prev = distinct_soids(sites, n - 1);
        if prev.contains(sites[n - 1].0) {
            prev
        } else {
            prev.push(sites[n - 1].0)
        }
    }
}

/// The SOIDs a document uses, each once in the order the walk finds them, or why they
/// cannot all be read.
pub open spec fn spec_used_soids(document: JsonView) -> Result<Seq<u64>, ErrorView> {
    let w = document_walk(document);
    match w.1 {
        Some(e) => Err(e),
        None => Ok(distinct_soids(w.0, w.0.len() as int)),
    }
}

/// The first SOID at or above `c` that no site holds.
pub open spec fn first_free(sites: Seq<Site>, c: int) -> Option<u64>
    decreases u64::MAX + 1 - c,
{
    if c < 0 || c > u64::MAX {
        None
    } else if !used_soid(sites, c as u64) {
        Some(c as u64)
    } else {
        first_free(sites, c + 1)
    }
}

pub open spec fn no_free_soid_message() -> Seq<char> {
    "no unused instance SOID remains at or above the requested start"@
}

/// The first unused SOID at or above `first`, or why there is none.
pub open spec fn spec_next_available(document: JsonView, first: u64) -> Result<u64, ErrorView> {
    if first == 0 {
        Err(("instance_soid"@, "the first generated instance SOID must be nonzero"@))
    } else {
        let w = document_walk(document);
        match w.1 {
            Some(e) => Err(e),
            None => match first_free(w.0, first as int) {
                Some(c) => Ok(c),
                None => Err(("instance_soid"@, no_free_soid_message())),
            },
        }
    }
}

/// The SOID a new item gets: the first unused one from the generated range's start.
pub open spec fn spec_allocate_soid(document: JsonView) -> Result<u64, ErrorView> {
    spec_next_available(document, GENERATED_INSTANCE_SOID_START)
}

fn walk_sites(document: &JsonValue) -> (r: (Vec<(u64, String)>, Result<(), InventoryError>))
    ensures
        sites_view(r.0@) == document_walk(document.deep()).0,
        match document_walk(document.deep()).1 {
            None => r.1 is Ok,
            Some(e) => r.1 matches Err(x) && x@ == e,
        },
{
    let mut sites: Vec<(u64, String)> = Vec::new();
    let r = walk_document(&mut sites, document);
    assert(sites_view(Seq::<(u64, String)>::empty()) =~= Seq::<Site>::empty());
    assert(Seq::<Site>::empty() + document_walk(document.deep()).0 =~= document_walk(document.deep()).0);
    (sites, r)
}

fn site_holds(sites: &Vec<(u64, String)>, soid: u64) -> (r: bool)
    ensures
        r == used_soid(sites_view(sites@), soid),
{
    let mut i: usize = 0;
    while i < sites.len()
        invariant
            i <= sites@.len(),
            forall|k: int| 0 <= k < i ==> sites@[k].0 != soid,
        decreases sites.len() - i,
    {
        if sites[i].0 == soid {
            assert(sites_view(sites@)[i as int].0 == soid);
            return true;
        }
        i += 1;
    }
    assert(!used_soid(sites_view(sites@), soid)) by {
        if used_soid(sites_view(sites@), soid) {
            let k = choose|k: int| 0 <= k < sites_view(sites@).len() && sites_view(sites@)[k].0 == soid;
            assert(sites@[k].0 == soid);
        }
    }
    false
}

fn holds_u64(v: &Vec<u64>, x: u64) -> (r: bool)
    ensures
        r == v@.contains(x),
{
    let mut i: usize = 0;
    while i < v.len()
        invariant
            i <= v@.len(),
            forall|k: int| 0 <= k < i ==> v@[k] != x,
        decreases v.len() - i,
    {
        if v[i] == x {
            return true;
        }
        i += 1;
    }
    false
}

/// The SOIDs a document uses, as `spec_used_soids` describes.
pub fn collect_used_soids(document: &JsonValue) -> (r: Result<Vec<u64>, InventoryError>)
    ensures
        match spec_used_soids(document.deep()) {
            Ok(v) => r matches Ok(x) && x@ == v,
            Err(e) => r matches Err(x) && x@ == e,
        },
{
    let (sites, walked_ok) = walk_sites(document);
    match walked_ok {
        Ok(()) => {},
        Err(e) => {
            return Err(e);
        },
    }
    let ghost sv = sites_view(sites@);
    let mut out: Vec<u64> = Vec::new();
    let mut k: usize = 0;
    while k < sites.len()
        invariant
            k <= sites@.len(),
            sv == sites_view(sites@),
            out@ == distinct_soids(sv, k as int),
        decreases sites.len() - k,
    {
        let s = sites[k].0;
        assert(sv[k as int].0 == s);
        if !holds_u64(&out, s) {
            out.push(s);
        }
        k += 1;
    }
    Ok(out)
}

/// The first unused SOID at or above `first_candidate`, as `spec_next_available`
/// describes.
pub fn next_available_instance_soid(document: &JsonValue, first_candidate: u64) -> (r: Result<u64, InventoryError>)
    ensures
        match spec_next_available(document.deep(), first_candidate) {
            Ok(c) => r == Ok::<u64, InventoryError>(c),
            Err(e) => r matches Err(x) && x@ == e,
        },
{
    if first_candidate == 0 {
        return Err(error("instance_soid", "the first generated instance SOID must be nonzero"));
    }
    let (sites, walked_ok) = walk_sites(document);
    match walked_ok {
        Ok(()) => {},
        Err(e) => {
            return Err(e);
        },
    }
    let ghost sv = sites_view(sites@);
    let mut candidate = first_candidate;
    loop
        invariant
            sv == sites_view(sites@),
            sv == document_walk(document.deep()).0,
            document_walk(document.deep()).1 is None,
            first_candidate != 0,
            first_free(sv, candidate as int) == first_free(sv, first_candidate as int),
        decreases u64::MAX - candidate,
    {
        if !site_holds(&sites, candidate) {
            return Ok(candidate);
        }
        if candidate == u64::MAX {
            assert(first_free(sv, candidate as int + 1) is None);
            return Err(error("instance_soid", "no unused instance SOID remains at or above the requested start"));
        }
        candidate = candidate + 1;
    }
}

/// The SOID for a new item, as `spec_allocate_soid` describes.
pub fn allocate_instance_soid(document: &JsonValue) -> (r: Result<u64, InventoryError>)
    ensures
        match spec_allocate_soid(document.deep()) {
            Ok(c) => r == Ok::<u64, InventoryError>(c),
            Err(e) => r matches Err(x) && x@ == e,
        },
{
    next_available_instance_soid(document, GENERATED_INSTANCE_SOID_START)
}

/// Checks that no nonzero SOID is used twice, as `spec_unique_soids` describes.
pub fn validate_unique_soids(document: &JsonValue) -> (r: Result<(), InventoryError>)
    ensures
        match spec_unique_soids(document.deep()) {
            Ok(()) => r is Ok,
            Err(e) => r matches Err(x) && x@ == e,
        },
{
    let (sites, walked_ok) = walk_sites(document);
    let ghost sv = sites_view(sites@);
    let mut j: usize = 0;
    while j < sites.len()
        invariant
            j <= sites@.len(),
            sv == sites_view(sites@),
            sv == document_walk(document.deep()).0,
            first_duplicate(sv, 0) == first_duplicate(sv, j as int),
        decreases sites.len() - j,
    {
        let soid = sites[j].0;
        assert(sv[j as int].0 == soid);
        let mut i: usize = 0;
        while i < j
            invariant
                i <= j < sites@.len(),
                sv == sites_view(sites@),
                sv == document_walk(document.deep()).0,
                first_duplicate(sv, 0) == first_duplicate(sv, j as int),
                sv[j as int].0 == soid,
                first_match(sv, soid, 0, j as int) == first_match(sv, soid, i as int, j as int),
            decreases j - i,
        {
            if sites[i].0 == soid {
                assert(sv[i as int].0 == soid);
                assert(first_match(sv, soid, 0, j as int) == Some(i as int));
                assert(first_duplicate(sv, j as int) == Some(j as int));
                let mut m = owned("duplicate nonzero SOID ");
                let text = format_instance_soid(soid);
                push_str(&mut m, text.as_str());
                push_str(&mut m, "; first used at ");
                push_str(&mut m, sites[i].1.as_str());
                return Err(InventoryError::new(owned(sites[j].1.as_str()), m));
            }
            i += 1;
        }
        j += 1;
    }
    walked_ok
}

/// A free SOID found from `c` on is at least `c`.
pub proof fn lemma_first_free_at_least(sites: Seq<Site>, c: int)
    ensures
        first_free(sites, c) matches Some(x) ==> x >= c,
    decreases u64::MAX + 1 - c,
{
    if 0 <= c <= u64::MAX && used_soid(sites, c as u64) {
        lemma_first_free_at_least(sites, c + 1);
    }
}

/// A SOID handed out for a new item is from the generated range, so never zero.
pub proof fn lemma_allocated_soid_nonzero(document: JsonView)
    ensures
        spec_allocate_soid(document) matches Ok(s) ==> s >= GENERATED_INSTANCE_SOID_START,
{
    lemma_first_free_at_least(document_walk(document).0, GENERATED_INSTANCE_SOID_START as int);
}

proof fn lemma_first_free_unused(sites: Seq<Site>, c: int)
    ensures
        first_free(sites, c) matches Some(x) ==> !used_soid(sites, x),
    decreases u64::MAX + 1 - c,
{
    if 0 <= c <= u64::MAX && used_soid(sites, c as u64) {
        lemma_first_free_unused(sites, c + 1);
    }
}

proof fn lemma_distinct_soids_used(sites: Seq<Site>, n: int, x: u64)
    requires
        0 <= n <= sites.len(),
    ensures
        distinct_soids(sites, n).contains(x) ==> used_soid(sites, x),
    decreases n,
{
    if n > 0 {
        lemma_distinct_soids_used(sites, n - 1, x);
        let prev = distinct_soids(sites, n - 1);
        if prev.push(sites[n - 1].0).contains(x) && !prev.contains(x) {
            let k = choose|k: int| 0 <= k < prev.len() + 1 && #[trigger] prev.push(sites[n - 1].0)[k] == x;
            if k < prev.len() {
                assert(prev[k] == x);
            }
        }
    }
}

/// Member `key` of `o` reads as the SOID `s`.
pub open spec fn soid_member_is(o: Seq<(Seq<char>, JsonView)>, key: Seq<char>, s: u64) -> bool {
    member(o, key) matches Some(v) && unsigned_value(v) == Some(s)
}

/// An item object whose `instance_soid` reads as `s`.
pub open spec fn item_holds_soid(v: JsonView, s: u64) -> bool {
    v matches JsonView::Object(item) && soid_member_is(item, "instance_soid"@, s)
}

/// A character holds the SOID `s`: as its own `soid`, as the `instance_soid` of an
/// equipped item, or as that of an inventory row.
pub open spec fn character_holds_soid(c: Seq<(Seq<char>, JsonView)>, s: u64) -> bool {
    ||| soid_member_is(c, "soid"@, s)
    ||| (member(c, "equipment"@) matches Some(JsonView::Object(e)) && exists|i: int|
        0 <= i < e.len() && item_holds_soid(#[trigger] e[i].1, s))
    ||| (member(c, "inventory"@) matches Some(JsonView::Array(rows)) && exists|i: int|
        0 <= i < rows.len() && item_holds_soid(#[trigger] rows[i], s))
}

/// The characters of a document: `state.characters`, when the document has them.
pub open spec fn state_characters(document: JsonView) -> Option<Seq<JsonView>> {
    match document {
        JsonView::Object(root) => match member(root, "state"@) {
            Some(JsonView::Object(state)) => match member(state, "characters"@) {
                Some(JsonView::Array(cs)) => Some(cs),
                _ => None,
            },
            _ => None,
        },
        _ => None,
    }
}

proof fn lemma_then_used(a: Walk, b: Walk, x: u64)
    requires
        then(a, b).1 is None,
    ensures
        a.1 is None,
        b.1 is None,
        used_soid(a.0, x) ==> used_soid(then(a, b).0, x),
        used_soid(b.0, x) ==> used_soid(then(a, b).0, x),
{
    let w = then(a, b).0;
    if used_soid(a.0, x) {
        let i = choose|i: int| 0 <= i < a.0.len() && a.0[i].0 == x;
        assert(w[i] == a.0[i]);
    }
    if used_soid(b.0, x) {
        let i = choose|i: int| 0 <= i < b.0.len() && b.0[i].0 == x;
        assert(w[a.0.len() + i] == b.0[i]);
    }
}

proof fn lemma_prefix_used(step: spec_fn(int) -> Walk, n: int, k: int, x: u64)
    requires
        prefix_walk(step, n).1 is None,
        0 <= k < n,
    ensures
        step(k).1 is None,
        used_soid(step(k).0, x) ==> used_soid(prefix_walk(step, n).0, x),
    decreases n,
{
    lemma_then_used(prefix_walk(step, n - 1), step(n - 1), x);
    if k < n - 1 {
        lemma_prefix_used(step, n - 1, k, x);
    }
}

proof fn lemma_soid_at_used(v: JsonView, path: Seq<char>, s: u64)
    requires
        soid_at(v, path).1 is None,
        unsigned_value(v) == Some(s),
    ensures
        used_soid(soid_at(v, path).0, s),
{
    assert(soid_at(v, path).0[0].0 == s);
}

proof fn lemma_item_used(v: JsonView, path: Seq<char>, missing: Seq<char>, shape: Seq<char>, s: u64)
    requires
        item_walk(v, path, missing, shape).1 is None,
        item_holds_soid(v, s),
    ensures
        used_soid(item_walk(v, path, missing, shape).0, s),
{
    let item = v->Object_0;
    lemma_soid_at_used(member(item, "instance_soid"@)->Some_0, path + "/"@ + "instance_soid"@, s);
}

/// A walk over a character that ends without error finds every SOID the character holds.
proof fn lemma_character_walk_finds(c: Seq<(Seq<char>, JsonView)>, k: int, s: u64)
    requires
        character_walk(JsonView::Object(c), k).1 is None,
        character_holds_soid(c, s),
    ensures
        used_soid(character_walk(JsonView::Object(c), k).0, s),
{
    let own = key_walk(c, "soid"@, character_path(k) + "/soid"@);
    let rest = then(equipment_walk(c, k), inventory_walk(c, k));
    lemma_then_used(own, rest, s);
    lemma_then_used(equipment_walk(c, k), inventory_walk(c, k), s);
    if soid_member_is(c, "soid"@, s) {
        lemma_soid_at_used(member(c, "soid"@)->Some_0, character_path(k) + "/soid"@, s);
    } else if member(c, "equipment"@) matches Some(JsonView::Object(e)) && exists|i: int|
        0 <= i < e.len() && item_holds_soid(#[trigger] e[i].1, s) {
        let e = member(c, "equipment"@)->Some_0->Object_0;
        let i = choose|i: int| 0 <= i < e.len() && item_holds_soid(#[trigger] e[i].1, s);
        let step = |j: int| slot_walk(e[j], k);
        lemma_prefix_used(step, e.len() as int, i, s);
        lemma_item_used(
            e[i].1,
            equipment_path(k) + "/"@ + e[i].0,
            "equipped item is missing instance_soid"@,
            "equipped item must be an object or null"@,
            s,
        );
    } else {
        let rows = member(c, "inventory"@)->Some_0->Array_0;
        let i = choose|i: int| 0 <= i < rows.len() && item_holds_soid(#[trigger] rows[i], s);
        let step = |j: int| row_walk(rows[j], k, j);
        lemma_prefix_used(step, rows.len() as int, i, s);
        lemma_item_used(
            rows[i],
            inventory_path(k) + "/"@ + decimal(i as nat),
            "inventory item is missing instance_soid"@,
            "inventory item must be an object"@,
            s,
        );
    }
}

/// The account object of a document: `state.account`, when the document has one.
pub open spec fn state_account(document: JsonView) -> Option<Seq<(Seq<char>, JsonView)>> {
    match document {
        JsonView::Object(root) => match member(root, "state"@) {
            Some(JsonView::Object(state)) => match member(state, "account"@) {
                Some(JsonView::Object(a)) => Some(a),
                _ => None,
            },
            _ => None,
        },
        _ => None,
    }
}

/// A SOID handed out for a new item is not the account's: neither its `primary_soid` nor
/// its `soid`.
pub proof fn law_allocated_soid_is_not_the_accounts(document: JsonView)
    ensures
        spec_allocate_soid(document) matches Ok(s) ==> (state_account(document) matches Some(a) ==> (
        !soid_member_is(a, "primary_soid"@, s) && !soid_member_is(a, "soid"@, s))),
{
    if let Ok(s) = spec_allocate_soid(document) {
        if let Some(a) = state_account(document) {
            if soid_member_is(a, "primary_soid"@, s) || soid_member_is(a, "soid"@, s) {
                let w = document_walk(document);
                lemma_first_free_unused(w.0, GENERATED_INSTANCE_SOID_START as int);
                let root = document->Object_0;
                let state = member(root, "state"@)->Some_0->Object_0;
                lemma_then_used(account_walk(state), characters_walk(state), s);
                let p = key_walk(a, "primary_soid"@, "/state/account/primary_soid"@);
                let q = key_walk(a, "soid"@, "/state/account/soid"@);
                lemma_then_used(p, q, s);
                if soid_member_is(a, "primary_soid"@, s) {
                    lemma_soid_at_used(member(a, "primary_soid"@)->Some_0, "/state/account/primary_soid"@, s);
                } else {
                    lemma_soid_at_used(member(a, "soid"@)->Some_0, "/state/account/soid"@, s);
                }
                assert(false);
            }
        }
    }
}

/// A SOID handed out for a new item is held by no character: it is neither a character's
/// own SOID nor the instance SOID of any item that any character has equipped or in its
/// inventory.
pub proof fn law_allocated_soid_is_held_by_no_character(document: JsonView, k: int)
    ensures
        spec_allocate_soid(document) matches Ok(s) ==> (state_characters(document) matches Some(cs) ==> (0 <= k
            < cs.len() ==> (cs[k] matches JsonView::Object(c) ==> !character_holds_soid(c, s)))),
{
    if let Ok(s) = spec_allocate_soid(document) {
        if let Some(cs) = state_characters(document) {
            if 0 <= k < cs.len() {
                if let JsonView::Object(c) = cs[k] {
                    if character_holds_soid(c, s) {
                        let w = document_walk(document);
                        lemma_first_free_unused(w.0, GENERATED_INSTANCE_SOID_START as int);
                        let root = document->Object_0;
                        let state = member(root, "state"@)->Some_0->Object_0;
                        lemma_then_used(account_walk(state), characters_walk(state), s);
                        let step = |j: int| character_walk(cs[j], j);
                        lemma_prefix_used(step, cs.len() as int, k, s);
                        lemma_character_walk_finds(c, k, s);
                        assert(false);
                    }
                }
            }
        }
    }
}

/// A SOID handed out for a new item is used nowhere in the document: it is not among the
/// SOIDs the document's account, characters, equipment and inventories hold.
pub proof fn law_allocated_soid_is_unused(document: JsonView)
    ensures
        spec_allocate_soid(document) matches Ok(s) ==> (spec_used_soids(document) matches Ok(used) && !used.contains(s)),
{
    let w = document_walk(document);
    lemma_first_free_unused(w.0, GENERATED_INSTANCE_SOID_START as int);
    if let Ok(s) = spec_allocate_soid(document) {
        lemma_distinct_soids_used(w.0, w.0.len() as int, s);
    }
}

} // verus!
