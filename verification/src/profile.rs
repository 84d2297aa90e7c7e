//! Profile items: reading the account's `profile_items` rows, adding a row and editing or
//! removing one. Every read and edit checks the document first; a refused edit leaves the
//! document exactly as it was.
use vstd::prelude::*;
use crate::inventory::{
    document_version, quantity_message, read_only_message, read_only_schema_error, schema_mode,
    sentinel_message, spec_profile_item_capacity, spec_schema_mode, version_path,
    error_text, InventoryError, SchemaMode, NO_DEFINITION_HASH, PROFILE_ITEM_CAPACITY,
};
use crate::json::{as_i64, elems_view, lemma_array_deep, lemma_member_index_range, lemma_object_deep, member, member_of, members_view, parse_unsigned_value, set_member, set_member_exec, unsigned_value, value_as_i64, JsonNumber, JsonValue, JsonView, NumberView, find_member};
use crate::inventory::{definition_hash_text, format_definition_hash};
use crate::text::{decimal, owned, push_decimal, push_str};
use crate::json::{lemma_member_after_set, lemma_member_of_first, lemma_set_same, lemma_set_twice};

verus! {

/// An error as a pointer to the offending member and a message.
pub type ErrorView = (Seq<char>, Seq<char>);

/// Where a profile item row is.
#[derive(Clone, Copy, Debug, PartialEq, Eq, Structural)]
pub struct ProfileItemLocation {
    pub index: usize,
}

/// A profile item row as read from the document.
#[derive(Clone, Copy, Debug, PartialEq, Eq, Structural)]
pub struct ProfileItemSnapshot {
    pub location: ProfileItemLocation,
    pub definition_hash: u32,
    pub quantity: i32,
}

/// A requested edit of a profile item row.
#[derive(Clone, Copy, Debug, PartialEq, Eq, Structural)]
pub enum ProfileItemAction {
    SetDefinitionHash(u32),
    SetQuantity(i32),
    Remove,
}

pub open spec fn profile_items_path() -> Seq<char> {
    "/state/account/profile_items"@
}

pub open spec fn profile_row_path(index: int) -> Seq<char> {
    "/state/account/profile_items/"@ + decimal(index as nat)
}

/// Reads member `key` of a row as a definition hash.
pub open spec fn spec_hash_field(o: Seq<(Seq<char>, JsonView)>, key: Seq<char>, base: Seq<char>) -> Result<u32, ErrorView> {
    let path = base + "/"@ + key;
    match member(o, key) {
        None => Err((path, "item is missing "@ + key)),
        Some(v) => match unsigned_value(v) {
            None => Err((path, "hash must be an unsigned integer or 0x hex string"@)),
            Some(raw) => if raw > u32::MAX {
                Err((path, "hash must fit in an unsigned 32-bit value"@))
            } else if raw == NO_DEFINITION_HASH {
                Err((path, sentinel_message()))
            } else {
                Ok(raw as u32)
            },
        },
    }
}

/// Reads member `key` of a row as a positive 32-bit integer.
pub open spec fn spec_positive_i32_field(o: Seq<(Seq<char>, JsonView)>, key: Seq<char>, base: Seq<char>) -> Result<
    i32,
    ErrorView,
> {
    let path = base + "/"@ + key;
    match member(o, key) {
        None => Err((path, "item is missing "@ + key)),
        Some(v) => match as_i64(v) {
            None => Err((path, key + " must be a positive 32-bit integer"@)),
            Some(x) => if x < i32::MIN || x > i32::MAX {
                Err((path, key + " must fit in a signed 32-bit integer"@))
            } else if x <= 0 {
                Err((path, quantity_message()))
            } else {
                Ok(x as i32)
            },
        },
    }
}

/// Reads row `index`.
pub open spec fn spec_profile_row(v: JsonView, index: int) -> Result<ProfileItemSnapshot, ErrorView> {
    let path = profile_row_path(index);
    match v {
        JsonView::Object(o) => match spec_hash_field(o, "definition_hash"@, path) {
            Err(e) => Err(e),
            Ok(h) => match spec_positive_i32_field(o, "quantity"@, path) {
                Err(e) => Err(e),
                Ok(q) => Ok(
                    ProfileItemSnapshot {
                        location: ProfileItemLocation { index: index as usize },
                        definition_hash: h,
                        quantity: q,
                    },
                ),
            },
        },
        _ => Err((path, "profile item must be an object"@)),
    }
}

/// Reads the first `n` rows, stopping at the first that does not read.
pub open spec fn spec_profile_rows(rows: Seq<JsonView>, n: int) -> Result<Seq<ProfileItemSnapshot>, ErrorView>
    decreases n,
{
    if n <= 0 || n > rows.len() {
        Ok(Seq::empty())
    } else {
        match spec_profile_rows(rows, n - 1) {
            Err(e) => Err(e),
            Ok(prev) => match spec_profile_row(rows[n - 1], n - 1) {
                Err(e) => Err(e),
                Ok(s) => Ok(prev.push(s)),
            },
        }
    }
}

/// The error for a document without a valid schema version.
pub open spec fn missing_version_error() -> ErrorView {
    (version_path(), "settings schema version is missing or invalid"@)
}

/// The account object's members: none when `state` or `account` is missing; an error when
/// the document, `state` or `account` is not an object.
pub open spec fn spec_account(document: JsonView) -> Result<Option<Seq<(Seq<char>, JsonView)>>, ErrorView> {
    match document {
        JsonView::Object(root) => match member(root, "state"@) {
            None => Ok(None),
            Some(JsonView::Object(state)) => match member(state, "account"@) {
                None => Ok(None),
                Some(JsonView::Object(account)) => Ok(Some(account)),
                Some(_) => Err(("/state/account"@, "account must be an object"@)),
            },
            Some(_) => Err(("/state"@, "state must be an object"@)),
        },
        _ => Err((""@, "settings document must be an object"@)),
    }
}

/// The profile items of a document: none when the section is missing, an error when the
/// schema version is missing, a section is malformed, there are more rows than the schema
/// allows, or a row does not read.
pub open spec fn spec_profile_items(document: JsonView) -> Result<Option<Seq<ProfileItemSnapshot>>, ErrorView> {
    let mode = spec_schema_mode(document_version(document));
    if mode is MissingOrInvalid {
        Err(missing_version_error())
    } else {
        match spec_account(document) {
            Err(e) => Err(e),
            Ok(None) => Ok(None),
            Ok(Some(account)) => match member(account, "profile_items"@) {
                None => Ok(None),
                Some(JsonView::Array(rows)) => {
                    let capacity = match mode {
                        SchemaMode::PreInventory(v) => Some(spec_profile_item_capacity(v)),
                        SchemaMode::InventoryV6 => Some(PROFILE_ITEM_CAPACITY),
                        _ => None,
                    };
                    if capacity matches Some(c) && rows.len() > c {
                        Err(
                            (
                                profile_items_path(),
                                "profile_items contains "@ + decimal(rows.len()) + " rows, but schema "@
                                    + decimal(mode.spec_version()->0 as nat) + " permits at most "@ + decimal(
                                    capacity->0 as nat,
                                ),
                            ),
                        )
                    } else {
                        match spec_profile_rows(rows, rows.len() as int) {
                            Err(e) => Err(e),
                            Ok(s) => Ok(Some(s)),
                        }
                    }
                },
                Some(_) => Err((profile_items_path(), "profile_items must be an array"@)),
            },
        }
    }
}

pub(crate) fn error(path: &str, message: &str) -> (e: InventoryError)
    ensures
        e@ == (path@, message@),
{
    InventoryError::new(owned(path), owned(message))
}

pub(crate) fn field_path(base: &str, key: &str) -> (p: String)
    ensures
        p@ == base@ + "/"@ + key@,
{
    let mut p = owned(base);
    push_str(&mut p, "/");
    push_str(&mut p, key);
    p
}

pub(crate) fn hash_field(o: &Vec<(String, JsonValue)>, key: &str, base: &str) -> (r: Result<u32, InventoryError>)
    ensures
        match spec_hash_field(members_view(o@), key@, base@) {
            Ok(h) => r == Ok::<u32, InventoryError>(h),
            Err(e) => r matches Err(x) && x@ == e,
        },
{
    let path = field_path(base, key);
    let v = match member_of(o, key) {
        Some(v) => v,
        None => {
            let mut m = owned("item is missing ");
            push_str(&mut m, key);
            return Err(InventoryError::new(path, m));
        },
    };
    let raw = match parse_unsigned_value(v) {
        Some(raw) => raw,
        None => {
            return Err(error(path.as_str(), "hash must be an unsigned integer or 0x hex string"));
        },
    };
    if raw > u32::MAX as u64 {
        return Err(error(path.as_str(), "hash must fit in an unsigned 32-bit value"));
    }
    if raw == NO_DEFINITION_HASH as u64 {
        return Err(error(path.as_str(), "the engine no-definition sentinel is not a valid authored hash"));
    }
    Ok(raw as u32)
}

pub(crate) fn positive_i32_field(o: &Vec<(String, JsonValue)>, key: &str, base: &str) -> (r: Result<i32, InventoryError>)
    ensures
        match spec_positive_i32_field(members_view(o@), key@, base@) {
            Ok(q) => r == Ok::<i32, InventoryError>(q),
            Err(e) => r matches Err(x) && x@ == e,
        },
{
    let path = field_path(base, key);
    let v = match member_of(o, key) {
        Some(v) => v,
        None => {
            let mut m = owned("item is missing ");
            push_str(&mut m, key);
            return Err(InventoryError::new(path, m));
        },
    };
    let x = match value_as_i64(v) {
        Some(x) => x,
        None => {
            let mut m = owned(key);
            push_str(&mut m, " must be a positive 32-bit integer");
            return Err(InventoryError::new(path, m));
        },
    };
    if x < i32::MIN as i64 || x > i32::MAX as i64 {
        let mut m = owned(key);
        push_str(&mut m, " must fit in a signed 32-bit integer");
        return Err(InventoryError::new(path, m));
    }
    if x <= 0 {
        return Err(error(path.as_str(), "quantity must be a positive signed 32-bit integer"));
    }
    Ok(x as i32)
}

fn row_path(index: usize) -> (p: String)
    ensures
        p@ == profile_row_path(index as int),
{
    let mut p = owned("/state/account/profile_items/");
    push_decimal(&mut p, index as u64);
    p
}

fn profile_row(v: &JsonValue, index: usize) -> (r: Result<ProfileItemSnapshot, InventoryError>)
    ensures
        match spec_profile_row(v.deep(), index as int) {
            Ok(s) => r == Ok::<ProfileItemSnapshot, InventoryError>(s),
            Err(e) => r matches Err(x) && x@ == e,
        },
{
    let path = row_path(index);
    let o = match v {
        JsonValue::Object(o) => o,
        _ => {
            return Err(error(path.as_str(), "profile item must be an object"));
        },
    };
    proof {
        lemma_object_deep(*o);
    }
    let h = match hash_field(o, "definition_hash", path.as_str()) {
        Ok(h) => h,
        Err(e) => {
            return Err(e);
        },
    };
    let q = match positive_i32_field(o, "quantity", path.as_str()) {
        Ok(q) => q,
        Err(e) => {
            return Err(e);
        },
    };
    Ok(ProfileItemSnapshot { location: ProfileItemLocation { index }, definition_hash: h, quantity: q })
}

/// The members of the account object, when the document has one.
pub(crate) fn account_members(document: &JsonValue) -> (r: Result<Option<&Vec<(String, JsonValue)>>, InventoryError>)
    ensures
        match spec_account(document.deep()) {
            Ok(None) => r matches Ok(None),
            Ok(Some(a)) => r matches Ok(Some(x)) && members_view(x@) == a,
            Err(e) => r matches Err(x) && x@ == e,
        },
{
    let root = match document {
        JsonValue::Object(o) => o,
        _ => {
            return Err(error("", "settings document must be an object"));
        },
    };
    proof {
        lemma_object_deep(*root);
    }
    let state = match member_of(root, "state") {
        None => {
            return Ok(None);
        },
        Some(JsonValue::Object(s)) => s,
        Some(_) => {
            return Err(error("/state", "state must be an object"));
        },
    };
    proof {
        lemma_object_deep(*state);
    }
    match member_of(state, "account") {
        None => Ok(None),
        Some(JsonValue::Object(a)) => {
            proof {
                lemma_object_deep(*a);
            }
            Ok(Some(a))
        },
        Some(_) => Err(error("/state/account", "account must be an object")),
    }
}

pub(crate) fn readable_mode(document: &JsonValue) -> (r: Result<SchemaMode, InventoryError>)
    ensures
        match spec_schema_mode(document_version(document.deep())) {
            SchemaMode::MissingOrInvalid => r matches Err(x) && x@ == missing_version_error(),
            m => r == Ok::<SchemaMode, InventoryError>(m),
        },
{
    let mode = schema_mode(document);
    match mode {
        SchemaMode::MissingOrInvalid => {
            let e = error("/version", "settings schema version is missing or invalid");
            proof {
                reveal_strlit("/version");
                assert(e@.0 =~= version_path());
            }
            Err(e)
        },
        _ => Ok(mode),
    }
}

pub open spec fn snapshots_view(v: Option<Vec<ProfileItemSnapshot>>) -> Option<Seq<ProfileItemSnapshot>> {
    match v {
        Some(x) => Some(x@),
        None => None,
    }
}

/// The profile items of a document, as `spec_profile_items` describes. Reading never
/// changes the document.
pub fn profile_items(document: &JsonValue) -> (r: Result<Option<Vec<ProfileItemSnapshot>>, InventoryError>)
    ensures
        match spec_profile_items(document.deep()) {
            Ok(x) => r matches Ok(y) && snapshots_view(y) == x,
            Err(e) => r matches Err(x) && x@ == e,
        },
{
    let mode = match readable_mode(document) {
        Ok(m) => m,
        Err(e) => {
            return Err(e);
        },
    };
    let account = match account_members(document) {
        Err(e) => {
            return Err(e);
        },
        Ok(None) => {
            return Ok(None);
        },
        Ok(Some(a)) => a,
    };
    let rows = match member_of(account, "profile_items") {
        None => {
            return Ok(None);
        },
        Some(JsonValue::Array(rows)) => rows,
        Some(_) => {
            return Err(error("/state/account/profile_items", "profile_items must be an array"));
        },
    };
    proof {
        lemma_array_deep(*rows);
    }
    match mode.profile_item_capacity() {
        Some(c) => {
            if rows.len() > c {
                let mut m = owned("profile_items contains ");
                push_decimal(&mut m, rows.len() as u64);
                push_str(&mut m, " rows, but schema ");
                let version = match mode.version() {
                    Some(v) => v,
                    None => 0,
                };
                push_decimal(&mut m, version);
                push_str(&mut m, " permits at most ");
                push_decimal(&mut m, c as u64);
                return Err(InventoryError::new(owned("/state/account/profile_items"), m));
            }
        },
        None => {},
    }
    let ghost rv = elems_view(rows@);
    let ghost whole = match spec_profile_rows(rv, rv.len() as int) {
        Err(e) => Err(e),
        Ok(s) => Ok(Some(s)),
    };
    assert(spec_profile_items(document.deep()) == whole);
    let mut out: Vec<ProfileItemSnapshot> = Vec::new();
    let mut k: usize = 0;
    while k < rows.len()
        invariant
            k <= rows@.len(),
            rv == elems_view(rows@),
            spec_profile_items(document.deep()) == whole,
            whole == (match spec_profile_rows(rv, rv.len() as int) {
                Err(e) => Err(e),
                Ok(s) => Ok(Some(s)),
            }),
            spec_profile_rows(rv, k as int) == Ok::<Seq<ProfileItemSnapshot>, ErrorView>(out@),
        decreases rows.len() - k,
    {
        match profile_row(&rows[k], k) {
            Ok(s) => {
                out.push(s);
            },
            Err(e) => {
                proof {
                    assert(rv[k as int] == rows@[k as int].deep());
                    assert(spec_profile_rows(rv, k + 1) == Err::<Seq<ProfileItemSnapshot>, ErrorView>(e@));
                    lemma_rows_error_propagates(rv, k as int + 1, rv.len() as int);
                }
                return Err(e);
            },
        }
        k += 1;
    }
    Ok(Some(out))
}

/// Reading `n` rows gives `n` snapshots.
proof fn lemma_rows_len(rows: Seq<JsonView>, n: int)
    requires
        0 <= n <= rows.len(),
    ensures
        spec_profile_rows(rows, n) matches Ok(s) ==> s.len() == n,
    decreases n,
{
    if n > 0 {
        lemma_rows_len(rows, n - 1);
    }
}

/// Once a row fails to read, reading more rows fails with the same error.
proof fn lemma_rows_error_propagates(rows: Seq<JsonView>, n: int, m: int)
    requires
        0 < n <= m <= rows.len(),
        spec_profile_rows(rows, n) is Err,
    ensures
        spec_profile_rows(rows, m) == spec_profile_rows(rows, n),
    decreases m - n,
{
    if n < m {
        lemma_rows_error_propagates(rows, n, m - 1);
    }
}

// ---------------------------------------------------------------------------------------
// Editing
// ---------------------------------------------------------------------------------------

/// The account object's members, for an edit: `state` and `account` must both be objects.
pub open spec fn spec_account_for_edit(document: JsonView) -> Result<Seq<(Seq<char>, JsonView)>, ErrorView> {
    match document {
        JsonView::Object(root) => match member(root, "state"@) {
            Some(JsonView::Object(state)) => match member(state, "account"@) {
                Some(JsonView::Object(account)) => Ok(account),
                _ => Err(("/state/account"@, "account must be an object"@)),
            },
            _ => Err(("/state"@, "state must be an object"@)),
        },
        _ => Err(("/state"@, "state must be an object"@)),
    }
}

/// The document with its account object replaced.
pub open spec fn with_account(document: JsonView, account: Seq<(Seq<char>, JsonView)>) -> JsonView {
    match document {
        JsonView::Object(root) => match member(root, "state"@) {
            Some(JsonView::Object(state)) => JsonView::Object(
                set_member(root, "state"@, JsonView::Object(set_member(state, "account"@, JsonView::Object(account)))),
            ),
            _ => document,
        },
        _ => document,
    }
}

/// A 32-bit integer as JSON holds it.
pub open spec fn int_view(v: i32) -> JsonView {
    if v >= 0 {
        JsonView::Number(NumberView::PosInt(v as u64))
    } else {
        JsonView::Number(NumberView::NegInt(v as i64))
    }
}

pub fn int_value(v: i32) -> (r: JsonValue)
    ensures
        r.deep() == int_view(v),
{
    if v >= 0 {
        JsonValue::Number(JsonNumber::PosInt(v as u64))
    } else {
        JsonValue::Number(JsonNumber::NegInt(v as i64))
    }
}

/// The row that adding a profile item writes.
pub open spec fn new_profile_row(hash: u32, quantity: i32) -> JsonView {
    JsonView::Object(
        seq![("definition_hash"@, JsonView::Str(definition_hash_text(hash))), ("quantity"@, int_view(quantity))],
    )
}

/// Why a document's profile items cannot be edited, if they cannot.
pub open spec fn profile_mutation_error(mode: SchemaMode) -> Option<ErrorView> {
    if mode is MissingOrInvalid {
        Some(missing_version_error())
    } else if !(mode is PreInventory || mode is InventoryV6) {
        Some((version_path(), read_only_message(mode, "profile items"@)))
    } else {
        None
    }
}

/// The capacity of an editable mode.
pub open spec fn editable_capacity(mode: SchemaMode) -> nat {
    match mode {
        SchemaMode::PreInventory(v) => spec_profile_item_capacity(v) as nat,
        _ => PROFILE_ITEM_CAPACITY as nat,
    }
}

/// Adding a profile item: where the new row lands and the document afterwards, or why the
/// item cannot be added.
pub open spec fn spec_add_profile_item(document: JsonView, hash: u32, quantity: i32) -> Result<(int, JsonView), ErrorView> {
    let mode = spec_schema_mode(document_version(document));
    match profile_mutation_error(mode) {
        Some(e) => Err(e),
        None => if hash == NO_DEFINITION_HASH {
            Err(("/state/account/profile_items/<new>/definition_hash"@, sentinel_message()))
        } else if quantity <= 0 {
            Err(("/state/account/profile_items/<new>/quantity"@, quantity_message()))
        } else {
            match spec_profile_items(document) {
                Err(e) => Err(e),
                Ok(existing) => {
                    let length = match existing {
                        Some(rows) => rows.len(),
                        None => 0,
                    };
                    let capacity = editable_capacity(mode);
                    if length >= capacity {
                        Err(
                            (
                                profile_items_path(),
                                "profile_items is full for this schema (maximum "@ + decimal(capacity) + ")"@,
                            ),
                        )
                    } else {
                        match spec_account_for_edit(document) {
                            Err(e) => Err(e),
                            Ok(account) => {
                                let rows = match member(account, "profile_items"@) {
                                    Some(JsonView::Array(r)) => r,
                                    _ => Seq::empty(),
                                };
                                Ok(
                                    (
                                        length as int,
                                        with_account(
                                            document,
                                            set_member(
                                                account,
                                                "profile_items"@,
                                                JsonView::Array(rows.push(new_profile_row(hash, quantity))),
                                            ),
                                        ),
                                    ),
                                )
                            },
                        }
                    }
                },
            }
        }
    }
}

/// Sets member `key` of the account object.
fn replace_account_member(document: &mut JsonValue, key: &str, value: JsonValue)
    requires
        spec_account_for_edit(old(document).deep()) is Ok,
    ensures
        final(document).deep() == with_account(
            old(document).deep(),
            set_member(spec_account_for_edit(old(document).deep())->Ok_0, key@, value.deep()),
        ),
{
    let ghost value_view = value.deep();
    let mut taken = JsonValue::Null;
    core::mem::swap(document, &mut taken);
    let mut o1 = match taken {
        JsonValue::Object(o) => o,
        other => {
            proof {
                assert(false);
            }
            *document = other;
            return;
        },
    };
    proof {
        lemma_object_deep(o1);
        lemma_member_index_range(members_view(o1@), "state"@, 0);
    }
    let ghost o1_before = members_view(o1@);
    let i1 = match find_member(&o1, "state") {
        Some(i) => i,
        None => {
            proof {
                assert(false);
            }
            return;
        },
    };
    let mut state_entry = (String::new(), JsonValue::Null);
    o1.set_and_swap(i1, &mut state_entry);
    let (state_key, state_value) = state_entry;
    let mut o2 = match state_value {
        JsonValue::Object(o) => o,
        _ => {
            proof {
                assert(false);
            }
            return;
        },
    };
    proof {
        lemma_object_deep(o2);
        lemma_member_index_range(members_view(o2@), "account"@, 0);
    }
    let ghost o2_before = members_view(o2@);
    let i2 = match find_member(&o2, "account") {
        Some(i) => i,
        None => {
            proof {
                assert(false);
            }
            return;
        },
    };
    let mut account_entry = (String::new(), JsonValue::Null);
    o2.set_and_swap(i2, &mut account_entry);
    let (account_key, account_value) = account_entry;
    let mut o3 = match account_value {
        JsonValue::Object(o) => o,
        _ => {
            proof {
                assert(false);
            }
            return;
        },
    };
    proof {
        lemma_object_deep(o3);
    }
    let ghost o3_before = members_view(o3@);
    set_member_exec(&mut o3, key, value);
    let new_account = JsonValue::Object(o3);
    let ghost new_account_view = new_account.deep();
    proof {
        lemma_object_deep(new_account->Object_0);
    }
    o2.set(i2, (account_key, new_account));
    proof {
        lemma_object_deep(o2);
        assert(members_view(o2@) =~= set_member(o2_before, "account"@, new_account_view));
    }
    let new_state = JsonValue::Object(o2);
    let ghost new_state_view = new_state.deep();
    proof {
        lemma_object_deep(new_state->Object_0);
    }
    o1.set(i1, (state_key, new_state));
    assert(members_view(o1@) =~= set_member(o1_before, "state"@, new_state_view));
    let result = JsonValue::Object(o1);
    proof {
        lemma_object_deep(result->Object_0);
    }
    *document = result;
}

fn account_for_edit(document: &JsonValue) -> (r: Result<(), InventoryError>)
    ensures
        match spec_account_for_edit(document.deep()) {
            Ok(_) => r is Ok,
            Err(e) => r matches Err(x) && x@ == e,
        },
{
    let root = match document {
        JsonValue::Object(o) => o,
        _ => {
            return Err(error("/state", "state must be an object"));
        },
    };
    proof {
        lemma_object_deep(*root);
    }
    let state = match member_of(root, "state") {
        Some(JsonValue::Object(s)) => s,
        _ => {
            return Err(error("/state", "state must be an object"));
        },
    };
    proof {
        lemma_object_deep(*state);
    }
    match member_of(state, "account") {
        Some(JsonValue::Object(_)) => Ok(()),
        _ => Err(error("/state/account", "account must be an object")),
    }
}

fn profile_mutation_mode(document: &JsonValue) -> (r: Result<SchemaMode, InventoryError>)
    ensures
        match profile_mutation_error(spec_schema_mode(document_version(document.deep()))) {
            Some(e) => r matches Err(x) && x@ == e,
            None => r == Ok::<SchemaMode, InventoryError>(spec_schema_mode(document_version(document.deep()))),
        },
{
    let mode = match readable_mode(document) {
        Ok(m) => m,
        Err(e) => {
            return Err(e);
        },
    };
    if mode.can_mutate_profile_items() {
        Ok(mode)
    } else {
        Err(read_only_schema_error(mode, "profile items"))
    }
}

/// The member holding the profile item rows, copied.
fn copy_profile_rows(document: &JsonValue) -> (rows: Vec<JsonValue>)
    ensures
        match spec_account(document.deep()) {
            Ok(Some(account)) => match member(account, "profile_items"@) {
                Some(JsonView::Array(r)) => elems_view(rows@) == r,
                _ => rows@.len() == 0,
            },
            _ => rows@.len() == 0,
        },
{
    match account_members(document) {
        Ok(Some(account)) => match member_of(account, "profile_items") {
            Some(v) => match v {
                JsonValue::Array(_) => {
                    let copy = v.deep_copy();
                    match copy {
                        JsonValue::Array(rows) => {
                            proof {
                                lemma_array_deep(rows);
                                if let JsonValue::Array(orig) = v {
                                    lemma_array_deep(*orig);
                                }
                            }
                            rows
                        },
                        _ => Vec::new(),
                    }
                },
                _ => Vec::new(),
            },
            None => Vec::new(),
        },
        _ => Vec::new(),
    }
}

/// Adds a profile item of `definition_hash` and `quantity` at the end of the rows (creating
/// the rows when the account has none) and says where it landed. The schema must allow
/// editing profile items, the hash must not be the engine's sentinel, the quantity must be
/// positive, the existing rows must read, and the schema's row limit must leave room; a
/// refused addition changes nothing.
pub fn add_profile_item(document: &mut JsonValue, definition_hash: u32, quantity: i32) -> (r: Result<
    ProfileItemLocation,
    InventoryError,
>)
    ensures
        match spec_add_profile_item(old(document).deep(), definition_hash, quantity) {
            Ok((index, after)) => r == Ok::<ProfileItemLocation, InventoryError>(
                ProfileItemLocation { index: index as usize },
            ) && final(document).deep() == after,
            Err(e) => r matches Err(x) && x@ == e && final(document).deep() == old(document).deep(),
        },
{
    let mode = match profile_mutation_mode(document) {
        Ok(m) => m,
        Err(e) => {
            return Err(e);
        },
    };
    if definition_hash == NO_DEFINITION_HASH {
        return Err(
            error(
                "/state/account/profile_items/<new>/definition_hash",
                "the engine no-definition sentinel is not a valid authored hash",
            ),
        );
    }
    if quantity <= 0 {
        return Err(
            error("/state/account/profile_items/<new>/quantity", "quantity must be a positive signed 32-bit integer"),
        );
    }
    let existing = match profile_items(document) {
        Ok(e) => e,
        Err(e) => {
            return Err(e);
        },
    };
    let length = match &existing {
        Some(rows) => rows.len(),
        None => 0,
    };
    let capacity = match mode.profile_item_capacity() {
        Some(c) => c,
        None => {
            return Err(error("/state/account/profile_items", "profile_items has no known capacity"));
        },
    };
    if length >= capacity {
        let mut m = owned("profile_items is full for this schema (maximum ");
        push_decimal(&mut m, capacity as u64);
        push_str(&mut m, ")");
        return Err(InventoryError::new(owned("/state/account/profile_items"), m));
    }
    match account_for_edit(document) {
        Ok(()) => {},
        Err(e) => {
            return Err(e);
        },
    }
    let mut rows = copy_profile_rows(document);
    proof {
        let doc = document.deep();
        let account = spec_account_for_edit(doc)->Ok_0;
        assert(spec_account(doc) == Ok::<Option<Seq<(Seq<char>, JsonView)>>, ErrorView>(Some(account)));
        match member(account, "profile_items"@) {
            Some(JsonView::Array(r)) => {
                lemma_rows_len(r, r.len() as int);
                assert(elems_view(rows@) == r);
            },
            _ => {
                assert(rows@.len() == 0);
            },
        }
    }
    let mut row: Vec<(String, JsonValue)> = Vec::new();
    row.push((owned("definition_hash"), JsonValue::String(format_definition_hash(definition_hash))));
    row.push((owned("quantity"), int_value(quantity)));
    let new_row = JsonValue::Object(row);
    proof {
        lemma_object_deep(new_row->Object_0);
        assert(new_row.deep()->Object_0 =~= new_profile_row(definition_hash, quantity)->Object_0);
    }
    let ghost before_rows = elems_view(rows@);
    rows.push(new_row);
    let ghost rows_view = elems_view(rows@);
    assert(rows_view =~= before_rows.push(new_profile_row(definition_hash, quantity)));
    let array = JsonValue::Array(rows);
    proof {
        lemma_array_deep(array->Array_0);
    }
    let ghost before_doc = document.deep();
    replace_account_member(document, "profile_items", array);
    proof {
        let account = spec_account_for_edit(before_doc)->Ok_0;
        let spec_rows = match member(account, "profile_items"@) {
            Some(JsonView::Array(r)) => r,
            _ => Seq::<JsonView>::empty(),
        };
        assert(before_rows == spec_rows);
        assert(length as int == (match spec_profile_items(before_doc)->Ok_0 {
            Some(x) => x.len(),
            None => 0,
        }));
        assert(spec_add_profile_item(before_doc, definition_hash, quantity) is Ok);
    }
    Ok(ProfileItemLocation { index: length })
}

/// Adds the definition picked for a profile bucket as a new row of one: a hash above 32 bits
/// is refused with its message; otherwise the row is added as `add_profile_item` describes,
/// its error given as text. A refused add leaves the document as it was.
pub fn add_picked_profile_item(document: &mut JsonValue, hash: u64) -> (r: Result<ProfileItemLocation, String>)
    ensures
        if hash > u32::MAX {
            r matches Err(t) && t@ == "The selected profile-item hash does not fit in 32 bits"@
                && final(document).deep() == old(document).deep()
        } else {
            match spec_add_profile_item(old(document).deep(), hash as u32, 1) {
                Ok((index, after)) => r == Ok::<ProfileItemLocation, String>(ProfileItemLocation { index: index as usize })
                    && final(document).deep() == after,
                Err(e) => r matches Err(t) && t@ == error_text(e) && final(document).deep() == old(document).deep(),
            }
        },
{
    if hash > 0xFFFF_FFFFu64 {
        return Err(owned("The selected profile-item hash does not fit in 32 bits"));
    }
    match add_profile_item(document, hash as u32, 1) {
        Ok(location) => Ok(location),
        Err(e) => Err(e.to_text()),
    }
}

/// Why a requested edit of row `index` is refused before anything is read, if it is.
pub open spec fn profile_action_error(index: int, action: ProfileItemAction) -> Option<ErrorView> {
    match action {
        ProfileItemAction::SetDefinitionHash(h) => if h == NO_DEFINITION_HASH {
            Some((profile_row_path(index) + "/definition_hash"@, sentinel_message()))
        } else {
            None
        },
        ProfileItemAction::SetQuantity(q) => if q <= 0 {
            Some((profile_row_path(index) + "/quantity"@, quantity_message()))
        } else {
            None
        },
        ProfileItemAction::Remove => None,
    }
}

/// A row after an edit of one of its members; its other members stay as they were.
pub open spec fn edited_profile_row(row: JsonView, action: ProfileItemAction) -> JsonView {
    match (row, action) {
        (JsonView::Object(o), ProfileItemAction::SetDefinitionHash(h)) => JsonView::Object(
            set_member(o, "definition_hash"@, JsonView::Str(definition_hash_text(h))),
        ),
        (JsonView::Object(o), ProfileItemAction::SetQuantity(q)) => JsonView::Object(
            set_member(o, "quantity"@, int_view(q)),
        ),
        _ => row,
    }
}

/// The rows after an edit of row `index`: removed, or edited in place.
pub open spec fn edited_profile_rows(rows: Seq<JsonView>, index: int, action: ProfileItemAction) -> Seq<JsonView> {
    match action {
        ProfileItemAction::Remove => rows.remove(index),
        _ => rows.update(index, edited_profile_row(rows[index], action)),
    }
}

/// The document after an edit of a profile item row, or why the edit is refused.
pub open spec fn spec_apply_profile_item_action(
    document: JsonView,
    location: ProfileItemLocation,
    action: ProfileItemAction,
) -> Result<JsonView, ErrorView> {
    let mode = spec_schema_mode(document_version(document));
    let index = location.index as int;
    match profile_mutation_error(mode) {
        Some(e) => Err(e),
        None => match spec_profile_items(document) {
            Err(e) => Err(e),
            Ok(None) => Err((profile_items_path(), "profile_items is missing; add an item before editing a row"@)),
            Ok(Some(snapshots)) => if index >= snapshots.len() {
                Err((profile_row_path(index), "profile item index is out of range"@))
            } else {
                match profile_action_error(index, action) {
                    Some(e) => Err(e),
                    None => {
                        let account = spec_account_for_edit(document)->Ok_0;
                        let rows = member(account, "profile_items"@)->0->Array_0;
                        Ok(
                            with_account(
                                document,
                                set_member(
                                    account,
                                    "profile_items"@,
                                    JsonView::Array(edited_profile_rows(rows, index, action)),
                                ),
                            ),
                        )
                    },
                }
            },
        },
    }
}

/// Rows that read are objects.
proof fn lemma_rows_are_objects(rows: Seq<JsonView>, n: int, k: int)
    requires
        0 <= k < n <= rows.len(),
        spec_profile_rows(rows, n) is Ok,
    ensures
        rows[k] is Object,
    decreases n,
{
    if k < n - 1 {
        lemma_rows_are_objects(rows, n - 1, k);
    }
}

/// Edits or removes one profile item row. The schema must allow editing profile items, the
/// rows must read, the row must exist, and a new hash or quantity must be valid; a refused
/// edit changes nothing. Other rows, and the row's other members, stay as they were.
pub fn apply_profile_item_action(
    document: &mut JsonValue,
    location: ProfileItemLocation,
    action: ProfileItemAction,
) -> (r: Result<(), InventoryError>)
    ensures
        match spec_apply_profile_item_action(old(document).deep(), location, action) {
            Ok(after) => r is Ok && final(document).deep() == after,
            Err(e) => r matches Err(x) && x@ == e && final(document).deep() == old(document).deep(),
        },
{
    match profile_mutation_mode(document) {
        Ok(_) => {},
        Err(e) => {
            return Err(e);
        },
    }
    let snapshots = match profile_items(document) {
        Ok(Some(s)) => s,
        Ok(None) => {
            return Err(
                error("/state/account/profile_items", "profile_items is missing; add an item before editing a row"),
            );
        },
        Err(e) => {
            return Err(e);
        },
    };
    let index = location.index;
    if index >= snapshots.len() {
        return Err(InventoryError::new(row_path(index), owned("profile item index is out of range")));
    }
    match action {
        ProfileItemAction::SetDefinitionHash(h) => {
            if h == NO_DEFINITION_HASH {
                let path = row_path(index);
                proof {
                    reveal_strlit("/");
                    reveal_strlit("definition_hash");
                    reveal_strlit("/definition_hash");
                    assert(path@ + "/"@ + "definition_hash"@ =~= profile_row_path(index as int) + "/definition_hash"@);
                }
                return Err(
                    InventoryError::new(
                        field_path(path.as_str(), "definition_hash"),
                        owned("the engine no-definition sentinel is not a valid authored hash"),
                    ),
                );
            }
        },
        ProfileItemAction::SetQuantity(q) => {
            if q <= 0 {
                let path = row_path(index);
                proof {
                    reveal_strlit("/");
                    reveal_strlit("quantity");
                    reveal_strlit("/quantity");
                    assert(path@ + "/"@ + "quantity"@ =~= profile_row_path(index as int) + "/quantity"@);
                }
                return Err(
                    InventoryError::new(
                        field_path(path.as_str(), "quantity"),
                        owned("quantity must be a positive signed 32-bit integer"),
                    ),
                );
            }
        },
        ProfileItemAction::Remove => {},
    }
    let mut rows = copy_profile_rows(document);
    let ghost doc = document.deep();
    let ghost account = spec_account_for_edit(doc)->Ok_0;
    let ghost spec_rows = member(account, "profile_items"@)->0->Array_0;
    proof {
        assert(spec_account(doc) == Ok::<Option<Seq<(Seq<char>, JsonView)>>, ErrorView>(Some(account)));
        lemma_rows_len(spec_rows, spec_rows.len() as int);
        assert(elems_view(rows@) == spec_rows);
        lemma_rows_are_objects(spec_rows, spec_rows.len() as int, index as int);
    }
    match action {
        ProfileItemAction::Remove => {
            let _ = rows.remove(index);
            assert(elems_view(rows@) =~= spec_rows.remove(index as int));
        },
        ProfileItemAction::SetDefinitionHash(h) => {
            let mut slot = JsonValue::Null;
            rows.set_and_swap(index, &mut slot);
            let ghost taken_view = slot.deep();
            assert(taken_view == spec_rows[index as int]);
            let mut o = match slot {
                JsonValue::Object(o) => o,
                other => {
                    proof {
                        assert(false);
                    }
                    other.deep_copy();
                    return Ok(());
                },
            };
            proof {
                lemma_object_deep(o);
            }
            set_member_exec(&mut o, "definition_hash", JsonValue::String(format_definition_hash(h)));
            let row = JsonValue::Object(o);
            proof {
                lemma_object_deep(row->Object_0);
                assert(row.deep() == edited_profile_row(spec_rows[index as int], action));
            }
            rows.set(index, row);
            assert(elems_view(rows@) =~= edited_profile_rows(spec_rows, index as int, action));
        },
        ProfileItemAction::SetQuantity(q) => {
            let mut slot = JsonValue::Null;
            rows.set_and_swap(index, &mut slot);
            let ghost taken_view = slot.deep();
            assert(taken_view == spec_rows[index as int]);
            let mut o = match slot {
                JsonValue::Object(o) => o,
                other => {
                    proof {
                        assert(false);
                    }
                    other.deep_copy();
                    return Ok(());
                },
            };
            proof {
                lemma_object_deep(o);
            }
            set_member_exec(&mut o, "quantity", int_value(q));
            let row = JsonValue::Object(o);
            proof {
                lemma_object_deep(row->Object_0);
                assert(row.deep() == edited_profile_row(spec_rows[index as int], action));
            }
            rows.set(index, row);
            assert(elems_view(rows@) =~= edited_profile_rows(spec_rows, index as int, action));
        },
    }
    let array = JsonValue::Array(rows);
    proof {
        lemma_array_deep(array->Array_0);
    }
    replace_account_member(document, "profile_items", array);
    Ok(())
}

/// Whether the document has an account object to hold profile items: an error when the
/// schema version is missing or a section is malformed.
pub open spec fn spec_profile_item_target_exists(document: JsonView) -> Result<bool, ErrorView> {
    if spec_schema_mode(document_version(document)) is MissingOrInvalid {
        Err(missing_version_error())
    } else {
        match spec_account(document) {
            Err(e) => Err(e),
            Ok(None) => Ok(false),
            Ok(Some(_)) => Ok(true),
        }
    }
}

/// Whether profile items could be added, as `spec_profile_item_target_exists` describes.
pub fn profile_item_target_exists(document: &JsonValue) -> (r: Result<bool, InventoryError>)
    ensures
        match spec_profile_item_target_exists(document.deep()) {
            Ok(b) => r == Ok::<bool, InventoryError>(b),
            Err(e) => r matches Err(x) && x@ == e,
        },
{
    match readable_mode(document) {
        Ok(_) => {},
        Err(e) => {
            return Err(e);
        },
    }
    match account_members(document) {
        Err(e) => Err(e),
        Ok(None) => Ok(false),
        Ok(Some(_)) => Ok(true),
    }
}

// ---------------------------------------------------------------------------------------
// Reading back what was added
// ---------------------------------------------------------------------------------------

/// Reading the first `k` rows is not changed by a row added after them.
proof fn lemma_rows_prefix(rows: Seq<JsonView>, x: JsonView, k: int)
    requires
        0 <= k <= rows.len(),
    ensures
        spec_profile_rows(rows.push(x), k) == spec_profile_rows(rows, k),
    decreases k,
{
    if k > 0 {
        lemma_rows_prefix(rows, x, k - 1);
        assert(rows.push(x)[k - 1] == rows[k - 1]);
    }
}

/// The row that adding writes reads back as the added item.
proof fn lemma_new_row_reads(hash: u32, quantity: i32, index: int)
    requires
        hash != NO_DEFINITION_HASH,
        quantity > 0,
        0 <= index <= usize::MAX,
    ensures
        spec_profile_row(new_profile_row(hash, quantity), index) == Ok::<ProfileItemSnapshot, ErrorView>(
            ProfileItemSnapshot {
                location: ProfileItemLocation { index: index as usize },
                definition_hash: hash,
                quantity,
            },
        ),
{
    let o = new_profile_row(hash, quantity)->Object_0;
    reveal_strlit("definition_hash");
    reveal_strlit("quantity");
    assert("definition_hash"@.len() != "quantity"@.len());
    lemma_member_of_first(o, "definition_hash"@, 0);
    lemma_member_of_first(o, "quantity"@, 1);
    crate::inventory::law_definition_hash_text_reads_back(hash);
}

/// After a profile item is added, reading the profile items gives the rows read before
/// with the new item at the end, at the index the addition returned.
pub proof fn law_added_profile_item_reads_back(document: JsonView, hash: u32, quantity: i32)
    requires
        spec_add_profile_item(document, hash, quantity) is Ok,
    ensures
        ({
            let (index, after) = spec_add_profile_item(document, hash, quantity)->Ok_0;
            let before = match spec_profile_items(document) {
                Ok(Some(rows)) => rows,
                _ => Seq::empty(),
            };
            &&& index == before.len()
            &&& spec_profile_items(after) == Ok::<Option<Seq<ProfileItemSnapshot>>, ErrorView>(
                Some(
                    before.push(
                        ProfileItemSnapshot {
                            location: ProfileItemLocation { index: index as usize },
                            definition_hash: hash,
                            quantity,
                        },
                    ),
                ),
            )
        }),
{
    let (index, after) = spec_add_profile_item(document, hash, quantity)->Ok_0;
    let mode = spec_schema_mode(document_version(document));
    let root = document->Object_0;
    let state = member(root, "state"@)->0->Object_0;
    let account = spec_account_for_edit(document)->Ok_0;
    assert(member(state, "account"@) == Some(JsonView::Object(account)));
    assert(spec_account(document) == Ok::<Option<Seq<(Seq<char>, JsonView)>>, ErrorView>(Some(account)));
    let rows = match member(account, "profile_items"@) {
        Some(JsonView::Array(r)) => r,
        _ => Seq::<JsonView>::empty(),
    };
    let before = match spec_profile_items(document) {
        Ok(Some(r)) => r,
        _ => Seq::<ProfileItemSnapshot>::empty(),
    };
    if let Some(JsonView::Array(r)) = member(account, "profile_items"@) {
        lemma_rows_len(r, r.len() as int);
    }
    assert(before.len() == rows.len());
    let new_row = new_profile_row(hash, quantity);
    let new_account = set_member(account, "profile_items"@, JsonView::Array(rows.push(new_row)));
    let new_state = set_member(state, "account"@, JsonView::Object(new_account));
    assert(after == JsonView::Object(set_member(root, "state"@, JsonView::Object(new_state))));
    reveal_strlit("version");
    reveal_strlit("state");
    assert("version"@.len() != "state"@.len());
    lemma_member_after_set(root, "state"@, JsonView::Object(new_state), "version"@);
    assert(document_version(after) == document_version(document));
    lemma_member_after_set(state, "account"@, JsonView::Object(new_account), "account"@);
    lemma_member_after_set(account, "profile_items"@, JsonView::Array(rows.push(new_row)), "profile_items"@);
    assert(spec_account(after) == Ok::<Option<Seq<(Seq<char>, JsonView)>>, ErrorView>(Some(new_account)));
    lemma_rows_prefix(rows, new_row, rows.len() as int);
    assert(rows.push(new_row).drop_last() =~= rows);
    lemma_new_row_reads(hash, quantity, rows.len() as int);
    assert(spec_profile_rows(rows.push(new_row), rows.len() as int + 1) == Ok::<Seq<ProfileItemSnapshot>, ErrorView>(
        before.push(
            ProfileItemSnapshot {
                location: ProfileItemLocation { index: index as usize },
                definition_hash: hash,
                quantity,
            },
        ),
    ));
}

/// A row's snapshot after an edit of one of its members.
pub open spec fn edited_snapshot(s: ProfileItemSnapshot, action: ProfileItemAction) -> ProfileItemSnapshot {
    match action {
        ProfileItemAction::SetDefinitionHash(h) => ProfileItemSnapshot { definition_hash: h, ..s },
        ProfileItemAction::SetQuantity(q) => ProfileItemSnapshot { quantity: q, ..s },
        ProfileItemAction::Remove => s,
    }
}

/// An edited row reads back as the row read before with the edited member changed.
proof fn lemma_edited_row_reads(row: JsonView, index: int, action: ProfileItemAction)
    requires
        spec_profile_row(row, index) is Ok,
        !(action is Remove),
        profile_action_error(index, action) is None,
    ensures
        spec_profile_row(edited_profile_row(row, action), index) == Ok::<ProfileItemSnapshot, ErrorView>(
            edited_snapshot(spec_profile_row(row, index)->Ok_0, action),
        ),
{
    let o = row->Object_0;
    reveal_strlit("definition_hash");
    reveal_strlit("quantity");
    assert("definition_hash"@.len() != "quantity"@.len());
    match action {
        ProfileItemAction::SetDefinitionHash(h) => {
            lemma_member_after_set(o, "definition_hash"@, JsonView::Str(definition_hash_text(h)), "quantity"@);
            crate::inventory::law_definition_hash_text_reads_back(h);
        },
        ProfileItemAction::SetQuantity(q) => {
            lemma_member_after_set(o, "quantity"@, int_view(q), "definition_hash"@);
        },
        ProfileItemAction::Remove => {},
    }
}

/// Reading rows after one of them is replaced: the same snapshots, with the replaced row's
/// snapshot in its place.
proof fn lemma_rows_update(rows: Seq<JsonView>, i: int, row: JsonView, snapshot: ProfileItemSnapshot, n: int)
    requires
        0 <= i < rows.len(),
        0 <= n <= rows.len(),
        spec_profile_rows(rows, n) is Ok,
        spec_profile_row(row, i) == Ok::<ProfileItemSnapshot, ErrorView>(snapshot),
    ensures
        spec_profile_rows(rows.update(i, row), n) == Ok::<Seq<ProfileItemSnapshot>, ErrorView>(
            if i < n {
                spec_profile_rows(rows, n)->Ok_0.update(i, snapshot)
            } else {
                spec_profile_rows(rows, n)->Ok_0
            },
        ),
    decreases n,
{
    if n > 0 {
        lemma_rows_update(rows, i, row, snapshot, n - 1);
        lemma_rows_len(rows, n - 1);
        let prev = spec_profile_rows(rows, n - 1)->Ok_0;
        let s = spec_profile_row(rows[n - 1], n - 1)->Ok_0;
        if n - 1 == i {
            assert(prev.push(snapshot) =~= prev.push(s).update(i, snapshot));
        } else if n - 1 > i {
            assert(rows.update(i, row)[n - 1] == rows[n - 1]);
            assert(prev.update(i, snapshot).push(s) =~= prev.push(s).update(i, snapshot));
        } else {
            assert(rows.update(i, row)[n - 1] == rows[n - 1]);
        }
    }
}

/// After a row's definition or quantity is edited, reading the profile items gives the rows
/// read before, with that row's edited member changed and every other row as it was.
pub proof fn law_profile_edit_reads_back(document: JsonView, location: ProfileItemLocation, action: ProfileItemAction)
    requires
        spec_apply_profile_item_action(document, location, action) is Ok,
        !(action is Remove),
    ensures
        ({
            let after = spec_apply_profile_item_action(document, location, action)->Ok_0;
            let before = spec_profile_items(document)->Ok_0->0;
            let i = location.index as int;
            spec_profile_items(after) == Ok::<Option<Seq<ProfileItemSnapshot>>, ErrorView>(
                Some(before.update(i, edited_snapshot(before[i], action))),
            )
        }),
{
    let after = spec_apply_profile_item_action(document, location, action)->Ok_0;
    let before = spec_profile_items(document)->Ok_0->0;
    let i = location.index as int;
    let root = document->Object_0;
    let state = member(root, "state"@)->0->Object_0;
    let account = spec_account_for_edit(document)->Ok_0;
    let rows = member(account, "profile_items"@)->0->Array_0;
    assert(spec_profile_rows(rows, rows.len() as int) == Ok::<Seq<ProfileItemSnapshot>, ErrorView>(before));
    lemma_rows_len(rows, rows.len() as int);
    let edited = edited_profile_row(rows[i], action);
    lemma_rows_prefix_ok(rows, i + 1, rows.len() as int);
    lemma_row_of_rows(rows, i);
    lemma_edited_row_reads(rows[i], i, action);
    lemma_rows_update(rows, i, edited, edited_snapshot(before[i], action), rows.len() as int);
    assert(edited_profile_rows(rows, i, action) == rows.update(i, edited));
    let new_account = set_member(account, "profile_items"@, JsonView::Array(rows.update(i, edited)));
    let new_state = set_member(state, "account"@, JsonView::Object(new_account));
    assert(after == JsonView::Object(set_member(root, "state"@, JsonView::Object(new_state))));
    reveal_strlit("version");
    reveal_strlit("state");
    assert("version"@.len() != "state"@.len());
    lemma_member_after_set(root, "state"@, JsonView::Object(new_state), "version"@);
    assert(document_version(after) == document_version(document));
    lemma_member_after_set(state, "account"@, JsonView::Object(new_account), "account"@);
    lemma_member_after_set(account, "profile_items"@, JsonView::Array(rows.update(i, edited)), "profile_items"@);
    assert(spec_account(after) == Ok::<Option<Seq<(Seq<char>, JsonView)>>, ErrorView>(Some(new_account)));
}

/// A prefix of rows that read reads too.
proof fn lemma_rows_prefix_ok(rows: Seq<JsonView>, k: int, n: int)
    requires
        0 <= k <= n <= rows.len(),
        spec_profile_rows(rows, n) is Ok,
    ensures
        spec_profile_rows(rows, k) is Ok,
        spec_profile_rows(rows, k)->Ok_0 == spec_profile_rows(rows, n)->Ok_0.take(k),
    decreases n - k,
{
    lemma_rows_len(rows, n);
    if k < n {
        lemma_rows_prefix_ok(rows, k, n - 1);
        lemma_rows_len(rows, n - 1);
        let prev = spec_profile_rows(rows, n - 1)->Ok_0;
        let all = spec_profile_rows(rows, n)->Ok_0;
        assert(all == prev.push(spec_profile_row(rows[n - 1], n - 1)->Ok_0));
        assert(all.take(k) =~= prev.take(k));
    } else {
        assert(spec_profile_rows(rows, n)->Ok_0.take(n) =~= spec_profile_rows(rows, n)->Ok_0);
    }
}

/// When all rows read, row `i` reads as the `i`-th snapshot.
proof fn lemma_row_of_rows(rows: Seq<JsonView>, i: int)
    requires
        0 <= i < rows.len(),
        spec_profile_rows(rows, rows.len() as int) is Ok,
    ensures
        spec_profile_row(rows[i], i) == Ok::<ProfileItemSnapshot, ErrorView>(
            spec_profile_rows(rows, rows.len() as int)->Ok_0[i],
        ),
{
    lemma_rows_prefix_ok(rows, i + 1, rows.len() as int);
    lemma_rows_prefix_ok(rows, i, rows.len() as int);
    lemma_rows_len(rows, i);
    let prev = spec_profile_rows(rows, i)->Ok_0;
    let upto = spec_profile_rows(rows, i + 1)->Ok_0;
    assert(spec_profile_row(rows[i], i) is Ok);
    assert(upto == prev.push(spec_profile_row(rows[i], i)->Ok_0));
    lemma_rows_len(rows, rows.len() as int);
    assert(upto[i] == spec_profile_row(rows[i], i)->Ok_0);
    assert(upto[i] == spec_profile_rows(rows, rows.len() as int)->Ok_0.take(i + 1)[i]);
    assert(spec_profile_rows(rows, rows.len() as int)->Ok_0.take(i + 1)[i] == spec_profile_rows(rows, rows.len() as int)->Ok_0[i]);
}

/// Snapshots numbered by their position.
pub open spec fn reindexed(s: Seq<ProfileItemSnapshot>) -> Seq<ProfileItemSnapshot> {
    Seq::new(s.len(), |k: int| ProfileItemSnapshot { location: ProfileItemLocation { index: k as usize }, ..s[k] })
}

/// A row that reads at one position reads the same at another, numbered there.
proof fn lemma_row_reindex(v: JsonView, j: int, k: int)
    requires
        spec_profile_row(v, j) is Ok,
    ensures
        spec_profile_row(v, k) == Ok::<ProfileItemSnapshot, ErrorView>(
            ProfileItemSnapshot { location: ProfileItemLocation { index: k as usize }, ..spec_profile_row(v, j)->Ok_0 },
        ),
{
}

proof fn lemma_rows_remove(rows: Seq<JsonView>, i: int, n: int)
    requires
        0 <= i < rows.len(),
        0 <= n < rows.len(),
        spec_profile_rows(rows, rows.len() as int) is Ok,
    ensures
        spec_profile_rows(rows.remove(i), n) == Ok::<Seq<ProfileItemSnapshot>, ErrorView>(
            reindexed(spec_profile_rows(rows, rows.len() as int)->Ok_0.remove(i)).take(n),
        ),
    decreases n,
{
    let all = spec_profile_rows(rows, rows.len() as int)->Ok_0;
    lemma_rows_len(rows, rows.len() as int);
    let target = reindexed(all.remove(i));
    if n == 0 {
        assert(target.take(0) =~= Seq::<ProfileItemSnapshot>::empty());
    } else {
        lemma_rows_remove(rows, i, n - 1);
        let source = if n - 1 < i {
            n - 1
        } else {
            n
        };
        assert(rows.remove(i)[n - 1] == rows[source]);
        lemma_row_of_rows(rows, source);
        lemma_row_reindex(rows[source], source, n - 1);
        assert(target.take(n) =~= target.take(n - 1).push(target[n - 1]));
        assert(target[n - 1] == ProfileItemSnapshot {
            location: ProfileItemLocation { index: (n - 1) as usize },
            ..all[source]
        });
    }
}

/// After a row is removed, reading the profile items gives the other rows in their order,
/// each numbered by its new position.
pub proof fn law_profile_remove_reads_back(document: JsonView, location: ProfileItemLocation)
    requires
        spec_apply_profile_item_action(document, location, ProfileItemAction::Remove) is Ok,
    ensures
        ({
            let after = spec_apply_profile_item_action(document, location, ProfileItemAction::Remove)->Ok_0;
            let before = spec_profile_items(document)->Ok_0->0;
            spec_profile_items(after) == Ok::<Option<Seq<ProfileItemSnapshot>>, ErrorView>(
                Some(reindexed(before.remove(location.index as int))),
            )
        }),
{
    let action = ProfileItemAction::Remove;
    let after = spec_apply_profile_item_action(document, location, action)->Ok_0;
    let before = spec_profile_items(document)->Ok_0->0;
    let i = location.index as int;
    let root = document->Object_0;
    let state = member(root, "state"@)->0->Object_0;
    let account = spec_account_for_edit(document)->Ok_0;
    let rows = member(account, "profile_items"@)->0->Array_0;
    assert(spec_profile_rows(rows, rows.len() as int) == Ok::<Seq<ProfileItemSnapshot>, ErrorView>(before));
    lemma_rows_len(rows, rows.len() as int);
    let remaining = rows.remove(i);
    lemma_rows_remove(rows, i, remaining.len() as int);
    assert(reindexed(before.remove(i)).take(remaining.len() as int) =~= reindexed(before.remove(i)));
    assert(edited_profile_rows(rows, i, action) == remaining);
    let new_account = set_member(account, "profile_items"@, JsonView::Array(remaining));
    let new_state = set_member(state, "account"@, JsonView::Object(new_account));
    assert(after == JsonView::Object(set_member(root, "state"@, JsonView::Object(new_state))));
    reveal_strlit("version");
    reveal_strlit("state");
    assert("version"@.len() != "state"@.len());
    lemma_member_after_set(root, "state"@, JsonView::Object(new_state), "version"@);
    assert(document_version(after) == document_version(document));
    lemma_member_after_set(state, "account"@, JsonView::Object(new_account), "account"@);
    lemma_member_after_set(account, "profile_items"@, JsonView::Array(remaining), "profile_items"@);
    assert(spec_account(after) == Ok::<Option<Seq<(Seq<char>, JsonView)>>, ErrorView>(Some(new_account)));
}

/// Adding a profile item to existing rows and then removing the row the addition returned
/// gives back the document as it was.
pub proof fn law_add_then_remove_profile_item_restores(document: JsonView, hash: u32, quantity: i32)
    requires
        spec_add_profile_item(document, hash, quantity) is Ok,
        spec_profile_items(document) matches Ok(Some(_)),
    ensures
        ({
            let (index, after) = spec_add_profile_item(document, hash, quantity)->Ok_0;
            spec_apply_profile_item_action(after, ProfileItemLocation { index: index as usize }, ProfileItemAction::Remove)
                == Ok::<JsonView, ErrorView>(document)
        }),
{
    let (index, after) = spec_add_profile_item(document, hash, quantity)->Ok_0;
    law_added_profile_item_reads_back(document, hash, quantity);
    let root = document->Object_0;
    let state = member(root, "state"@)->0->Object_0;
    let account = spec_account_for_edit(document)->Ok_0;
    let rows = member(account, "profile_items"@)->0->Array_0;
    let new_row = new_profile_row(hash, quantity);
    let pi = "profile_items"@;
    let grown = set_member(account, pi, JsonView::Array(rows.push(new_row)));
    let new_state = set_member(state, "account"@, JsonView::Object(grown));
    assert(after == JsonView::Object(set_member(root, "state"@, JsonView::Object(new_state))));
    lemma_rows_len(rows, rows.len() as int);
    reveal_strlit("version");
    reveal_strlit("state");
    assert("version"@.len() != "state"@.len());
    lemma_member_after_set(root, "state"@, JsonView::Object(new_state), "version"@);
    lemma_member_after_set(root, "state"@, JsonView::Object(new_state), "state"@);
    lemma_member_after_set(state, "account"@, JsonView::Object(grown), "account"@);
    lemma_member_after_set(account, pi, JsonView::Array(rows.push(new_row)), pi);
    assert(spec_account_for_edit(after) == Ok::<Seq<(Seq<char>, JsonView)>, ErrorView>(grown));
    assert(rows.push(new_row).remove(rows.len() as int) =~= rows);
    lemma_set_twice(account, pi, JsonView::Array(rows.push(new_row)), JsonView::Array(rows));
    lemma_set_same(account, pi);
    lemma_set_twice(state, "account"@, JsonView::Object(grown), JsonView::Object(account));
    lemma_set_same(state, "account"@);
    lemma_set_twice(root, "state"@, JsonView::Object(new_state), JsonView::Object(state));
    lemma_set_same(root, "state"@);
}

} // verus!
