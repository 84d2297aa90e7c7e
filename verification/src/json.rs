//! The settings document as a JSON value, with the lookups and updates that the editors
//! make on it.
//!
//! An object keeps its members in order and never holds two members with the same name;
//! lookups take the first member with the name. Numbers keep what JSON parsing gives:
//! unsigned and negative integers exactly, other numbers as their text together with
//! whether they fit a 32-bit float.
use vstd::prelude::*;
use crate::text::{chars_of, str_eq};

verus! {

/// A number that is not an integer: its JSON text, and whether it is finite as a 32-bit
/// float.
pub struct FloatNumber {
    pub text: String,
    pub finite_as_f32: bool,
}

/// A JSON number.
pub enum JsonNumber {
    /// A non-negative integer.
    PosInt(u64),
    /// A negative integer.
    NegInt(i64),
    Float(FloatNumber),
}

/// A JSON value.
pub enum JsonValue {
    Null,
    Bool(bool),
    Number(JsonNumber),
    String(String),
    Array(Vec<JsonValue>),
    Object(Vec<(String, JsonValue)>),
}

/// Mathematical value of a [`JsonNumber`].
pub enum NumberView {
    PosInt(u64),
    NegInt(i64),
    Float(Seq<char>, bool),
}

/// Mathematical value of a [`JsonValue`].
pub enum JsonView {
    Null,
    Bool(bool),
    Number(NumberView),
    Str(Seq<char>),
    Array(Seq<JsonView>),
    Object(Seq<(Seq<char>, JsonView)>),
}

impl JsonNumber {
    pub open spec fn number_view(&self) -> NumberView {
        match self {
            JsonNumber::PosInt(v) => NumberView::PosInt(*v),
            JsonNumber::NegInt(v) => NumberView::NegInt(*v),
            JsonNumber::Float(f) => NumberView::Float(f.text@, f.finite_as_f32),
        }
    }
}

impl JsonValue {
    pub open spec fn deep(self) -> JsonView
        decreases self,
    {
        match self {
            JsonValue::Null => JsonView::Null,
            JsonValue::Bool(b) => JsonView::Bool(b),
            JsonValue::Number(n) => JsonView::Number(n.number_view()),
            JsonValue::String(s) => JsonView::Str(s@),
            JsonValue::Array(a) => JsonView::Array(
                Seq::new(
                    a@.len(),
                    |i: int|
                        if 0 <= i < a@.len() {
                            a@[i].deep()
                        } else {
                            JsonView::Null
                        },
                ),
            ),
            JsonValue::Object(o) => JsonView::Object(
                Seq::new(
                    o@.len(),
                    |i: int|
                        if 0 <= i < o@.len() {
                            (o@[i].0@, o@[i].1.deep())
                        } else {
                            (Seq::empty(), JsonView::Null)
                        },
                ),
            ),
        }
    }
}

/// The deep view of an array's elements.
pub open spec fn elems_view(a: Seq<JsonValue>) -> Seq<JsonView> {
    Seq::new(a.len(), |i: int| a[i].deep())
}

/// The deep view of an object's members.
pub open spec fn members_view(o: Seq<(String, JsonValue)>) -> Seq<(Seq<char>, JsonView)> {
    Seq::new(o.len(), |i: int| (o[i].0@, o[i].1.deep()))
}

pub proof fn lemma_array_deep(a: Vec<JsonValue>)
    ensures
        JsonValue::Array(a).deep() == JsonView::Array(elems_view(a@)),
{
    assert(JsonValue::Array(a).deep()->Array_0 =~= elems_view(a@));
}

pub proof fn lemma_object_deep(o: Vec<(String, JsonValue)>)
    ensures
        JsonValue::Object(o).deep() == JsonView::Object(members_view(o@)),
{
    assert(JsonValue::Object(o).deep()->Object_0 =~= members_view(o@));
}

impl JsonNumber {
    pub fn copy_number(&self) -> (r: JsonNumber)
        ensures
            r.number_view() == self.number_view(),
    {
        match self {
            JsonNumber::PosInt(v) => JsonNumber::PosInt(*v),
            JsonNumber::NegInt(v) => JsonNumber::NegInt(*v),
            JsonNumber::Float(f) => JsonNumber::Float(
                FloatNumber { text: f.text.clone(), finite_as_f32: f.finite_as_f32 },
            ),
        }
    }
}

impl JsonValue {
    /// A copy with the same value.
    #[verifier::loop_isolation(false)]
    pub fn deep_copy(&self) -> (r: JsonValue)
        ensures
            r.deep() == self.deep(),
        decreases self,
    {
        match self {
            JsonValue::Null => JsonValue::Null,
            JsonValue::Bool(b) => JsonValue::Bool(*b),
            JsonValue::Number(n) => JsonValue::Number(n.copy_number()),
            JsonValue::String(s) => JsonValue::String(s.clone()),
            JsonValue::Array(a) => {
                let mut out: Vec<JsonValue> = Vec::new();
                let mut i: usize = 0;
                while i < a.len()
                    invariant
                        i <= a@.len(),
                        out@.len() == i,
                        forall|k: int| 0 <= k < i ==> (#[trigger] out@[k]).deep() == a@[k].deep(),
                    decreases a.len() - i,
                {
                    out.push(a[i].deep_copy());
                    i += 1;
                }
                let r = JsonValue::Array(out);
                proof {
                    let x = r.deep();
                    let y = self.deep();
                    assert(forall|k: int| 0 <= k < out@.len() ==> x->Array_0[k] == out@[k].deep());
                    assert(forall|k: int| 0 <= k < out@.len() ==> y->Array_0[k] == a@[k].deep());
                    assert(x->Array_0 =~= y->Array_0);
                }
                r
            },
            JsonValue::Object(o) => {
                let mut out: Vec<(String, JsonValue)> = Vec::new();
                let mut i: usize = 0;
                while i < o.len()
                    invariant
                        i <= o@.len(),
                        out@.len() == i,
                        forall|k: int|
                            0 <= k < i ==> (#[trigger] out@[k]).0@ == o@[k].0@ && out@[k].1.deep() == o@[k].1.deep(),
                    decreases o.len() - i,
                {
                    out.push((o[i].0.clone(), o[i].1.deep_copy()));
                    i += 1;
                }
                let r = JsonValue::Object(out);
                proof {
                    let x = r.deep();
                    let y = self.deep();
                    assert(forall|k: int| 0 <= k < out@.len() ==> x->Object_0[k] == (out@[k].0@, out@[k].1.deep()));
                    assert(forall|k: int| 0 <= k < out@.len() ==> y->Object_0[k] == (o@[k].0@, o@[k].1.deep()));
                    assert(x->Object_0 =~= y->Object_0);
                }
                r
            },
        }
    }
}

// ---------------------------------------------------------------------------------------
// Lookups
// ---------------------------------------------------------------------------------------

/// Index of the first member (from `k` on) named `key`.
pub open spec fn member_index(o: Seq<(Seq<char>, JsonView)>, key: Seq<char>, k: int) -> Option<int>
    decreases o.len() - k,
{
    if k < 0 || k >= o.len() {
        None
    } else if o[k].0 == key {
        Some(k)
    } else {
        member_index(o, key, k + 1)
    }
}

/// The value of the member named `key`.
pub open spec fn member(o: Seq<(Seq<char>, JsonView)>, key: Seq<char>) -> Option<JsonView> {
    match member_index(o, key, 0) {
        Some(i) => Some(o[i].1),
        None => None,
    }
}

/// The value of member `key` of `v`, when `v` is an object that has one.
pub open spec fn get(v: JsonView, key: Seq<char>) -> Option<JsonView> {
    match v {
        JsonView::Object(o) => member(o, key),
        _ => None,
    }
}

/// A non-negative integer, as `Value::as_u64` gives it.
pub open spec fn as_u64(v: JsonView) -> Option<u64> {
    match v {
        JsonView::Number(NumberView::PosInt(n)) => Some(n),
        _ => None,
    }
}

/// An integer in the range of `i64`, as `Value::as_i64` gives it.
pub open spec fn as_i64(v: JsonView) -> Option<i64> {
    match v {
        JsonView::Number(NumberView::PosInt(n)) => if n <= i64::MAX {
            Some(n as i64)
        } else {
            None
        },
        JsonView::Number(NumberView::NegInt(n)) => Some(n),
        _ => None,
    }
}

pub proof fn lemma_member_index_range(o: Seq<(Seq<char>, JsonView)>, key: Seq<char>, k: int)
    ensures
        member_index(o, key, k) matches Some(i) ==> 0 <= k <= i < o.len() && o[i].0 == key,
    decreases o.len() - k,
{
    if 0 <= k < o.len() && o[k].0 != key {
        lemma_member_index_range(o, key, k + 1);
    }
}

/// Finds the first member named `key`.
pub fn find_member(o: &Vec<(String, JsonValue)>, key: &str) -> (i: Option<usize>)
    ensures
        match i {
            Some(i) => member_index(members_view(o@), key@, 0) == Some(i as int) && i < o@.len(),
            None => member_index(members_view(o@), key@, 0) is None,
        },
{
    let ghost mv = members_view(o@);
    let mut k: usize = 0;
    while k < o.len()
        invariant
            k <= o@.len(),
            mv == members_view(o@),
            member_index(mv, key@, k as int) == member_index(mv, key@, 0),
        decreases o.len() - k,
    {
        assert(mv[k as int].0 == o@[k as int].0@);
        if str_eq(o[k].0.as_str(), key) {
            return Some(k);
        }
        k += 1;
    }
    None
}

/// The member named `key` of an object's members.
pub fn member_of<'a>(o: &'a Vec<(String, JsonValue)>, key: &str) -> (r: Option<&'a JsonValue>)
    ensures
        match r {
            Some(x) => member(members_view(o@), key@) == Some(x.deep()),
            None => member(members_view(o@), key@) is None,
        },
{
    match find_member(o, key) {
        Some(i) => Some(&o[i].1),
        None => None,
    }
}

/// The member named `key` of an object value.
pub fn get_member<'a>(v: &'a JsonValue, key: &str) -> (r: Option<&'a JsonValue>)
    ensures
        match r {
            Some(x) => get(v.deep(), key@) == Some(x.deep()),
            None => get(v.deep(), key@) is None,
        },
{
    match v {
        JsonValue::Object(o) => {
            proof {
                lemma_object_deep(*o);
            }
            match find_member(o, key) {
                Some(i) => Some(&o[i].1),
                None => None,
            }
        },
        _ => None,
    }
}

pub fn value_as_u64(v: &JsonValue) -> (r: Option<u64>)
    ensures
        r == as_u64(v.deep()),
{
    match v {
        JsonValue::Number(JsonNumber::PosInt(n)) => Some(*n),
        _ => None,
    }
}

pub fn value_as_i64(v: &JsonValue) -> (r: Option<i64>)
    ensures
        r == as_i64(v.deep()),
{
    match v {
        JsonValue::Number(JsonNumber::PosInt(n)) => if *n <= i64::MAX as u64 {
            Some(*n as i64)
        } else {
            None
        },
        JsonValue::Number(JsonNumber::NegInt(n)) => Some(*n),
        _ => None,
    }
}

// ---------------------------------------------------------------------------------------
// Unsigned values: integers and hexadecimal strings
// ---------------------------------------------------------------------------------------

pub open spec fn hex_value_of(c: char) -> Option<nat> {
    if '0' <= c <= '9' {
        Some(((c as nat) - ('0' as nat)) as nat)
    } else if 'a' <= c <= 'f' {
        Some(((c as nat) - ('a' as nat) + 10) as nat)
    } else if 'A' <= c <= 'F' {
        Some(((c as nat) - ('A' as nat) + 10) as nat)
    } else {
        None
    }
}

/// The number a run of hexadecimal digits spells, if every character is one.
pub open spec fn hex_digits_value(d: Seq<char>) -> Option<nat>
    decreases d.len(),
{
    if d.len() == 0 {
        Some(0)
    } else {
        match (hex_digits_value(d.drop_last()), hex_value_of(d.last())) {
            (Some(p), Some(x)) => Some(p * 16 + x),
            _ => None,
        }
    }
}

/// A hash or SOID written as text: `0x` (or `0X`) and one to sixteen hexadecimal digits.
pub open spec fn parse_hash_text(t: Seq<char>) -> Option<u64> {
    if t.len() >= 3 && t.len() <= 18 && t[0] == '0' && (t[1] == 'x' || t[1] == 'X') {
        match hex_digits_value(t.skip(2)) {
            Some(v) => if v <= u64::MAX {
                Some(v as u64)
            } else {
                None
            },
            None => None,
        }
    } else {
        None
    }
}

/// An unsigned value as the settings write it: a non-negative integer, or a hash string.
pub open spec fn unsigned_value(v: JsonView) -> Option<u64> {
    match v {
        JsonView::Number(NumberView::PosInt(n)) => Some(n),
        JsonView::Str(s) => parse_hash_text(s),
        _ => None,
    }
}

/// Sixteen to the power `n`.
pub open spec fn pow16(n: nat) -> nat
    decreases n,
{
    if n == 0 {
        1
    } else {
        16 * pow16((n - 1) as nat)
    }
}

proof fn lemma_hex_bound(d: Seq<char>)
    ensures
        hex_digits_value(d) matches Some(v) ==> v < pow16(d.len()),
    decreases d.len(),
{
    if d.len() > 0 {
        lemma_hex_bound(d.drop_last());
        if let Some(v) = hex_digits_value(d) {
            let p = hex_digits_value(d.drop_last())->0;
            let x = hex_value_of(d.last())->0;
            let b = pow16((d.len() - 1) as nat);
            assert(p * 16 + x < b * 16) by (nonlinear_arith)
                requires
                    p < b,
                    x < 16,
            ;
        }
    }
}

proof fn lemma_pow16_monotonic(a: nat, b: nat)
    requires
        a <= b,
    ensures
        pow16(a) <= pow16(b),
    decreases b,
{
    if a < b {
        lemma_pow16_monotonic(a, (b - 1) as nat);
    }
}

fn hex_value_exec(c: char) -> (r: Option<u64>)
    ensures
        match hex_value_of(c) {
            Some(x) => r == Some(x as u64),
            None => r is None,
        },
{
    if '0' <= c && c <= '9' {
        Some((c as u32 - '0' as u32) as u64)
    } else if 'a' <= c && c <= 'f' {
        Some((c as u32 - 'a' as u32 + 10) as u64)
    } else if 'A' <= c && c <= 'F' {
        Some((c as u32 - 'A' as u32 + 10) as u64)
    } else {
        None
    }
}

/// Reads a hash or SOID written as `0x` and hexadecimal digits.
pub fn parse_hash(text: &str) -> (r: Option<u64>)
    ensures
        r == parse_hash_text(text@),
{
    let t = chars_of(text);
    if !(t.len() >= 3 && t.len() <= 18 && t[0] == '0' && (t[1] == 'x' || t[1] == 'X')) {
        return None;
    }
    let ghost d = t@.skip(2);
    let mut value: u64 = 0;
    let mut i: usize = 2;
    assert(d.take(0) =~= Seq::<char>::empty());
    while i < t.len()
        invariant
            2 <= i <= t@.len() <= 18,
            t@ == text@,
            t@[0] == '0' && (t@[1] == 'x' || t@[1] == 'X'),
            d == t@.skip(2),
            hex_digits_value(d.take(i - 2)) == Some(value as nat),
        decreases t.len() - i,
    {
        assert(d.take(i - 1).drop_last() =~= d.take(i - 2));
        assert(d.take(i - 1).last() == t@[i as int]);
        let x = match hex_value_exec(t[i]) {
            Some(x) => x,
            None => {
                proof {
                    lemma_hex_prefix_fails(d, i - 1);
                }
                return None;
            },
        };
        proof {
            lemma_hex_bound(d.take(i - 2));
            lemma_pow16_monotonic((i - 2) as nat, 15);
            reveal_with_fuel(pow16, 16);
            assert(pow16(15) == 0x1000_0000_0000_0000);
        }
        value = value * 16 + x;
        i += 1;
    }
    assert(d.take(d.len() as int) =~= d);
    Some(value)
}

/// A character that is not a hex digit makes every longer run fail too.
proof fn lemma_hex_prefix_fails(d: Seq<char>, n: int)
    requires
        0 < n <= d.len(),
        hex_digits_value(d.take(n)) is None,
    ensures
        hex_digits_value(d) is None,
    decreases d.len() - n,
{
    if n < d.len() {
        assert(d.take(n + 1).drop_last() =~= d.take(n));
        lemma_hex_prefix_fails(d, n + 1);
    } else {
        assert(d.take(n) =~= d);
    }
}

/// Reads an unsigned value: a non-negative integer, or a hash string.
pub fn parse_unsigned_value(v: &JsonValue) -> (r: Option<u64>)
    ensures
        r == unsigned_value(v.deep()),
{
    match v {
        JsonValue::Number(JsonNumber::PosInt(n)) => Some(*n),
        JsonValue::String(s) => parse_hash(s.as_str()),
        _ => None,
    }
}

// ---------------------------------------------------------------------------------------
// Updates
// ---------------------------------------------------------------------------------------

/// `a` sorts before `b`, comparing characters one by one as `String`'s order does.
pub open spec fn key_less(a: Seq<char>, b: Seq<char>) -> bool
    decreases a.len(),
{
    if a.len() == 0 {
        b.len() > 0
    } else if b.len() == 0 {
        false
    } else if a[0] != b[0] {
        (a[0] as u32) < (b[0] as u32)
    } else {
        key_less(a.drop_first(), b.drop_first())
    }
}

/// Where a new member named `key` goes: before the first member (from `k` on) whose name
/// sorts after it, so that members kept in name order stay in name order.
pub open spec fn insert_position(o: Seq<(Seq<char>, JsonView)>, key: Seq<char>, k: int) -> int
    decreases o.len() - k,
{
    if k < 0 || k >= o.len() {
        o.len() as int
    } else if key_less(key, o[k].0) {
        k
    } else {
        insert_position(o, key, k + 1)
    }
}

/// `o` with member `key` set to `v`: replaced where it is, or inserted in name order.
pub open spec fn set_member(o: Seq<(Seq<char>, JsonView)>, key: Seq<char>, v: JsonView) -> Seq<(Seq<char>, JsonView)> {
    match member_index(o, key, 0) {
        Some(i) => o.update(i, (key, v)),
        None => o.insert(insert_position(o, key, 0), (key, v)),
    }
}

proof fn lemma_insert_position_range(o: Seq<(Seq<char>, JsonView)>, key: Seq<char>, k: int)
    requires
        0 <= k <= o.len(),
    ensures
        k <= insert_position(o, key, k) <= o.len(),
    decreases o.len() - k,
{
    if k < o.len() && !key_less(key, o[k].0) {
        lemma_insert_position_range(o, key, k + 1);
    }
}

pub(crate) fn key_less_exec(a: &str, b: &str) -> (r: bool)
    ensures
        r == key_less(a@, b@),
{
    let x = chars_of(a);
    let y = chars_of(b);
    let mut i: usize = 0;
    assert(x@.skip(0) =~= x@);
    assert(y@.skip(0) =~= y@);
    while i < x.len() && i < y.len() && x[i] == y[i]
        invariant
            i <= x@.len(),
            i <= y@.len(),
            x@ == a@,
            y@ == b@,
            key_less(x@.skip(i as int), y@.skip(i as int)) == key_less(a@, b@),
        decreases x.len() - i,
    {
        assert(x@.skip(i as int).drop_first() =~= x@.skip(i + 1));
        assert(y@.skip(i as int).drop_first() =~= y@.skip(i + 1));
        i += 1;
    }
    if i >= x.len() {
        i < y.len()
    } else if i >= y.len() {
        false
    } else {
        (x[i] as u32) < (y[i] as u32)
    }
}

/// Sets member `key` of an object's members to `v`.
pub fn set_member_exec(o: &mut Vec<(String, JsonValue)>, key: &str, v: JsonValue)
    ensures
        members_view(final(o)@) == set_member(members_view(old(o)@), key@, v.deep()),
        members_sorted(members_view(old(o)@)) ==> members_sorted(members_view(final(o)@)),
{
    proof {
        if members_sorted(members_view(o@)) {
            law_set_member_keeps_names_sorted(members_view(o@), key@, v.deep());
        }
    }
    let k = crate::text::owned(key);
    match find_member(o, key) {
        Some(i) => {
            o.set(i, (k, v));
            assert(members_view(o@) =~= members_view(old(o)@).update(i as int, (key@, v.deep())));
        },
        None => {
            let ghost mv = members_view(o@);
            let mut p: usize = 0;
            while p < o.len() && !key_less_exec(key, o[p].0.as_str())
                invariant
                    p <= o@.len(),
                    mv == members_view(o@),
                    insert_position(mv, key@, p as int) == insert_position(mv, key@, 0),
                decreases o.len() - p,
            {
                p += 1;
            }
            o.insert(p, (k, v));
            assert(members_view(o@) =~= members_view(old(o)@).insert(p as int, (key@, v.deep())));
        },
    }
}

/// `o` without its member named `key`, if it has one.
pub open spec fn remove_member(o: Seq<(Seq<char>, JsonView)>, key: Seq<char>) -> Seq<(Seq<char>, JsonView)> {
    match member_index(o, key, 0) {
        Some(i) => o.remove(i),
        None => o,
    }
}

/// The members' names are in strictly increasing order, as in serde_json's map: each name
/// occurs once and the names come sorted.
pub open spec fn members_sorted(o: Seq<(Seq<char>, JsonView)>) -> bool {
    forall|i: int, j: int| 0 <= i < j < o.len() ==> key_less(#[trigger] o[i].0, #[trigger] o[j].0)
}

pub proof fn lemma_key_less_irreflexive(a: Seq<char>)
    ensures
        !key_less(a, a),
    decreases a.len(),
{
    if a.len() > 0 {
        lemma_key_less_irreflexive(a.drop_first());
    }
}

pub proof fn lemma_key_less_transitive(a: Seq<char>, b: Seq<char>, c: Seq<char>)
    requires
        key_less(a, b),
        key_less(b, c),
    ensures
        key_less(a, c),
    decreases a.len(),
{
    if a.len() > 0 && b.len() > 0 && c.len() > 0 && a[0] == b[0] && b[0] == c[0] {
        lemma_key_less_transitive(a.drop_first(), b.drop_first(), c.drop_first());
    }
}

pub proof fn lemma_key_less_total(a: Seq<char>, b: Seq<char>)
    requires
        a != b,
    ensures
        key_less(a, b) || key_less(b, a),
    decreases a.len(),
{
    if a.len() == 0 && b.len() == 0 {
        assert(a =~= b);
    } else if a.len() > 0 && b.len() > 0 && a[0] == b[0] {
        if a.drop_first() == b.drop_first() {
            assert(a =~= seq![a[0]] + a.drop_first());
            assert(b =~= seq![b[0]] + b.drop_first());
        }
        lemma_key_less_total(a.drop_first(), b.drop_first());
    } else if a.len() > 0 && b.len() > 0 {
        vstd::utf8::char_u32_cast(a[0], a[0] as u32);
        vstd::utf8::char_u32_cast(b[0], b[0] as u32);
    }
}

proof fn lemma_insert_position_facts(o: Seq<(Seq<char>, JsonView)>, key: Seq<char>, k: int)
    requires
        0 <= k <= o.len(),
    ensures
        k <= insert_position(o, key, k) <= o.len(),
        forall|j: int| k <= j < insert_position(o, key, k) ==> !key_less(key, #[trigger] o[j].0),
        insert_position(o, key, k) < o.len() ==> key_less(key, o[insert_position(o, key, k)].0),
    decreases o.len() - k,
{
    if k < o.len() && !key_less(key, o[k].0) {
        lemma_insert_position_facts(o, key, k + 1);
    }
}

proof fn lemma_member_index_none(o: Seq<(Seq<char>, JsonView)>, key: Seq<char>, k: int)
    requires
        0 <= k <= o.len(),
        member_index(o, key, k) is None,
    ensures
        forall|j: int| k <= j < o.len() ==> #[trigger] o[j].0 != key,
    decreases o.len() - k,
{
    if k < o.len() {
        lemma_member_index_none(o, key, k + 1);
    }
}

proof fn lemma_member_index_some(o: Seq<(Seq<char>, JsonView)>, key: Seq<char>, k: int)
    requires
        0 <= k,
        member_index(o, key, k) is Some,
    ensures
        k <= member_index(o, key, k)->0 < o.len(),
        o[member_index(o, key, k)->0].0 == key,
    decreases o.len() - k,
{
    if k < o.len() && o[k].0 != key {
        lemma_member_index_some(o, key, k + 1);
    }
}

/// Setting a member keeps the names sorted: a new name goes where it sorts.
pub proof fn law_set_member_keeps_names_sorted(o: Seq<(Seq<char>, JsonView)>, key: Seq<char>, v: JsonView)
    requires
        members_sorted(o),
    ensures
        members_sorted(set_member(o, key, v)),
{
    match member_index(o, key, 0) {
        Some(i) => {
            lemma_member_index_some(o, key, 0);
            let n = o.update(i, (key, v));
            assert forall|a: int, b: int| 0 <= a < b < n.len() implies key_less(#[trigger] n[a].0, #[trigger] n[b].0) by {
                assert(n[a].0 == o[a].0 && n[b].0 == o[b].0);
                assert(key_less(o[a].0, o[b].0));
            }
        },
        None => {
            lemma_member_index_none(o, key, 0);
            lemma_insert_position_facts(o, key, 0);
            let p = insert_position(o, key, 0);
            let n = o.insert(p, (key, v));
            assert forall|a: int, b: int| 0 <= a < b < n.len() implies key_less(#[trigger] n[a].0, #[trigger] n[b].0) by {
                if b < p {
                    assert(key_less(o[a].0, o[b].0));
                } else if a > p {
                    assert(n[a] == o[a - 1] && n[b] == o[b - 1]);
                    assert(key_less(o[a - 1].0, o[b - 1].0));
                } else if a < p && b == p {
                    assert(o[a].0 != key && !key_less(key, o[a].0));
                    lemma_key_less_total(o[a].0, key);
                } else if a < p {
                    assert(n[b] == o[b - 1]);
                    assert(key_less(o[a].0, o[b - 1].0));
                } else {
                    assert(n[a].0 == key && n[b] == o[b - 1]);
                    if b - 1 > p {
                        assert(key_less(o[p].0, o[b - 1].0));
                        lemma_key_less_transitive(key, o[p].0, o[b - 1].0);
                    }
                }
            }
        },
    }
}

/// Removing a member keeps the names sorted.
pub proof fn law_remove_member_keeps_names_sorted(o: Seq<(Seq<char>, JsonView)>, key: Seq<char>)
    requires
        members_sorted(o),
    ensures
        members_sorted(remove_member(o, key)),
{
    if let Some(i) = member_index(o, key, 0) {
        lemma_member_index_some(o, key, 0);
        let n = o.remove(i);
        assert forall|a: int, b: int| 0 <= a < b < n.len() implies key_less(#[trigger] n[a].0, #[trigger] n[b].0) by {
            let a0 = if a < i { a } else { a + 1 };
            let b0 = if b < i { b } else { b + 1 };
            assert(n[a] == o[a0] && n[b] == o[b0]);
            assert(key_less(o[a0].0, o[b0].0));
        }
    }
}

/// Removes the member named `key` of an object's members.
pub fn remove_member_exec(o: &mut Vec<(String, JsonValue)>, key: &str)
    ensures
        members_view(final(o)@) == remove_member(members_view(old(o)@), key@),
        members_sorted(members_view(old(o)@)) ==> members_sorted(members_view(final(o)@)),
{
    proof {
        if members_sorted(members_view(o@)) {
            law_remove_member_keeps_names_sorted(members_view(o@), key@);
        }
    }
    match find_member(o, key) {
        Some(i) => {
            let _ = o.remove(i);
            assert(members_view(o@) =~= members_view(old(o)@).remove(i as int));
        },
        None => {},
    }
}

/// A copy of an object's members.
pub fn copy_members(o: &Vec<(String, JsonValue)>) -> (r: Vec<(String, JsonValue)>)
    ensures
        members_view(r@) == members_view(o@),
{
    let mut out: Vec<(String, JsonValue)> = Vec::new();
    let mut i: usize = 0;
    while i < o.len()
        invariant
            i <= o@.len(),
            out@.len() == i,
            forall|k: int| 0 <= k < i ==> (#[trigger] out@[k]).0@ == o@[k].0@ && out@[k].1.deep() == o@[k].1.deep(),
        decreases o.len() - i,
    {
        out.push((o[i].0.clone(), o[i].1.deep_copy()));
        i += 1;
    }
    assert(members_view(out@) =~= members_view(o@));
    out
}

/// A copy of an array's elements.
pub fn copy_elements(a: &Vec<JsonValue>) -> (r: Vec<JsonValue>)
    ensures
        elems_view(r@) == elems_view(a@),
{
    let mut out: Vec<JsonValue> = Vec::new();
    let mut i: usize = 0;
    while i < a.len()
        invariant
            i <= a@.len(),
            out@.len() == i,
            forall|k: int| 0 <= k < i ==> (#[trigger] out@[k]).deep() == a@[k].deep(),
        decreases a.len() - i,
    {
        out.push(a[i].deep_copy());
        i += 1;
    }
    assert(elems_view(out@) =~= elems_view(a@));
    out
}

fn numbers_equal(a: &JsonNumber, b: &JsonNumber) -> (r: bool)
    ensures
        r == (a.number_view() == b.number_view()),
{
    match (a, b) {
        (JsonNumber::PosInt(x), JsonNumber::PosInt(y)) => *x == *y,
        (JsonNumber::NegInt(x), JsonNumber::NegInt(y)) => *x == *y,
        (JsonNumber::Float(x), JsonNumber::Float(y)) => str_eq(x.text.as_str(), y.text.as_str())
            && x.finite_as_f32 == y.finite_as_f32,
        _ => false,
    }
}

/// Whether two values are the same JSON value: same kind, and equal numbers, strings,
/// elements or members (in order).
#[verifier::loop_isolation(false)]
pub fn values_equal(a: &JsonValue, b: &JsonValue) -> (r: bool)
    ensures
        r == (a.deep() == b.deep()),
    decreases a,
{
    match (a, b) {
        (JsonValue::Null, JsonValue::Null) => true,
        (JsonValue::Bool(x), JsonValue::Bool(y)) => *x == *y,
        (JsonValue::Number(x), JsonValue::Number(y)) => numbers_equal(x, y),
        (JsonValue::String(x), JsonValue::String(y)) => str_eq(x.as_str(), y.as_str()),
        (JsonValue::Array(x), JsonValue::Array(y)) => {
            proof {
                lemma_array_deep(*x);
                lemma_array_deep(*y);
            }
            if x.len() != y.len() {
                assert(elems_view(x@).len() != elems_view(y@).len());
                return false;
            }
            let mut i: usize = 0;
            while i < x.len()
                invariant
                    i <= x@.len(),
                    x@.len() == y@.len(),
                    forall|k: int| 0 <= k < i ==> (#[trigger] x@[k]).deep() == y@[k].deep(),
                    a.deep() == JsonView::Array(elems_view(x@)),
                    b.deep() == JsonView::Array(elems_view(y@)),
                decreases x.len() - i,
            {
                if !values_equal(&x[i], &y[i]) {
                    assert(elems_view(x@)[i as int] != elems_view(y@)[i as int]);
                    return false;
                }
                i += 1;
            }
            assert(elems_view(x@) =~= elems_view(y@));
            true
        },
        (JsonValue::Object(x), JsonValue::Object(y)) => {
            proof {
                lemma_object_deep(*x);
                lemma_object_deep(*y);
            }
            if x.len() != y.len() {
                assert(members_view(x@).len() != members_view(y@).len());
                return false;
            }
            let mut i: usize = 0;
            while i < x.len()
                invariant
                    i <= x@.len(),
                    x@.len() == y@.len(),
                    forall|k: int|
                        0 <= k < i ==> (#[trigger] x@[k]).0@ == y@[k].0@ && x@[k].1.deep() == y@[k].1.deep(),
                    a.deep() == JsonView::Object(members_view(x@)),
                    b.deep() == JsonView::Object(members_view(y@)),
                decreases x.len() - i,
            {
                if !str_eq(x[i].0.as_str(), y[i].0.as_str()) || !values_equal(&x[i].1, &y[i].1) {
                    assert(members_view(x@)[i as int] != members_view(y@)[i as int]);
                    return false;
                }
                i += 1;
            }
            assert(members_view(x@) =~= members_view(y@));
            true
        },
        _ => false,
    }
}

// ---------------------------------------------------------------------------------------
// Hex text reads back
// ---------------------------------------------------------------------------------------

proof fn lemma_hex_value_of_digit(d: nat)
    requires
        d < 16,
    ensures
        hex_value_of(crate::text::digit_char(d)) == Some(d),
{
}

/// The last `n` hex digits of `v` spell `v` modulo `16^n`.
pub proof fn lemma_hex_digits_value(v: nat, n: nat)
    ensures
        hex_digits_value(crate::text::hex_digits(v, n)) == Some(v % pow16(n)),
    decreases n,
{
    if n > 0 {
        let d = crate::text::hex_digits(v, n);
        let m = (n - 1) as nat;
        lemma_hex_digits_value(v / 16, m);
        assert(d.drop_last() =~= crate::text::hex_digits(v / 16, m));
        lemma_hex_value_of_digit(v % 16);
        let p = pow16(m);
        assert(p > 0) by {
            lemma_pow16_positive(m);
        }
        vstd::arithmetic::div_mod::lemma_mod_breakdown(v as int, 16, p as int);
        assert(((v / 16) % p) * 16 + v % 16 == v % pow16(n)) by (nonlinear_arith)
            requires
                pow16(n) == 16 * p,
                v % (16 * p) == 16 * ((v / 16) % p) + v % 16,
        ;
    }
}

proof fn lemma_pow16_positive(n: nat)
    ensures
        pow16(n) > 0,
    decreases n,
{
    if n > 0 {
        lemma_pow16_positive((n - 1) as nat);
    }
}

/// `0x` and the last `n` (one to sixteen) hex digits of a value below `16^n` read back as
/// that value.
pub proof fn lemma_hex_text_reads_back(v: u64, n: nat)
    requires
        1 <= n <= 16,
        v < pow16(n),
    ensures
        parse_hash_text(seq!['0', 'x'] + crate::text::hex_digits(v as nat, n)) == Some(v),
{
    let t = seq!['0', 'x'] + crate::text::hex_digits(v as nat, n);
    lemma_hex_digits_len(v as nat, n);
    assert(t.skip(2) =~= crate::text::hex_digits(v as nat, n));
    lemma_hex_digits_value(v as nat, n);
    vstd::arithmetic::div_mod::lemma_small_mod(v as nat, pow16(n));
}

pub proof fn lemma_hex_digits_len(v: nat, n: nat)
    ensures
        crate::text::hex_digits(v, n).len() == n,
    decreases n,
{
    if n > 0 {
        lemma_hex_digits_len(v / 16, (n - 1) as nat);
    }
}

// ---------------------------------------------------------------------------------------
// Lookups after updates
// ---------------------------------------------------------------------------------------

/// What `member_index` finds: the first member (from `k` on) with the name, if any.
pub proof fn lemma_member_index_first(o: Seq<(Seq<char>, JsonView)>, key: Seq<char>, k: int)
    requires
        0 <= k <= o.len(),
    ensures
        match member_index(o, key, k) {
            Some(i) => k <= i < o.len() && o[i].0 == key && forall|j: int| k <= j < i ==> o[j].0 != key,
            None => forall|j: int| k <= j < o.len() ==> o[j].0 != key,
        },
    decreases o.len() - k,
{
    if k < o.len() && o[k].0 != key {
        lemma_member_index_first(o, key, k + 1);
    }
}

/// The member with a name is the first member that has it.
pub proof fn lemma_member_of_first(o: Seq<(Seq<char>, JsonView)>, key: Seq<char>, i: int)
    requires
        0 <= i < o.len(),
        o[i].0 == key,
        forall|j: int| 0 <= j < i ==> o[j].0 != key,
    ensures
        member(o, key) == Some(o[i].1),
{
    lemma_member_index_first(o, key, 0);
    match member_index(o, key, 0) {
        Some(x) => {
            if x < i {
                assert(o[x].0 != key);
            } else if x > i {
                assert(o[i].0 != key);
            }
        },
        None => {
            assert(o[i].0 != key);
        },
    }
}

/// A name no member has is not found.
pub proof fn lemma_member_absent(o: Seq<(Seq<char>, JsonView)>, key: Seq<char>)
    requires
        forall|j: int| 0 <= j < o.len() ==> o[j].0 != key,
    ensures
        member(o, key) is None,
{
    lemma_member_index_first(o, key, 0);
}

/// After setting member `key`, looking it up gives the new value and other names give
/// what they gave before.
pub proof fn lemma_member_after_set(o: Seq<(Seq<char>, JsonView)>, key: Seq<char>, v: JsonView, other: Seq<char>)
    ensures
        member(set_member(o, key, v), key) == Some(v),
        other != key ==> member(set_member(o, key, v), other) == member(o, other),
{
    let n = set_member(o, key, v);
    lemma_member_index_first(o, key, 0);
    lemma_member_index_first(o, other, 0);
    match member_index(o, key, 0) {
        Some(i) => {
            assert(n == o.update(i, (key, v)));
            lemma_member_of_first(n, key, i);
            if other != key {
                match member_index(o, other, 0) {
                    Some(x) => {
                        lemma_member_of_first(n, other, x);
                    },
                    None => {
                        assert forall|j: int| 0 <= j < n.len() implies n[j].0 != other by {
                            if j != i {
                                assert(n[j] == o[j]);
                            }
                        }
                        lemma_member_absent(n, other);
                    },
                }
            }
        },
        None => {
            let p = insert_position(o, key, 0);
            lemma_insert_position_range(o, key, 0);
            assert(n == o.insert(p, (key, v)));
            assert forall|j: int| 0 <= j < p implies n[j].0 != key by {
                assert(n[j] == o[j]);
            }
            lemma_member_of_first(n, key, p);
            if other != key {
                match member_index(o, other, 0) {
                    Some(x) => {
                        let y = if x < p {
                            x
                        } else {
                            x + 1
                        };
                        assert forall|j: int| 0 <= j < y implies n[j].0 != other by {
                            if j < p {
                                assert(n[j] == o[j]);
                            } else if j > p {
                                assert(n[j] == o[j - 1]);
                            }
                        }
                        assert(n[y] == o[x]);
                        lemma_member_of_first(n, other, y);
                    },
                    None => {
                        assert forall|j: int| 0 <= j < n.len() implies n[j].0 != other by {
                            if j < p {
                                assert(n[j] == o[j]);
                            } else if j > p {
                                assert(n[j] == o[j - 1]);
                            }
                        }
                        lemma_member_absent(n, other);
                    },
                }
            }
        },
    }
}

/// Objects with the same names at the same places find names at the same places.
pub proof fn lemma_same_keys_index(o1: Seq<(Seq<char>, JsonView)>, o2: Seq<(Seq<char>, JsonView)>, key: Seq<char>, k: int)
    requires
        o1.len() == o2.len(),
        forall|j: int| 0 <= j < o1.len() ==> o1[j].0 == o2[j].0,
    ensures
        member_index(o1, key, k) == member_index(o2, key, k),
    decreases o1.len() - k,
{
    if 0 <= k < o1.len() && o1[k].0 != key {
        lemma_same_keys_index(o1, o2, key, k + 1);
    }
}

/// Setting a member that exists replaces it where it is.
pub proof fn lemma_set_existing(o: Seq<(Seq<char>, JsonView)>, key: Seq<char>, v: JsonView)
    requires
        member(o, key) is Some,
    ensures
        member_index(o, key, 0) matches Some(i) && 0 <= i < o.len() && o[i].0 == key && set_member(o, key, v) == o.update(
            i,
            (key, v),
        ),
{
    lemma_member_index_range(o, key, 0);
}

/// Setting a member twice keeps the second value.
pub proof fn lemma_set_twice(o: Seq<(Seq<char>, JsonView)>, key: Seq<char>, x: JsonView, y: JsonView)
    requires
        member(o, key) is Some,
    ensures
        set_member(set_member(o, key, x), key, y) == set_member(o, key, y),
{
    lemma_set_existing(o, key, x);
    let i = member_index(o, key, 0)->0;
    let o1 = o.update(i, (key, x));
    lemma_same_keys_index(o, o1, key, 0);
    assert(o1.update(i, (key, y)) =~= o.update(i, (key, y)));
}

/// Setting a member to the value it has changes nothing.
pub proof fn lemma_set_same(o: Seq<(Seq<char>, JsonView)>, key: Seq<char>)
    requires
        member(o, key) is Some,
    ensures
        set_member(o, key, member(o, key)->0) == o,
{
    lemma_set_existing(o, key, member(o, key)->0);
    let i = member_index(o, key, 0)->0;
    assert(o.update(i, (key, o[i].1)) =~= o);
}

/// Setting two different existing members can be done in either order.
pub proof fn lemma_set_commutes(o: Seq<(Seq<char>, JsonView)>, a: Seq<char>, x: JsonView, b: Seq<char>, y: JsonView)
    requires
        member(o, a) is Some,
        member(o, b) is Some,
        a != b,
    ensures
        set_member(set_member(o, a, x), b, y) == set_member(set_member(o, b, y), a, x),
        member(set_member(o, a, x), b) is Some,
{
    lemma_set_existing(o, a, x);
    lemma_set_existing(o, b, y);
    let i = member_index(o, a, 0)->0;
    let j = member_index(o, b, 0)->0;
    let oa = o.update(i, (a, x));
    let ob = o.update(j, (b, y));
    lemma_same_keys_index(o, oa, b, 0);
    lemma_same_keys_index(o, ob, a, 0);
    assert(oa.update(j, (b, y)) =~= ob.update(i, (a, x)));
    lemma_member_after_set(o, a, x, b);
}

} // verus!
