//! The definitions a browse picker offers: grouped by inventory bucket, buckets in the
//! page's order, definitions sorted within their bucket, and the equipment picker's search.
use vstd::prelude::*;
use crate::equipment_edit::ItemDefinition;
use crate::inventory::{format_hash, hash_text};
use crate::inventory_page::{
    character_bucket_rank, profile_bucket_rank, spec_character_bucket_rank, spec_profile_bucket_rank,
    BucketKey, InventoryMetadata, InventoryScope,
};
use crate::item_editor::{trim_chars, trimmed, DefinitionChoice};
use crate::json::{key_less, key_less_exec, lemma_key_less_irreflexive, lemma_key_less_transitive};
use crate::text::{chars_of, decimal, owned, push_decimal, push_str, str_eq, string_from_chars};

verus! {

// ---------------------------------------------------------------------------------------
// Text
// ---------------------------------------------------------------------------------------

/// The lowercase form of a text, as `str::to_lowercase` gives it.
pub uninterp spec fn lowercased(text: Seq<char>) -> Seq<char>;

/// `str::to_lowercase`: each character replaced by its Unicode lowercase mapping. The
/// contract names the result and claims nothing else of it.
#[verifier::external_body]
pub(crate) fn lowercase(text: &str) -> (r: String)
    ensures
        r@ == lowercased(text@),
{
    text.to_lowercase()
}

/// `needle` occurs in `hay`.
pub open spec fn has_text(hay: Seq<char>, needle: Seq<char>) -> bool {
    exists|i: int| 0 <= i && i + needle.len() <= hay.len() && #[trigger] hay.subrange(i, i + needle.len()) == needle
}

fn matches_at(h: &Vec<char>, n: &Vec<char>, i: usize) -> (r: bool)
    requires
        i + n@.len() <= h@.len(),
    ensures
        r == (h@.subrange(i as int, i + n@.len()) == n@),
{
    let _bound = h.len();
    let mut k: usize = 0;
    while k < n.len()
        invariant
            k <= n@.len(),
            i + n@.len() <= h@.len(),
            h@.len() <= usize::MAX,
            forall|j: int| 0 <= j < k ==> h@[i + j] == n@[j],
        decreases n.len() - k,
    {
        if h[i + k] != n[k] {
            assert(h@.subrange(i as int, i + n@.len())[k as int] != n@[k as int]);
            return false;
        }
        k += 1;
    }
    assert(h@.subrange(i as int, i + n@.len()) =~= n@);
    true
}

/// Whether `needle` occurs in `hay`.
pub fn contains_text(hay: &str, needle: &str) -> (r: bool)
    ensures
        r == has_text(hay@, needle@),
{
    let h = chars_of(hay);
    let n = chars_of(needle);
    if n.len() > h.len() {
        return false;
    }
    let limit = h.len() - n.len();
    let mut i: usize = 0;
    loop
        invariant
            n@.len() <= h@.len(),
            h@.len() <= usize::MAX,
            limit == h@.len() - n@.len(),
            h@ == hay@,
            n@ == needle@,
            i <= limit,
            forall|j: int| 0 <= j < i ==> #[trigger] h@.subrange(j, j + n@.len()) != n@,
        decreases limit - i,
    {
        if matches_at(&h, &n, i) {
            return true;
        }
        if i == limit {
            return false;
        }
        i += 1;
    }
}

/// Whether a text holds nothing but whitespace.
fn blank(text: &str) -> (r: bool)
    ensures
        r == (trimmed(text@).len() == 0),
{
    let chars = chars_of(text);
    trim_chars(chars.as_slice()).len() == 0
}

// ---------------------------------------------------------------------------------------
// Stable sorting
// ---------------------------------------------------------------------------------------

/// A sort key: two numbers, a text and a number, compared in that order.
pub struct SortKey {
    pub major: u64,
    pub minor: u64,
    pub text: String,
    pub last: u64,
}

pub type KeyView = (u64, u64, Seq<char>, u64);

impl SortKey {
    pub open spec fn key_view(&self) -> KeyView {
        (self.major, self.minor, self.text@, self.last)
    }
}

/// `a` sorts strictly before `b`.
pub open spec fn key_before(a: KeyView, b: KeyView) -> bool {
    a.0 < b.0 || (a.0 == b.0 && (a.1 < b.1 || (a.1 == b.1 && (key_less(a.2, b.2) || (a.2 == b.2 && a.3 < b.3)))))
}

fn key_before_exec(a: &SortKey, b: &SortKey) -> (r: bool)
    ensures
        r == key_before(a.key_view(), b.key_view()),
{
    if a.major != b.major {
        return a.major < b.major;
    }
    if a.minor != b.minor {
        return a.minor < b.minor;
    }
    if key_less_exec(a.text.as_str(), b.text.as_str()) {
        return true;
    }
    if !str_eq(a.text.as_str(), b.text.as_str()) {
        return false;
    }
    a.last < b.last
}

/// Where `x` goes among sorted `s` (from `k` on): before the first entry it sorts before.
pub open spec fn insert_pos(s: Seq<(KeyView, int)>, x: (KeyView, int), k: int) -> int
    decreases s.len() - k,
{
    if k < 0 || k >= s.len() {
        s.len() as int
    } else if key_before(x.0, s[k].0) {
        k
    } else {
        insert_pos(s, x, k + 1)
    }
}

/// A stable sort of keyed entries: each entry in turn goes after every entry that does not
/// sort after it.
pub open spec fn sort_pairs(s: Seq<(KeyView, int)>) -> Seq<(KeyView, int)>
    decreases s.len(),
{
    if s.len() == 0 {
        s
    } else {
        let sorted = sort_pairs(s.drop_last());
        sorted.insert(insert_pos(sorted, s.last(), 0), s.last())
    }
}

proof fn lemma_insert_pos_range(s: Seq<(KeyView, int)>, x: (KeyView, int), k: int)
    requires
        0 <= k <= s.len(),
    ensures
        k <= insert_pos(s, x, k) <= s.len(),
    decreases s.len() - k,
{
    if k < s.len() && !key_before(x.0, s[k].0) {
        lemma_insert_pos_range(s, x, k + 1);
    }
}

proof fn lemma_sort_len(s: Seq<(KeyView, int)>)
    ensures
        sort_pairs(s).len() == s.len(),
    decreases s.len(),
{
    if s.len() > 0 {
        lemma_sort_len(s.drop_last());
        lemma_insert_pos_range(sort_pairs(s.drop_last()), s.last(), 0);
    }
}

proof fn lemma_key_before_transitive(a: KeyView, b: KeyView, c: KeyView)
    requires
        key_before(a, b),
        key_before(b, c),
    ensures
        key_before(a, c),
{
    if key_less(a.2, b.2) && key_less(b.2, c.2) {
        lemma_key_less_transitive(a.2, b.2, c.2);
    }
}

/// Entries in order: none sorts strictly before one that comes earlier.
pub open spec fn pairs_sorted(s: Seq<(KeyView, int)>) -> bool {
    forall|a: int, b: int| 0 <= a < b < s.len() ==> !key_before(#[trigger] s[b].0, #[trigger] s[a].0)
}

proof fn lemma_insert_pos_facts(s: Seq<(KeyView, int)>, x: (KeyView, int), k: int)
    requires
        0 <= k <= s.len(),
    ensures
        forall|j: int| k <= j < insert_pos(s, x, k) ==> !key_before(x.0, #[trigger] s[j].0),
        insert_pos(s, x, k) < s.len() ==> key_before(x.0, s[insert_pos(s, x, k)].0),
    decreases s.len() - k,
{
    if k < s.len() && !key_before(x.0, s[k].0) {
        lemma_insert_pos_facts(s, x, k + 1);
    }
}

/// The stable sort keeps every entry and puts the entries in key order.
proof fn lemma_sort_pairs_sorts(s: Seq<(KeyView, int)>)
    ensures
        sort_pairs(s).to_multiset() == s.to_multiset(),
        pairs_sorted(sort_pairs(s)),
        pair_positions(sort_pairs(s)).to_multiset() == pair_positions(s).to_multiset(),
    decreases s.len(),
{
    broadcast use vstd::seq_lib::to_multiset_insert, vstd::seq_lib::to_multiset_build;

    if s.len() == 0 {
    } else {
        let prev = sort_pairs(s.drop_last());
        let x = s.last();
        lemma_sort_pairs_sorts(s.drop_last());
        lemma_sort_len(s.drop_last());
        lemma_insert_pos_range(prev, x, 0);
        lemma_insert_pos_facts(prev, x, 0);
        let p = insert_pos(prev, x, 0);
        let out = prev.insert(p, x);
        assert(s =~= s.drop_last().push(x));
        assert(pair_positions(s) =~= pair_positions(s.drop_last()).push(x.1));
        assert(pair_positions(out) =~= pair_positions(prev).insert(p, x.1));
        assert forall|a: int, b: int| 0 <= a < b < out.len() implies !key_before(#[trigger] out[b].0, #[trigger] out[a].0) by {
            if b < p {
                assert(out[a] == prev[a] && out[b] == prev[b]);
                assert(!key_before(prev[b].0, prev[a].0));
            } else if b == p {
                assert(out[a] == prev[a] && out[b] == x);
                assert(!key_before(x.0, prev[a].0));
            } else if a == p {
                assert(out[a] == x && out[b] == prev[b - 1]);
                if key_before(prev[b - 1].0, x.0) {
                    if b - 1 > p {
                        assert(!key_before(prev[b - 1].0, prev[p].0));
                    }
                    lemma_key_before_transitive(prev[b - 1].0, x.0, prev[p].0);
                    lemma_key_less_irreflexive(prev[p].0.2);
                }
            } else if a < p {
                assert(out[a] == prev[a] && out[b] == prev[b - 1]);
                assert(!key_before(prev[b - 1].0, prev[a].0));
            } else {
                assert(out[a] == prev[a - 1] && out[b] == prev[b - 1]);
                assert(!key_before(prev[b - 1].0, prev[a - 1].0));
            }
        }
    }
}

/// Sorting positions by their keys yields each position once, in key order: no position
/// comes before one whose key sorts strictly before its own.
pub proof fn law_sorted_positions_are_a_sorted_permutation(keys: Seq<KeyView>)
    ensures
        sorted_positions(keys).len() == keys.len(),
        sorted_positions(keys).to_multiset() == Seq::new(keys.len(), |i: int| i).to_multiset(),
        forall|a: int, b: int|
            0 <= a < b < keys.len() ==> 0 <= #[trigger] sorted_positions(keys)[a] < keys.len() && !key_before(
                keys[#[trigger] sorted_positions(keys)[b]],
                keys[sorted_positions(keys)[a]],
            ),
{
    broadcast use vstd::seq_lib::to_multiset_contains;

    let s = keyed(keys);
    let t = sort_pairs(s);
    lemma_sort_len(s);
    lemma_sort_pairs_sorts(s);
    assert(sorted_positions(keys) =~= pair_positions(t));
    assert(pair_positions(s) =~= Seq::new(keys.len(), |i: int| i));
    assert forall|j: int| 0 <= j < t.len() implies 0 <= (#[trigger] t[j]).1 < keys.len() && t[j].0 == keys[t[j].1] by {
        assert(t.to_multiset().count(t[j]) > 0);
        assert(s.contains(t[j]));
        let w = choose|w: int| 0 <= w < s.len() && s[w] == t[j];
    }
    assert forall|a: int, b: int| 0 <= a < b < keys.len() implies 0 <= #[trigger] sorted_positions(keys)[a] < keys.len()
        && !key_before(keys[#[trigger] sorted_positions(keys)[b]], keys[sorted_positions(keys)[a]]) by {
        assert(sorted_positions(keys)[a] == t[a].1 && sorted_positions(keys)[b] == t[b].1);
        assert(t[a].0 == keys[t[a].1] && t[b].0 == keys[t[b].1]);
    }
}

/// The keys with their positions.
pub open spec fn keyed(keys: Seq<KeyView>) -> Seq<(KeyView, int)> {
    Seq::new(keys.len(), |i: int| (keys[i], i))
}

/// The positions of `keys` in stably sorted order.
pub open spec fn sorted_positions(keys: Seq<KeyView>) -> Seq<int> {
    let s = sort_pairs(keyed(keys));
    Seq::new(s.len(), |i: int| s[i].1)
}

pub open spec fn keys_view(keys: Seq<SortKey>) -> Seq<KeyView> {
    Seq::new(keys.len(), |i: int| keys[i].key_view())
}

pub open spec fn positions_view(v: Seq<usize>) -> Seq<int> {
    Seq::new(v.len(), |i: int| v[i] as int)
}

/// The positions of `keys` in stably sorted order, as `sorted_positions` describes.
pub fn sort_positions(keys: &Vec<SortKey>) -> (order: Vec<usize>)
    ensures
        positions_view(order@) == sorted_positions(keys_view(keys@)),
        order@.len() == keys@.len(),
        forall|i: int| 0 <= i < order@.len() ==> order@[i] < keys@.len(),
        forall|a: int, b: int| 0 <= a < b < order@.len() ==> order@[a] != order@[b],
{
    let ghost all = keyed(keys_view(keys@));
    let mut out: Vec<usize> = Vec::new();
    let mut i: usize = 0;
    assert(all.take(0) =~= Seq::<(KeyView, int)>::empty());
    while i < keys.len()
        invariant
            i <= keys@.len(),
            all == keyed(keys_view(keys@)),
            forall|j: int| 0 <= j < out@.len() ==> out@[j] < i,
            forall|a: int, b: int| 0 <= a < b < out@.len() ==> out@[a] != out@[b],
            Seq::new(out@.len(), |j: int| (keys@[out@[j] as int].key_view(), out@[j] as int)) == sort_pairs(all.take(i as int)),
        decreases keys.len() - i,
    {
        let ghost before = out@;
        let ghost sorted = sort_pairs(all.take(i as int));
        let ghost x = all[i as int];
        let mut p: usize = 0;
        while p < out.len() && !key_before_exec(&keys[i], &keys[out[p]])
            invariant
                p <= out@.len(),
                out@ == before,
                i < keys@.len(),
                forall|j: int| 0 <= j < out@.len() ==> out@[j] < i,
                forall|a: int, b: int| 0 <= a < b < out@.len() ==> out@[a] != out@[b],
                sorted == Seq::new(out@.len(), |j: int| (keys@[out@[j] as int].key_view(), out@[j] as int)),
                x == (keys@[i as int].key_view(), i as int),
                insert_pos(sorted, x, p as int) == insert_pos(sorted, x, 0),
            decreases out.len() - p,
        {
            p += 1;
        }
        out.insert(p, i);
        proof {
            assert(all.take(i + 1).drop_last() =~= all.take(i as int));
            assert(all.take(i + 1).last() == x);
            lemma_insert_pos_range(sorted, x, 0);
            assert(Seq::new(out@.len(), |j: int| (keys@[out@[j] as int].key_view(), out@[j] as int)) =~= sorted.insert(
                p as int,
                x,
            ));
        }
        i += 1;
    }
    proof {
        assert(all.take(keys@.len() as int) =~= all);
        lemma_sort_len(all);
        assert(positions_view(out@) =~= sorted_positions(keys_view(keys@)));
    }
    out
}

// ---------------------------------------------------------------------------------------
// Buckets
// ---------------------------------------------------------------------------------------

/// The name of an inventory bucket.
pub open spec fn spec_bucket_label(scope: InventoryScope, id: u8) -> Seq<char> {
    match scope {
        InventoryScope::Character => match id {
            0 => "Kinetic weapons"@,
            1 => "Energy weapons"@,
            2 => "Power weapons"@,
            3 => "Helmets"@,
            4 => "Gauntlets"@,
            5 => "Chest armor"@,
            6 => "Leg armor"@,
            7 => "Class items"@,
            8 => "Ghost shells"@,
            9 => "Vehicles"@,
            10 => "Ships"@,
            16 => "Subclasses"@,
            17 => "Clan banners"@,
            27 => "Emblems"@,
            41 => "Emotes"@,
            47 => "Finishers"@,
            49 => "Seasonal artifacts"@,
            _ => "Character bucket "@ + decimal(id as nat),
        },
        InventoryScope::Profile => match id {
            13 => "Modifications"@,
            14 => "Shaders"@,
            15 => "Consumables and materials"@,
            21 => "Glimmer"@,
            22 => "Legendary Shards"@,
            23 => "Silver"@,
            24 => "Bright Dust"@,
            42 => "General profile items"@,
            _ => "Profile bucket "@ + decimal(id as nat),
        },
        InventoryScope::SmallProfile => "Small profile bucket "@ + decimal(id as nat),
        InventoryScope::Unknown => "Unknown bucket "@ + decimal(id as nat),
    }
}

fn numbered(head: &str, id: u8) -> (t: String)
    ensures
        t@ == head@ + decimal(id as nat),
{
    let mut t = owned(head);
    push_decimal(&mut t, id as u64);
    t
}

/// The name of bucket `key`.
pub fn bucket_label_of(key: BucketKey) -> (label: String)
    ensures
        label@ == spec_bucket_label(key.scope, key.native_id),
{
    let id = key.native_id;
    match key.scope {
        InventoryScope::Character => match id {
            0 => owned("Kinetic weapons"),
            1 => owned("Energy weapons"),
            2 => owned("Power weapons"),
            3 => owned("Helmets"),
            4 => owned("Gauntlets"),
            5 => owned("Chest armor"),
            6 => owned("Leg armor"),
            7 => owned("Class items"),
            8 => owned("Ghost shells"),
            9 => owned("Vehicles"),
            10 => owned("Ships"),
            16 => owned("Subclasses"),
            17 => owned("Clan banners"),
            27 => owned("Emblems"),
            41 => owned("Emotes"),
            47 => owned("Finishers"),
            49 => owned("Seasonal artifacts"),
            _ => numbered("Character bucket ", id),
        },
        InventoryScope::Profile => match id {
            13 => owned("Modifications"),
            14 => owned("Shaders"),
            15 => owned("Consumables and materials"),
            21 => owned("Glimmer"),
            22 => owned("Legendary Shards"),
            23 => owned("Silver"),
            24 => owned("Bright Dust"),
            42 => owned("General profile items"),
            _ => numbered("Profile bucket ", id),
        },
        InventoryScope::SmallProfile => numbered("Small profile bucket ", id),
        InventoryScope::Unknown => numbered("Unknown bucket ", id),
    }
}

impl InventoryMetadata {
    /// The name of the metadata's bucket.
    pub fn bucket_label(&self) -> (label: String)
        ensures
            label@ == spec_bucket_label(self.scope, self.native_bucket_id),
    {
        bucket_label_of(BucketKey { scope: self.scope, native_id: self.native_bucket_id })
    }
}

// ---------------------------------------------------------------------------------------
// Definitions
// ---------------------------------------------------------------------------------------

/// A definition that can be added to an inventory: what the pickers show and sort by.
pub struct InventoryDefinition {
    pub hash: u64,
    pub name: String,
    pub item_type: String,
    pub metadata: InventoryMetadata,
}

pub struct DefView {
    pub hash: u64,
    pub name: Seq<char>,
    pub item_type: Seq<char>,
    pub metadata: InventoryMetadata,
}

pub open spec fn def_view(d: InventoryDefinition) -> DefView {
    DefView { hash: d.hash, name: d.name@, item_type: d.item_type@, metadata: d.metadata }
}

pub open spec fn defs_view(v: Seq<InventoryDefinition>) -> Seq<DefView> {
    Seq::new(v.len(), |i: int| def_view(v[i]))
}

pub open spec fn bucket_of(d: DefView) -> BucketKey {
    BucketKey { scope: d.metadata.scope, native_id: d.metadata.native_bucket_id }
}

/// The words that put a profile definition first.
pub open spec fn priority_terms() -> Seq<Seq<char>> {
    seq!["currency"@, "material"@, "consumable"@, "token"@, "shader"@, "ornament"@, "mod"@]
}

/// 0 for a profile definition whose lowercase name and type mention a currency, material,
/// consumable, token, shader, ornament or mod; 1 otherwise.
pub open spec fn name_priority(d: DefView) -> u64 {
    let label = lowercased(d.name + " "@ + d.item_type);
    if exists|i: int| 0 <= i < 7 && has_text(label, #[trigger] priority_terms()[i]) {
        0
    } else {
        1
    }
}

fn priority_term(i: usize) -> (t: &'static str)
    requires
        i < 7,
    ensures
        t@ == priority_terms()[i as int],
{
    match i {
        0 => "currency",
        1 => "material",
        2 => "consumable",
        3 => "token",
        4 => "shader",
        5 => "ornament",
        _ => "mod",
    }
}

fn name_priority_exec(d: &InventoryDefinition) -> (p: u64)
    ensures
        p == name_priority(def_view(*d)),
{
    let mut label = d.name.clone();
    push_str(&mut label, " ");
    push_str(&mut label, d.item_type.as_str());
    let lower = lowercase(label.as_str());
    let mut i: usize = 0;
    while i < 7
        invariant
            i <= 7,
            lower@ == lowercased(def_view(*d).name + " "@ + def_view(*d).item_type),
            forall|j: int| 0 <= j < i ==> !has_text(lower@, #[trigger] priority_terms()[j]),
        decreases 7 - i,
    {
        if contains_text(lower.as_str(), priority_term(i)) {
            return 0;
        }
        i += 1;
    }
    1
}

/// A larger stack sorts first, and a definition without a stack size last.
pub open spec fn stack_rank(m: Option<u32>) -> u64 {
    match m {
        Some(x) => (u32::MAX - x) as u64,
        None => 0x1_0000_0000u64,
    }
}

/// How definitions sort within a bucket: on a profile page by priority, larger stacks,
/// lowercase name and hash; on a character page by lowercase name and hash.
pub open spec fn def_key(d: DefView, profile: bool) -> KeyView {
    if profile {
        (name_priority(d), stack_rank(d.metadata.max_stack_size), lowercased(d.name), d.hash)
    } else {
        (0, 0, lowercased(d.name), d.hash)
    }
}

fn def_key_exec(d: &InventoryDefinition, profile: bool) -> (k: SortKey)
    ensures
        k.key_view() == def_key(def_view(*d), profile),
{
    let text = lowercase(d.name.as_str());
    if profile {
        let rank = match d.metadata.max_stack_size {
            Some(x) => (u32::MAX - x) as u64,
            None => 0x1_0000_0000u64,
        };
        SortKey { major: name_priority_exec(d), minor: rank, text, last: d.hash }
    } else {
        SortKey { major: 0, minor: 0, text, last: d.hash }
    }
}

/// How buckets sort: by the page's rank, lowercase label and native id.
pub open spec fn group_key(k: BucketKey, profile: bool) -> KeyView {
    (
        if profile {
            spec_profile_bucket_rank(k.native_id) as u64
        } else {
            spec_character_bucket_rank(k.native_id) as u64
        },
        0,
        lowercased(spec_bucket_label(k.scope, k.native_id)),
        k.native_id as u64,
    )
}

pub open spec fn choice_view(c: DefinitionChoice) -> (u64, Seq<char>, Seq<char>, Option<Seq<char>>) {
    (
        c.hash,
        c.name@,
        c.item_type@,
        match c.group {
            Some(g) => Some(g@),
            None => None,
        },
    )
}

pub open spec fn choices_view(v: Seq<DefinitionChoice>) -> Seq<(u64, Seq<char>, Seq<char>, Option<Seq<char>>)> {
    Seq::new(v.len(), |i: int| choice_view(v[i]))
}

pub open spec fn def_choice(d: DefView, group: Option<Seq<char>>) -> (u64, Seq<char>, Seq<char>, Option<Seq<char>>) {
    (d.hash, d.name, d.item_type, group)
}

// ---------------------------------------------------------------------------------------
// Grouping
// ---------------------------------------------------------------------------------------

/// Index of the first group (from `k` on) with key `key`.
pub open spec fn group_of(groups: Seq<(BucketKey, Seq<int>)>, key: BucketKey, k: int) -> Option<int>
    decreases groups.len() - k,
{
    if k < 0 || k >= groups.len() {
        None
    } else if groups[k].0 == key {
        Some(k)
    } else {
        group_of(groups, key, k + 1)
    }
}

/// The first `n` definitions grouped by bucket: buckets in the order first seen, each with
/// the positions of its definitions in order.
pub open spec fn grouped(defs: Seq<DefView>, n: int) -> Seq<(BucketKey, Seq<int>)>
    decreases n,
{
    if n <= 0 || n > defs.len() {
        Seq::empty()
    } else {
        let prev = grouped(defs, n - 1);
        let key = bucket_of(defs[n - 1]);
        match group_of(prev, key, 0) {
            Some(i) => prev.update(i, (key, prev[i].1.push(n - 1))),
            None => prev.push((key, seq![n - 1])),
        }
    }
}

/// The definitions of one group, sorted, as choices in that group.
pub open spec fn group_choices(defs: Seq<DefView>, group: (BucketKey, Seq<int>), profile: bool, label: Option<Seq<char>>) -> Seq<
    (u64, Seq<char>, Seq<char>, Option<Seq<char>>),
> {
    let members = group.1;
    let order = sorted_positions(Seq::new(members.len(), |j: int| def_key(defs[members[j]], profile)));
    Seq::new(order.len(), |j: int| def_choice(defs[members[order[j]]], label))
}

/// The choices of the first `t` groups in `order`.
pub open spec fn flattened(
    defs: Seq<DefView>,
    groups: Seq<(BucketKey, Seq<int>)>,
    order: Seq<int>,
    profile: bool,
    t: int,
) -> Seq<(u64, Seq<char>, Seq<char>, Option<Seq<char>>)>
    decreases t,
{
    if t <= 0 || t > order.len() {
        Seq::empty()
    } else {
        let g = groups[order[t - 1]];
        flattened(defs, groups, order, profile, t - 1) + group_choices(
            defs,
            g,
            profile,
            Some(spec_bucket_label(g.0.scope, g.0.native_id)),
        )
    }
}

/// Every definition as a choice under its bucket's label: buckets in the page's order,
/// definitions sorted within each.
pub open spec fn spec_grouped_choices(defs: Seq<DefView>, profile: bool) -> Seq<(u64, Seq<char>, Seq<char>, Option<Seq<char>>)> {
    let groups = grouped(defs, defs.len() as int);
    let order = sorted_positions(Seq::new(groups.len(), |g: int| group_key(groups[g].0, profile)));
    flattened(defs, groups, order, profile, order.len() as int)
}

/// Every definition as an ungrouped choice, sorted.
pub open spec fn spec_sorted_choices(defs: Seq<DefView>, profile: bool) -> Seq<(u64, Seq<char>, Seq<char>, Option<Seq<char>>)> {
    group_choices(defs, (BucketKey { scope: InventoryScope::Unknown, native_id: 0 }, Seq::new(defs.len(), |i: int| i)), profile, None)
}

// --- every definition is offered ---------------------------------------------------------

/// How many definitions the groups at `positions` hold together.
pub open spec fn weight(groups: Seq<(BucketKey, Seq<int>)>, positions: Seq<int>) -> int
    decreases positions.len(),
{
    if positions.len() == 0 {
        0
    } else {
        weight(groups, positions.drop_last()) + groups[positions.last()].1.len()
    }
}

proof fn lemma_weight_concat(groups: Seq<(BucketKey, Seq<int>)>, a: Seq<int>, b: Seq<int>)
    ensures
        weight(groups, a + b) == weight(groups, a) + weight(groups, b),
    decreases b.len(),
{
    if b.len() == 0 {
        assert(a + b =~= a);
    } else {
        lemma_weight_concat(groups, a, b.drop_last());
        assert((a + b).drop_last() =~= a + b.drop_last());
    }
}

proof fn lemma_weight_insert(groups: Seq<(BucketKey, Seq<int>)>, s: Seq<int>, p: int, x: int)
    requires
        0 <= p <= s.len(),
    ensures
        weight(groups, s.insert(p, x)) == weight(groups, s) + groups[x].1.len(),
{
    assert(s.insert(p, x) =~= s.take(p) + (seq![x] + s.skip(p)));
    assert(s =~= s.take(p) + s.skip(p));
    lemma_weight_concat(groups, s.take(p), seq![x] + s.skip(p));
    lemma_weight_concat(groups, seq![x], s.skip(p));
    lemma_weight_concat(groups, s.take(p), s.skip(p));
    assert(seq![x].drop_last() =~= Seq::<int>::empty());
    assert(weight(groups, seq![x]) == weight(groups, Seq::<int>::empty()) + groups[x].1.len());
}

pub open spec fn pair_positions(s: Seq<(KeyView, int)>) -> Seq<int> {
    Seq::new(s.len(), |i: int| s[i].1)
}

/// Sorting moves entries but keeps what they weigh together.
proof fn lemma_sort_keeps_weight(groups: Seq<(BucketKey, Seq<int>)>, s: Seq<(KeyView, int)>)
    ensures
        weight(groups, pair_positions(sort_pairs(s))) == weight(groups, pair_positions(s)),
    decreases s.len(),
{
    if s.len() > 0 {
        let prev = sort_pairs(s.drop_last());
        lemma_sort_keeps_weight(groups, s.drop_last());
        lemma_sort_len(s.drop_last());
        lemma_insert_pos_range(prev, s.last(), 0);
        let p = insert_pos(prev, s.last(), 0);
        assert(pair_positions(prev.insert(p, s.last())) =~= pair_positions(prev).insert(p, s.last().1));
        lemma_weight_insert(groups, pair_positions(prev), p, s.last().1);
        assert(pair_positions(s).drop_last() =~= pair_positions(s.drop_last()));
    }
}

/// How many definitions the first `k` groups hold.
pub open spec fn held(groups: Seq<(BucketKey, Seq<int>)>, k: int) -> int
    decreases k,
{
    if k <= 0 {
        0
    } else {
        held(groups, k - 1) + groups[k - 1].1.len()
    }
}

proof fn lemma_weight_of_all(groups: Seq<(BucketKey, Seq<int>)>, k: int)
    requires
        0 <= k,
    ensures
        weight(groups, Seq::new(k as nat, |i: int| i)) == held(groups, k),
    decreases k,
{
    if k > 0 {
        lemma_weight_of_all(groups, k - 1);
        assert(Seq::new(k as nat, |i: int| i).drop_last() =~= Seq::new((k - 1) as nat, |i: int| i));
    }
}

proof fn lemma_held_update(groups: Seq<(BucketKey, Seq<int>)>, i: int, g: (BucketKey, Seq<int>), k: int)
    requires
        0 <= i < groups.len(),
        0 <= k <= groups.len(),
    ensures
        held(groups.update(i, g), k) == held(groups, k) + if i < k {
            g.1.len() - groups[i].1.len()
        } else {
            0
        },
    decreases k,
{
    if k > 0 {
        lemma_held_update(groups, i, g, k - 1);
    }
}

proof fn lemma_held_prefix(groups: Seq<(BucketKey, Seq<int>)>, extra: (BucketKey, Seq<int>), k: int)
    requires
        0 <= k <= groups.len(),
    ensures
        held(groups.push(extra), k) == held(groups, k),
    decreases k,
{
    if k > 0 {
        lemma_held_prefix(groups, extra, k - 1);
    }
}

/// The groups of the first `n` definitions hold `n` definitions.
proof fn lemma_grouped_holds_all(defs: Seq<DefView>, n: int)
    requires
        0 <= n <= defs.len(),
    ensures
        held(grouped(defs, n), grouped(defs, n).len() as int) == n,
    decreases n,
{
    if n > 0 {
        lemma_grouped_holds_all(defs, n - 1);
        let prev = grouped(defs, n - 1);
        let key = bucket_of(defs[n - 1]);
        lemma_group_of_range(prev, key, 0);
        match group_of(prev, key, 0) {
            Some(i) => {
                lemma_held_update(prev, i, (key, prev[i].1.push(n - 1)), prev.len() as int);
            },
            None => {
                let extra = (key, seq![n - 1]);
                lemma_held_prefix(prev, extra, prev.len() as int);
            },
        }
    }
}

proof fn lemma_flattened_len(
    defs: Seq<DefView>,
    groups: Seq<(BucketKey, Seq<int>)>,
    order: Seq<int>,
    profile: bool,
    t: int,
)
    requires
        0 <= t <= order.len(),
    ensures
        flattened(defs, groups, order, profile, t).len() == weight(groups, order.take(t)),
    decreases t,
{
    if t > 0 {
        lemma_flattened_len(defs, groups, order, profile, t - 1);
        assert(order.take(t).drop_last() =~= order.take(t - 1));
        let g = groups[order[t - 1]];
        let members = g.1;
        lemma_sort_len(keyed(Seq::new(members.len(), |j: int| def_key(defs[members[j]], profile))));
    }
}

/// Browsing by bucket offers every definition: there are as many choices as definitions.
pub proof fn law_grouped_choices_keep_every_definition(defs: Seq<DefView>, profile: bool)
    ensures
        spec_grouped_choices(defs, profile).len() == defs.len(),
{
    let groups = grouped(defs, defs.len() as int);
    let keys = Seq::new(groups.len(), |g: int| group_key(groups[g].0, profile));
    let s = keyed(keys);
    let order = sorted_positions(keys);
    lemma_sort_len(s);
    assert(order =~= pair_positions(sort_pairs(s)));
    lemma_flattened_len(defs, groups, order, profile, order.len() as int);
    assert(order.take(order.len() as int) =~= order);
    lemma_sort_keeps_weight(groups, s);
    assert(pair_positions(s) =~= Seq::new(groups.len(), |i: int| i));
    lemma_weight_of_all(groups, groups.len() as int);
    lemma_grouped_holds_all(defs, defs.len() as int);
}

/// The ungrouped browser also offers every definition.
pub proof fn law_sorted_choices_keep_every_definition(defs: Seq<DefView>, profile: bool)
    ensures
        spec_sorted_choices(defs, profile).len() == defs.len(),
{
    let members = Seq::new(defs.len(), |i: int| i);
    lemma_sort_len(keyed(Seq::new(members.len(), |j: int| def_key(defs[members[j]], profile))));
}

pub open spec fn groups_view(v: Seq<(BucketKey, Vec<usize>)>) -> Seq<(BucketKey, Seq<int>)> {
    Seq::new(v.len(), |g: int| (v[g].0, positions_view(v[g].1@)))
}

fn group_index(groups: &Vec<(BucketKey, Vec<usize>)>, key: BucketKey) -> (r: Option<usize>)
    ensures
        match r {
            Some(i) => group_of(groups_view(groups@), key, 0) == Some(i as int) && i < groups@.len(),
            None => group_of(groups_view(groups@), key, 0) is None,
        },
{
    let ghost gv = groups_view(groups@);
    let mut k: usize = 0;
    while k < groups.len()
        invariant
            k <= groups@.len(),
            gv == groups_view(groups@),
            group_of(gv, key, k as int) == group_of(gv, key, 0),
        decreases groups.len() - k,
    {
        if groups[k].0 == key {
            return Some(k);
        }
        k += 1;
    }
    None
}

proof fn lemma_group_of_range(groups: Seq<(BucketKey, Seq<int>)>, key: BucketKey, k: int)
    ensures
        group_of(groups, key, k) matches Some(i) ==> 0 <= k <= i < groups.len() && groups[i].0 == key,
    decreases groups.len() - k,
{
    if 0 <= k < groups.len() && groups[k].0 != key {
        lemma_group_of_range(groups, key, k + 1);
    }
}

/// Every position in the groups is below `n`.
pub open spec fn positions_below(groups: Seq<(BucketKey, Seq<int>)>, n: int) -> bool {
    forall|g: int, j: int| 0 <= g < groups.len() && 0 <= j < groups[g].1.len() ==> 0 <= #[trigger] groups[g].1[j] < n
}

fn group_definitions(defs: &Vec<InventoryDefinition>) -> (groups: Vec<(BucketKey, Vec<usize>)>)
    ensures
        groups_view(groups@) == grouped(defs_view(defs@), defs@.len() as int),
        positions_below(groups_view(groups@), defs@.len() as int),
{
    let ghost dv = defs_view(defs@);
    let mut groups: Vec<(BucketKey, Vec<usize>)> = Vec::new();
    assert(groups_view(groups@) =~= grouped(dv, 0));
    let mut n: usize = 0;
    while n < defs.len()
        invariant
            n <= defs@.len(),
            dv == defs_view(defs@),
            groups_view(groups@) == grouped(dv, n as int),
            positions_below(groups_view(groups@), n as int),
        decreases defs.len() - n,
    {
        let key = BucketKey { scope: defs[n].metadata.scope, native_id: defs[n].metadata.native_bucket_id };
        assert(key == bucket_of(dv[n as int]));
        let ghost before = groups_view(groups@);
        proof {
            lemma_group_of_range(before, key, 0);
        }
        match group_index(&groups, key) {
            Some(i) => {
                let ghost old_groups = groups@;
                let mut entry = (key, Vec::new());
                groups.set_and_swap(i, &mut entry);
                assert(entry == old_groups[i as int]);
                entry.1.push(n);
                let ghost updated = entry;
                groups.set_and_swap(i, &mut entry);
                assert(groups@ == old_groups.update(i as int, updated));
                assert(positions_view(updated.1@) =~= before[i as int].1.push(n as int));
                assert(groups_view(groups@) =~= before.update(i as int, (key, before[i as int].1.push(n as int))));
            },
            None => {
                let mut members: Vec<usize> = Vec::new();
                members.push(n);
                assert(positions_view(members@) =~= seq![n as int]);
                groups.push((key, members));
                assert(groups_view(groups@) =~= before.push((key, seq![n as int])));
            },
        }
        proof {
            assert(groups_view(groups@) =~= grouped(dv, n + 1));
        }
        n += 1;
    }
    groups
}

// ---------------------------------------------------------------------------------------
// Choice lists
// ---------------------------------------------------------------------------------------

pub open spec fn label_view(l: Option<String>) -> Option<Seq<char>> {
    match l {
        Some(x) => Some(x@),
        None => None,
    }
}

fn group_choices_exec(
    defs: &Vec<InventoryDefinition>,
    members: &Vec<usize>,
    profile: bool,
    label: Option<String>,
    out: &mut Vec<DefinitionChoice>,
)
    requires
        forall|j: int| 0 <= j < members@.len() ==> members@[j] < defs@.len(),
    ensures
        choices_view(final(out)@) == choices_view(old(out)@) + group_choices(
            defs_view(defs@),
            (BucketKey { scope: InventoryScope::Unknown, native_id: 0 }, positions_view(members@)),
            profile,
            label_view(label),
        ),
{
    let ghost dv = defs_view(defs@);
    let ghost mv = positions_view(members@);
    let ghost lv = label_view(label);
    let mut keys: Vec<SortKey> = Vec::new();
    let mut j: usize = 0;
    while j < members.len()
        invariant
            j <= members@.len(),
            forall|x: int| 0 <= x < members@.len() ==> members@[x] < defs@.len(),
            dv == defs_view(defs@),
            mv == positions_view(members@),
            keys_view(keys@) == Seq::new(j as nat, |x: int| def_key(dv[mv[x]], profile)),
        decreases members.len() - j,
    {
        let k = def_key_exec(&defs[members[j]], profile);
        let ghost before = keys@;
        keys.push(k);
        assert(keys_view(keys@) =~= keys_view(before).push(k.key_view()));
        assert(dv[mv[j as int]] == def_view(defs@[members@[j as int] as int]));
        assert(keys_view(keys@) =~= Seq::new((j + 1) as nat, |x: int| def_key(dv[mv[x]], profile)));
        j += 1;
    }
    let order = sort_positions(&keys);
    let ghost ov = positions_view(order@);
    let ghost start = choices_view(out@);
    let ghost target = group_choices(dv, (BucketKey { scope: InventoryScope::Unknown, native_id: 0 }, mv), profile, lv);
    assert(ov == sorted_positions(Seq::new(mv.len(), |x: int| def_key(dv[mv[x]], profile))));
    assert(choices_view(out@) =~= start + target.take(0));
    let mut t: usize = 0;
    while t < order.len()
        invariant
            t <= order@.len(),
            order@.len() == keys@.len(),
            keys@.len() == members@.len(),
            forall|x: int| 0 <= x < order@.len() ==> order@[x] < keys@.len(),
            forall|x: int| 0 <= x < members@.len() ==> members@[x] < defs@.len(),
            dv == defs_view(defs@),
            mv == positions_view(members@),
            ov == positions_view(order@),
            target == Seq::new(ov.len(), |x: int| def_choice(dv[mv[ov[x]]], lv)),
            lv == label_view(label),
            choices_view(out@) == start + target.take(t as int),
        decreases order.len() - t,
    {
        let d = &defs[members[order[t]]];
        let group = match &label {
            Some(l) => Some(l.clone()),
            None => None,
        };
        let ghost before = out@;
        out.push(DefinitionChoice { hash: d.hash, name: d.name.clone(), item_type: d.item_type.clone(), group });
        proof {
            assert(dv[mv[ov[t as int]]] == def_view(*d));
            assert(choices_view(out@) =~= choices_view(before).push(target[t as int]));
            assert(target.take(t + 1) =~= target.take(t as int).push(target[t as int]));
        }
        t += 1;
    }
    assert(target.take(order@.len() as int) =~= target);
}

/// Every definition as a choice under its bucket's label, as `spec_grouped_choices`
/// describes.
fn grouped_definition_choices(defs: &Vec<InventoryDefinition>, profile: bool) -> (choices: Vec<DefinitionChoice>)
    ensures
        choices_view(choices@) == spec_grouped_choices(defs_view(defs@), profile),
{
    let ghost dv = defs_view(defs@);
    let groups = group_definitions(defs);
    let ghost gv = groups_view(groups@);
    let mut keys: Vec<SortKey> = Vec::new();
    let mut g: usize = 0;
    while g < groups.len()
        invariant
            g <= groups@.len(),
            gv == groups_view(groups@),
            keys_view(keys@) == Seq::new(g as nat, |x: int| group_key(gv[x].0, profile)),
        decreases groups.len() - g,
    {
        let key = groups[g].0;
        let label = bucket_label_of(key);
        let rank: u64 = if profile {
            profile_bucket_rank(key.native_id) as u64
        } else {
            character_bucket_rank(key.native_id) as u64
        };
        let k = SortKey { major: rank, minor: 0, text: lowercase(label.as_str()), last: key.native_id as u64 };
        let ghost before = keys@;
        keys.push(k);
        assert(keys_view(keys@) =~= keys_view(before).push(k.key_view()));
        assert(gv[g as int].0 == key);
        assert(keys_view(keys@) =~= Seq::new((g + 1) as nat, |x: int| group_key(gv[x].0, profile)));
        g += 1;
    }
    let order = sort_positions(&keys);
    let ghost ov = positions_view(order@);
    let mut out: Vec<DefinitionChoice> = Vec::new();
    assert(choices_view(out@) =~= flattened(dv, gv, ov, profile, 0));
    let mut t: usize = 0;
    while t < order.len()
        invariant
            t <= order@.len(),
            order@.len() == groups@.len(),
            forall|x: int| 0 <= x < order@.len() ==> order@[x] < groups@.len(),
            dv == defs_view(defs@),
            gv == groups_view(groups@),
            gv == grouped(dv, dv.len() as int),
            positions_below(gv, defs@.len() as int),
            ov == positions_view(order@),
            choices_view(out@) == flattened(dv, gv, ov, profile, t as int),
        decreases order.len() - t,
    {
        let gi = order[t];
        let key = groups[gi].0;
        let label = bucket_label_of(key);
        proof {
            assert forall|j: int| 0 <= j < groups@[gi as int].1@.len() implies groups@[gi as int].1@[j] < defs@.len() by {
                assert(gv[gi as int].1[j] == groups@[gi as int].1@[j] as int);
            }
            assert(gv[gi as int] == (key, positions_view(groups@[gi as int].1@)));
        }
        group_choices_exec(defs, &groups[gi].1, profile, Some(label), &mut out);
        t += 1;
    }
    out
}

/// The choices of a profile page's browse picker: buckets in profile order, definitions by
/// priority, larger stacks, name and hash.
pub fn profile_definition_choices(definitions: &Vec<InventoryDefinition>) -> (choices: Vec<DefinitionChoice>)
    ensures
        choices_view(choices@) == spec_grouped_choices(defs_view(definitions@), true),
{
    grouped_definition_choices(definitions, true)
}

/// The choices of a character page's browse picker: buckets in character order,
/// definitions by name and hash.
pub fn character_definition_choices(definitions: &Vec<InventoryDefinition>) -> (choices: Vec<DefinitionChoice>)
    ensures
        choices_view(choices@) == spec_grouped_choices(defs_view(definitions@), false),
{
    grouped_definition_choices(definitions, false)
}

fn sorted_definition_choices(defs: &Vec<InventoryDefinition>, profile: bool) -> (choices: Vec<DefinitionChoice>)
    ensures
        choices_view(choices@) == spec_sorted_choices(defs_view(defs@), profile),
{
    let mut all: Vec<usize> = Vec::new();
    let mut i: usize = 0;
    while i < defs.len()
        invariant
            i <= defs@.len(),
            positions_view(all@) == Seq::new(i as nat, |x: int| x),
            forall|x: int| 0 <= x < all@.len() ==> all@[x] < defs@.len(),
        decreases defs.len() - i,
    {
        let ghost before = all@;
        all.push(i);
        assert(positions_view(all@) =~= positions_view(before).push(i as int));
        assert(positions_view(all@) =~= Seq::new((i + 1) as nat, |x: int| x));
        i += 1;
    }
    let mut out: Vec<DefinitionChoice> = Vec::new();
    assert(choices_view(out@) =~= Seq::<(u64, Seq<char>, Seq<char>, Option<Seq<char>>)>::empty());
    group_choices_exec(defs, &all, profile, None, &mut out);
    assert(choices_view(out@) =~= spec_sorted_choices(defs_view(defs@), profile));
    out
}

/// The choices of a profile bucket's own picker: ungrouped, by priority, larger stacks,
/// name and hash.
pub fn profile_bucket_definition_choices(definitions: &Vec<InventoryDefinition>) -> (choices: Vec<DefinitionChoice>)
    ensures
        choices_view(choices@) == spec_sorted_choices(defs_view(definitions@), true),
{
    sorted_definition_choices(definitions, true)
}

/// The choices of a character bucket's own picker: ungrouped, by name and hash.
pub fn character_bucket_definition_choices(definitions: &Vec<InventoryDefinition>) -> (choices: Vec<DefinitionChoice>)
    ensures
        choices_view(choices@) == spec_sorted_choices(defs_view(definitions@), false),
{
    sorted_definition_choices(definitions, false)
}

// ---------------------------------------------------------------------------------------
// The equipment picker
// ---------------------------------------------------------------------------------------

/// An equipment candidate matches a search when the search is blank, or its lowercase name
/// or hash text contains the lowercase search.
pub open spec fn candidate_matches(item: ItemDefinition, query: Seq<char>) -> bool {
    trimmed(query).len() == 0 || has_text(lowercased(item.name@), lowercased(query)) || has_text(
        lowercased(hash_text(item.hash)),
        lowercased(query),
    )
}

/// The matching candidates among the first `n`, in order, as ungrouped choices.
pub open spec fn equipment_choices(items: Seq<ItemDefinition>, query: Seq<char>, n: int) -> Seq<
    (u64, Seq<char>, Seq<char>, Option<Seq<char>>),
>
    decreases n,
{
    if n <= 0 || n > items.len() {
        Seq::empty()
    } else {
        equipment_choices(items, query, n - 1) + if candidate_matches(items[n - 1], query) {
            seq![(items[n - 1].hash, items[n - 1].name@, items[n - 1].item_type@, None::<Seq<char>>)]
        } else {
            Seq::empty()
        }
    }
}

/// The equipment picker's choices for a search, in candidate order, as
/// `equipment_choices` describes; nothing is cut off.
pub fn equipment_definition_choices(candidates: &Vec<ItemDefinition>, query: &str) -> (choices: Vec<DefinitionChoice>)
    ensures
        choices_view(choices@) == equipment_choices(candidates@, query@, candidates@.len() as int),
{
    let needle = lowercase(query);
    let any = blank(query);
    let mut out: Vec<DefinitionChoice> = Vec::new();
    assert(choices_view(out@) =~= equipment_choices(candidates@, query@, 0));
    let mut i: usize = 0;
    while i < candidates.len()
        invariant
            i <= candidates@.len(),
            needle@ == lowercased(query@),
            any == (trimmed(query@).len() == 0),
            choices_view(out@) == equipment_choices(candidates@, query@, i as int),
        decreases candidates.len() - i,
    {
        let item = &candidates[i];
        let keep = any || contains_text(lowercase(item.name.as_str()).as_str(), needle.as_str()) || contains_text(
            lowercase(format_hash(item.hash).as_str()).as_str(),
            needle.as_str(),
        );
        let ghost before = out@;
        if keep {
            out.push(DefinitionChoice { hash: item.hash, name: item.name.clone(), item_type: item.item_type.clone(), group: None });
            assert(choices_view(out@) =~= choices_view(before).push((item.hash, item.name@, item.item_type@, None::<Seq<char>>)));
        }
        assert(choices_view(out@) =~= equipment_choices(candidates@, query@, i + 1));
        i += 1;
    }
    out
}

/// A stored inventory row offered for an equipment slot: its position, definition hash,
/// name and type.
pub struct ExistingInventoryChoice {
    pub item_index: usize,
    pub hash: u64,
    pub name: String,
    pub item_type: String,
}

/// A stored row matches a search when the trimmed, lowercase search is empty or occurs in
/// the lowercase name, type, hash text or description.
pub open spec fn existing_choice_matches(
    name: Seq<char>,
    item_type: Seq<char>,
    hash: u64,
    description: Option<Seq<char>>,
    query: Seq<char>,
) -> bool {
    let needle = lowercased(trimmed(query));
    ||| needle.len() == 0
    ||| has_text(lowercased(name), needle)
    ||| has_text(lowercased(item_type), needle)
    ||| has_text(lowercased(hash_text(hash)), needle)
    ||| (description matches Some(d) && has_text(lowercased(d), needle))
}

/// Whether a stored row matches a search, as `existing_choice_matches` describes; the
/// description is the catalog's text for the row's definition, if it has one.
pub fn existing_inventory_choice_matches(
    choice: &ExistingInventoryChoice,
    description: Option<&str>,
    query: &str,
) -> (r: bool)
    ensures
        r == existing_choice_matches(
            choice.name@,
            choice.item_type@,
            choice.hash,
            match description {
                Some(d) => Some(d@),
                None => None,
            },
            query@,
        ),
{
    let chars = chars_of(query);
    let trimmed_query = string_from_chars(trim_chars(chars.as_slice()).as_slice());
    let needle = lowercase(trimmed_query.as_str());
    if chars_of(needle.as_str()).len() == 0 {
        return true;
    }
    if contains_text(lowercase(choice.name.as_str()).as_str(), needle.as_str()) {
        return true;
    }
    if contains_text(lowercase(choice.item_type.as_str()).as_str(), needle.as_str()) {
        return true;
    }
    if contains_text(lowercase(format_hash(choice.hash).as_str()).as_str(), needle.as_str()) {
        return true;
    }
    match description {
        Some(d) => contains_text(lowercase(d).as_str(), needle.as_str()),
        None => false,
    }
}

} // verus!
