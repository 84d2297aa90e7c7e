//! The buckets an inventory page shows: its rows grouped by the bucket the installed game
//! places their definition in, the buckets a new row can be added to, the buckets' order on
//! the page and their headers.
use vstd::prelude::*;
use crate::bucket_usage::{metadata_lookup, table_lookup};
use crate::definition_choices::{
    bucket_label_of, keys_view, lowercase, lowercased, positions_view, sort_positions, sorted_positions, spec_bucket_label, KeyView, SortKey,
};
use crate::inventory_page::{
    counted, counted_exec, item_count_label, page_bucket_display_rank, spec_page_bucket_display_rank, BucketKey, BucketUsage, InventoryMetadata,
    InventoryScope, ItemStackability,
};
use crate::text::{decimal, push_decimal, push_str};

verus! {

/// The rows of one bucket on a page, with the bucket's label, its authored capacity and
/// whether the page offers adding rows to it.
pub struct ItemBucket<T> {
    pub key: BucketKey,
    pub label: String,
    pub capacity: Option<u16>,
    pub addable: bool,
    pub items: Vec<T>,
}

/// A bucket as plain values: key, label, capacity, addable, rows.
pub type BucketView<T> = (BucketKey, Seq<char>, Option<u16>, bool, Seq<T>);

impl<T> ItemBucket<T> {
    pub open spec fn bucket_view(&self) -> BucketView<T> {
        (self.key, self.label@, self.capacity, self.addable, self.items@)
    }
}

pub open spec fn buckets_view<T>(s: Seq<ItemBucket<T>>) -> Seq<BucketView<T>> {
    Seq::new(s.len(), |i: int| s[i].bucket_view())
}

/// The metadata of a definition the installed game does not know: no scope, bucket 0, no
/// stacking or capacity information.
pub open spec fn unknown_metadata() -> InventoryMetadata {
    InventoryMetadata {
        scope: InventoryScope::Unknown,
        native_bucket_id: 0,
        stackability: ItemStackability::Unknown,
        max_stack_size: None,
        bucket_capacity: None,
    }
}

fn unknown_metadata_exec() -> (m: InventoryMetadata)
    ensures
        m == unknown_metadata(),
{
    InventoryMetadata {
        scope: InventoryScope::Unknown,
        native_bucket_id: 0,
        stackability: ItemStackability::Unknown,
        max_stack_size: None,
        bucket_capacity: None,
    }
}

/// The metadata a row is grouped by: its definition's, with a missing hash read as 0 and an
/// unknown definition as `unknown_metadata`.
pub open spec fn row_metadata(table: Seq<(u64, InventoryMetadata)>, hash: Option<u64>) -> InventoryMetadata {
    match table_lookup(
        table,
        match hash {
            Some(h) => h,
            None => 0,
        },
    ) {
        Some(m) => m,
        None => unknown_metadata(),
    }
}

pub open spec fn metadata_key(m: InventoryMetadata) -> BucketKey {
    BucketKey { scope: m.scope, native_id: m.native_bucket_id }
}

/// The first bucket from `k` on with `key`.
pub open spec fn bucket_at<T>(buckets: Seq<BucketView<T>>, key: BucketKey, k: int) -> Option<int>
    decreases buckets.len() - k,
{
    if k < 0 || k >= buckets.len() {
        None
    } else if buckets[k].0 == key {
        Some(k)
    } else {
        bucket_at(buckets, key, k + 1)
    }
}

proof fn lemma_bucket_at_range<T>(buckets: Seq<BucketView<T>>, key: BucketKey, k: int)
    ensures
        bucket_at(buckets, key, k) matches Some(i) ==> 0 <= k <= i < buckets.len() && buckets[i].0 == key,
    decreases buckets.len() - k,
{
    if 0 <= k < buckets.len() && buckets[k].0 != key {
        lemma_bucket_at_range(buckets, key, k + 1);
    }
}

/// The buckets of the first `n` rows, in order of first appearance: a bucket takes its label
/// and capacity from its first row's metadata, and holds its rows in order.
pub open spec fn bucketed<T>(table: Seq<(u64, InventoryMetadata)>, rows: Seq<(Option<u64>, T)>, n: int) -> Seq<BucketView<T>>
    decreases n,
{
    if n <= 0 || n > rows.len() {
        Seq::empty()
    } else {
        let prev = bucketed(table, rows, n - 1);
        let m = row_metadata(table, rows[n - 1].0);
        let key = metadata_key(m);
        match bucket_at(prev, key, 0) {
            Some(i) => prev.update(i, (prev[i].0, prev[i].1, prev[i].2, prev[i].3, prev[i].4.push(rows[n - 1].1))),
            None => prev.push((key, spec_bucket_label(key.scope, key.native_id), m.bucket_capacity, false, seq![rows[n - 1].1])),
        }
    }
}

/// A bucket's place on a page: its display rank, then its lowercase label, then its native
/// id.
pub open spec fn bucket_sort_key<T>(expected_scope: InventoryScope, b: BucketView<T>) -> KeyView {
    (spec_page_bucket_display_rank(expected_scope, b.0) as u64, 0u64, lowercased(b.1), b.0.native_id as u64)
}

/// The buckets stably sorted by `bucket_sort_key`.
pub open spec fn sorted_buckets<T>(expected_scope: InventoryScope, buckets: Seq<BucketView<T>>) -> Seq<BucketView<T>> {
    let order = sorted_positions(Seq::new(buckets.len(), |i: int| bucket_sort_key(expected_scope, buckets[i])));
    Seq::new(order.len(), |j: int| buckets[order[j]])
}

/// The entries of `v` in the order `order` gives, each moved once.
fn permute<T>(v: Vec<T>, order: &Vec<usize>) -> (out: Vec<T>)
    requires
        order@.len() == v@.len(),
        forall|i: int| 0 <= i < order@.len() ==> order@[i] < v@.len(),
        forall|a: int, b: int| 0 <= a < b < order@.len() ==> order@[a] != order@[b],
    ensures
        out@ == Seq::new(order@.len(), |j: int| v@[order@[j] as int]),
{
    let ghost orig = v@;
    let mut rest = v;
    let mut slots: Vec<Option<T>> = Vec::new();
    while rest.len() > 0
        invariant
            slots@.len() + rest@.len() == orig.len(),
            forall|x: int| 0 <= x < slots@.len() ==> slots@[x] == Some(orig[x]),
            rest@ == orig.skip(slots@.len() as int),
        decreases rest.len(),
    {
        let ghost k = slots@.len() as int;
        let item = rest.remove(0);
        assert(item == orig[k]);
        slots.push(Some(item));
        assert(rest@ =~= orig.skip(k + 1));
    }
    let mut out: Vec<T> = Vec::new();
    let mut j: usize = 0;
    while j < order.len()
        invariant
            j <= order@.len(),
            slots@.len() == orig.len(),
            order@.len() == orig.len(),
            forall|i: int| 0 <= i < order@.len() ==> order@[i] < orig.len(),
            forall|a: int, b: int| 0 <= a < b < order@.len() ==> order@[a] != order@[b],
            forall|k: int| j <= k < order@.len() ==> slots@[order@[k] as int] == Some(orig[order@[k] as int]),
            out@ == Seq::new(j as nat, |x: int| orig[order@[x] as int]),
        decreases order.len() - j,
    {
        let mut slot: Option<T> = None;
        slots.set_and_swap(order[j], &mut slot);
        let item = slot.unwrap();
        out.push(item);
        assert(out@ =~= Seq::new((j + 1) as nat, |x: int| orig[order@[x] as int]));
        j += 1;
    }
    out
}

/// The buckets in page order, as `sorted_buckets` describes.
fn sort_buckets<T>(buckets: Vec<ItemBucket<T>>, expected_scope: InventoryScope) -> (sorted: Vec<ItemBucket<T>>)
    ensures
        buckets_view(sorted@) == sorted_buckets(expected_scope, buckets_view(buckets@)),
{
    let ghost bv = buckets_view(buckets@);
    let mut keys: Vec<SortKey> = Vec::new();
    let mut i: usize = 0;
    while i < buckets.len()
        invariant
            i <= buckets@.len(),
            bv == buckets_view(buckets@),
            keys_view(keys@) == Seq::new(i as nat, |x: int| bucket_sort_key(expected_scope, bv[x])),
        decreases buckets.len() - i,
    {
        let b = &buckets[i];
        let rank = page_bucket_display_rank(expected_scope, b.key);
        let k = SortKey { major: rank as u64, minor: 0, text: lowercase(b.label.as_str()), last: b.key.native_id as u64 };
        let ghost before = keys@;
        keys.push(k);
        assert(bv[i as int] == b.bucket_view());
        assert(keys_view(keys@) =~= keys_view(before).push(k.key_view()));
        assert(keys_view(keys@) =~= Seq::new((i + 1) as nat, |x: int| bucket_sort_key(expected_scope, bv[x])));
        i += 1;
    }
    let order = sort_positions(&keys);
    let ghost ov = order@;
    let sorted = permute(buckets, &order);
    proof {
        let target = sorted_buckets(expected_scope, bv);
        let pos = sorted_positions(Seq::new(bv.len(), |x: int| bucket_sort_key(expected_scope, bv[x])));
        assert(pos.len() == ov.len());
        assert forall|j: int| 0 <= j < ov.len() implies pos[j] == ov[j] as int by {
            assert(positions_view(ov)[j] == ov[j] as int);
        }
        assert(buckets_view(sorted@) =~= target);
    }
    sorted
}

fn find_bucket<T>(buckets: &Vec<ItemBucket<T>>, key: BucketKey) -> (r: Option<usize>)
    ensures
        match r {
            Some(i) => bucket_at(buckets_view(buckets@), key, 0) == Some(i as int) && i < buckets@.len(),
            None => bucket_at(buckets_view(buckets@), key, 0) is None,
        },
{
    let ghost bv = buckets_view(buckets@);
    let mut k: usize = 0;
    while k < buckets.len()
        invariant
            k <= buckets@.len(),
            bv == buckets_view(buckets@),
            bucket_at(bv, key, k as int) == bucket_at(bv, key, 0),
        decreases buckets.len() - k,
    {
        assert(bv[k as int].0 == buckets@[k as int].key);
        if buckets[k].key == key {
            return Some(k);
        }
        k += 1;
    }
    None
}

/// A page's rows grouped by bucket, each row with its definition hash (if it has one): the
/// buckets of `bucketed`, in page order.
pub fn group_items_by_bucket<T>(
    catalog: &Vec<(u64, InventoryMetadata)>,
    items: Vec<(Option<u64>, T)>,
    expected_scope: InventoryScope,
) -> (groups: Vec<ItemBucket<T>>)
    ensures
        buckets_view(groups@) == sorted_buckets(expected_scope, bucketed(catalog@, items@, items@.len() as int)),
{
    let ghost rows = items@;
    let mut rest = items;
    let mut groups: Vec<ItemBucket<T>> = Vec::new();
    let ghost mut n: int = 0;
    assert(rest@ =~= rows.skip(0));
    while rest.len() > 0
        invariant
            0 <= n <= rows.len(),
            n + rest@.len() == rows.len(),
            rest@ == rows.skip(n),
            buckets_view(groups@) == bucketed(catalog@, rows, n),
        decreases rest.len(),
    {
        let (hash, item) = rest.remove(0);
        assert(rows[n] == (hash, item));
        let meta = match metadata_lookup(catalog, match hash {
            Some(h) => h,
            None => 0,
        }) {
            Some(m) => m,
            None => unknown_metadata_exec(),
        };
        let key = BucketKey { scope: meta.scope, native_id: meta.native_bucket_id };
        let ghost before = buckets_view(groups@);
        proof {
            lemma_bucket_at_range(before, key, 0);
        }
        match find_bucket(&groups, key) {
            Some(i) => {
                groups[i].items.push(item);
                assert(buckets_view(groups@) =~= before.update(
                    i as int,
                    (before[i as int].0, before[i as int].1, before[i as int].2, before[i as int].3, before[i as int].4.push(item)),
                ));
            },
            None => {
                let mut members: Vec<T> = Vec::new();
                members.push(item);
                let label = bucket_label_of(key);
                groups.push(ItemBucket { key, label, capacity: meta.bucket_capacity, addable: false, items: members });
                assert(buckets_view(groups@) =~= before.push(
                    (key, spec_bucket_label(key.scope, key.native_id), meta.bucket_capacity, false, seq![item]),
                ));
            },
        }
        proof {
            n = n + 1;
            assert(rest@ =~= rows.skip(n));
        }
    }
    sort_buckets(groups, expected_scope)
}

/// The buckets after offering the first `n` candidates: an existing bucket becomes addable
/// and takes the candidate's label and capacity; a missing one is added, empty and addable.
pub open spec fn with_candidates<T>(buckets: Seq<BucketView<T>>, candidates: Seq<InventoryMetadata>, n: int) -> Seq<BucketView<T>>
    decreases n,
{
    if n <= 0 || n > candidates.len() {
        buckets
    } else {
        let prev = with_candidates(buckets, candidates, n - 1);
        let m = candidates[n - 1];
        let key = metadata_key(m);
        let label = spec_bucket_label(key.scope, key.native_id);
        match bucket_at(prev, key, 0) {
            Some(i) => prev.update(i, (prev[i].0, label, m.bucket_capacity, true, prev[i].4)),
            None => prev.push((key, label, m.bucket_capacity, true, Seq::empty())),
        }
    }
}

/// Offers the candidate buckets for new rows on a page, as `with_candidates` describes, and
/// puts the buckets back in page order.
pub fn add_candidate_buckets<T>(
    groups: &mut Vec<ItemBucket<T>>,
    candidates: &Vec<InventoryMetadata>,
    expected_scope: InventoryScope,
)
    ensures
        buckets_view(final(groups)@) == sorted_buckets(
            expected_scope,
            with_candidates(buckets_view(old(groups)@), candidates@, candidates@.len() as int),
        ),
{
    let ghost start = buckets_view(groups@);
    let mut c: usize = 0;
    while c < candidates.len()
        invariant
            c <= candidates@.len(),
            buckets_view(groups@) == with_candidates(start, candidates@, c as int),
        decreases candidates.len() - c,
    {
        let meta = candidates[c];
        let key = BucketKey { scope: meta.scope, native_id: meta.native_bucket_id };
        let ghost before = buckets_view(groups@);
        proof {
            lemma_bucket_at_range(before, key, 0);
        }
        match find_bucket(groups, key) {
            Some(i) => {
                groups[i].addable = true;
                groups[i].capacity = meta.authored_row_capacity();
                groups[i].label = meta.bucket_label();
                assert(buckets_view(groups@) =~= before.update(
                    i as int,
                    (before[i as int].0, spec_bucket_label(key.scope, key.native_id), meta.bucket_capacity, true, before[i as int].4),
                ));
            },
            None => {
                groups.push(ItemBucket {
                    key,
                    label: meta.bucket_label(),
                    capacity: meta.authored_row_capacity(),
                    addable: true,
                    items: Vec::new(),
                });
                assert(buckets_view(groups@) =~= before.push(
                    (key, spec_bucket_label(key.scope, key.native_id), meta.bucket_capacity, true, Seq::empty()),
                ));
            },
        }
        c += 1;
    }
    let mut current: Vec<ItemBucket<T>> = Vec::new();
    std::mem::swap(&mut current, groups);
    *groups = sort_buckets(current, expected_scope);
}

/// A bucket's header: on a page of its own scope with a known capacity, its label with how
/// many rows the bucket holds out of its capacity; otherwise its label with its row count.
pub open spec fn header_text<T>(b: BucketView<T>, usage: BucketUsage, expected_scope: InventoryScope) -> Seq<char> {
    if b.0.scope == expected_scope && b.2 is Some {
        b.1 + " \u{b7} "@ + decimal(counted(usage, b.0.native_id) as nat) + " / "@ + decimal(b.2->0 as nat)
    } else {
        b.1 + " \u{b7} "@ + if b.4.len() == 1 {
            "1 item"@
        } else {
            decimal(b.4.len()) + " items"@
        }
    }
}

pub fn bucket_header_label<T>(group: &ItemBucket<T>, usage: &BucketUsage, expected_scope: InventoryScope) -> (label: String)
    ensures
        label@ == header_text(group.bucket_view(), *usage, expected_scope),
{
    let mut text = String::new();
    push_str(&mut text, group.label.as_str());
    push_str(&mut text, " \u{b7} ");
    if group.key.scope == expected_scope {
        if let Some(capacity) = group.capacity {
            let occupied = counted_exec(usage, group.key.native_id);
            push_decimal(&mut text, occupied as u64);
            push_str(&mut text, " / ");
            push_decimal(&mut text, capacity as u64);
            return text;
        }
    }
    let count = item_count_label(group.items.len());
    push_str(&mut text, count.as_str());
    text
}

} // verus!
