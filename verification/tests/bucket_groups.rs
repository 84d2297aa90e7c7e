use std::collections::HashMap;

use sundial::bucket_groups::{add_candidate_buckets, bucket_header_label, group_items_by_bucket};
use sundial::inventory_page::{
    BucketKey, BucketUsage, InventoryMetadata, InventoryScope, ItemStackability,
};

fn meta(scope: InventoryScope, bucket: u8, capacity: Option<u16>) -> InventoryMetadata {
    InventoryMetadata {
        scope,
        native_bucket_id: bucket,
        stackability: ItemStackability::Instanced,
        max_stack_size: None,
        bucket_capacity: capacity,
    }
}

fn catalog() -> Vec<(u64, InventoryMetadata)> {
    vec![
        (100, meta(InventoryScope::Character, 5, Some(9))),
        (101, meta(InventoryScope::Character, 0, Some(9))),
        (102, meta(InventoryScope::Character, 5, Some(4))),
        (200, meta(InventoryScope::Profile, 21, None)),
    ]
}

#[test]
fn rows_are_grouped_by_bucket_in_page_order() {
    let rows = vec![
        (Some(100), "chest a"),
        (Some(200), "glimmer"),
        (Some(101), "kinetic"),
        (Some(102), "chest b"),
        (Some(999), "unknown"),
        (None, "no hash"),
    ];
    let groups = group_items_by_bucket(&catalog(), rows, InventoryScope::Character);
    let keys: Vec<BucketKey> = groups.iter().map(|g| g.key).collect();
    assert_eq!(
        keys,
        vec![
            BucketKey { scope: InventoryScope::Character, native_id: 0 },
            BucketKey { scope: InventoryScope::Character, native_id: 5 },
            BucketKey { scope: InventoryScope::Profile, native_id: 21 },
            BucketKey { scope: InventoryScope::Unknown, native_id: 0 },
        ]
    );
    assert_eq!(groups[0].label, "Kinetic weapons");
    assert_eq!(groups[1].label, "Chest armor");
    assert_eq!(groups[1].items, vec!["chest a", "chest b"]);
    assert_eq!(groups[1].capacity, Some(9));
    assert_eq!(groups[2].label, "Glimmer");
    assert_eq!(groups[3].items, vec!["unknown", "no hash"]);
    assert_eq!(groups[3].label, "Unknown bucket 0");
    assert!(groups.iter().all(|g| !g.addable));
}

#[test]
fn candidate_buckets_become_addable_and_missing_ones_are_added() {
    let rows = vec![(Some(100), 1u32)];
    let mut groups = group_items_by_bucket(&catalog(), rows, InventoryScope::Character);
    add_candidate_buckets(
        &mut groups,
        &vec![
            meta(InventoryScope::Character, 5, Some(12)),
            meta(InventoryScope::Character, 1, Some(9)),
        ],
        InventoryScope::Character,
    );
    assert_eq!(groups.len(), 2);
    assert_eq!(groups[0].key.native_id, 1);
    assert!(groups[0].addable);
    assert!(groups[0].items.is_empty());
    assert_eq!(groups[0].label, "Energy weapons");
    assert_eq!(groups[1].key.native_id, 5);
    assert!(groups[1].addable);
    assert_eq!(groups[1].capacity, Some(12));
    assert_eq!(groups[1].items, vec![1]);
}

#[test]
fn bucket_headers_show_occupancy_or_row_counts() {
    let rows = vec![(Some(100), ()), (Some(100), ()), (Some(200), ())];
    let groups = group_items_by_bucket(&catalog(), rows, InventoryScope::Character);
    let mut counts = HashMap::new();
    counts.insert(5u8, 3usize);
    let usage = BucketUsage { counts, unresolved_count: 0, occupancy_complete: true };
    assert_eq!(
        bucket_header_label(&groups[0], &usage, InventoryScope::Character),
        "Chest armor \u{b7} 3 / 9"
    );
    assert_eq!(
        bucket_header_label(&groups[1], &usage, InventoryScope::Character),
        "Glimmer \u{b7} 1 item"
    );
    assert_eq!(
        bucket_header_label(&groups[0], &usage, InventoryScope::Profile),
        "Chest armor \u{b7} 2 items"
    );
}
