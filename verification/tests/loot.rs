use verseengine::document::DocumentId;
use verseengine::loot_tables::{LootTable, LootTableEntry, LootTableItem, LootTableSet, PERCENT};

fn table(entries: Vec<LootTableEntry>) -> LootTable {
    LootTable {
        _id: None,
        universe_id: DocumentId { value: 7 },
        channel_id: 123,
        entries,
        raw_text: "".to_string(),
        rate_limit: None,
        delay: None,
        last_loot: None,
    }
}

fn item(name: &str, percent: i64, min: u32, max: u32, stock: Option<u32>) -> LootTableItem {
    LootTableItem { name: name.to_string(), probability: percent * PERCENT, min, max, stock, secret: false }
}

#[test]
fn test_roll_min_max_inclusive() {
    for _ in 0..100 {
        let mut found_item_1 = false;
        let mut found_item_2 = false;
        let mut table = table(vec![LootTableEntry::Item(item("I", 100, 1, 2, None))]);
        for _ in 0..1000 {
            let (items, _) = table.roll();
            if items.len() == 1 { found_item_1 = true; }
            if items.len() == 2 { found_item_2 = true; }
            if found_item_1 && found_item_2 { break; }
        }
        assert!(found_item_1, "Item min (1) non tiré");
        assert!(found_item_2, "Item max (2) non tiré");
    }

    for _ in 0..100 {
        let mut found_set_picks_1 = false;
        let mut found_set_picks_2 = false;
        let mut table = table(vec![LootTableEntry::ItemSet(LootTableSet {
            name: "S".to_string(),
            probability: 100 * PERCENT,
            min: 1,
            max: 2,
            stock: None,
            items: vec![item("SI", 100, 1, 1, None)],
            secret: false,
        })]);
        for _ in 0..1000 {
            let (items, _) = table.roll();
            if items.len() == 1 { found_set_picks_1 = true; }
            if items.len() == 2 { found_set_picks_2 = true; }
            if found_set_picks_1 && found_set_picks_2 { break; }
        }
        assert!(found_set_picks_1, "Set picks min (1) non tiré");
        assert!(found_set_picks_2, "Set picks max (2) non tiré");
    }

    for _ in 0..100 {
        let mut found_set_item_qty_1 = false;
        let mut found_set_item_qty_2 = false;
        let mut table = table(vec![LootTableEntry::ItemSet(LootTableSet {
            name: "S".to_string(),
            probability: 100 * PERCENT,
            min: 1,
            max: 1,
            stock: None,
            items: vec![item("SI", 100, 1, 2, None)],
            secret: false,
        })]);
        for _ in 0..1000 {
            let (items, _) = table.roll();
            if items.len() == 1 { found_set_item_qty_1 = true; }
            if items.len() == 2 { found_set_item_qty_2 = true; }
            if found_set_item_qty_1 && found_set_item_qty_2 { break; }
        }
        assert!(found_set_item_qty_1, "Set item qty min (1) non tiré");
        assert!(found_set_item_qty_2, "Set item qty max (2) non tiré");
    }
}

#[test]
fn test_roll_item_no_stock() {
    let mut table = table(vec![LootTableEntry::Item(item("Gold", 100, 10, 10, None))]);
    let (items, updated) = table.roll();
    assert_eq!(items.len(), 10);
    assert_eq!(items[0], "Gold");
    assert!(!updated);
}

#[test]
fn test_roll_item_with_stock() {
    let mut table = table(vec![LootTableEntry::Item(item("Sword", 100, 1, 1, Some(1)))]);
    let (items, updated) = table.roll();
    assert_eq!(items.len(), 1);
    assert!(updated);
    assert!(table.entries.is_empty());
}

#[test]
fn test_roll_set_weighted() {
    let mut table = table(vec![LootTableEntry::ItemSet(LootTableSet {
        name: "ArmorSet".to_string(),
        probability: 100 * PERCENT,
        min: 2,
        max: 2,
        stock: None,
        items: vec![item("Helmet", 1, 1, 1, None), item("Boots", 99, 1, 1, None)],
        secret: false,
    })]);
    let (items, _updated) = table.roll();
    assert_eq!(items.len(), 2);
}

#[test]
fn test_roll_set_stock_depletion() {
    let mut table = table(vec![LootTableEntry::ItemSet(LootTableSet {
        name: "LimitedSet".to_string(),
        probability: 100 * PERCENT,
        min: 1,
        max: 1,
        stock: Some(1),
        items: vec![item("RareItem", 100, 1, 1, None)],
        secret: false,
    })]);
    let (items, updated) = table.roll();
    assert_eq!(items.len(), 1);
    assert!(updated);
    assert!(table.entries.is_empty());
}

#[test]
fn test_roll_set_empty_items_depletion() {
    let mut table = table(vec![LootTableEntry::ItemSet(LootTableSet {
        name: "One-time Set".to_string(),
        probability: 100 * PERCENT,
        min: 1,
        max: 1,
        stock: None,
        items: vec![item("Unique Item", 100, 1, 1, Some(1))],
        secret: false,
    })]);
    let (items, updated) = table.roll();
    assert_eq!(items.len(), 1);
    assert!(updated);
    assert!(table.entries.is_empty());
}

#[test]
fn roll_skips_out_of_stock_and_never_rolls_negative_chance() {
    let mut table = table(vec![
        LootTableEntry::Item(item("Empty", 100, 1, 1, Some(0))),
        LootTableEntry::Item(item("Never", -1, 1, 1, None)),
    ]);
    let (items, updated) = table.roll();
    assert!(items.is_empty());
    assert!(updated);
    assert_eq!(table.entries.len(), 1);
}

#[test]
fn stock_operations() {
    let mut it = item("x", 1, 1, 1, Some(1));
    assert!(!it.is_out_of_stock());
    assert!(it.decrement_stock());
    assert!(it.is_out_of_stock());
    assert!(!it.decrement_stock());
    assert_eq!(it.stock, Some(0));
    let mut unlimited = item("y", 1, 1, 1, None);
    assert!(!unlimited.decrement_stock());
    assert_eq!(unlimited.stock, None);
    assert!(!LootTableEntry::Item(unlimited).is_out_of_stock());
}

#[test]
fn roll_reports_exactly_the_changes() {
    let mut t = table(vec![LootTableEntry::Item(item("Arc", 100, 2, 2, Some(3)))]);
    let (items, updated) = t.roll();
    assert_eq!(items, vec!["Arc".to_string(), "Arc".to_string()]);
    assert!(updated);
    match &t.entries[0] {
        LootTableEntry::Item(i) => assert_eq!(i.stock, Some(2)),
        _ => panic!("Expected Item"),
    }
    let mut u = table(vec![LootTableEntry::Item(item("Arc", 100, 1, 3, None))]);
    let (items, updated) = u.roll();
    assert!(!updated);
    assert!(items.len() >= 1 && items.len() <= 3);
    match &u.entries[0] {
        LootTableEntry::Item(i) => assert_eq!(i.stock, None),
        _ => panic!("Expected Item"),
    }
}

fn set(name: &str, percent: i64, min: u32, max: u32, stock: Option<u32>, items: Vec<LootTableItem>) -> LootTableSet {
    LootTableSet { name: name.to_string(), probability: percent * PERCENT, min, max, stock, items, secret: false }
}

#[test]
fn roll_with_reads_the_drop_and_the_quantity() {
    let mut t = table(vec![LootTableEntry::Item(item("I", 100, 1, 3, None))]);
    // A drop draw of 5 hits a certain drop; a quantity draw of 1 gives 1 + 1 % 3.
    let (names, changed) = t.roll_with(vec![5, 1]);
    assert_eq!(names, vec!["I".to_string(), "I".to_string()]);
    assert!(!changed);
    assert_eq!(t.entries.len(), 1);
}

#[test]
fn roll_with_misses_above_the_chance() {
    let mut t = table(vec![LootTableEntry::Item(item("I", 50, 1, 1, None))]);
    let (names, changed) = t.roll_with(vec![60_000_000]);
    assert!(names.is_empty());
    assert!(!changed);
    // The drop draw is reduced below a hundred percent: 150_000_000 reads as 50_000_000, a hit.
    let (names, _) = t.roll_with(vec![150_000_000, 0]);
    assert_eq!(names, vec!["I".to_string()]);
}

#[test]
fn roll_with_reads_zeros_once_the_draws_are_spent() {
    let mut t = table(vec![LootTableEntry::Item(item("I", 1, 4, 9, None))]);
    let (names, _) = t.roll_with(vec![]);
    assert_eq!(names.len(), 4);
}

#[test]
fn roll_with_takes_stock_and_drops_what_ran_out() {
    let mut t = table(vec![
        LootTableEntry::Item(item("Last", 100, 1, 1, Some(1))),
        LootTableEntry::Item(item("Kept", 0, 1, 1, None)),
    ]);
    let (names, changed) = t.roll_with(vec![0, 0, 99_000_000]);
    assert_eq!(names, vec!["Last".to_string()]);
    assert!(changed);
    assert_eq!(t.entries.len(), 1);
    match &t.entries[0] {
        LootTableEntry::Item(i) => assert_eq!(i.name, "Kept"),
        LootTableEntry::ItemSet(_) => panic!("an item was expected"),
    }
}

#[test]
fn roll_with_picks_set_items_by_weight() {
    let mut t = table(vec![LootTableEntry::ItemSet(set(
        "S",
        100,
        2,
        2,
        None,
        vec![item("A", 30, 1, 1, None), item("B", 70, 1, 1, None)],
    ))]);
    // Set drop, picks 2 + 0, then a weight draw below 30% picks A and one above picks B.
    let (names, changed) = t.roll_with(vec![0, 0, 10, 0, 50_000_000, 0]);
    assert_eq!(names, vec!["A".to_string(), "B".to_string()]);
    assert!(!changed);
    // A weight draw is reduced modulo the total weight: 130_000_000 reads as 30_000_000, which is B.
    let (names, _) = t.roll_with(vec![0, 0, 130_000_000, 0, 0, 0]);
    assert_eq!(names, vec!["B".to_string(), "A".to_string()]);
}
