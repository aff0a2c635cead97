use verseengine::document::DocumentId;
use verseengine::loot_tables::{LastLoot, LootTable, LootTableEntry, LootTableItem, PERCENT};
use verseengine::looting::{loot_refusal, plan_loot, TableFate};

fn item(name: &str, n: u32, stock: Option<u32>) -> LootTableEntry {
    LootTableEntry::Item(LootTableItem {
        name: name.to_string(),
        probability: 100 * PERCENT,
        min: n,
        max: n,
        stock,
        secret: false,
    })
}

fn table(channel: u64, entries: Vec<LootTableEntry>, rate_limit: Option<u64>, delay: Option<u64>, last: Option<Vec<LastLoot>>) -> LootTable {
    LootTable {
        _id: None,
        universe_id: DocumentId { value: 1 },
        channel_id: channel,
        entries,
        raw_text: String::new(),
        rate_limit,
        delay,
        last_loot: last,
    }
}

fn last(who: &str, at: i64) -> Option<Vec<LastLoot>> {
    Some(vec![LastLoot { character_id: who.to_string(), timestamp: at }])
}

#[test]
fn rate_limit_counts_down() {
    let t = table(1, vec![], Some(60), None, last("abc", 1000));
    assert_eq!(t.rate_limit_wait("abc", 1010), Some(50));
    assert_eq!(t.rate_limit_wait("abc", 1060), None);
    assert_eq!(t.rate_limit_wait("xyz", 1010), None);
    assert_eq!(t.rate_limit_wait("abc", 900), None);
    let u = table(1, vec![], None, None, last("abc", 1000));
    assert_eq!(u.rate_limit_wait("abc", 1010), None);
}

#[test]
fn looting_records_the_loot_of_a_rate_limited_table() {
    let mut t = table(1, vec![item("or", 2, None)], Some(60), None, None);
    let (names, fate) = t.loot_for("abc", 500);
    assert_eq!(names, vec!["or".to_string(), "or".to_string()]);
    assert_eq!(fate, TableFate::Save);
    let rec = t.last_loot.as_ref().unwrap();
    assert_eq!(rec.len(), 1);
    assert_eq!(rec[0].timestamp, 500);
    assert_eq!(t.rate_limit_wait("abc", 500), Some(60));
}

#[test]
fn looting_an_unlimited_table_changes_nothing() {
    let mut t = table(1, vec![item("or", 1, None)], None, None, None);
    let (names, fate) = t.loot_for("abc", 500);
    assert_eq!(names.len(), 1);
    assert_eq!(fate, TableFate::Keep);
    assert!(t.last_loot.is_none());
}

#[test]
fn looting_the_last_stock_deletes_the_table() {
    let mut t = table(1, vec![item("epee", 1, Some(1))], Some(60), None, None);
    let (_, fate) = t.loot_for("abc", 500);
    assert_eq!(fate, TableFate::Delete);
    assert!(t.entries.is_empty());
    assert!(t.last_loot.is_none());
}

#[test]
fn loot_in_a_setup_channel_is_refused() {
    let out = plan_loot(Some(table(1, vec![item("or", 1, None)], None, None, None)), None, true, "abc", 0);
    assert_eq!(out.result.err().unwrap(), "loot_table__setup_channel");
    assert_eq!(out.channel_fate, TableFate::Keep);
    assert!(out.channel_items.is_empty());
}

#[test]
fn rate_limited_channel_refuses_the_loot() {
    let ch = table(1, vec![item("or", 1, None)], Some(100), None, last("abc", 0));
    let out = plan_loot(Some(ch), None, false, "abc", 30);
    assert_eq!(out.result.err().unwrap(), "error:loot_table__rate_limited:70");
}

#[test]
fn rate_limited_category_is_ignored_when_the_channel_gave() {
    let ch = table(1, vec![item("or", 1, None)], None, Some(30), None);
    let cat = table(2, vec![item("fer", 1, None)], Some(100), Some(50), last("abc", 0));
    let out = plan_loot(Some(ch), Some(cat), false, "abc", 30);
    let gain = out.result.unwrap();
    assert_eq!(gain.items, vec!["or".to_string(), "fer".to_string()]);
    assert_eq!(gain.delay, 50);
    assert_eq!(out.category_fate, TableFate::Save);
}

#[test]
fn rate_limited_category_refuses_when_the_channel_gave_nothing() {
    let cat = table(2, vec![item("fer", 1, None)], Some(100), None, last("abc", 0));
    let out = plan_loot(None, Some(cat), false, "abc", 30);
    assert_eq!(out.result.err().unwrap(), "error:loot_table__rate_limited:70");
}

#[test]
fn nothing_dropped_is_refused() {
    let ch = table(1, vec![], None, None, None);
    let out = plan_loot(Some(ch), None, false, "abc", 30);
    assert_eq!(out.result.err().unwrap(), "loot_table__no_loot_found");
    assert_eq!(out.channel_fate, TableFate::Delete);
}

#[test]
fn recording_a_loot_keeps_other_characters() {
    let mut t = table(1, vec![item("or", 1, None)], Some(60), None, Some(vec![
        LastLoot { character_id: "a".to_string(), timestamp: 10 },
        LastLoot { character_id: "b".to_string(), timestamp: 20 },
    ]));
    t.loot_for("b", 100);
    let rec = t.last_loot.as_ref().unwrap();
    assert_eq!(rec.len(), 2);
    assert_eq!((rec[0].character_id.as_str(), rec[0].timestamp), ("a", 10));
    assert_eq!((rec[1].character_id.as_str(), rec[1].timestamp), ("b", 100));
    assert_eq!(t.rate_limit_wait("a", 30), Some(40));
    assert_eq!(t.rate_limit_wait("b", 130), Some(30));
}

#[test]
fn a_busy_player_cannot_loot() {
    assert_eq!(loot_refusal(true, true, true), Some("loot_table__already_moving".to_string()));
    assert_eq!(loot_refusal(false, true, true), Some("loot_table__already_crafting".to_string()));
    assert_eq!(loot_refusal(false, false, true), Some("loot_table__already_looting".to_string()));
    assert_eq!(loot_refusal(false, false, false), None);
}
