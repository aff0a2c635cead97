use verseengine::tally::{compare_names, loot_summary_lines, sort_by_name, tally_names, Order};

fn chars(s: &str) -> Vec<char> {
    s.chars().collect()
}

fn strings(v: &[&str]) -> Vec<String> {
    v.iter().map(|s| s.to_string()).collect()
}

#[test]
fn names_compare_as_strings_do() {
    assert_eq!(compare_names(&chars("abc"), &chars("abd")), Order::Before);
    assert_eq!(compare_names(&chars("ab"), &chars("abc")), Order::Before);
    assert_eq!(compare_names(&chars("b"), &chars("abc")), Order::After);
    assert_eq!(compare_names(&chars("épée"), &chars("épée")), Order::Same);
    assert_eq!(compare_names(&chars("Z"), &chars("a")), Order::Before);
    assert_eq!(compare_names(&chars("é"), &chars("z")), Order::After);
}

#[test]
fn tally_counts_each_name_in_order() {
    let t = tally_names(&strings(&["or", "fer", "or", "bois", "or"]));
    assert_eq!(t, vec![("bois".to_string(), 1), ("fer".to_string(), 1), ("or".to_string(), 3)]);
    let total: u64 = t.iter().map(|e| e.1).sum();
    assert_eq!(total, 5);
    assert!(tally_names(&vec![]).is_empty());
}

#[test]
fn entries_sort_by_name_stably() {
    let s = sort_by_name(&strings(&["1:or:2", "2:bois:1", "3:or:5", "x", "4:arc:1"]));
    assert_eq!(s, strings(&["x", "4:arc:1", "2:bois:1", "1:or:2", "3:or:5"]));
}

#[test]
fn summary_lines_of_a_finished_loot() {
    let l = loot_summary_lines(&strings(&["aa:or:2", "bb:bois:x", "cc:arc", "dd:fer:3:9"]));
    assert_eq!(l, strings(&["- 1x bois (ID: `bb`)", "- 2x or (ID: `aa`)"]));
}
