use verseengine::document::DocumentId;
use verseengine::recipe_parser::ItemLookup;
use verseengine::transfer::{deltas, ItemDelta, Transfer};

fn id(v: u128) -> DocumentId {
    DocumentId { value: v }
}

#[test]
fn request_lines_are_split_at_the_last_space() {
    let lines = Transfer::parse_lines("> Épée longue 2\n\n< bois\n>pierre x\n< fer  3");
    assert_eq!(lines.len(), 4);
    assert_eq!(lines[0].mode, '>');
    assert_eq!(lines[0].name, "Épée longue");
    assert_eq!(lines[0].qty, 2);
    assert_eq!(lines[1].mode, '<');
    assert_eq!(lines[1].name, "bois");
    assert_eq!(lines[1].qty, 1);
    assert_eq!(lines[2].name, "pierre");
    assert_eq!(lines[2].qty, 1);
    assert_eq!(lines[3].name, "fer ");
    assert_eq!(lines[3].qty, 3);
}

#[test]
fn request_lines_must_start_with_ascii() {
    assert!(Transfer::starts_ascii("> a 1\n  \n< b"));
    assert!(!Transfer::starts_ascii("> a 1\né 2"));
}

#[test]
fn listings_keep_the_last_entry_of_an_item() {
    let t = Transfer::new(&vec![(id(1), 3), (id(2), 4), (id(1), 5)], &vec![]);
    assert_eq!(t.tool, vec![(id(1), 5), (id(2), 4)]);
}

#[test]
fn taking_from_the_tool_moves_items() {
    let mut t = Transfer::new(&vec![(id(1), 3)], &vec![(id(2), 1)]);
    let lines = Transfer::parse_lines("> or 2");
    assert_eq!(t.step(&lines[0], &ItemLookup::Found(id(1))), Some(Ok(())));
    assert_eq!(t.tool, vec![(id(1), 1)]);
    assert_eq!(t.character, vec![(id(2), 1), (id(1), 2)]);
}

#[test]
fn giving_to_the_tool_moves_items() {
    let mut t = Transfer::new(&vec![], &vec![(id(2), 5)]);
    let lines = Transfer::parse_lines("< bois 5");
    assert_eq!(t.step(&lines[0], &ItemLookup::Found(id(2))), Some(Ok(())));
    assert_eq!(t.character, vec![(id(2), 0)]);
    assert_eq!(t.tool, vec![(id(2), 5)]);
}

#[test]
fn transfer_errors() {
    let mut t = Transfer::new(&vec![(id(1), 1)], &vec![]);
    let lines = Transfer::parse_lines("> or 2\n< or 1");
    assert_eq!(t.step(&lines[0], &ItemLookup::Found(id(1))), Some(Err("Not enough or in tool".to_string())));
    assert_eq!(t.step(&lines[1], &ItemLookup::Found(id(1))), Some(Err("Not enough or in character inventory".to_string())));
    assert_eq!(t.step(&lines[0], &ItemLookup::Missing), Some(Err("Item not found: or".to_string())));
    assert_eq!(t.step(&lines[0], &ItemLookup::Failed("db".to_string())), Some(Err("db".to_string())));
    assert_eq!(t.tool, vec![(id(1), 1)]);
}

#[test]
fn other_directions_are_ignored() {
    let mut t = Transfer::new(&vec![(id(1), 1)], &vec![]);
    let lines = Transfer::parse_lines("= or 1");
    assert_eq!(t.step(&lines[0], &ItemLookup::Found(id(1))), Some(Ok(())));
    assert_eq!(t.tool, vec![(id(1), 1)]);
}

#[test]
fn count_overflow_is_reported() {
    let mut t = Transfer::new(&vec![(id(1), 1)], &vec![(id(1), u64::MAX)]);
    let lines = Transfer::parse_lines("> or 1");
    assert_eq!(t.step(&lines[0], &ItemLookup::Found(id(1))), None);
    assert_eq!(t.tool, vec![(id(1), 1)]);
}

#[test]
fn tool_size_is_checked() {
    let t = Transfer::new(&vec![(id(1), 3), (id(2), 4)], &vec![]);
    assert_eq!(t.check_size(7), Some(Ok(())));
    assert_eq!(t.check_size(6), Some(Err("Inventory size exceeded: 7/6".to_string())));
    let big = Transfer::new(&vec![(id(1), u64::MAX), (id(2), 1)], &vec![]);
    assert_eq!(big.check_size(6), None);
}

#[test]
fn deltas_list_what_changed() {
    let before = vec![(id(1), 3), (id(2), 4)];
    let after = vec![(id(1), 5), (id(2), 4), (id(3), 0), (id(4), 2)];
    let d = deltas(&before, &after);
    assert_eq!(d, vec![(id(1), ItemDelta::Add(2)), (id(4), ItemDelta::Add(2))]);
    let d2 = deltas(&after, &before);
    assert_eq!(d2, vec![(id(1), ItemDelta::Remove(2))]);
}

#[test]
fn accepted_lines_conserve_items() {
    let mut t = Transfer::new(&vec![(id(1), 4), (id(2), 2)], &vec![(id(1), 1)]);
    let lines = Transfer::parse_lines("> a 3\n< a 2\n> b 2");
    let lookups = vec![ItemLookup::Found(id(1)), ItemLookup::Found(id(1)), ItemLookup::Found(id(2))];
    for (l, k) in lines.iter().zip(lookups.iter()) {
        assert_eq!(t.step(l, k), Some(Ok(())));
    }
    let count = |v: &Vec<(DocumentId, u64)>, x: DocumentId| v.iter().find(|e| e.0 == x).map(|e| e.1).unwrap_or(0);
    assert_eq!(count(&t.tool, id(1)) + count(&t.character, id(1)), 5);
    assert_eq!(count(&t.tool, id(2)) + count(&t.character, id(2)), 2);
    assert_eq!(count(&t.tool, id(1)), 3);
}
