use verseengine::loot_table_parser::{parse_min_max, LootTableParser, NameLookup};
use verseengine::loot_tables::{LootTableEntry, PERCENT};

fn chance(p: i64) -> f64 {
    p as f64 / PERCENT as f64
}

#[test]
fn parse_test_robustness() {
    let text = r#"
            or: 40, 5-20
            epee-legendaire : 5, 1, stock:1, secret

            armure-chevalier: 20.5, 1
            - plastron: 5.2, 1, stock:2
            - jambiere : 5, 1-2
            - gantelet: 5, 1-2, stock:1
            - grimoire: 1, 1, secret
        "#;

    let result = LootTableParser::parse_internal(text);

    match result {
        Err(e) => panic!("Parsing failed with syntax error: {}", e),
        Ok(entries) => {
            assert_eq!(entries.len(), 3);

            if let LootTableEntry::Item(item) = &entries[1] {
                assert_eq!(item.name, "epee-legendaire");
                assert_eq!(chance(item.probability), 5.0);
                assert_eq!(item.stock, Some(1));
                assert!(item.secret);
            } else {
                panic!("Expected Item at index 1");
            }

            if let LootTableEntry::ItemSet(set) = &entries[2] {
                assert_eq!(set.name, "armure-chevalier");
                assert_eq!(set.items.len(), 4);
                assert_eq!(set.items[0].name, "plastron");
                assert_eq!(set.items[0].stock, Some(2));
                assert_eq!(set.items[1].name, "jambiere");
                assert_eq!(set.items[2].name, "gantelet");
                assert_eq!(set.items[2].min, 1);
                assert_eq!(set.items[2].max, 2);
                assert_eq!(set.items[3].name, "grimoire");
                assert!(set.items[3].secret);
            } else {
                panic!("Expected Set at index 2");
            }
        }
    }
}

#[test]
fn parse_should_fail_on_invalid_syntax() {
    let text = "item_sans_deux_points 10, 1";
    let parse = LootTableParser::parse_text(text);
    assert!(parse.checks.is_empty());
    let result = LootTableParser::resolve(parse, &vec![]);
    assert!(result.is_err());
    assert!(result.unwrap_err().contains("Missing colon"));
}

#[test]
fn parse_test_last_item_is_pending() {
    let text = "item1: 10";
    let result = LootTableParser::parse_internal(text).unwrap();
    assert_eq!(result.len(), 1);
    if let LootTableEntry::Item(item) = &result[0] {
        assert_eq!(item.name, "item1");
    } else {
        panic!("Expected Item");
    }
}

#[test]
fn parse_test_transitions() {
    let text = r#"
            Item1: 10
            Item2: 20
            - Sub2: 5
            Item3: 30
        "#;
    let result = LootTableParser::parse_internal(text).unwrap();
    assert_eq!(result.len(), 3);

    match &result[0] {
        LootTableEntry::Item(i) => assert_eq!(i.name, "Item1"),
        _ => panic!("Expected Item1"),
    }
    match &result[1] {
        LootTableEntry::ItemSet(s) => {
            assert_eq!(s.name, "Item2");
            assert_eq!(s.items.len(), 1);
            assert_eq!(s.items[0].name, "Sub2");
        }
        _ => panic!("Expected Set Item2"),
    }
    match &result[2] {
        LootTableEntry::Item(i) => assert_eq!(i.name, "Item3"),
        _ => panic!("Expected Item3"),
    }
}

#[test]
fn parse_chance_fractions_and_signs() {
    let r = LootTableParser::parse_internal("a: 20.5\nb: .25\nc: -3\nd: +7.\ne: 1.1234567").unwrap();
    let p: Vec<i64> = r
        .iter()
        .map(|e| match e {
            LootTableEntry::Item(i) => i.probability,
            _ => panic!("item expected"),
        })
        .collect();
    assert_eq!(p, vec![20_500_000, 250_000, -3_000_000, 7_000_000, 1_123_456]);
}

#[test]
fn parse_error_messages() {
    assert_eq!(LootTableParser::parse_internal("a: 10, 3-1").unwrap_err(),
        "Error in line 'a' parameters: loot_table__invalid_min_max:3|1");
    assert_eq!(LootTableParser::parse_internal("a: x").unwrap_err(), "Error in line 'a' parameters: Invalid probability: x");
    assert_eq!(LootTableParser::parse_internal("a: ").unwrap_err(), "Error in line 'a' parameters: Missing probability");
    assert_eq!(LootTableParser::parse_internal("a: 5, 1, 2").unwrap_err(),
        "Error in line 'a' parameters: Unknown parameter '2'. Expected order: prob, quantity, stock:N, secret");
    assert_eq!(LootTableParser::parse_internal("a: 5, stock:x").unwrap_err(), "Error in line 'a' parameters: Invalid stock: stock:x");
    assert_eq!(LootTableParser::parse_internal("é: 5").unwrap_err(), "loot_table__invalid_item_name:é");
    assert_eq!(LootTableParser::parse_internal(": 5").unwrap_err(), "Empty name in line: : 5");
    assert_eq!(LootTableParser::parse_internal("- x: 5").unwrap_err(), "Item found outside of a set: - x: 5");
    assert_eq!(LootTableParser::parse_internal("a: 5\n- b 5").unwrap_err(), "Error in set item 'b 5': Missing colon in item line: b 5");
    assert_eq!(LootTableParser::parse_internal("a: 5, x-2").unwrap_err(), "Error in line 'a' parameters: Invalid min value: x");
}

#[test]
fn resolve_reports_first_missing_name() {
    let parse = LootTableParser::parse_text("a: 5\nb: 10\n- c: 1\n- d: 2");
    let names: Vec<&str> = parse.checks.iter().map(|c| c.name.as_str()).collect();
    assert_eq!(names, vec!["a", "c", "d"]);
    let r = LootTableParser::resolve(parse, &vec![NameLookup::Found, NameLookup::Missing]);
    assert_eq!(r.unwrap_err(), "Error in set item 'c: 1': Item not found: c");

    let parse = LootTableParser::parse_text("a: 5\nb: oops");
    let r = LootTableParser::resolve(parse, &vec![NameLookup::Failed("db down".to_string())]);
    assert_eq!(r.unwrap_err(), "db down");

    let parse = LootTableParser::parse_text("a: 5\nb: 6");
    let r = LootTableParser::resolve(parse, &vec![NameLookup::Found, NameLookup::Found]);
    assert_eq!(r.unwrap().len(), 2);
}

#[test]
fn quantity_ranges_run_low_to_high() {
    let c: Vec<char> = "5-2".chars().collect();
    assert_eq!(parse_min_max(&c), Err("loot_table__invalid_min_max:5|2".to_string()));
    let c: Vec<char> = " 2 - 5 ".chars().collect();
    assert_eq!(parse_min_max(&c), Ok((2, 5)));
    let c: Vec<char> = "4".chars().collect();
    assert_eq!(parse_min_max(&c), Ok((4, 4)));
}

#[test]
fn one_entry_per_header_and_every_item_looked_up() {
    let parse = LootTableParser::parse_text("\na: 5\n\nS: 10\n- c: 1\n- d: 2\nb: 3\n");
    let entries = match &parse.result {
        Ok(e) => e,
        Err(m) => panic!("{}", m),
    };
    assert_eq!(entries.len(), 3);
    match &entries[1] {
        LootTableEntry::ItemSet(s) => {
            assert_eq!(s.name, "S");
            assert_eq!(s.items.len(), 2);
        },
        LootTableEntry::Item(_) => panic!("a set was expected"),
    }
    let names: Vec<&str> = parse.checks.iter().map(|c| c.name.as_str()).collect();
    assert_eq!(names, vec!["a", "c", "d", "b"]);
}

#[test]
fn a_set_item_before_any_header_is_refused() {
    let parse = LootTableParser::parse_text("\n  \n - c: 1\na: 5");
    assert_eq!(parse.result.err(), Some("Item found outside of a set: - c: 1".to_string()));
}

#[test]
fn parse_chance_reads_exponents() {
    let r = LootTableParser::parse_internal("a: 1e2\nb: 1.5E-3\nc: -2.5e1\nd: .5e+1\ne: 5.e0\nf: 0e99999999999999999999999999999999999").unwrap();
    let p: Vec<i64> = r
        .iter()
        .map(|e| match e {
            LootTableEntry::Item(i) => i.probability,
            _ => panic!("item expected"),
        })
        .collect();
    assert_eq!(p, vec![100_000_000, 1_500, -25_000_000, 5_000_000, 5_000_000, 0]);
    // Below a millionth of a percent nothing is left; a missing mantissa or exponent is refused.
    let r = LootTableParser::parse_internal("a: 7e-99999999999999999999999999999999").unwrap();
    match &r[0] {
        LootTableEntry::Item(i) => assert_eq!(i.probability, 0),
        _ => panic!("item expected"),
    }
    assert_eq!(LootTableParser::parse_internal("a: e5").unwrap_err(), "Error in line 'a' parameters: Invalid probability: e5");
    assert_eq!(LootTableParser::parse_internal("a: 1e").unwrap_err(), "Error in line 'a' parameters: Invalid probability: 1e");
    assert_eq!(LootTableParser::parse_internal("a: 1e12").unwrap_err(), "Error in line 'a' parameters: Invalid probability: 1e12");
}
