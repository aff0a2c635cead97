use verseengine::sheet::{nickname, check_owner, may_moderate, parse_i64, read_sheet, unset_stats, SheetValue, StatKind};

fn strings(v: &[&str]) -> Vec<String> {
    v.iter().map(|s| s.to_string()).collect()
}

fn chars(s: &str) -> Vec<char> {
    s.chars().collect()
}

#[test]
fn integers_parse_as_i64_does() {
    assert_eq!(parse_i64(&chars("42")), Some(42));
    assert_eq!(parse_i64(&chars("-42")), Some(-42));
    assert_eq!(parse_i64(&chars("+7")), Some(7));
    assert_eq!(parse_i64(&chars("-9223372036854775808")), Some(i64::MIN));
    assert_eq!(parse_i64(&chars("9223372036854775808")), None);
    assert_eq!(parse_i64(&chars("-")), None);
    assert_eq!(parse_i64(&chars("1.5")), None);
}

#[test]
fn sheet_sets_the_first_stat_each_line_names() {
    let names = strings(&["Force", "Vitesse", "Nom", "Vivant"]);
    let kinds = vec![StatKind::Int, StatKind::Float, StatKind::Text, StatKind::Bool];
    let r = read_sheet("Force: 12\nVitesse : 1.5\r\nrien\nNom: Aria  \nVivant: true\n", &names, &kinds).unwrap();
    assert_eq!(r.len(), 4);
    assert_eq!(r[0].stat, 0);
    assert!(matches!(r[0].value, SheetValue::Int(12)));
    assert_eq!(r[1].stat, 1);
    assert!(matches!(&r[1].value, SheetValue::FloatText(t) if t == "1.5"));
    assert!(matches!(&r[2].value, SheetValue::Text(t) if t == "Aria"));
    assert!(matches!(r[3].value, SheetValue::Bool(true)));
    assert!(unset_stats(&r, &names).is_empty());
}

#[test]
fn sheet_value_of_wrong_kind_is_refused() {
    let names = strings(&["Force"]);
    let kinds = vec![StatKind::Int];
    assert!(read_sheet("Force: beaucoup", &names, &kinds).is_none());
    let bools = vec![StatKind::Bool];
    assert!(read_sheet("Force: True", &names, &bools).is_none());
}

#[test]
fn unset_stats_keep_their_default() {
    let names = strings(&["Force", "Agilité", "Force"]);
    let kinds = vec![StatKind::Int, StatKind::Int, StatKind::Int];
    let r = read_sheet("Force:3", &names, &kinds).unwrap();
    assert!(read_sheet("Force 3", &names, &kinds).is_none());
    assert_eq!(r.len(), 1);
    assert!(matches!(r[0].value, SheetValue::Int(3)));
    assert_eq!(unset_stats(&r, &names), vec![1]);
}

#[test]
fn moderators_are_recognised() {
    assert!(may_moderate(true, &vec![], None, None));
    assert!(may_moderate(false, &vec![3, 4], Some(4), None));
    assert!(may_moderate(false, &vec![3, 4], Some(9), Some(3)));
    assert!(!may_moderate(false, &vec![3, 4], Some(9), None));
}

#[test]
fn owners_are_checked() {
    assert_eq!(check_owner(12, Some("12")), Ok(()));
    assert_eq!(check_owner(12, Some("13")), Err("create_character__not_owner".to_string()));
    assert_eq!(check_owner(12, Some("x")), Err("create_character__invalid_footer".to_string()));
    assert_eq!(check_owner(12, None), Err("create_character__invalid_footer".to_string()));
}

#[test]
fn nicknames_fit_in_thirty_two_characters() {
    assert_eq!(nickname("Aria", "bob"), "Aria│bob");
    let long_player = "p".repeat(27);
    assert_eq!(nickname("Aria", &long_player), format!("Aria│{}", long_player));
    let too_long = "p".repeat(28);
    assert_eq!(nickname("Aria", &too_long), "Aria");
}
