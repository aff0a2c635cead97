use verseengine::document::DocumentId;
use verseengine::effect_parser::{EffectParser, StatLookup};
use verseengine::modifiers::ModifierLevel;

#[test]
fn levels_are_read_whatever_their_case() {
    assert_eq!(EffectParser::try_parse_level("JOUEUR"), Some(ModifierLevel::Player));
    assert_eq!(EffectParser::try_parse_level("player"), Some(ModifierLevel::Player));
    assert_eq!(EffectParser::try_parse_level("Salon"), Some(ModifierLevel::Place));
    assert_eq!(EffectParser::try_parse_level("Endroit"), Some(ModifierLevel::Place));
    assert_eq!(EffectParser::try_parse_level("CATÉGORIE"), Some(ModifierLevel::Area));
    assert_eq!(EffectParser::try_parse_level("lieu"), Some(ModifierLevel::Area));
    assert_eq!(EffectParser::try_parse_level("Universe"), Some(ModifierLevel::Universe));
    assert_eq!(EffectParser::try_parse_level("monde"), None);
    assert_eq!(EffectParser::level_named("univers"), Some(ModifierLevel::Universe));
    assert_eq!(EffectParser::level_named("UNIVERS"), None);
}

#[test]
fn durations_are_recognised() {
    assert!(EffectParser::is_duration("10m"));
    assert!(EffectParser::is_duration("3J"));
    assert!(EffectParser::is_duration("5s"));
    assert!(!EffectParser::is_duration("m10"));
    assert!(!EffectParser::is_duration("10x"));
    assert!(!EffectParser::is_duration(""));
    assert!(EffectParser::is_duration_word("2h"));
    assert!(!EffectParser::is_duration_word("2H"));
}

#[test]
fn durations_are_read_in_seconds() {
    assert_eq!(EffectParser::parse_duration_to_seconds("10m"), Ok(600));
    assert_eq!(EffectParser::parse_duration_to_seconds("2H"), Ok(7200));
    assert_eq!(EffectParser::parse_duration_to_seconds("3d"), Ok(259200));
    assert_eq!(EffectParser::parse_duration_to_seconds("3j"), Ok(259200));
    assert_eq!(EffectParser::parse_duration_to_seconds(" 5s "), Ok(5));
    assert_eq!(EffectParser::parse_duration_to_seconds("45"), Ok(2700));
    assert_eq!(EffectParser::parse_duration_to_seconds("7 h"), Ok(25200));
}

#[test]
fn duration_errors() {
    assert_eq!(EffectParser::parse_duration_to_seconds("abc"), Err("Durée invalide: abc".to_string()));
    assert_eq!(EffectParser::parse_duration_to_seconds("5X"), Err("Unité de temps inconnue: x".to_string()));
    assert_eq!(
        EffectParser::parse_duration_to_seconds("99999999999999999999s"),
        Err("Nombre invalide dans la durée: 99999999999999999999s".to_string())
    );
    assert_eq!(EffectParser::seconds_of_lowercase("12s"), Ok(12));
}

#[test]
fn duration_overflow_is_reported() {
    assert_eq!(EffectParser::checked_duration_to_seconds("999999999999999999d"), None);
    assert_eq!(EffectParser::checked_duration_to_seconds("2m"), Some(Ok(120)));
    assert_eq!(EffectParser::checked_duration_to_seconds("q"), Some(Err("Durée invalide: q".to_string())));
}

#[test]
fn effect_lines_are_read() {
    let lines = EffectParser::parse_text("Force: +5 10m joueur\nVitesse: x1.2 1h endroit\nHP: 10 flat univers\n# note\nsans deux points\nMana:\n");
    assert_eq!(lines.len(), 4);
    assert_eq!(lines[0].stat_name, "Force");
    let b = lines[0].body.as_ref().unwrap();
    assert_eq!(b.value, "+5");
    assert_eq!(b.duration.as_deref(), Some("10m"));
    assert_eq!(b.level, ModifierLevel::Player);
    let b = lines[1].body.as_ref().unwrap();
    assert_eq!(b.value, "x1.2");
    assert_eq!(b.duration.as_deref(), Some("1h"));
    assert_eq!(b.level, ModifierLevel::Place);
    let b = lines[2].body.as_ref().unwrap();
    assert_eq!(b.value, "10 flat");
    assert_eq!(b.duration, None);
    assert_eq!(b.level, ModifierLevel::Universe);
    assert_eq!(lines[3].stat_name, "Mana");
    assert!(lines[3].body.is_none());
}

#[test]
fn flat_word_is_joined_to_value() {
    let lines = EffectParser::parse_text("Force: 5 FLAT\nAgi: 5flat flat\nEnd: 3 2m 4h lieu joueur");
    assert_eq!(lines[0].body.as_ref().unwrap().value, "5 flat");
    assert_eq!(lines[1].body.as_ref().unwrap().value, "5flat");
    let b = lines[2].body.as_ref().unwrap();
    assert_eq!(b.duration.as_deref(), Some("4h"));
    assert_eq!(b.level, ModifierLevel::Player);
}

#[test]
fn only_text_before_second_colon_is_read() {
    let lines = EffectParser::parse_text("Force: 5 : 10m");
    assert_eq!(lines[0].body.as_ref().unwrap().value, "5");
    assert_eq!(lines[0].body.as_ref().unwrap().duration, None);
}

#[test]
fn lines_are_resolved_with_their_stat() {
    let lines = EffectParser::parse_text("Force: +5 10m joueur\nMana:\nVie: 3 99999999999999999999999m");
    let id = DocumentId { value: 42 };
    let e = EffectParser::resolve_line(&lines[0], &StatLookup::Found(id)).unwrap().unwrap().unwrap();
    assert_eq!(e.stat_id, id);
    assert_eq!(e.value, "+5");
    assert_eq!(e.end_timestamp, Some(600));
    assert_eq!(e.level, ModifierLevel::Player);
    assert!(EffectParser::resolve_line(&lines[1], &StatLookup::Found(id)).unwrap().unwrap().is_none());
    assert_eq!(
        EffectParser::resolve_line(&lines[0], &StatLookup::Missing).unwrap().unwrap_err(),
        "Stat non trouvée: Force"
    );
    assert_eq!(
        EffectParser::resolve_line(&lines[0], &StatLookup::Failed("down".to_string())).unwrap().unwrap_err(),
        "Erreur DB lors de la recherche de la stat Force: down"
    );
    assert_eq!(
        EffectParser::resolve_line(&lines[2], &StatLookup::Found(id)).unwrap().unwrap_err(),
        "Nombre invalide dans la durée: 99999999999999999999999m"
    );
}
