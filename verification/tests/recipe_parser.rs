use verseengine::document::DocumentId;
use verseengine::recipe_parser::{ItemLookup, RecipeLineKind, RecipeParser};

fn id(v: u128) -> DocumentId {
    DocumentId { value: v }
}

#[test]
fn parse_line_reads_name_and_quantity() {
    assert_eq!(RecipeParser::parse_line("épée 3"), Ok(("épée".to_string(), 3)));
    assert_eq!(RecipeParser::parse_line("  potion   de soin  12 "), Ok(("potion de soin".to_string(), 12)));
    assert_eq!(RecipeParser::parse_line("potion de soin"), Ok(("potion de soin".to_string(), 1)));
    assert_eq!(RecipeParser::parse_line("bois +4"), Ok(("bois".to_string(), 4)));
}

#[test]
fn parse_line_single_number_is_a_name() {
    assert_eq!(RecipeParser::parse_line("7"), Ok(("7".to_string(), 1)));
    assert_eq!(RecipeParser::parse_line("fer -2"), Ok(("fer -2".to_string(), 1)));
}

#[test]
fn parse_line_rejects_empty_content() {
    assert_eq!(RecipeParser::parse_line("   "), Err("recipe__invalid_line".to_string()));
    assert_eq!(RecipeParser::parse_line(""), Err("recipe__invalid_line".to_string()));
}

#[test]
fn recipe_text_is_read_into_lines() {
    let p = RecipeParser::parse_text("> Pain 2\n< Farine 3\n# note\n\n< Eau\n- Four  à pain \nautre ligne");
    assert!(p.stop.is_none());
    assert_eq!(p.lines.len(), 4);
    assert_eq!(p.lines[0].kind, RecipeLineKind::Result);
    assert_eq!(p.lines[0].name, "Pain");
    assert_eq!(p.lines[0].qty, 2);
    assert_eq!(p.lines[1].kind, RecipeLineKind::Ingredient);
    assert_eq!(p.lines[1].qty, 3);
    assert_eq!(p.lines[2].name, "Eau");
    assert_eq!(p.lines[2].qty, 1);
    assert_eq!(p.lines[3].kind, RecipeLineKind::Tool);
    assert_eq!(p.lines[3].name, "Four  à pain");
}

#[test]
fn recipe_resolves_with_found_items() {
    let p = RecipeParser::parse_text("> Pain 2\n< Farine 3\n< Eau\n- Four");
    let lookups = vec![ItemLookup::Found(id(1)), ItemLookup::Found(id(2)), ItemLookup::Found(id(3)), ItemLookup::Found(id(4))];
    let r = RecipeParser::resolve(p, &lookups).unwrap();
    assert_eq!(r.result, vec![(2, id(1))]);
    assert_eq!(r.ingredients, vec![(3, id(2)), (1, id(3))]);
    assert_eq!(r.tools_needed, vec![id(4)]);
}

#[test]
fn recipe_missing_item_is_named() {
    let p = RecipeParser::parse_text("> Pain 2\n< Farine 3");
    let r = RecipeParser::resolve(p, &vec![ItemLookup::Found(id(1)), ItemLookup::Missing]);
    assert_eq!(r.unwrap_err(), "recipe__item_not_found:Farine");
}

#[test]
fn recipe_lookup_failure_is_reported() {
    let p = RecipeParser::parse_text("> Pain 2\n< Farine 3");
    let r = RecipeParser::resolve(p, &vec![ItemLookup::Failed("timeout".to_string())]);
    assert_eq!(r.unwrap_err(), "Erreur DB: timeout");
}

#[test]
fn recipe_with_only_tools_is_empty() {
    let p = RecipeParser::parse_text("- Four\n# rien d'autre");
    let r = RecipeParser::resolve(p, &vec![ItemLookup::Found(id(9))]);
    assert_eq!(r.unwrap_err(), "recipe__empty_recipe");
}

#[test]
fn recipe_invalid_line_stops_reading() {
    let p = RecipeParser::parse_text("> Pain 2\n<   \n< Farine");
    assert_eq!(p.lines.len(), 1);
    assert_eq!(p.stop.as_deref(), Some("recipe__invalid_line"));
    let r = RecipeParser::resolve(p, &vec![ItemLookup::Found(id(1))]);
    assert_eq!(r.unwrap_err(), "recipe__invalid_line");
}

#[test]
fn recipe_lookup_error_comes_before_invalid_line() {
    let p = RecipeParser::parse_text("> Pain 2\n<   ");
    let r = RecipeParser::resolve(p, &vec![ItemLookup::Missing]);
    assert_eq!(r.unwrap_err(), "recipe__item_not_found:Pain");
}
