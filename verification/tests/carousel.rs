use verseengine::carousel::{clamp_page, page_count, page_window, paginate_text, CarouselAction, CarouselConfig};
use verseengine::universe::{server_limit_allows, universe_limit_allows};
use verseengine::modifiers::{default_modifier_level, is_active_at, ModifierLevel};

fn strings(v: &[&str]) -> Vec<String> {
    v.iter().map(|s| s.to_string()).collect()
}

#[test]
fn pages_hold_their_share_of_lines() {
    let p = paginate_text(&strings(&["a", "b", "c", "d", "e"]), 2, "vide");
    assert_eq!(p, strings(&["a\nb", "c\nd", "e"]));
    assert_eq!(paginate_text(&[], 15, "vide"), strings(&["vide"]));
    assert_eq!(paginate_text(&strings(&["x"]), 15, "vide"), strings(&["x"]));
}

#[test]
fn buttons_carry_the_page_and_metadata() {
    let c = CarouselConfig { prefix: "loot_res".to_string(), current_page: 0, total_pages: 3, metadata: strings(&["u", "c"]) };
    let b = c.buttons();
    assert_eq!(b.len(), 3);
    assert_eq!(b[0].action, CarouselAction::Previous);
    assert_eq!(b[0].custom_id, "loot_res:prev:u:c:0");
    assert!(b[0].disabled);
    assert_eq!(b[1].custom_id, "loot_res:next:u:c:1");
    assert!(!b[1].disabled);
    assert_eq!(b[2].custom_id, "loot_res:refresh:u:c:0");
    let single = CarouselConfig { prefix: "p".to_string(), current_page: 0, total_pages: 1, metadata: vec![] };
    let b = single.buttons();
    assert_eq!(b.len(), 1);
    assert_eq!(b[0].custom_id, "p:refresh::0");
}

#[test]
fn free_limits() {
    assert!(universe_limit_allows(1));
    assert!(universe_limit_allows(2));
    assert!(!universe_limit_allows(3));
    assert!(server_limit_allows(0));
    assert!(server_limit_allows(1));
    assert!(!server_limit_allows(2));
    assert!(!server_limit_allows(5));
}

#[test]
fn modifiers_apply_until_their_end() {
    assert_eq!(default_modifier_level(), ModifierLevel::Player);
    assert!(is_active_at(None, 10));
    assert!(is_active_at(Some(11), 10));
    assert!(!is_active_at(Some(10), 10));
}

#[test]
fn page_arithmetic() {
    assert_eq!(clamp_page(7, 3), 2);
    assert_eq!(clamp_page(1, 3), 1);
    assert_eq!(page_count(11, 5), 3);
    assert_eq!(page_count(10, 5), 2);
    assert_eq!(page_count(0, 5), 0);
    assert_eq!(page_window(2, 5, 11), (10, 11));
    assert_eq!(page_window(0, 5, 11), (0, 5));
}
