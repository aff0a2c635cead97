use verseengine::consume::{consume_refusal, route_effects, EffectTarget};
use verseengine::document::DocumentId;
use verseengine::item::ItemUsage;
use verseengine::modifiers::ModifierLevel;

fn id(v: u128) -> DocumentId {
    DocumentId { value: v }
}

#[test]
fn busy_characters_cannot_consume() {
    assert_eq!(consume_refusal(true, false, false, ItemUsage::Consumable), Some("consume__busy".to_string()));
    assert_eq!(consume_refusal(false, false, true, ItemUsage::Usable), Some("consume__busy".to_string()));
    assert_eq!(consume_refusal(false, false, false, ItemUsage::Usable), Some("Item is not consumable".to_string()));
    assert_eq!(consume_refusal(false, false, false, ItemUsage::Consumable), None);
}

#[test]
fn effects_go_where_their_level_says() {
    let effects = vec![
        (id(2), ModifierLevel::Player),
        (id(9), ModifierLevel::Player),
        (id(1), ModifierLevel::Place),
        (id(1), ModifierLevel::Area),
        (id(1), ModifierLevel::Area),
        (id(1), ModifierLevel::Universe),
    ];
    let r = route_effects(&effects, &vec![id(1), id(2), id(2)], false, true, false);
    assert_eq!(r, vec![
        EffectTarget::CharacterStat(1),
        EffectTarget::Nowhere,
        EffectTarget::Place,
        EffectTarget::NewArea,
        EffectTarget::Area,
        EffectTarget::Nowhere,
    ]);
    let r2 = route_effects(&effects[2..4].to_vec(), &vec![], true, true, true);
    assert_eq!(r2, vec![EffectTarget::Road, EffectTarget::Area]);
    let r3 = route_effects(&vec![(id(1), ModifierLevel::Place)], &vec![], false, false, false);
    assert_eq!(r3, vec![EffectTarget::Nowhere]);
}
