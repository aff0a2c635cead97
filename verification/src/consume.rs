//! Consuming an item: who may, and where each of its effects goes.
use vstd::prelude::*;
use crate::document::DocumentId;
use crate::modifiers::ModifierLevel;
use crate::item::ItemUsage;

verus! {

/// Why an item cannot be consumed now, if it cannot: the character is busy
/// travelling, crafting or looting, or the item is not consumable.
pub open spec fn consume_refusal_spec(in_move: bool, crafting: bool, looting: bool, usage: ItemUsage) -> Option<Seq<char>> {
    if in_move || crafting || looting {
        Some("consume__busy"@)
    } else if !(usage is Consumable) {
        Some("Item is not consumable"@)
    } else {
        None
    }
}

pub fn consume_refusal(in_move: bool, crafting: bool, looting: bool, usage: ItemUsage) -> (r: Option<String>)
    ensures
        match (r, consume_refusal_spec(in_move, crafting, looting, usage)) {
            (None, None) => true,
            (Some(a), Some(b)) => a@ == b,
            _ => false,
        },
{
    if in_move || crafting || looting {
        Some(String::from_str("consume__busy"))
    } else {
        match usage {
            ItemUsage::Consumable => None,
            _ => Some(String::from_str("Item is not consumable")),
        }
    }
}

/// Where one effect of a consumed item goes.
#[derive(Debug, Clone, Copy, PartialEq, Eq, Structural)]
pub enum EffectTarget {
    /// The character's stat at this position.
    CharacterStat(usize),
    /// The road the character is on.
    Road,
    /// The place the character is in.
    Place,
    /// The area of the channel.
    Area,
    /// A new area for the channel, which the following area effects join.
    NewArea,
    /// Nowhere: nothing takes it.
    Nowhere,
}

/// The first of the character's stats with the given identifier.
pub open spec fn stat_pos(stats: Seq<DocumentId>, id: DocumentId) -> Option<int> {
    if exists|k: int| 0 <= k < stats.len() && stats[k] == id {
        Some(choose|k: int| 0 <= k < stats.len() && stats[k] == id && forall|j: int| 0 <= j < k ==> stats[j] != id)
    } else {
        None
    }
}

/// Where each of the effects `effects[..k]` goes, and whether the channel
/// has an area once they went.
pub open spec fn route_upto(effects: Seq<(DocumentId, ModifierLevel)>, stats: Seq<DocumentId>, has_road: bool, has_place: bool, has_area: bool, k: int) -> (Seq<EffectTarget>, bool)
    decreases k,
{
    if k <= 0 {
        (Seq::empty(), has_area)
    } else {
        let (acc, area) = route_upto(effects, stats, has_road, has_place, has_area, k - 1);
        let (id, level) = effects[k - 1];
        match level {
            ModifierLevel::Player => match stat_pos(stats, id) {
                Some(p) => (acc.push(EffectTarget::CharacterStat(p as usize)), area),
                None => (acc.push(EffectTarget::Nowhere), area),
            },
            ModifierLevel::Place => if has_road {
                (acc.push(EffectTarget::Road), area)
            } else if has_place {
                (acc.push(EffectTarget::Place), area)
            } else {
                (acc.push(EffectTarget::Nowhere), area)
            },
            ModifierLevel::Area => if area {
                (acc.push(EffectTarget::Area), area)
            } else {
                (acc.push(EffectTarget::NewArea), true)
            },
            ModifierLevel::Universe => (acc.push(EffectTarget::Nowhere), area),
        }
    }
}

fn find_stat(stats: &Vec<DocumentId>, id: DocumentId) -> (r: Option<usize>)
    ensures
        match (r, stat_pos(stats@, id)) {
            (None, None) => true,
            (Some(a), Some(b)) => a == b,
            _ => false,
        },
{
    let mut i: usize = 0;
    while i < stats.len()
        invariant
            i <= stats@.len(),
            forall|k: int| 0 <= k < i ==> stats@[k] != id,
        decreases stats@.len() - i,
    {
        if stats[i] == id {
            proof {
                let c = choose|k: int| 0 <= k < stats@.len() && stats@[k] == id && forall|j: int| 0 <= j < k ==> stats@[j] != id;
                assert(0 <= c < stats@.len() && stats@[c] == id && forall|j: int| 0 <= j < c ==> stats@[j] != id);
                if c < i {
                } else if c > i {
                    assert(stats@[i as int] == id);
                }
            }
            return Some(i);
        }
        i = i + 1;
    }
    None
}

/// Where each effect of a consumed item goes, in order: a player effect to
/// the character's stat with the effect's identifier, a place effect to the
/// road or else the place, an area effect to the channel's area (the first
/// one creating it when there is none), a universe effect nowhere.
pub fn route_effects(effects: &Vec<(DocumentId, ModifierLevel)>, stats: &Vec<DocumentId>, has_road: bool, has_place: bool, has_area: bool) -> (r: Vec<EffectTarget>)
    ensures
        r@ == route_upto(effects@, stats@, has_road, has_place, has_area, effects@.len() as int).0,
{
    let mut r: Vec<EffectTarget> = Vec::new();
    let mut area = has_area;
    let mut i: usize = 0;
    while i < effects.len()
        invariant
            i <= effects@.len(),
            route_upto(effects@, stats@, has_road, has_place, has_area, i as int) == (r@, area),
        decreases effects@.len() - i,
    {
        let (id, level) = effects[i];
        let t = match level {
            ModifierLevel::Player => match find_stat(stats, id) {
                Some(p) => EffectTarget::CharacterStat(p),
                None => EffectTarget::Nowhere,
            },
            ModifierLevel::Place => if has_road {
                EffectTarget::Road
            } else if has_place {
                EffectTarget::Place
            } else {
                EffectTarget::Nowhere
            },
            ModifierLevel::Area => if area {
                EffectTarget::Area
            } else {
                area = true;
                EffectTarget::NewArea
            },
            ModifierLevel::Universe => EffectTarget::Nowhere,
        };
        r.push(t);
        i = i + 1;
    }
    r
}


/// A player busy travelling, crafting or looting is refused with
/// `consume__busy`, whatever the item; one who is none of these may consume
/// exactly the consumable items, and is refused any other.
pub proof fn lemma_busy_player_cannot_consume(in_move: bool, crafting: bool, looting: bool, usage: ItemUsage)
    ensures
        in_move ==> consume_refusal_spec(in_move, crafting, looting, usage) == Some("consume__busy"@),
        crafting ==> consume_refusal_spec(in_move, crafting, looting, usage) == Some("consume__busy"@),
        looting ==> consume_refusal_spec(in_move, crafting, looting, usage) == Some("consume__busy"@),
        consume_refusal_spec(in_move, crafting, looting, usage) is None
            <==> (!in_move && !crafting && !looting && usage == ItemUsage::Consumable),
{
}

} // verus!
