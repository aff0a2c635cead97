//! Loot tables: entries that are single items or sets of items, each with a
//! drop chance, a quantity range, an optional stock and a secret flag.
//!
//! A drop chance is held as a fixed-point number of millionths of a percent:
//! `PERCENT` (one percent) is `1_000_000`, a certain drop is `100 * PERCENT`.
//! Inside a set, the chances of the set's items are relative weights.
use vstd::prelude::*;
use crate::document::DocumentId;

verus! {

/// One percent, in the units in which drop chances are held.
pub const PERCENT: i64 = 1_000_000;

/// A certain drop: the exclusive bound of the roll against which a chance
/// is compared.
pub const HUNDRED_PERCENT: u64 = 100_000_000;

/// The largest magnitude that a drop chance may have.
pub const MAX_CHANCE: i64 = 1_000_000_000_000_000_000;

#[derive(Debug)]
pub struct LootTableItem {
    pub name: String,
    pub probability: i64,
    pub min: u32,
    pub max: u32,
    pub stock: Option<u32>,
    pub secret: bool,
}

#[derive(Debug)]
pub struct LootTableSet {
    pub name: String,
    pub probability: i64,
    pub min: u32,
    pub max: u32,
    pub stock: Option<u32>,
    pub items: Vec<LootTableItem>,
    pub secret: bool,
}

#[derive(Debug)]
pub enum LootTableEntry {
    Item(LootTableItem),
    ItemSet(LootTableSet),
}

/// When a player last looted a table, in seconds since the Unix epoch.
#[derive(Debug)]
pub struct LastLoot {
    pub character_id: String,
    pub timestamp: i64,
}

#[derive(Debug)]
pub struct LootTable {
    pub _id: Option<DocumentId>,
    pub universe_id: DocumentId,
    pub channel_id: u64,
    pub entries: Vec<LootTableEntry>,
    pub raw_text: String,
    pub rate_limit: Option<u64>,
    pub delay: Option<u64>,
    pub last_loot: Option<Vec<LastLoot>>,
}

/// What an item is, as plain values.
pub struct ItemView {
    pub name: Seq<char>,
    pub probability: i64,
    pub min: u32,
    pub max: u32,
    pub stock: Option<u32>,
    pub secret: bool,
}

pub struct SetView {
    pub name: Seq<char>,
    pub probability: i64,
    pub min: u32,
    pub max: u32,
    pub stock: Option<u32>,
    pub items: Seq<ItemView>,
    pub secret: bool,
}

pub enum EntryView {
    Item(ItemView),
    ItemSet(SetView),
}

impl View for LootTableItem {
    type V = ItemView;

    open spec fn view(&self) -> ItemView {
        ItemView {
            name: self.name@,
            probability: self.probability,
            min: self.min,
            max: self.max,
            stock: self.stock,
            secret: self.secret,
        }
    }
}

pub open spec fn items_view(items: Seq<LootTableItem>) -> Seq<ItemView> {
    items.map_values(|i: LootTableItem| i@)
}

impl View for LootTableSet {
    type V = SetView;

    open spec fn view(&self) -> SetView {
        SetView {
            name: self.name@,
            probability: self.probability,
            min: self.min,
            max: self.max,
            stock: self.stock,
            items: items_view(self.items@),
            secret: self.secret,
        }
    }
}

impl View for LootTableEntry {
    type V = EntryView;

    open spec fn view(&self) -> EntryView {
        match self {
            LootTableEntry::Item(i) => EntryView::Item(i@),
            LootTableEntry::ItemSet(s) => EntryView::ItemSet(s@),
        }
    }
}

pub open spec fn entries_view(entries: Seq<LootTableEntry>) -> Seq<EntryView> {
    entries.map_values(|e: LootTableEntry| e@)
}

/// A stock that has run out.
pub open spec fn stock_exhausted(stock: Option<u32>) -> bool {
    stock == Some(0u32)
}

/// The stock after one unit is taken, and whether one was: an unlimited or
/// exhausted stock stays as it is.
pub open spec fn stock_after_take(stock: Option<u32>) -> (Option<u32>, bool) {
    match stock {
        Some(s) => if s > 0 { (Some((s - 1) as u32), true) } else { (stock, false) },
        None => (stock, false),
    }
}

impl ItemView {
    pub open spec fn out_of_stock(self) -> bool {
        stock_exhausted(self.stock)
    }

    pub open spec fn after_take(self) -> ItemView {
        ItemView { stock: stock_after_take(self.stock).0, ..self }
    }
}

impl SetView {
    pub open spec fn out_of_stock(self) -> bool {
        stock_exhausted(self.stock)
    }
}

impl EntryView {
    pub open spec fn out_of_stock(self) -> bool {
        match self {
            EntryView::Item(i) => i.out_of_stock(),
            EntryView::ItemSet(s) => s.out_of_stock(),
        }
    }
}

fn take_from_stock(stock: &mut Option<u32>) -> (taken: bool)
    ensures
        (*final(stock), taken) == stock_after_take(*old(stock)),
{
    match *stock {
        Some(s) => {
            if s > 0 {
                *stock = Some(s - 1);
                true
            } else {
                false
            }
        },
        None => false,
    }
}

impl LootTableItem {
    /// Whether the item's stock has run out; an item without a stock never
    /// runs out.
    pub fn is_out_of_stock(&self) -> (b: bool)
        ensures
            b == self@.out_of_stock(),
    {
        match self.stock {
            Some(s) => s == 0,
            None => false,
        }
    }

    /// Takes one unit from a positive stock, and says whether it did.
    pub fn decrement_stock(&mut self) -> (taken: bool)
        ensures
            (final(self)@.stock, taken) == stock_after_take(old(self)@.stock),
            final(self)@ == old(self)@.after_take(),
    {
        take_from_stock(&mut self.stock)
    }
}

impl LootTableSet {
    /// Whether the set's own stock has run out.
    pub fn is_out_of_stock(&self) -> (b: bool)
        ensures
            b == self@.out_of_stock(),
    {
        match self.stock {
            Some(s) => s == 0,
            None => false,
        }
    }

    /// Takes one unit from the set's own positive stock, and says whether it
    /// did.
    pub fn decrement_stock(&mut self) -> (taken: bool)
        ensures
            (final(self)@.stock, taken) == stock_after_take(old(self)@.stock),
            final(self)@ == (SetView { stock: stock_after_take(old(self)@.stock).0, ..old(self)@ }),
    {
        take_from_stock(&mut self.stock)
    }
}

impl LootTableEntry {
    /// Whether the entry (the item, or the set itself) has run out of stock.
    pub fn is_out_of_stock(&self) -> (b: bool)
        ensures
            b == self@.out_of_stock(),
    {
        match self {
            LootTableEntry::Item(i) => i.is_out_of_stock(),
            LootTableEntry::ItemSet(s) => s.is_out_of_stock(),
        }
    }
}

} // verus!
