//! What a roll reports: a roll says the table was updated exactly when the
//! table's entries came out different.
//!
//! The proof weighs a table: every entry, every item of a set and every
//! unit of a limited stock weighs one. Each change a roll makes (a unit
//! taken from a stock, an item or entry removed) takes weight off, and a
//! roll that reports no change hands back what it was given.
use vstd::prelude::*;
use crate::loot_tables::{ItemView, SetView, EntryView, stock_after_take, HUNDRED_PERCENT};
use crate::loot::{
    roll_item, pick, picks, roll_set, roll_entry, roll_entries, roll_spec, weighted_pick,
    in_stock_pred, keep_entry_pred, head, tail, quantity, hits, in_stock_weight,
};

verus! {

pub open spec fn stock_weight(st: Option<u32>) -> int {
    match st {
        Some(k) => k as int,
        None => 0,
    }
}

pub open spec fn item_weight(it: ItemView) -> int {
    1 + stock_weight(it.stock)
}

pub open spec fn items_weight(s: Seq<ItemView>) -> int
    decreases s.len(),
{
    if s.len() == 0 {
        0
    } else {
        items_weight(s.drop_last()) + item_weight(s.last())
    }
}

pub open spec fn entry_weight(e: EntryView) -> int {
    match e {
        EntryView::Item(it) => 1 + stock_weight(it.stock),
        EntryView::ItemSet(s) => 1 + stock_weight(s.stock) + items_weight(s.items),
    }
}

pub open spec fn entries_weight(s: Seq<EntryView>) -> int
    decreases s.len(),
{
    if s.len() == 0 {
        0
    } else {
        entries_weight(s.drop_last()) + entry_weight(s.last())
    }
}

proof fn lemma_stock_take(st: Option<u32>)
    ensures
        stock_after_take(st).1 ==> stock_weight(stock_after_take(st).0) == stock_weight(st) - 1,
        !stock_after_take(st).1 ==> stock_after_take(st).0 == st,
{
}

proof fn lemma_items_weight_update(s: Seq<ItemView>, k: int, x: ItemView)
    requires
        0 <= k < s.len(),
    ensures
        items_weight(s.update(k, x)) == items_weight(s) - item_weight(s[k]) + item_weight(x),
    decreases s.len(),
{
    if k < s.len() - 1 {
        lemma_items_weight_update(s.drop_last(), k, x);
        assert(s.update(k, x).drop_last() =~= s.drop_last().update(k, x));
    } else {
        assert(s.update(k, x).drop_last() =~= s.drop_last());
    }
}

proof fn lemma_items_weight_nonneg(s: Seq<ItemView>)
    ensures
        items_weight(s) >= 0,
    decreases s.len(),
{
    if s.len() > 0 {
        lemma_items_weight_nonneg(s.drop_last());
    }
}

/// Keeping the items in stock takes off weight exactly when it removes one.
proof fn lemma_items_filter(s: Seq<ItemView>)
    ensures
        items_weight(s.filter(in_stock_pred())) <= items_weight(s),
        s.filter(in_stock_pred()).len() != s.len() ==> items_weight(s.filter(in_stock_pred())) < items_weight(s),
        s.filter(in_stock_pred()).len() == s.len() ==> s.filter(in_stock_pred()) == s,
    decreases s.len(),
{
    reveal(Seq::filter);
    if s.len() == 0 {
        assert(s.filter(in_stock_pred()) =~= s);
    } else {
        let t = s.drop_last();
        lemma_items_filter(t);
        lemma_filter_len_le(t);
        lemma_items_weight_nonneg(s);
        if in_stock_pred()(s.last()) {
            assert(s.filter(in_stock_pred()) == t.filter(in_stock_pred()).push(s.last()));
            assert(t.filter(in_stock_pred()).push(s.last()).drop_last() =~= t.filter(in_stock_pred()));
            if s.filter(in_stock_pred()).len() == s.len() {
                assert(s =~= t.push(s.last()));
            }
        } else {
            assert(s.filter(in_stock_pred()) == t.filter(in_stock_pred()));
        }
    }
}

proof fn lemma_filter_len_le(s: Seq<ItemView>)
    ensures
        s.filter(in_stock_pred()).len() <= s.len(),
    decreases s.len(),
{
    reveal(Seq::filter);
    if s.len() > 0 {
        lemma_filter_len_le(s.drop_last());
    }
}

proof fn lemma_entries_filter_len_le(s: Seq<EntryView>)
    ensures
        s.filter(keep_entry_pred()).len() <= s.len(),
    decreases s.len(),
{
    reveal(Seq::filter);
    if s.len() > 0 {
        lemma_entries_filter_len_le(s.drop_last());
    }
}

proof fn lemma_entry_weight_pos(e: EntryView)
    ensures
        entry_weight(e) >= 1,
{
    if let EntryView::ItemSet(s) = e {
        lemma_items_weight_nonneg(s.items);
    }
}

proof fn lemma_entries_weight_nonneg(s: Seq<EntryView>)
    ensures
        entries_weight(s) >= 0,
    decreases s.len(),
{
    if s.len() > 0 {
        lemma_entries_weight_nonneg(s.drop_last());
        lemma_entry_weight_pos(s.last());
    }
}

/// Keeping the entries that stay takes off weight exactly when it removes
/// one.
proof fn lemma_entries_filter(s: Seq<EntryView>)
    ensures
        entries_weight(s.filter(keep_entry_pred())) <= entries_weight(s),
        s.filter(keep_entry_pred()).len() != s.len() ==> entries_weight(s.filter(keep_entry_pred())) < entries_weight(s),
        s.filter(keep_entry_pred()).len() == s.len() ==> s.filter(keep_entry_pred()) == s,
    decreases s.len(),
{
    reveal(Seq::filter);
    if s.len() == 0 {
        assert(s.filter(keep_entry_pred()) =~= s);
    } else {
        let t = s.drop_last();
        lemma_entries_filter(t);
        lemma_entries_filter_len_le(t);
        lemma_entry_weight_pos(s.last());
        if keep_entry_pred()(s.last()) {
            assert(s.filter(keep_entry_pred()) == t.filter(keep_entry_pred()).push(s.last()));
            assert(t.filter(keep_entry_pred()).push(s.last()).drop_last() =~= t.filter(keep_entry_pred()));
            if s.filter(keep_entry_pred()).len() == s.len() {
                assert(s =~= t.push(s.last()));
            }
        } else {
            assert(s.filter(keep_entry_pred()) == t.filter(keep_entry_pred()));
        }
    }
}

proof fn lemma_weighted_pick_in_stock(items: Seq<ItemView>, w: int)
    ensures
        weighted_pick(items, w) matches Some(k) ==> 0 <= k < items.len() && !items[k].out_of_stock(),
    decreases items.len(),
{
    if items.len() > 0 {
        lemma_weighted_pick_in_stock(items.drop_first(), w);
        lemma_weighted_pick_in_stock(items.drop_first(), w - items[0].probability);
    }
}

/// A pick takes one unit off exactly when it reports a change.
proof fn lemma_pick(items: Seq<ItemView>, ds: Seq<int>)
    ensures
        pick(items, ds).2 ==> items_weight(pick(items, ds).0) == items_weight(items) - 1,
        !pick(items, ds).2 ==> pick(items, ds).0 == items,
{
    let total = in_stock_weight(items);
    if total > 0 {
        let w = head(ds) % total;
        lemma_weighted_pick_in_stock(items, w);
        if let Some(k) = weighted_pick(items, w) {
            let it = items[k];
            let (st, taken) = stock_after_take(it.stock);
            lemma_stock_take(it.stock);
            lemma_items_weight_update(items, k, ItemView { stock: st, ..it });
            if !taken {
                assert(items.update(k, ItemView { stock: st, ..it }) =~= items);
            }
        }
    }
}

proof fn lemma_picks(items: Seq<ItemView>, n: int, ds: Seq<int>)
    ensures
        items_weight(picks(items, n, ds).0) <= items_weight(items),
        picks(items, n, ds).2 ==> items_weight(picks(items, n, ds).0) < items_weight(items),
        !picks(items, n, ds).2 ==> picks(items, n, ds).0 == items,
    decreases n,
{
    if n > 0 {
        lemma_picks(items, n - 1, ds);
        let (i1, r1, u1, d1) = picks(items, n - 1, ds);
        lemma_pick(i1, d1);
    }
}

proof fn lemma_roll_set(s: SetView, ds: Seq<int>)
    ensures
        roll_set(s, ds).2 ==> 1 + stock_weight(roll_set(s, ds).0.stock) + items_weight(roll_set(s, ds).0.items)
            < 1 + stock_weight(s.stock) + items_weight(s.items),
        !roll_set(s, ds).2 ==> roll_set(s, ds).0 == s,
{
    if hits(s.probability, head(ds)) {
        let ds1 = tail(ds);
        let n = quantity(s.min, s.max, head(ds1));
        let (items1, rolled, u1, ds3) = picks(s.items, n, tail(ds1));
        lemma_picks(s.items, n, tail(ds1));
        lemma_items_filter(items1);
        lemma_stock_take(s.stock);
        let items2 = items1.filter(in_stock_pred());
        let (st, taken) = stock_after_take(s.stock);
        if !(u1 || items2.len() != items1.len() || taken) {
            assert(roll_set(s, ds).0 == SetView { items: items2, stock: st, ..s });
        }
    }
}

proof fn lemma_roll_entry(e: EntryView, ds: Seq<int>)
    ensures
        roll_entry(e, ds).2 ==> entry_weight(roll_entry(e, ds).0) < entry_weight(e),
        !roll_entry(e, ds).2 ==> roll_entry(e, ds).0 == e,
{
    if !e.out_of_stock() {
        match e {
            EntryView::Item(it) => {
                lemma_stock_take(it.stock);
            },
            EntryView::ItemSet(s) => {
                lemma_roll_set(s, ds);
            },
        }
    }
}

proof fn lemma_roll_entries(es: Seq<EntryView>, ds: Seq<int>)
    ensures
        entries_weight(roll_entries(es, ds).0) <= entries_weight(es),
        roll_entries(es, ds).2 ==> entries_weight(roll_entries(es, ds).0) < entries_weight(es),
        !roll_entries(es, ds).2 ==> roll_entries(es, ds).0 == es,
        roll_entries(es, ds).0.len() == es.len(),
    decreases es.len(),
{
    if es.len() > 0 {
        let t = es.drop_last();
        lemma_roll_entries(t, ds);
        let (a, r, u, d) = roll_entries(t, ds);
        lemma_roll_entry(es.last(), d);
        let (e2, r2, u2, d2) = roll_entry(es.last(), d);
        assert(a.push(e2).drop_last() =~= a);
        if !(u || u2) {
            assert(a.push(e2) =~= es);
        }
    } else {
        assert(roll_entries(es, ds).0 =~= es);
    }
}

/// A roll reports that the table was updated exactly when the entries it
/// leaves differ from those it was given.
pub proof fn lemma_roll_updated_iff_changed(es: Seq<EntryView>, ds: Seq<int>)
    ensures
        roll_spec(es, ds).2 <==> roll_spec(es, ds).0 != es,
{
    lemma_roll_entries(es, ds);
    let (a, r, u, d) = roll_entries(es, ds);
    lemma_entries_filter(a);
    let kept = a.filter(keep_entry_pred());
    if u || kept.len() != a.len() {
        assert(entries_weight(kept) < entries_weight(es));
    }
}

/// After a roll, no entry is out of stock and no set is left without items.
pub proof fn lemma_roll_leaves_only_entries_in_stock(es: Seq<EntryView>, ds: Seq<int>)
    ensures
        forall|k: int| 0 <= k < roll_spec(es, ds).0.len() ==> {
            let e = #[trigger] roll_spec(es, ds).0[k];
            !e.out_of_stock() && !(e matches EntryView::ItemSet(s) && s.items.len() == 0)
        },
{
    let (a, r, u, d) = roll_entries(es, ds);
    assert forall|k: int| 0 <= k < a.filter(keep_entry_pred()).len() implies keep_entry_pred()(#[trigger] a.filter(keep_entry_pred())[k]) by {
        a.lemma_filter_pred(keep_entry_pred(), k);
    }
}


/// An item that drops gives between its minimum and maximum quantity, all
/// of its name; one that does not drop gives nothing.
pub proof fn lemma_item_drop_within_range(it: ItemView, ds: Seq<int>)
    requires
        it.min <= it.max,
    ensures
        roll_item(it, ds).1.len() == 0 || (it.min <= roll_item(it, ds).1.len() <= it.max),
        forall|k: int| 0 <= k < roll_item(it, ds).1.len() ==> #[trigger] roll_item(it, ds).1[k] == it.name,
{
    let d = head(tail(ds));
    assert(0 <= d % (it.max - it.min + 1) < it.max - it.min + 1);
}


/// A stock that only went down: a limited stock is no larger, an unlimited
/// one stays unlimited.
pub open spec fn stock_lowered(new: Option<u32>, old: Option<u32>) -> bool {
    match (new, old) {
        (Some(a), Some(b)) => a <= b,
        (None, None) => true,
        _ => false,
    }
}

/// `new` is the item `old` with its stock only lowered.
pub open spec fn item_lowered(new: ItemView, old: ItemView) -> bool {
    new == (ItemView { stock: new.stock, ..old }) && stock_lowered(new.stock, old.stock)
}

/// `new` is `old` item by item, each with its stock only lowered.
pub open spec fn items_lowered(new: Seq<ItemView>, old: Seq<ItemView>) -> bool {
    new.len() == old.len() && forall|i: int| 0 <= i < old.len() ==> item_lowered(#[trigger] new[i], old[i])
}

/// `new` is some of the items of `old`, in their order, each with its stock
/// only lowered.
pub open spec fn items_kept(new: Seq<ItemView>, old: Seq<ItemView>) -> bool
    decreases old.len(),
{
    if old.len() == 0 {
        new.len() == 0
    } else {
        (new.len() > 0 && item_lowered(new.last(), old.last()) && items_kept(new.drop_last(), old.drop_last()))
            || items_kept(new, old.drop_last())
    }
}

/// `new` is the entry `old` with its stock only lowered, and, for a set,
/// some of its items kept in order with their stocks only lowered.
pub open spec fn entry_lowered(new: EntryView, old: EntryView) -> bool {
    match (new, old) {
        (EntryView::Item(a), EntryView::Item(b)) => item_lowered(a, b),
        (EntryView::ItemSet(a), EntryView::ItemSet(b)) => {
            &&& a == (SetView { stock: a.stock, items: a.items, ..b })
            &&& stock_lowered(a.stock, b.stock)
            &&& items_kept(a.items, b.items)
        },
        _ => false,
    }
}

/// `new` is some of the entries of `old`, in their order, each only lowered.
pub open spec fn entries_kept(new: Seq<EntryView>, old: Seq<EntryView>) -> bool
    decreases old.len(),
{
    if old.len() == 0 {
        new.len() == 0
    } else {
        (new.len() > 0 && entry_lowered(new.last(), old.last()) && entries_kept(new.drop_last(), old.drop_last()))
            || entries_kept(new, old.drop_last())
    }
}

proof fn lemma_items_kept_refl(s: Seq<ItemView>)
    ensures
        items_kept(s, s),
    decreases s.len(),
{
    if s.len() > 0 {
        lemma_items_kept_refl(s.drop_last());
    }
}

proof fn lemma_entry_lowered_refl(e: EntryView)
    ensures
        entry_lowered(e, e),
{
    if let EntryView::ItemSet(st) = e {
        lemma_items_kept_refl(st.items);
    }
}

proof fn lemma_pick_lowers(items: Seq<ItemView>, ds: Seq<int>)
    ensures
        items_lowered(pick(items, ds).0, items),
{
    let total = in_stock_weight(items);
    if total > 0 {
        let w = head(ds) % total;
        lemma_weighted_pick_in_stock(items, w);
    }
}

proof fn lemma_picks_lowers(items: Seq<ItemView>, n: int, ds: Seq<int>)
    ensures
        items_lowered(picks(items, n, ds).0, items),
    decreases n,
{
    if n > 0 {
        lemma_picks_lowers(items, n - 1, ds);
        let (i1, r1, u1, d1) = picks(items, n - 1, ds);
        lemma_pick_lowers(i1, d1);
        let i2 = pick(i1, d1).0;
        assert forall|i: int| 0 <= i < items.len() implies item_lowered(#[trigger] i2[i], items[i]) by {
            assert(item_lowered(i1[i], items[i]));
            assert(item_lowered(i2[i], i1[i]));
        }
    }
}

proof fn lemma_items_filter_kept(a: Seq<ItemView>, old: Seq<ItemView>)
    requires
        items_lowered(a, old),
    ensures
        items_kept(a.filter(in_stock_pred()), old),
    decreases old.len(),
{
    reveal(Seq::filter);
    if old.len() > 0 {
        let t = a.drop_last();
        assert(items_lowered(t, old.drop_last())) by {
            assert forall|i: int| 0 <= i < old.drop_last().len() implies item_lowered(#[trigger] t[i], old.drop_last()[i]) by {
                assert(item_lowered(a[i], old[i]));
            }
        }
        lemma_items_filter_kept(t, old.drop_last());
        assert(item_lowered(a[a.len() - 1], old[old.len() - 1]));
        if in_stock_pred()(a.last()) {
            let f = t.filter(in_stock_pred()).push(a.last());
            assert(a.filter(in_stock_pred()) == f);
            assert(f.drop_last() =~= t.filter(in_stock_pred()));
        } else {
            assert(a.filter(in_stock_pred()) == t.filter(in_stock_pred()));
        }
    } else {
        assert(a.filter(in_stock_pred()).len() == 0);
    }
}

proof fn lemma_entries_filter_kept(a: Seq<EntryView>, old: Seq<EntryView>)
    requires
        a.len() == old.len(),
        forall|i: int| 0 <= i < old.len() ==> entry_lowered(#[trigger] a[i], old[i]),
    ensures
        entries_kept(a.filter(keep_entry_pred()), old),
    decreases old.len(),
{
    reveal(Seq::filter);
    if old.len() > 0 {
        let t = a.drop_last();
        assert forall|i: int| 0 <= i < old.drop_last().len() implies entry_lowered(#[trigger] t[i], old.drop_last()[i]) by {
            assert(entry_lowered(a[i], old[i]));
        }
        lemma_entries_filter_kept(t, old.drop_last());
        assert(entry_lowered(a[a.len() - 1], old[old.len() - 1]));
        if keep_entry_pred()(a.last()) {
            let f = t.filter(keep_entry_pred()).push(a.last());
            assert(a.filter(keep_entry_pred()) == f);
            assert(f.drop_last() =~= t.filter(keep_entry_pred()));
        } else {
            assert(a.filter(keep_entry_pred()) == t.filter(keep_entry_pred()));
        }
    } else {
        assert(a.filter(keep_entry_pred()).len() == 0);
    }
}

proof fn lemma_roll_entry_lowers(e: EntryView, ds: Seq<int>)
    ensures
        entry_lowered(roll_entry(e, ds).0, e),
{
    lemma_entry_lowered_refl(e);
    if !e.out_of_stock() {
        if let EntryView::ItemSet(st) = e {
            if hits(st.probability, head(ds)) {
                let ds1 = tail(ds);
                let n = quantity(st.min, st.max, head(ds1));
                lemma_picks_lowers(st.items, n, tail(ds1));
                lemma_items_filter_kept(picks(st.items, n, tail(ds1)).0, st.items);
            }
        }
    }
}

proof fn lemma_roll_entries_lowers(es: Seq<EntryView>, ds: Seq<int>)
    ensures
        roll_entries(es, ds).0.len() == es.len(),
        forall|i: int| 0 <= i < es.len() ==> entry_lowered(#[trigger] roll_entries(es, ds).0[i], es[i]),
    decreases es.len(),
{
    if es.len() > 0 {
        let t = es.drop_last();
        lemma_roll_entries_lowers(t, ds);
        let (a, r, u, d) = roll_entries(t, ds);
        lemma_roll_entry_lowers(es.last(), d);
        let b = roll_entries(es, ds).0;
        assert forall|i: int| 0 <= i < es.len() implies entry_lowered(#[trigger] b[i], es[i]) by {
            if i < es.len() - 1 {
                assert(b[i] == a[i]);
                assert(entry_lowered(a[i], t[i]));
            }
        }
    }
}

/// After a roll, the table's entries are some of its old entries, in their
/// order, each with the same name, chance, range and secrecy and with its
/// stock only lowered; a set keeps some of its items, in their order, each
/// likewise only lowered.
pub proof fn lemma_roll_keeps_entries_in_order(es: Seq<EntryView>, ds: Seq<int>)
    ensures
        entries_kept(roll_spec(es, ds).0, es),
{
    lemma_roll_entries_lowers(es, ds);
    lemma_entries_filter_kept(roll_entries(es, ds).0, es);
}


/// One of `items` is named `name`.
pub open spec fn set_gives(items: Seq<ItemView>, name: Seq<char>) -> bool {
    exists|j: int| 0 <= j < items.len() && (#[trigger] items[j]).name == name
}

/// The entry `e` can give `name`: an item its own name, a set the name of
/// one of its items.
pub open spec fn entry_gives(e: EntryView, name: Seq<char>) -> bool {
    match e {
        EntryView::Item(it) => it.name == name,
        EntryView::ItemSet(st) => set_gives(st.items, name),
    }
}

proof fn lemma_pick_names(items: Seq<ItemView>, ds: Seq<int>)
    ensures
        forall|k: int| 0 <= k < pick(items, ds).1.len() ==> set_gives(items, #[trigger] pick(items, ds).1[k]),
{
    let total = in_stock_weight(items);
    if total > 0 {
        let w = head(ds) % total;
        lemma_weighted_pick_in_stock(items, w);
        if let Some(j) = weighted_pick(items, w) {
            assert forall|k: int| 0 <= k < pick(items, ds).1.len() implies set_gives(items, #[trigger] pick(items, ds).1[k]) by {
                assert(items[j].name == pick(items, ds).1[k]);
            }
        }
    }
}

proof fn lemma_picks_names(items: Seq<ItemView>, n: int, ds: Seq<int>)
    ensures
        forall|k: int| 0 <= k < picks(items, n, ds).1.len() ==> set_gives(items, #[trigger] picks(items, n, ds).1[k]),
    decreases n,
{
    if n > 0 {
        lemma_picks_names(items, n - 1, ds);
        lemma_picks_lowers(items, n - 1, ds);
        let (i1, r1, u1, d1) = picks(items, n - 1, ds);
        lemma_pick_names(i1, d1);
        let r2 = pick(i1, d1).1;
        let r = picks(items, n, ds).1;
        assert(r == r1 + r2);
        assert forall|k: int| 0 <= k < r.len() implies set_gives(items, #[trigger] r[k]) by {
            if k < r1.len() {
                assert(r[k] == r1[k]);
            } else {
                assert(r[k] == r2[k - r1.len()]);
                assert(set_gives(i1, r2[k - r1.len()]));
                let j = choose|j: int| 0 <= j < i1.len() && (#[trigger] i1[j]).name == r2[k - r1.len()];
                assert(item_lowered(i1[j], items[j]));
                assert(items[j].name == r[k]);
            }
        }
    }
}

proof fn lemma_roll_entry_names(e: EntryView, ds: Seq<int>)
    ensures
        forall|k: int| 0 <= k < roll_entry(e, ds).1.len() ==> entry_gives(e, #[trigger] roll_entry(e, ds).1[k]),
        e.out_of_stock() ==> roll_entry(e, ds).1.len() == 0,
{
    if !e.out_of_stock() {
        if let EntryView::ItemSet(st) = e {
            if hits(st.probability, head(ds)) {
                let ds1 = tail(ds);
                let n = quantity(st.min, st.max, head(ds1));
                lemma_picks_names(st.items, n, tail(ds1));
            }
        }
    }
}

proof fn lemma_roll_entries_names(es: Seq<EntryView>, ds: Seq<int>)
    ensures
        forall|k: int| #![trigger roll_entries(es, ds).1[k]] 0 <= k < roll_entries(es, ds).1.len() ==>
            exists|i: int| 0 <= i < es.len() && !es[i].out_of_stock() && entry_gives(#[trigger] es[i], roll_entries(es, ds).1[k]),
    decreases es.len(),
{
    if es.len() > 0 {
        let t = es.drop_last();
        lemma_roll_entries_names(t, ds);
        let (a, r1, u, d) = roll_entries(t, ds);
        lemma_roll_entry_names(es.last(), d);
        let r2 = roll_entry(es.last(), d).1;
        let r = roll_entries(es, ds).1;
        assert(r == r1 + r2);
        assert forall|k: int| #![trigger r[k]] 0 <= k < r.len() implies
            exists|i: int| 0 <= i < es.len() && !es[i].out_of_stock() && entry_gives(#[trigger] es[i], r[k]) by {
            if k < r1.len() {
                assert(r[k] == r1[k]);
                let i = choose|i: int| 0 <= i < t.len() && !t[i].out_of_stock() && entry_gives(#[trigger] t[i], r1[k]);
                assert(es[i] == t[i]);
            } else {
                assert(r[k] == r2[k - r1.len()]);
                assert(entry_gives(es.last(), r2[k - r1.len()]));
                assert(es[es.len() - 1] == es.last());
            }
        }
    }
}

/// Every name a roll gives is the name of one of the table's item entries
/// or of an item of one of its sets, the entry being in stock before the
/// roll: an entry already out of stock gives nothing.
pub proof fn lemma_roll_names_come_from_entries(es: Seq<EntryView>, ds: Seq<int>)
    ensures
        forall|k: int| #![trigger roll_spec(es, ds).1[k]] 0 <= k < roll_spec(es, ds).1.len() ==>
            exists|i: int| 0 <= i < es.len() && !es[i].out_of_stock() && entry_gives(#[trigger] es[i], roll_spec(es, ds).1[k]),
{
    lemma_roll_entries_names(es, ds);
}


/// A table of a single item gives, on any draws, nothing or between the
/// item's minimum and maximum copies of its name; an item in stock with a
/// certain chance (at least a hundred percent) always gives between them.
pub proof fn lemma_single_item_table(it: ItemView, ds: Seq<int>)
    requires
        it.min <= it.max,
    ensures
        roll_spec(seq![EntryView::Item(it)], ds).1.len() == 0
            || it.min <= roll_spec(seq![EntryView::Item(it)], ds).1.len() <= it.max,
        forall|k: int| 0 <= k < roll_spec(seq![EntryView::Item(it)], ds).1.len()
            ==> #[trigger] roll_spec(seq![EntryView::Item(it)], ds).1[k] == it.name,
        !it.out_of_stock() && it.probability >= HUNDRED_PERCENT
            ==> it.min <= roll_spec(seq![EntryView::Item(it)], ds).1.len() <= it.max,
{
    let es = seq![EntryView::Item(it)];
    assert(es.drop_last() =~= Seq::<EntryView>::empty());
    assert(es.last() == EntryView::Item(it));
    let r = roll_entries(es, ds).1;
    let e0 = Seq::<EntryView>::empty();
    assert(roll_entries(e0, ds) == (e0, Seq::<Seq<char>>::empty(), false, ds));
    assert(roll_entries(es.drop_last(), ds) == roll_entries(e0, ds));
    assert(r == Seq::<Seq<char>>::empty() + roll_entry(EntryView::Item(it), ds).1);
    assert(r =~= roll_entry(EntryView::Item(it), ds).1);
    lemma_item_drop_within_range(it, ds);
    if !it.out_of_stock() {
        assert(roll_entry(EntryView::Item(it), ds).1 == roll_item(it, ds).1);
        if it.probability >= HUNDRED_PERCENT {
            assert(0 <= head(ds) % (HUNDRED_PERCENT as int) < HUNDRED_PERCENT);
            assert(hits(it.probability, head(ds)));
            let d = head(tail(ds));
            assert(0 <= d % (it.max - it.min + 1) < it.max - it.min + 1);
        }
    }
}

} // verus!
