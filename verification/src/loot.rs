//! Rolling a loot table.
//!
//! A roll goes through the entries in order. An entry that is out of stock
//! is skipped. An item drops when a draw below `HUNDRED_PERCENT` is at most
//! its chance; it then gives a quantity drawn in `min..=max` and takes one
//! unit of its stock. A set that drops draws a number of picks in
//! `min..=max`; each pick draws an item of the set in proportion to the
//! weights of its items in stock, gives a quantity of it and takes one unit
//! of its stock. The set then loses its items out of stock and takes one
//! unit of its own stock. Last, the table loses its entries out of stock
//! and its sets without items.
//!
//! The rules below read the draws from a sequence of integers, each reduced
//! into its range; a roll is the outcome of these rules for some sequence.
use vstd::prelude::*;
use crate::loot_tables::{
    ItemView, SetView, EntryView, stock_after_take, LootTableItem, LootTableSet, LootTableEntry,
    LootTable, entries_view, items_view, HUNDRED_PERCENT, MAX_CHANCE,
};
#[allow(unused_imports)]
use rand::RngExt;
#[allow(unused_imports)]
use vstd::arithmetic::div_mod::lemma_small_mod;

verus! {

#[verifier::external_type_specification]
#[verifier::external_body]
pub struct ExThreadRng(rand::rngs::ThreadRng);

/// `rand::rng()`: a handle on the thread's random generator.
#[verifier::external_body]
fn thread_rng() -> rand::rngs::ThreadRng {
    rand::rng()
}

/// `RngExt::random_range(0..bound)` on `u64`: a value in `0..bound`.
#[verifier::external_body]
fn random_below(rng: &mut rand::rngs::ThreadRng, bound: u64) -> (r: u64)
    requires
        bound > 0,
    ensures
        r < bound,
{
    rng.random_range(0..bound)
}

/// `RngExt::random_range(0..bound)` on `i128`: a value in `0..bound`.
#[verifier::external_body]
fn random_below_wide(rng: &mut rand::rngs::ThreadRng, bound: i128) -> (r: i128)
    requires
        bound > 0,
    ensures
        0 <= r < bound,
{
    rng.random_range(0..bound)
}

/// `RngExt::random_range(lo..=hi)` on `u32`: a value in `lo..=hi`.
#[verifier::external_body]
fn random_inclusive(rng: &mut rand::rngs::ThreadRng, lo: u32, hi: u32) -> (r: u32)
    requires
        lo <= hi,
    ensures
        lo <= r <= hi,
{
    rng.random_range(lo..=hi)
}

/// The draw `i` of a stream of draws: past its end, a stream reads zeros.
pub open spec fn stream_at(s: Seq<int>, i: int) -> int {
    if 0 <= i < s.len() { s[i] } else { 0 }
}

/// Draws given as integers.
pub open spec fn draws_view(v: Seq<u64>) -> Seq<int> {
    v.map_values(|x: u64| x as int)
}

/// The source of a roll's draws: the thread's random generator, or a list
/// of draws given in advance and read in order (zeros once it is spent),
/// with no generator at all.
/// `drawn` holds every draw given so far; a draw is reduced into its range
/// where it is used.
struct Dice {
    rng: Option<rand::rngs::ThreadRng>,
    replay: bool,
    supply: Vec<u64>,
    next: usize,
    drawn: Ghost<Seq<int>>,
}

impl Dice {
    /// A list of draws has given exactly the first draws of its stream.
    spec fn wf(&self) -> bool {
        &&& forall|i: int| 0 <= i < self.drawn@.len() ==> #[trigger] self.drawn@[i] >= 0
        &&& !self.replay ==> self.rng is Some
        &&& self.replay ==> {
            &&& self.next <= self.supply@.len()
            &&& self.next == (if self.drawn@.len() < self.supply@.len() { self.drawn@.len() as int } else { self.supply@.len() as int })
            &&& forall|i: int| 0 <= i < self.drawn@.len() ==> #[trigger] self.drawn@[i] == stream_at(draws_view(self.supply@), i)
        }
    }

    /// `b` is `a` after some draws: same source, and well formed.
    spec fn keeps(a: Dice, b: Dice) -> bool {
        &&& b.wf()
        &&& b.replay == a.replay
        &&& b.supply@ == a.supply@
        &&& extends(a.drawn@, b.drawn@)
    }

    fn new() -> (d: Dice)
        ensures
            d.drawn@ == Seq::<int>::empty(),
            d.wf(),
            !d.replay,
    {
        Dice { rng: Some(thread_rng()), replay: false, supply: Vec::new(), next: 0, drawn: Ghost(Seq::empty()) }
    }

    fn replaying(supply: Vec<u64>) -> (d: Dice)
        ensures
            d.drawn@ == Seq::<int>::empty(),
            d.wf(),
            d.replay,
            d.supply@ == supply@,
    {
        Dice { rng: None, replay: true, supply, next: 0, drawn: Ghost(Seq::empty()) }
    }

    /// The next draw of a list, as it is.
    fn take_raw(&mut self) -> (x: u64)
        requires
            old(self).wf(),
            old(self).replay,
        ensures
            Dice::keeps(*old(self), *final(self)),
            final(self).drawn@ == old(self).drawn@.push(x as int),
    {
        proof { lemma_extends_push(self.drawn@, 0); }
        let x = if self.next < self.supply.len() {
            let v = self.supply[self.next];
            self.next = self.next + 1;
            v
        } else {
            0
        };
        proof { lemma_extends_push(self.drawn@, x as int); }
        self.drawn = Ghost(self.drawn@.push(x as int));
        x
    }

    fn below(&mut self, bound: u64) -> (r: u64)
        requires
            bound > 0,
            old(self).wf(),
        ensures
            Dice::keeps(*old(self), *final(self)),
            final(self).drawn@.len() == old(self).drawn@.len() + 1,
            r == final(self).drawn@.last() % (bound as int),
    {
        if self.replay {
            let x = self.take_raw();
            x % bound
        } else {
            let mut g = self.rng.take().unwrap();
            let r = random_below(&mut g, bound);
            self.rng = Some(g);
            proof {
                lemma_small_mod(r as nat, bound as nat);
                lemma_extends_push(self.drawn@, r as int);
            }
            self.drawn = Ghost(self.drawn@.push(r as int));
            r
        }
    }

    fn below_wide(&mut self, bound: i128) -> (r: i128)
        requires
            bound > 0,
            old(self).wf(),
        ensures
            Dice::keeps(*old(self), *final(self)),
            final(self).drawn@.len() == old(self).drawn@.len() + 1,
            r == final(self).drawn@.last() % (bound as int),
    {
        if self.replay {
            let x = self.take_raw();
            (x as i128) % bound
        } else {
            let mut g = self.rng.take().unwrap();
            let r = random_below_wide(&mut g, bound);
            self.rng = Some(g);
            proof {
                lemma_small_mod(r as nat, bound as nat);
                lemma_extends_push(self.drawn@, r as int);
            }
            self.drawn = Ghost(self.drawn@.push(r as int));
            r
        }
    }

    fn inclusive(&mut self, lo: u32, hi: u32) -> (r: u32)
        requires
            lo <= hi,
            old(self).wf(),
        ensures
            Dice::keeps(*old(self), *final(self)),
            final(self).drawn@.len() == old(self).drawn@.len() + 1,
            r == lo + final(self).drawn@.last() % (hi - lo + 1),
    {
        if self.replay {
            let x = self.take_raw();
            let span: u64 = (hi - lo) as u64 + 1;
            let off = x % span;
            (lo as u64 + off) as u32
        } else {
            let mut g = self.rng.take().unwrap();
            let r = random_inclusive(&mut g, lo, hi);
            self.rng = Some(g);
            proof {
                lemma_small_mod((r - lo) as nat, (hi - lo + 1) as nat);
                lemma_extends_push(self.drawn@, r - lo);
            }
            self.drawn = Ghost(self.drawn@.push(r - lo));
            r
        }
    }
}

proof fn lemma_extends_push<A>(a: Seq<A>, x: A)
    ensures
        extends(a, a.push(x)),
        a.push(x).drop_last() == a,
{
    assert(a.push(x).take(a.len() as int) =~= a);
    assert(a.push(x).drop_last() =~= a);
}

/// `b` is `a` followed by more.
pub open spec fn extends<A>(a: Seq<A>, b: Seq<A>) -> bool {
    b.len() >= a.len() && b.take(a.len() as int) == a
}

proof fn lemma_extends_split<A>(a: Seq<A>, b: Seq<A>, c: Seq<A>, rest: Seq<A>)
    requires
        extends(a, b),
        extends(b, c),
    ensures
        extends(a, c),
        c.skip(a.len() as int) + rest == b.skip(a.len() as int) + (c.skip(b.len() as int) + rest),
        c.skip(a.len() as int) == b.skip(a.len() as int) + c.skip(b.len() as int),
{
    assert(c.take(a.len() as int) =~= b.take(a.len() as int));
    assert(c.skip(a.len() as int) =~= b.skip(a.len() as int) + c.skip(b.len() as int));
    assert(c.skip(a.len() as int) + rest =~= b.skip(a.len() as int) + (c.skip(b.len() as int) + rest));
}

proof fn lemma_extends_refl<A>(a: Seq<A>)
    ensures
        extends(a, a),
        a.skip(a.len() as int) == Seq::<A>::empty(),
{
    assert(a.take(a.len() as int) =~= a);
    assert(a.skip(a.len() as int) =~= Seq::<A>::empty());
}

pub open spec fn head(ds: Seq<int>) -> int {
    if ds.len() > 0 { ds[0] } else { 0 }
}

pub open spec fn tail(ds: Seq<int>) -> Seq<int> {
    if ds.len() > 0 { ds.drop_first() } else { ds }
}

/// Whether a drop draw `d` succeeds against `chance`.
pub open spec fn hits(chance: i64, d: int) -> bool {
    d % (HUNDRED_PERCENT as int) <= chance
}

/// The quantity that draw `d` gives in `min..=max`.
pub open spec fn quantity(min: u32, max: u32, d: int) -> int {
    min + d % (max - min + 1)
}

pub open spec fn repeat(name: Seq<char>, n: int) -> Seq<Seq<char>> {
    Seq::new(n as nat, |i: int| name)
}

pub open spec fn names_view(v: Seq<String>) -> Seq<Seq<char>> {
    v.map_values(|s: String| s@)
}

/// One roll outcome: the rolled thing, the names rolled, whether stock
/// changed, and the draws left.
pub open spec fn roll_item(it: ItemView, ds: Seq<int>) -> (ItemView, Seq<Seq<char>>, bool, Seq<int>) {
    if hits(it.probability, head(ds)) {
        let ds1 = tail(ds);
        let q = quantity(it.min, it.max, head(ds1));
        let (st, taken) = stock_after_take(it.stock);
        (ItemView { stock: st, ..it }, repeat(it.name, q), taken, tail(ds1))
    } else {
        (it, Seq::empty(), false, tail(ds))
    }
}

pub open spec fn item_wf(it: ItemView) -> bool {
    it.min <= it.max && -MAX_CHANCE < it.probability < MAX_CHANCE
}

proof fn lemma_prefix_draws(t: Seq<int>, rest: Seq<int>)
    ensures
        t.len() > 0 ==> head(t + rest) == t[0] && tail(t + rest) == tail(t) + rest,
        t.len() == 0 ==> t + rest == rest,
{
    if t.len() > 0 {
        assert(tail(t + rest) =~= tail(t) + rest);
    } else {
        assert(t + rest =~= rest);
    }
}

fn push_repeat(out: &mut Vec<String>, name: &String, q: u32)
    ensures
        names_view(final(out)@) == names_view(old(out)@) + repeat(name@, q as int),
{
    let mut k: u32 = 0;
    while k < q
        invariant
            k <= q,
            names_view(out@) == names_view(old(out)@) + repeat(name@, k as int),
        decreases q - k,
    {
        let ghost prev = out@;
        let c = name.clone();
        out.push(c);
        assert(names_view(out@) =~= names_view(prev).push(name@));
        assert(repeat(name@, k + 1) =~= repeat(name@, k as int).push(name@));
        assert(names_view(out@) =~= names_view(old(out)@) + repeat(name@, k + 1));
        k = k + 1;
    }
}

fn roll_item_exec(it: LootTableItem, dice: &mut Dice, out: &mut Vec<String>) -> (r: (LootTableItem, bool))
    requires
        item_wf(it@),
        old(dice).wf(),
    ensures
        Dice::keeps(*old(dice), *final(dice)),
        forall|rest: Seq<int>| #[trigger] roll_item(it@, final(dice).drawn@.skip(old(dice).drawn@.len() as int) + rest)
            == (r.0@, names_view(final(out)@).skip(names_view(old(out)@).len() as int), r.1, rest),
        extends(names_view(old(out)@), names_view(final(out)@)),
        item_wf(r.0@),
{
    let ghost d0 = dice.drawn@;
    let ghost o0 = names_view(out@);
    let ghost iv = it@;
    let d = dice.below(HUNDRED_PERCENT);
    let ghost xd = dice.drawn@.last();
    let ghost d1 = dice.drawn@;
    if d as i128 <= it.probability as i128 {
        let q = dice.inclusive(it.min, it.max);
        let ghost xq = dice.drawn@.last();
        proof {
            assert(d1.take(d0.len() as int) =~= d0);
        }
        push_repeat(out, &it.name, q);
        let mut it = it;
        let taken = it.decrement_stock();
        let ghost t = dice.drawn@.skip(d0.len() as int);
        assert(dice.drawn@.take(d0.len() as int) =~= d0);
        assert(t =~= seq![xd, xq]);
        assert(names_view(out@).skip(o0.len() as int) =~= repeat(it.name@, q as int));
        assert(names_view(out@).take(o0.len() as int) =~= o0);
        assert forall|rest: Seq<int>| #[trigger] roll_item(iv, t + rest) == (it@, repeat(it.name@, q as int), taken, rest) by {
            lemma_prefix_draws(t, rest);
            lemma_prefix_draws(tail(t), rest);
            assert(tail(tail(t)) =~= Seq::<int>::empty());
            assert(Seq::<int>::empty() + rest =~= rest);
        }
        (it, taken)
    } else {
        let ghost t = dice.drawn@.skip(d0.len() as int);
        assert(dice.drawn@.take(d0.len() as int) =~= d0);
        assert(t =~= seq![xd]);
        assert(names_view(out@).skip(o0.len() as int) =~= Seq::<Seq<char>>::empty());
        assert(names_view(out@).take(o0.len() as int) =~= o0);
        assert forall|rest: Seq<int>| #[trigger] roll_item(it@, t + rest) == (it@, Seq::<Seq<char>>::empty(), false, rest) by {
            lemma_prefix_draws(t, rest);
            assert(tail(t) =~= Seq::<int>::empty());
            assert(Seq::<int>::empty() + rest =~= rest);
        }
        (it, false)
    }
}


pub open spec fn items_wf(items: Seq<ItemView>) -> bool {
    forall|k: int| 0 <= k < items.len() ==> item_wf(#[trigger] items[k])
}

/// The total weight of the items in stock.
pub open spec fn in_stock_weight(items: Seq<ItemView>) -> int
    decreases items.len(),
{
    if items.len() == 0 {
        0
    } else {
        in_stock_weight(items.drop_last()) + (if items.last().out_of_stock() { 0 } else { items.last().probability as int })
    }
}

/// The item in stock that a weight draw `w` lands on: the first whose weight
/// exceeds what is left of `w` after the weights of the earlier ones.
pub open spec fn weighted_pick(items: Seq<ItemView>, w: int) -> Option<int>
    decreases items.len(),
{
    if items.len() == 0 {
        None
    } else if items[0].out_of_stock() {
        match weighted_pick(items.drop_first(), w) {
            Some(k) => Some(k + 1),
            None => None,
        }
    } else if w < items[0].probability {
        Some(0)
    } else {
        match weighted_pick(items.drop_first(), w - items[0].probability) {
            Some(k) => Some(k + 1),
            None => None,
        }
    }
}

proof fn lemma_weighted_pick(items: Seq<ItemView>, w: int)
    ensures
        weighted_pick(items, w) matches Some(k) ==> 0 <= k < items.len() && !items[k].out_of_stock(),
    decreases items.len(),
{
    if items.len() > 0 {
        lemma_weighted_pick(items.drop_first(), w);
        lemma_weighted_pick(items.drop_first(), w - items[0].probability);
    }
}

/// One pick in a set.
pub open spec fn pick(items: Seq<ItemView>, ds: Seq<int>) -> (Seq<ItemView>, Seq<Seq<char>>, bool, Seq<int>) {
    let total = in_stock_weight(items);
    if total > 0 {
        let w = head(ds) % total;
        let ds1 = tail(ds);
        match weighted_pick(items, w) {
            Some(k) => {
                let it = items[k];
                let q = quantity(it.min, it.max, head(ds1));
                let (st, taken) = stock_after_take(it.stock);
                (items.update(k, ItemView { stock: st, ..it }), repeat(it.name, q), taken, tail(ds1))
            },
            None => (items, Seq::empty(), false, ds1),
        }
    } else {
        (items, Seq::empty(), false, ds)
    }
}

/// `n` picks in a set, one after the other.
pub open spec fn picks(items: Seq<ItemView>, n: int, ds: Seq<int>) -> (Seq<ItemView>, Seq<Seq<char>>, bool, Seq<int>)
    decreases n,
{
    if n <= 0 {
        (items, Seq::empty(), false, ds)
    } else {
        let (i1, r1, u1, d1) = picks(items, n - 1, ds);
        let (i2, r2, u2, d2) = pick(i1, d1);
        (i2, r1 + r2, u1 || u2, d2)
    }
}

fn in_stock_weight_exec(items: &Vec<LootTableItem>) -> (t: i128)
    requires
        items_wf(items_view(items@)),
    ensures
        t == in_stock_weight(items_view(items@)),
        -(items@.len() * MAX_CHANCE) <= t <= items@.len() * MAX_CHANCE,
{
    let ghost iv = items_view(items@);
    let mut acc: i128 = 0;
    let mut i: usize = 0;
    while i < items.len()
        invariant
            i <= items@.len(),
            iv == items_view(items@),
            items_wf(iv),
            acc == in_stock_weight(iv.take(i as int)),
            -(i * MAX_CHANCE) <= acc <= i * MAX_CHANCE,
        decreases items@.len() - i,
    {
        assert(iv.take(i + 1).drop_last() =~= iv.take(i as int));
        assert(item_wf(iv[i as int]));
        if !items[i].is_out_of_stock() {
            acc = acc + items[i].probability as i128;
        }
        i = i + 1;
    }
    assert(iv.take(items@.len() as int) =~= iv);
    acc
}

fn weighted_pick_exec(items: &Vec<LootTableItem>, w0: i128) -> (r: Option<usize>)
    requires
        items_wf(items_view(items@)),
        -(items@.len() * MAX_CHANCE) <= w0 <= items@.len() * MAX_CHANCE,
    ensures
        match weighted_pick(items_view(items@), w0 as int) {
            Some(k) => r == Some(k as usize),
            None => r is None,
        },
{
    let ghost iv = items_view(items@);
    let mut w = w0;
    let mut i: usize = 0;
    assert(iv.skip(0) =~= iv);
    while i < items.len()
        invariant
            i <= items@.len(),
            iv == items_view(items@),
            items_wf(iv),
            -(items@.len() * MAX_CHANCE) - i * MAX_CHANCE <= w <= items@.len() * MAX_CHANCE + i * MAX_CHANCE,
            weighted_pick(iv, w0 as int) == (match weighted_pick(iv.skip(i as int), w as int) {
                Some(k) => Some(k + i),
                None => None,
            }),
        decreases items@.len() - i,
    {
        assert(iv.skip(i as int).drop_first() =~= iv.skip(i + 1));
        assert(iv.skip(i as int)[0] == iv[i as int]);
        assert(item_wf(iv[i as int]));
        if !items[i].is_out_of_stock() {
            let p = items[i].probability as i128;
            if w < p {
                return Some(i);
            }
            w = w - p;
        }
        i = i + 1;
    }
    assert(iv.skip(i as int).len() == 0);
    None
}

proof fn lemma_items_view_update(v: Seq<LootTableItem>, k: int, x: LootTableItem)
    requires
        0 <= k < v.len(),
    ensures
        items_view(v.remove(k).insert(k, x)) == items_view(v).update(k, x@),
{
    assert(items_view(v.remove(k).insert(k, x)) =~= items_view(v).update(k, x@));
}

fn pick_exec(items: Vec<LootTableItem>, dice: &mut Dice, names: &mut Vec<String>) -> (r: (Vec<LootTableItem>, bool))
    requires
        items_wf(items_view(items@)),
        old(dice).wf(),
    ensures
        items_wf(items_view(r.0@)),
        Dice::keeps(*old(dice), *final(dice)),
        extends(names_view(old(names)@), names_view(final(names)@)),
        forall|rest: Seq<int>| #[trigger] pick(items_view(items@), final(dice).drawn@.skip(old(dice).drawn@.len() as int) + rest)
            == (items_view(r.0@), names_view(final(names)@).skip(names_view(old(names)@).len() as int), r.1, rest),
{
    let ghost d0 = dice.drawn@;
    let ghost o0 = names_view(names@);
    let ghost iv = items_view(items@);
    let total = in_stock_weight_exec(&items);
    let n_items = items.len();
    if total > 0 {
        let w = dice.below_wide(total);
        let ghost xw = dice.drawn@.last();
        let ghost d1 = dice.drawn@;
        proof { assert(d1.take(d0.len() as int) =~= d0); }
        match weighted_pick_exec(&items, w) {
            Some(k) => {
                proof {
                    lemma_weighted_pick(iv, w as int);
                    let kk = weighted_pick(iv, w as int)->Some_0;
                    assert(kk < n_items);
                    assert(weighted_pick(iv, w as int) == Some(k as int));
                }
                let mut items = items;
                let ghost v0 = items@;
                let mut it = items.remove(k);
                assert(item_wf(iv[k as int]));
                let q = dice.inclusive(it.min, it.max);
                let ghost xq = dice.drawn@.last();
                push_repeat(names, &it.name, q);
                let taken = it.decrement_stock();
                items.insert(k, it);
                proof { lemma_items_view_update(v0, k as int, it); }
                let ghost t = dice.drawn@.skip(d0.len() as int);
        assert(dice.drawn@.take(d0.len() as int) =~= d0);
                assert(t =~= seq![xw, xq]);
                assert(names_view(names@).skip(o0.len() as int) =~= repeat(iv[k as int].name, q as int));
                assert(names_view(names@).take(o0.len() as int) =~= o0);
                assert forall|rest: Seq<int>| #[trigger] pick(iv, t + rest)
                    == (items_view(items@), repeat(iv[k as int].name, q as int), taken, rest) by {
                    lemma_prefix_draws(t, rest);
                    lemma_prefix_draws(tail(t), rest);
                    assert(tail(tail(t)) =~= Seq::<int>::empty());
                    assert(Seq::<int>::empty() + rest =~= rest);
                    assert(in_stock_weight(iv) == total);
                    assert(head(t + rest) == xw);
                    assert(head(t + rest) % in_stock_weight(iv) == w);
                    assert(weighted_pick(iv, w as int) == Some(k as int));
                    assert(head(tail(t + rest)) == xq);
                    assert(quantity(iv[k as int].min, iv[k as int].max, head(tail(t + rest))) == q);
                }
                assert forall|j: int| 0 <= j < items_view(items@).len() implies item_wf(#[trigger] items_view(items@)[j]) by {
                    if j != k { assert(item_wf(iv[j])); }
                }
                (items, taken)
            },
            None => {
                let ghost t = dice.drawn@.skip(d0.len() as int);
        assert(dice.drawn@.take(d0.len() as int) =~= d0);
                assert(t =~= seq![xw]);
                assert(names_view(names@).skip(o0.len() as int) =~= Seq::<Seq<char>>::empty());
                assert(names_view(names@).take(o0.len() as int) =~= o0);
                assert forall|rest: Seq<int>| #[trigger] pick(iv, t + rest) == (iv, Seq::<Seq<char>>::empty(), false, rest) by {
                    lemma_prefix_draws(t, rest);
                    assert(tail(t) =~= Seq::<int>::empty());
                    assert(Seq::<int>::empty() + rest =~= rest);
                }
                (items, false)
            },
        }
    } else {
        let ghost t = dice.drawn@.skip(d0.len() as int);
        assert(dice.drawn@.take(d0.len() as int) =~= d0);
        assert(t =~= Seq::<int>::empty());
        assert(names_view(names@).skip(o0.len() as int) =~= Seq::<Seq<char>>::empty());
        assert(names_view(names@).take(o0.len() as int) =~= o0);
        assert forall|rest: Seq<int>| #[trigger] pick(iv, t + rest) == (iv, Seq::<Seq<char>>::empty(), false, rest) by {
            lemma_prefix_draws(t, rest);
        }
        (items, false)
    }
}


fn picks_exec(items: Vec<LootTableItem>, n: u32, dice: &mut Dice, names: &mut Vec<String>) -> (r: (Vec<LootTableItem>, bool))
    requires
        items_wf(items_view(items@)),
        old(dice).wf(),
    ensures
        items_wf(items_view(r.0@)),
        Dice::keeps(*old(dice), *final(dice)),
        extends(names_view(old(names)@), names_view(final(names)@)),
        forall|rest: Seq<int>| #[trigger] picks(items_view(items@), n as int, final(dice).drawn@.skip(old(dice).drawn@.len() as int) + rest)
            == (items_view(r.0@), names_view(final(names)@).skip(names_view(old(names)@).len() as int), r.1, rest),
{
    let ghost d0 = dice.drawn@;
    let ghost o0 = names_view(names@);
    let ghost iv = items_view(items@);
    let mut cur = items;
    let mut upd = false;
    let mut k: u32 = 0;
    proof {
        lemma_extends_refl(d0);
        lemma_extends_refl(o0);
        assert forall|rest: Seq<int>| #[trigger] picks(iv, 0, d0.skip(d0.len() as int) + rest)
            == (iv, o0.skip(o0.len() as int), false, rest) by {
            assert(Seq::<int>::empty() + rest =~= rest);
        }
    }
    while k < n
        invariant
            k <= n,
            items_wf(items_view(cur@)),
            extends(d0, dice.drawn@),
            d0 == old(dice).drawn@,
            Dice::keeps(*old(dice), *dice),
            extends(o0, names_view(names@)),
            forall|rest: Seq<int>| #[trigger] picks(iv, k as int, dice.drawn@.skip(d0.len() as int) + rest)
                == (items_view(cur@), names_view(names@).skip(o0.len() as int), upd, rest),
        decreases n - k,
    {
        let ghost dk = dice.drawn@;
        let ghost ok = names_view(names@);
        let ghost ck = items_view(cur@);
        let ghost uk = upd;
        let (next, taken) = pick_exec(cur, dice, names);
        proof {
            assert forall|rest: Seq<int>| #[trigger] picks(iv, k + 1, dice.drawn@.skip(d0.len() as int) + rest)
                == (items_view(next@), names_view(names@).skip(o0.len() as int), uk || taken, rest) by {
                lemma_extends_split(d0, dk, dice.drawn@, rest);
                lemma_extends_split(o0, ok, names_view(names@), Seq::<Seq<char>>::empty());
                let t = dice.drawn@.skip(dk.len() as int);
                assert(picks(iv, k as int, dk.skip(d0.len() as int) + (t + rest)) == (ck, ok.skip(o0.len() as int), uk, t + rest));
                assert(pick(ck, t + rest) == (items_view(next@), names_view(names@).skip(ok.len() as int), taken, rest));
            }
            lemma_extends_split(d0, dk, dice.drawn@, Seq::<int>::empty());
            lemma_extends_split(o0, ok, names_view(names@), Seq::<Seq<char>>::empty());
        }
        cur = next;
        upd = upd || taken;
        k = k + 1;
    }
    (cur, upd)
}


pub open spec fn in_stock_pred() -> spec_fn(ItemView) -> bool {
    |i: ItemView| !i.out_of_stock()
}

/// A set roll.
pub open spec fn roll_set(s: SetView, ds: Seq<int>) -> (SetView, Seq<Seq<char>>, bool, Seq<int>) {
    if hits(s.probability, head(ds)) {
        let ds1 = tail(ds);
        let n = quantity(s.min, s.max, head(ds1));
        let (items1, rolled, u1, ds3) = picks(s.items, n, tail(ds1));
        let items2 = items1.filter(in_stock_pred());
        let (st, taken) = stock_after_take(s.stock);
        (SetView { items: items2, stock: st, ..s }, rolled, u1 || items2.len() != items1.len() || taken, ds3)
    } else {
        (s, Seq::empty(), false, tail(ds))
    }
}

pub open spec fn set_wf(s: SetView) -> bool {
    s.min <= s.max && -MAX_CHANCE < s.probability < MAX_CHANCE && items_wf(s.items)
}

proof fn lemma_filter_items_wf(s: Seq<ItemView>)
    requires
        items_wf(s),
    ensures
        items_wf(s.filter(in_stock_pred())),
    decreases s.len(),
{
    reveal(Seq::filter);
    if s.len() > 0 {
        lemma_filter_items_wf(s.drop_last());
        assert(item_wf(s[s.len() - 1]));
    }
}

fn keep_in_stock(items: Vec<LootTableItem>) -> (r: Vec<LootTableItem>)
    ensures
        items_view(r@) == items_view(items@).filter(in_stock_pred()),
{
    let ghost iv = items_view(items@);
    let mut r: Vec<LootTableItem> = Vec::new();
    for it in iter: items.into_iter()
        invariant
            iv == items_view(iter.seq()),
            items_view(r@) == items_view(iter.seq()).take(iter.index() as int).filter(in_stock_pred()),
    {
        let ghost i = iter.index();
        let ghost sq = items_view(iter.seq());
        proof { reveal(Seq::filter); }
        assert(sq.take(i + 1).drop_last() =~= sq.take(i as int));
        assert(sq.take(i + 1).last() == it@);
        if !it.is_out_of_stock() {
            r.push(it);
            assert(items_view(r@) =~= sq.take(i as int).filter(in_stock_pred()).push(it@));
            assert(sq.take(i + 1).filter(in_stock_pred()) == sq.take(i as int).filter(in_stock_pred()).push(it@));
        } else {
            assert(sq.take(i + 1).filter(in_stock_pred()) == sq.take(i as int).filter(in_stock_pred()));
        }
    }
    assert(iv.take(iv.len() as int) =~= iv);
    r
}

fn roll_set_exec(set: LootTableSet, dice: &mut Dice, names: &mut Vec<String>) -> (r: (LootTableSet, bool))
    requires
        set_wf(set@),
        old(dice).wf(),
    ensures
        set_wf(r.0@),
        Dice::keeps(*old(dice), *final(dice)),
        extends(names_view(old(names)@), names_view(final(names)@)),
        forall|rest: Seq<int>| #[trigger] roll_set(set@, final(dice).drawn@.skip(old(dice).drawn@.len() as int) + rest)
            == (r.0@, names_view(final(names)@).skip(names_view(old(names)@).len() as int), r.1, rest),
{
    let ghost d0 = dice.drawn@;
    let ghost o0 = names_view(names@);
    let ghost sv = set@;
    let d = dice.below(HUNDRED_PERCENT);
    let ghost xd = dice.drawn@.last();
    let ghost d1 = dice.drawn@;
    proof { assert(d1.take(d0.len() as int) =~= d0); }
    if d as i128 <= set.probability as i128 {
        let n = dice.inclusive(set.min, set.max);
        let ghost xn = dice.drawn@.last();
        let ghost dn = dice.drawn@;
        let ghost on = names_view(names@);
        let LootTableSet { name, probability, min, max, stock, items, secret } = set;
        let (items1, u1) = picks_exec(items, n, dice, names);
        let n1 = items1.len();
        let items2 = keep_in_stock(items1);
        let shrunk = items2.len() != n1;
        let mut out = LootTableSet { name, probability, min, max, stock, items: items2, secret };
        let taken = out.decrement_stock();
        proof {
            lemma_filter_items_wf(items_view(items1@));
            assert(dn.take(d0.len() as int) =~= d0);
            assert(extends(d0, dn));
            lemma_extends_refl(o0);
            lemma_extends_split(d0, dn, dice.drawn@, Seq::<int>::empty());
            lemma_extends_split(o0, on, names_view(names@), Seq::<Seq<char>>::empty());
            assert forall|rest: Seq<int>| #[trigger] roll_set(sv, dice.drawn@.skip(d0.len() as int) + rest)
                == (out@, names_view(names@).skip(o0.len() as int), u1 || shrunk || taken, rest) by {
                lemma_extends_split(d0, dn, dice.drawn@, rest);
                let t0 = dn.skip(d0.len() as int);
                let t1 = dice.drawn@.skip(dn.len() as int);
                assert(t0 =~= seq![xd, xn]);
                lemma_prefix_draws(t0, t1 + rest);
                lemma_prefix_draws(tail(t0), t1 + rest);
                assert(tail(tail(t0)) =~= Seq::<int>::empty());
                assert(Seq::<int>::empty() + (t1 + rest) =~= t1 + rest);
                assert(picks(sv.items, n as int, t1 + rest) == (items_view(items1@), names_view(names@).skip(on.len() as int), u1, rest));
                assert(on.skip(o0.len() as int) =~= Seq::<Seq<char>>::empty());
                assert(names_view(names@).skip(o0.len() as int) =~= names_view(names@).skip(on.len() as int));
            }
        }
        (out, u1 || shrunk || taken)
    } else {
        proof {
            let t = dice.drawn@.skip(d0.len() as int);
            assert(dice.drawn@.take(d0.len() as int) =~= d0);
            assert(t =~= seq![xd]);
            lemma_extends_refl(o0);
            assert forall|rest: Seq<int>| #[trigger] roll_set(sv, t + rest) == (sv, Seq::<Seq<char>>::empty(), false, rest) by {
                lemma_prefix_draws(t, rest);
                assert(tail(t) =~= Seq::<int>::empty());
                assert(Seq::<int>::empty() + rest =~= rest);
            }
        }
        (set, false)
    }
}


/// An entry's roll: an entry out of stock is left as it is.
pub open spec fn roll_entry(e: EntryView, ds: Seq<int>) -> (EntryView, Seq<Seq<char>>, bool, Seq<int>) {
    if e.out_of_stock() {
        (e, Seq::empty(), false, ds)
    } else {
        match e {
            EntryView::Item(it) => {
                let (i2, r, u, d) = roll_item(it, ds);
                (EntryView::Item(i2), r, u, d)
            },
            EntryView::ItemSet(s) => {
                let (s2, r, u, d) = roll_set(s, ds);
                (EntryView::ItemSet(s2), r, u, d)
            },
        }
    }
}

/// The entries rolled in order.
pub open spec fn roll_entries(es: Seq<EntryView>, ds: Seq<int>) -> (Seq<EntryView>, Seq<Seq<char>>, bool, Seq<int>)
    decreases es.len(),
{
    if es.len() == 0 {
        (Seq::empty(), Seq::empty(), false, ds)
    } else {
        let (a, r, u, d) = roll_entries(es.drop_last(), ds);
        let (e2, r2, u2, d2) = roll_entry(es.last(), d);
        (a.push(e2), r + r2, u || u2, d2)
    }
}

/// An entry that stays in the table: in stock, and not a set without items.
pub open spec fn keep_entry_pred() -> spec_fn(EntryView) -> bool {
    |e: EntryView| !e.out_of_stock() && !(e matches EntryView::ItemSet(s) && s.items.len() == 0)
}

/// A roll of a table's entries with the draws `ds`: the entries after it,
/// the names rolled, and whether the table changed.
pub open spec fn roll_spec(es: Seq<EntryView>, ds: Seq<int>) -> (Seq<EntryView>, Seq<Seq<char>>, bool) {
    let (a, r, u, _d) = roll_entries(es, ds);
    let kept = a.filter(keep_entry_pred());
    (kept, r, u || kept.len() != a.len())
}

pub open spec fn entry_wf(e: EntryView) -> bool {
    match e {
        EntryView::Item(it) => item_wf(it),
        EntryView::ItemSet(s) => set_wf(s),
    }
}

/// Every quantity range of the table is ordered, and every chance lies
/// strictly between `-MAX_CHANCE` and `MAX_CHANCE`.
pub open spec fn entries_wf(es: Seq<EntryView>) -> bool {
    forall|k: int| 0 <= k < es.len() ==> entry_wf(#[trigger] es[k])
}

fn roll_entry_exec(e: LootTableEntry, dice: &mut Dice, names: &mut Vec<String>) -> (r: (LootTableEntry, bool))
    requires
        entry_wf(e@),
        old(dice).wf(),
    ensures
        entry_wf(r.0@),
        Dice::keeps(*old(dice), *final(dice)),
        extends(names_view(old(names)@), names_view(final(names)@)),
        forall|rest: Seq<int>| #[trigger] roll_entry(e@, final(dice).drawn@.skip(old(dice).drawn@.len() as int) + rest)
            == (r.0@, names_view(final(names)@).skip(names_view(old(names)@).len() as int), r.1, rest),
{
    let ghost d0 = dice.drawn@;
    let ghost o0 = names_view(names@);
    let ghost ev = e@;
    if e.is_out_of_stock() {
        proof {
            lemma_extends_refl(d0);
            lemma_extends_refl(o0);
            assert forall|rest: Seq<int>| #[trigger] roll_entry(ev, d0.skip(d0.len() as int) + rest)
                == (ev, o0.skip(o0.len() as int), false, rest) by {
                assert(Seq::<int>::empty() + rest =~= rest);
            }
        }
        return (e, false);
    }
    match e {
        LootTableEntry::Item(it) => {
            let (it2, u) = roll_item_exec(it, dice, names);
            (LootTableEntry::Item(it2), u)
        },
        LootTableEntry::ItemSet(set) => {
            let (s2, u) = roll_set_exec(set, dice, names);
            (LootTableEntry::ItemSet(s2), u)
        },
    }
}

fn keep_entries(entries: Vec<LootTableEntry>) -> (r: Vec<LootTableEntry>)
    ensures
        entries_view(r@) == entries_view(entries@).filter(keep_entry_pred()),
{
    let ghost ev = entries_view(entries@);
    let mut r: Vec<LootTableEntry> = Vec::new();
    for e in iter: entries.into_iter()
        invariant
            ev == entries_view(iter.seq()),
            entries_view(r@) == entries_view(iter.seq()).take(iter.index() as int).filter(keep_entry_pred()),
    {
        let ghost i = iter.index();
        let ghost sq = entries_view(iter.seq());
        proof { reveal(Seq::filter); }
        assert(sq.take(i + 1).drop_last() =~= sq.take(i as int));
        assert(sq.take(i + 1).last() == e@);
        let keep = if e.is_out_of_stock() {
            false
        } else {
            match &e {
                LootTableEntry::ItemSet(s) => s.items.len() != 0,
                LootTableEntry::Item(_) => true,
            }
        };
        if keep {
            r.push(e);
            assert(entries_view(r@) =~= sq.take(i as int).filter(keep_entry_pred()).push(sq[i as int]));
        }
    }
    assert(ev.take(ev.len() as int) =~= ev);
    r
}

impl LootTable {
    /// Rolls the table once: the names rolled (one per unit), and whether
    /// the table changed. The table keeps the stock that was taken and loses
    /// what ran out. The draws are random: the outcome is the roll of some
    /// sequence of draws.
    pub fn roll(&mut self) -> (r: (Vec<String>, bool))
        requires
            entries_wf(entries_view(old(self).entries@)),
        ensures
            exists|ds: Seq<int>| #[trigger] roll_spec(entries_view(old(self).entries@), ds)
                == (entries_view(final(self).entries@), names_view(r.0@), r.1),
            entries_wf(entries_view(final(self).entries@)),
            final(self)._id == old(self)._id,
            final(self).universe_id == old(self).universe_id,
            final(self).channel_id == old(self).channel_id,
            final(self).raw_text == old(self).raw_text,
            final(self).rate_limit == old(self).rate_limit,
            final(self).delay == old(self).delay,
            final(self).last_loot == old(self).last_loot,
    {
        let ghost es = entries_view(self.entries@);
        let mut dice = Dice::new();
        let r = self.roll_using(&mut dice);
        proof {
            let dv = dice.drawn@;
            assert(roll_spec(es, dv + Seq::<int>::empty()) == (entries_view(self.entries@), names_view(r.0@), r.1));
            assert(dv + Seq::<int>::empty() =~= dv);
            assert(roll_spec(es, dv) == (entries_view(self.entries@), names_view(r.0@), r.1));
        }
        r
    }

    /// Rolls the table once with the draws `draws`, read in order, each
    /// reduced into its range, and zeros once they are spent: the same rules
    /// as `roll`, on given draws.
    pub fn roll_with(&mut self, draws: Vec<u64>) -> (r: (Vec<String>, bool))
        requires
            entries_wf(entries_view(old(self).entries@)),
        ensures
            roll_spec(entries_view(old(self).entries@), draws_view(draws@))
                == (entries_view(final(self).entries@), names_view(r.0@), r.1),
            entries_wf(entries_view(final(self).entries@)),
            final(self)._id == old(self)._id,
            final(self).universe_id == old(self).universe_id,
            final(self).channel_id == old(self).channel_id,
            final(self).raw_text == old(self).raw_text,
            final(self).rate_limit == old(self).rate_limit,
            final(self).delay == old(self).delay,
            final(self).last_loot == old(self).last_loot,
    {
        let ghost es = entries_view(self.entries@);
        let ghost sv = draws_view(draws@);
        let mut dice = Dice::replaying(draws);
        let r = self.roll_using(&mut dice);
        proof {
            let dv = dice.drawn@;
            if dv.len() <= sv.len() {
                assert forall|i: int| 0 <= i < dv.len() implies dv[i] == sv[i] by {
                    assert(dv[i] == stream_at(sv, i));
                }
                assert(dv + sv.skip(dv.len() as int) =~= sv);
                assert(roll_spec(es, dv + sv.skip(dv.len() as int))
                    == (entries_view(self.entries@), names_view(r.0@), r.1));
            } else {
                assert forall|i: int| #[trigger] stream_at(dv, i) == stream_at(sv, i) by {
                    if 0 <= i < dv.len() {
                        assert(dv[i] == stream_at(sv, i));
                    }
                }
                lemma_roll_spec_stream(es, dv, sv);
                assert(dv + Seq::<int>::empty() =~= dv);
                assert(roll_spec(es, dv + Seq::<int>::empty())
                    == (entries_view(self.entries@), names_view(r.0@), r.1));
            }
        }
        r
    }

    fn roll_using(&mut self, dice: &mut Dice) -> (r: (Vec<String>, bool))
        requires
            entries_wf(entries_view(old(self).entries@)),
            old(dice).wf(),
            old(dice).drawn@ == Seq::<int>::empty(),
        ensures
            Dice::keeps(*old(dice), *final(dice)),
            forall|rest: Seq<int>| #[trigger] roll_spec(entries_view(old(self).entries@), final(dice).drawn@ + rest)
                == (entries_view(final(self).entries@), names_view(r.0@), r.1),
            entries_wf(entries_view(final(self).entries@)),
            final(self)._id == old(self)._id,
            final(self).universe_id == old(self).universe_id,
            final(self).channel_id == old(self).channel_id,
            final(self).raw_text == old(self).raw_text,
            final(self).rate_limit == old(self).rate_limit,
            final(self).delay == old(self).delay,
            final(self).last_loot == old(self).last_loot,
    {
        let mut names: Vec<String> = Vec::new();
        let mut entries: Vec<LootTableEntry> = Vec::new();
        std::mem::swap(&mut entries, &mut self.entries);
        let ghost es = entries_view(entries@);
        let n = entries.len();
        let mut done: Vec<LootTableEntry> = Vec::new();
        let mut upd = false;
        proof {
            lemma_extends_refl(dice.drawn@);
            assert(es.take(0) =~= Seq::<EntryView>::empty());
            assert(names_view(names@) =~= Seq::<Seq<char>>::empty());
            assert(entries_view(done@) =~= Seq::<EntryView>::empty());
            assert forall|rest: Seq<int>| #[trigger] roll_entries(es.take(0), dice.drawn@ + rest)
                == (entries_view(done@), names_view(names@), upd, rest) by {
                assert(dice.drawn@ + rest =~= rest);
            }
        }
        for e in iter: entries.into_iter()
            invariant
                es == entries_view(iter.seq()),
                entries_wf(es),
                entries_wf(entries_view(done@)),
                Dice::keeps(*old(dice), *dice),
                old(dice).drawn@ == Seq::<int>::empty(),
                forall|rest: Seq<int>| #[trigger] roll_entries(es.take(iter.index() as int), dice.drawn@ + rest)
                    == (entries_view(done@), names_view(names@), upd, rest),
        {
            let ghost i = iter.index();
            let ghost dk = dice.drawn@;
            let ghost ok = names_view(names@);
            let ghost donek = entries_view(done@);
            let ghost uk = upd;
            assert(es[i as int] == e@);
            assert(entry_wf(es[i as int]));
            let (e2, u) = roll_entry_exec(e, dice, &mut names);
            proof {
                lemma_extends_refl(Seq::<int>::empty());
                lemma_extends_split(Seq::<int>::empty(), dk, dice.drawn@, Seq::<int>::empty());
                assert forall|rest: Seq<int>| #[trigger] roll_entries(es.take(i + 1), dice.drawn@ + rest)
                    == (donek.push(e2@), names_view(names@), uk || u, rest) by {
                    let t = dice.drawn@.skip(dk.len() as int);
                    assert(dk.skip(0) =~= dk);
                    assert(dice.drawn@ + rest =~= dk + (t + rest));
                    assert(es.take(i + 1).drop_last() =~= es.take(i as int));
                    assert(es.take(i + 1).last() == es[i as int]);
                    assert(roll_entries(es.take(i as int), dk + (t + rest)) == (donek, ok, uk, t + rest));
                    assert(roll_entry(es[i as int], t + rest) == (e2@, names_view(names@).skip(ok.len() as int), u, rest));
                    assert(ok + names_view(names@).skip(ok.len() as int) =~= names_view(names@));
                }
            }
            done.push(e2);
            assert(entries_view(done@) =~= donek.push(e2@));
            upd = upd || u;
        }
        assert(es.take(es.len() as int) =~= es);
        let before = done.len();
        let kept = keep_entries(done);
        let shrunk = kept.len() != before;
        proof {
            let a = roll_entries(es, dice.drawn@ + Seq::<int>::empty()).0;
            assert(dice.drawn@ + Seq::<int>::empty() =~= dice.drawn@);
            lemma_filter_entries_wf(a);
        }
        self.entries = kept;
        proof {
            assert forall|rest: Seq<int>| #[trigger] roll_spec(es, dice.drawn@ + rest)
                == (entries_view(self.entries@), names_view(names@), upd || shrunk) by {
                assert(roll_entries(es, dice.drawn@ + rest).0 == roll_entries(es, dice.drawn@ + Seq::<int>::empty()).0);
            }
        }
        (names, upd || shrunk)
    }
}

/// `a` and `b` read the same draws: equal where both are given, zeros
/// where one has run out.
pub open spec fn same_stream(a: Seq<int>, b: Seq<int>) -> bool {
    forall|i: int| #[trigger] stream_at(a, i) == stream_at(b, i)
}

proof fn lemma_stream_step(a: Seq<int>, b: Seq<int>)
    requires
        same_stream(a, b),
    ensures
        head(a) == head(b),
        same_stream(tail(a), tail(b)),
{
    assert(stream_at(a, 0) == stream_at(b, 0));
    assert forall|i: int| #[trigger] stream_at(tail(a), i) == stream_at(tail(b), i) by {
        if i >= 0 {
            assert(stream_at(a, i + 1) == stream_at(b, i + 1));
        }
    }
}

proof fn lemma_roll_item_stream(it: ItemView, a: Seq<int>, b: Seq<int>)
    requires
        same_stream(a, b),
    ensures
        roll_item(it, a).0 == roll_item(it, b).0,
        roll_item(it, a).1 == roll_item(it, b).1,
        roll_item(it, a).2 == roll_item(it, b).2,
        same_stream(roll_item(it, a).3, roll_item(it, b).3),
{
    lemma_stream_step(a, b);
    lemma_stream_step(tail(a), tail(b));
}

proof fn lemma_pick_stream(items: Seq<ItemView>, a: Seq<int>, b: Seq<int>)
    requires
        same_stream(a, b),
    ensures
        pick(items, a).0 == pick(items, b).0,
        pick(items, a).1 == pick(items, b).1,
        pick(items, a).2 == pick(items, b).2,
        same_stream(pick(items, a).3, pick(items, b).3),
{
    lemma_stream_step(a, b);
    lemma_stream_step(tail(a), tail(b));
}

proof fn lemma_picks_stream(items: Seq<ItemView>, n: int, a: Seq<int>, b: Seq<int>)
    requires
        same_stream(a, b),
    ensures
        picks(items, n, a).0 == picks(items, n, b).0,
        picks(items, n, a).1 == picks(items, n, b).1,
        picks(items, n, a).2 == picks(items, n, b).2,
        same_stream(picks(items, n, a).3, picks(items, n, b).3),
    decreases n,
{
    if n > 0 {
        lemma_picks_stream(items, n - 1, a, b);
        let (i1, _r1, _u1, d1) = picks(items, n - 1, a);
        let e1 = picks(items, n - 1, b).3;
        lemma_pick_stream(i1, d1, e1);
    }
}

proof fn lemma_roll_set_stream(st: SetView, a: Seq<int>, b: Seq<int>)
    requires
        same_stream(a, b),
    ensures
        roll_set(st, a).0 == roll_set(st, b).0,
        roll_set(st, a).1 == roll_set(st, b).1,
        roll_set(st, a).2 == roll_set(st, b).2,
        same_stream(roll_set(st, a).3, roll_set(st, b).3),
{
    lemma_stream_step(a, b);
    lemma_stream_step(tail(a), tail(b));
    let n = quantity(st.min, st.max, head(tail(a)));
    lemma_picks_stream(st.items, n, tail(tail(a)), tail(tail(b)));
}

proof fn lemma_roll_entry_stream(e: EntryView, a: Seq<int>, b: Seq<int>)
    requires
        same_stream(a, b),
    ensures
        roll_entry(e, a).0 == roll_entry(e, b).0,
        roll_entry(e, a).1 == roll_entry(e, b).1,
        roll_entry(e, a).2 == roll_entry(e, b).2,
        same_stream(roll_entry(e, a).3, roll_entry(e, b).3),
{
    match e {
        EntryView::Item(it) => lemma_roll_item_stream(it, a, b),
        EntryView::ItemSet(st) => lemma_roll_set_stream(st, a, b),
    }
}

proof fn lemma_roll_entries_stream(es: Seq<EntryView>, a: Seq<int>, b: Seq<int>)
    requires
        same_stream(a, b),
    ensures
        roll_entries(es, a).0 == roll_entries(es, b).0,
        roll_entries(es, a).1 == roll_entries(es, b).1,
        roll_entries(es, a).2 == roll_entries(es, b).2,
        same_stream(roll_entries(es, a).3, roll_entries(es, b).3),
    decreases es.len(),
{
    if es.len() > 0 {
        lemma_roll_entries_stream(es.drop_last(), a, b);
        lemma_roll_entry_stream(es.last(), roll_entries(es.drop_last(), a).3, roll_entries(es.drop_last(), b).3);
    }
}

/// A roll depends on its draws only through the stream they read.
proof fn lemma_roll_spec_stream(es: Seq<EntryView>, a: Seq<int>, b: Seq<int>)
    requires
        same_stream(a, b),
    ensures
        roll_spec(es, a) == roll_spec(es, b),
{
    lemma_roll_entries_stream(es, a, b);
}

proof fn lemma_filter_entries_wf(s: Seq<EntryView>)
    requires
        entries_wf(s),
    ensures
        entries_wf(s.filter(keep_entry_pred())),
    decreases s.len(),
{
    reveal(Seq::filter);
    if s.len() > 0 {
        lemma_filter_entries_wf(s.drop_last());
        assert(entry_wf(s[s.len() - 1]));
    }
}

} // verus!
