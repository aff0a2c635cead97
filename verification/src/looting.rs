//! A player's loot in a channel: the rate limits of the channel's table and
//! of its category's table, the rolls, what becomes of each table, and how
//! long the loot takes.
use vstd::prelude::*;
use crate::loot_tables::{LootTable, LastLoot, entries_view};
use crate::loot::{roll_spec, entries_wf, names_view};
use crate::text::{decimal, decimal_chars, message, chars_of, chars_eq};

verus! {

/// When a player last looted a table, as plain values.
pub struct LastLootView {
    pub character_id: Seq<char>,
    pub timestamp: i64,
}

impl View for LastLoot {
    type V = LastLootView;

    open spec fn view(&self) -> LastLootView {
        LastLootView { character_id: self.character_id@, timestamp: self.timestamp }
    }
}

pub open spec fn records_view(v: Seq<LastLoot>) -> Seq<LastLootView> {
    v.map_values(|r: LastLoot| r@)
}

pub open spec fn last_loots_view(l: Option<Vec<LastLoot>>) -> Option<Seq<LastLootView>> {
    match l {
        Some(v) => Some(records_view(v@)),
        None => None,
    }
}

/// The position of the record of a character, if any.
pub open spec fn record_pos(rs: Seq<LastLootView>, character_id: Seq<char>) -> Option<int>
    decreases rs.len(),
{
    if rs.len() == 0 {
        None
    } else {
        match record_pos(rs.drop_last(), character_id) {
            Some(i) => Some(i),
            None => if rs.last().character_id == character_id { Some(rs.len() - 1) } else { None },
        }
    }
}

/// When a character last looted, by its record.
pub open spec fn last_loot_at(rs: Seq<LastLootView>, character_id: Seq<char>) -> Option<i64> {
    match record_pos(rs, character_id) {
        Some(i) => Some(rs[i].timestamp),
        None => None,
    }
}

/// The records once a character's loot at `now` is recorded: its record is
/// replaced, or added at the end.
pub open spec fn record_spec(rs: Seq<LastLootView>, character_id: Seq<char>, now: i64) -> Seq<LastLootView> {
    match record_pos(rs, character_id) {
        Some(i) => rs.update(i, LastLootView { character_id, timestamp: now }),
        None => rs.push(LastLootView { character_id, timestamp: now }),
    }
}

/// The seconds elapsed from `then` to `now`, as a `u64` (an instant after
/// `now` wraps to a very large number).
pub open spec fn elapsed_secs(now: i64, then: i64) -> int {
    (now - then) % 0x1_0000_0000_0000_0000int
}

/// The seconds a character must still wait before looting a table again.
pub open spec fn wait_spec(rate_limit: Option<u64>, records: Option<Seq<LastLootView>>, character_id: Seq<char>, now: i64) -> Option<u64> {
    match (rate_limit, records) {
        (Some(limit), Some(rs)) => match last_loot_at(rs, character_id) {
            Some(t) => if elapsed_secs(now, t) < limit { Some((limit - elapsed_secs(now, t)) as u64) } else { None },
            None => None,
        },
        _ => None,
    }
}

pub open spec fn table_wait(t: LootTable, character_id: Seq<char>, now: i64) -> Option<u64> {
    wait_spec(t.rate_limit, last_loots_view(t.last_loot), character_id, now)
}

/// What is to become of a loot table after a loot.
#[derive(Clone, Copy, Debug, PartialEq, Eq, Structural)]
pub enum TableFate {
    /// Nothing to store.
    Keep,
    /// The table changed, or it limits its rate: it is stored again.
    Save,
    /// Nothing is left in it: it is deleted.
    Delete,
}

pub open spec fn fate_of(entries_left: nat, updated: bool, rate_limit: Option<u64>) -> TableFate {
    if entries_left == 0 {
        TableFate::Delete
    } else if updated || rate_limit is Some {
        TableFate::Save
    } else {
        TableFate::Keep
    }
}

pub open spec fn records_or_empty(l: Option<Vec<LastLoot>>) -> Seq<LastLootView> {
    match l {
        Some(v) => records_view(v@),
        None => Seq::empty(),
    }
}

/// `new` is `old` rolled with the draws `ds` by a character at `now`:
/// `names` dropped, `fate` is what becomes of the table, and a table that
/// limits its rate and is stored again records the loot.
pub open spec fn looted_with(old: LootTable, new: LootTable, names: Seq<Seq<char>>, fate: TableFate, character_id: Seq<char>, now: i64, ds: Seq<int>) -> bool {
    let (ents, got, upd) = roll_spec(entries_view(old.entries@), ds);
    &&& entries_view(new.entries@) == ents
    &&& names == got
    &&& fate == fate_of(ents.len(), upd, old.rate_limit)
    &&& new._id == old._id
    &&& new.universe_id == old.universe_id
    &&& new.channel_id == old.channel_id
    &&& new.raw_text == old.raw_text
    &&& new.rate_limit == old.rate_limit
    &&& new.delay == old.delay
    &&& last_loots_view(new.last_loot) == (if fate == TableFate::Save && old.rate_limit is Some {
        Some(record_spec(records_or_empty(old.last_loot), character_id, now))
    } else {
        last_loots_view(old.last_loot)
    })
}

pub open spec fn looted(old: LootTable, new: LootTable, names: Seq<Seq<char>>, fate: TableFate, character_id: Seq<char>, now: i64) -> bool {
    exists|ds: Seq<int>| #[trigger] looted_with(old, new, names, fate, character_id, now, ds)
}

/// The message of a refused loot: the seconds left to wait.
pub open spec fn rate_limited_message(wait: u64) -> Seq<char> {
    "error:loot_table__rate_limited:"@ + decimal(wait as nat)
}

/// The longer of a table's delay and `acc`.
pub open spec fn delay_with(d: Option<u64>, acc: u64) -> u64 {
    match d {
        Some(x) => if x > acc { x } else { acc },
        None => acc,
    }
}

pub open spec fn table_delay(t: Option<LootTable>, acc: u64) -> u64 {
    match t {
        Some(x) => delay_with(x.delay, acc),
        None => acc,
    }
}

pub open spec fn tables_wf(t: Option<LootTable>) -> bool {
    t matches Some(x) ==> entries_wf(entries_view(x.entries@))
}

fn last_loot_of(records: &Vec<LastLoot>, character_id: &[char]) -> (r: Option<i64>)
    ensures
        r == last_loot_at(records_view(records@), character_id@),
{
    let ghost rs = records_view(records@);
    let mut i: usize = 0;
    assert(rs.take(0) =~= Seq::<LastLootView>::empty());
    while i < records.len()
        invariant
            rs == records_view(records@),
            i <= records@.len(),
            record_pos(rs.take(i as int), character_id@) is None,
        decreases records@.len() - i,
    {
        assert(rs.take(i + 1).drop_last() =~= rs.take(i as int));
        assert(rs[i as int] == records@[i as int]@);
        let id = chars_of(records[i].character_id.as_str());
        if chars_eq(&id, character_id) {
            proof {
                assert(record_pos(rs.take(i + 1), character_id@) == Some(i as int));
                lemma_record_pos_prefix(rs, character_id@, i + 1, rs.len() as int);
                assert(rs.take(rs.len() as int) =~= rs);
            }
            return Some(records[i].timestamp);
        }
        i = i + 1;
    }
    assert(rs.take(rs.len() as int) =~= rs);
    None
}

proof fn lemma_record_pos_prefix(rs: Seq<LastLootView>, character_id: Seq<char>, k: int, m: int)
    requires
        0 <= k <= m <= rs.len(),
        record_pos(rs.take(k), character_id) is Some,
    ensures
        record_pos(rs.take(m), character_id) == record_pos(rs.take(k), character_id),
    decreases m - k,
{
    if m > k {
        lemma_record_pos_prefix(rs, character_id, k, m - 1);
        assert(rs.take(m).drop_last() =~= rs.take(m - 1));
    }
}

fn record_loot(records: &mut Vec<LastLoot>, character_id: &[char], now: i64)
    ensures
        records_view(final(records)@) == record_spec(records_view(old(records)@), character_id@, now),
{
    let ghost rs = records_view(records@);
    let mut i: usize = 0;
    assert(rs.take(0) =~= Seq::<LastLootView>::empty());
    while i < records.len()
        invariant
            rs == records_view(records@),
            rs == records_view(old(records)@),
            i <= records@.len(),
            record_pos(rs.take(i as int), character_id@) is None,
        decreases records@.len() - i,
    {
        assert(rs.take(i + 1).drop_last() =~= rs.take(i as int));
        assert(rs[i as int] == records@[i as int]@);
        let id = chars_of(records[i].character_id.as_str());
        if chars_eq(&id, character_id) {
            proof {
                assert(record_pos(rs.take(i + 1), character_id@) == Some(i as int));
                lemma_record_pos_prefix(rs, character_id@, i + 1, rs.len() as int);
                assert(rs.take(rs.len() as int) =~= rs);
            }
            records.set(i, LastLoot { character_id: crate::text::string_of(character_id), timestamp: now });
            assert(records_view(records@) =~= record_spec(rs, character_id@, now));
            return;
        }
        i = i + 1;
    }
    assert(rs.take(rs.len() as int) =~= rs);
    records.push(LastLoot { character_id: crate::text::string_of(character_id), timestamp: now });
    assert(records_view(records@) =~= record_spec(rs, character_id@, now));
}

/// `(now - then) mod 2^64`, which is what `now - then` in seconds reads as
/// once cast to a `u64`.
fn elapsed(now: i64, then: i64) -> (r: u128)
    ensures
        r == elapsed_secs(now, then),
        r < 0x1_0000_0000_0000_0000,
{
    let d: i128 = now as i128 - then as i128;
    if d >= 0 {
        assert((d as int) % 0x1_0000_0000_0000_0000int == d as int) by {
            vstd::arithmetic::div_mod::lemma_small_mod(d as nat, 0x1_0000_0000_0000_0000nat);
        }
        d as u128
    } else {
        let e: i128 = d + 0x1_0000_0000_0000_0000i128;
        assert((d as int) % 0x1_0000_0000_0000_0000int == e as int) by {
            vstd::arithmetic::div_mod::lemma_fundamental_div_mod_converse(d as int, 0x1_0000_0000_0000_0000int, -1, e as int);
        }
        e as u128
    }
}

impl LootTable {
    /// The seconds a character must still wait before looting this table
    /// again: the table limits its rate and the character looted it less
    /// than the limit ago.
    pub fn rate_limit_wait(&self, character_id: &str, now: i64) -> (r: Option<u64>)
        ensures
            r == table_wait(*self, character_id@, now),
    {
        let ch = chars_of(character_id);
        match self.rate_limit {
            None => None,
            Some(limit) => match &self.last_loot {
                None => None,
                Some(records) => match last_loot_of(records, &ch) {
                    None => None,
                    Some(t) => {
                        let e = elapsed(now, t);
                        if e < limit as u128 {
                            Some((limit as u128 - e) as u64)
                        } else {
                            None
                        }
                    },
                },
            },
        }
    }

    /// Rolls the table for a character at `now`: the names that dropped and
    /// what is to become of the table. A table that limits its rate and is
    /// stored again records the loot.
    pub fn loot_for(&mut self, character_id: &str, now: i64) -> (r: (Vec<String>, TableFate))
        requires
            entries_wf(entries_view(old(self).entries@)),
        ensures
            looted(*old(self), *final(self), names_view(r.0@), r.1, character_id@, now),
            entries_wf(entries_view(final(self).entries@)),
    {
        let ghost before = *self;
        let (names, updated) = self.roll();
        let ghost ds = choose|ds: Seq<int>| #[trigger] roll_spec(entries_view(before.entries@), ds)
            == (entries_view(self.entries@), names_view(names@), updated);
        assert(entries_view(self.entries@).len() == self.entries@.len());
        let fate = if self.entries.len() == 0 {
            TableFate::Delete
        } else if updated || self.rate_limit.is_some() {
            if self.rate_limit.is_some() {
                let ch = chars_of(character_id);
                let mut records = match self.last_loot.take() {
                    Some(v) => v,
                    None => Vec::new(),
                };
                assert(records_view(records@) == records_or_empty(before.last_loot));
                record_loot(&mut records, &ch, now);
                self.last_loot = Some(records);
            }
            TableFate::Save
        } else {
            TableFate::Keep
        };
        assert(looted_with(before, *self, names_view(names@), fate, character_id@, now, ds));
        (names, fate)
    }
}

/// What a loot gives: the names that dropped, one per unit, and the
/// seconds it takes.
#[derive(Debug)]
pub struct LootGain {
    pub items: Vec<String>,
    pub delay: u64,
}

/// The outcome of a loot: each table as it now is, what becomes of it and
/// what it gave, and the loot itself or the reason it was refused.
#[derive(Debug)]
pub struct LootOutcome {
    pub channel: Option<LootTable>,
    pub channel_fate: TableFate,
    pub channel_items: Vec<String>,
    pub category: Option<LootTable>,
    pub category_fate: TableFate,
    pub category_items: Vec<String>,
    pub result: Result<LootGain, String>,
}

pub open spec fn err_is(r: Result<LootGain, String>, m: Seq<char>) -> bool {
    r matches Err(e) && e@ == m
}

/// A table left as it was: it gave nothing and nothing becomes of it.
pub open spec fn part_unchanged(t_in: Option<LootTable>, t_out: Option<LootTable>, names: Seq<Seq<char>>, fate: TableFate) -> bool {
    t_out == t_in && names.len() == 0 && fate == TableFate::Keep
}

/// A table looted, if there is one.
pub open spec fn part_looted(t_in: Option<LootTable>, t_out: Option<LootTable>, names: Seq<Seq<char>>, fate: TableFate, character_id: Seq<char>, now: i64) -> bool {
    match (t_in, t_out) {
        (None, None) => names.len() == 0 && fate == TableFate::Keep,
        (Some(a), Some(b)) => looted(a, b, names, fate, character_id, now),
        _ => false,
    }
}

pub open spec fn opt_wait(t: Option<LootTable>, character_id: Seq<char>, now: i64) -> Option<u64> {
    match t {
        Some(x) => table_wait(x, character_id, now),
        None => None,
    }
}

/// A loot in a channel, in order: refused in a channel of the server's
/// setup; refused while the channel's table's rate limit runs; the
/// channel's table is rolled; refused while the category's table's rate
/// limit runs if the channel gave nothing, else the category's table is
/// rolled; refused if nothing dropped. The loot takes the longest delay of
/// the two tables (none: no delay).
pub open spec fn loot_spec(channel: Option<LootTable>, category: Option<LootTable>, in_setup_channel: bool, character_id: Seq<char>, now: i64, out: LootOutcome) -> bool {
    let cn = names_view(out.channel_items@);
    let kn = names_view(out.category_items@);
    if in_setup_channel {
        &&& part_unchanged(channel, out.channel, cn, out.channel_fate)
        &&& part_unchanged(category, out.category, kn, out.category_fate)
        &&& err_is(out.result, "loot_table__setup_channel"@)
    } else if opt_wait(channel, character_id, now) is Some {
        &&& part_unchanged(channel, out.channel, cn, out.channel_fate)
        &&& part_unchanged(category, out.category, kn, out.category_fate)
        &&& err_is(out.result, rate_limited_message(opt_wait(channel, character_id, now)->0))
    } else {
        &&& part_looted(channel, out.channel, cn, out.channel_fate, character_id, now)
        &&& if opt_wait(category, character_id, now) is Some && cn.len() == 0 {
            &&& part_unchanged(category, out.category, kn, out.category_fate)
            &&& err_is(out.result, rate_limited_message(opt_wait(category, character_id, now)->0))
        } else {
            &&& part_looted(category, out.category, kn, out.category_fate, character_id, now)
            &&& if cn.len() + kn.len() == 0 {
                err_is(out.result, "loot_table__no_loot_found"@)
            } else {
                out.result matches Ok(g) && names_view(g.items@) == cn + kn
                    && g.delay == table_delay(category, table_delay(channel, 0))
            }
        }
    }
}

fn rate_limited(wait: u64) -> (m: String)
    ensures
        m@ == rate_limited_message(wait),
{
    let d = decimal_chars(wait);
    message("error:loot_table__rate_limited:", &d)
}

fn append_names(out: &mut Vec<String>, more: &Vec<String>)
    ensures
        names_view(final(out)@) == names_view(old(out)@) + names_view(more@),
{
    let ghost start = names_view(out@);
    let mut i: usize = 0;
    while i < more.len()
        invariant
            i <= more@.len(),
            names_view(out@) == start + names_view(more@).take(i as int),
        decreases more@.len() - i,
    {
        let ghost prev = out@;
        out.push(more[i].clone());
        assert(names_view(out@) =~= names_view(prev).push(more@[i as int]@));
        assert(names_view(more@).take(i + 1) =~= names_view(more@).take(i as int).push(more@[i as int]@));
        assert(names_view(out@) =~= start + names_view(more@).take(i + 1));
        i = i + 1;
    }
    assert(names_view(more@).take(more@.len() as int) =~= names_view(more@));
}

/// Why a player cannot loot now, if they cannot: they are travelling,
/// crafting or already looting (checked in that order).
pub open spec fn loot_refusal_spec(in_move: bool, crafting: bool, looting: bool) -> Option<Seq<char>> {
    if in_move {
        Some("loot_table__already_moving"@)
    } else if crafting {
        Some("loot_table__already_crafting"@)
    } else if looting {
        Some("loot_table__already_looting"@)
    } else {
        None
    }
}

pub fn loot_refusal(in_move: bool, crafting: bool, looting: bool) -> (r: Option<String>)
    ensures
        match (r, loot_refusal_spec(in_move, crafting, looting)) {
            (None, None) => true,
            (Some(a), Some(b)) => a@ == b,
            _ => false,
        },
{
    if in_move {
        Some(String::from_str("loot_table__already_moving"))
    } else if crafting {
        Some(String::from_str("loot_table__already_crafting"))
    } else if looting {
        Some(String::from_str("loot_table__already_looting"))
    } else {
        None
    }
}

/// A player's loot in a channel, from the channel's table and the table of
/// the channel's category (where there is one), at `now` (seconds since the
/// Unix epoch); `in_setup_channel` says whether the channel is one of the
/// server's setup.
pub fn plan_loot(channel: Option<LootTable>, category: Option<LootTable>, in_setup_channel: bool, character_id: &str, now: i64) -> (out: LootOutcome)
    requires
        tables_wf(channel),
        tables_wf(category),
    ensures
        loot_spec(channel, category, in_setup_channel, character_id@, now, out),
{
    let mut channel = channel;
    let mut category = category;
    let ghost ch0 = channel;
    let ghost ca0 = category;
    if in_setup_channel {
        return LootOutcome {
            channel, channel_fate: TableFate::Keep, channel_items: Vec::new(),
            category, category_fate: TableFate::Keep, category_items: Vec::new(),
            result: Err(String::from_str("loot_table__setup_channel")),
        };
    }
    let cwait = match &channel {
        Some(t) => t.rate_limit_wait(character_id, now),
        None => None,
    };
    if let Some(w) = cwait {
        return LootOutcome {
            channel, channel_fate: TableFate::Keep, channel_items: Vec::new(),
            category, category_fate: TableFate::Keep, category_items: Vec::new(),
            result: Err(rate_limited(w)),
        };
    }
    let mut delay: u64 = 0;
    let (channel_items, channel_fate) = match &mut channel {
        Some(t) => {
            delay = match t.delay {
                Some(d) => if d > delay { d } else { delay },
                None => delay,
            };
            t.loot_for(character_id, now)
        },
        None => (Vec::new(), TableFate::Keep),
    };
    let kwait = match &category {
        Some(t) => t.rate_limit_wait(character_id, now),
        None => None,
    };
    if let Some(w) = kwait {
        if channel_items.len() == 0 {
            return LootOutcome {
                channel, channel_fate, channel_items,
                category, category_fate: TableFate::Keep, category_items: Vec::new(),
                result: Err(rate_limited(w)),
            };
        }
    }
    let (category_items, category_fate) = match &mut category {
        Some(t) => {
            delay = match t.delay {
                Some(d) => if d > delay { d } else { delay },
                None => delay,
            };
            t.loot_for(character_id, now)
        },
        None => (Vec::new(), TableFate::Keep),
    };
    if channel_items.len() == 0 && category_items.len() == 0 {
        return LootOutcome {
            channel, channel_fate, channel_items,
            category, category_fate, category_items,
            result: Err(String::from_str("loot_table__no_loot_found")),
        };
    }
    let mut items: Vec<String> = Vec::new();
    assert(names_view(items@) =~= Seq::<Seq<char>>::empty());
    append_names(&mut items, &channel_items);
    append_names(&mut items, &category_items);
    assert(names_view(channel_items@) + names_view(category_items@) =~= Seq::<Seq<char>>::empty() + names_view(channel_items@) + names_view(category_items@));
    LootOutcome {
        channel, channel_fate, channel_items,
        category, category_fate, category_items,
        result: Ok(LootGain { items, delay }),
    }
}


proof fn lemma_record_pos_found(rs: Seq<LastLootView>, ch: Seq<char>)
    ensures
        record_pos(rs, ch) matches Some(i) ==> 0 <= i < rs.len() && rs[i].character_id == ch
            && forall|k: int| 0 <= k < i ==> rs[k].character_id != ch,
        record_pos(rs, ch) is None ==> forall|k: int| 0 <= k < rs.len() ==> rs[k].character_id != ch,
    decreases rs.len(),
{
    if rs.len() > 0 {
        let t = rs.drop_last();
        lemma_record_pos_found(t, ch);
        assert forall|k: int| 0 <= k < t.len() implies t[k] == rs[k] by {}
    }
}

/// The record of a character is the first one with its identifier.
proof fn lemma_record_pos_is(rs: Seq<LastLootView>, ch: Seq<char>, i: int)
    requires
        0 <= i < rs.len(),
        rs[i].character_id == ch,
        forall|k: int| 0 <= k < i ==> rs[k].character_id != ch,
    ensures
        record_pos(rs, ch) == Some(i),
    decreases rs.len(),
{
    if i == rs.len() - 1 {
        lemma_record_pos_found(rs.drop_last(), ch);
        if record_pos(rs.drop_last(), ch) is Some {
            let j = record_pos(rs.drop_last(), ch)->0;
            assert(rs.drop_last()[j] == rs[j]);
        }
    } else {
        lemma_record_pos_is(rs.drop_last(), ch, i);
    }
}

proof fn lemma_record_pos_absent(rs: Seq<LastLootView>, ch: Seq<char>)
    requires
        forall|k: int| 0 <= k < rs.len() ==> rs[k].character_id != ch,
    ensures
        record_pos(rs, ch) is None,
{
    lemma_record_pos_found(rs, ch);
}

/// A character who has just looted a table that limits its rate must wait
/// the whole limit before looting it again (no wait for a zero limit).
pub proof fn lemma_just_looted_waits_whole_limit(rs: Seq<LastLootView>, character_id: Seq<char>, limit: u64, now: i64)
    ensures
        wait_spec(Some(limit), Some(record_spec(rs, character_id, now)), character_id, now)
            == (if limit > 0 { Some(limit) } else { None::<u64> }),
{
    lemma_record_pos_found(rs, character_id);
    let r = record_spec(rs, character_id, now);
    match record_pos(rs, character_id) {
        Some(i) => {
            lemma_record_pos_is(r, character_id, i);
        },
        None => {
            lemma_record_pos_is(r, character_id, rs.len() as int);
        },
    }
    assert(elapsed_secs(now, now) == 0);
}

/// Recording a character's loot leaves every other character's last loot
/// as it was.
pub proof fn lemma_record_keeps_others(rs: Seq<LastLootView>, character_id: Seq<char>, other: Seq<char>, now: i64)
    requires
        other != character_id,
    ensures
        last_loot_at(record_spec(rs, character_id, now), other) == last_loot_at(rs, other),
{
    lemma_record_pos_found(rs, character_id);
    lemma_record_pos_found(rs, other);
    let r = record_spec(rs, character_id, now);
    assert forall|k: int| 0 <= k < rs.len() implies ((#[trigger] r[k]).character_id == other) == (rs[k].character_id == other) by {
        match record_pos(rs, character_id) {
            Some(i) => {
                if k != i {
                    assert(r[k] == rs[k]);
                }
            },
            None => {
                assert(r[k] == rs[k]);
            },
        }
    }
    match record_pos(rs, other) {
        Some(i) => {
            lemma_record_pos_is(r, other, i);
        },
        None => {
            lemma_record_pos_absent(r, other);
        },
    }
}


/// A table's loot delay: its delay, or none (zero).
pub open spec fn delay_of(t: Option<LootTable>) -> u64 {
    match t {
        Some(x) => match x.delay {
            Some(d) => d,
            None => 0,
        },
        None => 0,
    }
}

/// A loot that succeeds takes the longest of the delays of the channel's
/// and the category's tables: no less than either, and equal to one of them
/// (zero when neither has a delay).
pub proof fn lemma_loot_delay_is_longest(channel: Option<LootTable>, category: Option<LootTable>, in_setup_channel: bool, character_id: Seq<char>, now: i64, out: LootOutcome)
    requires
        loot_spec(channel, category, in_setup_channel, character_id, now, out),
    ensures
        out.result matches Ok(g) ==> {
            &&& g.delay >= delay_of(channel)
            &&& g.delay >= delay_of(category)
            &&& (g.delay == delay_of(channel) || g.delay == delay_of(category))
        },
{
}

} // verus!
