//! Moving items between a character and a tool's inventory.
//!
//! Each line of a request reads `> name [quantity]` (from the tool to the
//! character) or `< name [quantity]` (from the character to the tool); the
//! quantity is the last space-separated word when there is one (one if it
//! does not read as a number). The request is checked line by line against
//! both inventories, then against the tool's size; what each inventory
//! gains or loses is then applied.
use vstd::prelude::*;
use crate::text::{chars_of, string_of, trim, trim_range, split_on, split_chars, parse_u64_spec, parse_u64, slice_range, message, message3, decimal, decimal_chars};
use crate::document::DocumentId;
use crate::recipe_parser::{ItemLookup, ItemLookupView};

verus! {

/// The last position of `c` in `s`.
pub open spec fn last_pos(s: Seq<char>, c: char) -> Option<int>
    decreases s.len(),
{
    if s.len() == 0 {
        None
    } else if s.last() == c {
        Some(s.len() - 1)
    } else {
        last_pos(s.drop_last(), c)
    }
}

pub struct TransferLineView {
    pub mode: char,
    pub name: Seq<char>,
    pub qty: u64,
}

/// One line of a request: `None` for an empty line. The first character is
/// the direction; the rest, trimmed, is split at its last space into the
/// name and the quantity.
pub open spec fn transfer_line_spec(raw: Seq<char>) -> Option<TransferLineView> {
    let t = trim(raw);
    if t.len() == 0 {
        None
    } else {
        let rest = trim(t.drop_first());
        match last_pos(rest, ' ') {
            Some(p) => Some(TransferLineView {
                mode: t[0],
                name: rest.take(p),
                qty: match parse_u64_spec(rest.skip(p + 1)) {
                    Some(q) => q,
                    None => 1u64,
                },
            }),
            None => Some(TransferLineView { mode: t[0], name: rest, qty: 1u64 }),
        }
    }
}

pub open spec fn transfer_lines_upto(raws: Seq<Seq<char>>, k: int) -> Seq<TransferLineView>
    decreases k,
{
    if k <= 0 {
        Seq::empty()
    } else {
        match transfer_line_spec(raws[k - 1]) {
            Some(l) => transfer_lines_upto(raws, k - 1).push(l),
            None => transfer_lines_upto(raws, k - 1),
        }
    }
}

/// The lines of a request, in order.
pub open spec fn transfer_lines_spec(content: Seq<char>) -> Seq<TransferLineView> {
    let raws = split_on(content, '\n');
    transfer_lines_upto(raws, raws.len() as int)
}

/// Whether every line of a request that is not blank starts with an ASCII
/// character (its direction is read as the line's first byte).
pub open spec fn lines_start_ascii(content: Seq<char>) -> bool {
    let raws = split_on(content, '\n');
    forall|k: int| 0 <= k < raws.len() ==> (trim(#[trigger] raws[k]).len() > 0 ==> (trim(raws[k])[0] as u32) < 128)
}

/// One line of a request.
#[derive(Debug)]
pub struct TransferLine {
    pub mode: char,
    pub name: String,
    pub qty: u64,
}

impl View for TransferLine {
    type V = TransferLineView;

    open spec fn view(&self) -> TransferLineView {
        TransferLineView { mode: self.mode, name: self.name@, qty: self.qty }
    }
}

pub open spec fn transfer_lines_view(v: Seq<TransferLine>) -> Seq<TransferLineView> {
    v.map_values(|l: TransferLine| l@)
}

/// Counts of items, as a map: the count of an item is that of its entry,
/// or 0 without one.
pub open spec fn count_of(v: Seq<(DocumentId, u64)>, id: DocumentId) -> u64
    decreases v.len(),
{
    if v.len() == 0 {
        0
    } else if v[0].0 == id {
        v[0].1
    } else {
        count_of(v.drop_first(), id)
    }
}

/// The counts with one item's count set: its entry is replaced, or one is
/// added at the end.
pub open spec fn set_count(v: Seq<(DocumentId, u64)>, id: DocumentId, n: u64) -> Seq<(DocumentId, u64)>
    decreases v.len(),
{
    if v.len() == 0 {
        seq![(id, n)]
    } else if v[0].0 == id {
        v.update(0, (id, n))
    } else {
        seq![v[0]] + set_count(v.drop_first(), id, n)
    }
}

/// The counts of an inventory listing: a later entry of an item replaces an
/// earlier one.
pub open spec fn counts_from(list: Seq<(DocumentId, u64)>) -> Seq<(DocumentId, u64)>
    decreases list.len(),
{
    if list.len() == 0 {
        Seq::empty()
    } else {
        set_count(counts_from(list.drop_last()), list.last().0, list.last().1)
    }
}

pub struct TransferView {
    pub tool: Seq<(DocumentId, u64)>,
    pub character: Seq<(DocumentId, u64)>,
}

/// One line checked and applied, once its item was looked up. `None` where
/// a count would pass `u64::MAX`.
pub open spec fn step_spec(st: TransferView, line: TransferLineView, lookup: ItemLookupView) -> Option<Result<TransferView, Seq<char>>> {
    match lookup {
        ItemLookupView::Failed(e) => Some(Err(e)),
        ItemLookupView::Missing => Some(Err("Item not found: "@ + line.name)),
        ItemLookupView::Found(id) => {
            if line.mode == '>' {
                let cur = count_of(st.tool, id);
                if cur < line.qty {
                    Some(Err("Not enough "@ + line.name + " in tool"@))
                } else if count_of(st.character, id) + line.qty > u64::MAX {
                    None
                } else {
                    Some(Ok(TransferView {
                        tool: set_count(st.tool, id, (cur - line.qty) as u64),
                        character: set_count(st.character, id, (count_of(st.character, id) + line.qty) as u64),
                    }))
                }
            } else if line.mode == '<' {
                let cur = count_of(st.character, id);
                if cur < line.qty {
                    Some(Err("Not enough "@ + line.name + " in character inventory"@))
                } else if count_of(st.tool, id) + line.qty > u64::MAX {
                    None
                } else {
                    Some(Ok(TransferView {
                        character: set_count(st.character, id, (cur - line.qty) as u64),
                        tool: set_count(st.tool, id, (count_of(st.tool, id) + line.qty) as u64),
                    }))
                }
            } else {
                Some(Ok(st))
            }
        },
    }
}

/// The sum of the counts.
pub open spec fn total(v: Seq<(DocumentId, u64)>) -> int
    decreases v.len(),
{
    if v.len() == 0 {
        0
    } else {
        total(v.drop_last()) + v.last().1
    }
}

/// The tool's inventory must not hold more than its size. `None` where the
/// sum passes `u64::MAX`.
pub open spec fn size_check_spec(tool: Seq<(DocumentId, u64)>, size: u64) -> Option<Result<(), Seq<char>>> {
    if total(tool) > u64::MAX {
        None
    } else if total(tool) > size {
        Some(Err("Inventory size exceeded: "@ + decimal(total(tool) as nat) + "/"@ + decimal(size as nat)))
    } else {
        Some(Ok(()))
    }
}

/// The items and counts of both inventories during a request.
#[derive(Debug)]
pub struct Transfer {
    pub tool: Vec<(DocumentId, u64)>,
    pub character: Vec<(DocumentId, u64)>,
}

impl View for Transfer {
    type V = TransferView;

    open spec fn view(&self) -> TransferView {
        TransferView { tool: self.tool@, character: self.character@ }
    }
}

fn count_in(v: &Vec<(DocumentId, u64)>, id: DocumentId) -> (r: u64)
    ensures
        r == count_of(v@, id),
{
    let mut i: usize = 0;
    assert(v@.skip(0) =~= v@);
    while i < v.len()
        invariant
            i <= v@.len(),
            count_of(v@, id) == count_of(v@.skip(i as int), id),
        decreases v@.len() - i,
    {
        assert(v@.skip(i as int)[0] == v@[i as int]);
        assert(v@.skip(i as int).drop_first() =~= v@.skip(i + 1));
        if v[i].0 == id {
            return v[i].1;
        }
        i = i + 1;
    }
    assert(v@.skip(i as int) =~= Seq::<(DocumentId, u64)>::empty());
    0
}

proof fn lemma_set_count_at(v: Seq<(DocumentId, u64)>, id: DocumentId, n: u64, i: int)
    requires
        0 <= i < v.len(),
        v[i].0 == id,
        forall|k: int| 0 <= k < i ==> v[k].0 != id,
    ensures
        set_count(v, id, n) == v.update(i, (id, n)),
    decreases i,
{
    if i > 0 {
        lemma_set_count_at(v.drop_first(), id, n, i - 1);
        assert(seq![v[0]] + v.drop_first().update(i - 1, (id, n)) =~= v.update(i, (id, n)));
    }
}

proof fn lemma_set_count_absent(v: Seq<(DocumentId, u64)>, id: DocumentId, n: u64)
    requires
        forall|k: int| 0 <= k < v.len() ==> v[k].0 != id,
    ensures
        set_count(v, id, n) == v.push((id, n)),
    decreases v.len(),
{
    if v.len() > 0 {
        lemma_set_count_absent(v.drop_first(), id, n);
        assert(seq![v[0]] + v.drop_first().push((id, n)) =~= v.push((id, n)));
    }
}

fn set_in(v: &mut Vec<(DocumentId, u64)>, id: DocumentId, n: u64)
    ensures
        final(v)@ == set_count(old(v)@, id, n),
{
    let ghost s = v@;
    let mut i: usize = 0;
    while i < v.len()
        invariant
            v@ == s,
            old(v)@ == s,
            i <= s.len(),
            forall|k: int| 0 <= k < i ==> s[k].0 != id,
        decreases s.len() - i,
    {
        if v[i].0 == id {
            proof { lemma_set_count_at(s, id, n, i as int); }
            v.set(i, (id, n));
            return;
        }
        i = i + 1;
    }
    proof { lemma_set_count_absent(s, id, n); }
    v.push((id, n));
}

/// The counts of an inventory listing (a later entry of an item replaces an
/// earlier one).
pub fn counts_of_listing(list: &Vec<(DocumentId, u64)>) -> (r: Vec<(DocumentId, u64)>)
    ensures
        r@ == counts_from(list@),
{
    let mut r: Vec<(DocumentId, u64)> = Vec::new();
    let mut i: usize = 0;
    assert(list@.take(0) =~= Seq::<(DocumentId, u64)>::empty());
    while i < list.len()
        invariant
            i <= list@.len(),
            r@ == counts_from(list@.take(i as int)),
        decreases list@.len() - i,
    {
        assert(list@.take(i + 1).drop_last() =~= list@.take(i as int));
        set_in(&mut r, list[i].0, list[i].1);
        i = i + 1;
    }
    assert(list@.take(list@.len() as int) =~= list@);
    r
}

/// The last position of `c` in `s`.
fn last_index(s: &[char], c: char) -> (r: Option<usize>)
    ensures
        match (r, last_pos(s@, c)) {
            (Some(i), Some(j)) => i == j && i < s@.len(),
            (None, None) => true,
            _ => false,
        },
{
    let mut j = s.len();
    assert(s@.take(j as int) =~= s@);
    while j > 0
        invariant
            j <= s@.len(),
            last_pos(s@, c) == last_pos(s@.take(j as int), c),
        decreases j,
    {
        assert(s@.take(j as int).drop_last() =~= s@.take(j - 1));
        if s[j - 1] == c {
            return Some(j - 1);
        }
        j = j - 1;
    }
    None
}

fn read_transfer_line(raw: &[char]) -> (r: Option<TransferLine>)
    requires
        trim(raw@).len() > 0 ==> (trim(raw@)[0] as u32) < 128,
    ensures
        match (r, transfer_line_spec(raw@)) {
            (None, None) => true,
            (Some(l), Some(m)) => l@ == m,
            _ => false,
        },
{
    let t = trim_range(raw, 0, raw.len());
    assert(raw@.subrange(0, raw@.len() as int) =~= raw@);
    if t.len() == 0 {
        return None;
    }
    let mode = t[0];
    let rest = trim_range(&t, 1, t.len());
    assert(t@.subrange(1, t@.len() as int) =~= t@.drop_first());
    match last_index(&rest, ' ') {
        Some(p) => {
            let name = slice_range(&rest, 0, p);
            assert(rest@.subrange(0, p as int) =~= rest@.take(p as int));
            let qs = slice_range(&rest, p + 1, rest.len());
            assert(rest@.subrange(p + 1, rest@.len() as int) =~= rest@.skip(p + 1));
            let qty = match parse_u64(&qs) {
                Some(q) => q,
                None => 1,
            };
            Some(TransferLine { mode, name: string_of(&name), qty })
        },
        None => Some(TransferLine { mode, name: string_of(&rest), qty: 1 }),
    }
}

impl Transfer {
    /// The lines of a request, in order.
    pub fn parse_lines(content: &str) -> (r: Vec<TransferLine>)
        requires
            lines_start_ascii(content@),
        ensures
            transfer_lines_view(r@) == transfer_lines_spec(content@),
    {
        let chars = chars_of(content);
        let raws = split_chars(&chars, '\n');
        let ghost rs = split_on(content@, '\n');
        let mut lines: Vec<TransferLine> = Vec::new();
        let mut i: usize = 0;
        assert(transfer_lines_view(lines@) =~= Seq::<TransferLineView>::empty());
        while i < raws.len()
            invariant
                i <= raws@.len(),
                rs == split_on(content@, '\n'),
                lines_start_ascii(content@),
                raws@.len() == rs.len(),
                forall|k: int| 0 <= k < raws@.len() ==> #[trigger] raws@[k]@ == rs[k],
                transfer_lines_view(lines@) == transfer_lines_upto(rs, i as int),
            decreases raws@.len() - i,
        {
            assert(raws@[i as int]@ == rs[i as int]);
            match read_transfer_line(&raws[i]) {
                Some(l) => {
                    lines.push(l);
                    assert(transfer_lines_view(lines@) =~= transfer_lines_upto(rs, i as int).push(l@));
                },
                None => {},
            }
            i = i + 1;
        }
        lines
    }

    /// Whether every line of a request that is not blank starts with an
    /// ASCII character.
    pub fn starts_ascii(content: &str) -> (b: bool)
        ensures
            b == lines_start_ascii(content@),
    {
        let chars = chars_of(content);
        let raws = split_chars(&chars, '\n');
        let ghost rs = split_on(content@, '\n');
        let mut i: usize = 0;
        while i < raws.len()
            invariant
                i <= raws@.len(),
                rs == split_on(content@, '\n'),
                raws@.len() == rs.len(),
                forall|k: int| 0 <= k < raws@.len() ==> #[trigger] raws@[k]@ == rs[k],
                forall|k: int| 0 <= k < i ==> (trim(#[trigger] rs[k]).len() > 0 ==> (trim(rs[k])[0] as u32) < 128),
            decreases raws@.len() - i,
        {
            assert(raws@[i as int]@ == rs[i as int]);
            let t = trim_range(&raws[i], 0, raws[i].len());
            assert(raws@[i as int]@.subrange(0, raws@[i as int]@.len() as int) =~= raws@[i as int]@);
            if t.len() > 0 && (t[0] as u32) >= 128 {
                return false;
            }
            i = i + 1;
        }
        true
    }

    /// Both inventories, from their listings.
    pub fn new(tool_listing: &Vec<(DocumentId, u64)>, character_listing: &Vec<(DocumentId, u64)>) -> (r: Transfer)
        ensures
            r@ == (TransferView { tool: counts_from(tool_listing@), character: counts_from(character_listing@) }),
    {
        Transfer { tool: counts_of_listing(tool_listing), character: counts_of_listing(character_listing) }
    }

    /// Checks and applies one line once its item was looked up; the
    /// inventories change only where the line is accepted. `None` where a
    /// count would pass `u64::MAX`.
    pub fn step(&mut self, line: &TransferLine, lookup: &ItemLookup) -> (r: Option<Result<(), String>>)
        ensures
            match (r, step_spec(old(self)@, line@, lookup@)) {
                (None, None) => final(self)@ == old(self)@,
                (Some(Ok(())), Some(Ok(v))) => final(self)@ == v,
                (Some(Err(e)), Some(Err(f))) => e@ == f && final(self)@ == old(self)@,
                _ => false,
            },
    {
        match lookup {
            ItemLookup::Failed(e) => Some(Err(e.clone())),
            ItemLookup::Missing => {
                let n = chars_of(line.name.as_str());
                Some(Err(message("Item not found: ", &n)))
            },
            ItemLookup::Found(id) => {
                let id = *id;
                if line.mode == '>' {
                    let cur = count_in(&self.tool, id);
                    if cur < line.qty {
                        let n = chars_of(line.name.as_str());
                        return Some(Err(message3("Not enough ", &n, " in tool")));
                    }
                    let other = count_in(&self.character, id);
                    match other.checked_add(line.qty) {
                        None => None,
                        Some(sum) => {
                            set_in(&mut self.tool, id, cur - line.qty);
                            set_in(&mut self.character, id, sum);
                            Some(Ok(()))
                        },
                    }
                } else if line.mode == '<' {
                    let cur = count_in(&self.character, id);
                    if cur < line.qty {
                        let n = chars_of(line.name.as_str());
                        return Some(Err(message3("Not enough ", &n, " in character inventory")));
                    }
                    let other = count_in(&self.tool, id);
                    match other.checked_add(line.qty) {
                        None => None,
                        Some(sum) => {
                            set_in(&mut self.character, id, cur - line.qty);
                            set_in(&mut self.tool, id, sum);
                            Some(Ok(()))
                        },
                    }
                } else {
                    Some(Ok(()))
                }
            },
        }
    }

    /// Checks that the tool holds no more than its size once every line was
    /// applied. `None` where the sum passes `u64::MAX`.
    pub fn check_size(&self, size: u64) -> (r: Option<Result<(), String>>)
        ensures
            match (r, size_check_spec(self.tool@, size)) {
                (None, None) => true,
                (Some(Ok(())), Some(Ok(()))) => true,
                (Some(Err(e)), Some(Err(f))) => e@ == f,
                _ => false,
            },
    {
        let mut sum: u64 = 0;
        let mut i: usize = 0;
        assert(self.tool@.take(0) =~= Seq::<(DocumentId, u64)>::empty());
        while i < self.tool.len()
            invariant
                i <= self.tool@.len(),
                sum == total(self.tool@.take(i as int)),
            decreases self.tool@.len() - i,
        {
            assert(self.tool@.take(i + 1).drop_last() =~= self.tool@.take(i as int));
            match sum.checked_add(self.tool[i].1) {
                Some(s) => { sum = s; },
                None => {
                    proof { lemma_total_prefix(self.tool@, i + 1); }
                    return None;
                },
            }
            i = i + 1;
        }
        assert(self.tool@.take(self.tool@.len() as int) =~= self.tool@);
        if sum > size {
            let a = decimal_chars(sum);
            let b = decimal_chars(size);
            let mut m = message("Inventory size exceeded: ", &a);
            m.append("/");
            let bs = string_of(&b);
            m.append(bs.as_str());
            Some(Err(m))
        } else {
            Some(Ok(()))
        }
    }
}

/// A prefix's sum is no larger than the whole's.
proof fn lemma_total_prefix(v: Seq<(DocumentId, u64)>, k: int)
    requires
        0 <= k <= v.len(),
    ensures
        total(v.take(k)) <= total(v),
    decreases v.len() - k,
{
    if k < v.len() {
        lemma_total_prefix(v, k + 1);
        assert(v.take(k + 1).drop_last() =~= v.take(k));
    } else {
        assert(v.take(k) =~= v);
    }
}

/// What an inventory gains or loses of one item.
#[derive(Debug, Clone, Copy, PartialEq, Eq, Structural)]
pub enum ItemDelta {
    Add(u64),
    Remove(u64),
}

/// The changes that turn the counts `before` into `after`, in the order of
/// `after`'s entries, unchanged items left out.
pub open spec fn deltas_spec(before: Seq<(DocumentId, u64)>, after: Seq<(DocumentId, u64)>) -> Seq<(DocumentId, ItemDelta)>
    decreases after.len(),
{
    if after.len() == 0 {
        Seq::empty()
    } else {
        let rest = deltas_spec(before, after.drop_last());
        let (id, n) = after.last();
        let o = count_of(before, id);
        if n > o {
            rest.push((id, ItemDelta::Add((n - o) as u64)))
        } else if n < o {
            rest.push((id, ItemDelta::Remove((o - n) as u64)))
        } else {
            rest
        }
    }
}

/// What to add to or remove from an inventory to go from `before` to
/// `after`.
pub fn deltas(before: &Vec<(DocumentId, u64)>, after: &Vec<(DocumentId, u64)>) -> (r: Vec<(DocumentId, ItemDelta)>)
    ensures
        r@ == deltas_spec(before@, after@),
{
    let mut r: Vec<(DocumentId, ItemDelta)> = Vec::new();
    let mut i: usize = 0;
    assert(after@.take(0) =~= Seq::<(DocumentId, u64)>::empty());
    while i < after.len()
        invariant
            i <= after@.len(),
            r@ == deltas_spec(before@, after@.take(i as int)),
        decreases after@.len() - i,
    {
        assert(after@.take(i + 1).drop_last() =~= after@.take(i as int));
        let (id, n) = after[i];
        let o = count_in(before, id);
        if n > o {
            r.push((id, ItemDelta::Add(n - o)));
        } else if n < o {
            r.push((id, ItemDelta::Remove(o - n)));
        }
        i = i + 1;
    }
    assert(after@.take(after@.len() as int) =~= after@);
    r
}


/// What the changes `ds` add to the count of `id`, less what they remove.
pub open spec fn net_change(ds: Seq<(DocumentId, ItemDelta)>, id: DocumentId) -> int
    decreases ds.len(),
{
    if ds.len() == 0 {
        0
    } else {
        net_change(ds.drop_last(), id) + if ds.last().0 == id {
            match ds.last().1 {
                ItemDelta::Add(k) => k as int,
                ItemDelta::Remove(k) => -(k as int),
            }
        } else {
            0
        }
    }
}

/// Whether `id` has an entry in `v`.
pub open spec fn listed(v: Seq<(DocumentId, u64)>, id: DocumentId) -> bool {
    exists|k: int| 0 <= k < v.len() && (#[trigger] v[k]).0 == id
}

/// No item has two entries.
pub open spec fn distinct_ids(v: Seq<(DocumentId, u64)>) -> bool {
    forall|i: int, j: int| 0 <= i < j < v.len() ==> (#[trigger] v[i]).0 != (#[trigger] v[j]).0
}

proof fn lemma_count_of_listed(v: Seq<(DocumentId, u64)>, id: DocumentId, k: int)
    requires
        distinct_ids(v),
        0 <= k < v.len(),
        v[k].0 == id,
    ensures
        count_of(v, id) == v[k].1,
    decreases v.len(),
{
    if k > 0 {
        assert(v[0].0 != id);
        let t = v.drop_first();
        assert(distinct_ids(t)) by {
            assert forall|i: int, j: int| 0 <= i < j < t.len() implies (#[trigger] t[i]).0 != (#[trigger] t[j]).0 by {
                assert(t[i] == v[i + 1] && t[j] == v[j + 1]);
            }
        }
        assert(t[k - 1] == v[k]);
        lemma_count_of_listed(t, id, k - 1);
    }
}

proof fn lemma_net_change_after(before: Seq<(DocumentId, u64)>, after: Seq<(DocumentId, u64)>, id: DocumentId)
    requires
        distinct_ids(after),
    ensures
        listed(after, id) ==> count_of(before, id) + net_change(deltas_spec(before, after), id) == count_of(after, id),
        !listed(after, id) ==> net_change(deltas_spec(before, after), id) == 0,
    decreases after.len(),
{
    if after.len() > 0 {
        let t = after.drop_last();
        assert(distinct_ids(t)) by {
            assert forall|i: int, j: int| 0 <= i < j < t.len() implies (#[trigger] t[i]).0 != (#[trigger] t[j]).0 by {
                assert(t[i] == after[i] && t[j] == after[j]);
            }
        }
        lemma_net_change_after(before, t, id);
        let rest = deltas_spec(before, t);
        let (lid, n) = after.last();
        let o = count_of(before, lid);
        let d = deltas_spec(before, after);
        if n > o {
            assert(d == rest.push((lid, ItemDelta::Add((n - o) as u64))));
            assert(d.drop_last() =~= rest);
        } else if n < o {
            assert(d == rest.push((lid, ItemDelta::Remove((o - n) as u64))));
            assert(d.drop_last() =~= rest);
        } else {
            assert(d == rest);
        }
        if lid == id {
            assert(!listed(t, id)) by {
                if listed(t, id) {
                    let k = choose|k: int| 0 <= k < t.len() && (#[trigger] t[k]).0 == id;
                    assert(after[k] == t[k]);
                    assert(after[after.len() - 1].0 == id);
                }
            }
            assert(after[after.len() - 1] == after.last());
            lemma_count_of_listed(after, id, after.len() - 1);
            assert(listed(after, id));
        } else {
            if listed(after, id) {
                let k = choose|k: int| 0 <= k < after.len() && (#[trigger] after[k]).0 == id;
                assert(k < after.len() - 1);
                assert(t[k] == after[k]);
                assert(listed(t, id));
                lemma_count_of_listed(after, id, k);
                lemma_count_of_listed(t, id, k);
            } else {
                assert(!listed(t, id)) by {
                    if listed(t, id) {
                        let k = choose|k: int| 0 <= k < t.len() && (#[trigger] t[k]).0 == id;
                        assert(after[k] == t[k]);
                    }
                }
            }
        }
    }
}

/// Every change moves at least one unit of an item listed in `after`: an
/// item whose count stays the same gets no change.
pub proof fn lemma_deltas_change_something(before: Seq<(DocumentId, u64)>, after: Seq<(DocumentId, u64)>)
    ensures
        forall|j: int| 0 <= j < deltas_spec(before, after).len() ==> {
            let (id, d) = #[trigger] deltas_spec(before, after)[j];
            &&& listed(after, id)
            &&& match d {
                ItemDelta::Add(k) => k > 0,
                ItemDelta::Remove(k) => k > 0,
            }
        },
    decreases after.len(),
{
    if after.len() > 0 {
        let t = after.drop_last();
        lemma_deltas_change_something(before, t);
        let rest = deltas_spec(before, t);
        let d = deltas_spec(before, after);
        assert forall|j: int| 0 <= j < d.len() implies {
            let (id, dd) = #[trigger] d[j];
            &&& listed(after, id)
            &&& match dd {
                ItemDelta::Add(k) => k > 0,
                ItemDelta::Remove(k) => k > 0,
            }
        } by {
            if j < rest.len() {
                assert(d[j] == rest[j]);
                let id = rest[j].0;
                let k = choose|k: int| 0 <= k < t.len() && (#[trigger] t[k]).0 == id;
                assert(after[k] == t[k]);
            } else {
                assert(after[after.len() - 1] == after.last());
            }
        }
    }
}

/// The changes turn `before` into `after`: for every item listed in
/// `after` (whose items are listed once each), its count before plus what
/// the changes add and less what they remove is its count after, down to
/// zero included; an item not listed in `after` is not changed.
pub proof fn lemma_deltas_turn_before_into_after(before: Seq<(DocumentId, u64)>, after: Seq<(DocumentId, u64)>, id: DocumentId)
    requires
        distinct_ids(after),
    ensures
        listed(after, id) ==> count_of(before, id) + net_change(deltas_spec(before, after), id) == count_of(after, id),
        !listed(after, id) ==> net_change(deltas_spec(before, after), id) == 0,
{
    lemma_net_change_after(before, after, id);
}

/// Setting an item's count changes that count only.
pub proof fn lemma_count_after_set(v: Seq<(DocumentId, u64)>, id: DocumentId, n: u64, x: DocumentId)
    ensures
        x == id ==> count_of(set_count(v, id, n), x) == n,
        x != id ==> count_of(set_count(v, id, n), x) == count_of(v, x),
    decreases v.len(),
{
    if v.len() == 0 {
        let w = seq![(id, n)];
        assert(w[0] == (id, n));
        assert(w.drop_first() =~= Seq::<(DocumentId, u64)>::empty());
        assert(set_count(v, id, n) == w);
        assert(x != id ==> count_of(w, x) == count_of(w.drop_first(), x));
        assert(count_of(Seq::<(DocumentId, u64)>::empty(), x) == 0);
    } else {
        if v[0].0 == id {
            let w = v.update(0, (id, n));
            assert(w[0] == (id, n));
            assert(w.drop_first() =~= v.drop_first());
            assert(set_count(v, id, n) == w);
            assert(x != id ==> count_of(w, x) == count_of(w.drop_first(), x));
            assert(x != id ==> count_of(v, x) == count_of(v.drop_first(), x));
        } else {
            lemma_count_after_set(v.drop_first(), id, n, x);
            let w = seq![v[0]] + set_count(v.drop_first(), id, n);
            assert(set_count(v, id, n) == w);
            assert(w[0] == v[0]);
            assert(w.drop_first() =~= set_count(v.drop_first(), id, n));
            assert(count_of(w, x) == if v[0].0 == x { v[0].1 } else { count_of(w.drop_first(), x) });
        }
    }
}

/// An accepted line moves items without making or losing any: for every
/// item, what the tool and the character hold together is unchanged.
pub proof fn lemma_transfer_conserves_items(st: TransferView, line: TransferLineView, lookup: ItemLookupView, x: DocumentId)
    requires
        step_spec(st, line, lookup) matches Some(Ok(_)),
    ensures
        ({
            let v = step_spec(st, line, lookup)->0->Ok_0;
            count_of(v.tool, x) + count_of(v.character, x) == count_of(st.tool, x) + count_of(st.character, x)
        }),
{
    if let ItemLookupView::Found(id) = lookup {
        if line.mode == '>' {
            let cur = count_of(st.tool, id);
            lemma_count_after_set(st.tool, id, (cur - line.qty) as u64, x);
            lemma_count_after_set(st.character, id, (count_of(st.character, id) + line.qty) as u64, x);
        } else if line.mode == '<' {
            let cur = count_of(st.character, id);
            lemma_count_after_set(st.character, id, (cur - line.qty) as u64, x);
            lemma_count_after_set(st.tool, id, (count_of(st.tool, id) + line.qty) as u64, x);
        }
    }
}

} // verus!
