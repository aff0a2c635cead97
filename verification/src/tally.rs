//! Ordering names as `String`'s `Ord` does (by code point, a prefix
//! first), tallying the names a loot gave, and the lines of a finished
//! loot's summary.
use vstd::prelude::*;
use crate::text::{chars_of, string_of, split_on, split_chars, parse_u64_spec, parse_u64, decimal, decimal_chars};
use crate::loot::names_view;

verus! {

/// Whether `a` comes strictly before `b`: at the first position where they
/// differ the character of `a` is smaller, or `a` is a proper prefix of `b`.
pub open spec fn seq_lt(a: Seq<char>, b: Seq<char>) -> bool
    decreases a.len(),
{
    if a.len() == 0 {
        b.len() > 0
    } else if b.len() == 0 {
        false
    } else if a[0] != b[0] {
        (a[0] as u32) < (b[0] as u32)
    } else {
        seq_lt(a.drop_first(), b.drop_first())
    }
}

pub proof fn lemma_seq_lt_irreflexive(a: Seq<char>)
    ensures
        !seq_lt(a, a),
    decreases a.len(),
{
    if a.len() > 0 {
        lemma_seq_lt_irreflexive(a.drop_first());
    }
}

pub proof fn lemma_seq_lt_transitive(a: Seq<char>, b: Seq<char>, c: Seq<char>)
    requires
        seq_lt(a, b),
        seq_lt(b, c),
    ensures
        seq_lt(a, c),
    decreases a.len(),
{
    if a.len() > 0 && b.len() > 0 && c.len() > 0 && a[0] == b[0] && b[0] == c[0] {
        lemma_seq_lt_transitive(a.drop_first(), b.drop_first(), c.drop_first());
    }
}

/// Two different sequences are ordered one way or the other.
pub proof fn lemma_seq_lt_total(a: Seq<char>, b: Seq<char>)
    requires
        a != b,
    ensures
        seq_lt(a, b) || seq_lt(b, a),
    decreases a.len(),
{
    if a.len() > 0 && b.len() > 0 && a[0] == b[0] {
        if a.drop_first() == b.drop_first() {
            assert(a =~= seq![a[0]] + a.drop_first());
            assert(b =~= seq![b[0]] + b.drop_first());
        }
        lemma_seq_lt_total(a.drop_first(), b.drop_first());
    } else if a.len() == 0 && b.len() == 0 {
        assert(a =~= b);
    } else if a.len() > 0 && b.len() > 0 {
        vstd::utf8::char_u32_cast(a[0], a[0] as u32);
        vstd::utf8::char_u32_cast(b[0], b[0] as u32);
    }
}

pub proof fn lemma_seq_lt_asymmetric(a: Seq<char>, b: Seq<char>)
    requires
        seq_lt(a, b),
    ensures
        !seq_lt(b, a),
    decreases a.len(),
{
    if a.len() > 0 && b.len() > 0 && a[0] == b[0] {
        lemma_seq_lt_asymmetric(a.drop_first(), b.drop_first());
    }
}

/// How two names compare.
#[derive(Debug, Clone, Copy, PartialEq, Eq, Structural)]
pub enum Order {
    Before,
    Same,
    After,
}

/// Compares two names as `String`'s `Ord` does.
pub fn compare_names(a: &[char], b: &[char]) -> (r: Order)
    ensures
        (r == Order::Before) == seq_lt(a@, b@),
        (r == Order::Same) == (a@ == b@),
        (r == Order::After) == seq_lt(b@, a@),
{
    let mut i: usize = 0;
    assert(a@.skip(0) =~= a@);
    assert(b@.skip(0) =~= b@);
    assert(a@.take(0) =~= b@.take(0));
    while i < a.len() && i < b.len() && a[i] == b[i]
        invariant
            i <= a@.len(),
            i <= b@.len(),
            a@.take(i as int) == b@.take(i as int),
            seq_lt(a@, b@) == seq_lt(a@.skip(i as int), b@.skip(i as int)),
            seq_lt(b@, a@) == seq_lt(b@.skip(i as int), a@.skip(i as int)),
        decreases a@.len() - i,
    {
        assert(a@.skip(i as int).drop_first() =~= a@.skip(i + 1));
        assert(b@.skip(i as int).drop_first() =~= b@.skip(i + 1));
        assert(a@.take(i + 1) =~= a@.take(i as int).push(a@[i as int]));
        assert(b@.take(i + 1) =~= b@.take(i as int).push(b@[i as int]));
        i = i + 1;
    }
    proof {
        lemma_seq_lt_irreflexive(a@);
    }
    if i == a.len() && i == b.len() {
        assert(a@ =~= a@.take(i as int));
        assert(b@ =~= b@.take(i as int));
        Order::Same
    } else if i == a.len() {
        assert(a@.skip(i as int).len() == 0);
        assert(b@.skip(i as int).len() > 0);
        assert(a@ != b@) by { assert(a@.len() != b@.len()); }
        Order::Before
    } else if i == b.len() {
        assert(b@.skip(i as int).len() == 0);
        assert(a@ != b@) by { assert(a@.len() != b@.len()); }
        Order::After
    } else {
        assert(a@.skip(i as int)[0] == a@[i as int]);
        assert(b@.skip(i as int)[0] == b@[i as int]);
        assert(a@ != b@) by { assert(a@[i as int] != b@[i as int]); }
        proof {
            vstd::utf8::char_u32_cast(a@[i as int], a@[i as int] as u32);
            vstd::utf8::char_u32_cast(b@[i as int], b@[i as int] as u32);
        }
        if (a[i] as u32) < (b[i] as u32) {
            Order::Before
        } else {
            Order::After
        }
    }
}

/// How many times `x` occurs in `s`.
pub open spec fn occurrences(s: Seq<Seq<char>>, x: Seq<char>) -> nat
    decreases s.len(),
{
    if s.len() == 0 {
        0
    } else {
        occurrences(s.drop_last(), x) + if s.last() == x { 1nat } else { 0nat }
    }
}

pub open spec fn tally_keys(t: Seq<(String, u64)>) -> Seq<Seq<char>> {
    t.map_values(|e: (String, u64)| e.0@)
}

/// A tally of `names`: each name once, in increasing order, with the
/// number of times it occurs.
pub open spec fn is_tally_of(t: Seq<(String, u64)>, names: Seq<Seq<char>>) -> bool {
    &&& forall|i: int, j: int| 0 <= i < j < t.len() ==> seq_lt(#[trigger] t[i].0@, #[trigger] t[j].0@)
    &&& forall|i: int| 0 <= i < t.len() ==> #[trigger] t[i].1 == occurrences(names, t[i].0@) && t[i].1 > 0
    &&& forall|k: int| 0 <= k < names.len() ==> #[trigger] tally_keys(t).contains(names[k])
}

proof fn lemma_occurrences_le(s: Seq<Seq<char>>, x: Seq<char>)
    ensures
        occurrences(s, x) <= s.len(),
    decreases s.len(),
{
    if s.len() > 0 {
        lemma_occurrences_le(s.drop_last(), x);
    }
}

/// The sum of the counts of a tally.
pub open spec fn tally_total(t: Seq<(String, u64)>) -> int
    decreases t.len(),
{
    if t.len() == 0 {
        0
    } else {
        tally_total(t.drop_last()) + t.last().1
    }
}

proof fn lemma_tally_total_update(t: Seq<(String, u64)>, j: int, e: (String, u64))
    requires
        0 <= j < t.len(),
    ensures
        tally_total(t.update(j, e)) == tally_total(t) - t[j].1 + e.1,
    decreases t.len(),
{
    if j < t.len() - 1 {
        lemma_tally_total_update(t.drop_last(), j, e);
        assert(t.update(j, e).drop_last() =~= t.drop_last().update(j, e));
    } else {
        assert(t.update(j, e).drop_last() =~= t.drop_last());
    }
}

proof fn lemma_tally_total_insert(t: Seq<(String, u64)>, j: int, e: (String, u64))
    requires
        0 <= j <= t.len(),
    ensures
        tally_total(t.insert(j, e)) == tally_total(t) + e.1,
    decreases t.len(),
{
    if j < t.len() {
        lemma_tally_total_insert(t.drop_last(), j, e);
        assert(t.insert(j, e).drop_last() =~= t.drop_last().insert(j, e));
    } else {
        assert(t.insert(j, e).drop_last() =~= t);
    }
}

/// Counts how many times each name occurs, the names in increasing order;
/// the counts add up to the number of names.
pub fn tally_names(names: &Vec<String>) -> (r: Vec<(String, u64)>)
    ensures
        is_tally_of(r@, names_view(names@)),
        tally_total(r@) == names@.len(),
{
    let ghost nv = names_view(names@);
    let mut t: Vec<(String, u64)> = Vec::new();
    let mut i: usize = 0;
    assert(nv.take(0) =~= Seq::<Seq<char>>::empty());
    while i < names.len()
        invariant
            i <= names@.len(),
            nv == names_view(names@),
            nv.len() == names@.len(),
            is_tally_of(t@, nv.take(i as int)),
            tally_total(t@) == i,
        decreases names@.len() - i,
    {
        let ghost prev = nv.take(i as int);
        let ghost next = nv.take(i + 1);
        let ghost x = nv[i as int];
        assert(next.drop_last() =~= prev);
        assert(next.last() == x);
        assert(x == names@[i as int]@);
        let name = chars_of(names[i].as_str());
        let mut j: usize = 0;
        while j < t.len() && compare_names(&chars_of(t[j].0.as_str()), &name) == Order::Before
            invariant
                j <= t@.len(),
                name@ == x,
                forall|k: int| 0 <= k < j ==> seq_lt(#[trigger] t@[k].0@, x),
            decreases t@.len() - j,
        {
            j = j + 1;
        }
        let ghost before = t@;
        let same = j < t.len() && compare_names(&chars_of(t[j].0.as_str()), &name) == Order::Same;
        if same {
            proof { lemma_occurrences_le(prev, x); }
            let c = t[j].1;
            proof { lemma_tally_total_update(before, j as int, (names@[i as int], (c + 1) as u64)); }
            t.set(j, (names[i].clone(), c + 1));
            proof {
                assert forall|a: int, b: int| 0 <= a < b < t@.len() implies seq_lt(#[trigger] t@[a].0@, #[trigger] t@[b].0@) by {
                    assert(before[a].0@ == t@[a].0@);
                    assert(before[b].0@ == t@[b].0@);
                }
                assert forall|a: int| 0 <= a < t@.len() implies #[trigger] t@[a].1 == occurrences(next, t@[a].0@) && t@[a].1 > 0 by {
                    if a != j {
                        assert(t@[a] == before[a]);
                        assert(before[a].0@ != x) by {
                            if a < j {
                                lemma_seq_lt_irreflexive(x);
                            } else {
                                lemma_seq_lt_irreflexive(x);
                            }
                        }
                    }
                }
                assert forall|k: int| 0 <= k < next.len() implies #[trigger] tally_keys(t@).contains(next[k]) by {
                    if k < prev.len() {
                        assert(prev[k] == next[k]);
                        assert(tally_keys(before).contains(prev[k]));
                        let w = choose|w: int| 0 <= w < before.len() && tally_keys(before)[w] == prev[k];
                        assert(tally_keys(t@)[w] == tally_keys(before)[w]);
                    } else {
                        assert(tally_keys(t@)[j as int] == x);
                    }
                }
            }
        } else {
            proof {
                assert forall|k: int| j <= k < before.len() implies seq_lt(x, #[trigger] before[k].0@) by {
                    if k == j {
                        lemma_seq_lt_total(before[k].0@, x);
                    } else {
                        lemma_seq_lt_total(before[j as int].0@, x);
                        lemma_seq_lt_transitive(x, before[j as int].0@, before[k].0@);
                    }
                }
                assert(occurrences(prev, x) == 0) by {
                    if occurrences(prev, x) > 0 {
                        lemma_occurrence_in(prev, x);
                        let k = choose|k: int| 0 <= k < prev.len() && prev[k] == x;
                        assert(tally_keys(before).contains(prev[k]));
                        let w = choose|w: int| 0 <= w < before.len() && tally_keys(before)[w] == prev[k];
                        lemma_seq_lt_irreflexive(x);
                        if w < j {
                        } else {
                        }
                    }
                }
            }
            proof { lemma_tally_total_insert(before, j as int, (names@[i as int], 1u64)); }
            t.insert(j, (names[i].clone(), 1));
            proof {
                assert forall|a: int, b: int| 0 <= a < b < t@.len() implies seq_lt(#[trigger] t@[a].0@, #[trigger] t@[b].0@) by {
                    if a < j && b < j {
                        assert(t@[a] == before[a] && t@[b] == before[b]);
                    } else if a < j && b == j {
                        assert(t@[a] == before[a]);
                    } else if a < j {
                        assert(t@[a] == before[a] && t@[b] == before[b - 1]);
                    } else if a == j {
                        assert(t@[b] == before[b - 1]);
                    } else {
                        assert(t@[a] == before[a - 1] && t@[b] == before[b - 1]);
                    }
                }
                assert forall|a: int| 0 <= a < t@.len() implies #[trigger] t@[a].1 == occurrences(next, t@[a].0@) && t@[a].1 > 0 by {
                    if a < j {
                        assert(t@[a] == before[a]);
                        lemma_seq_lt_irreflexive(x);
                    } else if a > j {
                        assert(t@[a] == before[a - 1]);
                        lemma_seq_lt_irreflexive(x);
                    }
                }
                assert forall|k: int| 0 <= k < next.len() implies #[trigger] tally_keys(t@).contains(next[k]) by {
                    if k < prev.len() {
                        assert(prev[k] == next[k]);
                        assert(tally_keys(before).contains(prev[k]));
                        let w = choose|w: int| 0 <= w < before.len() && tally_keys(before)[w] == prev[k];
                        if w < j {
                            assert(tally_keys(t@)[w] == tally_keys(before)[w]);
                        } else {
                            assert(tally_keys(t@)[w + 1] == tally_keys(before)[w]);
                        }
                    } else {
                        assert(tally_keys(t@)[j as int] == x);
                    }
                }
            }
        }
        i = i + 1;
    }
    assert(nv.take(names@.len() as int) =~= nv);
    t
}

proof fn lemma_occurrence_in(s: Seq<Seq<char>>, x: Seq<char>)
    requires
        occurrences(s, x) > 0,
    ensures
        exists|k: int| 0 <= k < s.len() && s[k] == x,
    decreases s.len(),
{
    if s.last() != x {
        lemma_occurrence_in(s.drop_last(), x);
        let k = choose|k: int| 0 <= k < s.drop_last().len() && s.drop_last()[k] == x;
        assert(s[k] == x);
    } else {
        assert(s[s.len() - 1] == x);
    }
}

/// The second `:`-separated field of an entry `id:name:quantity` (empty
/// when there is none), by which entries are sorted.
pub open spec fn entry_name(e: Seq<char>) -> Seq<char> {
    let parts = split_on(e, ':');
    if parts.len() > 1 { parts[1] } else { Seq::empty() }
}

/// Inserting an entry after every entry whose name does not come later.
pub open spec fn insert_by_name(s: Seq<Seq<char>>, e: Seq<char>) -> Seq<Seq<char>>
    decreases s.len(),
{
    if s.len() == 0 {
        seq![e]
    } else if !seq_lt(entry_name(e), entry_name(s.last())) {
        s.push(e)
    } else {
        insert_by_name(s.drop_last(), e).push(s.last())
    }
}

/// The entries sorted by name, entries of equal names keeping their order
/// (a stable sort, as `slice::sort_by` is).
pub open spec fn sorted_by_name(s: Seq<Seq<char>>) -> Seq<Seq<char>>
    decreases s.len(),
{
    if s.len() == 0 {
        Seq::empty()
    } else {
        insert_by_name(sorted_by_name(s.drop_last()), s.last())
    }
}

/// The summary line of an entry `id:name:quantity` (a quantity that does
/// not read as a number counts as one); `None` for an entry with another
/// number of fields.
pub open spec fn summary_line(e: Seq<char>) -> Option<Seq<char>> {
    let parts = split_on(e, ':');
    if parts.len() == 3 {
        let q = match parse_u64_spec(parts[2]) {
            Some(v) => v,
            None => 1u64,
        };
        Some("- "@ + decimal(q as nat) + "x "@ + parts[1] + " (ID: `"@ + parts[0] + "`)"@)
    } else {
        None
    }
}

pub open spec fn summary_lines_of(s: Seq<Seq<char>>) -> Seq<Seq<char>>
    decreases s.len(),
{
    if s.len() == 0 {
        Seq::empty()
    } else {
        match summary_line(s.last()) {
            Some(l) => summary_lines_of(s.drop_last()).push(l),
            None => summary_lines_of(s.drop_last()),
        }
    }
}

fn entry_name_of(e: &[char]) -> (r: Vec<char>)
    ensures
        r@ == entry_name(e@),
{
    let parts = split_chars(e, ':');
    if parts.len() > 1 {
        let mut r: Vec<char> = Vec::new();
        let p = &parts[1];
        let mut k: usize = 0;
        while k < p.len()
            invariant
                k <= p@.len(),
                r@ == p@.take(k as int),
            decreases p@.len() - k,
        {
            r.push(p[k]);
            assert(p@.take(k + 1) =~= p@.take(k as int).push(p@[k as int]));
            k = k + 1;
        }
        assert(p@.take(p@.len() as int) =~= p@);
        r
    } else {
        Vec::new()
    }
}

/// The entries sorted by name, stably.
pub fn sort_by_name(entries: &Vec<String>) -> (r: Vec<String>)
    ensures
        names_view(r@) == sorted_by_name(names_view(entries@)),
{
    let ghost ev = names_view(entries@);
    let mut r: Vec<String> = Vec::new();
    let mut i: usize = 0;
    assert(ev.take(0) =~= Seq::<Seq<char>>::empty());
    while i < entries.len()
        invariant
            i <= entries@.len(),
            ev == names_view(entries@),
            names_view(r@) == sorted_by_name(ev.take(i as int)),
        decreases entries@.len() - i,
    {
        assert(ev.take(i + 1).drop_last() =~= ev.take(i as int));
        assert(ev.take(i + 1).last() == entries@[i as int]@);
        let e = chars_of(entries[i].as_str());
        let key = entry_name_of(&e);
        let ghost s = names_view(r@);
        let mut j = r.len();
        assert(s.take(j as int) =~= s);
        while j > 0 && compare_names(&key, &entry_name_of(&chars_of(r[j - 1].as_str()))) == Order::Before
            invariant
                j <= r@.len(),
                s == names_view(r@),
                key@ == entry_name(e@),
                insert_by_name(s, e@) == insert_by_name(s.take(j as int), e@) + s.skip(j as int),
            decreases j,
        {
            let ghost t = s.take(j as int);
            assert(t.last() == s[j - 1]);
            assert(t.drop_last() =~= s.take(j - 1));
            assert(seq![s[j - 1]] + s.skip(j as int) =~= s.skip(j - 1));
            assert(insert_by_name(t, e@) == insert_by_name(s.take(j - 1), e@).push(s[j - 1]));
            assert(insert_by_name(s.take(j - 1), e@).push(s[j - 1]) + s.skip(j as int)
                =~= insert_by_name(s.take(j - 1), e@) + s.skip(j - 1));
            j = j - 1;
        }
        proof {
            let t = s.take(j as int);
            if j > 0 {
                assert(t.last() == s[j - 1]);
            }
            assert(insert_by_name(t, e@) =~= t.push(e@));
        }
        r.insert(j, entries[i].clone());
        assert(names_view(r@) =~= s.take(j as int).push(e@) + s.skip(j as int));
        i = i + 1;
    }
    assert(ev.take(entries@.len() as int) =~= ev);
    r
}

fn summary_line_of(e: &[char]) -> (r: Option<String>)
    ensures
        match (r, summary_line(e@)) {
            (None, None) => true,
            (Some(a), Some(b)) => a@ == b,
            _ => false,
        },
{
    let parts = split_chars(e, ':');
    if parts.len() == 3 {
        let q = match parse_u64(&parts[2]) {
            Some(v) => v,
            None => 1,
        };
        let d = decimal_chars(q);
        let mut m = String::from_str("- ");
        m.append(string_of(&d).as_str());
        m.append("x ");
        m.append(string_of(&parts[1]).as_str());
        m.append(" (ID: `");
        m.append(string_of(&parts[0]).as_str());
        m.append("`)");
        Some(m)
    } else {
        None
    }
}

/// The lines of a finished loot's summary: the entries `id:name:quantity`
/// sorted by name, each written `- {quantity}x {name} (ID: `{id}`)`, the
/// entries of another shape left out.
pub fn loot_summary_lines(items_data: &Vec<String>) -> (r: Vec<String>)
    ensures
        names_view(r@) == summary_lines_of(sorted_by_name(names_view(items_data@))),
{
    let sorted = sort_by_name(items_data);
    let ghost sv = names_view(sorted@);
    let mut r: Vec<String> = Vec::new();
    let mut i: usize = 0;
    assert(sv.take(0) =~= Seq::<Seq<char>>::empty());
    assert(names_view(r@) =~= Seq::<Seq<char>>::empty());
    while i < sorted.len()
        invariant
            i <= sorted@.len(),
            sv == names_view(sorted@),
            names_view(r@) == summary_lines_of(sv.take(i as int)),
        decreases sorted@.len() - i,
    {
        assert(sv.take(i + 1).drop_last() =~= sv.take(i as int));
        assert(sv.take(i + 1).last() == sorted@[i as int]@);
        let e = chars_of(sorted[i].as_str());
        match summary_line_of(&e) {
            Some(l) => {
                let ghost prev = r@;
                r.push(l);
                assert(names_view(r@) =~= names_view(prev).push(r@[r@.len() - 1]@));
            },
            None => {},
        }
        i = i + 1;
    }
    assert(sv.take(sorted@.len() as int) =~= sv);
    r
}

} // verus!
