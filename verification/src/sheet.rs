//! Character sheets: the stat values a moderator writes when accepting a
//! character, and who may act on a character.
//!
//! Each line of a sheet sets the first stat whose name it contains; the
//! value is what follows the line's first `:` (the whole line without one),
//! trimmed, and is read by the stat's kind. Stats that no line sets keep
//! their default.
use vstd::prelude::*;
use crate::text::{
    chars_of, string_of, trim, trim_range, str_lines, lines_of, first_pos, find_char, is_digit,
    all_digits, digits_value, parse_u64_spec, parse_u64, digits_value_upto, chars_eq,
    decimal, lemma_decimal_reads_back,
};

verus! {

/// The kind of value a stat holds.
#[derive(Debug, Clone, Copy, PartialEq, Eq, Structural)]
pub enum StatKind {
    Int,
    Float,
    Text,
    Bool,
}

/// A value read from a sheet. A floating-point value is kept as its text,
/// to be read as a number by the caller.
#[derive(Debug)]
pub enum SheetValue {
    Int(i64),
    FloatText(String),
    Text(String),
    Bool(bool),
}

pub enum SheetValueView {
    Int(i64),
    FloatText(Seq<char>),
    Text(Seq<char>),
    Bool(bool),
}

impl View for SheetValue {
    type V = SheetValueView;

    open spec fn view(&self) -> SheetValueView {
        match self {
            SheetValue::Int(v) => SheetValueView::Int(*v),
            SheetValue::FloatText(s) => SheetValueView::FloatText(s@),
            SheetValue::Text(s) => SheetValueView::Text(s@),
            SheetValue::Bool(b) => SheetValueView::Bool(*b),
        }
    }
}

/// `str::parse::<i64>`: an optional sign, then one or more decimal digits,
/// the value within `i64`'s range.
pub open spec fn parse_i64_spec(s: Seq<char>) -> Option<i64> {
    if s.len() > 0 && s[0] == '-' {
        let ds = s.drop_first();
        if ds.len() > 0 && all_digits(ds) && digits_value(ds) <= 0x8000_0000_0000_0000 {
            Some((0 - digits_value(ds)) as i64)
        } else {
            None
        }
    } else {
        match parse_u64_spec(s) {
            Some(v) => if v <= 0x7fff_ffff_ffff_ffff { Some(v as i64) } else { None },
            None => None,
        }
    }
}

/// `str::parse::<bool>`: exactly `true` or `false`.
pub open spec fn parse_bool_spec(s: Seq<char>) -> Option<bool> {
    if s == "true"@ {
        Some(true)
    } else if s == "false"@ {
        Some(false)
    } else {
        None
    }
}

/// A value's text read by the stat's kind; `None` where it does not read.
pub open spec fn typed_value(kind: StatKind, text: Seq<char>) -> Option<SheetValueView> {
    match kind {
        StatKind::Int => match parse_i64_spec(text) {
            Some(v) => Some(SheetValueView::Int(v)),
            None => None,
        },
        StatKind::Float => Some(SheetValueView::FloatText(text)),
        StatKind::Text => Some(SheetValueView::Text(text)),
        StatKind::Bool => match parse_bool_spec(text) {
            Some(b) => Some(SheetValueView::Bool(b)),
            None => None,
        },
    }
}

/// Whether `name` occurs in `line`.
pub open spec fn contains_seq(line: Seq<char>, name: Seq<char>) -> bool {
    exists|i: int| 0 <= i && i + name.len() <= line.len() && #[trigger] line.subrange(i, i + name.len()) == name
}

/// The first stat, among `names[k..]`, whose name the line contains.
pub open spec fn first_stat_from(line: Seq<char>, names: Seq<Seq<char>>, k: int) -> Option<int>
    decreases names.len() - k,
{
    if k < 0 || k >= names.len() {
        None
    } else if contains_seq(line, names[k]) {
        Some(k)
    } else {
        first_stat_from(line, names, k + 1)
    }
}

/// What a line sets: what follows its first `:`, or the whole line,
/// trimmed.
pub open spec fn value_text(line: Seq<char>) -> Seq<char> {
    match first_pos(line, ':') {
        Some(p) => trim(line.skip(p + 1)),
        None => trim(line),
    }
}

pub struct SheetEntryView {
    pub stat: int,
    pub value: SheetValueView,
}

/// The stats set by the first `k` lines, in order; `None` where a value
/// does not read.
pub open spec fn sheet_upto(lines: Seq<Seq<char>>, names: Seq<Seq<char>>, kinds: Seq<StatKind>, k: int) -> Option<Seq<SheetEntryView>>
    decreases k,
{
    if k <= 0 {
        Some(Seq::empty())
    } else {
        match sheet_upto(lines, names, kinds, k - 1) {
            None => None,
            Some(acc) => match first_stat_from(lines[k - 1], names, 0) {
                None => Some(acc),
                Some(s) => match typed_value(kinds[s], value_text(lines[k - 1])) {
                    Some(v) => Some(acc.push(SheetEntryView { stat: s, value: v })),
                    None => None,
                },
            },
        }
    }
}

/// The stats a sheet sets, in the order of its lines.
pub open spec fn sheet_spec(input: Seq<char>, names: Seq<Seq<char>>, kinds: Seq<StatKind>) -> Option<Seq<SheetEntryView>> {
    let ls = str_lines(input);
    sheet_upto(ls, names, kinds, ls.len() as int)
}

/// How a yes-or-no value is written: `true` or `false`.
pub open spec fn bool_text(b: bool) -> Seq<char> {
    if b { "true"@ } else { "false"@ }
}

/// A yes-or-no stat's value reads back as written: the text `true` gives
/// yes, the text `false` gives no, and a value read, written back, is the
/// text it was read from; any other text does not read.
pub proof fn lemma_bool_value_reads_as_written(text: Seq<char>, b: bool)
    ensures
        typed_value(StatKind::Bool, bool_text(b)) == Some(SheetValueView::Bool(b)),
        typed_value(StatKind::Bool, text) matches Some(v) ==> (v matches SheetValueView::Bool(c) && bool_text(c) == text),
        typed_value(StatKind::Bool, text) is None <==> (text != bool_text(true) && text != bool_text(false)),
{
    reveal_strlit("true");
    reveal_strlit("false");
    assert("true"@ != "false"@) by {
        assert("true"@.len() != "false"@.len());
    }
}

/// How a whole number is written: its decimal digits, after a `-` when it
/// is negative.
pub open spec fn int_text(v: i64) -> Seq<char> {
    if v < 0 { seq!['-'] + decimal((-(v as int)) as nat) } else { decimal(v as nat) }
}

/// A whole-number stat written as `i64` writes it reads back as that
/// number; a text, or a decimal one, is kept as written.
pub proof fn lemma_int_value_reads_as_written(v: i64, text: Seq<char>)
    ensures
        typed_value(StatKind::Int, int_text(v)) == Some(SheetValueView::Int(v)),
        typed_value(StatKind::Text, text) == Some(SheetValueView::Text(text)),
        typed_value(StatKind::Float, text) == Some(SheetValueView::FloatText(text)),
{
    let n: nat = if v < 0 { (-(v as int)) as nat } else { v as nat };
    lemma_decimal_reads_back(n);
    let d = decimal(n);
    assert(is_digit(d[0]));
    if v < 0 {
        let t = seq!['-'] + d;
        assert(t.drop_first() =~= d);
        assert(t[0] == '-');
    } else {
        assert(d[0] != '-');
        assert(d[0] != '+');
    }
}

/// Every stat a sheet sets comes from a line that names it, and a yes-or-no
/// stat holds the value that the line's text writes (`true` or `false`).
pub proof fn lemma_sheet_bool_values(lines: Seq<Seq<char>>, names: Seq<Seq<char>>, kinds: Seq<StatKind>, k: int)
    requires
        names.len() == kinds.len(),
        0 <= k <= lines.len(),
    ensures
        sheet_upto(lines, names, kinds, k) matches Some(acc) ==> forall|j: int| 0 <= j < acc.len() ==>
            exists|i: int| 0 <= i < k && first_stat_from(lines[i], names, 0) == Some(#[trigger] acc[j].stat) && {
                kinds[acc[j].stat] == StatKind::Bool ==> (acc[j].value matches SheetValueView::Bool(b) && bool_text(b) == value_text(lines[i]))
            },
    decreases k,
{
    if k > 0 {
        lemma_sheet_bool_values(lines, names, kinds, k - 1);
        if let Some(acc0) = sheet_upto(lines, names, kinds, k - 1) {
            if let Some(st) = first_stat_from(lines[k - 1], names, 0) {
                lemma_first_stat_in(lines[k - 1], names, 0);
                let t = value_text(lines[k - 1]);
                lemma_bool_value_reads_as_written(t, true);
                if let Some(v) = typed_value(kinds[st], t) {
                    let acc = acc0.push(SheetEntryView { stat: st, value: v });
                    assert forall|j: int| 0 <= j < acc.len() implies
                        exists|i: int| 0 <= i < k && first_stat_from(lines[i], names, 0) == Some(#[trigger] acc[j].stat) && {
                            kinds[acc[j].stat] == StatKind::Bool ==> (acc[j].value matches SheetValueView::Bool(b) && bool_text(b) == value_text(lines[i]))
                        } by {
                        if j < acc0.len() {
                            assert(acc[j] == acc0[j]);
                            let i = choose|i: int| 0 <= i < k - 1 && first_stat_from(lines[i], names, 0) == Some(#[trigger] acc0[j].stat) && {
                                kinds[acc0[j].stat] == StatKind::Bool ==> (acc0[j].value matches SheetValueView::Bool(b) && bool_text(b) == value_text(lines[i]))
                            };
                        } else {
                            assert(acc[j].stat == st);
                            assert(first_stat_from(lines[k - 1], names, 0) == Some(acc[j].stat));
                        }
                    }
                }
            }
        }
    }
}

/// Every stat a sheet's text sets comes from one of its lines that names
/// the stat, and a yes-or-no stat holds the value that line writes.
pub proof fn lemma_read_sheet_bool_values(input: Seq<char>, names: Seq<Seq<char>>, kinds: Seq<StatKind>)
    requires
        names.len() == kinds.len(),
    ensures
        sheet_spec(input, names, kinds) matches Some(acc) ==> forall|j: int| 0 <= j < acc.len() ==>
            exists|i: int| 0 <= i < str_lines(input).len() && first_stat_from(str_lines(input)[i], names, 0) == Some(#[trigger] acc[j].stat) && {
                kinds[acc[j].stat] == StatKind::Bool
                    ==> (acc[j].value matches SheetValueView::Bool(b) && bool_text(b) == value_text(str_lines(input)[i]))
            },
{
    let ls = str_lines(input);
    lemma_sheet_bool_values(ls, names, kinds, ls.len() as int);
}

proof fn lemma_first_stat_in(line: Seq<char>, names: Seq<Seq<char>>, k: int)
    requires
        0 <= k,
    ensures
        first_stat_from(line, names, k) matches Some(s) ==> k <= s < names.len(),
    decreases names.len() - k,
{
    if k < names.len() && !contains_seq(line, names[k]) {
        lemma_first_stat_in(line, names, k + 1);
    }
}

/// Whether some entry sets a stat of the given name.
pub open spec fn named_in(entries: Seq<SheetEntryView>, names: Seq<Seq<char>>, name: Seq<char>) -> bool {
    exists|e: int| 0 <= e < entries.len() && names[#[trigger] entries[e].stat] == name
}

/// The stats that keep their default, in order: those whose name no entry
/// set.
pub open spec fn unset_upto(entries: Seq<SheetEntryView>, names: Seq<Seq<char>>, k: int) -> Seq<int>
    decreases k,
{
    if k <= 0 {
        Seq::empty()
    } else if named_in(entries, names, names[k - 1]) {
        unset_upto(entries, names, k - 1)
    } else {
        unset_upto(entries, names, k - 1).push(k - 1)
    }
}

/// One stat set by a sheet: its position among the stats, and its value.
#[derive(Debug)]
pub struct SheetEntry {
    pub stat: usize,
    pub value: SheetValue,
}

impl View for SheetEntry {
    type V = SheetEntryView;

    open spec fn view(&self) -> SheetEntryView {
        SheetEntryView { stat: self.stat as int, value: self.value@ }
    }
}

pub open spec fn entries_view(v: Seq<SheetEntry>) -> Seq<SheetEntryView> {
    v.map_values(|e: SheetEntry| e@)
}

pub open spec fn strings_view(v: Seq<String>) -> Seq<Seq<char>> {
    v.map_values(|s: String| s@)
}

fn contains_chars(line: &[char], name: &[char]) -> (b: bool)
    ensures
        b == contains_seq(line@, name@),
{
    if name.len() > line.len() {
        proof {
            assert forall|i: int| 0 <= i && i + name@.len() <= line@.len() implies #[trigger] line@.subrange(i, i + name@.len()) != name@ by {}
        }
        return false;
    }
    let n = name.len();
    if n == 0 {
        assert(line@.subrange(0int, 0int + name@.len()) =~= name@);
        return true;
    }
    let last = line.len() - n;
    let mut i: usize = 0;
    while i < last + 1
        invariant
            n == name@.len(),
            n >= 1,
            last + n == line@.len(),
            last + n == line.len(),
            i <= last + 1,
            forall|j: int| 0 <= j < i ==> #[trigger] line@.subrange(j, j + n) != name@,
        decreases last + 1 - i,
    {
        let mut k: usize = 0;
        while k < n && line[i + k] == name[k]
            invariant
                k <= n,
                i <= last,
                n == name@.len(),
                last + n == line@.len(),
                last + n == line.len(),
                forall|m: int| 0 <= m < k ==> line@[i + m] == name@[m],
            decreases n - k,
        {
            k = k + 1;
        }
        if k == n {
            assert(line@.subrange(i as int, i + n) =~= name@);
            return true;
        }
        assert(line@.subrange(i as int, i + n)[k as int] != name@[k as int]);
        i = i + 1;
    }
    proof {
        assert forall|j: int| 0 <= j && j + name@.len() <= line@.len() implies #[trigger] line@.subrange(j, j + name@.len()) != name@ by {
            assert(j <= last);
        }
    }
    false
}

fn first_stat(line: &[char], names: &Vec<String>) -> (r: Option<usize>)
    ensures
        match (r, first_stat_from(line@, strings_view(names@), 0)) {
            (None, None) => true,
            (Some(i), Some(j)) => i == j && i < names@.len(),
            _ => false,
        },
{
    let ghost nv = strings_view(names@);
    let mut k: usize = 0;
    while k < names.len()
        invariant
            k <= names@.len(),
            nv == strings_view(names@),
            first_stat_from(line@, nv, 0) == first_stat_from(line@, nv, k as int),
        decreases names@.len() - k,
    {
        let name = chars_of(names[k].as_str());
        assert(nv[k as int] == names@[k as int]@);
        if contains_chars(line, &name) {
            return Some(k);
        }
        k = k + 1;
    }
    None
}

/// `str::parse::<i64>`.
pub fn parse_i64(s: &[char]) -> (r: Option<i64>)
    ensures
        r == parse_i64_spec(s@),
{
    if s.len() > 0 && s[0] == '-' {
        if s.len() == 1 {
            return None;
        }
        assert(s@.subrange(1, s@.len() as int) =~= s@.drop_first());
        match digits_value_upto(s, 1, s.len(), 0x8000_0000_0000_0000) {
            Some(v) => {
                if v == 0x8000_0000_0000_0000 {
                    Some(i64::MIN)
                } else {
                    let w = v as i64;
                    Some(0 - w)
                }
            },
            None => None,
        }
    } else {
        match parse_u64(s) {
            Some(v) => if v <= 0x7fff_ffff_ffff_ffff { Some(v as i64) } else { None },
            None => None,
        }
    }
}

fn typed_value_of(kind: StatKind, text: &[char]) -> (r: Option<SheetValue>)
    ensures
        match (r, typed_value(kind, text@)) {
            (None, None) => true,
            (Some(a), Some(b)) => a@ == b,
            _ => false,
        },
{
    match kind {
        StatKind::Int => match parse_i64(text) {
            Some(v) => Some(SheetValue::Int(v)),
            None => None,
        },
        StatKind::Float => Some(SheetValue::FloatText(string_of(text))),
        StatKind::Text => Some(SheetValue::Text(string_of(text))),
        StatKind::Bool => {
            if chars_eq(text, &chars_of("true")) {
                Some(SheetValue::Bool(true))
            } else if chars_eq(text, &chars_of("false")) {
                Some(SheetValue::Bool(false))
            } else {
                None
            }
        },
    }
}

fn value_text_of(line: &[char]) -> (r: Vec<char>)
    ensures
        r@ == value_text(line@),
{
    match find_char(line, ':') {
        Some(p) => {
            let len = line.len();
            assert(p < len);
            let r = trim_range(line, p + 1, len);
            assert(line@.subrange(p + 1, line@.len() as int) =~= line@.skip(p + 1));
            r
        },
        None => {
            let r = trim_range(line, 0, line.len());
            assert(line@.subrange(0, line@.len() as int) =~= line@);
            r
        },
    }
}

/// Reads a character sheet against the stats' names and kinds (one kind
/// per name): the stats its lines set, in order, or `None` where a value
/// does not read as its stat's kind.
pub fn read_sheet(input: &str, names: &Vec<String>, kinds: &Vec<StatKind>) -> (r: Option<Vec<SheetEntry>>)
    requires
        names@.len() == kinds@.len(),
    ensures
        match (r, sheet_spec(input@, strings_view(names@), kinds@)) {
            (None, None) => true,
            (Some(a), Some(b)) => entries_view(a@) == b,
            _ => false,
        },
{
    let chars = chars_of(input);
    let lines = lines_of(&chars);
    let ghost ls = str_lines(input@);
    let ghost nv = strings_view(names@);
    let mut out: Vec<SheetEntry> = Vec::new();
    let mut i: usize = 0;
    assert(entries_view(out@) =~= Seq::<SheetEntryView>::empty());
    while i < lines.len()
        invariant
            i <= lines@.len(),
            ls == str_lines(input@),
            nv == strings_view(names@),
            names@.len() == kinds@.len(),
            lines@.len() == ls.len(),
            forall|k: int| 0 <= k < lines@.len() ==> #[trigger] lines@[k]@ == ls[k],
            sheet_upto(ls, nv, kinds@, i as int) == Some(entries_view(out@)),
        decreases lines@.len() - i,
    {
        assert(lines@[i as int]@ == ls[i as int]);
        match first_stat(&lines[i], names) {
            None => {},
            Some(s) => {
                let text = value_text_of(&lines[i]);
                match typed_value_of(kinds[s], &text) {
                    Some(v) => {
                        let ghost prev = out@;
                        out.push(SheetEntry { stat: s, value: v });
                        assert(entries_view(out@) =~= entries_view(prev).push(out@[out@.len() - 1]@));
                    },
                    None => {
                        proof { lemma_sheet_none(ls, nv, kinds@, i + 1, ls.len() as int); }
                        return None;
                    },
                }
            },
        }
        i = i + 1;
    }
    Some(out)
}

proof fn lemma_sheet_none(lines: Seq<Seq<char>>, names: Seq<Seq<char>>, kinds: Seq<StatKind>, k: int, m: int)
    requires
        0 < k <= m,
        sheet_upto(lines, names, kinds, k) is None,
    ensures
        sheet_upto(lines, names, kinds, m) is None,
    decreases m - k,
{
    if m > k {
        lemma_sheet_none(lines, names, kinds, k, m - 1);
    }
}

/// The stats that no entry set (by name), in order: they keep their
/// default.
pub fn unset_stats(entries: &Vec<SheetEntry>, names: &Vec<String>) -> (r: Vec<usize>)
    requires
        forall|e: int| 0 <= e < entries@.len() ==> #[trigger] entries@[e].stat < names@.len(),
    ensures
        r@.map_values(|k: usize| k as int) == unset_upto(entries_view(entries@), strings_view(names@), names@.len() as int),
{
    let ghost ev = entries_view(entries@);
    let ghost nv = strings_view(names@);
    let mut r: Vec<usize> = Vec::new();
    let mut k: usize = 0;
    assert(r@.map_values(|k: usize| k as int) =~= Seq::<int>::empty());
    while k < names.len()
        invariant
            k <= names@.len(),
            ev == entries_view(entries@),
            nv == strings_view(names@),
            forall|e: int| 0 <= e < entries@.len() ==> #[trigger] entries@[e].stat < names@.len(),
            r@.map_values(|k: usize| k as int) == unset_upto(ev, nv, k as int),
        decreases names@.len() - k,
    {
        let name = chars_of(names[k].as_str());
        assert(nv[k as int] == name@);
        let mut e: usize = 0;
        let mut found = false;
        while e < entries.len()
            invariant
                e <= entries@.len(),
                ev == entries_view(entries@),
                nv == strings_view(names@),
                k < names@.len(),
                name@ == nv[k as int],
                forall|x: int| 0 <= x < entries@.len() ==> #[trigger] entries@[x].stat < names@.len(),
                found == exists|x: int| 0 <= x < e && nv[#[trigger] ev[x].stat] == nv[k as int],
            decreases entries@.len() - e,
        {
            let s = entries[e].stat;
            assert(ev[e as int].stat == s as int);
            let other = chars_of(names[s].as_str());
            assert(nv[s as int] == other@);
            if chars_eq(&other, &name) {
                found = true;
            }
            e = e + 1;
        }
        let ghost prev = r@;
        if !found {
            r.push(k);
            assert(r@.map_values(|k: usize| k as int) =~= prev.map_values(|k: usize| k as int).push(k as int));
        }
        k = k + 1;
    }
    r
}

/// Whether a member may act as a moderator: it has the administrator
/// permission, or one of its roles is the server's moderator or admin role.
pub open spec fn may_moderate_spec(has_admin_permission: bool, member_roles: Seq<u64>, moderator_role: Option<u64>, admin_role: Option<u64>) -> bool {
    ||| has_admin_permission
    ||| (moderator_role matches Some(r) && member_roles.contains(r))
    ||| (admin_role matches Some(r) && member_roles.contains(r))
}

fn has_role(roles: &Vec<u64>, r: u64) -> (b: bool)
    ensures
        b == roles@.contains(r),
{
    let mut i: usize = 0;
    while i < roles.len()
        invariant
            i <= roles@.len(),
            forall|k: int| 0 <= k < i ==> roles@[k] != r,
        decreases roles@.len() - i,
    {
        if roles[i] == r {
            assert(roles@[i as int] == r);
            return true;
        }
        i = i + 1;
    }
    false
}

/// Whether a member may act as a moderator.
pub fn may_moderate(has_admin_permission: bool, member_roles: &Vec<u64>, moderator_role: Option<u64>, admin_role: Option<u64>) -> (b: bool)
    ensures
        b == may_moderate_spec(has_admin_permission, member_roles@, moderator_role, admin_role),
{
    let m = match moderator_role {
        Some(r) => has_role(member_roles, r),
        None => false,
    };
    let a = match admin_role {
        Some(r) => has_role(member_roles, r),
        None => false,
    };
    has_admin_permission || m || a
}

/// Checks that a user owns a character, whose owner is written in a sheet's
/// footer.
pub open spec fn owner_check_spec(user_id: u64, footer: Option<Seq<char>>) -> Result<(), Seq<char>> {
    match footer {
        None => Err("create_character__invalid_footer"@),
        Some(f) => match parse_u64_spec(f) {
            None => Err("create_character__invalid_footer"@),
            Some(owner) => if owner == user_id { Ok(()) } else { Err("create_character__not_owner"@) },
        },
    }
}

pub fn check_owner(user_id: u64, footer: Option<&str>) -> (r: Result<(), String>)
    ensures
        match (r, owner_check_spec(user_id, match footer { Some(f) => Some(f@), None => None })) {
            (Ok(()), Ok(())) => true,
            (Err(e), Err(f)) => e@ == f,
            _ => false,
        },
{
    match footer {
        None => Err(String::from_str("create_character__invalid_footer")),
        Some(f) => {
            let cs = chars_of(f);
            match parse_u64(&cs) {
                None => Err(String::from_str("create_character__invalid_footer")),
                Some(owner) => if owner == user_id {
                    Ok(())
                } else {
                    Err(String::from_str("create_character__not_owner"))
                },
            }
        },
    }
}

} // verus!

verus! {

/// The longest nickname a member may have.
pub const NICKNAME_MAX: usize = 32;

/// The nickname of an accepted character's player: the character's name, a
/// `│` and the player's display name, or the character's name alone where
/// that would run over `NICKNAME_MAX` characters.
pub open spec fn nickname_spec(character_name: Seq<char>, display_name: Seq<char>) -> Seq<char> {
    let full = character_name + seq!['│'] + display_name;
    if full.len() > NICKNAME_MAX { character_name } else { full }
}

pub fn nickname(character_name: &str, display_name: &str) -> (r: String)
    ensures
        r@ == nickname_spec(character_name@, display_name@),
{
    let mut full = chars_of(character_name);
    full.push('│');
    let d = chars_of(display_name);
    let mut i: usize = 0;
    let ghost start = full@;
    while i < d.len()
        invariant
            i <= d@.len(),
            d@ == display_name@,
            full@ == start + d@.take(i as int),
        decreases d@.len() - i,
    {
        full.push(d[i]);
        assert(d@.take(i + 1) =~= d@.take(i as int).push(d@[i as int]));
        i = i + 1;
    }
    assert(d@.take(d@.len() as int) =~= d@);
    assert(start =~= character_name@ + seq!['│']);
    if full.len() > NICKNAME_MAX {
        string_of(&chars_of(character_name))
    } else {
        string_of(&full)
    }
}

} // verus!
