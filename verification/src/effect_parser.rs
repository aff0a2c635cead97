//! The text format of item effects.
//!
//! Each line reads `Stat: Value [Duration] [Level]`, for instance
//! `Force: +5 10m joueur`, `Vitesse: x1.2 1h endroit` or `HP: 10 flat univers`.
//! Empty lines, lines that start with `#` and lines without a `:` are
//! skipped. Only the text between the first and the second `:` is read after
//! the stat's name. A duration is a number followed by a unit (`s`, `m`,
//! `h`, `d` or `j`); a level names where the effect applies. A word `flat`
//! after the value marks a flat value.
//!
//! Reading is split in three: the lines are read from the text
//! (`EffectParser::parse_text`); each line's stat is looked up and the line
//! resolved from what came back (`EffectParser::resolve_line`); the value's
//! number is read by the caller.
use vstd::prelude::*;
use crate::text::{
    chars_of, string_of, trim, trim_range, split_on, split_chars, words, split_words, is_digit,
    parse_u64_spec, parse_u64, lowercase, lowercase_chars, chars_eq, ends_with, ends_with_chars,
    slice_range, message,
};
use crate::document::DocumentId;
use crate::modifiers::ModifierLevel;

verus! {

/// The level a lowercased word names, if any.
pub open spec fn level_word_spec(l: Seq<char>) -> Option<ModifierLevel> {
    if l == "joueur"@ || l == "player"@ {
        Some(ModifierLevel::Player)
    } else if l == "endroit"@ || l == "place"@ || l == "salon"@ {
        Some(ModifierLevel::Place)
    } else if l == "lieu"@ || l == "area"@ || l == "catégorie"@ || l == "categorie"@ {
        Some(ModifierLevel::Area)
    } else if l == "univers"@ || l == "universe"@ {
        Some(ModifierLevel::Universe)
    } else {
        None
    }
}

pub open spec fn is_unit_char(c: char) -> bool {
    c == 's' || c == 'm' || c == 'h' || c == 'd' || c == 'j'
}

/// Whether a lowercased word reads as a duration: it starts with a digit
/// and ends with a unit.
pub open spec fn duration_word_spec(l: Seq<char>) -> bool {
    l.len() > 0 && is_digit(l[0]) && is_unit_char(l.last())
}

/// The number of decimal digits at the start of `s`.
pub open spec fn leading_digits(s: Seq<char>) -> nat
    decreases s.len(),
{
    if s.len() > 0 && is_digit(s[0]) {
        1 + leading_digits(s.drop_first())
    } else {
        0
    }
}

/// The seconds in one unit of a duration.
pub open spec fn unit_seconds(unit: Seq<char>) -> Option<u64> {
    let u = trim(unit);
    if u == "s"@ {
        Some(1u64)
    } else if u == "m"@ {
        Some(60u64)
    } else if u == "h"@ {
        Some(3600u64)
    } else if u == "d"@ || u == "j"@ {
        Some(86400u64)
    } else if u.len() == 0 {
        Some(60u64)
    } else {
        None
    }
}

/// A lowercased, trimmed duration in seconds: its leading digits times its
/// unit (minutes when there is none). The product is unbounded here.
pub open spec fn duration_spec(d: Seq<char>) -> Result<int, Seq<char>> {
    let n = leading_digits(d) as int;
    if n == 0 {
        Err("Durée invalide: "@ + d)
    } else {
        match parse_u64_spec(d.take(n)) {
            None => Err("Nombre invalide dans la durée: "@ + d),
            Some(num) => match unit_seconds(d.skip(n)) {
                None => Err("Unité de temps inconnue: "@ + d.skip(n)),
                Some(m) => Ok(num * m),
            },
        }
    }
}

/// Whether a duration's seconds, where it has any, fit in a `u64`.
pub open spec fn duration_fits(d: Seq<char>) -> bool {
    duration_spec(d) matches Ok(v) ==> v <= u64::MAX
}

pub open spec fn flat_word() -> Seq<char> {
    "flat"@
}

/// The level, the duration word and whether a word `flat` occurs, over the
/// words `ws[1..k]`: a later level or duration replaces an earlier one.
pub open spec fn scan_words(ws: Seq<Seq<char>>, k: int) -> (ModifierLevel, Option<Seq<char>>, bool)
    decreases k,
{
    if k <= 1 {
        (ModifierLevel::Player, None, false)
    } else {
        let (level, duration, flat) = scan_words(ws, k - 1);
        let w = ws[k - 1];
        let lw = lowercase(w);
        let flat2 = flat || lw == flat_word();
        match level_word_spec(lw) {
            Some(l) => (l, duration, flat2),
            None => if duration_word_spec(lw) {
                (level, Some(w), flat2)
            } else {
                (level, duration, flat2)
            },
        }
    }
}

pub struct EffectBodyView {
    pub value: Seq<char>,
    pub duration: Option<Seq<char>>,
    pub level: ModifierLevel,
}

/// What follows a stat's name: the value (with ` flat` added when a later
/// word `flat` marks it and it does not already end so), the duration word
/// and the level; `None` when there is no word.
pub open spec fn effect_body_spec(rem: Seq<char>) -> Option<EffectBodyView> {
    let ws = words(rem);
    if ws.len() == 0 {
        None
    } else {
        let (level, duration, flat) = scan_words(ws, ws.len() as int);
        let value = ws[0];
        let full = if flat && !ends_with(lowercase(value), flat_word()) { value + " flat"@ } else { value };
        Some(EffectBodyView { value: full, duration, level })
    }
}

pub struct EffectLineView {
    pub stat_name: Seq<char>,
    pub body: Option<EffectBodyView>,
}

/// One raw line of text: `None` for a line that is skipped.
pub open spec fn effect_line_spec(raw: Seq<char>) -> Option<EffectLineView> {
    let t = trim(raw);
    let parts = split_on(t, ':');
    if t.len() == 0 || t[0] == '#' || parts.len() < 2 {
        None
    } else {
        Some(EffectLineView { stat_name: trim(parts[0]), body: effect_body_spec(trim(parts[1])) })
    }
}

/// The lines read from the first `k` raw lines.
pub open spec fn effect_lines_upto(raws: Seq<Seq<char>>, k: int) -> Seq<EffectLineView>
    decreases k,
{
    if k <= 0 {
        Seq::empty()
    } else {
        match effect_line_spec(raws[k - 1]) {
            Some(l) => effect_lines_upto(raws, k - 1).push(l),
            None => effect_lines_upto(raws, k - 1),
        }
    }
}

/// The effect lines of a text, in order.
pub open spec fn effect_lines_spec(text: Seq<char>) -> Seq<EffectLineView> {
    let raws = split_on(text, '\n');
    effect_lines_upto(raws, raws.len() as int)
}

/// What follows a stat's name on a line.
#[derive(Debug)]
pub struct EffectBody {
    pub value: String,
    pub duration: Option<String>,
    pub level: ModifierLevel,
}

impl View for EffectBody {
    type V = EffectBodyView;

    open spec fn view(&self) -> EffectBodyView {
        EffectBodyView {
            value: self.value@,
            duration: match &self.duration {
                Some(d) => Some(d@),
                None => None,
            },
            level: self.level,
        }
    }
}

/// One line of effects: a stat's name, and what follows it if anything.
#[derive(Debug)]
pub struct EffectLine {
    pub stat_name: String,
    pub body: Option<EffectBody>,
}

impl View for EffectLine {
    type V = EffectLineView;

    open spec fn view(&self) -> EffectLineView {
        EffectLineView {
            stat_name: self.stat_name@,
            body: match &self.body {
                Some(b) => Some(b@),
                None => None,
            },
        }
    }
}

pub open spec fn effect_lines_view(v: Seq<EffectLine>) -> Seq<EffectLineView> {
    v.map_values(|l: EffectLine| l@)
}

/// How the lookup of a stat's name came back.
#[derive(Debug)]
pub enum StatLookup {
    Found(DocumentId),
    Missing,
    Failed(String),
}

pub enum StatLookupView {
    Found(DocumentId),
    Missing,
    Failed(Seq<char>),
}

impl View for StatLookup {
    type V = StatLookupView;

    open spec fn view(&self) -> StatLookupView {
        match self {
            StatLookup::Found(id) => StatLookupView::Found(*id),
            StatLookup::Missing => StatLookupView::Missing,
            StatLookup::Failed(e) => StatLookupView::Failed(e@),
        }
    }
}

/// An effect line once its stat was found: the stat, the value still to be
/// read as a number, the duration in seconds if any, and the level.
#[derive(Debug)]
pub struct LineEffect {
    pub stat_id: DocumentId,
    pub value: String,
    pub end_timestamp: Option<u64>,
    pub level: ModifierLevel,
}

pub struct LineEffectView {
    pub stat_id: DocumentId,
    pub value: Seq<char>,
    pub end_timestamp: Option<u64>,
    pub level: ModifierLevel,
}

impl View for LineEffect {
    type V = LineEffectView;

    open spec fn view(&self) -> LineEffectView {
        LineEffectView { stat_id: self.stat_id, value: self.value@, end_timestamp: self.end_timestamp, level: self.level }
    }
}

/// A line resolved with the lookup of its stat: an error, nothing (no
/// value follows the name), or the effect. `None` where the duration's
/// seconds do not fit in a `u64`.
pub open spec fn resolve_line_spec(line: EffectLineView, lookup: StatLookupView) -> Option<Result<Option<LineEffectView>, Seq<char>>> {
    match lookup {
        StatLookupView::Failed(e) => Some(Err("Erreur DB lors de la recherche de la stat "@ + line.stat_name + ": "@ + e)),
        StatLookupView::Missing => Some(Err("Stat non trouvée: "@ + line.stat_name)),
        StatLookupView::Found(id) => match line.body {
            None => Some(Ok(None)),
            Some(b) => match b.duration {
                None => Some(Ok(Some(LineEffectView { stat_id: id, value: b.value, end_timestamp: None, level: b.level }))),
                Some(w) => match duration_spec(lowercase(trim(w))) {
                    Err(e) => Some(Err(e)),
                    Ok(v) => if v <= u64::MAX {
                        Some(Ok(Some(LineEffectView { stat_id: id, value: b.value, end_timestamp: Some(v as u64), level: b.level })))
                    } else {
                        None
                    },
                },
            },
        },
    }
}

pub struct EffectParser;

impl EffectParser {
    /// The level a lowercased word names.
    pub fn level_named(lower: &str) -> (r: Option<ModifierLevel>)
        ensures
            r == level_word_spec(lower@),
    {
        let l = chars_of(lower);
        Self::level_of_chars(&l)
    }

    fn level_of_chars(l: &[char]) -> (r: Option<ModifierLevel>)
        ensures
            r == level_word_spec(l@),
    {
        if chars_eq(l, &chars_of("joueur")) || chars_eq(l, &chars_of("player")) {
            Some(ModifierLevel::Player)
        } else if chars_eq(l, &chars_of("endroit")) || chars_eq(l, &chars_of("place")) || chars_eq(l, &chars_of("salon")) {
            Some(ModifierLevel::Place)
        } else if chars_eq(l, &chars_of("lieu")) || chars_eq(l, &chars_of("area")) || chars_eq(l, &chars_of("catégorie"))
            || chars_eq(l, &chars_of("categorie")) {
            Some(ModifierLevel::Area)
        } else if chars_eq(l, &chars_of("univers")) || chars_eq(l, &chars_of("universe")) {
            Some(ModifierLevel::Universe)
        } else {
            None
        }
    }

    /// The level a word names, whatever its case.
    pub fn try_parse_level(s: &str) -> (r: Option<ModifierLevel>)
        ensures
            r == level_word_spec(lowercase(s@)),
    {
        let l = lowercase_chars(&chars_of(s));
        Self::level_of_chars(&l)
    }

    /// Whether a lowercased word reads as a duration.
    pub fn is_duration_word(lower: &str) -> (b: bool)
        ensures
            b == duration_word_spec(lower@),
    {
        let l = chars_of(lower);
        Self::duration_word_chars(&l)
    }

    fn duration_word_chars(l: &[char]) -> (b: bool)
        ensures
            b == duration_word_spec(l@),
    {
        if l.len() == 0 {
            return false;
        }
        let first = l[0];
        let last = l[l.len() - 1];
        ('0' <= first && first <= '9') && (last == 's' || last == 'm' || last == 'h' || last == 'd' || last == 'j')
    }

    /// Whether a word, whatever its case, reads as a duration.
    pub fn is_duration(s: &str) -> (b: bool)
        ensures
            b == duration_word_spec(lowercase(s@)),
    {
        let l = lowercase_chars(&chars_of(s));
        Self::duration_word_chars(&l)
    }

    fn unit_seconds_of(unit: &[char]) -> (r: Option<u64>)
        ensures
            r == unit_seconds(unit@),
    {
        let u = trim_range(unit, 0, unit.len());
        assert(unit@.subrange(0, unit@.len() as int) =~= unit@);
        if chars_eq(&u, &chars_of("s")) {
            Some(1)
        } else if chars_eq(&u, &chars_of("m")) {
            Some(60)
        } else if chars_eq(&u, &chars_of("h")) {
            Some(3600)
        } else if chars_eq(&u, &chars_of("d")) || chars_eq(&u, &chars_of("j")) {
            Some(86400)
        } else if u.len() == 0 {
            Some(60)
        } else {
            None
        }
    }

    /// A lowercased, trimmed duration in seconds; `None` where the product
    /// does not fit in a `u64`.
    fn duration_of(d: &[char]) -> (r: Option<Result<u64, String>>)
        ensures
            match (r, duration_spec(d@)) {
                (None, Ok(v)) => v > u64::MAX,
                (Some(Ok(a)), Ok(v)) => a == v,
                (Some(Err(e)), Err(f)) => e@ == f,
                _ => false,
            },
    {
        let mut n: usize = 0;
        assert(d@.skip(0) =~= d@);
        while n < d.len() && '0' <= d[n] && d[n] <= '9'
            invariant
                n <= d@.len(),
                forall|k: int| 0 <= k < n ==> is_digit(#[trigger] d@[k]),
                leading_digits(d@) == n + leading_digits(d@.skip(n as int)),
            decreases d@.len() - n,
        {
            assert(d@.skip(n as int).drop_first() =~= d@.skip(n + 1));
            n = n + 1;
        }
        assert(leading_digits(d@.skip(n as int)) == 0);
        if n == 0 {
            return Some(Err(message("Durée invalide: ", d)));
        }
        let num_str = slice_range(d, 0, n);
        assert(d@.subrange(0, n as int) =~= d@.take(n as int));
        match parse_u64(&num_str) {
            None => Some(Err(message("Nombre invalide dans la durée: ", d))),
            Some(num) => {
                let unit = slice_range(d, n, d.len());
                assert(d@.subrange(n as int, d@.len() as int) =~= d@.skip(n as int));
                match Self::unit_seconds_of(&unit) {
                    None => Some(Err(message("Unité de temps inconnue: ", &unit))),
                    Some(m) => {
                        match num.checked_mul(m) {
                            Some(v) => Some(Ok(v)),
                            None => None,
                        }
                    },
                }
            },
        }
    }

    /// The seconds of a lowercased, trimmed duration.
    pub fn seconds_of_lowercase(lower: &str) -> (r: Result<u64, String>)
        requires
            duration_fits(lower@),
        ensures
            match (r, duration_spec(lower@)) {
                (Ok(a), Ok(v)) => a == v,
                (Err(e), Err(f)) => e@ == f,
                _ => false,
            },
    {
        let d = chars_of(lower);
        match Self::duration_of(&d) {
            Some(r) => r,
            None => Ok(0),
        }
    }

    /// A duration in seconds: the number at its start times its unit
    /// (`s`, `m`, `h`, `d` or `j`; minutes when there is none), read once
    /// the duration is trimmed and lowercased.
    pub fn parse_duration_to_seconds(d: &str) -> (r: Result<u64, String>)
        requires
            duration_fits(lowercase(trim(d@))),
        ensures
            match (r, duration_spec(lowercase(trim(d@)))) {
                (Ok(a), Ok(v)) => a == v,
                (Err(e), Err(f)) => e@ == f,
                _ => false,
            },
    {
        let cs = chars_of(d);
        let t = trim_range(&cs, 0, cs.len());
        assert(cs@.subrange(0, cs@.len() as int) =~= cs@);
        let l = lowercase_chars(&t);
        let ls = string_of(&l);
        Self::seconds_of_lowercase(ls.as_str())
    }

    /// A duration in seconds, or `None` where its seconds do not fit in a
    /// `u64`.
    pub fn checked_duration_to_seconds(d: &str) -> (r: Option<Result<u64, String>>)
        ensures
            match (r, duration_spec(lowercase(trim(d@)))) {
                (None, Ok(v)) => v > u64::MAX,
                (Some(Ok(a)), Ok(v)) => a == v,
                (Some(Err(e)), Err(f)) => e@ == f,
                _ => false,
            },
    {
        let cs = chars_of(d);
        let t = trim_range(&cs, 0, cs.len());
        assert(cs@.subrange(0, cs@.len() as int) =~= cs@);
        let l = lowercase_chars(&t);
        match Self::duration_of(&l) {
            None => None,
            Some(_) => Some(Self::parse_duration_to_seconds(d)),
        }
    }

    fn read_body(rem: &[char]) -> (r: Option<EffectBody>)
        ensures
            match (r, effect_body_spec(rem@)) {
                (None, None) => true,
                (Some(b), Some(c)) => b@ == c,
                _ => false,
            },
    {
        let ws = split_words(rem);
        let ghost wv = words(rem@);
        if ws.len() == 0 {
            return None;
        }
        let mut level = ModifierLevel::Player;
        let mut duration: Option<Vec<char>> = None;
        let mut flat = false;
        let flat_chars = chars_of("flat");
        let mut k: usize = 1;
        while k < ws.len()
            invariant
                1 <= k <= ws@.len(),
                wv == words(rem@),
                ws@.len() == wv.len(),
                forall|j: int| 0 <= j < ws@.len() ==> #[trigger] ws@[j]@ == wv[j],
                flat_chars@ == flat_word(),
                scan_words(wv, k as int) == (level, match duration {
                    Some(d) => Some(d@),
                    None => None::<Seq<char>>,
                }, flat),
            decreases ws@.len() - k,
        {
            assert(ws@[k as int]@ == wv[k as int]);
            let lw = lowercase_chars(&ws[k]);
            if chars_eq(&lw, &flat_chars) {
                flat = true;
            }
            match Self::level_of_chars(&lw) {
                Some(l) => { level = l; },
                None => {
                    if Self::duration_word_chars(&lw) {
                        let w = slice_range(&ws[k], 0, ws[k].len());
                        assert(ws@[k as int]@.subrange(0, ws@[k as int]@.len() as int) =~= ws@[k as int]@);
                        duration = Some(w);
                    }
                },
            }
            k = k + 1;
        }
        assert(ws@[0]@ == wv[0]);
        let value = &ws[0];
        let lv = lowercase_chars(value);
        let full = if flat && !ends_with_chars(&lv, &flat_chars) {
            let mut f = slice_range(value, 0, value.len());
            assert(value@.subrange(0, value@.len() as int) =~= value@);
            f.push(' ');
            f.push('f');
            f.push('l');
            f.push('a');
            f.push('t');
            proof { reveal_strlit(" flat"); }
            assert(f@ =~= value@ + " flat"@);
            f
        } else {
            let f = slice_range(value, 0, value.len());
            assert(value@.subrange(0, value@.len() as int) =~= value@);
            f
        };
        let dur = match duration {
            Some(d) => Some(string_of(&d)),
            None => None,
        };
        Some(EffectBody { value: string_of(&full), duration: dur, level })
    }

    fn read_line(raw: &[char]) -> (r: Option<EffectLine>)
        ensures
            match (r, effect_line_spec(raw@)) {
                (None, None) => true,
                (Some(l), Some(m)) => l@ == m,
                _ => false,
            },
    {
        let t = trim_range(raw, 0, raw.len());
        assert(raw@.subrange(0, raw@.len() as int) =~= raw@);
        if t.len() == 0 || t[0] == '#' {
            return None;
        }
        let parts = split_chars(&t, ':');
        if parts.len() < 2 {
            return None;
        }
        assert(parts@[0]@ == split_on(t@, ':')[0]);
        assert(parts@[1]@ == split_on(t@, ':')[1]);
        let name = trim_range(&parts[0], 0, parts[0].len());
        assert(parts@[0]@.subrange(0, parts@[0]@.len() as int) =~= parts@[0]@);
        let rem = trim_range(&parts[1], 0, parts[1].len());
        assert(parts@[1]@.subrange(0, parts@[1]@.len() as int) =~= parts@[1]@);
        let body = Self::read_body(&rem);
        Some(EffectLine { stat_name: string_of(&name), body })
    }

    /// Reads the effect lines of a text, in order.
    pub fn parse_text(text: &str) -> (r: Vec<EffectLine>)
        ensures
            effect_lines_view(r@) == effect_lines_spec(text@),
    {
        let chars = chars_of(text);
        let raws = split_chars(&chars, '\n');
        let ghost rs = split_on(text@, '\n');
        let mut lines: Vec<EffectLine> = Vec::new();
        let mut i: usize = 0;
        assert(effect_lines_view(lines@) =~= Seq::<EffectLineView>::empty());
        while i < raws.len()
            invariant
                i <= raws@.len(),
                rs == split_on(text@, '\n'),
                raws@.len() == rs.len(),
                forall|k: int| 0 <= k < raws@.len() ==> #[trigger] raws@[k]@ == rs[k],
                effect_lines_view(lines@) == effect_lines_upto(rs, i as int),
            decreases raws@.len() - i,
        {
            assert(raws@[i as int]@ == rs[i as int]);
            match Self::read_line(&raws[i]) {
                Some(l) => {
                    lines.push(l);
                    assert(effect_lines_view(lines@) =~= effect_lines_upto(rs, i as int).push(l@));
                },
                None => {},
            }
            i = i + 1;
        }
        lines
    }

    /// Resolves a line with the lookup of its stat. `None` where the
    /// duration's seconds do not fit in a `u64`.
    pub fn resolve_line(line: &EffectLine, lookup: &StatLookup) -> (r: Option<Result<Option<LineEffect>, String>>)
        ensures
            match (r, resolve_line_spec(line@, lookup@)) {
                (None, None) => true,
                (Some(Ok(None)), Some(Ok(None))) => true,
                (Some(Ok(Some(a))), Some(Ok(Some(b)))) => a@ == b,
                (Some(Err(e)), Some(Err(f))) => e@ == f,
                _ => false,
            },
    {
        match lookup {
            StatLookup::Failed(e) => {
                let mut m = String::from_str("Erreur DB lors de la recherche de la stat ");
                m.append(line.stat_name.as_str());
                m.append(": ");
                m.append(e.as_str());
                Some(Err(m))
            },
            StatLookup::Missing => {
                let mut m = String::from_str("Stat non trouvée: ");
                m.append(line.stat_name.as_str());
                Some(Err(m))
            },
            StatLookup::Found(id) => match &line.body {
                None => Some(Ok(None)),
                Some(b) => match &b.duration {
                    None => Some(Ok(Some(LineEffect { stat_id: *id, value: b.value.clone(), end_timestamp: None, level: b.level }))),
                    Some(w) => {
                        match Self::checked_duration_to_seconds(w.as_str()) {
                            None => None,
                            Some(Err(e)) => Some(Err(e)),
                            Some(Ok(v)) => Some(Ok(Some(LineEffect { stat_id: *id, value: b.value.clone(), end_timestamp: Some(v), level: b.level }))),
                        }
                    },
                },
            },
        }
    }
}

} // verus!
