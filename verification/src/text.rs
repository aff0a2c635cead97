//! Character-level text handling with the semantics of `str`'s own methods
//! (`trim`, `split`, `find`, `parse::<u32>`), stated over `Seq<char>`.
use vstd::prelude::*;

verus! {

/// The Unicode `White_Space` property, which `char::is_whitespace` and
/// `str::trim` use.
pub open spec fn is_ws(c: char) -> bool {
    ||| ('\u{9}' <= c && c <= '\u{d}')
    ||| c == ' '
    ||| c == '\u{85}'
    ||| c == '\u{a0}'
    ||| c == '\u{1680}'
    ||| ('\u{2000}' <= c && c <= '\u{200a}')
    ||| c == '\u{2028}'
    ||| c == '\u{2029}'
    ||| c == '\u{202f}'
    ||| c == '\u{205f}'
    ||| c == '\u{3000}'
}

pub fn is_whitespace(c: char) -> (b: bool)
    ensures
        b == is_ws(c),
{
    ('\u{9}' <= c && c <= '\u{d}') || c == ' ' || c == '\u{85}' || c == '\u{a0}' || c == '\u{1680}'
        || ('\u{2000}' <= c && c <= '\u{200a}') || c == '\u{2028}' || c == '\u{2029}' || c
        == '\u{202f}' || c == '\u{205f}' || c == '\u{3000}'
}

/// The characters of a string, in order.
pub fn chars_of(s: &str) -> (v: Vec<char>)
    ensures
        v@ == s@,
{
    let mut v: Vec<char> = Vec::new();
    let mut it = s.chars();
    for c in iter: it
        invariant
            v@ == iter.seq().take(iter.index() as int),
    {
        v.push(c);
    }
    v
}


/// `String::push`: appends one character at the end.
#[verifier::external_body]
fn push_char(s: &mut String, c: char)
    ensures
        final(s)@ == old(s)@.push(c),
{
    s.push(c)
}

/// The string made of the given characters.
pub fn string_of(v: &[char]) -> (s: String)
    ensures
        s@ == v@,
{
    let mut s = String::new();
    for i in 0..v.len()
        invariant
            s@ == v@.take(i as int),
    {
        push_char(&mut s, v[i]);
        assert(v@.take(i + 1) =~= v@.take(i as int).push(v@[i as int]));
    }
    assert(v@.take(v@.len() as int) =~= v@);
    s
}

/// Leading whitespace removed.
pub open spec fn ltrim(s: Seq<char>) -> Seq<char>
    decreases s.len(),
{
    if s.len() > 0 && is_ws(s[0]) {
        ltrim(s.drop_first())
    } else {
        s
    }
}

/// Trailing whitespace removed.
pub open spec fn rtrim(s: Seq<char>) -> Seq<char>
    decreases s.len(),
{
    if s.len() > 0 && is_ws(s.last()) {
        rtrim(s.drop_last())
    } else {
        s
    }
}

/// `str::trim`: whitespace removed at both ends.
pub open spec fn trim(s: Seq<char>) -> Seq<char> {
    rtrim(ltrim(s))
}

/// `s[lo..hi]` with its whitespace trimmed.
pub fn trim_range(s: &[char], lo: usize, hi: usize) -> (r: Vec<char>)
    requires
        lo <= hi <= s@.len(),
    ensures
        r@ == trim(s@.subrange(lo as int, hi as int)),
{
    let mut i = lo;
    while i < hi && is_whitespace(s[i])
        invariant
            lo <= i <= hi <= s@.len(),
            ltrim(s@.subrange(lo as int, hi as int)) == ltrim(s@.subrange(i as int, hi as int)),
        decreases hi - i,
    {
        assert(s@.subrange(i as int, hi as int).drop_first() =~= s@.subrange(i + 1, hi as int));
        i = i + 1;
    }
    let mut j = hi;
    while j > i && is_whitespace(s[j - 1])
        invariant
            lo <= i <= j <= hi <= s@.len(),
            rtrim(s@.subrange(i as int, hi as int)) == rtrim(s@.subrange(i as int, j as int)),
        decreases j - i,
    {
        assert(s@.subrange(i as int, j as int).drop_last() =~= s@.subrange(i as int, j - 1));
        j = j - 1;
    }
    assert(ltrim(s@.subrange(lo as int, hi as int)) == s@.subrange(i as int, hi as int));
    assert(rtrim(s@.subrange(i as int, j as int)) == s@.subrange(i as int, j as int));
    let mut r: Vec<char> = Vec::new();
    let mut k = i;
    while k < j
        invariant
            i <= k <= j <= s@.len(),
            r@ == s@.subrange(i as int, k as int),
        decreases j - k,
    {
        r.push(s[k]);
        assert(s@.subrange(i as int, k + 1) =~= s@.subrange(i as int, k as int).push(s@[k as int]));
        k = k + 1;
    }
    r
}


/// `str::split` on one separator character: `k` separators give `k + 1`
/// pieces, empty ones included.
pub open spec fn split_on(s: Seq<char>, sep: char) -> Seq<Seq<char>>
    decreases s.len(),
{
    if s.len() == 0 {
        seq![Seq::<char>::empty()]
    } else {
        let r = split_on(s.drop_last(), sep);
        if s.last() == sep {
            r.push(Seq::<char>::empty())
        } else {
            r.update(r.len() - 1, r.last().push(s.last()))
        }
    }
}

pub proof fn lemma_split_on_nonempty(s: Seq<char>, sep: char)
    ensures
        split_on(s, sep).len() >= 1,
    decreases s.len(),
{
    if s.len() > 0 {
        lemma_split_on_nonempty(s.drop_last(), sep);
    }
}

/// The pieces of `s` between occurrences of `sep`.
pub fn split_chars(s: &[char], sep: char) -> (r: Vec<Vec<char>>)
    ensures
        r@.len() == split_on(s@, sep).len(),
        forall|k: int| 0 <= k < r@.len() ==> #[trigger] r@[k]@ == split_on(s@, sep)[k],
{
    let mut r: Vec<Vec<char>> = Vec::new();
    let mut cur: Vec<char> = Vec::new();
    let mut i: usize = 0;
    assert(s@.take(0) =~= Seq::<char>::empty());
    while i < s.len()
        invariant
            i <= s@.len(),
            r@.len() + 1 == split_on(s@.take(i as int), sep).len(),
            forall|k: int| 0 <= k < r@.len() ==> #[trigger] r@[k]@ == split_on(s@.take(i as int), sep)[k],
            cur@ == split_on(s@.take(i as int), sep).last(),
        decreases s@.len() - i,
    {
        let ghost prev = s@.take(i as int);
        assert(s@.take(i + 1).drop_last() =~= prev);
        proof { lemma_split_on_nonempty(prev, sep); }
        if s[i] == sep {
            r.push(cur);
            cur = Vec::new();
        } else {
            cur.push(s[i]);
        }
        i = i + 1;
    }
    assert(s@.take(s@.len() as int) =~= s@);
    r.push(cur);
    r
}

/// The first position of `c` in `s`, if any.
pub open spec fn first_pos(s: Seq<char>, c: char) -> Option<int>
    decreases s.len(),
{
    if s.len() == 0 {
        None
    } else if s[0] == c {
        Some(0)
    } else {
        match first_pos(s.drop_first(), c) {
            Some(i) => Some(i + 1),
            None => None,
        }
    }
}

pub proof fn lemma_first_pos(s: Seq<char>, c: char)
    ensures
        first_pos(s, c) matches Some(i) ==> 0 <= i < s.len() && s[i] == c && forall|k: int| 0 <= k < i ==> s[k] != c,
        first_pos(s, c) is None ==> forall|k: int| 0 <= k < s.len() ==> s[k] != c,
    decreases s.len(),
{
    if s.len() > 0 {
        lemma_first_pos(s.drop_first(), c);
        if s[0] != c {
            assert forall|k: int| 1 <= k < s.len() implies s[k] == s.drop_first()[k - 1] by {}
        }
    }
}

pub proof fn lemma_first_pos_at(s: Seq<char>, c: char, i: int)
    requires
        0 <= i <= s.len(),
        forall|k: int| 0 <= k < i ==> s[k] != c,
        i < s.len() ==> s[i] == c,
    ensures
        first_pos(s, c) == (if i < s.len() { Some(i) } else { None::<int> }),
    decreases i,
{
    if i > 0 {
        lemma_first_pos_at(s.drop_first(), c, i - 1);
    }
}

/// `str::find` on one character.
pub fn find_char(s: &[char], c: char) -> (r: Option<usize>)
    ensures
        r matches Some(i) ==> first_pos(s@, c) == Some(i as int) && i < s@.len(),
        r is None ==> first_pos(s@, c) is None,
{
    let mut i: usize = 0;
    while i < s.len()
        invariant
            i <= s@.len(),
            forall|k: int| 0 <= k < i ==> s@[k] != c,
        decreases s@.len() - i,
    {
        if s[i] == c {
            proof { lemma_first_pos_at(s@, c, i as int); }
            return Some(i);
        }
        i = i + 1;
    }
    proof { lemma_first_pos_at(s@, c, i as int); }
    None
}

/// Whether `s` begins with `c`.
pub fn starts_with_char(s: &[char], c: char) -> (b: bool)
    ensures
        b == (s@.len() > 0 && s@[0] == c),
{
    s.len() > 0 && s[0] == c
}

/// A copy of `s[lo..hi]`.
pub fn slice_range(s: &[char], lo: usize, hi: usize) -> (r: Vec<char>)
    requires
        lo <= hi <= s@.len(),
    ensures
        r@ == s@.subrange(lo as int, hi as int),
{
    let mut r: Vec<char> = Vec::new();
    let mut k = lo;
    while k < hi
        invariant
            lo <= k <= hi <= s@.len(),
            r@ == s@.subrange(lo as int, k as int),
        decreases hi - k,
    {
        r.push(s[k]);
        assert(s@.subrange(lo as int, k + 1) =~= s@.subrange(lo as int, k as int).push(s@[k as int]));
        k = k + 1;
    }
    r
}

/// Whether two character sequences are equal.
pub fn chars_eq(a: &[char], b: &[char]) -> (r: bool)
    ensures
        r == (a@ == b@),
{
    if a.len() != b.len() {
        return false;
    }
    let mut i: usize = 0;
    while i < a.len()
        invariant
            a@.len() == b@.len(),
            i <= a@.len(),
            forall|k: int| 0 <= k < i ==> a@[k] == b@[k],
        decreases a@.len() - i,
    {
        if a[i] != b[i] {
            return false;
        }
        i = i + 1;
    }
    assert(a@ =~= b@);
    true
}


pub open spec fn is_digit(c: char) -> bool {
    '0' <= c && c <= '9'
}

pub open spec fn all_digits(s: Seq<char>) -> bool {
    forall|k: int| 0 <= k < s.len() ==> is_digit(#[trigger] s[k])
}

pub open spec fn digit_value(c: char) -> nat {
    (c as int - '0' as int) as nat
}

/// The number written by a sequence of decimal digits (0 for no digits).
pub open spec fn digits_value(s: Seq<char>) -> nat
    decreases s.len(),
{
    if s.len() == 0 {
        0
    } else {
        digits_value(s.drop_last()) * 10 + digit_value(s.last())
    }
}

/// `str::parse` of an unsigned integer: an optional `+`, then one or more
/// decimal digits and nothing else.
pub open spec fn parse_unsigned(s: Seq<char>) -> Option<nat> {
    let ds = if s.len() > 0 && s[0] == '+' { s.drop_first() } else { s };
    if ds.len() > 0 && all_digits(ds) {
        Some(digits_value(ds))
    } else {
        None
    }
}

/// `str::parse::<u32>`.
pub open spec fn parse_u32_spec(s: Seq<char>) -> Option<u32> {
    match parse_unsigned(s) {
        Some(v) => if v <= u32::MAX { Some(v as u32) } else { None },
        None => None,
    }
}

/// `str::parse::<u64>`.
pub open spec fn parse_u64_spec(s: Seq<char>) -> Option<u64> {
    match parse_unsigned(s) {
        Some(v) => if v <= u64::MAX { Some(v as u64) } else { None },
        None => None,
    }
}

pub proof fn lemma_digits_value_prefix(s: Seq<char>, k: int)
    requires
        0 <= k <= s.len(),
        all_digits(s),
    ensures
        digits_value(s.take(k)) <= digits_value(s),
    decreases s.len() - k,
{
    if k < s.len() {
        lemma_digits_value_prefix(s, k + 1);
        assert(s.take(k + 1).drop_last() =~= s.take(k));
        assert(is_digit(s[k]));
    } else {
        assert(s.take(k) =~= s);
    }
}

/// The value of `s[lo..hi]`, all decimal digits, if it is at most `max`.
pub fn digits_value_upto(s: &[char], lo: usize, hi: usize, max: u64) -> (r: Option<u64>)
    requires
        lo <= hi <= s@.len(),
    ensures
        r matches Some(v) ==> all_digits(s@.subrange(lo as int, hi as int)) && v == digits_value(s@.subrange(lo as int, hi as int)) && v <= max,
        r is None ==> !all_digits(s@.subrange(lo as int, hi as int)) || digits_value(s@.subrange(lo as int, hi as int)) > max,
{
    let mut acc: u64 = 0;
    let mut i = lo;
    let ghost t = s@.subrange(lo as int, hi as int);
    while i < hi
        invariant
            lo <= i <= hi <= s@.len(),
            t == s@.subrange(lo as int, hi as int),
            all_digits(t.take(i - lo)),
            acc == digits_value(t.take(i - lo)),
            acc <= max,
        decreases hi - i,
    {
        let c = s[i];
        assert(t.take(i + 1 - lo).drop_last() =~= t.take(i - lo));
        assert(t[i - lo] == c);
        if !('0' <= c && c <= '9') {
            assert(!is_digit(t[i - lo]));
            return None;
        }
        let d: u64 = (c as u32 - '0' as u32) as u64;
        if d > max || acc > (max - d) / 10 {
            proof {
                assert(all_digits(t.take(i + 1 - lo)));
                assert(digits_value(t.take(i + 1 - lo)) == acc * 10 + d);
                assert(acc * 10 + d > max) by (nonlinear_arith)
                    requires d > max || acc > (max - d) / 10, acc >= 0, d >= 0;
                if all_digits(t) {
                    lemma_digits_value_prefix(t, i + 1 - lo);
                }
            }
            return None;
        }
        proof {
            assert((acc * 10 + d) <= max) by (nonlinear_arith)
                requires acc <= (max - d) / 10, d <= 9, max >= d;
        }
        acc = acc * 10 + d;
        i = i + 1;
        assert(all_digits(t.take(i - lo)));
    }
    assert(t.take(hi - lo) =~= t);
    Some(acc)
}


/// `s[lo..hi]` read as an unsigned integer no greater than `max`, with
/// `str::parse`'s rules.
fn parse_unsigned_upto(s: &[char], lo: usize, hi: usize, max: u64) -> (r: Option<u64>)
    requires
        lo <= hi <= s@.len(),
    ensures
        r == (match parse_unsigned(s@.subrange(lo as int, hi as int)) {
            Some(v) => if v <= max { Some(v as u64) } else { None::<u64> },
            None => None::<u64>,
        }),
{
    let ghost t = s@.subrange(lo as int, hi as int);
    let start = if lo < hi && s[lo] == '+' { lo + 1 } else { lo };
    assert(s@.subrange(start as int, hi as int) =~= (if t.len() > 0 && t[0] == '+' { t.drop_first() } else { t }));
    if start == hi {
        return None;
    }
    digits_value_upto(s, start, hi, max)
}

/// `str::parse::<u32>` on `s[lo..hi]`.
pub fn parse_u32_range(s: &[char], lo: usize, hi: usize) -> (r: Option<u32>)
    requires
        lo <= hi <= s@.len(),
    ensures
        r == parse_u32_spec(s@.subrange(lo as int, hi as int)),
{
    match parse_unsigned_upto(s, lo, hi, 0xffff_ffff) {
        Some(v) => Some(v as u32),
        None => None,
    }
}

/// `str::parse::<u32>`.
pub fn parse_u32(s: &[char]) -> (r: Option<u32>)
    ensures
        r == parse_u32_spec(s@),
{
    assert(s@.subrange(0, s@.len() as int) =~= s@);
    parse_u32_range(s, 0, s.len())
}

/// `str::parse::<u64>`.
pub fn parse_u64(s: &[char]) -> (r: Option<u64>)
    ensures
        r == parse_u64_spec(s@),
{
    assert(s@.subrange(0, s@.len() as int) =~= s@);
    parse_unsigned_upto(s, 0, s.len(), 0xffff_ffff_ffff_ffff)
}

pub open spec fn digit_char(d: nat) -> char {
    ((d % 10) + '0' as nat) as char
}

/// The decimal writing of `n`, as `u64`'s `Display` writes it.
pub open spec fn decimal(n: nat) -> Seq<char>
    decreases n,
{
    if n < 10 {
        seq![digit_char(n)]
    } else {
        decimal(n / 10).push(digit_char(n % 10))
    }
}

/// The decimal writing of a number is digits that read back as the number.
pub proof fn lemma_decimal_reads_back(n: nat)
    ensures
        decimal(n).len() > 0,
        all_digits(decimal(n)),
        digits_value(decimal(n)) == n,
        parse_unsigned(decimal(n)) == Some(n),
    decreases n,
{
    let d = decimal(n);
    if n < 10 {
        assert(n % 10 == n);
        assert(digit_char(n) as int == n + 48);
        assert(d.drop_last() =~= Seq::<char>::empty());
        assert(d.last() == digit_char(n));
        assert(digit_value(d.last()) == n);
        assert(digits_value(d.drop_last()) == 0);
        assert(digits_value(d) == digits_value(d.drop_last()) * 10 + digit_value(d.last()));
        assert(is_digit(d[0]));
        assert(all_digits(d));
        assert(d[0] != '+');
    } else {
        lemma_decimal_reads_back(n / 10);
        assert(d.drop_last() =~= decimal(n / 10));
        assert((n % 10) % 10 == n % 10);
        assert(digit_char(n % 10) as int == n % 10 + 48);
        assert(d.last() == digit_char(n % 10));
        assert(digit_value(d.last()) == n % 10);
        assert(all_digits(d)) by {
            assert forall|k: int| 0 <= k < d.len() implies is_digit(#[trigger] d[k]) by {
                if k < d.len() - 1 {
                    assert(d[k] == decimal(n / 10)[k]);
                }
            }
        }
        assert(n == (n / 10) * 10 + n % 10);
        assert(digits_value(d) == digits_value(decimal(n / 10)) * 10 + n % 10);
        assert(is_digit(d[0]));
        assert(d[0] != '+');
    }
}

/// The decimal writing of `n`.
pub fn decimal_chars(n: u64) -> (r: Vec<char>)
    ensures
        r@ == decimal(n as nat),
    decreases n,
{
    let d = (n % 10) as u32;
    let c = char_of_digit(d);
    if n < 10 {
        let mut r: Vec<char> = Vec::new();
        r.push(c);
        r
    } else {
        let mut r = decimal_chars(n / 10);
        r.push(c);
        r
    }
}

fn char_of_digit(d: u32) -> (c: char)
    requires
        d < 10,
    ensures
        c == digit_char(d as nat),
{
    if d == 0 { '0' } else if d == 1 { '1' } else if d == 2 { '2' } else if d == 3 { '3' }
    else if d == 4 { '4' } else if d == 5 { '5' } else if d == 6 { '6' } else if d == 7 { '7' }
    else if d == 8 { '8' } else { '9' }
}


/// Whether `s[lo..hi]` is made of decimal digits only.
pub fn all_digits_range(s: &[char], lo: usize, hi: usize) -> (b: bool)
    requires
        lo <= hi <= s@.len(),
    ensures
        b == all_digits(s@.subrange(lo as int, hi as int)),
{
    let mut i = lo;
    while i < hi
        invariant
            lo <= i <= hi <= s@.len(),
            forall|k: int| lo <= k < i ==> is_digit(#[trigger] s@[k]),
        decreases hi - i,
    {
        if !('0' <= s[i] && s[i] <= '9') {
            assert(!is_digit(s@.subrange(lo as int, hi as int)[i - lo]));
            return false;
        }
        i = i + 1;
    }
    assert forall|k: int| 0 <= k < hi - lo implies is_digit(#[trigger] s@.subrange(lo as int, hi as int)[k]) by {
        assert(s@.subrange(lo as int, hi as int)[k] == s@[lo + k]);
    }
    true
}

/// A string whose characters are `prefix` followed by `rest`.
pub fn message(prefix: &str, rest: &[char]) -> (m: String)
    ensures
        m@ == prefix@ + rest@,
{
    let mut m = String::from_str(prefix);
    let r = string_of(rest);
    m.append(r.as_str());
    m
}

/// `prefix`, `middle`, then `suffix`.
pub fn message3(prefix: &str, middle: &[char], suffix: &str) -> (m: String)
    ensures
        m@ == prefix@ + middle@ + suffix@,
{
    let mut m = message(prefix, middle);
    m.append(suffix);
    m
}


/// `str::split` at every whitespace character: `k` whitespace characters
/// give `k + 1` pieces, empty ones included.
pub open spec fn split_at_ws(s: Seq<char>) -> Seq<Seq<char>>
    decreases s.len(),
{
    if s.len() == 0 {
        seq![Seq::<char>::empty()]
    } else {
        let r = split_at_ws(s.drop_last());
        if is_ws(s.last()) {
            r.push(Seq::<char>::empty())
        } else {
            r.update(r.len() - 1, r.last().push(s.last()))
        }
    }
}

pub proof fn lemma_split_at_ws_nonempty(s: Seq<char>)
    ensures
        split_at_ws(s).len() >= 1,
    decreases s.len(),
{
    if s.len() > 0 {
        lemma_split_at_ws_nonempty(s.drop_last());
    }
}

pub open spec fn nonempty_pred() -> spec_fn(Seq<char>) -> bool {
    |w: Seq<char>| w.len() > 0
}

/// `str::split_whitespace`: the nonempty pieces between whitespace.
pub open spec fn words(s: Seq<char>) -> Seq<Seq<char>> {
    split_at_ws(s).filter(nonempty_pred())
}

/// The words of `s`.
pub fn split_words(s: &[char]) -> (r: Vec<Vec<char>>)
    ensures
        r@.len() == words(s@).len(),
        forall|k: int| 0 <= k < r@.len() ==> #[trigger] r@[k]@ == words(s@)[k],
{
    let mut r: Vec<Vec<char>> = Vec::new();
    let mut cur: Vec<char> = Vec::new();
    let mut i: usize = 0;
    assert(s@.take(0) =~= Seq::<char>::empty());
    proof { reveal(Seq::filter); }
    while i < s.len()
        invariant
            i <= s@.len(),
            r@.len() == split_at_ws(s@.take(i as int)).drop_last().filter(nonempty_pred()).len(),
            forall|k: int| 0 <= k < r@.len() ==> #[trigger] r@[k]@ == split_at_ws(s@.take(i as int)).drop_last().filter(nonempty_pred())[k],
            cur@ == split_at_ws(s@.take(i as int)).last(),
        decreases s@.len() - i,
    {
        proof { reveal(Seq::filter); }
        let ghost prev = s@.take(i as int);
        let ghost pr = split_at_ws(prev);
        assert(s@.take(i + 1).drop_last() =~= prev);
        proof { lemma_split_at_ws_nonempty(prev); }
        if is_whitespace(s[i]) {
            let ghost before = r@;
            if cur.len() > 0 {
                r.push(cur);
            }
            cur = Vec::new();
            let ghost nr = split_at_ws(s@.take(i + 1));
            assert(nr.drop_last() =~= pr);
            assert(pr =~= pr.drop_last().push(pr.last()));
            assert(forall|k: int| 0 <= k < r@.len() ==> #[trigger] r@[k]@ == pr.filter(nonempty_pred())[k]);
        } else {
            cur.push(s[i]);
            let ghost nr = split_at_ws(s@.take(i + 1));
            assert(nr.drop_last() =~= pr.drop_last());
        }
        i = i + 1;
    }
    assert(s@.take(s@.len() as int) =~= s@);
    proof {
        lemma_split_at_ws_nonempty(s@);
        let pr = split_at_ws(s@);
        assert(pr =~= pr.drop_last().push(pr.last()));
    }
    if cur.len() > 0 {
        r.push(cur);
    }
    r
}


/// The pieces joined by `sep`, as `[&str]::join` joins them.
pub open spec fn join_with(s: Seq<Seq<char>>, sep: char) -> Seq<char>
    decreases s.len(),
{
    if s.len() == 0 {
        Seq::empty()
    } else if s.len() == 1 {
        s[0]
    } else {
        join_with(s.drop_last(), sep) + seq![sep] + s.last()
    }
}

pub open spec fn char_vecs_view(v: Seq<Vec<char>>) -> Seq<Seq<char>> {
    v.map_values(|p: Vec<char>| p@)
}

/// The first `n` pieces joined by `sep`.
pub fn join_pieces(pieces: &Vec<Vec<char>>, n: usize, sep: char) -> (r: Vec<char>)
    requires
        n <= pieces@.len(),
    ensures
        r@ == join_with(char_vecs_view(pieces@).take(n as int), sep),
{
    let ghost pv = char_vecs_view(pieces@);
    let mut r: Vec<char> = Vec::new();
    let mut i: usize = 0;
    assert(pv.take(0) =~= Seq::<Seq<char>>::empty());
    while i < n
        invariant
            i <= n <= pieces@.len(),
            pv == char_vecs_view(pieces@),
            r@ == join_with(pv.take(i as int), sep),
        decreases n - i,
    {
        assert(pv.take(i + 1).drop_last() =~= pv.take(i as int));
        assert(pv.take(i + 1).last() == pieces@[i as int]@);
        let ghost base0 = r@;
        if i > 0 {
            r.push(sep);
        } else {
            assert(pv.take(1) =~= seq![pieces@[0]@]);
        }
        let ghost base = r@;
        let p = &pieces[i];
        let mut k: usize = 0;
        while k < p.len()
            invariant
                k <= p@.len(),
                r@ == base + p@.take(k as int),
            decreases p@.len() - k,
        {
            r.push(p[k]);
            assert(p@.take(k + 1) =~= p@.take(k as int).push(p@[k as int]));
            assert(r@ =~= base + p@.take(k + 1));
            k = k + 1;
        }
        assert(p@.take(p@.len() as int) =~= p@);
        if i == 0 {
            assert(base =~= Seq::<char>::empty());
            assert(r@ =~= p@);
        } else {
            assert(base =~= base0 + seq![sep]);
        }
        i = i + 1;
    }
    r
}


/// What `str::to_lowercase` returns: each character replaced by its
/// lowercase mapping from Unicode's data, which may be several characters.
/// It depends on the string alone (no locale is consulted).
pub uninterp spec fn lowercase(s: Seq<char>) -> Seq<char>;

/// `str::to_lowercase`; its result is `lowercase` of the argument.
#[verifier::external_body]
fn to_lowercase(s: &str) -> (r: String)
    ensures
        r@ == lowercase(s@),
{
    s.to_lowercase()
}

/// The lowercase form of the characters `w`.
pub fn lowercase_chars(w: &[char]) -> (r: Vec<char>)
    ensures
        r@ == lowercase(w@),
{
    let s = string_of(w);
    let l = to_lowercase(s.as_str());
    chars_of(l.as_str())
}

/// Whether `s` ends with the characters of `suffix`.
pub open spec fn ends_with(s: Seq<char>, suffix: Seq<char>) -> bool {
    s.len() >= suffix.len() && s.skip(s.len() - suffix.len()) == suffix
}

pub fn ends_with_chars(s: &[char], suffix: &[char]) -> (b: bool)
    ensures
        b == ends_with(s@, suffix@),
{
    if s.len() < suffix.len() {
        return false;
    }
    let off = s.len() - suffix.len();
    let mut i: usize = 0;
    while i < suffix.len()
        invariant
            off + suffix@.len() == s@.len(),
            s@.len() == s.len(),
            suffix@.len() == suffix.len(),
            i <= suffix@.len(),
            forall|k: int| 0 <= k < i ==> s@[off + k] == suffix@[k],
        decreases suffix@.len() - i,
    {
        if s[off + i] != suffix[i] {
            assert(s@.skip(off as int)[i as int] != suffix@[i as int]);
            return false;
        }
        i = i + 1;
    }
    assert(s@.skip(off as int) =~= suffix@);
    true
}


/// A line without its one trailing `\r`, if it has one.
pub open spec fn strip_cr(l: Seq<char>) -> Seq<char> {
    if l.len() > 0 && l.last() == '\r' { l.drop_last() } else { l }
}

/// `str::lines`: the pieces between `\n`, each without a trailing `\r`,
/// with no last piece when the text is empty or ends with `\n`.
pub open spec fn str_lines(s: Seq<char>) -> Seq<Seq<char>> {
    let p = split_on(s, '\n');
    let q = if p.last().len() == 0 { p.drop_last() } else { p };
    q.map_values(|l: Seq<char>| strip_cr(l))
}

/// The lines of a text, as `str::lines` gives them.
pub fn lines_of(s: &[char]) -> (r: Vec<Vec<char>>)
    ensures
        r@.len() == str_lines(s@).len(),
        forall|k: int| 0 <= k < r@.len() ==> #[trigger] r@[k]@ == str_lines(s@)[k],
{
    let pieces = split_chars(s, '\n');
    let ghost p = split_on(s@, '\n');
    proof { lemma_split_on_nonempty(s@, '\n'); }
    let n = pieces.len();
    let last_empty = pieces[n - 1].len() == 0;
    let m = if last_empty { n - 1 } else { n };
    let ghost q = if p.last().len() == 0 { p.drop_last() } else { p };
    assert(q.len() == m);
    let mut r: Vec<Vec<char>> = Vec::new();
    let mut i: usize = 0;
    while i < m
        invariant
            i <= m <= pieces@.len(),
            p == split_on(s@, '\n'),
            pieces@.len() == p.len(),
            forall|k: int| 0 <= k < pieces@.len() ==> #[trigger] pieces@[k]@ == p[k],
            q.len() == m,
            forall|k: int| 0 <= k < m ==> #[trigger] q[k] == p[k],
            r@.len() == i,
            forall|k: int| 0 <= k < i ==> #[trigger] r@[k]@ == strip_cr(q[k]),
        decreases m - i,
    {
        let piece = &pieces[i];
        assert(piece@ == q[i as int]);
        let len = piece.len();
        let end = if len > 0 && piece[len - 1] == '\r' { len - 1 } else { len };
        let l = slice_range(piece, 0, end);
        assert(l@ =~= strip_cr(q[i as int]));
        r.push(l);
        i = i + 1;
    }
    r
}

} // verus!
