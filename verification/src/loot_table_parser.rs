//! The text format of loot tables.
//!
//! Each non-blank line `name: chance[, quantity][, stock:N][, secret]` is an
//! item; a line that starts with `-` is an item of the set whose header is
//! the closest item line above it. `quantity` is `N` or `min-max`. A chance
//! is a decimal number of percent, with an optional exponent, held to a
//! millionth of a percent (see `parse_chance_spec`).
//! Whether an item name exists in the universe is decided by a lookup made
//! outside this module: parsing lists the names to look up, in the order in
//! which they are to be checked, with the message that a missing one gives.
use vstd::prelude::*;
use vstd::arithmetic::div_mod::{lemma_fundamental_div_mod_converse, lemma_div_denominator, lemma_basic_div};
use crate::text::{
    all_digits, all_digits_range, decimal, digits_value, digits_value_upto, find_char, first_pos,
    is_digit, digit_value, lemma_first_pos, lemma_first_pos_at, parse_u32_spec, slice_range, trim, trim_range, parse_u32,
    parse_u32_range, lemma_digits_value_prefix, message, decimal_chars, split_on, split_chars, lemma_split_on_nonempty,
    chars_eq, chars_of, string_of, message3,
};
use crate::loot_tables::{
    MAX_CHANCE, ItemView, SetView, EntryView, LootTableItem, LootTableSet, LootTableEntry,
    entries_view, items_view,
};

verus! {

/// The six fractional digits of a decimal fraction: the first six, padded
/// with zeros.
pub open spec fn six_digits(f: Seq<char>) -> Seq<char> {
    if f.len() >= 6 {
        f.take(6)
    } else {
        f + Seq::new((6 - f.len()) as nat, |i: int| '0')
    }
}

/// A chance written without an exponent, in millionths of a percent: an
/// optional sign, digits, and an optional `.` followed by digits, with at
/// least one digit in all; what falls below a millionth is dropped, and the
/// integer part stays below 10^12.
pub open spec fn plain_chance_spec(s: Seq<char>) -> Option<i64> {
    let neg = s.len() > 0 && s[0] == '-';
    let body = if s.len() > 0 && (s[0] == '+' || s[0] == '-') { s.drop_first() } else { s };
    let ip = match first_pos(body, '.') { Some(p) => body.take(p), None => body };
    let fp = match first_pos(body, '.') { Some(p) => body.skip(p + 1), None => Seq::<char>::empty() };
    if all_digits(ip) && all_digits(fp) && ip.len() + fp.len() > 0 && digits_value(ip) < 1_000_000_000_000 {
        let mag = digits_value(ip) * 1_000_000 + digits_value(six_digits(fp));
        Some((if neg { -(mag as int) } else { mag as int }) as i64)
    } else {
        None
    }
}

/// The first `e` or `E`.
pub open spec fn first_exp(s: Seq<char>) -> Option<int>
    decreases s.len(),
{
    if s.len() == 0 {
        None
    } else if s[0] == 'e' || s[0] == 'E' {
        Some(0)
    } else {
        match first_exp(s.drop_first()) {
            Some(i) => Some(i + 1),
            None => None,
        }
    }
}

/// An exponent: an optional sign and one or more digits.
pub open spec fn exponent_spec(x: Seq<char>) -> Option<int> {
    let neg = x.len() > 0 && x[0] == '-';
    let ds = if x.len() > 0 && (x[0] == '+' || x[0] == '-') { x.drop_first() } else { x };
    if ds.len() > 0 && all_digits(ds) {
        Some(if neg { -(digits_value(ds) as int) } else { digits_value(ds) as int })
    } else {
        None
    }
}

/// The millionths that the digits `d` of a mantissa with `f` fractional
/// digits give under the exponent `e`, what falls below a millionth dropped.
pub open spec fn scaled(d: nat, f: int, e: int) -> nat {
    let sh = e + 6 - f;
    if sh >= 0 { d * pow10(sh as nat) } else { d / pow10((-sh) as nat) }
}

/// A mantissa and exponent `m e x` (the `e` at `q` in `body`), as a
/// magnitude in millionths of a percent.
pub open spec fn exp_magnitude(body: Seq<char>, q: int) -> Option<nat> {
    let m = body.take(q);
    let ip = match first_pos(m, '.') { Some(p) => m.take(p), None => m };
    let fp = match first_pos(m, '.') { Some(p) => m.skip(p + 1), None => Seq::<char>::empty() };
    match exponent_spec(body.skip(q + 1)) {
        Some(e) => if all_digits(ip) && all_digits(fp) && ip.len() + fp.len() > 0 {
            let mag = scaled(digits_value(ip + fp), fp.len() as int, e);
            if mag < 1_000_000_000_000_000_000 { Some(mag) } else { None }
        } else {
            None
        },
        None => None,
    }
}

/// A chance in percent, as millionths of a percent, read as `str::parse`
/// reads a decimal floating-point number: an optional sign, digits with an
/// optional `.`, at least one digit, and an optional exponent (`e` or `E`,
/// an optional sign, digits). A chance is held to six decimal places, so
/// what falls below a millionth of a percent is dropped (toward zero); its
/// magnitude stays below 10^12 percent, the range of the fixed-point type,
/// and `inf` and `NaN` are refused.
pub open spec fn parse_chance_spec(s: Seq<char>) -> Option<i64> {
    let neg = s.len() > 0 && s[0] == '-';
    let body = if s.len() > 0 && (s[0] == '+' || s[0] == '-') { s.drop_first() } else { s };
    match first_exp(body) {
        None => plain_chance_spec(s),
        Some(q) => match exp_magnitude(body, q) {
            Some(mag) => Some((if neg { -(mag as int) } else { mag as int }) as i64),
            None => None,
        },
    }
}

proof fn lemma_pow10_mono(a: nat, b: nat)
    requires
        a <= b,
    ensures
        1 <= pow10(a) <= pow10(b),
    decreases b,
{
    if b > a {
        lemma_pow10_mono(a, (b - 1) as nat);
    } else if a > 0 {
        lemma_pow10_mono((a - 1) as nat, (a - 1) as nat);
    }
}

/// Dropping the last `k` digits divides by `10^k`.
proof fn lemma_div_pow10_take(s: Seq<char>, k: nat)
    requires
        all_digits(s),
        k <= s.len(),
    ensures
        digits_value(s) / pow10(k) == digits_value(s.take(s.len() - k)),
    decreases k,
{
    if k == 0 {
        assert(s.take(s.len() as int) =~= s);
        assert(pow10(0) == 1);
        assert(digits_value(s) / 1 == digits_value(s));
    } else {
        let t = s.drop_last();
        assert(all_digits(t));
        assert(is_digit(s[s.len() - 1]));
        lemma_div_pow10_take(t, (k - 1) as nat);
        lemma_pow10_mono(0, (k - 1) as nat);
        let d = digit_value(s.last());
        assert(digits_value(s) == digits_value(t) * 10 + d);
        lemma_fundamental_div_mod_converse(digits_value(s) as int, 10, digits_value(t) as int, d as int);
        let x = digits_value(s) as int;
        let pk1 = pow10((k - 1) as nat) as int;
        lemma_div_denominator(x, 10, pk1);
        assert(pow10(k) == 10 * pow10((k - 1) as nat));
        assert(x / 10 == digits_value(t));
        assert(x / (10 * pk1) == (x / 10) / pk1);
        assert(digits_value(t) / pow10((k - 1) as nat) == digits_value(t.take(t.len() - (k - 1))));
        assert(t.take(t.len() - (k - 1)) =~= s.take(s.len() - k));
        assert(digits_value(s) / pow10(k) == x / (10 * pk1));
    }
}

proof fn lemma_digits_value_bound(s: Seq<char>)
    requires
        all_digits(s),
    ensures
        digits_value(s) < pow10(s.len()),
    decreases s.len(),
{
    if s.len() > 0 {
        assert(all_digits(s.drop_last()));
        lemma_digits_value_bound(s.drop_last());
        assert(is_digit(s[s.len() - 1]));
    }
}

pub open spec fn pow10(n: nat) -> nat
    decreases n,
{
    if n == 0 { 1 } else { 10 * pow10((n - 1) as nat) }
}

/// The largest exponent read exactly; a larger one is beyond any shift
/// that a text could make up for.
const EXP_CAP: u128 = 1_000_000_000_000_000_000_000_000_000_000;

/// 10^18: the bound on a chance's magnitude in millionths.
const MAG_CAP: u64 = 1_000_000_000_000_000_000;

proof fn lemma_first_exp_at(s: Seq<char>, i: int)
    requires
        0 <= i <= s.len(),
        forall|k: int| 0 <= k < i ==> s[k] != 'e' && s[k] != 'E',
        i < s.len() ==> (s[i] == 'e' || s[i] == 'E'),
    ensures
        first_exp(s) == (if i < s.len() { Some(i) } else { None::<int> }),
    decreases i,
{
    if i > 0 {
        lemma_first_exp_at(s.drop_first(), i - 1);
    }
}

fn find_exp(s: &[char]) -> (r: Option<usize>)
    ensures
        r matches Some(i) ==> first_exp(s@) == Some(i as int) && i < s@.len(),
        r is None ==> first_exp(s@) is None,
{
    let mut i: usize = 0;
    while i < s.len()
        invariant
            i <= s@.len(),
            forall|k: int| 0 <= k < i ==> s@[k] != 'e' && s@[k] != 'E',
        decreases s@.len() - i,
    {
        if s[i] == 'e' || s[i] == 'E' {
            proof { lemma_first_exp_at(s@, i as int); }
            return Some(i);
        }
        i = i + 1;
    }
    proof { lemma_first_exp_at(s@, i as int); }
    None
}

/// The value of the digits `s[lo..hi]`, if it is at most `EXP_CAP`.
fn digits_value_wide(s: &[char], lo: usize, hi: usize) -> (r: Option<u128>)
    requires
        lo <= hi <= s@.len(),
        all_digits(s@.subrange(lo as int, hi as int)),
    ensures
        r matches Some(v) ==> v == digits_value(s@.subrange(lo as int, hi as int)) && v <= EXP_CAP,
        r is None ==> digits_value(s@.subrange(lo as int, hi as int)) > EXP_CAP,
{
    let mut acc: u128 = 0;
    let mut i = lo;
    let ghost t = s@.subrange(lo as int, hi as int);
    while i < hi
        invariant
            lo <= i <= hi <= s@.len(),
            t == s@.subrange(lo as int, hi as int),
            all_digits(t),
            acc == digits_value(t.take(i - lo)),
            acc <= EXP_CAP,
        decreases hi - i,
    {
        let c = s[i];
        assert(t.take(i + 1 - lo).drop_last() =~= t.take(i - lo));
        assert(t[i - lo] == c);
        assert(is_digit(t[i - lo]));
        let d: u128 = (c as u32 - '0' as u32) as u128;
        assert(digits_value(t.take(i + 1 - lo)) == acc * 10 + d);
        if acc > (EXP_CAP - d) / 10 {
            proof {
                assert(acc * 10 + d > EXP_CAP) by (nonlinear_arith)
                    requires acc > (EXP_CAP - d) / 10, acc >= 0, d >= 0, d <= 9;
                lemma_digits_value_prefix(t, i + 1 - lo);
            }
            return None;
        }
        proof {
            assert(acc * 10 + d <= EXP_CAP) by (nonlinear_arith)
                requires acc <= (EXP_CAP - d) / 10, d <= 9;
        }
        acc = acc * 10 + d;
        i = i + 1;
    }
    assert(t.take(hi - lo) =~= t);
    Some(acc)
}

/// Reads an exponent: its sign, and its magnitude where that is at most
/// `EXP_CAP` (`None` beyond).
fn parse_exponent(x: &[char]) -> (r: Option<(bool, Option<u128>)>)
    ensures
        match r {
            None => exponent_spec(x@) is None,
            Some((neg, Some(v))) => v <= EXP_CAP && exponent_spec(x@) == Some(if neg { -(v as int) } else { v as int }),
            Some((neg, None)) => exponent_spec(x@) matches Some(e) && (if neg { e < -(EXP_CAP as int) } else { e > EXP_CAP }),
        },
{
    let n = x.len();
    let neg = n > 0 && x[0] == '-';
    let start: usize = if n > 0 && (x[0] == '+' || x[0] == '-') { 1 } else { 0 };
    let ghost ds = if x@.len() > 0 && (x@[0] == '+' || x@[0] == '-') { x@.drop_first() } else { x@ };
    assert(x@.subrange(start as int, n as int) =~= ds);
    if start == n || !all_digits_range(x, start, n) {
        return None;
    }
    match digits_value_wide(x, start, n) {
        Some(v) => Some((neg, Some(v))),
        None => Some((neg, None)),
    }
}

fn pow10_exec(k: u32) -> (r: u128)
    requires
        k <= 18,
    ensures
        r == pow10(k as nat),
        r <= MAG_CAP,
{
    let mut r: u128 = 1;
    let mut i: u32 = 0;
    while i < k
        invariant
            i <= k <= 18,
            r == pow10(i as nat),
            r <= pow10(i as nat),
        decreases k - i,
    {
        proof { lemma_pow10_mono(i as nat, 17); reveal_with_fuel(pow10, 19); }
        r = r * 10;
        i = i + 1;
    }
    proof { lemma_pow10_mono(k as nat, 18); reveal_with_fuel(pow10, 19); }
    r
}

fn concat_chars(a: &Vec<char>, b: &Vec<char>) -> (r: Vec<char>)
    ensures
        r@ == a@ + b@,
{
    let mut r = a.clone();
    let mut i: usize = 0;
    while i < b.len()
        invariant
            i <= b@.len(),
            r@ == a@ + b@.take(i as int),
        decreases b@.len() - i,
    {
        r.push(b[i]);
        assert(b@.take(i + 1) =~= b@.take(i as int).push(b@[i as int]));
        i = i + 1;
    }
    assert(b@.take(b@.len() as int) =~= b@);
    r
}

/// The digits `d` give no millionth once shifted `k` places down, `k` at
/// least their number.
proof fn lemma_shift_out(d: Seq<char>, k: nat)
    requires
        all_digits(d),
        d.len() <= k,
    ensures
        digits_value(d) / pow10(k) == 0,
{
    lemma_digits_value_bound(d);
    lemma_pow10_mono(d.len(), k);
    lemma_basic_div(digits_value(d) as int, pow10(k) as int);
}

/// Nonzero digits shifted up 19 places or more are beyond the bound.
proof fn lemma_shift_over(dv: nat, sh: nat)
    requires
        dv >= 1,
        sh >= 19,
    ensures
        dv * pow10(sh) >= 1_000_000_000_000_000_000,
{
    lemma_pow10_mono(19, sh);
    reveal_with_fuel(pow10, 20);
    assert(pow10(19) == 10_000_000_000_000_000_000);
    let p = pow10(sh);
    assert(dv * p >= p) by (nonlinear_arith) requires dv >= 1, p >= 0;
}

/// The magnitude in millionths that the digits `digits`, `f` of them
/// fractional, give under the exponent `e` (read as its sign `eneg` and its
/// magnitude `ev`, `None` beyond `EXP_CAP`), where it is below 10^18.
#[verifier::rlimit(40)]
fn shifted_magnitude(digits: &Vec<char>, f: usize, eneg: bool, ev: Option<u128>, Ghost(e): Ghost<int>) -> (r: Option<u64>)
    requires
        all_digits(digits@),
        f <= digits@.len(),
        match ev {
            Some(v) => v <= EXP_CAP && e == (if eneg { -(v as int) } else { v as int }),
            None => if eneg { e < -(EXP_CAP as int) } else { e > EXP_CAP },
        },
    ensures
        match r {
            Some(v) => scaled(digits_value(digits@), f as int, e) == v && v < MAG_CAP,
            None => scaled(digits_value(digits@), f as int, e) >= MAG_CAP,
        },
{
    let n = digits.len();
    let ghost dseq = digits@;
    let ghost dv = digits_value(dseq);
    let ghost sh: int = e + 6 - f;
    assert(digits@.subrange(0, n as int) =~= dseq);
    let dcap = digits_value_upto(digits, 0, n, MAG_CAP);
    let up: bool;
    let big: bool;
    let mut shv: i128 = 0;
    match ev {
        None => {
            up = !eneg;
            big = true;
        },
        Some(v) => {
            shv = if eneg { 6 - v as i128 - f as i128 } else { v as i128 + 6 - f as i128 };
            up = shv >= 0;
            big = shv >= 19 || shv < -(n as i128);
        },
    }
    proof {
        if ev is Some { assert(shv == sh); }
    }
    assert(up <==> sh >= 0);
    if up && big {
        assert(sh >= 19);
        match dcap {
            Some(d0) => {
                if d0 == 0 {
                    assert(scaled(dv, f as int, e) == 0);
                    return Some(0);
                }
                proof { lemma_shift_over(dv, sh as nat); }
                None
            },
            None => {
                proof { lemma_shift_over(dv, sh as nat); }
                None
            },
        }
    } else if up {
        assert(0 <= sh < 19);
        match dcap {
            None => {
                proof {
                    lemma_pow10_mono(0, sh as nat);
                    let p = pow10(sh as nat);
                    assert(dv * p >= dv) by (nonlinear_arith) requires p >= 1, dv >= 0;
                }
                None
            },
            Some(d) => {
                let p = pow10_exec(shv as u32);
                assert(d as u128 * p <= MAG_CAP as u128 * MAG_CAP as u128) by (nonlinear_arith)
                    requires d <= MAG_CAP, p <= MAG_CAP, d >= 0, p >= 0;
                let mag = d as u128 * p;
                if mag < MAG_CAP as u128 {
                    Some(mag as u64)
                } else {
                    None
                }
            },
        }
    } else if big {
        assert(-sh >= n);
        proof { lemma_shift_out(dseq, (-sh) as nat); }
        Some(0)
    } else {
        assert(ev is Some);
        assert(shv == sh);
        let k: i128 = -shv;
        assert(k == -sh && 0 < k <= n);
        let keep: usize = n - k as usize;
        proof { lemma_div_pow10_take(dseq, k as nat); }
        assert(digits@.subrange(0, keep as int) =~= dseq.take(dseq.len() - k));
        match digits_value_upto(digits, 0, keep, MAG_CAP - 1) {
            Some(w) => Some(w),
            None => None,
        }
    }
}

/// The magnitude of a chance written with an exponent, the `e` at `q`.
fn exp_chance(body: &[char], q: usize) -> (r: Option<u64>)
    requires
        q < body@.len(),
    ensures
        match r {
            Some(v) => exp_magnitude(body@, q as int) == Some(v as nat),
            None => exp_magnitude(body@, q as int) is None,
        },
{
    let bl = body.len();
    let m = slice_range(body, 0, q);
    let x = slice_range(body, q + 1, bl);
    assert(m@ =~= body@.take(q as int));
    assert(x@ =~= body@.skip(q + 1));
    let (eneg, ev) = match parse_exponent(&x) {
        None => { return None; },
        Some(p) => p,
    };
    let dot = find_char(&m, '.');
    let (ip_end, fp_start) = match dot {
        Some(p) => (p, p + 1),
        None => (m.len(), m.len()),
    };
    proof { lemma_first_pos(m@, '.'); }
    let ghost ip = match first_pos(m@, '.') { Some(p) => m@.take(p), None => m@ };
    let ghost fp = match first_pos(m@, '.') { Some(p) => m@.skip(p + 1), None => Seq::<char>::empty() };
    assert(m@.subrange(0, ip_end as int) =~= ip);
    assert(m@.subrange(fp_start as int, m@.len() as int) =~= fp);
    if !all_digits_range(&m, 0, ip_end) || !all_digits_range(&m, fp_start, m.len()) {
        return None;
    }
    if ip_end == 0 && fp_start == m.len() {
        return None;
    }
    let ipv = slice_range(&m, 0, ip_end);
    let fpv = slice_range(&m, fp_start, m.len());
    let digits = concat_chars(&ipv, &fpv);
    let ghost dseq = ip + fp;
    assert(digits@ == dseq);
    assert(all_digits(dseq)) by {
        assert forall|j: int| 0 <= j < dseq.len() implies is_digit(#[trigger] dseq[j]) by {
            if j < ip.len() { assert(dseq[j] == ip[j]); } else { assert(dseq[j] == fp[j - ip.len()]); }
        }
    }
    let ghost ee: int = exponent_spec(x@)->Some_0;
    shifted_magnitude(&digits, fpv.len(), eneg, ev, Ghost(ee))
}

/// Reads a drop chance.
pub fn parse_chance(s: &[char]) -> (r: Option<i64>)
    ensures
        r == parse_chance_spec(s@),
        r matches Some(p) ==> -MAX_CHANCE < p < MAX_CHANCE,
{
    let n = s.len();
    let neg = n > 0 && s[0] == '-';
    let start: usize = if n > 0 && (s[0] == '+' || s[0] == '-') { 1 } else { 0 };
    let ghost body = if s@.len() > 0 && (s@[0] == '+' || s@[0] == '-') { s@.drop_first() } else { s@ };
    assert(s@.subrange(start as int, n as int) =~= body);
    let body_v = slice_range(s, start, n);
    match find_exp(&body_v) {
        None => parse_plain_chance(s),
        Some(q) => match exp_chance(&body_v, q) {
            Some(mag) => {
                let m = mag as i64;
                if neg { Some(-m) } else { Some(m) }
            },
            None => None,
        },
    }
}

/// Reads a drop chance written without an exponent.
fn parse_plain_chance(s: &[char]) -> (r: Option<i64>)
    ensures
        r == plain_chance_spec(s@),
        r matches Some(p) ==> -MAX_CHANCE < p < MAX_CHANCE,
{
    let n = s.len();
    let neg = n > 0 && s[0] == '-';
    let start: usize = if n > 0 && (s[0] == '+' || s[0] == '-') { 1 } else { 0 };
    let ghost body = if s@.len() > 0 && (s@[0] == '+' || s@[0] == '-') { s@.drop_first() } else { s@ };
    assert(s@.subrange(start as int, n as int) =~= body);
    let body_v = slice_range(s, start, n);
    let dot = find_char(&body_v, '.');
    let (ip_end, fp_start) = match dot {
        Some(p) => (p, p + 1),
        None => (body_v.len(), body_v.len()),
    };
    proof { lemma_first_pos(body, '.'); }
    let ghost ip = match first_pos(body, '.') { Some(p) => body.take(p), None => body };
    let ghost fp = match first_pos(body, '.') { Some(p) => body.skip(p + 1), None => Seq::<char>::empty() };
    assert(body_v@.subrange(0, ip_end as int) =~= ip);
    assert(body_v@.subrange(fp_start as int, body_v@.len() as int) =~= fp);
    if !all_digits_range(&body_v, fp_start, body_v.len()) {
        return None;
    }
    if ip_end == 0 && fp_start == body_v.len() {
        return None;
    }
    let int_part = match digits_value_upto(&body_v, 0, ip_end, 999_999_999_999) {
        Some(v) => v,
        None => { return None; },
    };
    // The six fractional digits, padded.
    let mut six: Vec<char> = Vec::new();
    let mut k: usize = 0;
    while k < 6
        invariant
            k <= 6,
            fp_start <= body_v@.len(),
            fp == body_v@.subrange(fp_start as int, body_v@.len() as int),
            six@ == six_digits(fp).take(k as int),
        decreases 6 - k,
    {
        let c = if k < body_v.len() - fp_start { body_v[fp_start + k] } else { '0' };
        assert(six_digits(fp).take(k + 1) =~= six_digits(fp).take(k as int).push(c));
        six.push(c);
        k = k + 1;
    }
    assert(six_digits(fp).take(6) =~= six_digits(fp));
    assert(six@.subrange(0, 6) =~= six@);
    assert(all_digits(six_digits(fp))) by {
        assert forall|j: int| 0 <= j < six_digits(fp).len() implies is_digit(#[trigger] six_digits(fp)[j]) by {
            if j < fp.len() {
                assert(is_digit(fp[j]));
            }
        }
    }
    proof {
        lemma_digits_value_bound(six@);
        reveal_with_fuel(pow10, 7);
        assert(pow10(6) == 1_000_000);
    }
    let frac = match digits_value_upto(&six, 0, 6, 999_999) {
        Some(v) => v,
        None => { return None; },
    };
    let mag: i64 = (int_part * 1_000_000 + frac) as i64;
    if neg { Some(-mag) } else { Some(mag) }
}

/// How a quantity field reads: `N` or `min-max`.
pub open spec fn min_max_spec(s: Seq<char>) -> Result<(u32, u32), Seq<char>> {
    match first_pos(s, '-') {
        Some(p) => {
            let a = s.take(p);
            let b = s.skip(p + 1);
            match parse_u32_spec(trim(a)) {
                None => Err("Invalid min value: "@ + a),
                Some(mn) => match parse_u32_spec(trim(b)) {
                    None => Err("Invalid max value: "@ + b),
                    Some(mx) => if mn > mx {
                        Err("loot_table__invalid_min_max:"@ + decimal(mn as nat) + "|"@ + decimal(mx as nat))
                    } else {
                        Ok((mn, mx))
                    },
                },
            }
        },
        None => match parse_u32_spec(s) {
            None => Err("Invalid value: "@ + s),
            Some(v) => Ok((v, v)),
        },
    }
}


/// A quantity field that reads gives a minimum no larger than its maximum;
/// a single number gives it as both.
pub proof fn lemma_min_max_ordered(s: Seq<char>)
    ensures
        min_max_spec(s) matches Ok((a, b)) ==> a <= b,
        (first_pos(s, '-') is None ==> (parse_u32_spec(s) matches Some(v) ==> min_max_spec(s) == Ok::<(u32, u32), Seq<char>>((v, v)))),
{
}

/// A range `lo-hi` whose numbers read but run high to low is refused with
/// the invalid-range error naming both.
pub proof fn lemma_min_max_reversed(lo: Seq<char>, hi: Seq<char>, a: u32, b: u32)
    requires
        forall|k: int| 0 <= k < lo.len() ==> lo[k] != '-',
        parse_u32_spec(trim(lo)) == Some(a),
        parse_u32_spec(trim(hi)) == Some(b),
        a > b,
    ensures
        min_max_spec(lo + seq!['-'] + hi)
            == Err::<(u32, u32), Seq<char>>("loot_table__invalid_min_max:"@ + decimal(a as nat) + "|"@ + decimal(b as nat)),
{
    let s = lo + seq!['-'] + hi;
    lemma_first_pos_at(s, '-', lo.len() as int);
    assert(s.take(lo.len() as int) =~= lo);
    assert(s.skip(lo.len() as int + 1) =~= hi);
}

/// Reads a quantity field.
pub fn parse_min_max(s: &[char]) -> (r: Result<(u32, u32), String>)
    ensures
        match (r, min_max_spec(s@)) {
            (Ok(a), Ok(b)) => a == b,
            (Err(e), Err(f)) => e@ == f,
            _ => false,
        },
{
    let n = s.len();
    match find_char(s, '-') {
        Some(p) => {
            assert(p < n);
            assert(s@.subrange(0, p as int) =~= s@.take(p as int));
            assert(s@.subrange(p + 1, s@.len() as int) =~= s@.skip(p + 1));
            let a = trim_range(s, 0, p);
            let b = trim_range(s, p + 1, s.len());
            match parse_u32(&a) {
                None => {
                    let raw = slice_range(s, 0, p);
                    Err(message("Invalid min value: ", &raw))
                },
                Some(mn) => match parse_u32(&b) {
                    None => {
                        let raw = slice_range(s, p + 1, s.len());
                        Err(message("Invalid max value: ", &raw))
                    },
                    Some(mx) => {
                        if mn > mx {
                            let dmin = decimal_chars(mn as u64);
                            let dmax = decimal_chars(mx as u64);
                            let mut m = message3("loot_table__invalid_min_max:", &dmin, "|");
                            let tail = string_of(&dmax);
                            m.append(tail.as_str());
                            Err(m)
                        } else {
                            Ok((mn, mx))
                        }
                    },
                },
            }
        },
        None => match parse_u32(s) {
            None => Err(message("Invalid value: ", s)),
            Some(v) => Ok((v, v)),
        },
    }
}

/// The fields of an item line after its name.
pub struct ParamsView {
    pub probability: i64,
    pub min: u32,
    pub max: u32,
    pub stock: Option<u32>,
    pub secret: bool,
}

pub open spec fn unknown_parameter_message(part: Seq<char>) -> Seq<char> {
    "Unknown parameter '"@ + part + "'. Expected order: prob, quantity, stock:N, secret"@
}

/// Whether `part` begins with `stock:`.
pub open spec fn is_stock_field(part: Seq<char>) -> bool {
    part.len() >= 6 && part.take(6) == "stock:"@
}

/// The settings after the optional field `part` at position `i` (from 1).
pub open spec fn apply_param(st: (u32, u32, Option<u32>, bool), part: Seq<char>, i: int) -> Result<(u32, u32, Option<u32>, bool), Seq<char>> {
    if part.len() == 0 {
        Ok(st)
    } else if is_stock_field(part) {
        match parse_u32_spec(trim(part.skip(6))) {
            Some(n) => Ok((st.0, st.1, Some(n), st.3)),
            None => Err("Invalid stock: "@ + part),
        }
    } else if part == "secret"@ {
        Ok((st.0, st.1, st.2, true))
    } else if i == 1 {
        match min_max_spec(part) {
            Ok((mn, mx)) => Ok((mn, mx, st.2, st.3)),
            Err(e) => Err(e),
        }
    } else {
        Err(unknown_parameter_message(part))
    }
}

/// The settings after the optional fields `parts[1..k]`, from quantity 1,
/// no stock and not secret.
pub open spec fn params_fold(parts: Seq<Seq<char>>, k: int) -> Result<(u32, u32, Option<u32>, bool), Seq<char>>
    decreases k,
{
    if k <= 1 {
        Ok((1u32, 1u32, None::<u32>, false))
    } else {
        match params_fold(parts, k - 1) {
            Ok(st) => apply_param(st, parts[k - 1], k - 1),
            Err(e) => Err(e),
        }
    }
}

proof fn lemma_params_fold_err(parts: Seq<Seq<char>>, k: int, m: int)
    requires
        k <= m,
        params_fold(parts, k) is Err,
    ensures
        params_fold(parts, m) == params_fold(parts, k),
    decreases m - k,
{
    if k < m {
        lemma_params_fold_err(parts, k, m - 1);
    }
}

/// The comma-separated fields of `s`, each trimmed.
pub open spec fn trimmed_fields(s: Seq<char>) -> Seq<Seq<char>> {
    split_on(s, ',').map_values(|p: Seq<char>| trim(p))
}

/// How the fields after an item's name read: a chance, then optional
/// quantity, stock and secret fields.
pub open spec fn params_spec(s: Seq<char>) -> Result<ParamsView, Seq<char>> {
    let parts = trimmed_fields(s);
    if parts[0].len() == 0 {
        Err("Missing probability"@)
    } else {
        match parse_chance_spec(parts[0]) {
            None => Err("Invalid probability: "@ + parts[0]),
            Some(p) => match params_fold(parts, parts.len() as int) {
                Ok(st) => Ok(ParamsView { probability: p, min: st.0, max: st.1, stock: st.2, secret: st.3 }),
                Err(e) => Err(e),
            },
        }
    }
}

/// The fields after an item's name, read.
pub struct Params {
    pub probability: i64,
    pub min: u32,
    pub max: u32,
    pub stock: Option<u32>,
    pub secret: bool,
}

impl View for Params {
    type V = ParamsView;

    open spec fn view(&self) -> ParamsView {
        ParamsView { probability: self.probability, min: self.min, max: self.max, stock: self.stock, secret: self.secret }
    }
}

fn is_stock_prefix(part: &[char]) -> (b: bool)
    ensures
        b == is_stock_field(part@),
{
    let lit = chars_of("stock:");
    proof { reveal_strlit("stock:"); }
    if part.len() < 6 {
        return false;
    }
    let head = slice_range(part, 0, 6);
    assert(part@.subrange(0, 6) =~= part@.take(6));
    chars_eq(&head, &lit)
}

fn is_secret_word(part: &[char]) -> (b: bool)
    ensures
        b == (part@ == "secret"@),
{
    let lit = chars_of("secret");
    chars_eq(part, &lit)
}

/// Reads the fields after an item's name.
pub fn parse_params(s: &[char]) -> (r: Result<Params, String>)
    ensures
        match (r, params_spec(s@)) {
            (Ok(a), Ok(b)) => a@ == b,
            (Err(e), Err(f)) => e@ == f,
            _ => false,
        },
{
    let raw_parts = split_chars(s, ',');
    let ghost parts = trimmed_fields(s@);
    proof { lemma_split_on_nonempty(s@, ','); }
    let first = trim_range(&raw_parts[0], 0, raw_parts[0].len());
    assert(raw_parts[0]@.subrange(0, raw_parts[0]@.len() as int) =~= raw_parts[0]@);
    assert(first@ == parts[0]);
    if first.len() == 0 {
        return Err(String::from_str("Missing probability"));
    }
    let probability = match parse_chance(&first) {
        Some(p) => p,
        None => { return Err(message("Invalid probability: ", &first)); },
    };
    let mut min: u32 = 1;
    let mut max: u32 = 1;
    let mut stock: Option<u32> = None;
    let mut secret = false;
    let mut i: usize = 1;
    while i < raw_parts.len()
        invariant
            1 <= i <= raw_parts@.len(),
            raw_parts@.len() == split_on(s@, ',').len(),
            forall|k: int| 0 <= k < raw_parts@.len() ==> #[trigger] raw_parts@[k]@ == split_on(s@, ',')[k],
            parts == trimmed_fields(s@),
            parts[0].len() > 0,
            parse_chance_spec(parts[0]) == Some(probability),
            params_fold(parts, i as int) == Ok::<(u32, u32, Option<u32>, bool), Seq<char>>((min, max, stock, secret)),
        decreases raw_parts@.len() - i,
    {
        let part = trim_range(&raw_parts[i], 0, raw_parts[i].len());
        assert(raw_parts[i as int]@.subrange(0, raw_parts[i as int]@.len() as int) =~= raw_parts[i as int]@);
        assert(part@ == parts[i as int]);
        if part.len() == 0 {
        } else if is_stock_prefix(&part) {
            assert(part@.subrange(6, part@.len() as int) =~= part@.skip(6));
            let rest = trim_range(&part, 6, part.len());
            match parse_u32(&rest) {
                Some(n) => { stock = Some(n); },
                None => {
                    proof { lemma_params_fold_err(parts, i + 1, parts.len() as int); }
                    return Err(message("Invalid stock: ", &part));
                },
            }
        } else if is_secret_word(&part) {
            secret = true;
        } else if i == 1 {
            match parse_min_max(&part) {
                Ok((a, b)) => { min = a; max = b; },
                Err(e) => {
                    proof { lemma_params_fold_err(parts, i + 1, parts.len() as int); }
                    return Err(e);
                },
            }
        } else {
            proof { lemma_params_fold_err(parts, i + 1, parts.len() as int); }
            return Err(message3("Unknown parameter '", &part, "'. Expected order: prob, quantity, stock:N, secret"));
        }
        i = i + 1;
    }
    Ok(Params { probability, min, max, stock, secret })
}


/// A character allowed in an item name: an ASCII letter or digit, `_`, a
/// space or `-`.
pub open spec fn name_char(c: char) -> bool {
    ||| ('A' <= c && c <= 'Z')
    ||| ('a' <= c && c <= 'z')
    ||| ('0' <= c && c <= '9')
    ||| c == '_'
    ||| c == ' '
    ||| c == '-'
}

/// What the pattern `^[A-Za-z0-9_ -]+$` accepts.
pub open spec fn valid_name_spec(s: Seq<char>) -> bool {
    s.len() > 0 && forall|k: int| 0 <= k < s.len() ==> name_char(#[trigger] s[k])
}

/// `regex::Regex::is_match` for the pattern `^[A-Za-z0-9_ -]+$`. The claim:
/// the pattern, anchored at both ends of the text, accepts exactly the
/// nonempty texts made of ASCII letters and digits, `_`, space and `-`.
#[verifier::external_body]
fn matches_name_pattern(name: &str) -> (b: bool)
    ensures
        b == valid_name_spec(name@),
{
    regex::Regex::new(r"^[A-Za-z0-9_ -]+$").unwrap().is_match(name)
}

/// How an item line (`in_set`: the text after a set line's `-`) reads.
pub open spec fn item_fields_spec(line: Seq<char>, in_set: bool) -> Result<ItemView, Seq<char>> {
    match first_pos(line, ':') {
        None => Err((if in_set { "Missing colon in item line: "@ } else { "Missing colon in line: "@ }) + line),
        Some(c) => {
            let name = trim(line.take(c));
            if name.len() == 0 {
                if in_set { Err("Empty item name"@) } else { Err("Empty name in line: "@ + line) }
            } else if !valid_name_spec(name) {
                Err("loot_table__invalid_item_name:"@ + name)
            } else {
                match params_spec(trim(line.skip(c + 1))) {
                    Err(e) => Err((if in_set { "Error in item '"@ } else { "Error in line '"@ }) + name + "' parameters: "@ + e),
                    Ok(p) => Ok(ItemView {
                        name: name,
                        probability: p.probability,
                        min: p.min,
                        max: p.max,
                        stock: p.stock,
                        secret: p.secret,
                    }),
                }
            }
        },
    }
}

/// Reads an item line.
pub fn parse_item_fields(line: &[char], in_set: bool) -> (r: Result<LootTableItem, String>)
    ensures
        match (r, item_fields_spec(line@, in_set)) {
            (Ok(a), Ok(b)) => a@ == b,
            (Err(e), Err(f)) => e@ == f,
            _ => false,
        },
{
    let n = line.len();
    let c = match find_char(line, ':') {
        None => {
            if in_set {
                return Err(message("Missing colon in item line: ", line));
            } else {
                return Err(message("Missing colon in line: ", line));
            }
        },
        Some(c) => c,
    };
    assert(c < n);
    assert(line@.subrange(0, c as int) =~= line@.take(c as int));
    assert(line@.subrange(c + 1, n as int) =~= line@.skip(c + 1));
    let name = trim_range(line, 0, c);
    if name.len() == 0 {
        if in_set {
            return Err(String::from_str("Empty item name"));
        } else {
            return Err(message("Empty name in line: ", line));
        }
    }
    let name_s = string_of(&name);
    if !matches_name_pattern(name_s.as_str()) {
        return Err(message("loot_table__invalid_item_name:", &name));
    }
    let params_text = trim_range(line, c + 1, n);
    match parse_params(&params_text) {
        Err(e) => {
            let mut m = if in_set { message3("Error in item '", &name, "' parameters: ") } else { message3(
                "Error in line '",
                &name,
                "' parameters: ",
            ) };
            m.append(e.as_str());
            Err(m)
        },
        Ok(p) => Ok(LootTableItem {
            name: name_s,
            probability: p.probability,
            min: p.min,
            max: p.max,
            stock: p.stock,
            secret: p.secret,
        }),
    }
}


/// A name to look up in the universe's items before the parse is accepted.
/// A missing name gives `context` followed by `Item not found: ` and the
/// name; a failed lookup gives `context` followed by the failure.
pub struct NameCheck {
    pub name: String,
    pub context: String,
}

pub struct NameCheckView {
    pub name: Seq<char>,
    pub context: Seq<char>,
}

impl View for NameCheck {
    type V = NameCheckView;

    open spec fn view(&self) -> NameCheckView {
        NameCheckView { name: self.name@, context: self.context@ }
    }
}

pub open spec fn checks_view(c: Seq<NameCheck>) -> Seq<NameCheckView> {
    c.map_values(|x: NameCheck| x@)
}

/// Where the reading of a loot table stands after some lines.
pub struct ParseStateView {
    pub entries: Seq<EntryView>,
    pub current_set: Option<SetView>,
    pub pending: Option<ItemView>,
    pub checks: Seq<NameCheckView>,
}

pub open spec fn initial_state() -> ParseStateView {
    ParseStateView { entries: Seq::empty(), current_set: None, pending: None, checks: Seq::empty() }
}

/// The context of a set item's messages.
pub open spec fn set_item_context(item_line: Seq<char>) -> Seq<char> {
    "Error in set item '"@ + item_line + "': "@
}

/// Closes what is open before a new item line: the open set becomes an
/// entry, then a pending item becomes an entry once its name is checked.
pub open spec fn close_open(st: ParseStateView) -> ParseStateView {
    let st1 = match st.current_set {
        Some(set) => ParseStateView { entries: st.entries.push(EntryView::ItemSet(set)), current_set: None, ..st },
        None => st,
    };
    match st1.pending {
        Some(p) => ParseStateView {
            entries: st1.entries.push(EntryView::Item(p)),
            pending: None,
            checks: st1.checks.push(NameCheckView { name: p.name, context: Seq::empty() }),
            ..st1
        },
        None => st1,
    }
}

/// What one line does. An error carries the checks made before it.
#[verifier::opaque]
pub open spec fn step_spec(st: ParseStateView, raw: Seq<char>) -> Result<ParseStateView, (Seq<NameCheckView>, Seq<char>)> {
    let t = trim(raw);
    if t.len() == 0 {
        Ok(st)
    } else if t[0] == '-' {
        let il = trim(t.skip(1));
        match item_fields_spec(il, true) {
            Err(e) => Err((st.checks, set_item_context(il) + e)),
            Ok(it) => {
                let checks = st.checks.push(NameCheckView { name: it.name, context: set_item_context(il) });
                match st.current_set {
                    Some(set) => Ok(ParseStateView {
                        current_set: Some(SetView { items: set.items.push(it), ..set }),
                        checks: checks,
                        ..st
                    }),
                    None => match st.pending {
                        Some(p) => Ok(ParseStateView {
                            current_set: Some(SetView {
                                name: p.name,
                                probability: p.probability,
                                min: p.min,
                                max: p.max,
                                stock: p.stock,
                                items: seq![it],
                                secret: p.secret,
                            }),
                            pending: None,
                            checks: checks,
                            ..st
                        }),
                        None => Err((checks, "Item found outside of a set: "@ + t)),
                    },
                }
            },
        }
    } else {
        let st1 = close_open(st);
        match item_fields_spec(t, false) {
            Err(e) => Err((st1.checks, e)),
            Ok(it) => Ok(ParseStateView { pending: Some(it), ..st1 }),
        }
    }
}

/// Where the reading stands after the first `k` lines.
pub open spec fn fold_lines(lines: Seq<Seq<char>>, k: int) -> Result<ParseStateView, (Seq<NameCheckView>, Seq<char>)>
    decreases k,
{
    if k <= 0 {
        Ok(initial_state())
    } else {
        match fold_lines(lines, k - 1) {
            Ok(st) => step_spec(st, lines[k - 1]),
            Err(x) => Err(x),
        }
    }
}

/// The end of the text: an open set, else a pending item, becomes an entry.
pub open spec fn finish_spec(st: ParseStateView) -> ParseStateView {
    match st.current_set {
        Some(set) => ParseStateView { entries: st.entries.push(EntryView::ItemSet(set)), current_set: None, ..st },
        None => match st.pending {
            Some(p) => ParseStateView {
                entries: st.entries.push(EntryView::Item(p)),
                pending: None,
                checks: st.checks.push(NameCheckView { name: p.name, context: Seq::empty() }),
                ..st
            },
            None => st,
        },
    }
}

/// The outcome of reading a loot table's text, before names are looked up.
pub struct LootParseView {
    pub checks: Seq<NameCheckView>,
    pub result: Result<Seq<EntryView>, Seq<char>>,
}

/// How a loot table's text reads. The text's lines are its pieces between
/// `\n` characters; since every line is trimmed and blank lines are
/// skipped, this agrees with `str::lines`.
pub open spec fn parse_spec(text: Seq<char>) -> LootParseView {
    let lines = split_on(text, '\n');
    match fold_lines(lines, lines.len() as int) {
        Err((c, m)) => LootParseView { checks: c, result: Err(m) },
        Ok(st) => {
            let fin = finish_spec(st);
            LootParseView { checks: fin.checks, result: Ok(fin.entries) }
        },
    }
}

/// The outcome of reading a loot table's text, before names are looked up.
pub struct LootTableParse {
    pub checks: Vec<NameCheck>,
    pub result: Result<Vec<LootTableEntry>, String>,
}

impl View for LootTableParse {
    type V = LootParseView;

    open spec fn view(&self) -> LootParseView {
        LootParseView {
            checks: checks_view(self.checks@),
            result: match self.result {
                Ok(e) => Ok(entries_view(e@)),
                Err(m) => Err(m@),
            },
        }
    }
}

proof fn lemma_fold_err(lines: Seq<Seq<char>>, k: int, m: int)
    requires
        0 <= k <= m,
        fold_lines(lines, k) is Err,
    ensures
        fold_lines(lines, m) == fold_lines(lines, k),
    decreases m - k,
{
    if k < m {
        lemma_fold_err(lines, k, m - 1);
    }
}

struct ParseState {
    entries: Vec<LootTableEntry>,
    current_set: Option<LootTableSet>,
    pending: Option<LootTableItem>,
    checks: Vec<NameCheck>,
}

impl View for ParseState {
    type V = ParseStateView;

    closed spec fn view(&self) -> ParseStateView {
        ParseStateView {
            entries: entries_view(self.entries@),
            current_set: match self.current_set { Some(s) => Some(s@), None => None },
            pending: match self.pending { Some(p) => Some(p@), None => None },
            checks: checks_view(self.checks@),
        }
    }
}

fn push_entry(entries: &mut Vec<LootTableEntry>, e: LootTableEntry)
    ensures
        entries_view(final(entries)@) == entries_view(old(entries)@).push(e@),
{
    entries.push(e);
    assert(entries_view(entries@) =~= entries_view(old(entries)@).push(e@));
}

fn push_check(checks: &mut Vec<NameCheck>, c: NameCheck)
    ensures
        checks_view(final(checks)@) == checks_view(old(checks)@).push(c@),
{
    checks.push(c);
    assert(checks_view(checks@) =~= checks_view(old(checks)@).push(c@));
}

fn push_item(items: &mut Vec<LootTableItem>, i: LootTableItem)
    ensures
        items_view(final(items)@) == items_view(old(items)@).push(i@),
{
    items.push(i);
    assert(items_view(items@) =~= items_view(old(items)@).push(i@));
}

fn close_open_exec(st: ParseState) -> (r: ParseState)
    ensures
        r@ == close_open(st@),
{
    let mut entries = st.entries;
    let mut checks = st.checks;
    match st.current_set {
        Some(set) => { push_entry(&mut entries, LootTableEntry::ItemSet(set)); },
        None => {},
    }
    match st.pending {
        Some(p) => {
            let name = p.name.clone();
            push_check(&mut checks, NameCheck { name, context: String::new() });
            push_entry(&mut entries, LootTableEntry::Item(p));
        },
        None => {},
    }
    ParseState { entries, current_set: None, pending: None, checks }
}

fn step_exec(st: ParseState, raw: &[char]) -> (r: Result<ParseState, (Vec<NameCheck>, String)>)
    ensures
        match (r, step_spec(st@, raw@)) {
            (Ok(a), Ok(b)) => a@ == b,
            (Err((c, m)), Err((c2, m2))) => checks_view(c@) == c2 && m@ == m2,
            _ => false,
        },
{
    reveal(step_spec);
    let t = trim_range(raw, 0, raw.len());
    assert(raw@.subrange(0, raw@.len() as int) =~= raw@);
    if t.len() == 0 {
        return Ok(st);
    }
    if t[0] == '-' {
        let il = trim_range(&t, 1, t.len());
        assert(t@.subrange(1, t@.len() as int) =~= t@.skip(1));
        let ctx = message3("Error in set item '", &il, "': ");
        match parse_item_fields(&il, true) {
            Err(e) => {
                let mut m = ctx;
                m.append(e.as_str());
                Err((st.checks, m))
            },
            Ok(it) => {
                let mut checks = st.checks;
                push_check(&mut checks, NameCheck { name: it.name.clone(), context: ctx });
                match st.current_set {
                    Some(set) => {
                        let mut set = set;
                        push_item(&mut set.items, it);
                        Ok(ParseState { entries: st.entries, current_set: Some(set), pending: st.pending, checks })
                    },
                    None => match st.pending {
                        Some(p) => {
                            let mut items: Vec<LootTableItem> = Vec::new();
                            push_item(&mut items, it);
                            assert(items_view(items@) =~= seq![it@]);
                            let set = LootTableSet {
                                name: p.name,
                                probability: p.probability,
                                min: p.min,
                                max: p.max,
                                stock: p.stock,
                                items,
                                secret: p.secret,
                            };
                            Ok(ParseState { entries: st.entries, current_set: Some(set), pending: None, checks })
                        },
                        None => Err((checks, message("Item found outside of a set: ", &t))),
                    },
                }
            },
        }
    } else {
        let st1 = close_open_exec(st);
        match parse_item_fields(&t, false) {
            Err(e) => Err((st1.checks, e)),
            Ok(it) => Ok(ParseState { entries: st1.entries, current_set: st1.current_set, pending: Some(it), checks: st1.checks }),
        }
    }
}

fn finish_exec(st: ParseState) -> (r: ParseState)
    ensures
        r@ == finish_spec(st@),
{
    let mut entries = st.entries;
    let mut checks = st.checks;
    match st.current_set {
        Some(set) => {
            push_entry(&mut entries, LootTableEntry::ItemSet(set));
            ParseState { entries, current_set: None, pending: st.pending, checks }
        },
        None => match st.pending {
            Some(p) => {
                let name = p.name.clone();
                push_check(&mut checks, NameCheck { name, context: String::new() });
                push_entry(&mut entries, LootTableEntry::Item(p));
                ParseState { entries, current_set: None, pending: None, checks }
            },
            None => ParseState { entries, current_set: None, pending: None, checks },
        },
    }
}


/// How a looked-up name came back.
#[derive(Debug)]
pub enum NameLookup {
    Found,
    Missing,
    Failed(String),
}

pub enum NameLookupView {
    Found,
    Missing,
    Failed(Seq<char>),
}

impl View for NameLookup {
    type V = NameLookupView;

    open spec fn view(&self) -> NameLookupView {
        match self {
            NameLookup::Found => NameLookupView::Found,
            NameLookup::Missing => NameLookupView::Missing,
            NameLookup::Failed(e) => NameLookupView::Failed(e@),
        }
    }
}

/// The first check, from the `k`-th on, whose lookup did not find the name
/// decides the error; when there is none, the parse stands.
pub open spec fn resolve_from(p: LootParseView, lookups: Seq<NameLookupView>, k: int) -> Result<Seq<EntryView>, Seq<char>>
    decreases p.checks.len() - k,
{
    if k < 0 || k >= p.checks.len() || k >= lookups.len() {
        p.result
    } else {
        match lookups[k] {
            NameLookupView::Found => resolve_from(p, lookups, k + 1),
            NameLookupView::Missing => Err(p.checks[k].context + "Item not found: "@ + p.checks[k].name),
            NameLookupView::Failed(e) => Err(p.checks[k].context + e),
        }
    }
}

pub struct LootTableParser;

impl LootTableParser {
    /// Reads a loot table's text and lists, in order, the item names that
    /// are to be looked up.
    pub fn parse_text(text: &str) -> (r: LootTableParse)
        ensures
            r@ == parse_spec(text@),
    {
        let chars = chars_of(text);
        let lines = split_chars(&chars, '\n');
        let ghost ls = split_on(text@, '\n');
        let mut st = ParseState { entries: Vec::new(), current_set: None, pending: None, checks: Vec::new() };
        assert(entries_view(st.entries@) =~= Seq::<EntryView>::empty());
        assert(checks_view(st.checks@) =~= Seq::<NameCheckView>::empty());
        let mut i: usize = 0;
        while i < lines.len()
            invariant
                i <= lines@.len(),
                ls == split_on(text@, '\n'),
                lines@.len() == ls.len(),
                forall|k: int| 0 <= k < lines@.len() ==> #[trigger] lines@[k]@ == ls[k],
                fold_lines(ls, i as int) == Ok::<ParseStateView, (Seq<NameCheckView>, Seq<char>)>(st@),
            decreases lines@.len() - i,
        {
            match step_exec(st, &lines[i]) {
                Ok(next) => { st = next; },
                Err((c, m)) => {
                    proof { lemma_fold_err(ls, i + 1, ls.len() as int); }
                    let r = LootTableParse { checks: c, result: Err(m) };
                    assert(fold_lines(ls, ls.len() as int) == step_spec(st@, ls[i as int]));
                    return r;
                },
            }
            i = i + 1;
        }
        let fin = finish_exec(st);
        LootTableParse { checks: fin.checks, result: Ok(fin.entries) }
    }

    /// Reads a loot table's text without looking any name up.
    pub fn parse_internal(text: &str) -> (r: Result<Vec<LootTableEntry>, String>)
        ensures
            match (r, parse_spec(text@).result) {
                (Ok(a), Ok(b)) => entries_view(a@) == b,
                (Err(e), Err(f)) => e@ == f,
                _ => false,
            },
    {
        Self::parse_text(text).result
    }

    /// The outcome of a read once its names were looked up, one lookup per
    /// check in order (the lookups may stop at the first one that did not
    /// find its name).
    pub fn resolve(parse: LootTableParse, lookups: &Vec<NameLookup>) -> (r: Result<Vec<LootTableEntry>, String>)
        ensures
            match (r, resolve_from(parse@, lookups@.map_values(|l: NameLookup| l@), 0)) {
                (Ok(a), Ok(b)) => entries_view(a@) == b,
                (Err(e), Err(f)) => e@ == f,
                _ => false,
            },
    {
        let ghost p = parse@;
        let ghost lv = lookups@.map_values(|l: NameLookup| l@);
        let mut k: usize = 0;
        while k < parse.checks.len() && k < lookups.len()
            invariant
                k <= parse.checks@.len(),
                p == parse@,
                lv == lookups@.map_values(|l: NameLookup| l@),
                resolve_from(p, lv, 0) == resolve_from(p, lv, k as int),
            decreases parse.checks@.len() - k,
        {
            match &lookups[k] {
                NameLookup::Found => {},
                NameLookup::Missing => {
                    let mut m = parse.checks[k].context.clone();
                    m.append("Item not found: ");
                    m.append(parse.checks[k].name.as_str());
                    return Err(m);
                },
                NameLookup::Failed(e) => {
                    let mut m = parse.checks[k].context.clone();
                    m.append(e.as_str());
                    return Err(m);
                },
            }
            k = k + 1;
        }
        parse.result
    }
}


/// When every name looked up is found, the outcome is the text's own
/// reading: looking names up only ever adds errors.
pub proof fn lemma_all_found_keeps_reading(p: LootParseView, lookups: Seq<NameLookupView>)
    requires
        lookups.len() >= p.checks.len(),
        forall|k: int| 0 <= k < lookups.len() ==> #[trigger] lookups[k] == NameLookupView::Found,
    ensures
        resolve_from(p, lookups, 0) == p.result,
{
    lemma_resolve_found_from(p, lookups, 0);
}

proof fn lemma_resolve_found_from(p: LootParseView, lookups: Seq<NameLookupView>, k: int)
    requires
        0 <= k,
        lookups.len() >= p.checks.len(),
        forall|j: int| 0 <= j < lookups.len() ==> #[trigger] lookups[j] == NameLookupView::Found,
    ensures
        resolve_from(p, lookups, k) == p.result,
    decreases p.checks.len() - k,
{
    if k < p.checks.len() {
        assert(lookups[k] == NameLookupView::Found);
        lemma_resolve_found_from(p, lookups, k + 1);
    }
}


/// The names of some items.
pub open spec fn item_names(items: Seq<ItemView>) -> Seq<Seq<char>> {
    items.map_values(|i: ItemView| i.name)
}

/// The names a table's entries give, in order: an item's own name, and the
/// names of a set's items (never the set's own name).
pub open spec fn entry_names(es: Seq<EntryView>) -> Seq<Seq<char>>
    decreases es.len(),
{
    if es.len() == 0 {
        Seq::empty()
    } else {
        entry_names(es.drop_last()) + match es.last() {
            EntryView::Item(it) => seq![it.name],
            EntryView::ItemSet(st) => item_names(st.items),
        }
    }
}

/// The names of some checks.
pub open spec fn check_names(c: Seq<NameCheckView>) -> Seq<Seq<char>> {
    c.map_values(|x: NameCheckView| x.name)
}

/// A header line: not blank, and not a set item (`-`).
pub open spec fn is_header(raw: Seq<char>) -> bool {
    trim(raw).len() > 0 && trim(raw)[0] != '-'
}

/// A set item line.
pub open spec fn is_set_item(raw: Seq<char>) -> bool {
    trim(raw).len() > 0 && trim(raw)[0] == '-'
}

/// How many of the first `k` lines satisfy `p`.
pub open spec fn count_lines(lines: Seq<Seq<char>>, k: int, p: spec_fn(Seq<char>) -> bool) -> nat
    decreases k,
{
    if k <= 0 {
        0
    } else {
        count_lines(lines, k - 1, p) + if p(lines[k - 1]) { 1nat } else { 0nat }
    }
}

/// How many items the sets among `es` hold.
pub open spec fn set_item_count(es: Seq<EntryView>) -> nat
    decreases es.len(),
{
    if es.len() == 0 {
        0
    } else {
        set_item_count(es.drop_last()) + match es.last() {
            EntryView::Item(_) => 0nat,
            EntryView::ItemSet(st) => st.items.len(),
        }
    }
}

/// An entry's own name: an item's, or a set's header name.
pub open spec fn entry_title(e: EntryView) -> Seq<char> {
    match e {
        EntryView::Item(it) => it.name,
        EntryView::ItemSet(st) => st.name,
    }
}

/// The name of a header line: its text before the first `:`, trimmed.
pub open spec fn header_name(raw: Seq<char>) -> Seq<char> {
    let t = trim(raw);
    match first_pos(t, ':') {
        Some(c) => trim(t.take(c)),
        None => t,
    }
}

/// The names of the header lines among the first `k` lines, in order.
pub open spec fn header_names(lines: Seq<Seq<char>>, k: int) -> Seq<Seq<char>>
    decreases k,
{
    if k <= 0 {
        Seq::empty()
    } else {
        header_names(lines, k - 1) + if is_header(lines[k - 1]) { seq![header_name(lines[k - 1])] } else { Seq::empty() }
    }
}

/// What the reading keeps true after each line: the names checked are
/// those of the entries made and of the open set's items; an entry, the open
/// set or the pending item stands for each header line, and the sets hold
/// one item per set item line.
pub open spec fn state_inv(st: ParseStateView, lines: Seq<Seq<char>>, k: int) -> bool {
    let open_names = match st.current_set {
        Some(set) => item_names(set.items),
        None => Seq::empty(),
    };
    let open_items: nat = match st.current_set {
        Some(set) => set.items.len(),
        None => 0,
    };
    &&& !(st.current_set is Some && st.pending is Some)
    &&& check_names(st.checks) == entry_names(st.entries) + open_names
    &&& st.entries.len() + (if st.current_set is Some { 1nat } else { 0nat }) + (if st.pending is Some { 1nat } else { 0nat })
        == count_lines(lines, k, |l: Seq<char>| is_header(l))
    &&& set_item_count(st.entries) + open_items == count_lines(lines, k, |l: Seq<char>| is_set_item(l))
    &&& st.entries.map_values(|e: EntryView| entry_title(e)) + match st.current_set {
            Some(set) => seq![set.name],
            None => Seq::empty(),
        } + match st.pending {
            Some(p) => seq![p.name],
            None => Seq::empty(),
        } == header_names(lines, k)
}

proof fn lemma_entry_names_push(es: Seq<EntryView>, e: EntryView)
    ensures
        entry_names(es.push(e)) == entry_names(es) + match e {
            EntryView::Item(it) => seq![it.name],
            EntryView::ItemSet(st) => item_names(st.items),
        },
        set_item_count(es.push(e)) == set_item_count(es) + match e {
            EntryView::Item(_) => 0nat,
            EntryView::ItemSet(st) => st.items.len(),
        },
{
    assert(es.push(e).drop_last() =~= es);
}

proof fn lemma_close_open_inv(st: ParseStateView, lines: Seq<Seq<char>>, k: int)
    requires
        state_inv(st, lines, k),
    ensures
        close_open(st).current_set is None,
        close_open(st).pending is None,
        check_names(close_open(st).checks) == entry_names(close_open(st).entries),
        close_open(st).entries.len()
            == st.entries.len() + (if st.current_set is Some { 1nat } else { 0nat }) + (if st.pending is Some { 1nat } else { 0nat }),
        set_item_count(close_open(st).entries) == set_item_count(st.entries) + match st.current_set {
            Some(set) => set.items.len(),
            None => 0nat,
        },
        close_open(st).entries.map_values(|e: EntryView| entry_title(e)) == header_names(lines, k),
{
    let tt = |e: EntryView| entry_title(e);
    match st.current_set {
        Some(set) => {
            lemma_entry_names_push(st.entries, EntryView::ItemSet(set));
            assert(st.entries.push(EntryView::ItemSet(set)).map_values(tt) =~= st.entries.map_values(tt) + seq![set.name]);
            assert(st.entries.map_values(tt) + seq![set.name] + Seq::<Seq<char>>::empty() =~= st.entries.map_values(tt) + seq![set.name]);
        },
        None => {
            if let Some(p) = st.pending {
                lemma_entry_names_push(st.entries, EntryView::Item(p));
                assert(check_names(st.checks.push(NameCheckView { name: p.name, context: Seq::empty() }))
                    =~= check_names(st.checks).push(p.name));
                assert(check_names(st.checks) =~= entry_names(st.entries));
                assert(st.entries.push(EntryView::Item(p)).map_values(tt) =~= st.entries.map_values(tt) + seq![p.name]);
                assert(st.entries.map_values(tt) + Seq::<Seq<char>>::empty() + seq![p.name] =~= st.entries.map_values(tt) + seq![p.name]);
            } else {
                assert(check_names(st.checks) =~= entry_names(st.entries));
                assert(st.entries.map_values(tt) + Seq::<Seq<char>>::empty() + Seq::<Seq<char>>::empty() =~= st.entries.map_values(tt));
            }
        },
    }
}

proof fn lemma_step_inv(st: ParseStateView, lines: Seq<Seq<char>>, k: int)
    requires
        0 <= k < lines.len(),
        state_inv(st, lines, k),
    ensures
        step_spec(st, lines[k]) matches Ok(st2) ==> state_inv(st2, lines, k + 1),
{
    reveal(step_spec);
    let raw = lines[k];
    let t = trim(raw);
    let hp = |l: Seq<char>| is_header(l);
    let ip = |l: Seq<char>| is_set_item(l);
    assert(count_lines(lines, k + 1, hp) == count_lines(lines, k, hp) + if hp(raw) { 1nat } else { 0nat });
    assert(count_lines(lines, k + 1, ip) == count_lines(lines, k, ip) + if ip(raw) { 1nat } else { 0nat });
    if t.len() == 0 {
    } else if t[0] == '-' {
        let il = trim(t.skip(1));
        if let Ok(it) = item_fields_spec(il, true) {
            let checks = st.checks.push(NameCheckView { name: it.name, context: set_item_context(il) });
            assert(check_names(checks) =~= check_names(st.checks).push(it.name));
            match st.current_set {
                Some(set) => {
                    assert(item_names(set.items.push(it)) =~= item_names(set.items).push(it.name));
                    assert(check_names(checks) =~= entry_names(st.entries) + item_names(set.items.push(it)));
                },
                None => {
                    if let Some(p) = st.pending {
                        assert(item_names(seq![it]) =~= seq![it.name]);
                        assert(check_names(checks) =~= entry_names(st.entries) + item_names(seq![it]));
                    }
                },
            }
        }
    } else {
        lemma_close_open_inv(st, lines, k);
    }
}

proof fn lemma_fold_inv(lines: Seq<Seq<char>>, k: int)
    requires
        0 <= k <= lines.len(),
    ensures
        fold_lines(lines, k) matches Ok(st) ==> state_inv(st, lines, k),
    decreases k,
{
    if k == 0 {
        assert(check_names(Seq::<NameCheckView>::empty()) =~= Seq::<Seq<char>>::empty());
        assert(entry_names(Seq::<EntryView>::empty()) + Seq::<Seq<char>>::empty() =~= Seq::<Seq<char>>::empty());
    } else {
        lemma_fold_inv(lines, k - 1);
        if let Ok(st) = fold_lines(lines, k - 1) {
            lemma_step_inv(st, lines, k - 1);
        }
    }
}

/// A text that reads gives one entry per header line (a line that is not
/// blank and does not start with `-`), in order, each named by its line's
/// text before the first `:`; its sets hold one item per `-` line; and the
/// names to look up are exactly, in order, the names of its items and of
/// its sets' items: never a set's own name.
pub proof fn lemma_parse_entries_follow_lines(text: Seq<char>)
    ensures
        parse_spec(text).result matches Ok(es) ==> {
            let lines = split_on(text, '\n');
            &&& es.len() == count_lines(lines, lines.len() as int, |l: Seq<char>| is_header(l))
            &&& set_item_count(es) == count_lines(lines, lines.len() as int, |l: Seq<char>| is_set_item(l))
            &&& check_names(parse_spec(text).checks) == entry_names(es)
            &&& es.map_values(|e: EntryView| entry_title(e)) == header_names(lines, lines.len() as int)
        },
{
    let lines = split_on(text, '\n');
    lemma_fold_inv(lines, lines.len() as int);
    if let Ok(st) = fold_lines(lines, lines.len() as int) {
        lemma_close_open_inv(st, lines, lines.len() as int);
        assert(finish_spec(st).entries == close_open(st).entries);
        match st.current_set {
            Some(set) => {
                lemma_entry_names_push(st.entries, EntryView::ItemSet(set));
            },
            None => {
                if let Some(p) = st.pending {
                    lemma_entry_names_push(st.entries, EntryView::Item(p));
                    assert(check_names(st.checks.push(NameCheckView { name: p.name, context: Seq::empty() }))
                        =~= check_names(st.checks).push(p.name));
                    assert(check_names(st.checks) =~= entry_names(st.entries));
                } else {
                    assert(check_names(st.checks) =~= entry_names(st.entries));
                }
            },
        }
    }
}


proof fn lemma_fold_blank(lines: Seq<Seq<char>>, j: int)
    requires
        0 <= j <= lines.len(),
        forall|i: int| 0 <= i < j ==> trim(#[trigger] lines[i]).len() == 0,
    ensures
        fold_lines(lines, j) == Ok::<ParseStateView, (Seq<NameCheckView>, Seq<char>)>(initial_state()),
    decreases j,
{
    reveal(step_spec);
    if j > 0 {
        lemma_fold_blank(lines, j - 1);
        assert(trim(lines[j - 1]).len() == 0);
    }
}

/// A set item line before any header, that is, after blank lines only, is
/// refused: `Item found outside of a set: ` and the trimmed line.
pub proof fn lemma_set_item_before_any_header(text: Seq<char>, j: int)
    requires
        0 <= j < split_on(text, '\n').len(),
        forall|i: int| 0 <= i < j ==> trim(#[trigger] split_on(text, '\n')[i]).len() == 0,
        is_set_item(split_on(text, '\n')[j]),
        item_fields_spec(trim(trim(split_on(text, '\n')[j]).skip(1)), true) is Ok,
    ensures
        parse_spec(text).result == Err::<Seq<EntryView>, Seq<char>>("Item found outside of a set: "@ + trim(split_on(text, '\n')[j])),
{
    reveal(step_spec);
    let lines = split_on(text, '\n');
    lemma_fold_blank(lines, j);
    lemma_fold_err(lines, j + 1, lines.len() as int);
}


/// An item as the format admits it: a name of the allowed characters and
/// an ordered quantity range.
pub open spec fn item_ok(it: ItemView) -> bool {
    valid_name_spec(it.name) && it.min <= it.max
}

/// An entry as the format admits it; a set's items too.
pub open spec fn entry_ok(e: EntryView) -> bool {
    match e {
        EntryView::Item(it) => item_ok(it),
        EntryView::ItemSet(st) => valid_name_spec(st.name) && st.min <= st.max
            && forall|j: int| 0 <= j < st.items.len() ==> item_ok(#[trigger] st.items[j]),
    }
}

proof fn lemma_params_fold_ordered(parts: Seq<Seq<char>>, k: int)
    ensures
        params_fold(parts, k) matches Ok(st) ==> st.0 <= st.1,
    decreases k,
{
    if k > 1 {
        lemma_params_fold_ordered(parts, k - 1);
        lemma_min_max_ordered(parts[k - 1]);
    }
}

proof fn lemma_item_fields_ok(line: Seq<char>, in_set: bool)
    ensures
        item_fields_spec(line, in_set) matches Ok(it) ==> item_ok(it),
{
    let parts = trimmed_fields(trim(match first_pos(line, ':') { Some(c) => line.skip(c + 1), None => line }));
    lemma_params_fold_ordered(parts, parts.len() as int);
}

/// Every entry, the open set and the pending item as the format admits them.
pub open spec fn state_ok(st: ParseStateView) -> bool {
    &&& forall|i: int| 0 <= i < st.entries.len() ==> entry_ok(#[trigger] st.entries[i])
    &&& (st.current_set matches Some(set) ==> entry_ok(EntryView::ItemSet(set)))
    &&& (st.pending matches Some(p) ==> item_ok(p))
}

proof fn lemma_step_ok(st: ParseStateView, raw: Seq<char>)
    requires
        state_ok(st),
    ensures
        step_spec(st, raw) matches Ok(st2) ==> state_ok(st2),
{
    reveal(step_spec);
    let t = trim(raw);
    if t.len() > 0 && t[0] == '-' {
        let il = trim(t.skip(1));
        lemma_item_fields_ok(il, true);
        if let Ok(it) = item_fields_spec(il, true) {
            if let Some(set) = st.current_set {
                let items = set.items.push(it);
                assert forall|j: int| 0 <= j < items.len() implies item_ok(#[trigger] items[j]) by {
                    if j < set.items.len() { assert(items[j] == set.items[j]); }
                }
            } else if let Some(p) = st.pending {
                assert forall|j: int| 0 <= j < seq![it].len() implies item_ok(#[trigger] seq![it][j]) by {}
            }
        }
    } else if t.len() > 0 {
        lemma_item_fields_ok(t, false);
        let st1 = close_open(st);
        assert(state_ok(st1)) by {
            let a = match st.current_set {
                Some(set) => st.entries.push(EntryView::ItemSet(set)),
                None => st.entries,
            };
            assert forall|i: int| 0 <= i < a.len() implies entry_ok(#[trigger] a[i]) by {
                if i < st.entries.len() { assert(a[i] == st.entries[i]); }
            }
            if let Some(p) = st.pending {
                let b = a.push(EntryView::Item(p));
                assert forall|i: int| 0 <= i < b.len() implies entry_ok(#[trigger] b[i]) by {
                    if i < a.len() { assert(b[i] == a[i]); }
                }
            }
        }
    }
}

proof fn lemma_fold_ok(lines: Seq<Seq<char>>, k: int)
    requires
        0 <= k <= lines.len(),
    ensures
        fold_lines(lines, k) matches Ok(st) ==> state_ok(st),
    decreases k,
{
    if k > 0 {
        lemma_fold_ok(lines, k - 1);
        if let Ok(st) = fold_lines(lines, k - 1) {
            lemma_step_ok(st, lines[k - 1]);
        }
    }
}

/// A text that reads gives only names of the allowed characters (letters,
/// digits, `_`, space and `-`) and quantity ranges with the minimum no larger
/// than the maximum, for every entry and every item of a set.
pub proof fn lemma_parsed_entries_ok(text: Seq<char>)
    ensures
        parse_spec(text).result matches Ok(es) ==> forall|i: int| 0 <= i < es.len() ==> entry_ok(#[trigger] es[i]),
{
    let lines = split_on(text, '\n');
    lemma_fold_ok(lines, lines.len() as int);
    if let Ok(st) = fold_lines(lines, lines.len() as int) {
        let fin = finish_spec(st);
        let a = match st.current_set {
            Some(set) => st.entries.push(EntryView::ItemSet(set)),
            None => match st.pending {
                Some(p) => st.entries.push(EntryView::Item(p)),
                None => st.entries,
            },
        };
        assert(fin.entries == a);
        assert forall|i: int| 0 <= i < a.len() implies entry_ok(#[trigger] a[i]) by {
            if i < st.entries.len() { assert(a[i] == st.entries[i]); }
        }
    }
}

/// Looking names up: when every name before the `j`-th is found and the
/// `j`-th is missing, a text that read is refused with that name's context
/// and `Item not found: ` followed by the name.
pub proof fn lemma_missing_name_refused(p: LootParseView, lookups: Seq<NameLookupView>, j: int)
    requires
        0 <= j < p.checks.len(),
        j < lookups.len(),
        forall|i: int| 0 <= i < j ==> #[trigger] lookups[i] == NameLookupView::Found,
        lookups[j] == NameLookupView::Missing,
    ensures
        resolve_from(p, lookups, 0) == Err::<Seq<EntryView>, Seq<char>>(p.checks[j].context + "Item not found: "@ + p.checks[j].name),
{
    lemma_missing_from(p, lookups, j, 0);
}

proof fn lemma_missing_from(p: LootParseView, lookups: Seq<NameLookupView>, j: int, k: int)
    requires
        0 <= k <= j < p.checks.len(),
        j < lookups.len(),
        forall|i: int| 0 <= i < j ==> #[trigger] lookups[i] == NameLookupView::Found,
        lookups[j] == NameLookupView::Missing,
    ensures
        resolve_from(p, lookups, k) == Err::<Seq<EntryView>, Seq<char>>(p.checks[j].context + "Item not found: "@ + p.checks[j].name),
    decreases j - k,
{
    if k < j {
        assert(lookups[k] == NameLookupView::Found);
        lemma_missing_from(p, lookups, j, k + 1);
    }
}

/// The errors of a quantity field whose numbers do not read.
pub proof fn lemma_min_max_bad_parts(s: Seq<char>, lo: Seq<char>, hi: Seq<char>)
    ensures
        first_pos(s, '-') is None && parse_u32_spec(s) is None ==> min_max_spec(s) == Err::<(u32, u32), Seq<char>>("Invalid value: "@ + s),
        (forall|k: int| 0 <= k < lo.len() ==> lo[k] != '-') && parse_u32_spec(trim(lo)) is None
            ==> min_max_spec(lo + seq!['-'] + hi) == Err::<(u32, u32), Seq<char>>("Invalid min value: "@ + lo),
        (forall|k: int| 0 <= k < lo.len() ==> lo[k] != '-') && parse_u32_spec(trim(lo)) is Some && parse_u32_spec(trim(hi)) is None
            ==> min_max_spec(lo + seq!['-'] + hi) == Err::<(u32, u32), Seq<char>>("Invalid max value: "@ + hi),
{
    if forall|k: int| 0 <= k < lo.len() ==> lo[k] != '-' {
        let t = lo + seq!['-'] + hi;
        lemma_first_pos_at(t, '-', lo.len() as int);
        assert(t.take(lo.len() as int) =~= lo);
        assert(t.skip(lo.len() as int + 1) =~= hi);
    }
}

} // verus!
