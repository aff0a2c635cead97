//! Paged views: the pages of a list, and the navigation buttons of a page.
use vstd::prelude::*;
use vstd::arithmetic::div_mod::{lemma_div_plus_one, lemma_fundamental_div_mod_converse};
use crate::text::{chars_of, string_of, decimal, decimal_chars};

verus! {

/// The lines joined by `\n`.
pub open spec fn join_lines(s: Seq<Seq<char>>) -> Seq<char>
    decreases s.len(),
{
    if s.len() == 0 {
        Seq::empty()
    } else if s.len() == 1 {
        s[0]
    } else {
        join_lines(s.drop_last()) + seq!['\n'] + s.last()
    }
}

/// The pages of a nonempty list, `n` lines to a page (the last one may
/// hold fewer), each page its lines joined by `\n`.
pub open spec fn pages(items: Seq<Seq<char>>, n: nat) -> Seq<Seq<char>>
    decreases items.len(),
{
    if n == 0 || items.len() <= n {
        seq![join_lines(items)]
    } else {
        seq![join_lines(items.take(n as int))] + pages(items.skip(n as int), n)
    }
}

/// A nonempty list of `n` lines makes `⌈n / k⌉` pages, and page `p` holds
/// lines `p * k` up to `min(n, (p + 1) * k)` joined by `\n`.
pub proof fn lemma_pages_closed_form(items: Seq<Seq<char>>, k: nat)
    requires
        items.len() > 0,
        k > 0,
    ensures
        pages(items, k).len() == (items.len() + k - 1) / (k as int),
        forall|p: int| 0 <= p < pages(items, k).len() ==> #[trigger] pages(items, k)[p]
            == join_lines(items.subrange(p * k, if (p + 1) * k < items.len() { (p + 1) * k } else { items.len() as int })),
    decreases items.len(),
{
    let len = items.len() as int;
    let kk = k as int;
    if len <= kk {
        lemma_fundamental_div_mod_converse(len + kk - 1, kk, 1, len - 1);
        assert forall|p: int| 0 <= p < pages(items, k).len() implies #[trigger] pages(items, k)[p]
            == join_lines(items.subrange(p * k, if (p + 1) * k < items.len() { (p + 1) * k } else { items.len() as int })) by {
            assert(p == 0);
            assert(p * kk == 0 && (p + 1) * kk == kk) by (nonlinear_arith) requires p == 0;
            assert(items.subrange(0, len) =~= items);
        }
    } else {
        let rest = items.skip(kk);
        lemma_pages_closed_form(rest, k);
        lemma_div_plus_one(rest.len() + kk - 1, kk);
        assert(kk + (rest.len() + kk - 1) == len + kk - 1);
        assert forall|p: int| 0 <= p < pages(items, k).len() implies #[trigger] pages(items, k)[p]
            == join_lines(items.subrange(p * k, if (p + 1) * k < items.len() { (p + 1) * k } else { items.len() as int })) by {
            if p == 0 {
                assert(p * kk == 0 && (p + 1) * kk == kk) by (nonlinear_arith) requires p == 0;
                assert(items.take(kk) =~= items.subrange(0, kk));
                assert(pages(items, k)[0] == join_lines(items.take(kk)));
            } else {
                let q = p - 1;
                assert(q * kk + kk == p * kk) by (nonlinear_arith) requires q == p - 1;
                assert(p * kk + kk == (p + 1) * kk) by (nonlinear_arith);
                assert(0 <= q * kk) by (nonlinear_arith) requires q >= 0, kk > 0;
                assert(pages(items, k)[p] == pages(rest, k)[q]);
                let hi = if (q + 1) * kk < rest.len() { (q + 1) * kk } else { rest.len() as int };
                assert(hi + kk == (if (p + 1) * kk < len { (p + 1) * kk } else { len }));
                let rl = rest.len() as int;
                assert(q < (rl + kk - 1) / kk);
                assert(q * kk < rl) by (nonlinear_arith) requires 0 <= q < (rl + kk - 1) / kk, kk > 0, rl > 0;
                assert(q * kk <= hi);
                assert(rest.subrange(q * kk, hi) =~= items.subrange(p * kk, hi + kk));
            }
        }
    }
}

pub open spec fn strings_view(v: Seq<String>) -> Seq<Seq<char>> {
    v.map_values(|s: String| s@)
}

fn join_range(items: &[String], lo: usize, hi: usize) -> (r: Vec<char>)
    requires
        lo <= hi <= items@.len(),
    ensures
        r@ == join_lines(strings_view(items@).subrange(lo as int, hi as int)),
{
    let ghost sv = strings_view(items@);
    let mut r: Vec<char> = Vec::new();
    let mut i = lo;
    while i < hi
        invariant
            lo <= i <= hi <= items@.len(),
            sv == strings_view(items@),
            r@ == join_lines(sv.subrange(lo as int, i as int)),
        decreases hi - i,
    {
        assert(sv.subrange(lo as int, i + 1).drop_last() =~= sv.subrange(lo as int, i as int));
        assert(sv.subrange(lo as int, i + 1).last() == items@[i as int]@);
        let line = chars_of(items[i].as_str());
        if i > lo {
            r.push('\n');
        } else {
            assert(sv.subrange(lo as int, i + 1) =~= seq![items@[i as int]@]);
        }
        let mut k: usize = 0;
        let ghost base = r@;
        while k < line.len()
            invariant
                k <= line@.len(),
                r@ == base + line@.take(k as int),
            decreases line@.len() - k,
        {
            r.push(line[k]);
            assert(line@.take(k + 1) =~= line@.take(k as int).push(line@[k as int]));
            assert(r@ =~= base + line@.take(k + 1));
            k = k + 1;
        }
        assert(line@.take(line@.len() as int) =~= line@);
        if i == lo {
            assert(base =~= Seq::<char>::empty());
            assert(r@ =~= line@);
        }
        i = i + 1;
    }
    r
}

/// The pages of a list for display: `items_per_page` lines to a page, each
/// page its lines joined by `\n`; an empty list gives one page holding
/// `empty_message`.
pub fn paginate_text(items: &[String], items_per_page: usize, empty_message: &str) -> (r: Vec<String>)
    requires
        items@.len() == 0 || items_per_page > 0,
    ensures
        items@.len() == 0 ==> strings_view(r@) == seq![empty_message@],
        items@.len() > 0 ==> strings_view(r@) == pages(strings_view(items@), items_per_page as nat),
{
    let mut r: Vec<String> = Vec::new();
    if items.len() == 0 {
        r.push(String::from_str(empty_message));
        assert(strings_view(r@) =~= seq![empty_message@]);
        return r;
    }
    let ghost sv = strings_view(items@);
    let n = items_per_page;
    let mut i: usize = 0;
    assert(sv.skip(0) =~= sv);
    assert(strings_view(r@) =~= Seq::<Seq<char>>::empty());
    while i < items.len()
        invariant
            0 < n,
            i < items@.len() || i == items@.len(),
            sv == strings_view(items@),
            i < items@.len() ==> pages(sv, n as nat) == strings_view(r@) + pages(sv.skip(i as int), n as nat),
            i == items@.len() ==> pages(sv, n as nat) == strings_view(r@),
        decreases items@.len() - i,
    {
        let rest = items.len() - i;
        let hi = if rest <= n { items.len() } else { i + n };
        let page = join_range(items, i, hi);
        let ghost rv = strings_view(r@);
        r.push(string_of(&page));
        assert(strings_view(r@) =~= rv.push(page@));
        let ghost tail = sv.skip(i as int);
        if rest <= n {
            assert(tail =~= sv.subrange(i as int, hi as int));
            assert(pages(tail, n as nat) == seq![join_lines(tail)]);
            assert(strings_view(r@) =~= rv + pages(tail, n as nat));
        } else {
            assert(tail.take(n as int) =~= sv.subrange(i as int, hi as int));
            assert(tail.skip(n as int) =~= sv.skip(hi as int));
            assert(rv + pages(tail, n as nat) =~= strings_view(r@) + pages(sv.skip(hi as int), n as nat));
        }
        i = hi;
    }
    r
}

/// Where a page stands in a paged view, and the values that its buttons
/// carry.
pub struct CarouselConfig {
    pub prefix: String,
    pub current_page: usize,
    pub total_pages: usize,
    /// Values stored in the buttons' identifiers, separated by `:`.
    pub metadata: Vec<String>,
}

#[derive(Debug, Clone, Copy, PartialEq, Eq)]
pub enum CarouselAction {
    Previous,
    Next,
    Refresh,
}

/// A navigation button: what it does, the identifier it carries, and
/// whether it is disabled.
pub struct CarouselButton {
    pub action: CarouselAction,
    pub custom_id: String,
    pub disabled: bool,
}

/// The values joined by `:`.
pub open spec fn join_colon(s: Seq<Seq<char>>) -> Seq<char>
    decreases s.len(),
{
    if s.len() == 0 {
        Seq::empty()
    } else if s.len() == 1 {
        s[0]
    } else {
        join_colon(s.drop_last()) + seq![':'] + s.last()
    }
}

/// `{prefix}:{action}:{metadata}:{page}`.
pub open spec fn button_id(prefix: Seq<char>, action: Seq<char>, meta: Seq<char>, page: nat) -> Seq<char> {
    prefix + seq![':'] + action + seq![':'] + meta + seq![':'] + decimal(page)
}

fn join_metadata(meta: &Vec<String>) -> (r: Vec<char>)
    ensures
        r@ == join_colon(strings_view(meta@)),
{
    let ghost sv = strings_view(meta@);
    let mut r: Vec<char> = Vec::new();
    let mut i: usize = 0;
    while i < meta.len()
        invariant
            i <= meta@.len(),
            sv == strings_view(meta@),
            r@ == join_colon(sv.take(i as int)),
        decreases meta@.len() - i,
    {
        assert(sv.take(i + 1).drop_last() =~= sv.take(i as int));
        let piece = chars_of(meta[i].as_str());
        let ghost base = r@;
        if i > 0 {
            r.push(':');
        }
        let mut k: usize = 0;
        let ghost mid = r@;
        while k < piece.len()
            invariant
                k <= piece@.len(),
                r@ == mid + piece@.take(k as int),
            decreases piece@.len() - k,
        {
            r.push(piece[k]);
            assert(piece@.take(k + 1) =~= piece@.take(k as int).push(piece@[k as int]));
            assert(r@ =~= mid + piece@.take(k + 1));
            k = k + 1;
        }
        assert(piece@.take(piece@.len() as int) =~= piece@);
        if i == 0 {
            assert(sv.take(1) =~= seq![piece@]);
            assert(r@ =~= piece@);
        } else {
            assert(r@ =~= base + seq![':'] + piece@);
        }
        i = i + 1;
    }
    assert(sv.take(meta@.len() as int) =~= sv);
    r
}

fn make_id(prefix: &Vec<char>, action: &str, meta: &Vec<char>, page: usize) -> (r: String)
    ensures
        r@ == button_id(prefix@, action@, meta@, page as nat),
{
    let mut s = string_of(prefix);
    s.append(":");
    proof { reveal_strlit(":"); }
    s.append(action);
    s.append(":");
    let m = string_of(meta);
    s.append(m.as_str());
    s.append(":");
    let d = decimal_chars(page as u64);
    let ds = string_of(&d);
    s.append(ds.as_str());
    assert(s@ =~= button_id(prefix@, action@, meta@, page as nat));
    s
}

impl CarouselConfig {
    /// The navigation buttons of the page: previous and next when there is
    /// more than one page (previous disabled on the first page, next on the
    /// last), then refresh.
    pub fn buttons(&self) -> (r: Vec<CarouselButton>)
        requires
            self.total_pages > 1 ==> self.current_page < usize::MAX,
        ensures
            self.total_pages > 1 ==> r@.len() == 3 && r@[0].action == CarouselAction::Previous
                && r@[0].custom_id@ == button_id(self.prefix@, "prev"@, join_colon(strings_view(self.metadata@)),
                    if self.current_page > 0 { (self.current_page - 1) as nat } else { 0 })
                && r@[0].disabled == (self.current_page == 0)
                && r@[1].action == CarouselAction::Next
                && r@[1].custom_id@ == button_id(self.prefix@, "next"@, join_colon(strings_view(self.metadata@)), (self.current_page + 1) as nat)
                && r@[1].disabled == (self.current_page >= self.total_pages - 1),
            self.total_pages <= 1 ==> r@.len() == 1,
            r@[r@.len() - 1].action == CarouselAction::Refresh,
            r@[r@.len() - 1].custom_id@ == button_id(self.prefix@, "refresh"@, join_colon(strings_view(self.metadata@)), self.current_page as nat),
            !r@[r@.len() - 1].disabled,
    {
        let prefix = chars_of(self.prefix.as_str());
        let meta = join_metadata(&self.metadata);
        let mut r: Vec<CarouselButton> = Vec::new();
        if self.total_pages > 1 {
            let prev_page = if self.current_page > 0 { self.current_page - 1 } else { 0 };
            r.push(CarouselButton {
                action: CarouselAction::Previous,
                custom_id: make_id(&prefix, "prev", &meta, prev_page),
                disabled: self.current_page == 0,
            });
            r.push(CarouselButton {
                action: CarouselAction::Next,
                custom_id: make_id(&prefix, "next", &meta, self.current_page + 1),
                disabled: self.current_page >= self.total_pages - 1,
            });
        }
        r.push(CarouselButton {
            action: CarouselAction::Refresh,
            custom_id: make_id(&prefix, "refresh", &meta, self.current_page),
            disabled: false,
        });
        r
    }
}


/// The page shown when page `page` is asked for among `total` pages: the
/// last one when it is past the end.
pub fn clamp_page(page: usize, total: usize) -> (r: usize)
    requires
        total >= 1,
    ensures
        r == (if page < total - 1 { page } else { (total - 1) as usize }),
{
    if page < total - 1 { page } else { total - 1 }
}

/// How many pages `len` entries fill, `per_page` to a page.
pub fn page_count(len: usize, per_page: usize) -> (r: usize)
    requires
        per_page > 0,
    ensures
        r as int == (len as int + per_page - 1) / (per_page as int),
{
    let q = len / per_page;
    let r = len % per_page;
    proof {
        vstd::arithmetic::div_mod::lemma_fundamental_div_mod(len as int, per_page as int);
        assert(per_page * q == q * per_page) by (nonlinear_arith);
        assert(q <= q * per_page) by (nonlinear_arith)
            requires q >= 0, per_page >= 1;
        if r == 0 {
            vstd::arithmetic::div_mod::lemma_fundamental_div_mod_converse(len as int + per_page - 1, per_page as int, q as int, per_page - 1);
        } else {
            assert(q * per_page + per_page == (q + 1) * per_page) by (nonlinear_arith);
            vstd::arithmetic::div_mod::lemma_fundamental_div_mod_converse(len as int + per_page - 1, per_page as int, q + 1, r - 1);
        }
    }
    if r == 0 { q } else { q + 1 }
}

/// The entries `start..end` shown on page `page`, `per_page` to a page,
/// among `len` entries.
pub fn page_window(page: usize, per_page: usize, len: usize) -> (r: (usize, usize))
    requires
        page * per_page <= len,
    ensures
        r.0 == page * per_page,
        r.1 == (if page * per_page + per_page < len { page * per_page + per_page } else { len as int }),
        r.0 <= r.1 <= len,
{
    let start = page * per_page;
    let end = if per_page < len - start { start + per_page } else { len };
    (start, end)
}

} // verus!
