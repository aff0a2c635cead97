//! The text format of recipes.
//!
//! Each line of a recipe names one item:
//! - `> name [quantity]`: an item the recipe gives,
//! - `< name [quantity]`: an item the recipe uses up,
//! - `- name`: a tool the recipe needs and keeps.
//!
//! Empty lines, lines that start with `#` and lines of any other shape are
//! skipped. Reading a recipe is done in two steps: the text is read into
//! lines (`RecipeParser::parse_text`), then each named item is looked up and
//! the recipe is built from what came back (`RecipeParser::resolve`).
use vstd::prelude::*;
use crate::text::{
    chars_of, string_of, trim, trim_range, split_on, split_chars, words, split_words,
    parse_u64_spec, parse_u64, join_with, join_pieces, char_vecs_view,
};
use crate::document::DocumentId;

verus! {

/// `name quantity`, or `name` alone for a quantity of one: the last word is
/// the quantity when there are two words or more and it reads as a `u64`;
/// the other words, joined by single spaces, are the name.
pub open spec fn parse_line_spec(content: Seq<char>) -> Result<(Seq<char>, u64), Seq<char>> {
    let ws = words(content);
    if ws.len() == 0 {
        Err("recipe__invalid_line"@)
    } else if ws.len() > 1 && parse_u64_spec(ws.last()) is Some {
        Ok((join_with(ws.drop_last(), ' '), parse_u64_spec(ws.last())->0))
    } else {
        Ok((join_with(ws, ' '), 1u64))
    }
}

/// What a line of a recipe is for.
#[derive(Clone, Copy, Debug, PartialEq, Eq, Structural)]
pub enum RecipeLineKind {
    Result,
    Ingredient,
    Tool,
}

/// One line of a recipe: an item's name and its quantity (one for a tool).
#[derive(Debug)]
pub struct RecipeLine {
    pub kind: RecipeLineKind,
    pub name: String,
    pub qty: u64,
}

pub struct RecipeLineView {
    pub kind: RecipeLineKind,
    pub name: Seq<char>,
    pub qty: u64,
}

impl View for RecipeLine {
    type V = RecipeLineView;

    open spec fn view(&self) -> RecipeLineView {
        RecipeLineView { kind: self.kind, name: self.name@, qty: self.qty }
    }
}

pub open spec fn lines_view(v: Seq<RecipeLine>) -> Seq<RecipeLineView> {
    v.map_values(|l: RecipeLine| l@)
}

pub open spec fn item_line(kind: RecipeLineKind, rest: Seq<char>) -> Result<RecipeLineView, Seq<char>> {
    match parse_line_spec(rest) {
        Ok((name, qty)) => Ok(RecipeLineView { kind, name, qty }),
        Err(e) => Err(e),
    }
}

/// What one raw line of text is: `None` for a line that is skipped.
pub open spec fn classify_spec(raw: Seq<char>) -> Option<Result<RecipeLineView, Seq<char>>> {
    let t = trim(raw);
    if t.len() == 0 || t[0] == '#' {
        None
    } else if t[0] == '>' {
        Some(item_line(RecipeLineKind::Result, t.drop_first()))
    } else if t[0] == '<' {
        Some(item_line(RecipeLineKind::Ingredient, t.drop_first()))
    } else if t[0] == '-' {
        Some(Ok(RecipeLineView { kind: RecipeLineKind::Tool, name: trim(t.drop_first()), qty: 1u64 }))
    } else {
        None
    }
}

/// The lines read from the first `k` raw lines, and the error of the first
/// line that could not be read, where reading stopped.
pub open spec fn read_lines(raws: Seq<Seq<char>>, k: int) -> (Seq<RecipeLineView>, Option<Seq<char>>)
    decreases k,
{
    if k <= 0 {
        (Seq::empty(), None)
    } else {
        let (acc, stop) = read_lines(raws, k - 1);
        if stop is Some {
            (acc, stop)
        } else {
            match classify_spec(raws[k - 1]) {
                None => (acc, None),
                Some(Ok(l)) => (acc.push(l), None),
                Some(Err(e)) => (acc, Some(e)),
            }
        }
    }
}

pub struct RecipeParseView {
    pub lines: Seq<RecipeLineView>,
    pub stop: Option<Seq<char>>,
}

/// A recipe's text read into lines.
pub open spec fn recipe_parse_spec(text: Seq<char>) -> RecipeParseView {
    let raws = split_on(text, '\n');
    let (lines, stop) = read_lines(raws, raws.len() as int);
    RecipeParseView { lines, stop }
}

/// The lines of a recipe's text, in order, up to the first line that could
/// not be read; `stop` holds that line's error.
#[derive(Debug)]
pub struct RecipeParse {
    pub lines: Vec<RecipeLine>,
    pub stop: Option<String>,
}

impl View for RecipeParse {
    type V = RecipeParseView;

    open spec fn view(&self) -> RecipeParseView {
        RecipeParseView {
            lines: lines_view(self.lines@),
            stop: match &self.stop {
                Some(e) => Some(e@),
                None => None,
            },
        }
    }
}

/// How the lookup of an item's name came back.
#[derive(Debug)]
pub enum ItemLookup {
    Found(DocumentId),
    Missing,
    Failed(String),
}

pub enum ItemLookupView {
    Found(DocumentId),
    Missing,
    Failed(Seq<char>),
}

impl View for ItemLookup {
    type V = ItemLookupView;

    open spec fn view(&self) -> ItemLookupView {
        match self {
            ItemLookup::Found(id) => ItemLookupView::Found(*id),
            ItemLookup::Missing => ItemLookupView::Missing,
            ItemLookup::Failed(e) => ItemLookupView::Failed(e@),
        }
    }
}

pub open spec fn lookups_view(v: Seq<ItemLookup>) -> Seq<ItemLookupView> {
    v.map_values(|l: ItemLookup| l@)
}

/// One lookup per line, in order; the list may end early only right after a
/// lookup that did not find its item.
pub open spec fn lookups_fit(n: nat, lookups: Seq<ItemLookupView>) -> bool {
    ||| lookups.len() == n
    ||| (lookups.len() < n && exists|j: int| 0 <= j < lookups.len() && !(#[trigger] lookups[j] is Found))
}

pub struct ParsedRecipeView {
    pub ingredients: Seq<(u64, DocumentId)>,
    pub result: Seq<(u64, DocumentId)>,
    pub tools_needed: Seq<DocumentId>,
}

/// The recipe built from the first `k` lines and their lookups, or the error
/// of the first lookup that did not find its item.
pub open spec fn resolve_lines(lines: Seq<RecipeLineView>, lookups: Seq<ItemLookupView>, k: int) -> Result<ParsedRecipeView, Seq<char>>
    decreases k,
{
    if k <= 0 {
        Ok(ParsedRecipeView { ingredients: Seq::empty(), result: Seq::empty(), tools_needed: Seq::empty() })
    } else {
        match resolve_lines(lines, lookups, k - 1) {
            Err(e) => Err(e),
            Ok(acc) => match lookups[k - 1] {
                ItemLookupView::Missing => Err("recipe__item_not_found:"@ + lines[k - 1].name),
                ItemLookupView::Failed(e) => Err("Erreur DB: "@ + e),
                ItemLookupView::Found(id) => {
                    let l = lines[k - 1];
                    match l.kind {
                        RecipeLineKind::Result => Ok(ParsedRecipeView { result: acc.result.push((l.qty, id)), ..acc }),
                        RecipeLineKind::Ingredient => Ok(ParsedRecipeView { ingredients: acc.ingredients.push((l.qty, id)), ..acc }),
                        RecipeLineKind::Tool => Ok(ParsedRecipeView { tools_needed: acc.tools_needed.push(id), ..acc }),
                    }
                },
            },
        }
    }
}

/// The recipe, once every line's item was looked up: the first lookup that
/// did not find its item, then a line that could not be read, then a recipe
/// that neither gives nor uses anything, is an error.
pub open spec fn resolve_spec(p: RecipeParseView, lookups: Seq<ItemLookupView>) -> Result<ParsedRecipeView, Seq<char>> {
    match resolve_lines(p.lines, lookups, lookups.len() as int) {
        Err(e) => Err(e),
        Ok(r) => match p.stop {
            Some(e) => Err(e),
            None => if r.ingredients.len() == 0 && r.result.len() == 0 {
                Err("recipe__empty_recipe"@)
            } else {
                Ok(r)
            },
        },
    }
}

/// A recipe: what it uses up and gives, with their quantities, and the tools
/// it needs.
#[derive(Debug, Clone)]
pub struct ParsedRecipe {
    pub ingredients: Vec<(u64, DocumentId)>,
    pub result: Vec<(u64, DocumentId)>,
    pub tools_needed: Vec<DocumentId>,
}

impl View for ParsedRecipe {
    type V = ParsedRecipeView;

    open spec fn view(&self) -> ParsedRecipeView {
        ParsedRecipeView { ingredients: self.ingredients@, result: self.result@, tools_needed: self.tools_needed@ }
    }
}

pub struct RecipeParser;

impl RecipeParser {
    /// Reads `name [quantity]` from a line's content.
    pub fn parse_line(content: &str) -> (r: Result<(String, u64), String>)
        ensures
            match (r, parse_line_spec(content@)) {
                (Ok((n, q)), Ok((m, p))) => n@ == m && q == p,
                (Err(e), Err(f)) => e@ == f,
                _ => false,
            },
    {
        let chars = chars_of(content);
        Self::parse_line_chars(&chars)
    }

    fn parse_line_chars(content: &[char]) -> (r: Result<(String, u64), String>)
        ensures
            match (r, parse_line_spec(content@)) {
                (Ok((n, q)), Ok((m, p))) => n@ == m && q == p,
                (Err(e), Err(f)) => e@ == f,
                _ => false,
            },
    {
        let parts = split_words(content);
        let ghost ws = words(content@);
        assert(char_vecs_view(parts@) =~= ws);
        if parts.len() == 0 {
            return Err(String::from_str("recipe__invalid_line"));
        }
        let n = parts.len();
        if n > 1 {
            match parse_u64(&parts[n - 1]) {
                Some(qty) => {
                    let name = join_pieces(&parts, n - 1, ' ');
                    assert(ws.take(n - 1) =~= ws.drop_last());
                    return Ok((string_of(&name), qty));
                },
                None => {},
            }
        }
        let name = join_pieces(&parts, n, ' ');
        assert(ws.take(n as int) =~= ws);
        Ok((string_of(&name), 1))
    }

    fn classify(raw: &[char]) -> (r: Option<Result<RecipeLine, String>>)
        ensures
            match (r, classify_spec(raw@)) {
                (None, None) => true,
                (Some(Ok(l)), Some(Ok(m))) => l@ == m,
                (Some(Err(e)), Some(Err(f))) => e@ == f,
                _ => false,
            },
    {
        let t = trim_range(raw, 0, raw.len());
        assert(raw@.subrange(0, raw@.len() as int) =~= raw@);
        if t.len() == 0 || t[0] == '#' {
            return None;
        }
        let c = t[0];
        if c == '>' || c == '<' {
            let kind = if c == '>' { RecipeLineKind::Result } else { RecipeLineKind::Ingredient };
            let ghost tail = t@.drop_first();
            let mut body: Vec<char> = Vec::new();
            let mut k: usize = 1;
            while k < t.len()
                invariant
                    1 <= k <= t@.len(),
                    body@ == t@.subrange(1, k as int),
                decreases t@.len() - k,
            {
                body.push(t[k]);
                assert(t@.subrange(1, k + 1) =~= t@.subrange(1, k as int).push(t@[k as int]));
                k = k + 1;
            }
            assert(body@ =~= tail);
            match Self::parse_line_chars(&body) {
                Ok((name, qty)) => Some(Ok(RecipeLine { kind, name, qty })),
                Err(e) => Some(Err(e)),
            }
        } else if c == '-' {
            let rest = trim_range(&t, 1, t.len());
            assert(t@.subrange(1, t@.len() as int) =~= t@.drop_first());
            Some(Ok(RecipeLine { kind: RecipeLineKind::Tool, name: string_of(&rest), qty: 1 }))
        } else {
            None
        }
    }

    /// Reads a recipe's text into its lines.
    pub fn parse_text(text: &str) -> (r: RecipeParse)
        ensures
            r@ == recipe_parse_spec(text@),
    {
        let chars = chars_of(text);
        let raws = split_chars(&chars, '\n');
        let ghost rs = split_on(text@, '\n');
        let mut lines: Vec<RecipeLine> = Vec::new();
        let mut i: usize = 0;
        assert(lines_view(lines@) =~= Seq::<RecipeLineView>::empty());
        while i < raws.len()
            invariant
                i <= raws@.len(),
                rs == split_on(text@, '\n'),
                raws@.len() == rs.len(),
                forall|k: int| 0 <= k < raws@.len() ==> #[trigger] raws@[k]@ == rs[k],
                read_lines(rs, i as int) == (lines_view(lines@), None::<Seq<char>>),
            decreases raws@.len() - i,
        {
            assert(raws@[i as int]@ == rs[i as int]);
            match Self::classify(&raws[i]) {
                None => {},
                Some(Ok(l)) => {
                    lines.push(l);
                    assert(lines_view(lines@) =~= read_lines(rs, i as int).0.push(l@));
                },
                Some(Err(e)) => {
                    proof { lemma_read_lines_stopped(rs, i + 1, rs.len() as int); }
                    return RecipeParse { lines, stop: Some(e) };
                },
            }
            i = i + 1;
        }
        RecipeParse { lines, stop: None }
    }

    /// Builds the recipe from its lines and the lookup of each line's item
    /// (one per line, in order; the list may end right after the first
    /// lookup that did not find its item).
    pub fn resolve(parse: RecipeParse, lookups: &Vec<ItemLookup>) -> (r: Result<ParsedRecipe, String>)
        requires
            lookups_fit(parse.lines@.len(), lookups_view(lookups@)),
        ensures
            match (r, resolve_spec(parse@, lookups_view(lookups@))) {
                (Ok(a), Ok(b)) => a@ == b,
                (Err(e), Err(f)) => e@ == f,
                _ => false,
            },
    {
        let ghost lv = lookups_view(lookups@);
        let ghost ls = lines_view(parse.lines@);
        let mut ingredients: Vec<(u64, DocumentId)> = Vec::new();
        let mut result: Vec<(u64, DocumentId)> = Vec::new();
        let mut tools_needed: Vec<DocumentId> = Vec::new();
        let mut k: usize = 0;
        let n = lookups.len();
        proof {
            if lv.len() < ls.len() {
                let j = choose|j: int| 0 <= j < lv.len() && !(#[trigger] lv[j] is Found);
                assert(lv[j] == lookups@[j]@);
            }
        }
        assert(n <= parse.lines@.len());
        while k < n
            invariant
                k <= n == lookups@.len() <= parse.lines@.len(),
                lv == lookups_view(lookups@),
                ls == lines_view(parse.lines@),
                resolve_lines(ls, lv, k as int) == Ok::<ParsedRecipeView, Seq<char>>(ParsedRecipeView {
                    ingredients: ingredients@, result: result@, tools_needed: tools_needed@,
                }),
            decreases n - k,
        {
            assert(lv[k as int] == lookups@[k as int]@);
            assert(ls[k as int] == parse.lines@[k as int]@);
            match &lookups[k] {
                ItemLookup::Found(id) => {
                    let l = &parse.lines[k];
                    match l.kind {
                        RecipeLineKind::Result => { result.push((l.qty, *id)); },
                        RecipeLineKind::Ingredient => { ingredients.push((l.qty, *id)); },
                        RecipeLineKind::Tool => { tools_needed.push(*id); },
                    }
                },
                ItemLookup::Missing => {
                    let mut m = String::from_str("recipe__item_not_found:");
                    m.append(parse.lines[k].name.as_str());
                    proof { lemma_resolve_lines_err(ls, lv, k + 1, n as int); }
                    return Err(m);
                },
                ItemLookup::Failed(e) => {
                    let mut m = String::from_str("Erreur DB: ");
                    m.append(e.as_str());
                    proof { lemma_resolve_lines_err(ls, lv, k + 1, n as int); }
                    return Err(m);
                },
            }
            k = k + 1;
        }
        match parse.stop {
            Some(e) => Err(e),
            None => {
                if ingredients.len() == 0 && result.len() == 0 {
                    Err(String::from_str("recipe__empty_recipe"))
                } else {
                    Ok(ParsedRecipe { ingredients, result, tools_needed })
                }
            },
        }
    }
}

proof fn lemma_read_lines_stopped(raws: Seq<Seq<char>>, k: int, m: int)
    requires
        0 < k <= m,
        read_lines(raws, k).1 is Some,
    ensures
        read_lines(raws, m) == read_lines(raws, k),
    decreases m - k,
{
    if m > k {
        lemma_read_lines_stopped(raws, k, m - 1);
    }
}

proof fn lemma_resolve_lines_err(lines: Seq<RecipeLineView>, lookups: Seq<ItemLookupView>, k: int, m: int)
    requires
        0 < k <= m,
        resolve_lines(lines, lookups, k) is Err,
    ensures
        resolve_lines(lines, lookups, m) == resolve_lines(lines, lookups, k),
    decreases m - k,
{
    if m > k {
        lemma_resolve_lines_err(lines, lookups, k, m - 1);
    }
}


/// A recipe that resolves gives or uses something.
pub proof fn lemma_resolved_recipe_not_empty(p: RecipeParseView, lookups: Seq<ItemLookupView>)
    ensures
        resolve_spec(p, lookups) matches Ok(r) ==> r.ingredients.len() > 0 || r.result.len() > 0,
{
}

/// How many of the first `k` lines are of the given kind.
pub open spec fn kind_count(lines: Seq<RecipeLineView>, kind: RecipeLineKind, k: int) -> nat
    decreases k,
{
    if k <= 0 {
        0
    } else {
        kind_count(lines, kind, k - 1) + if lines[k - 1].kind == kind { 1nat } else { 0nat }
    }
}

proof fn lemma_resolve_lines_found(lines: Seq<RecipeLineView>, lookups: Seq<ItemLookupView>, k: int)
    requires
        0 <= k <= lines.len(),
        lookups.len() == lines.len(),
        forall|i: int| 0 <= i < lookups.len() ==> (#[trigger] lookups[i]) is Found,
    ensures
        resolve_lines(lines, lookups, k) matches Ok(r) && {
            &&& r.result.len() == kind_count(lines, RecipeLineKind::Result, k)
            &&& r.ingredients.len() == kind_count(lines, RecipeLineKind::Ingredient, k)
            &&& r.tools_needed.len() == kind_count(lines, RecipeLineKind::Tool, k)
            &&& recipe_from_lines(r, lines, lookups, k)
        },
    decreases k,
{
    if k > 0 {
        lemma_resolve_lines_found(lines, lookups, k - 1);
        assert(lookups[k - 1] is Found);
        let acc = resolve_lines(lines, lookups, k - 1)->Ok_0;
        let r = resolve_lines(lines, lookups, k)->Ok_0;
        assert forall|j: int| 0 <= j < r.result.len() implies
            exists|i: int| 0 <= i < k && line_gives(lines[i], lookups[i], RecipeLineKind::Result, #[trigger] r.result[j].0, r.result[j].1) by {
            if j < acc.result.len() {
                assert(r.result[j] == acc.result[j]);
            } else {
                assert(line_gives(lines[k - 1], lookups[k - 1], RecipeLineKind::Result, r.result[j].0, r.result[j].1));
            }
        }
        assert forall|j: int| 0 <= j < r.ingredients.len() implies
            exists|i: int| 0 <= i < k && line_gives(lines[i], lookups[i], RecipeLineKind::Ingredient, #[trigger] r.ingredients[j].0, r.ingredients[j].1) by {
            if j < acc.ingredients.len() {
                assert(r.ingredients[j] == acc.ingredients[j]);
            } else {
                assert(line_gives(lines[k - 1], lookups[k - 1], RecipeLineKind::Ingredient, r.ingredients[j].0, r.ingredients[j].1));
            }
        }
        assert forall|j: int| 0 <= j < r.tools_needed.len() implies
            exists|i: int| 0 <= i < k && line_gives(lines[i], lookups[i], RecipeLineKind::Tool, 1, #[trigger] r.tools_needed[j]) by {
            if j < acc.tools_needed.len() {
                assert(r.tools_needed[j] == acc.tools_needed[j]);
            } else {
                assert(line_gives(lines[k - 1], lookups[k - 1], RecipeLineKind::Tool, 1, r.tools_needed[j]));
            }
        }
    }
}

/// The line `l`, whose item was looked up as `lookup`, is of kind `kind` and
/// names the item `id` with the quantity `q` (a tool's is one).
pub open spec fn line_gives(l: RecipeLineView, lookup: ItemLookupView, kind: RecipeLineKind, q: u64, id: DocumentId) -> bool {
    &&& l.kind == kind
    &&& lookup == ItemLookupView::Found(id)
    &&& (kind != RecipeLineKind::Tool ==> l.qty == q)
}

/// Every result, ingredient and tool of `r` comes from a line of its kind
/// among the first `k`, with that line's item and quantity.
pub open spec fn recipe_from_lines(r: ParsedRecipeView, lines: Seq<RecipeLineView>, lookups: Seq<ItemLookupView>, k: int) -> bool {
    &&& forall|j: int| 0 <= j < r.result.len() ==>
        exists|i: int| 0 <= i < k && line_gives(lines[i], lookups[i], RecipeLineKind::Result, #[trigger] r.result[j].0, r.result[j].1)
    &&& forall|j: int| 0 <= j < r.ingredients.len() ==>
        exists|i: int| 0 <= i < k && line_gives(lines[i], lookups[i], RecipeLineKind::Ingredient, #[trigger] r.ingredients[j].0, r.ingredients[j].1)
    &&& forall|j: int| 0 <= j < r.tools_needed.len() ==>
        exists|i: int| 0 <= i < k && line_gives(lines[i], lookups[i], RecipeLineKind::Tool, 1, #[trigger] r.tools_needed[j])
}

proof fn lemma_kind_count_some(lines: Seq<RecipeLineView>, kind: RecipeLineKind, k: int)
    requires
        0 <= k <= lines.len(),
    ensures
        kind_count(lines, kind, k) > 0 <==> exists|i: int| 0 <= i < k && (#[trigger] lines[i]).kind == kind,
    decreases k,
{
    if k > 0 {
        lemma_kind_count_some(lines, kind, k - 1);
        if kind_count(lines, kind, k - 1) > 0 {
            let i = choose|i: int| 0 <= i < k - 1 && (#[trigger] lines[i]).kind == kind;
            assert(lines[i].kind == kind);
        }
        if lines[k - 1].kind == kind {
            assert(lines[k - 1].kind == kind);
        }
    }
}

/// A recipe read without a stop, whose every item is found, resolves
/// exactly when some line gives or uses an item (a tool alone does not
/// make a recipe); it then gives one result per result line, uses one
/// ingredient per ingredient line and needs one tool per tool line, each
/// with the item found for a line of its kind and that line's quantity.
pub proof fn lemma_found_recipe_resolves(p: RecipeParseView, lookups: Seq<ItemLookupView>)
    requires
        p.stop is None,
        lookups.len() == p.lines.len(),
        forall|i: int| 0 <= i < lookups.len() ==> (#[trigger] lookups[i]) is Found,
    ensures
        resolve_spec(p, lookups) is Ok <==> exists|i: int| 0 <= i < p.lines.len() && (#[trigger] p.lines[i]).kind != RecipeLineKind::Tool,
        resolve_spec(p, lookups) matches Ok(r) ==> {
            &&& r.result.len() == kind_count(p.lines, RecipeLineKind::Result, p.lines.len() as int)
            &&& r.ingredients.len() == kind_count(p.lines, RecipeLineKind::Ingredient, p.lines.len() as int)
            &&& r.tools_needed.len() == kind_count(p.lines, RecipeLineKind::Tool, p.lines.len() as int)
            &&& recipe_from_lines(r, p.lines, lookups, p.lines.len() as int)
        },
{
    let n = p.lines.len() as int;
    lemma_resolve_lines_found(p.lines, lookups, n);
    lemma_kind_count_some(p.lines, RecipeLineKind::Result, n);
    lemma_kind_count_some(p.lines, RecipeLineKind::Ingredient, n);
    if exists|i: int| 0 <= i < n && (#[trigger] p.lines[i]).kind != RecipeLineKind::Tool {
        let i = choose|i: int| 0 <= i < n && (#[trigger] p.lines[i]).kind != RecipeLineKind::Tool;
        assert(p.lines[i].kind == RecipeLineKind::Result || p.lines[i].kind == RecipeLineKind::Ingredient);
    } else {
        if kind_count(p.lines, RecipeLineKind::Result, n) > 0 {
            let i = choose|i: int| 0 <= i < n && (#[trigger] p.lines[i]).kind == RecipeLineKind::Result;
            assert(p.lines[i].kind != RecipeLineKind::Tool);
        }
        if kind_count(p.lines, RecipeLineKind::Ingredient, n) > 0 {
            let i = choose|i: int| 0 <= i < n && (#[trigger] p.lines[i]).kind == RecipeLineKind::Ingredient;
            assert(p.lines[i].kind != RecipeLineKind::Tool);
        }
    }
}

proof fn lemma_join_len(ws: Seq<Seq<char>>, sep: char)
    requires
        ws.len() > 0,
    ensures
        join_with(ws, sep).len() >= ws[0].len(),
    decreases ws.len(),
{
    if ws.len() > 1 {
        lemma_join_len(ws.drop_last(), sep);
        assert(ws.drop_last()[0] == ws[0]);
    }
}

/// A line that reads gives a name that is not empty, and a quantity of one
/// unless a number follows the name.
pub proof fn lemma_parsed_line_has_name(content: Seq<char>)
    ensures
        parse_line_spec(content) matches Ok((name, qty)) ==> name.len() > 0,
{
    reveal(Seq::filter);
    let ws = words(content);
    if ws.len() > 0 {
        crate::text::lemma_split_at_ws_nonempty(content);
        let all = crate::text::split_at_ws(content);
        all.lemma_filter_pred(crate::text::nonempty_pred(), 0);
        assert(ws[0].len() > 0);
        lemma_join_len(ws, ' ');
        if ws.len() > 1 {
            lemma_join_len(ws.drop_last(), ' ');
            assert(ws.drop_last()[0] == ws[0]);
        }
    }
}

} // verus!
