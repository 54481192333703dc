use vstd::prelude::*;

use crate::ident::{identifier_at_offset, ident_view, identifier_at, token_end, Ident};
use crate::text::{chars_of, has_prefix, is_whitespace, starts_with, substring, white_space, word_char};

verus! {

broadcast use vstd::seq_lib::group_seq_properties;

/// The kind of a top-level declaration.
#[derive(Clone, Copy, Debug, PartialEq, Eq, Hash, Structural)]
pub enum HareKind {
    Type,
    Fn,
    Def,
    Var,
}

/// A zero-based line and character offset.
#[derive(Clone, Copy, Debug, PartialEq, Eq, Hash, Structural)]
pub struct Position {
    pub line: u32,
    pub character: u32,
}

/// A half-open span `[start, end)` of positions.
#[derive(Clone, Copy, Debug, PartialEq, Eq, Hash, Structural)]
pub struct Range {
    pub start: Position,
    pub end: Position,
}

/// A declaration site: its kind, its name, the range of the name token, and
/// whether it was declared with `export`.
#[derive(Clone, Debug)]
pub struct HareItem {
    pub kind: HareKind,
    pub name: String,
    pub range: Range,
    pub exported: bool,
}

/// A declaration site, with its name as characters.
pub struct ItemView {
    pub kind: HareKind,
    pub name: Seq<char>,
    pub range: Range,
    pub exported: bool,
}

impl View for HareItem {
    type V = ItemView;

    open spec fn view(&self) -> ItemView {
        ItemView { kind: self.kind, name: self.name@, range: self.range, exported: self.exported }
    }
}

impl PartialEq for HareItem {
    fn eq(&self, o: &HareItem) -> (r: bool) {
        self.kind == o.kind && self.name == o.name && self.range == o.range && self.exported
            == o.exported
    }
}

impl vstd::std_specs::cmp::PartialEqSpecImpl for HareItem {
    open spec fn obeys_eq_spec() -> bool {
        true
    }

    open spec fn eq_spec(&self, o: &HareItem) -> bool {
        self@ == o@
    }
}

/// The number of entries in the declaration table.
pub const PREFIX_COUNT: usize = 10;

/// The declaration table, in the order in which it is tried: the text a
/// declaration line begins with, whether it is an export form, and the kind
/// it declares.
pub open spec fn prefix_entry(p: int) -> (Seq<char>, bool, HareKind) {
    if p == 0 {
        ("export type"@, true, HareKind::Type)
    } else if p == 1 {
        ("export fn"@, true, HareKind::Fn)
    } else if p == 2 {
        ("export def"@, true, HareKind::Def)
    } else if p == 3 {
        ("export let"@, true, HareKind::Var)
    } else if p == 4 {
        ("export const"@, true, HareKind::Var)
    } else if p == 5 {
        ("type"@, false, HareKind::Type)
    } else if p == 6 {
        ("fn"@, false, HareKind::Fn)
    } else if p == 7 {
        ("def"@, false, HareKind::Def)
    } else if p == 8 {
        ("let"@, false, HareKind::Var)
    } else {
        ("const"@, false, HareKind::Var)
    }
}

/// Entry `p` of the declaration table.
pub fn prefix_at(p: usize) -> (r: (&'static str, bool, HareKind))
    requires
        p < PREFIX_COUNT,
    ensures
        (r.0@, r.1, r.2) == prefix_entry(p as int),
{
    match p {
        0 => ("export type", true, HareKind::Type),
        1 => ("export fn", true, HareKind::Fn),
        2 => ("export def", true, HareKind::Def),
        3 => ("export let", true, HareKind::Var),
        4 => ("export const", true, HareKind::Var),
        5 => ("type", false, HareKind::Type),
        6 => ("fn", false, HareKind::Fn),
        7 => ("def", false, HareKind::Def),
        8 => ("let", false, HareKind::Var),
        _ => ("const", false, HareKind::Var),
    }
}

/// The first offset at or after `i` that is not white space.
pub open spec fn skip_white(s: Seq<char>, i: int) -> int
    decreases s.len() - i,
{
    if 0 <= i < s.len() && white_space(s[i]) {
        skip_white(s, i + 1)
    } else {
        i
    }
}

/// Where a name read at `start..end`, after a prefix that ends at `prefix_end`,
/// first occurs after the prefix: an empty name occurs right at the end of the
/// prefix, any other at `start`, since white space holds no name character.
pub open spec fn name_column(prefix_end: int, start: int, end: int) -> int {
    if start == end {
        prefix_end
    } else {
        start
    }
}

/// The declaration that entry `p` of the table finds on line number `k`,
/// whose text is `line`: the name is the run of name characters after the
/// prefix and any white space, and the range covers the name where it first
/// occurs after the prefix.
pub open spec fn line_symbol(k: int, line: Seq<char>, p: int) -> Option<ItemView> {
    let (text, exported, kind) = prefix_entry(p);
    if has_prefix(line, text) {
        let start = skip_white(line, text.len() as int);
        let end = token_end(line, start);
        let col = name_column(text.len() as int, start, end);
        Some(
            ItemView {
                kind,
                name: line.subrange(start, end),
                range: Range {
                    start: Position { line: k as u32, character: col as u32 },
                    end: Position { line: k as u32, character: (col + (end - start)) as u32 },
                },
                exported,
            },
        )
    } else {
        None
    }
}

/// Every declaration found on lines `0..k`, and on line `k` by table entries `0..p`.
pub open spec fn symbols_before(lines: Seq<Seq<char>>, k: int, p: int) -> Set<ItemView> {
    Set::new(
        |v: ItemView|
            exists|kb: int, pb: int|
                0 <= kb < lines.len() && 0 <= pb < PREFIX_COUNT && (kb < k || (kb == k && pb < p))
                    && line_symbol(kb, lines[kb], pb) == Some(v),
    )
}

/// Every declaration found in `lines`.
pub open spec fn symbol_set(lines: Seq<Seq<char>>) -> Set<ItemView> {
    Set::new(
        |v: ItemView|
            exists|k: int, p: int|
                0 <= k < lines.len() && 0 <= p < PREFIX_COUNT && line_symbol(k, lines[k], p)
                    == Some(v),
    )
}

/// Lines, and their lengths, small enough for every position to fit in `u32`.
pub open spec fn fits_positions(lines: Seq<Seq<char>>) -> bool {
    lines.len() <= u32::MAX && forall|k: int| 0 <= k < lines.len() ==> #[trigger] lines[k].len() <= u32::MAX
}

/// Whether `lines` is small enough for every position in it to fit in `u32`.
pub fn positions_fit(lines: &[String]) -> (r: bool)
    ensures
        r == fits_positions(lines_view(lines@)),
{
    if lines.len() > 0xffff_ffff {
        return false;
    }
    let mut k: usize = 0;
    while k < lines.len()
        invariant
            lines.len() <= u32::MAX,
            k <= lines.len(),
            forall|j: int| 0 <= j < k ==> #[trigger] lines_view(lines@)[j].len() <= u32::MAX,
        decreases lines.len() - k,
    {
        if lines[k].as_str().unicode_len() > 0xffff_ffff {
            assert(lines_view(lines@)[k as int].len() > u32::MAX);
            return false;
        }
        k = k + 1;
    }
    true
}

/// The text of each line.
pub open spec fn lines_view(lines: Seq<String>) -> Seq<Seq<char>> {
    lines.map_values(|l: String| l@)
}

/// The declaration sites, as views.
pub open spec fn items_view(items: Seq<HareItem>) -> Seq<ItemView> {
    items.map_values(|i: HareItem| i@)
}

/// The declaration that table entry `p` finds on line `k`.
fn symbol_on_line(k: usize, line: &String, p: usize) -> (r: Option<HareItem>)
    requires
        k <= u32::MAX,
        line@.len() <= u32::MAX,
        p < PREFIX_COUNT,
    ensures
        r matches Some(item) ==> line_symbol(k as int, line@, p as int) == Some(item@),
        r is None ==> line_symbol(k as int, line@, p as int) is None,
{
    let (text, exported, kind) = prefix_at(p);
    let cs = chars_of(line.as_str());
    if !starts_with(&cs, text) {
        return None;
    }
    let mut start: usize = text.unicode_len();
    assert(skip_white(cs@, start as int) == skip_white(cs@, text@.len() as int));
    while start < cs.len() && is_whitespace(cs[start])
        invariant
            cs@ == line@,
            start <= cs.len(),
            skip_white(cs@, start as int) == skip_white(cs@, text@.len() as int),
        decreases cs.len() - start,
    {
        start = start + 1;
    }
    let mut end: usize = start;
    while end < cs.len() && word_char(cs[end])
        invariant
            cs@ == line@,
            start <= end <= cs.len(),
            token_end(cs@, end as int) == token_end(cs@, start as int),
        decreases cs.len() - end,
    {
        end = end + 1;
    }
    let name = substring(line.as_str(), start, end);
    let col: usize = if start == end { text.unicode_len() } else { start };
    let range = Range {
        start: Position { line: k as u32, character: col as u32 },
        end: Position { line: k as u32, character: (col + (end - start)) as u32 },
    };
    Some(HareItem { kind, name, range, exported })
}

proof fn lemma_symbols_step(lines: Seq<Seq<char>>, k: int, p: int)
    requires
        0 <= k < lines.len(),
        0 <= p < PREFIX_COUNT,
    ensures
        symbols_before(lines, k, p + 1) == (match line_symbol(k, lines[k], p) {
            Some(v) => symbols_before(lines, k, p).insert(v),
            None => symbols_before(lines, k, p),
        }),
{
    match line_symbol(k, lines[k], p) {
        Some(v) => {
            assert forall|w: ItemView|
                symbols_before(lines, k, p + 1).contains(w) <==> #[trigger] symbols_before(
                    lines,
                    k,
                    p,
                ).insert(v).contains(w) by {
                if w == v {
                    assert(line_symbol(k, lines[k], p) == Some(w));
                }
            }
            assert(symbols_before(lines, k, p + 1) =~= symbols_before(lines, k, p).insert(v));
        },
        None => {
            assert(symbols_before(lines, k, p + 1) =~= symbols_before(lines, k, p));
        },
    }
}

/// Whether `items` already holds `item`.
pub(crate) fn contains_item(items: &Vec<HareItem>, item: &HareItem) -> (r: bool)
    ensures
        r == items_view(items@).contains(item@),
{
    let mut i: usize = 0;
    while i < items.len()
        invariant
            i <= items.len(),
            forall|j: int| 0 <= j < i ==> items@[j]@ != item@,
        decreases items.len() - i,
    {
        if items[i] == *item {
            assert(items_view(items@)[i as int] == item@);
            return true;
        }
        i = i + 1;
    }
    false
}

/// The declarations of a file, each once: every line is tried against every
/// entry of the declaration table.
pub fn parse_items(doc_lines: &[String]) -> (r: Vec<HareItem>)
    requires
        fits_positions(lines_view(doc_lines@)),
    ensures
        items_view(r@).to_set() == symbol_set(lines_view(doc_lines@)),
        items_view(r@).no_duplicates(),
{
    let ghost lines = lines_view(doc_lines@);
    let mut out: Vec<HareItem> = Vec::new();
    let mut ln: usize = 0;
    assert(items_view(out@).to_set() =~= symbols_before(lines, 0, 0));
    while ln < doc_lines.len()
        invariant
            lines == lines_view(doc_lines@),
            fits_positions(lines),
            ln <= doc_lines.len(),
            items_view(out@).to_set() == symbols_before(lines, ln as int, 0),
            items_view(out@).no_duplicates(),
        decreases doc_lines.len() - ln,
    {
        let mut p: usize = 0;
        while p < PREFIX_COUNT
            invariant
                lines == lines_view(doc_lines@),
                fits_positions(lines),
                ln < doc_lines.len(),
                p <= PREFIX_COUNT,
                items_view(out@).to_set() == symbols_before(lines, ln as int, p as int),
                items_view(out@).no_duplicates(),
            decreases PREFIX_COUNT - p,
        {
            assert(lines[ln as int] == doc_lines@[ln as int]@);
            let found = symbol_on_line(ln, &doc_lines[ln], p);
            let ghost before = items_view(out@);
            proof {
                lemma_symbols_step(lines, ln as int, p as int);
            }
            match found {
                Some(item) => {
                    if !contains_item(&out, &item) {
                        out.push(item);
                        assert(items_view(out@) =~= before.push(item@));
                    } else {
                        assert(before.to_set().insert(item@) =~= before.to_set());
                    }
                },
                None => {
                    assert(items_view(out@).to_set() =~= symbols_before(lines, ln as int, p + 1));
                },
            }
            p = p + 1;
        }
        assert(symbols_before(lines, ln as int, PREFIX_COUNT as int) =~= symbols_before(lines, ln + 1, 0));
        ln = ln + 1;
    }
    assert(symbols_before(lines, ln as int, 0) =~= symbol_set(lines));
    out
}

/// The first offset at or after `i` where `c` stands in `s`, or `s.len()`.
pub open spec fn find_char(s: Seq<char>, c: char, i: int) -> int
    decreases s.len() - i,
{
    if i >= s.len() {
        s.len() as int
    } else if s[i] == c {
        i
    } else {
        find_char(s, c, i + 1)
    }
}

/// The identifier that a `use` line imports: the text between the keyword and
/// the first `;`, scanned from the character just before the `;`. A line
/// without `;` imports nothing.
pub open spec fn line_import(line: Seq<char>) -> Option<Seq<Seq<char>>> {
    if has_prefix(line, "use"@) {
        let rest = line.subrange(3, line.len() as int);
        let end = find_char(rest, ';', 0);
        if end < rest.len() {
            Some(identifier_at(rest.subrange(0, end), if end > 0 { end - 1 } else { 0 }))
        } else {
            None
        }
    } else {
        None
    }
}

/// Every identifier imported by `lines[0..k]`.
pub open spec fn imports_before(lines: Seq<Seq<char>>, k: int) -> Set<Seq<Seq<char>>> {
    Set::new(
        |x: Seq<Seq<char>>|
            exists|j: int| 0 <= j < k && j < lines.len() && line_import(lines[j]) == Some(x),
    )
}

/// Every identifier imported by `lines`.
pub open spec fn import_set(lines: Seq<Seq<char>>) -> Set<Seq<Seq<char>>> {
    imports_before(lines, lines.len() as int)
}

/// The identifiers, as views.
pub open spec fn idents_view(ids: Seq<Ident>) -> Seq<Seq<Seq<char>>> {
    ids.map_values(|i: Ident| ident_view(&i))
}

proof fn lemma_find_char_bound(s: Seq<char>, c: char, i: int)
    requires
        0 <= i <= s.len(),
    ensures
        i <= find_char(s, c, i) <= s.len(),
    decreases s.len() - i,
{
    if i < s.len() && s[i] != c {
        lemma_find_char_bound(s, c, i + 1);
    }
}

/// The identifier that `line` imports, if it is a complete `use` statement.
fn import_on_line(line: &String) -> (r: Option<Ident>)
    ensures
        r matches Some(id) ==> line_import(line@) == Some(ident_view(&id)),
        r is None ==> line_import(line@) is None,
{
    let cs = chars_of(line.as_str());
    if !starts_with(&cs, "use") {
        return None;
    }
    proof {
        reveal_strlit("use");
    }
    let ghost rest = cs@.subrange(3, cs@.len() as int);
    let mut i: usize = 3;
    while i < cs.len() && cs[i] != ';'
        invariant
            cs@ == line@,
            3 <= i <= cs.len(),
            rest == cs@.subrange(3, cs@.len() as int),
            find_char(rest, ';', i - 3) == find_char(rest, ';', 0),
        decreases cs.len() - i,
    {
        assert(rest[i - 3] == cs@[i as int]);
        i = i + 1;
    }
    if i == cs.len() {
        return None;
    }
    let end = i - 3;
    let body = line.as_str().substring_char(3, i);
    assert(body@ == rest.subrange(0, end as int));
    let at: usize = if end > 0 { end - 1 } else { 0 };
    assert(cs@[i as int] == rest[end as int]);
    let id = identifier_at_offset(body, at);
    Some(id)
}

/// Whether `ids` already holds `id`.
pub(crate) fn contains_ident(ids: &Vec<Ident>, id: &Ident) -> (r: bool)
    ensures
        r == idents_view(ids@).contains(ident_view(id)),
{
    let mut i: usize = 0;
    while i < ids.len()
        invariant
            i <= ids.len(),
            forall|j: int| 0 <= j < i ==> ident_view(&ids@[j]) != ident_view(id),
        decreases ids.len() - i,
    {
        if same_ident(&ids[i], id) {
            assert(idents_view(ids@)[i as int] == ident_view(id));
            return true;
        }
        i = i + 1;
    }
    false
}

/// Whether two identifiers have the same segments.
pub fn same_ident(a: &Ident, b: &Ident) -> (r: bool)
    ensures
        r == (ident_view(a) == ident_view(b)),
{
    if a.len() != b.len() {
        assert(ident_view(a).len() != ident_view(b).len());
        return false;
    }
    let mut i: usize = 0;
    while i < a.len()
        invariant
            a.len() == b.len(),
            i <= a.len(),
            forall|j: int| 0 <= j < i ==> a@[j]@ == b@[j]@,
        decreases a.len() - i,
    {
        if a[i] != b[i] {
            assert(ident_view(a)[i as int] != ident_view(b)[i as int]);
            return false;
        }
        i = i + 1;
    }
    assert(ident_view(a) =~= ident_view(b));
    true
}

/// The identifiers that a file imports, each once.
pub fn get_imports(source: &[String]) -> (r: Vec<Ident>)
    ensures
        idents_view(r@).to_set() == import_set(lines_view(source@)),
        idents_view(r@).no_duplicates(),
{
    let ghost lines = lines_view(source@);
    let mut out: Vec<Ident> = Vec::new();
    let mut k: usize = 0;
    assert(idents_view(out@).to_set() =~= imports_before(lines, 0));
    while k < source.len()
        invariant
            lines == lines_view(source@),
            k <= source.len(),
            idents_view(out@).to_set() == imports_before(lines, k as int),
            idents_view(out@).no_duplicates(),
        decreases source.len() - k,
    {
        assert(lines[k as int] == source@[k as int]@);
        let found = import_on_line(&source[k]);
        let ghost before = idents_view(out@);
        match found {
            Some(id) => {
                let ghost v = ident_view(&id);
                if !contains_ident(&out, &id) {
                    out.push(id);
                    assert(idents_view(out@) =~= before.push(v));
                } else {
                    assert(before.to_set().insert(v) =~= before.to_set());
                }
                assert forall|x: Seq<Seq<char>>|
                    imports_before(lines, k + 1).contains(x) <==> #[trigger] imports_before(
                        lines,
                        k as int,
                    ).insert(v).contains(x) by {
                    if x == v {
                        assert(line_import(lines[k as int]) == Some(x));
                    }
                }
                assert(imports_before(lines, k + 1) =~= imports_before(lines, k as int).insert(v));
            },
            None => {
                assert(imports_before(lines, k + 1) =~= imports_before(lines, k as int));
            },
        }
        k = k + 1;
    }
    out
}

/// Where the unbroken run of `//` lines that ends just above line `i` begins.
pub open spec fn comment_run_start(lines: Seq<Seq<char>>, i: int) -> int
    decreases i,
{
    if 0 < i <= lines.len() && has_prefix(lines[i - 1], "//"@) {
        comment_run_start(lines, i - 1)
    } else {
        i
    }
}

/// Lines `a..b` without their first two characters, each followed by a newline.
pub open spec fn doc_text(lines: Seq<Seq<char>>, a: int, b: int) -> Seq<char>
    decreases b - a,
{
    if b <= a {
        Seq::empty()
    } else {
        doc_text(lines, a, b - 1) + lines[b - 1].subrange(2, lines[b - 1].len() as int) + seq!['\n']
    }
}

/// The documentation of a declaration on line `l`: the comment lines right
/// above it with their `//` removed, or nothing when the line above is no
/// comment.
pub open spec fn documentation(lines: Seq<Seq<char>>, l: int) -> Option<Seq<char>> {
    let s = comment_run_start(lines, l);
    if s < l {
        Some(doc_text(lines, s, l))
    } else {
        None
    }
}

/// Each declaration of a well-formed document lies on one of its lines.
pub proof fn lemma_item_within(d: Document, j: int)
    requires
        d.wf(),
        0 <= j < d.items@.len(),
    ensures
        d.items@[j].range.start.line < d.lines@.len(),
        d.items@[j].range.start.line == d.items@[j].range.end.line,
        d.items@[j].range.start.character <= d.items@[j].range.end.character <= d.line_texts()[
            d.items@[j].range.start.line as int
        ].len(),
{
    let lines = d.line_texts();
    let v = items_view(d.items@)[j];
    assert(items_view(d.items@).to_set().contains(v));
    assert(symbol_set(lines).contains(v));
    let (k, p) = choose|k: int, p: int|
        0 <= k < lines.len() && 0 <= p < PREFIX_COUNT && line_symbol(k, lines[k], p) == Some(v);
    let text = prefix_entry(p).0;
    lemma_skip_white_bounds(lines[k], text.len() as int);
    let start = skip_white(lines[k], text.len() as int);
    crate::ident::lemma_token_end_bounds(lines[k], start);
    assert(lines[k].len() <= u32::MAX);
}

proof fn lemma_skip_white_bounds(s: Seq<char>, i: int)
    requires
        0 <= i <= s.len(),
    ensures
        i <= skip_white(s, i) <= s.len(),
    decreases s.len() - i,
{
    if i < s.len() && white_space(s[i]) {
        lemma_skip_white_bounds(s, i + 1);
    }
}

/// Whatever line a declaration comes from, it is marked exported exactly when
/// that line begins with `export `: export forms give `true`, bare forms `false`.
pub proof fn lemma_exported_iff_export_form(lines: Seq<Seq<char>>, v: ItemView)
    requires
        fits_positions(lines),
        symbol_set(lines).contains(v),
    ensures
        v.range.start.line < lines.len(),
        v.exported == has_prefix(lines[v.range.start.line as int], "export "@),
{
    let (k, p) = choose|k: int, p: int|
        0 <= k < lines.len() && 0 <= p < PREFIX_COUNT && line_symbol(k, lines[k], p) == Some(v);
    let line = lines[k];
    let text = prefix_entry(p).0;
    reveal_strlit("export ");
    reveal_strlit("export type");
    reveal_strlit("export fn");
    reveal_strlit("export def");
    reveal_strlit("export let");
    reveal_strlit("export const");
    reveal_strlit("type");
    reveal_strlit("fn");
    reveal_strlit("def");
    reveal_strlit("let");
    reveal_strlit("const");
    assert(line.subrange(0, text.len() as int) == text);
    if p < 5 {
        assert(line.subrange(0, 7) =~= text.subrange(0, 7));
        assert(text.subrange(0, 7) =~= "export "@);
    } else {
        assert(line[0] == text[0]);
        assert(line[0] != 'e');
        if line.len() >= 7 {
            assert(line.subrange(0, 7)[0] != "export "@[0]);
        }
    }
}

/// The text that a declaration's range covers on its line is the declared
/// name itself.
pub proof fn lemma_range_covers_name(lines: Seq<Seq<char>>, v: ItemView)
    requires
        fits_positions(lines),
        symbol_set(lines).contains(v),
    ensures
        v.range.start.line == v.range.end.line,
        v.range.start.line < lines.len(),
        v.range.start.character <= v.range.end.character <= lines[v.range.start.line as int].len(),
        lines[v.range.start.line as int].subrange(
            v.range.start.character as int,
            v.range.end.character as int,
        ) == v.name,
{
    let (k, p) = choose|k: int, p: int|
        0 <= k < lines.len() && 0 <= p < PREFIX_COUNT && line_symbol(k, lines[k], p) == Some(v);
    let text = prefix_entry(p).0;
    lemma_skip_white_bounds(lines[k], text.len() as int);
    let start = skip_white(lines[k], text.len() as int);
    crate::ident::lemma_token_end_bounds(lines[k], start);
    assert(lines[k].len() <= u32::MAX);
}

/// A declaration whose line is the first of the file, or follows a line that
/// is no `//` comment, has no documentation, whatever comments stand higher up.
pub proof fn lemma_no_comment_above(lines: Seq<Seq<char>>, l: int)
    requires
        0 <= l <= lines.len(),
        l == 0 || !has_prefix(lines[l - 1], "//"@),
    ensures
        documentation(lines, l) is None,
{
}

/// A source file: its lines, the identifiers it imports and the declarations
/// it makes, the last two derived from the first.
pub struct Document {
    pub lines: Vec<String>,
    pub imports: Vec<Ident>,
    pub items: Vec<HareItem>,
}

impl Document {
    /// The text of each line.
    pub open spec fn line_texts(&self) -> Seq<Seq<char>> {
        lines_view(self.lines@)
    }

    /// The imports and declarations are exactly those the lines hold, each once.
    pub open spec fn wf(&self) -> bool {
        &&& fits_positions(self.line_texts())
        &&& items_view(self.items@).to_set() == symbol_set(self.line_texts())
        &&& items_view(self.items@).no_duplicates()
        &&& idents_view(self.imports@).to_set() == import_set(self.line_texts())
        &&& idents_view(self.imports@).no_duplicates()
    }

    /// The document made of `lines`.
    pub fn new(lines: Vec<String>) -> (r: Self)
        requires
            fits_positions(lines_view(lines@)),
        ensures
            r.wf(),
            r.lines@ == lines@,
    {
        let items = parse_items(lines.as_slice());
        let imports = get_imports(lines.as_slice());
        Document { lines, imports, items }
    }

    /// The documentation of `item`, taken from the comment lines right above
    /// its declaration.
    pub fn get_documentation(&self, item: &HareItem) -> (r: Option<String>)
        requires
            item.range.start.line <= self.lines.len(),
        ensures
            r matches Some(d) ==> documentation(self.line_texts(), item.range.start.line as int)
                == Some(d@),
            r is None ==> documentation(self.line_texts(), item.range.start.line as int) is None,
    {
        let ghost lines = self.line_texts();
        let item_line = item.range.start.line as usize;
        let mut start: usize = item_line;
        loop
            invariant
                lines == self.line_texts(),
                start <= item_line <= lines.len(),
                comment_run_start(lines, start as int) == comment_run_start(lines, item_line as int),
                forall|j: int| start <= j < item_line ==> #[trigger] lines[j].len() >= 2,
            ensures
                start == comment_run_start(lines, item_line as int),
                forall|j: int| start <= j < item_line ==> #[trigger] lines[j].len() >= 2,
            decreases start,
        {
            if start == 0 {
                break;
            }
            assert(lines[start - 1] == self.lines@[start - 1]@);
            let cs = chars_of(self.lines[start - 1].as_str());
            if !starts_with(&cs, "//") {
                break;
            }
            proof {
                reveal_strlit("//");
            }
            start = start - 1;
        }
        if start == item_line {
            return None;
        }
        let mut out = String::new();
        let mut j: usize = start;
        while j < item_line
            invariant
                lines == self.line_texts(),
                start <= j <= item_line <= lines.len(),
                forall|j: int| start <= j < item_line ==> #[trigger] lines[j].len() >= 2,
                out@ == doc_text(lines, start as int, j as int),
            decreases item_line - j,
        {
            let line = &self.lines[j];
            assert(lines[j as int] == line@);
            let n = line.as_str().unicode_len();
            let piece = line.as_str().substring_char(2, n);
            proof {
                reveal_strlit("\n");
            }
            out.append(piece);
            out.append("\n");
            assert(out@ =~= doc_text(lines, start as int, j + 1));
            j = j + 1;
        }
        Some(out)
    }
}

} // verus!
