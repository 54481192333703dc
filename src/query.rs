use vstd::prelude::*;

use crate::doc::{
    documentation, lemma_no_comment_above, idents_view, items_view, lemma_item_within, Document, HareItem, HareKind,
    ItemView, Position, Range,
};
use crate::ident::{ident_view, identifier_at, identifier_at_offset, Ident};
use crate::module::{import_matches, module_of_ident, qualifies, resolved_path, target_module};
use crate::path::{
    components, is_build_tag, is_normal, is_source_file, is_source_path, lemma_build_tag_parent,
    module_from_path, module_of_path,
};
use crate::store::{path_less, position_of, DocStore};
use crate::text::has_prefix;

verus! {

broadcast use vstd::seq_lib::group_seq_properties;

/// A place in a file: its path and a range in it.
pub struct Location {
    pub path: String,
    pub range: Range,
}

/// A place in a file, with its path as characters.
pub struct LocationView {
    pub path: Seq<char>,
    pub range: Range,
}

impl View for Location {
    type V = LocationView;

    open spec fn view(&self) -> LocationView {
        LocationView { path: self.path@, range: self.range }
    }
}

/// The answer to a definition query: one place, or a list of any other length.
pub enum DefinitionResponse {
    Scalar(Location),
    Array(Vec<Location>),
}

/// The places a definition response holds, in order.
pub open spec fn response_locations(r: DefinitionResponse) -> Seq<LocationView> {
    match r {
        DefinitionResponse::Scalar(l) => seq![l@],
        DefinitionResponse::Array(v) => v@.map_values(|l: Location| l@),
    }
}

/// The answer to a hover query: documentation, and the range of the name it
/// documents.
pub struct Hover {
    pub contents: String,
    pub range: Range,
}

/// One completion candidate.
pub struct CompletionItem {
    pub label: String,
    pub kind: HareKind,
    pub documentation: Option<String>,
}

/// One completion candidate, with its texts as characters.
pub struct CompletionView {
    pub label: Seq<char>,
    pub kind: HareKind,
    pub documentation: Option<Seq<char>>,
}

impl View for CompletionItem {
    type V = CompletionView;

    open spec fn view(&self) -> CompletionView {
        CompletionView {
            label: self.label@,
            kind: self.kind,
            documentation: match self.documentation {
                Some(d) => Some(d@),
                None => None,
            },
        }
    }
}

/// A declaration that `id` may name: the name is the last segment, and only
/// a local reference sees declarations that are not exported.
pub open spec fn item_matches(v: ItemView, id: Seq<Seq<char>>, local: bool) -> bool {
    id.len() >= 1 && v.name == id.last() && (local || v.exported)
}

/// A reference to the current module's own declarations: a single segment
/// that no import qualifies.
pub open spec fn is_local(id: Seq<Seq<char>>, imps: Seq<Seq<Seq<char>>>) -> bool {
    id.len() == 1 && forall|k: int| 0 <= k < imps.len() ==> !import_matches(#[trigger] imps[k], id)
}

/// A source file of module `m`.
pub open spec fn in_module(p: Seq<char>, m: Seq<char>) -> bool {
    is_source_path(p) && module_of_path(p) == Some(m)
}

/// The indices of the first `i` entries that are source files of module `m`;
/// in a well-formed store, that is the order of their paths.
pub open spec fn module_indices(entries: Seq<(String, Document)>, m: Seq<char>, i: int) -> Seq<int>
    decreases i,
{
    if i <= 0 {
        Seq::empty()
    } else {
        module_indices(entries, m, i - 1) + (if in_module(entries[i - 1].0@, m) {
            seq![i - 1]
        } else {
            Seq::empty()
        })
    }
}

proof fn lemma_module_indices_contains(entries: Seq<(String, Document)>, m: Seq<char>, i: int, k: int)
    requires
        0 <= i < k <= entries.len(),
        in_module(entries[i].0@, m),
    ensures
        module_indices(entries, m, k).contains(i),
    decreases k,
{
    if i == k - 1 {
        assert(module_indices(entries, m, k).last() == i);
    } else {
        lemma_module_indices_contains(entries, m, i, k - 1);
        let prev = module_indices(entries, m, k - 1);
        let j = choose|j: int| 0 <= j < prev.len() && #[trigger] prev[j] == i;
        assert(module_indices(entries, m, k)[j] == i);
    }
}

/// A stored source file whose directory is a build-tag directory is one of
/// the files of the module above that directory, so queries into that module
/// see its declarations.
pub proof fn lemma_build_tag_file_in_module(store: DocStore, i: int)
    requires
        0 <= i < store.entries@.len(),
        is_source_path(store.entries@[i].0@),
        components(store.entries@[i].0@).len() >= 3,
        is_build_tag(components(store.entries@[i].0@)[components(store.entries@[i].0@).len() - 2]),
        is_normal(components(store.entries@[i].0@)[components(store.entries@[i].0@).len() - 3]),
    ensures
        module_indices(
            store.entries@,
            components(store.entries@[i].0@)[components(store.entries@[i].0@).len() - 3],
            store.entries@.len() as int,
        ).contains(i),
{
    let p = store.entries@[i].0@;
    lemma_build_tag_parent(p);
    lemma_module_indices_contains(
        store.entries@,
        components(p)[components(p).len() - 3],
        i,
        store.entries@.len() as int,
    );
}

/// The identifier under the cursor at `pos` in the file `path`, the module
/// it refers into, and whether it is a local reference; nothing when the file is not stored, the position
/// lies outside its text, or the file has no directory above it.
pub open spec fn cursor_target(store: DocStore, path: Seq<char>, pos: Position) -> Option<
    (Seq<Seq<char>>, Seq<char>, bool),
> {
    let i = position_of(store.paths(), path);
    if i < store.entries@.len() {
        let doc = store.entries@[i].1;
        let lines = doc.line_texts();
        let l = pos.line as int;
        let c = pos.character as int;
        if l < lines.len() && c <= lines[l].len() {
            match module_of_path(path) {
                Some(cur) => {
                    let id = identifier_at(lines[l], c);
                    let imps = idents_view(doc.imports@);
                    Some((id, target_module(resolved_path(cur, id, imps)), is_local(id, imps)))
                },
                None => None,
            }
        } else {
            None
        }
    } else {
        None
    }
}

/// The places of the first `j` declarations of a file that `id` may name.
pub open spec fn doc_locations(
    p: Seq<char>,
    items: Seq<ItemView>,
    id: Seq<Seq<char>>,
    local: bool,
    j: int,
) -> Seq<LocationView>
    decreases j,
{
    if j <= 0 {
        Seq::empty()
    } else {
        doc_locations(p, items, id, local, j - 1) + (if item_matches(items[j - 1], id, local) {
            seq![LocationView { path: p, range: items[j - 1].range }]
        } else {
            Seq::empty()
        })
    }
}

/// The places, in the files `idx[0..k]` of the store, of the declarations
/// that `id` may name.
pub open spec fn locations_in(
    entries: Seq<(String, Document)>,
    idx: Seq<int>,
    id: Seq<Seq<char>>,
    local: bool,
    k: int,
) -> Seq<LocationView>
    decreases k,
{
    if k <= 0 {
        Seq::empty()
    } else {
        let e = entries[idx[k - 1]];
        locations_in(entries, idx, id, local, k - 1) + doc_locations(
            e.0@,
            items_view(e.1.items@),
            id,
            local,
            e.1.items@.len() as int,
        )
    }
}

/// Every definition of the identifier under the cursor.
pub open spec fn definitions(store: DocStore, path: Seq<char>, pos: Position) -> Seq<LocationView> {
    match cursor_target(store, path, pos) {
        Some((id, m, local)) => {
            let idx = module_indices(store.entries@, m, store.entries@.len() as int);
            locations_in(store.entries@, idx, id, local, idx.len() as int)
        },
        None => Seq::empty(),
    }
}

/// The first declaration at or after `j` that `id` may name, or `items.len()`.
pub open spec fn first_item(items: Seq<ItemView>, id: Seq<Seq<char>>, local: bool, j: int) -> int
    decreases items.len() - j,
{
    if j >= items.len() {
        items.len() as int
    } else if item_matches(items[j], id, local) {
        j
    } else {
        first_item(items, id, local, j + 1)
    }
}

/// The first file of `idx[k..]` that holds a declaration `id` may name, with
/// the index of that declaration.
pub open spec fn first_hit(
    entries: Seq<(String, Document)>,
    idx: Seq<int>,
    id: Seq<Seq<char>>,
    local: bool,
    k: int,
) -> Option<(int, int)>
    decreases idx.len() - k,
{
    if k >= idx.len() {
        None
    } else {
        let items = items_view(entries[idx[k]].1.items@);
        let j = first_item(items, id, local, 0);
        if j < items.len() {
            Some((idx[k], j))
        } else {
            first_hit(entries, idx, id, local, k + 1)
        }
    }
}

/// The hover answer: the documentation of the first declaration found for
/// the identifier under the cursor, with the range of its name.
pub open spec fn hover_of(store: DocStore, path: Seq<char>, pos: Position) -> Option<
    (Seq<char>, Range),
> {
    match cursor_target(store, path, pos) {
        Some((id, m, local)) => {
            let idx = module_indices(store.entries@, m, store.entries@.len() as int);
            match first_hit(store.entries@, idx, id, local, 0) {
                Some((i, j)) => {
                    let d = store.entries@[i].1;
                    let it = d.items@[j];
                    match documentation(d.line_texts(), it.range.start.line as int) {
                        Some(t) => Some((t, it.range)),
                        None => None,
                    }
                },
                None => None,
            }
        },
        None => None,
    }
}

/// Hover shows nothing for a declaration whose line is the first of its file
/// or follows a line that is no `//` comment, whatever comments stand higher up.
pub proof fn lemma_hover_needs_adjacent_comment(store: DocStore, path: Seq<char>, pos: Position)
    requires
        store.wf(),
        cursor_target(store, path, pos) matches Some((id, m, local)) && first_hit(
            store.entries@,
            module_indices(store.entries@, m, store.entries@.len() as int),
            id,
            local,
            0,
        ) matches Some((i, j)) && ({
            let d = store.entries@[i].1;
            let l = d.items@[j].range.start.line as int;
            l == 0 || (0 < l <= d.lines@.len() && !has_prefix(d.line_texts()[l - 1], "//"@))
        }),
    ensures
        hover_of(store, path, pos) is None,
{
    let (id, m, local) = cursor_target(store, path, pos)->0;
    let idx = module_indices(store.entries@, m, store.entries@.len() as int);
    let (i, j) = first_hit(store.entries@, idx, id, local, 0)->0;
    let d = store.entries@[i].1;
    lemma_no_comment_above(d.line_texts(), d.items@[j].range.start.line as int);
}

/// A completion candidate for each of the first `j` declarations of `d`.
pub open spec fn doc_completions(d: Document, j: int) -> Seq<CompletionView>
    decreases j,
{
    if j <= 0 {
        Seq::empty()
    } else {
        let it = d.items@[j - 1];
        doc_completions(d, j - 1) + seq![
            CompletionView {
                label: it.name@,
                kind: it.kind,
                documentation: documentation(d.line_texts(), it.range.start.line as int),
            },
        ]
    }
}

/// The completion candidates of the files `idx[0..k]` of the store.
pub open spec fn completions_in(entries: Seq<(String, Document)>, idx: Seq<int>, k: int) -> Seq<
    CompletionView,
>
    decreases k,
{
    if k <= 0 {
        Seq::empty()
    } else {
        let d = entries[idx[k - 1]].1;
        completions_in(entries, idx, k - 1) + doc_completions(d, d.items@.len() as int)
    }
}

/// Every completion candidate for the cursor: all declarations of the module
/// the identifier under it refers into.
pub open spec fn completions(store: DocStore, path: Seq<char>, pos: Position) -> Seq<CompletionView> {
    match cursor_target(store, path, pos) {
        Some((_id, m, _local)) => {
            let idx = module_indices(store.entries@, m, store.entries@.len() as int);
            completions_in(store.entries@, idx, idx.len() as int)
        },
        None => Seq::empty(),
    }
}

/// The indices of the stored source files of module `current_module`, in the
/// order of their paths.
pub fn module_files(docs: &DocStore, current_module: &str) -> (r: Vec<usize>)
    requires
        docs.wf(),
    ensures
        forall|k: int, l: int|
            0 <= k < l < r@.len() ==> path_less(
                docs.paths()[#[trigger] r@[k] as int],
                docs.paths()[#[trigger] r@[l] as int],
            ),
        r@.map_values(|i: usize| i as int) == module_indices(
            docs.entries@,
            current_module@,
            docs.entries@.len() as int,
        ),
        forall|k: int| 0 <= k < r@.len() ==> r@[k] < docs.entries@.len(),
{
    let ghost m = current_module@;
    let mut out: Vec<usize> = Vec::new();
    let mut i: usize = 0;
    while i < docs.entries.len()
        invariant
            m == current_module@,
            i <= docs.entries.len(),
            out@.map_values(|i: usize| i as int) == module_indices(docs.entries@, m, i as int),
            forall|k: int| 0 <= k < out@.len() ==> out@[k] < i,
            forall|k: int, l: int| 0 <= k < l < out@.len() ==> #[trigger] out@[k] < #[trigger] out@[l],
        decreases docs.entries.len() - i,
    {
        let p = &docs.entries[i].0;
        let ghost before = out@;
        let mut keep = false;
        if is_source_file(p.as_str()) {
            match module_from_path(p.as_str()) {
                Some(pm) => {
                    keep = same_text(&pm, current_module);
                },
                None => {},
            }
        }
        if keep {
            out.push(i);
            assert(out@ =~= before.push(i));
        }
        assert(out@.map_values(|i: usize| i as int) =~= module_indices(docs.entries@, m, i + 1));
        i = i + 1;
    }
    assert forall|k: int, l: int| 0 <= k < l < out@.len() implies path_less(
        docs.paths()[#[trigger] out@[k] as int],
        docs.paths()[#[trigger] out@[l] as int],
    ) by {
        assert(out@[k] < out@[l]);
    }
    out
}

/// Whether `a` and `b` hold the same characters.
fn same_text(a: &String, b: &str) -> (r: bool)
    ensures
        r == (a@ == b@),
{
    let bs = String::from_str(b);
    *a == bs
}

/// Whether `id` is a local reference for a file that imports `imports`.
fn local_reference(id: &Ident, imports: &Vec<Ident>) -> (r: bool)
    ensures
        r == is_local(ident_view(id), idents_view(imports@)),
{
    if id.len() != 1 {
        return false;
    }
    let ghost imps = idents_view(imports@);
    let mut k: usize = 0;
    while k < imports.len()
        invariant
            imps == idents_view(imports@),
            k <= imports.len(),
            forall|q: int| 0 <= q < k ==> !import_matches(#[trigger] imps[q], ident_view(id)),
        decreases imports.len() - k,
    {
        assert(imps[k as int] == ident_view(&imports[k as int]));
        if qualifies(&imports[k], id) {
            return false;
        }
        k = k + 1;
    }
    true
}

/// The identifier under the cursor, the module it refers into, and whether
/// it is a local reference.
fn target_at(docs: &DocStore, path: &str, pos: Position) -> (r: Option<(Ident, String, bool)>)
    requires
        docs.wf(),
    ensures
        r matches Some((id, m, local)) ==> cursor_target(*docs, path@, pos) == Some(
            (ident_view(&id), m@, local),
        ) && id.len() >= 1,
        r is None ==> cursor_target(*docs, path@, pos) is None,
{
    let i = match docs.find(path) {
        Some(i) => i,
        None => {
            return None;
        },
    };
    let doc = &docs.entries[i].1;
    let l = pos.line as usize;
    if l >= doc.lines.len() {
        return None;
    }
    let line = &doc.lines[l];
    assert(doc.line_texts()[l as int] == line@);
    let c = pos.character as usize;
    if c > line.as_str().unicode_len() {
        return None;
    }
    let cur = match module_from_path(path) {
        Some(cur) => cur,
        None => {
            return None;
        },
    };
    let id = identifier_at_offset(line.as_str(), c);
    let m = module_of_ident(&id, cur.as_str(), &doc.imports);
    let local = local_reference(&id, &doc.imports);
    Some((id, m, local))
}

/// Whether `id` may name `item`.
fn matches_item(item: &HareItem, id: &Ident, local: bool) -> (r: bool)
    requires
        id.len() >= 1,
    ensures
        r == item_matches(item@, ident_view(id), local),
{
    let n = id.len();
    assert(ident_view(id).last() == id@[n - 1]@);
    item.name == id[n - 1] && (local || item.exported)
}

/// Every definition of the identifier under the cursor at `pos` in the file
/// `path`: one location per declaration that it may name, among the source
/// files of the module it refers into. A single location stands alone.
pub fn find_definition(docs: &DocStore, path: &str, pos: Position) -> (r: DefinitionResponse)
    requires
        docs.wf(),
    ensures
        response_locations(r) == definitions(*docs, path@, pos),
        r is Scalar <==> definitions(*docs, path@, pos).len() == 1,
{
    let mut locations: Vec<Location> = Vec::new();
    let ghost entries = docs.entries@;
    match target_at(docs, path, pos) {
        None => {},
        Some((id, m, local)) => {
            let ghost idv = ident_view(&id);
            let files = module_files(docs, m.as_str());
            let ghost idx = files@.map_values(|i: usize| i as int);
            let mut k: usize = 0;
            while k < files.len()
                invariant
                    entries == docs.entries@,
                    idx == files@.map_values(|i: usize| i as int),
                    forall|q: int| 0 <= q < files@.len() ==> files@[q] < entries.len(),
                    idv == ident_view(&id),
                    id.len() >= 1,
                    k <= files.len(),
                    locations@.map_values(|l: Location| l@) == locations_in(entries, idx, idv, local, k as int),
                decreases files.len() - k,
            {
                let fi = files[k];
                let p = &docs.entries[fi].0;
                let d = &docs.entries[fi].1;
                let ghost items = items_view(d.items@);
                let ghost base = locations_in(entries, idx, idv, local, k as int);
                let mut j: usize = 0;
                while j < d.items.len()
                    invariant
                        items == items_view(d.items@),
                        idv == ident_view(&id),
                        id.len() >= 1,
                        j <= d.items.len(),
                        locations@.map_values(|l: Location| l@) == base + doc_locations(
                            p@,
                            items,
                            idv,
                            local,
                            j as int,
                        ),
                    decreases d.items.len() - j,
                {
                    let item = &d.items[j];
                    let ghost before = locations@.map_values(|l: Location| l@);
                    if matches_item(item, &id, local) {
                        let loc = Location { path: p.clone(), range: item.range };
                        locations.push(loc);
                        assert(locations@.map_values(|l: Location| l@) =~= before.push(loc@));
                    }
                    assert(locations@.map_values(|l: Location| l@) =~= base + doc_locations(
                        p@,
                        items,
                        idv,
                        local,
                        j + 1,
                    ));
                    j = j + 1;
                }
                k = k + 1;
            }
        },
    }
    if locations.len() == 1 {
        let loc = locations.pop().unwrap();
        assert(response_locations(DefinitionResponse::Scalar(loc)) =~= definitions(
            *docs,
            path@,
            pos,
        ));
        DefinitionResponse::Scalar(loc)
    } else {
        DefinitionResponse::Array(locations)
    }
}

/// The documentation of the first declaration that the identifier under the
/// cursor may name, among the source files of the module it refers into,
/// with the range of that declaration's name; nothing when that declaration
/// has no comment right above it.
pub fn generate_hover(docs: &DocStore, path: &str, pos: Position) -> (r: Option<Hover>)
    requires
        docs.wf(),
    ensures
        r matches Some(h) ==> hover_of(*docs, path@, pos) == Some((h.contents@, h.range)),
        r is None ==> hover_of(*docs, path@, pos) is None,
{
    let ghost entries = docs.entries@;
    let (id, m, local) = match target_at(docs, path, pos) {
        Some(t) => t,
        None => {
            return None;
        },
    };
    let ghost idv = ident_view(&id);
    let files = module_files(docs, m.as_str());
    let ghost idx = files@.map_values(|i: usize| i as int);
    let mut k: usize = 0;
    while k < files.len()
        invariant
            entries == docs.entries@,
            docs.wf(),
            idx == files@.map_values(|i: usize| i as int),
            forall|q: int| 0 <= q < files@.len() ==> files@[q] < entries.len(),
            idv == ident_view(&id),
            id.len() >= 1,
            k <= files.len(),
            first_hit(entries, idx, idv, local, k as int) == first_hit(entries, idx, idv, local, 0),
            cursor_target(*docs, path@, pos) == Some((idv, m@, local)),
            idx == module_indices(entries, m@, entries.len() as int),
        decreases files.len() - k,
    {
        let fi = files[k];
        let d = &docs.entries[fi].1;
        let ghost items = items_view(d.items@);
        assert(entries[fi as int].1.wf());
        let mut j: usize = 0;
        assert(idx[k as int] == fi as int);
        while j < d.items.len()
            invariant
                d.wf(),
                entries == docs.entries@,
                *d == entries[fi as int].1,
                idx == files@.map_values(|i: usize| i as int),
                k < files.len(),
                idx[k as int] == fi as int,
                first_hit(entries, idx, idv, local, k as int) == first_hit(entries, idx, idv, local, 0),
                cursor_target(*docs, path@, pos) == Some((idv, m@, local)),
                idx == module_indices(entries, m@, entries.len() as int),
                items == items_view(d.items@),
                idv == ident_view(&id),
                id.len() >= 1,
                j <= d.items.len(),
                first_item(items, idv, local, j as int) == first_item(items, idv, local, 0),
            decreases d.items.len() - j,
        {
            let item = &d.items[j];
            if matches_item(item, &id, local) {
                proof {
                    lemma_item_within(*d, j as int);
                }
                return match d.get_documentation(item) {
                    Some(text) => Some(Hover { contents: text, range: item.range }),
                    None => None,
                };
            }
            j = j + 1;
        }
        k = k + 1;
    }
    None
}

/// A completion candidate for every declaration of every source file of the
/// module that the identifier under the cursor refers into, exported or not,
/// with its kind and its documentation.
pub fn generate_completions(docs: &DocStore, path: &str, pos: Position) -> (r: Vec<
    CompletionItem,
>)
    requires
        docs.wf(),
    ensures
        r@.map_values(|c: CompletionItem| c@) == completions(*docs, path@, pos),
{
    let ghost entries = docs.entries@;
    let mut out: Vec<CompletionItem> = Vec::new();
    let m = match target_at(docs, path, pos) {
        Some((_id, m, _local)) => m,
        None => {
            return out;
        },
    };
    let files = module_files(docs, m.as_str());
    let ghost idx = files@.map_values(|i: usize| i as int);
    let mut k: usize = 0;
    while k < files.len()
        invariant
            entries == docs.entries@,
            docs.wf(),
            idx == files@.map_values(|i: usize| i as int),
            forall|q: int| 0 <= q < files@.len() ==> files@[q] < entries.len(),
            k <= files.len(),
            out@.map_values(|c: CompletionItem| c@) == completions_in(entries, idx, k as int),
        decreases files.len() - k,
    {
        let fi = files[k];
        let d = &docs.entries[fi].1;
        assert(entries[fi as int].1.wf());
        let ghost base = completions_in(entries, idx, k as int);
        let mut j: usize = 0;
        while j < d.items.len()
            invariant
                d.wf(),
                j <= d.items.len(),
                out@.map_values(|c: CompletionItem| c@) == base + doc_completions(*d, j as int),
            decreases d.items.len() - j,
        {
            let item = &d.items[j];
            proof {
                lemma_item_within(*d, j as int);
            }
            let documentation = d.get_documentation(item);
            let c = CompletionItem { label: item.name.clone(), kind: item.kind, documentation };
            let ghost before = out@.map_values(|c: CompletionItem| c@);
            out.push(c);
            assert(out@.map_values(|c: CompletionItem| c@) =~= before.push(c@));
            assert(out@.map_values(|c: CompletionItem| c@) =~= base + doc_completions(*d, j + 1));
            j = j + 1;
        }
        k = k + 1;
    }
    out
}

} // verus!
