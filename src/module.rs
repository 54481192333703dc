use vstd::prelude::*;

use crate::doc::idents_view;
use crate::ident::{ident_view, Ident};
use crate::text::substring;

verus! {

broadcast use vstd::seq_lib::group_seq_properties;

/// `imp` qualifies `id`: its last segment is the first segment of `id`.
pub open spec fn import_matches(imp: Seq<Seq<char>>, id: Seq<Seq<char>>) -> bool {
    imp.len() > 0 && id.len() > 0 && imp.last() == id[0]
}

/// The path `id` resolves to, trying the imports from `imps[i]` on: the first
/// import that qualifies `id` replaces its first segment; with none, `id` is
/// local to the module `cur`.
pub open spec fn resolve_from(
    cur: Seq<char>,
    id: Seq<Seq<char>>,
    imps: Seq<Seq<Seq<char>>>,
    i: int,
) -> Seq<Seq<char>>
    decreases imps.len() - i,
{
    if i >= imps.len() {
        seq![cur] + id
    } else if import_matches(imps[i], id) {
        imps[i] + id.drop_first()
    } else {
        resolve_from(cur, id, imps, i + 1)
    }
}

/// The fully qualified path of `id`, seen from module `cur` with imports `imps`.
pub open spec fn resolved_path(
    cur: Seq<char>,
    id: Seq<Seq<char>>,
    imps: Seq<Seq<Seq<char>>>,
) -> Seq<Seq<char>> {
    resolve_from(cur, id, imps, 0)
}

/// The module a resolved path points into: its second-to-last segment, or
/// its only one.
pub open spec fn target_module(path: Seq<Seq<char>>) -> Seq<char> {
    if path.len() >= 2 {
        path[path.len() - 2]
    } else {
        path[0]
    }
}

/// A copy of the identifier `id`.
pub(crate) fn copy_ident(id: &Ident) -> (r: Ident)
    ensures
        ident_view(&r) == ident_view(id),
{
    let mut out: Ident = Vec::new();
    let mut i: usize = 0;
    while i < id.len()
        invariant
            i <= id.len(),
            ident_view(&out) == ident_view(id).subrange(0, i as int),
        decreases id.len() - i,
    {
        let seg = id[i].clone();
        let ghost before = ident_view(&out);
        out.push(seg);
        assert(ident_view(&out) =~= before.push(seg@));
        assert(ident_view(&out) =~= ident_view(id).subrange(0, i + 1));
        i = i + 1;
    }
    assert(ident_view(id).subrange(0, i as int) =~= ident_view(id));
    out
}

/// Whether the import `imp` qualifies `ident`.
pub(crate) fn qualifies(imp: &Ident, ident: &Ident) -> (r: bool)
    ensures
        r == import_matches(ident_view(imp), ident_view(ident)),
{
    imp.len() > 0 && ident.len() > 0 && imp[imp.len() - 1] == ident[0]
}

/// The fully qualified path of `ident` in module `current_module`, whose file
/// imports `imports`.
pub fn resolve_ident(current_module: &str, ident: &Ident, imports: &Vec<Ident>) -> (r: Ident)
    ensures
        ident_view(&r) == resolved_path(current_module@, ident_view(ident), idents_view(imports@)),
{
    let ghost imps = idents_view(imports@);
    let ghost id = ident_view(ident);
    let mut i: usize = 0;
    while i < imports.len()
        invariant
            imps == idents_view(imports@),
            id == ident_view(ident),
            i <= imports.len(),
            resolve_from(current_module@, id, imps, i as int) == resolved_path(
                current_module@,
                id,
                imps,
            ),
        decreases imports.len() - i,
    {
        let imp = &imports[i];
        assert(imps[i as int] == ident_view(imp));
        if qualifies(imp, ident) {
            let mut out = copy_ident(imp);
            let mut j: usize = 1;
            while j < ident.len()
                invariant
                    1 <= j <= ident.len(),
                    ident_view(&out) == ident_view(imp) + id.subrange(1, j as int),
                    id == ident_view(ident),
                decreases ident.len() - j,
            {
                let seg = ident[j].clone();
                let ghost before = ident_view(&out);
                out.push(seg);
                assert(ident_view(&out) =~= before.push(seg@));
                assert(ident_view(&out) =~= ident_view(imp) + id.subrange(1, j + 1));
                j = j + 1;
            }
            assert(id.subrange(1, j as int) =~= id.drop_first());
            return out;
        }
        i = i + 1;
    }
    let mut out: Ident = Vec::new();
    out.push(substring(current_module, 0, current_module.unicode_len()));
    let mut j: usize = 0;
    assert(current_module@.subrange(0, current_module@.len() as int) =~= current_module@);
    while j < ident.len()
        invariant
            j <= ident.len(),
            ident_view(&out) == seq![current_module@] + id.subrange(0, j as int),
            id == ident_view(ident),
        decreases ident.len() - j,
    {
        let seg = ident[j].clone();
        let ghost before = ident_view(&out);
        out.push(seg);
        assert(ident_view(&out) =~= before.push(seg@));
        assert(ident_view(&out) =~= seq![current_module@] + id.subrange(0, j + 1));
        j = j + 1;
    }
    assert(id.subrange(0, j as int) =~= id);
    out
}

/// The module that `ident` refers into, seen from `current_module` with
/// imports `imports`.
pub fn module_of_ident(ident: &Ident, current_module: &str, imports: &Vec<Ident>) -> (r: String)
    requires
        ident.len() >= 1,
    ensures
        r@ == target_module(resolved_path(current_module@, ident_view(ident), idents_view(imports@))),
{
    let resolved = resolve_ident(current_module, ident, imports);
    proof {
        lemma_resolved_nonempty(current_module@, ident_view(ident), idents_view(imports@), 0);
    }
    let n = resolved.len();
    if n >= 2 {
        resolved[n - 2].clone()
    } else {
        resolved[0].clone()
    }
}

proof fn lemma_resolved_nonempty(
    cur: Seq<char>,
    id: Seq<Seq<char>>,
    imps: Seq<Seq<Seq<char>>>,
    i: int,
)
    requires
        id.len() >= 1,
    ensures
        resolve_from(cur, id, imps, i).len() >= 1,
    decreases imps.len() - i,
{
    if i < imps.len() && !import_matches(imps[i], id) {
        lemma_resolved_nonempty(cur, id, imps, i + 1);
    }
}

proof fn lemma_local_from(cur: Seq<char>, id: Seq<Seq<char>>, imps: Seq<Seq<Seq<char>>>, i: int)
    requires
        0 <= i <= imps.len(),
        forall|k: int| i <= k < imps.len() ==> !import_matches(#[trigger] imps[k], id),
    ensures
        resolve_from(cur, id, imps, i) == seq![cur] + id,
    decreases imps.len() - i,
{
    if i < imps.len() {
        lemma_local_from(cur, id, imps, i + 1);
    }
}

/// An identifier that no import qualifies resolves inside the current module:
/// the module's name followed by the identifier's segments.
pub proof fn lemma_local_reference(cur: Seq<char>, id: Seq<Seq<char>>, imps: Seq<Seq<Seq<char>>>)
    requires
        forall|k: int| 0 <= k < imps.len() ==> !import_matches(#[trigger] imps[k], id),
    ensures
        resolved_path(cur, id, imps) == seq![cur] + id,
        id.len() >= 1 ==> target_module(resolved_path(cur, id, imps)) == (if id.len() >= 2 {
            id[id.len() - 2]
        } else {
            cur
        }),
{
    lemma_local_from(cur, id, imps, 0);
}

proof fn lemma_qualified_from(
    cur: Seq<char>,
    id: Seq<Seq<char>>,
    imps: Seq<Seq<Seq<char>>>,
    i: int,
    m: int,
)
    requires
        0 <= i <= m < imps.len(),
        import_matches(imps[m], id),
    ensures
        exists|j: int|
            i <= j <= m && import_matches(#[trigger] imps[j], id) && resolve_from(cur, id, imps, i)
                == imps[j] + id.drop_first(),
    decreases m - i,
{
    if import_matches(imps[i], id) {
        assert(import_matches(imps[i], id) && resolve_from(cur, id, imps, i) == imps[i]
            + id.drop_first());
    } else {
        lemma_qualified_from(cur, id, imps, i + 1, m);
    }
}

/// An identifier whose first segment is the last segment of an import
/// resolves through an import: the resolved path begins with all of that
/// import's segments and goes on with the identifier's other segments. Where
/// only one import qualifies the identifier, it is that one.
pub proof fn lemma_qualified_reference(
    cur: Seq<char>,
    id: Seq<Seq<char>>,
    imps: Seq<Seq<Seq<char>>>,
    m: int,
)
    requires
        0 <= m < imps.len(),
        import_matches(imps[m], id),
    ensures
        exists|j: int|
            0 <= j < imps.len() && import_matches(#[trigger] imps[j], id) && resolved_path(
                cur,
                id,
                imps,
            ) == imps[j] + id.drop_first() && resolved_path(cur, id, imps).subrange(
                0,
                imps[j].len() as int,
            ) == imps[j],
        (forall|k: int| 0 <= k < imps.len() && k != m ==> !import_matches(#[trigger] imps[k], id))
            ==> resolved_path(cur, id, imps).subrange(0, imps[m].len() as int) == imps[m],
{
    lemma_qualified_from(cur, id, imps, 0, m);
    let j = choose|j: int|
        0 <= j <= m && import_matches(#[trigger] imps[j], id) && resolve_from(cur, id, imps, 0)
            == imps[j] + id.drop_first();
    assert((imps[j] + id.drop_first()).subrange(0, imps[j].len() as int) =~= imps[j]);
}

} // verus!
