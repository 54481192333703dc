use vstd::prelude::*;

use crate::doc::idents_view;
use crate::ident::{ident_view, Ident};
use crate::text::{chars_of, substring};

verus! {

broadcast use vstd::seq_lib::group_seq_properties;

/// A piece of a path that names something: neither empty nor `.`.
pub open spec fn keep_component(c: Seq<char>) -> bool {
    c.len() > 0 && c != seq!['.']
}

/// The named pieces between `/` separators of `p`, scanning from `i` with the
/// current piece begun at `start`.
pub open spec fn components_from(p: Seq<char>, start: int, i: int) -> Seq<Seq<char>>
    decreases p.len() - i,
{
    if i >= p.len() {
        let c = p.subrange(start, p.len() as int);
        if keep_component(c) {
            seq![c]
        } else {
            Seq::empty()
        }
    } else if p[i] == '/' {
        let c = p.subrange(start, i);
        (if keep_component(c) {
            seq![c]
        } else {
            Seq::empty()
        }) + components_from(p, i + 1, i + 1)
    } else {
        components_from(p, start, i + 1)
    }
}

/// The named pieces of the path `p`, in order.
pub open spec fn components(p: Seq<char>) -> Seq<Seq<char>> {
    components_from(p, 0, 0)
}

/// A piece that names a directory or file, not the parent directory.
pub open spec fn is_normal(c: Seq<char>) -> bool {
    c != seq!['.', '.']
}

/// A directory name that marks a build-tag directory (`+linux`).
pub open spec fn is_build_tag(c: Seq<char>) -> bool {
    c.len() > 0 && c[0] == '+'
}

/// A file name with the extension `ha`.
pub open spec fn is_source_name(c: Seq<char>) -> bool {
    c.len() > 3 && c.subrange(c.len() - 3, c.len() as int) == seq!['.', 'h', 'a']
}

/// The module a file belongs to: the directory that holds it, or, where that
/// is a build-tag directory, the one above.
pub open spec fn module_of_path(p: Seq<char>) -> Option<Seq<char>> {
    let c = components(p);
    let n = c.len();
    if n >= 2 && is_normal(c[n - 2]) {
        if is_build_tag(c[n - 2]) {
            if n >= 3 && is_normal(c[n - 3]) {
                Some(c[n - 3])
            } else {
                None
            }
        } else {
            Some(c[n - 2])
        }
    } else {
        None
    }
}

/// A file whose directory is a build-tag directory belongs to the module of
/// the directory above: `unix/+linux/open.ha` is in `unix`, not `+linux`.
pub proof fn lemma_build_tag_parent(p: Seq<char>)
    requires
        components(p).len() >= 3,
        is_build_tag(components(p)[components(p).len() - 2]),
        is_normal(components(p)[components(p).len() - 3]),
    ensures
        module_of_path(p) == Some(components(p)[components(p).len() - 3]),
{
    let c = components(p);
    let n = c.len();
    assert(is_normal(c[n - 2])) by {
        if c[n - 2] == seq!['.', '.'] {
            assert(c[n - 2][0] == '.');
        }
    }
}

/// A path that names a source file.
pub open spec fn is_source_path(p: Seq<char>) -> bool {
    let c = components(p);
    c.len() >= 1 && is_normal(c.last()) && is_source_name(c.last())
}

proof fn lemma_dot(c: Seq<char>)
    ensures
        (c == seq!['.']) == (c.len() == 1 && c[0] == '.'),
        (c == seq!['.', '.']) == (c.len() == 2 && c[0] == '.' && c[1] == '.'),
{
    if c.len() == 1 && c[0] == '.' {
        assert(c =~= seq!['.']);
    }
    if c.len() == 2 && c[0] == '.' && c[1] == '.' {
        assert(c =~= seq!['.', '.']);
    }
}

/// The named pieces of `path`.
pub fn path_components(path: &str) -> (r: Vec<String>)
    ensures
        r.deep_view() == components(path@),
{
    let cs = chars_of(path);
    let ghost p = cs@;
    let mut out: Vec<String> = Vec::new();
    let mut start: usize = 0;
    let mut i: usize = 0;
    assert(out.deep_view() + components_from(p, 0, 0) =~= components(p));
    while i < cs.len()
        invariant
            cs@ == path@,
            p == cs@,
            start <= i <= cs.len(),
            out.deep_view() + components_from(p, start as int, i as int) == components(p),
        decreases cs.len() - i,
    {
        if cs[i] == '/' {
            let ghost before = out.deep_view();
            if i > start && !(i == start + 1 && cs[start] == '.') {
                let piece = substring(path, start, i);
                proof {
                    lemma_dot(piece@);
                }
                out.push(piece);
                assert(out.deep_view() =~= before.push(piece@));
            } else {
                proof {
                    lemma_dot(p.subrange(start as int, i as int));
                }
            }
            assert(out.deep_view() + components_from(p, i + 1, i + 1) =~= before
                + components_from(p, start as int, i as int));
            i = i + 1;
            start = i;
        } else {
            i = i + 1;
        }
    }
    let ghost before = out.deep_view();
    if i > start && !(i == start + 1 && cs[start] == '.') {
        let piece = substring(path, start, i);
        proof {
            lemma_dot(piece@);
        }
        out.push(piece);
        assert(out.deep_view() =~= before.push(piece@));
    } else {
        proof {
            lemma_dot(p.subrange(start as int, i as int));
        }
    }
    assert(out.deep_view() =~= components(p));
    out
}

fn normal(c: &String) -> (r: bool)
    ensures
        r == is_normal(c@),
{
    let cs = chars_of(c.as_str());
    let r = !(cs.len() == 2 && cs[0] == '.' && cs[1] == '.');
    proof {
        lemma_dot(cs@);
    }
    r
}

/// Whether the directory name `name` marks a build-tag directory.
pub fn build_tag(name: &str) -> (r: bool)
    ensures
        r == is_build_tag(name@),
{
    let cs = chars_of(name);
    cs.len() > 0 && cs[0] == '+'
}

/// Whether the file name `name` has the extension `ha`.
pub fn source_name(name: &str) -> (r: bool)
    ensures
        r == is_source_name(name@),
{
    let cs = chars_of(name);
    let n = cs.len();
    let r = n > 3 && cs[n - 3] == '.' && cs[n - 2] == 'h' && cs[n - 1] == 'a';
    proof {
        if n > 3 {
            let t = cs@.subrange(n - 3, n as int);
            if r {
                assert(t =~= seq!['.', 'h', 'a']);
            } else {
                assert(t[0] != '.' || t[1] != 'h' || t[2] != 'a');
            }
        }
    }
    r
}

/// What the directory walk does with an entry of a directory.
#[derive(Clone, Copy, Debug, PartialEq, Eq, Structural)]
pub enum EntryAction {
    /// A source file: index it.
    Index,
    /// A build-tag directory: walk it as part of the same module.
    Descend,
    /// Anything else: leave it.
    Skip,
}

/// The action for a directory entry named `name`, which is a file, a
/// directory, or neither.
pub open spec fn entry_action_of(name: Seq<char>, is_file: bool, is_dir: bool) -> EntryAction {
    if is_file && is_source_name(name) {
        EntryAction::Index
    } else if is_dir && is_build_tag(name) {
        EntryAction::Descend
    } else {
        EntryAction::Skip
    }
}

/// What the directory walk does with the entry named `name`.
pub fn entry_action(name: &str, is_file: bool, is_dir: bool) -> (r: EntryAction)
    ensures
        r == entry_action_of(name@, is_file, is_dir),
{
    if is_file && source_name(name) {
        EntryAction::Index
    } else if is_dir && build_tag(name) {
        EntryAction::Descend
    } else {
        EntryAction::Skip
    }
}

/// The module that the file at `path` belongs to; none for a file with no
/// directory above it.
pub fn module_from_path(path: &str) -> (r: Option<String>)
    ensures
        r matches Some(m) ==> module_of_path(path@) == Some(m@),
        r is None ==> module_of_path(path@) is None,
{
    let c = path_components(path);
    let n = c.len();
    if n < 2 {
        return None;
    }
    assert(c.deep_view()[n - 2] == c@[n - 2]@);
    if !normal(&c[n - 2]) {
        return None;
    }
    if build_tag(c[n - 2].as_str()) {
        if n < 3 {
            return None;
        }
        assert(c.deep_view()[n - 3] == c@[n - 3]@);
        if !normal(&c[n - 3]) {
            return None;
        }
        Some(c[n - 3].clone())
    } else {
        Some(c[n - 2].clone())
    }
}

/// Whether `path` names a source file.
pub fn is_source_file(path: &str) -> (r: bool)
    ensures
        r == is_source_path(path@),
{
    let c = path_components(path);
    let n = c.len();
    if n < 1 {
        return false;
    }
    assert(c.deep_view()[n - 1] == c@[n - 1]@);
    normal(&c[n - 1]) && source_name(c[n - 1].as_str())
}

/// `base` with `seg` pushed onto it: a separator goes between them unless
/// `base` is empty or already ends in one; an absolute `seg` replaces `base`.
pub open spec fn join(base: Seq<char>, seg: Seq<char>) -> Seq<char> {
    if seg.len() > 0 && seg[0] == '/' {
        seg
    } else if base.len() == 0 || base.last() == '/' {
        base + seg
    } else {
        base + seq!['/'] + seg
    }
}

/// `base` with the first `k` segments of `segs` pushed onto it in turn.
pub open spec fn join_all(base: Seq<char>, segs: Seq<Seq<char>>, k: int) -> Seq<char>
    decreases k,
{
    if k <= 0 {
        base
    } else {
        join(join_all(base, segs, k - 1), segs[k - 1])
    }
}

/// The directory of module `imp` under the search root `root`.
pub open spec fn module_dir(root: Seq<char>, imp: Seq<Seq<char>>) -> Seq<char> {
    join_all(root, imp, imp.len() as int)
}

/// The candidate directories of the first `i` imports, each import under
/// every root in turn.
pub open spec fn dirs_upto(roots: Seq<Seq<char>>, imps: Seq<Seq<Seq<char>>>, i: int) -> Seq<
    Seq<char>,
>
    decreases i,
{
    if i <= 0 {
        Seq::empty()
    } else {
        dirs_upto(roots, imps, i - 1) + Seq::new(
            roots.len(),
            |r: int| module_dir(roots[r], imps[i - 1]),
        )
    }
}

/// `base` with `seg` pushed onto it.
fn push_segment(base: String, seg: &String) -> (r: String)
    ensures
        r@ == join(base@, seg@),
{
    let sc = chars_of(seg.as_str());
    if sc.len() > 0 && sc[0] == '/' {
        return seg.clone();
    }
    let bc = chars_of(base.as_str());
    let mut out = base;
    if bc.len() > 0 && bc[bc.len() - 1] != '/' {
        out.append("/");
        proof {
            reveal_strlit("/");
        }
    }
    out.append(seg.as_str());
    out
}

/// The directories to index for `imports`: for each import, in order, its
/// directory under each search root, in order.
pub fn import_dirs(search_paths: &[String], imports: &Vec<Ident>) -> (r: Vec<String>)
    ensures
        r.deep_view() == dirs_upto(search_paths.deep_view(), idents_view(imports@), imports.len() as int),
{
    let ghost roots = search_paths.deep_view();
    let ghost imps = idents_view(imports@);
    let mut out: Vec<String> = Vec::new();
    let mut i: usize = 0;
    while i < imports.len()
        invariant
            roots == search_paths.deep_view(),
            imps == idents_view(imports@),
            i <= imports.len(),
            out.deep_view() == dirs_upto(roots, imps, i as int),
        decreases imports.len() - i,
    {
        let imp = &imports[i];
        assert(imps[i as int] == ident_view(imp));
        let mut r: usize = 0;
        while r < search_paths.len()
            invariant
                roots == search_paths.deep_view(),
                imps == idents_view(imports@),
                i < imports.len(),
                imp == &imports[i as int],
                imps[i as int] == ident_view(imp),
                r <= search_paths.len(),
                out.deep_view() == dirs_upto(roots, imps, i as int) + Seq::new(
                    r as nat,
                    |q: int| module_dir(roots[q], imps[i as int]),
                ),
            decreases search_paths.len() - r,
        {
            let mut dir = search_paths[r].clone();
            assert(dir@ == roots[r as int]);
            let mut k: usize = 0;
            while k < imp.len()
                invariant
                    k <= imp.len(),
                    imps[i as int] == ident_view(imp),
                    dir@ == join_all(roots[r as int], imps[i as int], k as int),
                decreases imp.len() - k,
            {
                assert(ident_view(imp)[k as int] == imp@[k as int]@);
                dir = push_segment(dir, &imp[k]);
                k = k + 1;
            }
            let ghost before = out.deep_view();
            out.push(dir);
            assert(out.deep_view() =~= before.push(dir@));
            assert(out.deep_view() =~= dirs_upto(roots, imps, i as int) + Seq::new(
                (r + 1) as nat,
                |q: int| module_dir(roots[q], imps[i as int]),
            ));
            r = r + 1;
        }
        assert(out.deep_view() =~= dirs_upto(roots, imps, i + 1));
        i = i + 1;
    }
    out
}

} // verus!
