use vstd::prelude::*;

use crate::doc::{contains_ident, fits_positions, idents_view, import_set, lines_view, Document};
use crate::ident::{ident_view, Ident};
use crate::module::copy_ident;
use crate::text::chars_of;

verus! {

broadcast use vstd::seq_lib::group_seq_properties;

/// The first index of `p` in `paths`, or `paths.len()`.
pub open spec fn position_of(paths: Seq<Seq<char>>, p: Seq<char>) -> int
    decreases paths.len(),
{
    if paths.len() == 0 {
        0
    } else if paths.last() == p && !paths.drop_last().contains(p) {
        paths.len() - 1
    } else if paths.drop_last().contains(p) {
        position_of(paths.drop_last(), p)
    } else {
        paths.len() as int
    }
}

/// `a` comes before `b` in the order of their characters' code points,
/// a proper prefix first.
pub open spec fn path_less(a: Seq<char>, b: Seq<char>) -> bool
    decreases a.len(),
{
    if a.len() == 0 {
        b.len() > 0
    } else if b.len() == 0 {
        false
    } else if a[0] != b[0] {
        (a[0] as u32) < (b[0] as u32)
    } else {
        path_less(a.drop_first(), b.drop_first())
    }
}

/// Each path before every later one.
pub open spec fn paths_sorted(paths: Seq<Seq<char>>) -> bool {
    forall|i: int, j: int| 0 <= i < j < paths.len() ==> path_less(#[trigger] paths[i], #[trigger] paths[j])
}

/// Where `key` goes among sorted `paths`, scanning from `i`: the first place
/// whose path does not come before it.
pub open spec fn insert_pos_from(paths: Seq<Seq<char>>, key: Seq<char>, i: int) -> int
    decreases paths.len() - i,
{
    if 0 <= i < paths.len() && path_less(paths[i], key) {
        insert_pos_from(paths, key, i + 1)
    } else {
        i
    }
}

/// Where `key` goes among sorted `paths`.
pub open spec fn insert_pos(paths: Seq<Seq<char>>, key: Seq<char>) -> int {
    insert_pos_from(paths, key, 0)
}

proof fn lemma_less_irreflexive(a: Seq<char>)
    ensures
        !path_less(a, a),
    decreases a.len(),
{
    if a.len() > 0 {
        lemma_less_irreflexive(a.drop_first());
    }
}

proof fn lemma_less_total(a: Seq<char>, b: Seq<char>)
    requires
        a != b,
        !path_less(a, b),
    ensures
        path_less(b, a),
    decreases a.len(),
{
    if a.len() > 0 && b.len() > 0 && a[0] == b[0] {
        if a.drop_first() == b.drop_first() {
            assert(a.drop_first().len() == a.len() - 1);
            assert(b.drop_first().len() == b.len() - 1);
            assert(a =~= b) by {
                assert forall|i: int| 0 <= i < a.len() implies a[i] == b[i] by {
                    if i > 0 {
                        assert(a[i] == a.drop_first()[i - 1]);
                        assert(b[i] == b.drop_first()[i - 1]);
                    }
                }
            }
        }
        lemma_less_total(a.drop_first(), b.drop_first());
    } else if a.len() == 0 && b.len() == 0 {
        assert(a =~= b);
    } else if a.len() > 0 && b.len() > 0 {
        vstd::utf8::char_u32_cast(a[0], a[0] as u32);
        vstd::utf8::char_u32_cast(b[0], b[0] as u32);
    }
}

proof fn lemma_less_transitive(a: Seq<char>, b: Seq<char>, c: Seq<char>)
    requires
        path_less(a, b),
        path_less(b, c),
    ensures
        path_less(a, c),
    decreases a.len(),
{
    if a.len() > 0 && b.len() > 0 && c.len() > 0 && a[0] == b[0] && b[0] == c[0] {
        lemma_less_transitive(a.drop_first(), b.drop_first(), c.drop_first());
    }
}

proof fn lemma_sorted_distinct(paths: Seq<Seq<char>>)
    requires
        paths_sorted(paths),
    ensures
        paths.no_duplicates(),
{
    assert forall|i: int, j: int| 0 <= i < paths.len() && 0 <= j < paths.len() && i != j implies paths[i]
        != paths[j] by {
        if i < j {
            assert(path_less(paths[i], paths[j]));
            lemma_less_irreflexive(paths[i]);
        } else {
            assert(path_less(paths[j], paths[i]));
            lemma_less_irreflexive(paths[i]);
        }
    }
}

/// Whether the path `a` comes before the path `b`.
fn path_lt(a: &String, b: &String) -> (r: bool)
    ensures
        r == path_less(a@, b@),
{
    let ac = chars_of(a.as_str());
    let bc = chars_of(b.as_str());
    let mut i: usize = 0;
    assert(ac@.subrange(0, ac@.len() as int) =~= ac@);
    assert(bc@.subrange(0, bc@.len() as int) =~= bc@);
    while i < ac.len() && i < bc.len() && ac[i] == bc[i]
        invariant
            ac@ == a@,
            bc@ == b@,
            i <= ac.len(),
            i <= bc.len(),
            path_less(ac@.subrange(i as int, ac@.len() as int), bc@.subrange(i as int, bc@.len() as int))
                == path_less(a@, b@),
        decreases ac.len() - i,
    {
        assert(ac@.subrange(i as int, ac@.len() as int).drop_first() =~= ac@.subrange(i + 1, ac@.len() as int));
        assert(bc@.subrange(i as int, bc@.len() as int).drop_first() =~= bc@.subrange(i + 1, bc@.len() as int));
        i = i + 1;
    }
    if i == ac.len() {
        i < bc.len()
    } else if i == bc.len() {
        false
    } else {
        (ac[i] as u32) < (bc[i] as u32)
    }
}

/// The documents known so far, each under the path of its file, in the order
/// of their paths.
pub struct DocStore {
    pub entries: Vec<(String, Document)>,
}

impl DocStore {
    /// The path of each entry.
    pub open spec fn paths(&self) -> Seq<Seq<char>> {
        self.entries@.map_values(|e: (String, Document)| e.0@)
    }

    /// Each path at most once, in order, and each document well formed.
    pub open spec fn wf(&self) -> bool {
        &&& paths_sorted(self.paths())
        &&& self.paths().no_duplicates()
        &&& forall|i: int| 0 <= i < self.entries@.len() ==> (#[trigger] self.entries@[i]).1.wf()
    }

    /// An empty store.
    pub fn new() -> (r: Self)
        ensures
            r.wf(),
            r.entries@.len() == 0,
    {
        DocStore { entries: Vec::new() }
    }

    /// The index of the entry for `path`.
    pub fn find(&self, path: &str) -> (r: Option<usize>)
        requires
            self.wf(),
        ensures
            r matches Some(i) ==> i < self.entries@.len() && self.paths()[i as int] == path@
                && position_of(self.paths(), path@) == i,
            r is None ==> !self.paths().contains(path@) && position_of(self.paths(), path@)
                == self.entries@.len(),
    {
        let key = String::from_str(path);
        let mut i: usize = 0;
        while i < self.entries.len()
            invariant
                self.wf(),
                key@ == path@,
                i <= self.entries.len(),
                forall|j: int| 0 <= j < i ==> self.paths()[j] != path@,
            decreases self.entries.len() - i,
        {
            assert(self.paths()[i as int] == self.entries@[i as int].0@);
            if self.entries[i].0 == key {
                proof {
                    lemma_position_unique(self.paths(), i as int);
                }
                return Some(i);
            }
            i = i + 1;
        }
        proof {
            lemma_position_absent(self.paths(), path@);
        }
        None
    }

    /// Whether a document is stored for `path`.
    pub fn contains(&self, path: &str) -> (r: bool)
        requires
            self.wf(),
        ensures
            r == self.paths().contains(path@),
    {
        match self.find(path) {
            Some(i) => {
                assert(self.paths()[i as int] == path@);
                true
            },
            None => false,
        }
    }

    /// Store `doc` for `path`, in place of the document stored for it before,
    /// or else at the place the order of paths gives it.
    pub fn insert(&mut self, path: String, doc: Document)
        requires
            old(self).wf(),
            doc.wf(),
        ensures
            final(self).wf(),
            ({
                let q = insert_pos(old(self).paths(), path@);
                &&& 0 <= q <= old(self).entries@.len()
                &&& q < old(self).entries@.len() && old(self).paths()[q] == path@ ==> final(self).entries@
                    == old(self).entries@.update(q, (path, doc))
                &&& !(q < old(self).entries@.len() && old(self).paths()[q] == path@) ==> final(self).entries@
                    == old(self).entries@.insert(q, (path, doc))
            }),
    {
        let ghost p = path@;
        let ghost before = self.paths();
        let mut i: usize = 0;
        while i < self.entries.len() && path_lt(&self.entries[i].0, &path)
            invariant
                self.wf(),
                before == self.paths(),
                p == path@,
                i <= self.entries.len(),
                forall|j: int| 0 <= j < i ==> path_less(#[trigger] before[j], p),
                insert_pos_from(before, p, i as int) == insert_pos(before, p),
            decreases self.entries.len() - i,
        {
            assert(before[i as int] == self.entries@[i as int].0@);
            i = i + 1;
        }
        proof {
            if i < self.entries.len() {
                assert(before[i as int] == self.entries@[i as int].0@);
            }
        }
        if i < self.entries.len() && self.entries[i].0 == path {
            self.entries.set(i, (path, doc));
            assert(self.paths() =~= before);
        } else {
            self.entries.insert(i, (path, doc));
            assert(self.paths() =~= before.insert(i as int, p));
            proof {
                if i < before.len() {
                    lemma_less_total(before[i as int], p);
                }
                assert forall|a: int, b: int| 0 <= a < b < self.paths().len() implies path_less(
                    #[trigger] self.paths()[a],
                    #[trigger] self.paths()[b],
                ) by {
                    let np = self.paths();
                    if b < i {
                        assert(np[a] == before[a] && np[b] == before[b]);
                    } else if b == i {
                        assert(np[a] == before[a]);
                    } else if a > i {
                        assert(np[a] == before[a - 1] && np[b] == before[b - 1]);
                    } else if a == i {
                        assert(np[b] == before[b - 1]);
                        if b - 1 > i {
                            assert(path_less(before[i as int], before[b - 1]));
                            lemma_less_transitive(p, before[i as int], before[b - 1]);
                        }
                    } else {
                        assert(np[a] == before[a] && np[b] == before[b - 1]);
                        assert(path_less(before[a], before[b - 1]));
                    }
                }
                lemma_sorted_distinct(self.paths());
            }
        }
    }

    /// Index the file at `path`, whose text is `lines`, unless a document is
    /// already stored for it: a stored document is never parsed again.
    pub fn index_file(&mut self, path: String, lines: Vec<String>) -> (r: bool)
        requires
            old(self).wf(),
            fits_positions(lines_view(lines@)),
        ensures
            final(self).wf(),
            r == !old(self).paths().contains(path@),
            final(self).paths().contains(path@),
            !r ==> *final(self) == *old(self),
            r ==> ({
                let q = insert_pos(old(self).paths(), path@);
                &&& 0 <= q <= old(self).entries@.len()
                &&& final(self).entries@.len() == old(self).entries@.len() + 1
                &&& final(self).entries@.remove(q) == old(self).entries@
                &&& final(self).entries@[q].0 == path
                &&& final(self).entries@[q].1.lines@ == lines@
            }),
    {
        if self.contains(path.as_str()) {
            return false;
        }
        let doc = Document::new(lines);
        self.insert(path, doc);
        let ghost q = insert_pos(old(self).paths(), path@);
        assert(!(q < old(self).entries@.len() && old(self).paths()[q] == path@));
        assert(self.entries@.remove(q) =~= old(self).entries@);
        assert(self.paths()[q] == path@);
        true
    }
}

proof fn lemma_position_unique(paths: Seq<Seq<char>>, i: int)
    requires
        paths.no_duplicates(),
        0 <= i < paths.len(),
    ensures
        position_of(paths, paths[i]) == i,
    decreases paths.len(),
{
    let p = paths[i];
    let init = paths.drop_last();
    if i == paths.len() - 1 {
        assert(!init.contains(p)) by {
            if init.contains(p) {
                let k = choose|k: int| 0 <= k < init.len() && init[k] == p;
                assert(paths[k] == paths[i]);
            }
        }
    } else {
        assert(init[i] == p);
        assert(init.contains(p));
        assert(paths.last() != p);
        lemma_position_unique(init, i);
    }
}

proof fn lemma_position_absent(paths: Seq<Seq<char>>, p: Seq<char>)
    requires
        forall|j: int| 0 <= j < paths.len() ==> paths[j] != p,
    ensures
        !paths.contains(p),
        position_of(paths, p) == paths.len(),
{
    if paths.len() > 0 {
        assert(!paths.drop_last().contains(p)) by {
            if paths.drop_last().contains(p) {
                let k = choose|k: int| 0 <= k < paths.drop_last().len() && paths.drop_last()[k] == p;
                assert(paths[k] == p);
            }
        }
    }
}

/// Replace the document stored for `path` by one of text `lines`, and return
/// the imports it has that the replaced document did not have, which are the
/// ones still to be loaded. A path with no stored document is left alone.
pub fn update_docs(docs: &mut DocStore, path: &str, lines: Vec<String>) -> (r: Vec<Ident>)
    requires
        old(docs).wf(),
        fits_positions(lines_view(lines@)),
    ensures
        final(docs).wf(),
        !old(docs).paths().contains(path@) ==> *final(docs) == *old(docs) && r@.len() == 0,
        old(docs).paths().contains(path@) ==> ({
            let i = position_of(old(docs).paths(), path@);
            &&& 0 <= i < old(docs).entries@.len()
            &&& final(docs).entries@.len() == old(docs).entries@.len()
            &&& forall|j: int|
                0 <= j < old(docs).entries@.len() && j != i ==> final(docs).entries@[j]
                    == old(docs).entries@[j]
            &&& final(docs).entries@[i].0@ == path@
            &&& final(docs).entries@[i].1.lines@ == lines@
            &&& idents_view(r@).to_set() == import_set(lines_view(lines@)).difference(
                import_set(old(docs).entries@[i].1.line_texts()),
            )
            &&& idents_view(r@).no_duplicates()
        }),
{
    let i = match docs.find(path) {
        None => {
            return Vec::new();
        },
        Some(i) => i,
    };
    let new_doc = Document::new(lines);
    let ghost new_ids = idents_view(new_doc.imports@);
    let mut added: Vec<Ident> = Vec::new();
    {
        let old_doc = &docs.entries[i].1;
        assert(docs.entries@[i as int].1.wf());
        let ghost old_set = idents_view(old_doc.imports@).to_set();
        let mut k: usize = 0;
        assert(idents_view(added@).to_set() =~= new_ids.subrange(0, 0).to_set().difference(old_set));
        while k < new_doc.imports.len()
            invariant
                new_ids == idents_view(new_doc.imports@),
                new_ids.no_duplicates(),
                old_set == idents_view(old_doc.imports@).to_set(),
                k <= new_doc.imports.len(),
                idents_view(added@).to_set() == new_ids.subrange(0, k as int).to_set().difference(
                    old_set,
                ),
                idents_view(added@).no_duplicates(),
            decreases new_doc.imports.len() - k,
        {
            let x = &new_doc.imports[k];
            let ghost xv = ident_view(x);
            assert(new_ids[k as int] == xv);
            assert(new_ids.subrange(0, k + 1) =~= new_ids.subrange(0, k as int).push(xv));
            proof {
                new_ids.subrange(0, k as int).lemma_push_to_set_commute(xv);
            }
            if !contains_ident(&old_doc.imports, x) {
                assert(!idents_view(added@).contains(xv)) by {
                    if idents_view(added@).contains(xv) {
                        assert(idents_view(added@).to_set().contains(xv));
                        assert(new_ids.subrange(0, k as int).contains(xv));
                        let q = choose|q: int| 0 <= q < k && new_ids.subrange(0, k as int)[q] == xv;
                        assert(new_ids[q] == new_ids[k as int]);
                    }
                }
                let c = copy_ident(x);
                let ghost before = idents_view(added@);
                added.push(c);
                assert(idents_view(added@) =~= before.push(xv));
                proof {
                    before.lemma_push_to_set_commute(xv);
                }
                assert(!old_set.contains(xv));
                assert(idents_view(added@).to_set() =~= new_ids.subrange(0, k + 1).to_set().difference(
                    old_set,
                ));
            } else {
                assert(idents_view(old_doc.imports@).contains(xv));
                assert(old_set.contains(xv));
                assert(new_ids.subrange(0, k + 1).to_set() == new_ids.subrange(0, k as int).to_set().insert(xv));
                assert(idents_view(added@).to_set() =~= new_ids.subrange(0, k + 1).to_set().difference(
                    old_set,
                ));
            }
            k = k + 1;
        }
        assert(new_ids.subrange(0, k as int) =~= new_ids);
    }
    let key = docs.entries[i].0.clone();
    let ghost before = docs.paths();
    assert(before[i as int] == key@);
    docs.entries.set(i, (key, new_doc));
    assert(docs.paths() =~= before);
    added
}

} // verus!
