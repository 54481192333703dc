use vstd::prelude::*;

use crate::text::{chars_of, is_path_char, is_word_char, path_char, substring, word_char};

verus! {

/// A qualified name, one `String` per segment: `io::println` is `["io", "println"]`.
pub type Ident = Vec<String>;

/// The segments of an identifier, as character sequences.
pub open spec fn ident_view(id: &Ident) -> Seq<Seq<char>> {
    id.deep_view()
}

/// Where the token that touches offset `i` of `s` begins: left of `i`, path
/// characters (including `:`) extend it.
pub open spec fn token_start(s: Seq<char>, i: int) -> int
    decreases i,
{
    if i <= 0 {
        0
    } else if is_path_char(s[i - 1]) {
        token_start(s, i - 1)
    } else {
        i
    }
}

/// Where the token that touches offset `i` of `s` ends: right of `i`, only
/// name characters extend it.
pub open spec fn token_end(s: Seq<char>, i: int) -> int
    decreases s.len() - i,
{
    if i >= s.len() {
        s.len() as int
    } else if is_word_char(s[i]) {
        token_end(s, i + 1)
    } else {
        i
    }
}

/// `t` without its trailing `:` characters.
pub open spec fn trim_colons(t: Seq<char>) -> Seq<char>
    decreases t.len(),
{
    if t.len() > 0 && t.last() == ':' {
        trim_colons(t.drop_last())
    } else {
        t
    }
}

/// The pieces of `t` between `::` separators, scanning from `i` with the
/// current piece begun at `start`.
pub open spec fn split_from(t: Seq<char>, start: int, i: int) -> Seq<Seq<char>>
    decreases t.len() - i,
{
    if i + 1 < t.len() && t[i] == ':' && t[i + 1] == ':' {
        seq![t.subrange(start, i)] + split_from(t, i + 2, i + 2)
    } else if i + 1 < t.len() {
        split_from(t, start, i + 1)
    } else {
        seq![t.subrange(start, t.len() as int)]
    }
}

/// `t` split on `::`, left to right; never empty.
pub open spec fn split_path(t: Seq<char>) -> Seq<Seq<char>> {
    split_from(t, 0, 0)
}

/// The identifier that touches offset `i` of the line `s`.
pub open spec fn identifier_at(s: Seq<char>, i: int) -> Seq<Seq<char>> {
    split_path(trim_colons(s.subrange(token_start(s, i), token_end(s, i))))
}

proof fn lemma_token_start_bounds(s: Seq<char>, i: int)
    requires
        0 <= i <= s.len(),
    ensures
        0 <= token_start(s, i) <= i,
    decreases i,
{
    if i > 0 && is_path_char(s[i - 1]) {
        lemma_token_start_bounds(s, i - 1);
    }
}

pub(crate) proof fn lemma_token_end_bounds(s: Seq<char>, i: int)
    requires
        0 <= i <= s.len(),
    ensures
        i <= token_end(s, i) <= s.len(),
    decreases s.len() - i,
{
    if i < s.len() && is_word_char(s[i]) {
        lemma_token_end_bounds(s, i + 1);
    }
}

proof fn lemma_split_nonempty(t: Seq<char>, start: int, i: int)
    ensures
        split_from(t, start, i).len() >= 1,
    decreases t.len() - i,
{
    if i + 1 < t.len() && t[i] == ':' && t[i + 1] == ':' {
        lemma_split_nonempty(t, i + 2, i + 2);
    } else if i + 1 < t.len() {
        lemma_split_nonempty(t, start, i + 1);
    }
}

/// An identifier has at least one segment.
pub proof fn lemma_split_path_nonempty(t: Seq<char>)
    ensures
        split_path(t).len() >= 1,
{
    lemma_split_nonempty(t, 0, 0);
}

/// The segments of `s[lo..hi]` between `::` separators.
fn split_segments(s: &str, cs: &Vec<char>, lo: usize, hi: usize) -> (r: Ident)
    requires
        cs@ == s@,
        lo <= hi <= cs.len(),
    ensures
        ident_view(&r) == split_path(cs@.subrange(lo as int, hi as int)),
{
    let ghost t = cs@.subrange(lo as int, hi as int);
    let mut out: Ident = Vec::new();
    let mut start: usize = lo;
    let mut i: usize = lo;
    assert(ident_view(&out) + split_from(t, 0, 0) =~= split_path(t));
    while hi - i > 1
        invariant
            cs@ == s@,
            t == cs@.subrange(lo as int, hi as int),
            lo <= start <= i <= hi,
            hi <= cs.len(),
            ident_view(&out) + split_from(t, start - lo, i - lo) == split_path(t),
        decreases hi - i,
    {
        if cs[i] == ':' && cs[i + 1] == ':' {
            let piece = substring(s, start, i);
            let ghost before = ident_view(&out);
            assert(t.subrange(start - lo, i - lo) =~= piece@);
            out.push(piece);
            assert(ident_view(&out) =~= before + seq![piece@]);
            assert(ident_view(&out) + split_from(t, i + 2 - lo, i + 2 - lo) =~= before
                + split_from(t, start - lo, i - lo));
            i = i + 2;
            start = i;
        } else {
            i = i + 1;
        }
    }
    let piece = substring(s, start, hi);
    let ghost before = ident_view(&out);
    assert(t.subrange(start - lo, t.len() as int) =~= piece@);
    out.push(piece);
    assert(ident_view(&out) =~= before + seq![piece@]);
    out
}

/// The qualified identifier that touches character offset `char_idx` of
/// `line`, split into its segments.
pub fn get_identifier(line: &str, char_idx: u32) -> (r: Ident)
    requires
        char_idx <= line@.len(),
    ensures
        ident_view(&r) == identifier_at(line@, char_idx as int),
        r.len() >= 1,
{
    identifier_at_offset(line, char_idx as usize)
}

pub(crate) fn identifier_at_offset(line: &str, i: usize) -> (r: Ident)
    requires
        i <= line@.len(),
    ensures
        ident_view(&r) == identifier_at(line@, i as int),
        r.len() >= 1,
{
    let cs = chars_of(line);
    let mut start: usize = i;
    while start > 0 && path_char(cs[start - 1])
        invariant
            cs@ == line@,
            start <= i <= cs.len(),
            token_start(cs@, start as int) == token_start(cs@, i as int),
        decreases start,
    {
        start = start - 1;
    }
    let mut end: usize = i;
    while end < cs.len() && word_char(cs[end])
        invariant
            cs@ == line@,
            i <= end <= cs.len(),
            token_end(cs@, end as int) == token_end(cs@, i as int),
        decreases cs.len() - end,
    {
        end = end + 1;
    }
    let mut stop: usize = end;
    while stop > start && cs[stop - 1] == ':'
        invariant
            cs@ == line@,
            start <= stop <= end,
            end <= cs.len(),
            trim_colons(cs@.subrange(start as int, stop as int)) == trim_colons(
                cs@.subrange(start as int, end as int),
            ),
        decreases stop,
    {
        assert(cs@.subrange(start as int, stop as int).drop_last() =~= cs@.subrange(
            start as int,
            stop - 1,
        ));
        stop = stop - 1;
    }
    assert(trim_colons(cs@.subrange(start as int, stop as int)) == cs@.subrange(
        start as int,
        stop as int,
    ));
    let r = split_segments(line, &cs, start, stop);
    proof {
        lemma_split_path_nonempty(cs@.subrange(start as int, stop as int));
    }
    r
}

} // verus!
