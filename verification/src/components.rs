//! Paths taken apart into their components.

use crate::text::{
    chars_of, copied, find, find_any, joined, lemma_find_any, lemma_find_any_is, push_all, same,
    split_any, text_of,
};
use vstd::prelude::*;
use vstd::slice::slice_subrange;

verus! {

pub open spec fn char_views(v: Seq<Vec<char>>) -> Seq<Seq<char>> {
    v.map_values(|n: Vec<char>| n@)
}

/// One piece taken off the front of the rest of a text.
proof fn lemma_split_step(s: Seq<char>, start: int)
    requires
        0 <= start <= s.len(),
    ensures
        ({
            let rest = s.skip(start);
            let end = find_any(s, seq!['/'], start);
            let pieces = split_any(rest, seq!['/']);
            &&& start <= end <= s.len()
            &&& pieces.len() > 0
            &&& pieces[0] == rest.take(end - start)
            &&& end < s.len() ==> pieces.skip(1) == split_any(s.skip(end + 1), seq!['/'])
            &&& end >= s.len() ==> pieces.len() == 1
        }),
{
    let rest = s.skip(start);
    let end = find_any(s, seq!['/'], start);
    lemma_find_any(s, seq!['/'], start);
    assert forall|i: int| 0 <= i < end - start implies !seq!['/'].contains(#[trigger] rest[i]) by {
        assert(rest[i] == s[i + start]);
    }
    lemma_find_any_is(rest, seq!['/'], 0, end - start);
    let pieces = split_any(rest, seq!['/']);
    if end < s.len() {
        assert(rest.skip(end - start + 1) =~= s.skip(end + 1));
        assert(pieces.skip(1) =~= split_any(s.skip(end + 1), seq!['/']));
    } else {
        assert(rest.take(end - start) =~= rest);
    }
}

/// The pieces of a text between its slashes.
pub fn pieces(v: &[char]) -> (r: Vec<Vec<char>>)
    ensures
        char_views(r@) == split_any(v@, seq!['/']),
{
    let slash: [char; 1] = ['/'];
    assert(slash@ =~= seq!['/']);
    let ghost all = split_any(v@, seq!['/']);
    let mut out: Vec<Vec<char>> = Vec::new();
    let mut start: usize = 0;
    let mut more = true;
    let end_of_all = v.len();
    assert(v@.skip(0) =~= v@);
    assert(all.skip(0) =~= all);
    assert(char_views(out@) =~= all.take(0));
    while more
        invariant
            slash@ == seq!['/'],
            all == split_any(v@, seq!['/']),
            start <= v@.len(),
            end_of_all == v@.len(),
            out@.len() <= all.len(),
            more ==> all.skip(out@.len() as int) == split_any(v@.skip(start as int), seq!['/']),
            !more ==> out@.len() == all.len(),
            char_views(out@) == all.take(out@.len() as int),
        decreases (if more {
            v@.len() - start + 1
        } else {
            0
        }),
    {
        let ghost rest = v@.skip(start as int);
        let ghost k = out@.len() as int;
        let end = find(v, &slash, start);
        let name = slice_subrange(v, start, end);
        proof {
            lemma_split_step(v@, start as int);
            assert(name@ =~= rest.take(end - start));
            assert(all.skip(k).len() > 0);
            assert(all[k] == all.skip(k)[0]);
            assert(all.skip(k + 1) =~= all.skip(k).skip(1));
        }
        let ghost before = char_views(out@);
        out.push(copied(name));
        assert(char_views(out@) =~= before.push(name@));
        assert(all.take(k + 1) =~= all.take(k).push(all[k]));
        if end >= end_of_all {
            more = false;
        } else {
            start = end + 1;
        }
    }
    assert(all.take(all.len() as int) =~= all);
    out
}

/// The names from the `from`th on, with slashes between them, behind a text.
pub fn push_names(out: &mut Vec<char>, names: &Vec<Vec<char>>, from: usize)
    requires
        from <= names@.len(),
    ensures
        final(out)@ == old(out)@ + joined(char_views(names@).skip(from as int)),
{
    let ghost root = out@;
    let ghost all = char_views(names@).skip(from as int);
    let mut i: usize = from;
    assert(out@ =~= root + joined(all.take(0)));
    while i < names.len()
        invariant
            from <= i <= names@.len(),
            all == char_views(names@).skip(from as int),
            out@ == root + joined(all.take(i - from)),
        decreases names@.len() - i,
    {
        let ghost k = i - from;
        assert(all.take(k + 1).drop_last() =~= all.take(k));
        assert(all.take(k + 1).last() == names@[i as int]@);
        if i > from {
            out.push('/');
        }
        push_all(out, &names[i]);
        assert(out@ =~= root + joined(all.take(k + 1)));
        i += 1;
    }
    assert(all.take(i - from) =~= all);
}

/// The pieces that name something: neither empty ones nor a `.` behind another piece.
pub open spec fn names_among(pieces: Seq<Seq<char>>) -> Seq<Seq<char>>
    decreases pieces.len(),
{
    if pieces.len() == 0 {
        seq![]
    } else {
        let before = names_among(pieces.drop_last());
        let name = pieces.last();
        if name.len() == 0 || name == seq!['.'] && pieces.len() > 1 {
            before
        } else {
            before.push(name)
        }
    }
}

/// The components of a path: the root of an absolute one, which has no name, and the
/// names.
pub open spec fn components_of(path: Seq<char>) -> Seq<Seq<char>> {
    let names = names_among(split_any(path, seq!['/']));
    if path.len() > 0 && path[0] == '/' {
        seq![Seq::<char>::empty()] + names
    } else {
        names
    }
}

pub fn components(path: &[char]) -> (r: Vec<Vec<char>>)
    ensures
        char_views(r@) == components_of(path@),
{
    let parts = pieces(path);
    let ghost all = char_views(parts@);
    let mut out: Vec<Vec<char>> = Vec::new();
    if path.len() > 0 && path[0] == '/' {
        out.push(Vec::new());
    }
    let ghost lead = char_views(out@);
    assert(path@.len() > 0 && path@[0] == '/' ==> lead =~= seq![Seq::<char>::empty()]);
    assert(!(path@.len() > 0 && path@[0] == '/') ==> lead =~= Seq::<Seq<char>>::empty());
    assert(lead =~= lead + names_among(all.take(0)));
    let mut i: usize = 0;
    while i < parts.len()
        invariant
            i <= parts@.len(),
            all == char_views(parts@),
            char_views(out@) == lead + names_among(all.take(i as int)),
        decreases parts@.len() - i,
    {
        let name = &parts[i];
        let ghost before = char_views(out@);
        assert(all.take(i + 1).drop_last() =~= all.take(i as int));
        assert(all.take(i + 1).last() == name@);
        let dot = name.len() == 1 && name[0] == '.';
        assert(dot == (name@ == seq!['.'])) by {
            if dot {
                assert(name@ =~= seq!['.']);
            }
        }
        if !(name.len() == 0 || dot && i > 0) {
            out.push(copied(name));
            assert(char_views(out@) =~= before.push(name@));
        }
        assert(char_views(out@) =~= lead + names_among(all.take(i + 1)));
        i += 1;
    }
    assert(all.take(i as int) =~= all);
    assert(char_views(out@) =~= components_of(path@));
    out
}

/// Whether a path is a directory or something in it, component by component.
pub open spec fn is_within(path: Seq<char>, dir: Seq<char>) -> bool {
    components_of(dir).is_prefix_of(components_of(path))
}

fn is_prefix(short: &Vec<Vec<char>>, long: &Vec<Vec<char>>) -> (b: bool)
    ensures
        b == char_views(short@).is_prefix_of(char_views(long@)),
{
    let ghost s = char_views(short@);
    let ghost l = char_views(long@);
    if short.len() > long.len() {
        return false;
    }
    let mut i: usize = 0;
    while i < short.len()
        invariant
            i <= short@.len() <= long@.len(),
            s == char_views(short@),
            l == char_views(long@),
            forall|k: int| 0 <= k < i ==> s[k] == l[k],
        decreases short@.len() - i,
    {
        if !same(&short[i], &long[i]) {
            assert(s[i as int] != l.subrange(0, s.len() as int)[i as int]);
            return false;
        }
        i += 1;
    }
    assert(s =~= l.subrange(0, s.len() as int));
    true
}

pub fn within(path: &[char], dir: &[char]) -> (b: bool)
    ensures
        b == is_within(path@, dir@),
{
    is_prefix(&components(dir), &components(path))
}

/// A path as seen from a directory above it.
pub open spec fn relative_to(root: Seq<char>, path: Seq<char>) -> Seq<char> {
    if is_within(path, root) {
        joined(components_of(path).skip(components_of(root).len() as int))
    } else {
        path
    }
}

pub fn relative(root: &str, path: &str) -> (r: String)
    ensures
        r@ == relative_to(root@, path@),
{
    let v = chars_of(path);
    let above = components(&chars_of(root));
    let names = components(&v);
    if !is_prefix(&above, &names) {
        return text_of(&v);
    }
    let mut out: Vec<char> = Vec::new();
    push_names(&mut out, &names, above.len());
    assert(out@ =~= relative_to(root@, path@));
    text_of(&out)
}

} // verus!
