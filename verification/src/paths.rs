//! Paths as text: names with slashes between them.

use crate::text::{
    char_at, chars_of, copied, find_last, last_index, lemma_last_index, push_all, text_of,
};
use std::cmp::Ordering;
use vstd::prelude::*;
use vstd::slice::slice_subrange;

verus! {

/// The last name of a path.
pub open spec fn name_of_path(p: Seq<char>) -> Seq<char> {
    p.skip(last_index(p, '/') + 1)
}

/// The path without its last name.
pub open spec fn parent_of(p: Seq<char>) -> Seq<char> {
    if last_index(p, '/') >= 0 {
        p.take(last_index(p, '/'))
    } else {
        seq![]
    }
}

/// A name inside a directory; the empty text is the directory at hand.
pub open spec fn under(dir: Seq<char>, name: Seq<char>) -> Seq<char> {
    if dir.len() == 0 {
        name
    } else {
        dir + seq!['/'] + name
    }
}

/// Where the extension of a name starts with its dot, or the length of the name.
/// A leading dot starts no extension.
pub open spec fn extension_at(name: Seq<char>) -> int {
    if last_index(name, '.') > 0 {
        last_index(name, '.')
    } else {
        name.len() as int
    }
}

/// A name without its extension.
pub open spec fn stem_of(name: Seq<char>) -> Seq<char> {
    name.take(extension_at(name))
}

/// The extension of a name, where it has one.
pub open spec fn extension_in(name: Seq<char>) -> Option<Seq<char>> {
    if extension_at(name) < name.len() {
        Some(name.skip(extension_at(name) + 1))
    } else {
        None
    }
}

/// A name in a directory is the last name of the path, and the directory its
/// parent.
pub proof fn name_and_directory_come_apart(dir: Seq<char>, name: Seq<char>)
    requires
        !name.contains('/'),
    ensures
        name_of_path(under(dir, name)) == name,
        parent_of(under(dir, name)) == dir,
{
    let p = under(dir, name);
    lemma_last_index(p, '/');
    let at = last_index(p, '/');
    if dir.len() == 0 {
        if at >= 0 {
            assert(name[at] == '/');
        }
        assert(p.skip(0) =~= name);
        assert(parent_of(p) =~= dir);
    } else {
        let d = dir.len() as int;
        assert(p[d] == '/');
        if at > d {
            assert(p[at] == name[at - d - 1]);
        }
        assert(p.skip(d + 1) =~= name);
        assert(p.take(d) =~= dir);
    }
}

pub fn name_part<'a>(v: &'a [char]) -> (r: &'a [char])
    ensures
        r@ == name_of_path(v@),
{
    proof {
        lemma_last_index(v@, '/');
    }
    let end = v.len();
    let start: usize = match find_last(v, '/') {
        Some(at) => at + 1,
        None => 0,
    };
    let r = slice_subrange(v, start, end);
    assert(r@ =~= v@.skip(start as int));
    r
}

pub fn parent_part<'a>(v: &'a [char]) -> (r: &'a [char])
    ensures
        r@ == parent_of(v@),
{
    proof {
        lemma_last_index(v@, '/');
    }
    let end: usize = match find_last(v, '/') {
        Some(at) => at,
        None => 0,
    };
    let r = slice_subrange(v, 0, end);
    assert(r@ =~= parent_of(v@));
    r
}

pub fn stem_part<'a>(name: &'a [char]) -> (r: &'a [char])
    ensures
        r@ == stem_of(name@),
{
    proof {
        lemma_last_index(name@, '.');
    }
    let end: usize = match find_last(name, '.') {
        Some(at) if at > 0 => at,
        _ => name.len(),
    };
    slice_subrange(name, 0, end)
}

pub fn extension_part<'a>(name: &'a [char]) -> (r: Option<&'a [char]>)
    ensures
        match r {
            Some(e) => extension_in(name@) == Some(e@),
            None => extension_in(name@) is None,
        },
{
    proof {
        lemma_last_index(name@, '.');
    }
    let end = name.len();
    match find_last(name, '.') {
        Some(at) if at > 0 => {
            let e = slice_subrange(name, at + 1, end);
            assert(e@ =~= name@.skip(at + 1));
            Some(e)
        },
        _ => None,
    }
}

pub fn join_chars(dir: &[char], name: &[char]) -> (r: Vec<char>)
    ensures
        r@ == under(dir@, name@),
{
    let mut r = copied(dir);
    if dir.len() > 0 {
        r.push('/');
    }
    push_all(&mut r, name);
    assert(r@ =~= under(dir@, name@));
    r
}

/// A name, or a relative path, inside a directory.
pub fn join(dir: &str, name: &str) -> (r: String)
    ensures
        r@ == under(dir@, name@),
{
    text_of(&join_chars(&chars_of(dir), &chars_of(name)))
}

/// How a character sorts in a path: a slash ends a name, so it comes first.
pub open spec fn char_rank(c: char) -> int {
    if c == '/' {
        0
    } else {
        c as int + 1
    }
}

/// Paths compared name by name, and names character by character.
pub open spec fn path_before(a: Seq<char>, b: Seq<char>) -> bool
    decreases a.len(),
{
    if b.len() == 0 {
        false
    } else if a.len() == 0 {
        true
    } else if char_rank(a[0]) == char_rank(b[0]) {
        path_before(a.drop_first(), b.drop_first())
    } else {
        char_rank(a[0]) < char_rank(b[0])
    }
}

proof fn lemma_rank(a: char, b: char)
    ensures
        char_rank(a) == char_rank(b) <==> a == b,
{
}

/// The order of paths is strict and total.
pub proof fn path_order_is_total(a: Seq<char>, b: Seq<char>)
    ensures
        !(path_before(a, b) && path_before(b, a)),
        a == b <==> !path_before(a, b) && !path_before(b, a),
    decreases a.len(),
{
    if a.len() > 0 && b.len() > 0 {
        path_order_is_total(a.drop_first(), b.drop_first());
        if char_rank(a[0]) == char_rank(b[0]) {
            lemma_rank(a[0], b[0]);
            if a.drop_first() == b.drop_first() {
                assert(a =~= seq![a[0]] + a.drop_first());
                assert(b =~= seq![b[0]] + b.drop_first());
            }
        }
    } else if a.len() == 0 && b.len() == 0 {
        assert(a =~= b);
    }
}

/// The order of paths is transitive.
pub proof fn path_order_is_transitive(a: Seq<char>, b: Seq<char>, c: Seq<char>)
    requires
        path_before(a, b),
        path_before(b, c),
    ensures
        path_before(a, c),
    decreases a.len(),
{
    if a.len() > 0 && char_rank(a[0]) == char_rank(b[0]) && char_rank(b[0]) == char_rank(c[0]) {
        path_order_is_transitive(a.drop_first(), b.drop_first(), c.drop_first());
    }
}

fn rank(c: char) -> (r: u32)
    ensures
        r == char_rank(c),
{
    if c == '/' {
        0
    } else {
        c as u32 + 1
    }
}

/// Whether `a` sorts before `b`.
pub fn sorts_before(a: &str, b: &str) -> (r: bool)
    ensures
        r == path_before(a@, b@),
{
    let x = chars_of(a);
    let y = chars_of(b);
    let mut i: usize = 0;
    assert(x@.skip(0) =~= x@);
    assert(y@.skip(0) =~= y@);
    while i < x.len() && i < y.len()
        invariant
            x@ == a@,
            y@ == b@,
            i <= x@.len(),
            i <= y@.len(),
            path_before(x@, y@) == path_before(x@.skip(i as int), y@.skip(i as int)),
        decreases x@.len() - i,
    {
        let p = rank(char_at(&x, i));
        let q = rank(char_at(&y, i));
        if p != q {
            return p < q;
        }
        assert(x@.skip(i as int).drop_first() =~= x@.skip(i + 1));
        assert(y@.skip(i as int).drop_first() =~= y@.skip(i + 1));
        i += 1;
    }
    i < y.len()
}

/// Something filed under a directory and a name in it.
#[derive(Debug)]
pub struct Filed {
    pub dir: String,
    pub name: String,
    pub index: usize,
}

/// The order of filed things: by directory, by name, by index.
pub open spec fn filed_before(a: Filed, b: Filed) -> bool {
    if a.dir@ != b.dir@ {
        path_before(a.dir@, b.dir@)
    } else if a.name@ != b.name@ {
        path_before(a.name@, b.name@)
    } else {
        a.index < b.index
    }
}

/// The order of filed things is strict, total and transitive.
pub proof fn filed_order(a: Filed, b: Filed, c: Filed)
    ensures
        !(filed_before(a, b) && filed_before(b, a)),
        !filed_before(a, b) && !filed_before(b, a) <==> a.dir@ == b.dir@ && a.name@ == b.name@
            && a.index == b.index,
        filed_before(a, b) && filed_before(b, c) ==> filed_before(a, c),
{
    path_order_is_total(a.dir@, b.dir@);
    path_order_is_total(b.dir@, c.dir@);
    path_order_is_total(a.name@, b.name@);
    path_order_is_total(b.name@, c.name@);
    if path_before(a.dir@, b.dir@) && path_before(b.dir@, c.dir@) {
        path_order_is_transitive(a.dir@, b.dir@, c.dir@);
        path_order_is_total(a.dir@, c.dir@);
    }
    if path_before(a.name@, b.name@) && path_before(b.name@, c.name@) {
        path_order_is_transitive(a.name@, b.name@, c.name@);
        path_order_is_total(a.name@, c.name@);
    }
}

fn compare(a: &Filed, b: &Filed) -> (r: Ordering)
    ensures
        r == (if filed_before(*a, *b) {
            Ordering::Less
        } else if filed_before(*b, *a) {
            Ordering::Greater
        } else {
            Ordering::Equal
        }),
{
    proof {
        filed_order(*a, *b, *b);
        path_order_is_total(a.dir@, b.dir@);
        path_order_is_total(a.name@, b.name@);
    }
    if sorts_before(a.dir.as_str(), b.dir.as_str()) {
        Ordering::Less
    } else if sorts_before(b.dir.as_str(), a.dir.as_str()) {
        Ordering::Greater
    } else if sorts_before(a.name.as_str(), b.name.as_str()) {
        Ordering::Less
    } else if sorts_before(b.name.as_str(), a.name.as_str()) {
        Ordering::Greater
    } else if a.index < b.index {
        Ordering::Less
    } else if b.index < a.index {
        Ordering::Greater
    } else {
        Ordering::Equal
    }
}

/// `slice::sort_by` of the standard library, with the order of filed things: the
/// same things come out, and none of them before one that sorts before it.
#[verifier::external_body]
pub(crate) fn sort_filed(v: &mut Vec<Filed>)
    ensures
        final(v)@.to_multiset() == old(v)@.to_multiset(),
        forall|i: int, j: int|
            0 <= i < j < final(v)@.len() ==> !filed_before(
                #[trigger] final(v)@[j],
                #[trigger] final(v)@[i],
            ),
{
    v.sort_by(|a, b| compare(a, b))
}

/// Whether `v` numbers its things from 0 on.
pub open spec fn numbered(v: Seq<Filed>) -> bool {
    forall|k: int| 0 <= k < v.len() ==> (#[trigger] v[k]).index == k
}

/// Whether one of the things has the index `k`.
pub open spec fn has_index(r: Seq<Filed>, k: int) -> bool {
    exists|p: int| 0 <= p < r.len() && (#[trigger] r[p]).index == k
}

/// Whether `r` holds the things of `v` in order.
pub open spec fn in_order(v: Seq<Filed>, r: Seq<Filed>) -> bool {
    &&& r.len() == v.len()
    &&& forall|p: int| 0 <= p < r.len() ==> (#[trigger] r[p]).index < v.len() && r[p] == v[r[p].index
        as int]
    &&& forall|k: int| 0 <= k < v.len() ==> #[trigger] has_index(r, k)
    &&& forall|i: int, j: int|
        0 <= i < j < r.len() ==> filed_before(#[trigger] r[i], #[trigger] r[j])
}

/// The things of `v`, in order.
pub fn sorted(v: Vec<Filed>) -> (r: Vec<Filed>)
    requires
        numbered(v@),
    ensures
        in_order(v@, r@),
{
    let ghost before = v@;
    let mut v = v;
    sort_filed(&mut v);
    proof {
        lemma_sorted(before, v@);
    }
    v
}

proof fn lemma_sorted(v: Seq<Filed>, r: Seq<Filed>)
    requires
        numbered(v),
        r.to_multiset() == v.to_multiset(),
        forall|i: int, j: int|
            0 <= i < j < r.len() ==> !filed_before(#[trigger] r[j], #[trigger] r[i]),
    ensures
        in_order(v, r),
{
    v.to_multiset_ensures();
    r.to_multiset_ensures();
    assert(r.len() == r.to_multiset().len());
    assert(v.len() == v.to_multiset().len());
    assert forall|p: int| 0 <= p < r.len() implies (#[trigger] r[p]).index < v.len() && r[p]
        == v[r[p].index as int] by {
        assert(r.contains(r[p]));
        assert(r.to_multiset().count(r[p]) > 0);
        assert(v.contains(r[p]));
    }
    assert forall|k: int| 0 <= k < v.len() implies #[trigger] has_index(r, k) by {
        assert(v.contains(v[k]));
        assert(v.to_multiset().count(v[k]) > 0);
        assert(r.contains(v[k]));
        let p = choose|p: int| 0 <= p < r.len() && r[p] == v[k];
        assert(r[p].index == k);
    }
    assert(v.no_duplicates()) by {
        assert forall|i: int, j: int| 0 <= i < v.len() && 0 <= j < v.len() && i != j implies v[i]
            != v[j] by {
            assert(v[i].index == i && v[j].index == j);
        }
    }
    v.lemma_multiset_has_no_duplicates();
    r.lemma_multiset_has_no_duplicates_conv();
    assert forall|i: int, j: int| 0 <= i < j < r.len() implies filed_before(
        #[trigger] r[i],
        #[trigger] r[j],
    ) by {
        assert(r[i] != r[j]);
        filed_order(r[i], r[j], r[j]);
    }
}

/// A name that ends in a dot and a text without dots has the one as its stem and the
/// other as its extension, unless the dot is the first character.
pub proof fn stem_and_extension_come_apart(stem: Seq<char>, ext: Seq<char>)
    requires
        stem.len() > 0,
        !ext.contains('.'),
    ensures
        stem_of(stem + seq!['.'] + ext) == stem,
        extension_in(stem + seq!['.'] + ext) == Some(ext),
{
    let name = stem + seq!['.'] + ext;
    let n = stem.len() as int;
    lemma_last_index(name, '.');
    let at = last_index(name, '.');
    assert(name[n] == '.');
    if at > n {
        assert(ext[at - n - 1] == '.');
    }
    assert(name.take(n) =~= stem);
    assert(name.skip(n + 1) =~= ext);
}

} // verus!
