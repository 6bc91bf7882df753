//! Path component sanitization.
//!
//! Applied to every rendered path component on every platform, so that a
//! collection organized on Linux transfers to Windows unchanged.

use crate::text::{
    ascii_lower, begins, byte_len, bytes_within, char_width, chars_of, clip, clip_point, copied, find,
    find_any, find_last, fits, last_index, lemma_byte_len_add, lemma_byte_len_take, lemma_clip,
    lemma_clip_is, lemma_find_any, lemma_find_any_is, lower, lowered, push_all,
    starts_with, text_of,
};
use unicode_normalization::UnicodeNormalization;
use vstd::prelude::*;
use vstd::slice::slice_subrange;

verus! {

/// Max bytes per path component after sanitization.
pub const MAX_COMPONENT_LEN: usize = 100;

/// Windows starts rejecting paths beyond this without the verbatim prefix.
pub const WINDOWS_PATH_LIMIT: usize = 259;

pub const PLACEHOLDER: &'static str = "unnamed";

pub const UNKNOWN_DATE: &'static str = "unknown-date";

pub const UNKNOWN_LOCATION: &'static str = "unknown-location";

/// What the `unicode-normalization` crate makes of a text in normalization form C.
pub uninterp spec fn nfc_text(s: Seq<char>) -> Seq<char>;

/// `UnicodeNormalization::nfc`, collected into characters: the canonical
/// composition of the text, a function of the text alone.
#[verifier::external_body]
fn nfc(s: &str) -> (v: Vec<char>)
    ensures
        v@ == nfc_text(s@),
{
    s.nfc().collect()
}

/// A character that some file system refuses in a name: one of
/// `< > : " / \ | ? *` or a control character.
pub open spec fn is_illegal(c: char) -> bool {
    ||| c == '<'
    ||| c == '>'
    ||| c == ':'
    ||| c == '"'
    ||| c == '/'
    ||| c == '\\'
    ||| c == '|'
    ||| c == '?'
    ||| c == '*'
    ||| c as u32 <= 0x1f
    ||| 0x7f <= c as u32 <= 0x9f
}

/// A character that is stripped from both ends of a component.
pub open spec fn is_edge(c: char) -> bool {
    c == '.' || c == ' '
}

/// A text with every illegal character replaced.
pub open spec fn replaced(s: Seq<char>) -> Seq<char> {
    s.map_values(
        |c: char|
            if is_illegal(c) {
                '-'
            } else {
                c
            },
    )
}

pub open spec fn strip_end(s: Seq<char>) -> Seq<char>
    decreases s.len(),
{
    if s.len() > 0 && is_edge(s.last()) {
        strip_end(s.drop_last())
    } else {
        s
    }
}

pub open spec fn strip_start(s: Seq<char>) -> Seq<char>
    decreases s.len(),
{
    if s.len() > 0 && is_edge(s[0]) {
        strip_start(s.drop_first())
    } else {
        s
    }
}

/// A name that Windows keeps for a device, whatever the case of its letters.
pub open spec fn is_device(s: Seq<char>) -> bool {
    let l = lower(s);
    ||| l == seq!['c', 'o', 'n']
    ||| l == seq!['p', 'r', 'n']
    ||| l == seq!['a', 'u', 'x']
    ||| l == seq!['n', 'u', 'l']
    ||| l.len() == 4 && (l.take(3) == seq!['c', 'o', 'm'] || l.take(3) == seq!['l', 'p', 't'])
        && '1' <= l[3] && l[3] <= '9'
}

/// What stands before the first dot.
pub open spec fn before_dot(s: Seq<char>) -> Seq<char> {
    s.take(find_any(s, seq!['.'], 0))
}

/// A component whose part before the first dot is a device name.
pub open spec fn is_reserved_name(s: Seq<char>) -> bool {
    is_device(before_dot(s))
}

/// A reserved name made harmless by a leading underscore.
pub open spec fn escaped(s: Seq<char>) -> Seq<char> {
    if is_reserved_name(s) {
        strip_end(clip(seq!['_'] + s, MAX_COMPONENT_LEN as nat))
    } else {
        s
    }
}

/// An empty name replaced by the placeholder, a reserved one escaped.
pub open spec fn settled(s: Seq<char>) -> Seq<char> {
    if s.len() == 0 {
        PLACEHOLDER@
    } else {
        escaped(s)
    }
}

/// The component that stands for a text whose normalized form is `n`.
pub open spec fn component_of(n: Seq<char>) -> Seq<char> {
    settled(strip_start(strip_end(clip(replaced(n), MAX_COMPONENT_LEN as nat))))
}

/// Whether a file name is taken apart at its last dot: there is something before
/// it, and what follows is short and holds no space.
pub open spec fn has_extension(s: Seq<char>) -> bool {
    let at = last_index(s, '.');
    at > 0 && byte_len(s.skip(at + 1)) <= 16 && !s.skip(at + 1).contains(' ')
}

/// The bytes left for the stem beside a sanitized extension.
pub open spec fn stem_budget(ext: Seq<char>) -> nat {
    if byte_len(ext) + 2 <= MAX_COMPONENT_LEN {
        (MAX_COMPONENT_LEN - byte_len(ext) - 1) as nat
    } else {
        1
    }
}

/// A sanitized stem and a sanitized extension put together, the stem cut to fit.
pub open spec fn name_of(stem: Seq<char>, ext: Seq<char>) -> Seq<char> {
    settled(strip_end(clip(stem, stem_budget(ext)))) + seq!['.'] + ext
}

/// The file name that stands for `s`.
pub open spec fn file_name_of(s: Seq<char>) -> Seq<char> {
    if has_extension(s) {
        let at = last_index(s, '.');
        name_of(component_of(nfc_text(s.take(at))), component_of(nfc_text(s.skip(at + 1))))
    } else {
        component_of(nfc_text(s))
    }
}

/// What every sanitized component keeps: it is not empty, fits the limit, holds
/// no illegal character, neither starts nor ends with a dot or a space and is no
/// device name.
pub open spec fn is_clean(s: Seq<char>) -> bool {
    &&& s.len() > 0
    &&& byte_len(s) <= MAX_COMPONENT_LEN
    &&& has_clean_shape(s)
}

/// `is_clean` without the limit.
pub open spec fn has_clean_shape(s: Seq<char>) -> bool {
    &&& s.len() > 0
    &&& forall|i: int| 0 <= i < s.len() ==> !is_illegal(#[trigger] s[i])
    &&& !is_edge(s[0])
    &&& !is_edge(s.last())
    &&& !is_reserved_name(s)
}

fn illegal(c: char) -> (b: bool)
    ensures
        b == is_illegal(c),
{
    let u: u32 = c as u32;
    c == '<' || c == '>' || c == ':' || c == '"' || c == '/' || c == '\\' || c == '|' || c == '?'
        || c == '*' || u <= 0x1f || (0x7f <= u && u <= 0x9f)
}

fn replace_illegal(v: &[char]) -> (r: Vec<char>)
    ensures
        r@ == replaced(v@),
{
    let mut r: Vec<char> = Vec::new();
    let mut i: usize = 0;
    while i < v.len()
        invariant
            i <= v@.len(),
            r@.len() == i,
            forall|k: int| 0 <= k < i ==> r@[k] == replaced(v@)[k],
        decreases v@.len() - i,
    {
        let c = v[i];
        if illegal(c) {
            r.push('-');
        } else {
            r.push(c);
        }
        i += 1;
    }
    assert(r@ =~= replaced(v@));
    r
}

/// Drops the dots and spaces at the end.
fn drop_edge_end(v: &mut Vec<char>)
    ensures
        final(v)@ == strip_end(old(v)@),
{
    while v.len() > 0 && (v[v.len() - 1] == '.' || v[v.len() - 1] == ' ')
        invariant
            strip_end(v@) == strip_end(old(v)@),
        decreases v@.len(),
    {
        let ghost before = v@;
        v.pop();
        assert(v@ == before.drop_last());
    }
}

fn drop_edge_start(v: &[char]) -> (r: Vec<char>)
    ensures
        r@ == strip_start(v@),
{
    let mut i: usize = 0;
    assert(v@.skip(0) =~= v@);
    while i < v.len() && (v[i] == '.' || v[i] == ' ')
        invariant
            i <= v@.len(),
            strip_start(v@.skip(i as int)) == strip_start(v@),
        decreases v@.len() - i,
    {
        assert(v@.skip(i as int).drop_first() =~= v@.skip(i + 1));
        i += 1;
    }
    let rest = slice_subrange(v, i, v.len());
    assert(rest@ =~= v@.skip(i as int));
    copied(rest)
}

fn device(v: &[char]) -> (b: bool)
    ensures
        b == is_device(v@),
{
    let l = lowered(v);
    if l.len() == 3 {
        let r = (l[0] == 'c' && l[1] == 'o' && l[2] == 'n') || (l[0] == 'p' && l[1] == 'r' && l[2]
            == 'n') || (l[0] == 'a' && l[1] == 'u' && l[2] == 'x') || (l[0] == 'n' && l[1] == 'u'
            && l[2] == 'l');
        proof {
            if r {
                assert(l@ =~= seq!['c', 'o', 'n'] || l@ =~= seq!['p', 'r', 'n'] || l@ =~= seq![
                    'a',
                    'u',
                    'x',
                ] || l@ =~= seq!['n', 'u', 'l']);
            }
        }
        r
    } else if l.len() == 4 {
        let r = ((l[0] == 'c' && l[1] == 'o' && l[2] == 'm') || (l[0] == 'l' && l[1] == 'p' && l[2]
            == 't')) && '1' <= l[3] && l[3] <= '9';
        proof {
            let t = l@.take(3);
            assert(t[0] == l@[0] && t[1] == l@[1] && t[2] == l@[2]);
            if r {
                assert(t =~= seq!['c', 'o', 'm'] || t =~= seq!['l', 'p', 't']);
            }
        }
        r
    } else {
        false
    }
}

fn is_reserved(v: &[char]) -> (b: bool)
    ensures
        b == is_reserved_name(v@),
{
    let dot: [char; 1] = ['.'];
    assert(dot@ =~= seq!['.']);
    let at = find(v, &dot, 0);
    device(slice_subrange(v, 0, at))
}

fn escape(v: Vec<char>) -> (r: Vec<char>)
    ensures
        r@ == escaped(v@),
{
    if is_reserved(&v) {
        let mut r: Vec<char> = Vec::new();
        r.push('_');
        push_all(&mut r, &v);
        assert(r@ =~= seq!['_'] + v@);
        truncate_chars(&mut r, MAX_COMPONENT_LEN);
        drop_edge_end(&mut r);
        r
    } else {
        v
    }
}

fn settle(v: Vec<char>) -> (r: Vec<char>)
    ensures
        r@ == settled(v@),
{
    if v.len() == 0 {
        chars_of(PLACEHOLDER)
    } else {
        escape(v)
    }
}

/// Cuts to at most `max` bytes, never inside a character.
fn truncate_chars(v: &mut Vec<char>, max: usize)
    ensures
        final(v)@ == clip(old(v)@, max as nat),
{
    let n = clip_point(v, max);
    v.truncate(n);
    assert(v@ =~= old(v)@.take(n as int));
}

/// The component for a text in normalization form C.
pub fn component_chars(normalized: &[char]) -> (r: Vec<char>)
    ensures
        r@ == component_of(normalized@),
        is_clean(r@),
{
    let mut v = replace_illegal(normalized);
    truncate_chars(&mut v, MAX_COMPONENT_LEN);
    drop_edge_end(&mut v);
    let v = drop_edge_start(&v);
    proof {
        component_is_clean(normalized@);
    }
    settle(v)
}

/// Sanitize one path component (a directory name or a file name).
pub fn component(input: &str) -> (r: String)
    ensures
        r@ == component_of(nfc_text(input@)),
        is_clean(r@),
{
    let normalized = nfc(input);
    let v = component_chars(&normalized);
    text_of(&v)
}

/// Sanitize a file name, preserving its extension through truncation.
pub fn file_name(input: &str) -> (r: String)
    ensures
        r@ == file_name_of(input@),
        has_clean_shape(r@),
        byte_len(r@) <= MAX_COMPONENT_LEN || has_extension(input@) && byte_len(
            component_of(nfc_text(input@.skip(last_index(input@, '.') + 1))),
        ) > 92,
{
    proof {
        file_name_is_clean(input@);
    }
    let v = chars_of(input);
    let end = v.len();
    let at = match find_last(&v, '.') {
        Some(at) if at > 0 => at,
        _ => {
            return component(input);
        },
    };
    let stem = slice_subrange(&v, 0, at);
    let ext = slice_subrange(&v, at + 1, end);
    assert(stem@ =~= v@.take(at as int));
    assert(ext@ =~= v@.skip(at + 1));
    let space: [char; 1] = [' '];
    assert(space@ =~= seq![' ']);
    let gap = find(ext, &space, 0);
    proof {
        if gap < ext@.len() {
            assert(seq![' '].contains(ext@[gap as int]));
            assert(ext@[gap as int] == ' ');
        } else if ext@.contains(' ') {
            let k = choose|k: int| 0 <= k < ext@.len() && ext@[k] == ' ';
            assert(seq![' '][0] == ext@[k]);
            assert(seq![' '].contains(ext@[k]));
        }
    }
    if !fits(ext, 16) || gap < ext.len() {
        return component(input);
    }
    let ext = chars_of(component(text_of(ext).as_str()).as_str());
    let stem = chars_of(component(text_of(stem).as_str()).as_str());
    let v = name_chars(stem, &ext);
    text_of(&v)
}

/// The file name made of a sanitized stem and a sanitized extension.
pub fn name_chars(stem: Vec<char>, ext: &[char]) -> (r: Vec<char>)
    ensures
        r@ == name_of(stem@, ext@),
{
    let budget: usize = match bytes_within(ext, MAX_COMPONENT_LEN - 2) {
        Some(n) => MAX_COMPONENT_LEN - n - 1,
        None => 1,
    };
    let mut stem = stem;
    truncate_chars(&mut stem, budget);
    drop_edge_end(&mut stem);
    let mut r = settle(stem);
    r.push('.');
    push_all(&mut r, ext);
    r
}

/// The system that paths are handed to.
#[derive(Debug, Clone, Copy, PartialEq, Eq, Structural)]
pub enum Platform {
    Unix,
    Windows,
    Other,
}

/// A path of Windows in the form that has no length limit.
pub open spec fn verbatim(path: Seq<char>) -> Seq<char> {
    if starts_with(path, seq!['\\', '\\']) {
        seq!['\\', '\\', '?', '\\', 'U', 'N', 'C', '\\'] + path.skip(2)
    } else {
        seq!['\\', '\\', '?', '\\'] + path
    }
}

/// A path as it is handed to the system. Only absolute paths can be made
/// verbatim.
pub open spec fn extended(path: Seq<char>, absolute: bool, platform: Platform) -> Seq<char> {
    if platform is Windows && absolute && byte_len(path) >= WINDOWS_PATH_LIMIT && !starts_with(
        path,
        seq!['\\', '\\', '?', '\\'],
    ) {
        verbatim(path)
    } else {
        path
    }
}

/// Prefix over-long Windows paths with the verbatim marker so the 260-char
/// limit does not apply.
pub fn extended_path(path: &str, absolute: bool, platform: Platform) -> (r: String)
    ensures
        r@ == extended(path@, absolute, platform),
{
    let v = chars_of(path);
    let mark: [char; 4] = ['\\', '\\', '?', '\\'];
    assert(mark@ =~= seq!['\\', '\\', '?', '\\']);
    if platform != Platform::Windows || !absolute || fits(&v, WINDOWS_PATH_LIMIT - 1) || begins(
        &v,
        &mark,
    ) {
        return text_of(&v);
    }
    let share: [char; 2] = ['\\', '\\'];
    assert(share@ =~= seq!['\\', '\\']);
    let mut r = copied(&mark);
    if begins(&v, &share) {
        r.push('U');
        r.push('N');
        r.push('C');
        r.push('\\');
        let rest = slice_subrange(&v, 2, v.len());
        assert(rest@ =~= path@.skip(2));
        push_all(&mut r, rest);
        assert(r@ =~= verbatim(path@));
    } else {
        push_all(&mut r, &v);
        assert(r@ =~= verbatim(path@));
    }
    text_of(&r)
}

proof fn lemma_strip_end(s: Seq<char>)
    ensures
        strip_end(s).len() <= s.len(),
        strip_end(s) == s.take(strip_end(s).len() as int),
        strip_end(s).len() > 0 ==> !is_edge(strip_end(s).last()),
        s.len() > 0 && !is_edge(s[0]) ==> strip_end(s).len() > 0,
        s.len() == 0 || !is_edge(s.last()) ==> strip_end(s) == s,
    decreases s.len(),
{
    if s.len() > 0 && is_edge(s.last()) {
        lemma_strip_end(s.drop_last());
        let n = strip_end(s).len() as int;
        assert(s.drop_last().take(n) =~= s.take(n));
    } else {
        assert(s.take(s.len() as int) =~= s);
    }
}

proof fn lemma_strip_start(s: Seq<char>)
    ensures
        strip_start(s).len() <= s.len(),
        strip_start(s) == s.skip(s.len() - strip_start(s).len()),
        strip_start(s).len() > 0 ==> !is_edge(strip_start(s)[0]),
        s.len() == 0 || !is_edge(s[0]) ==> strip_start(s) == s,
    decreases s.len(),
{
    if s.len() > 0 && is_edge(s[0]) {
        lemma_strip_start(s.drop_first());
        let n = strip_start(s).len() as int;
        assert(s.drop_first().skip(s.len() - 1 - n) =~= s.skip(s.len() - n));
    } else {
        assert(s.skip(0) =~= s);
    }
}

proof fn lemma_device(s: Seq<char>)
    requires
        is_device(s),
    ensures
        3 <= s.len() <= 4,
        byte_len(s) == s.len(),
        s[0] != '_',
        !s.contains('.'),
{
    let l = lower(s);
    assert(l.len() == s.len());
    assert(l[0] == ascii_lower(s[0]));
    assert forall|i: int| 0 <= i < s.len() implies char_width(#[trigger] s[i]) == 1 && s[i]
        != '.' by {
        assert(l[i] == ascii_lower(s[i]));
        if l.len() == 4 {
            assert(i < 3 ==> l.take(3)[i] == l[i]);
        }
    }
    if l.len() == 4 {
        assert(l.take(3)[0] == l[0]);
    }
    reveal_with_fuel(byte_len, 5);
    if s.len() == 3 {
        assert(s.drop_last().drop_last().drop_last().len() == 0);
        assert(s.drop_last().last() == s[1]);
        assert(s.drop_last().drop_last().last() == s[0]);
    } else {
        assert(s.drop_last().drop_last().drop_last().drop_last().len() == 0);
        assert(s.drop_last().last() == s[2]);
        assert(s.drop_last().drop_last().last() == s[1]);
        assert(s.drop_last().drop_last().drop_last().last() == s[0]);
    }
}

proof fn lemma_before_dot(s: Seq<char>)
    ensures
        before_dot(s).len() <= s.len(),
        before_dot(s) == s.take(before_dot(s).len() as int),
        !before_dot(s).contains('.'),
        before_dot(s).len() < s.len() ==> s[before_dot(s).len() as int] == '.',
        !s.contains('.') ==> before_dot(s) == s,
{
    lemma_find_any(s, seq!['.'], 0);
    let at = find_any(s, seq!['.'], 0);
    assert forall|i: int| 0 <= i < at implies s[i] != '.' by {
        if s[i] == '.' {
            assert(seq!['.'][0] == s[i]);
            assert(seq!['.'].contains(s[i]));
        }
    }
    if at < s.len() {
        assert(seq!['.'].contains(s[at]));
    } else {
        assert(s.take(at) =~= s);
    }
}

/// The part before the first dot is found by its two properties.
proof fn lemma_before_dot_is(s: Seq<char>, n: int)
    requires
        0 <= n <= s.len(),
        !s.take(n).contains('.'),
        n < s.len() ==> s[n] == '.',
    ensures
        before_dot(s) == s.take(n),
{
    assert forall|i: int| 0 <= i < n implies !seq!['.'].contains(#[trigger] s[i]) by {
        if seq!['.'].contains(s[i]) {
            assert(s.take(n)[i] == '.');
        }
    }
    if n < s.len() {
        assert(seq!['.'][0] == s[n]);
    }
    lemma_find_any_is(s, seq!['.'], 0, n);
}

proof fn lemma_escaped(s: Seq<char>)
    requires
        s.len() > 0,
        byte_len(s) <= MAX_COMPONENT_LEN,
        forall|i: int| 0 <= i < s.len() ==> !is_illegal(#[trigger] s[i]),
        !is_edge(s[0]),
        !is_edge(s.last()),
    ensures
        is_clean(escaped(s)),
{
    if is_reserved_name(s) {
        let u = seq!['_'] + s;
        let c = clip(u, MAX_COMPONENT_LEN as nat);
        lemma_clip(u, MAX_COMPONENT_LEN as nat);
        if c.len() == 0 {
            assert(u.take(1) =~= seq!['_']);
            assert(seq!['_'].drop_last() =~= Seq::<char>::empty());
            reveal_with_fuel(byte_len, 2);
        }
        assert(c[0] == '_');
        lemma_strip_end(c);
        let r = strip_end(c);
        assert(r[0] == '_');
        lemma_byte_len_take(c, r.len() as int, r.len() as int);
        assert forall|i: int| 0 <= i < r.len() implies !is_illegal(#[trigger] r[i]) by {
            assert(r[i] == u[i]);
            if i > 0 {
                assert(u[i] == s[i - 1]);
            }
        }
        lemma_before_dot(r);
        if is_device(before_dot(r)) {
            lemma_device(before_dot(r));
        }
    }
}

proof fn lemma_placeholder()
    ensures
        is_clean(PLACEHOLDER@),
        byte_len(PLACEHOLDER@) == 7,
{
    reveal_strlit("unnamed");
    let p = PLACEHOLDER@;
    assert(p =~= seq!['u', 'n', 'n', 'a', 'm', 'e', 'd']);
    assert(!p.contains('.'));
    lemma_before_dot(p);
    assert(lower(p).len() == 7);
    reveal_with_fuel(byte_len, 8);
    assert(p.drop_last() =~= seq!['u', 'n', 'n', 'a', 'm', 'e']);
    assert(p.drop_last().drop_last() =~= seq!['u', 'n', 'n', 'a', 'm']);
    assert(seq!['u', 'n', 'n', 'a', 'm'].drop_last() =~= seq!['u', 'n', 'n', 'a']);
    assert(seq!['u', 'n', 'n', 'a'].drop_last() =~= seq!['u', 'n', 'n']);
    assert(seq!['u', 'n', 'n'].drop_last() =~= seq!['u', 'n']);
    assert(seq!['u', 'n'].drop_last() =~= seq!['u']);
    assert(seq!['u'].drop_last() =~= Seq::<char>::empty());
}

/// Whatever text is sanitized, the component is clean.
pub proof fn component_is_clean(normalized: Seq<char>)
    ensures
        is_clean(component_of(normalized)),
{
    let a = replaced(normalized);
    let b = clip(a, MAX_COMPONENT_LEN as nat);
    let c = strip_end(b);
    let d = strip_start(c);
    lemma_clip(a, MAX_COMPONENT_LEN as nat);
    lemma_strip_end(b);
    lemma_strip_start(c);
    lemma_byte_len_take(b, c.len() as int, c.len() as int);
    let k = c.len() - d.len();
    assert(c =~= c.take(k) + d);
    lemma_byte_len_add(c.take(k), d);
    assert forall|i: int| 0 <= i < d.len() implies !is_illegal(#[trigger] d[i]) by {
        assert(d[i] == c[i + k]);
        assert(c[i + k] == b[i + k]);
        assert(b[i + k] == a[i + k]);
    }
    if d.len() == 0 {
        lemma_placeholder();
    } else {
        assert(d.last() == c.last());
        lemma_escaped(d);
    }
}

/// Sanitizing a clean component that is already in normalization form C changes
/// nothing; in particular a component is a fixed point of sanitization wherever
/// normalization leaves it alone.
pub proof fn component_keeps_clean(s: Seq<char>)
    requires
        is_clean(s),
    ensures
        component_of(s) == s,
{
    assert(replaced(s) =~= s);
    assert(s.take(s.len() as int) =~= s);
    lemma_clip_is(s, MAX_COMPONENT_LEN as nat, s.len() as int);
    lemma_strip_end(s);
    lemma_strip_start(s);
}

/// A file name is made of a clean shape, and fits the limit unless
/// normalization blew its extension up to more than 92 bytes.
pub proof fn file_name_is_clean(s: Seq<char>)
    ensures
        has_clean_shape(file_name_of(s)),
        byte_len(file_name_of(s)) <= MAX_COMPONENT_LEN || has_extension(s) && byte_len(
            component_of(nfc_text(s.skip(last_index(s, '.') + 1))),
        ) > 92,
{
    if has_extension(s) {
        let at = last_index(s, '.');
        let stem = component_of(nfc_text(s.take(at)));
        let ext = component_of(nfc_text(s.skip(at + 1)));
        component_is_clean(nfc_text(s.take(at)));
        component_is_clean(nfc_text(s.skip(at + 1)));
        lemma_name_is_clean(stem, ext);
    } else {
        component_is_clean(nfc_text(s));
    }
}

proof fn lemma_name_is_clean(stem: Seq<char>, ext: Seq<char>)
    requires
        is_clean(stem),
        is_clean(ext),
    ensures
        has_clean_shape(name_of(stem, ext)),
        byte_len(ext) <= 92 ==> byte_len(name_of(stem, ext)) <= MAX_COMPONENT_LEN,
{
    let budget = stem_budget(ext);
    let c = clip(stem, budget);
    let e = strip_end(c);
    let t = settled(e);
    lemma_clip(stem, budget);
    lemma_strip_end(c);
    lemma_byte_len_take(c, e.len() as int, e.len() as int);
    assert(e =~= stem.take(e.len() as int));
    lemma_placeholder();
    if e.len() > 0 {
        assert forall|i: int| 0 <= i < e.len() implies !is_illegal(#[trigger] e[i]) by {
            assert(e[i] == stem[i]);
        }
        assert(e[0] == stem[0]);
        lemma_escaped(e);
        if is_reserved_name(e) {
            lemma_before_dot(e);
            lemma_before_dot(stem);
            let n = before_dot(e).len() as int;
            if n < e.len() {
                assert(stem.take(n) =~= e.take(n));
                assert(stem[n] == e[n]);
                lemma_before_dot_is(stem, n);
            }
            assert(e.take(n) =~= e);
            lemma_device(e);
            let u = seq!['_'] + e;
            lemma_clip(u, MAX_COMPONENT_LEN as nat);
            let w = clip(u, MAX_COMPONENT_LEN as nat);
            lemma_strip_end(w);
            lemma_byte_len_take(w, strip_end(w).len() as int, strip_end(w).len() as int);
            lemma_byte_len_add(seq!['_'], e);
            assert(seq!['_'].drop_last() =~= Seq::<char>::empty());
            reveal_with_fuel(byte_len, 2);
            lemma_byte_len_take(u, w.len() as int, w.len() as int);
        }
    }
    assert(is_clean(t));
    let r = name_of(stem, ext);
    assert(r == t + seq!['.'] + ext);
    assert forall|i: int| 0 <= i < r.len() implies !is_illegal(#[trigger] r[i]) by {
        if i < t.len() {
            assert(r[i] == t[i]);
        } else if i > t.len() {
            assert(r[i] == ext[i - t.len() - 1]);
        }
    }
    assert(r.last() == ext.last());
    lemma_before_dot(t);
    let n = before_dot(t).len() as int;
    assert(r.take(n) =~= t.take(n));
    lemma_before_dot_is(r, n);
    lemma_byte_len_add(t + seq!['.'], ext);
    lemma_byte_len_add(t, seq!['.']);
    assert(seq!['.'].drop_last() =~= Seq::<char>::empty());
    reveal_with_fuel(byte_len, 2);
}

proof fn lemma_replaced_len(s: Seq<char>)
    ensures
        byte_len(replaced(s)) <= byte_len(s),
    decreases s.len(),
{
    if s.len() > 0 {
        let rest = s.drop_last();
        let last = seq![s.last()];
        lemma_replaced_len(rest);
        assert(rest + last =~= s);
        assert(replaced(rest) + replaced(last) =~= replaced(s));
        lemma_byte_len_add(rest, last);
        lemma_byte_len_add(replaced(rest), replaced(last));
        lemma_byte_len_one(s.last());
        lemma_byte_len_one(replaced(last)[0]);
        assert(replaced(last) =~= seq![replaced(last)[0]]);
    }
}

proof fn lemma_byte_len_one(c: char)
    ensures
        byte_len(seq![c]) == char_width(c),
{
    assert(seq![c].drop_last() =~= Seq::<char>::empty());
    assert(seq![c].drop_first() =~= Seq::<char>::empty());
    reveal_with_fuel(byte_len, 2);
}

/// A name that is short enough, has no dot or space at its ends and is no device name
/// keeps every character but those that some file system refuses, and has a dash in the
/// place of each of these.
pub proof fn names_keep_what_is_allowed(n: Seq<char>)
    requires
        0 < n.len(),
        byte_len(n) <= 100,
        n[0] != '.' && n[0] != ' ',
        n.last() != '.' && n.last() != ' ',
        !is_reserved_name(replaced(n)),
    ensures
        component_of(n).len() == n.len(),
        forall|i: int|
            0 <= i < n.len() ==> #[trigger] component_of(n)[i] == (if n[i] == '<' || n[i] == '>'
                || n[i] == ':' || n[i] == '"' || n[i] == '/' || n[i] == '\\' || n[i] == '|' || n[i]
                == '?' || n[i] == '*' || (n[i] as u32) < 0x20 || 0x7f <= (n[i] as u32) < 0xa0 {
                '-'
            } else {
                n[i]
            }),
{
    let r = replaced(n);
    lemma_replaced_len(n);
    assert(r.take(r.len() as int) =~= r);
    lemma_clip_is(r, MAX_COMPONENT_LEN as nat, r.len() as int);
    assert(r[0] == n[0] || r[0] == '-');
    assert(r.last() == n.last() || r.last() == '-');
    lemma_strip_end(r);
    lemma_strip_start(r);
    assert(component_of(n) == r);
}

} // verus!
