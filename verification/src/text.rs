//! Text as a sequence of characters.
//!
//! Strings are taken apart into characters, worked on, and put together again.
//! The contracts speak of `Seq<char>`, the view of both `str` and `String`.

use vstd::prelude::*;
use vstd::slice::slice_subrange;
use vstd::utf8::*;

verus! {

/// `String::push`: appends one character to the text.
pub assume_specification[ String::push ](s: &mut String, c: char)
    ensures
        final(s)@ == old(s)@.push(c),
;

/// The characters of a string, in order.
pub fn chars_of(s: &str) -> (v: Vec<char>)
    ensures
        v@ == s@,
{
    let mut v: Vec<char> = Vec::new();
    for c in it: s.chars()
        invariant
            it.seq() == s@,
            v@ == s@.take(it.index() as int),
    {
        v.push(c);
        assert(s@.take(it.index() + 1) =~= s@.take(it.index() as int).push(c));
    }
    assert(s@.take(s@.len() as int) =~= s@);
    v
}

/// The string made of the given characters.
pub fn text_of(v: &[char]) -> (s: String)
    ensures
        s@ == v@,
{
    let mut s = String::new();
    let mut i: usize = 0;
    while i < v.len()
        invariant
            i <= v@.len(),
            s@ == v@.take(i as int),
        decreases v@.len() - i,
    {
        s.push(v[i]);
        assert(v@.take(i + 1) =~= v@.take(i as int).push(v@[i as int]));
        i += 1;
    }
    assert(v@.take(v@.len() as int) =~= v@);
    s
}

/// A character of a slice.
pub fn char_at(v: &[char], i: usize) -> (c: char)
    requires
        i < v@.len(),
    ensures
        c == v@[i as int],
{
    v[i]
}

/// How many bytes a character takes in UTF-8.
pub open spec fn char_width(c: char) -> nat {
    if (c as u32) < 0x80 {
        1
    } else if (c as u32) < 0x800 {
        2
    } else if (c as u32) < 0x10000 {
        3
    } else {
        4
    }
}

/// How many bytes a text takes in UTF-8.
pub open spec fn byte_len(s: Seq<char>) -> nat
    decreases s.len(),
{
    if s.len() == 0 {
        0
    } else {
        byte_len(s.drop_last()) + char_width(s.last())
    }
}

pub fn width_of(c: char) -> (w: usize)
    ensures
        w == char_width(c),
{
    if (c as u32) < 0x80 {
        1
    } else if (c as u32) < 0x800 {
        2
    } else if (c as u32) < 0x10000 {
        3
    } else {
        4
    }
}

/// UTF-8 encodes a text in exactly `byte_len` bytes.
pub proof fn lemma_byte_len_encode(s: Seq<char>)
    ensures
        encode_utf8(s).len() == byte_len(s),
    decreases s.len(),
{
    if s.len() > 0 {
        lemma_byte_len_encode(s.drop_first());
        lemma_byte_len_add(seq![s[0]], s.drop_first());
        assert(seq![s[0]] + s.drop_first() =~= s);
        assert(seq![s[0]].drop_last() =~= Seq::<char>::empty());
        reveal_with_fuel(byte_len, 2);
        char_is_scalar(s[0]);
    }
}

/// The bytes of two texts written one after the other add up.
pub proof fn lemma_byte_len_add(a: Seq<char>, b: Seq<char>)
    ensures
        byte_len(a + b) == byte_len(a) + byte_len(b),
    decreases b.len(),
{
    if b.len() == 0 {
        assert(a + b =~= a);
    } else {
        assert((a + b).drop_last() =~= a + b.drop_last());
        assert((a + b).last() == b.last());
        lemma_byte_len_add(a, b.drop_last());
    }
}

/// A longer prefix never takes fewer bytes.
pub proof fn lemma_byte_len_take(s: Seq<char>, i: int, j: int)
    requires
        0 <= i <= j <= s.len(),
    ensures
        byte_len(s.take(i)) <= byte_len(s.take(j)),
        byte_len(s.take(j)) <= byte_len(s),
        i < j ==> byte_len(s.take(i)) < byte_len(s.take(j)),
        s.len() <= byte_len(s),
    decreases s.len(),
{
    lemma_byte_len_positive(s);
    assert(s.take(j) =~= s.take(i) + s.subrange(i, j));
    lemma_byte_len_add(s.take(i), s.subrange(i, j));
    lemma_byte_len_positive(s.subrange(i, j));
    assert(s =~= s.take(j) + s.skip(j));
    lemma_byte_len_add(s.take(j), s.skip(j));
}

/// Every character takes at least one byte.
pub proof fn lemma_byte_len_positive(s: Seq<char>)
    ensures
        s.len() <= byte_len(s) <= 4 * s.len(),
    decreases s.len(),
{
    if s.len() > 0 {
        lemma_byte_len_positive(s.drop_last());
    }
}

/// The longest prefix of `s` that takes at most `max` bytes.
pub open spec fn clip(s: Seq<char>, max: nat) -> Seq<char>
    decreases s.len(),
{
    if byte_len(s) <= max {
        s
    } else {
        clip(s.drop_last(), max)
    }
}

/// What makes `clip` the longest prefix that fits.
pub proof fn lemma_clip(s: Seq<char>, max: nat)
    ensures
        byte_len(clip(s, max)) <= max,
        clip(s, max).len() <= s.len(),
        clip(s, max) == s.take(clip(s, max).len() as int),
        clip(s, max).len() < s.len() ==> byte_len(s.take(clip(s, max).len() as int + 1)) > max,
    decreases s.len(),
{
    if byte_len(s) <= max {
        assert(s.take(s.len() as int) =~= s);
    } else if s.len() > 0 {
        let p = s.drop_last();
        lemma_clip(p, max);
        assert(p.take(clip(p, max).len() as int) =~= s.take(clip(p, max).len() as int));
        if clip(p, max).len() < p.len() {
            assert(p.take(clip(p, max).len() as int + 1) =~= s.take(clip(p, max).len() as int + 1));
        } else {
            assert(s.take(s.len() as int) =~= s);
        }
    }
}

/// A prefix that fits and cannot be made longer is the clipped text.
pub proof fn lemma_clip_is(s: Seq<char>, max: nat, n: int)
    requires
        0 <= n <= s.len(),
        byte_len(s.take(n)) <= max,
        n < s.len() ==> byte_len(s.take(n + 1)) > max,
    ensures
        clip(s, max) == s.take(n),
{
    lemma_clip(s, max);
    let m = clip(s, max).len() as int;
    if m < n {
        lemma_byte_len_take(s, m + 1, n);
    } else if n < m {
        lemma_byte_len_take(s, n + 1, m);
    }
}

/// The length of the longest prefix that fits in `max` bytes.
pub fn clip_point(v: &[char], max: usize) -> (n: usize)
    ensures
        n <= v@.len(),
        v@.take(n as int) == clip(v@, max as nat),
{
    let mut n: usize = 0;
    let mut used: usize = 0;
    assert(v@.take(0) =~= Seq::<char>::empty());
    while n < v.len()
        invariant_except_break
            true,
        invariant
            n <= v@.len(),
            used <= max,
            used == byte_len(v@.take(n as int)),
        ensures
            n < v@.len() ==> byte_len(v@.take(n + 1)) > max,
        decreases v@.len() - n,
    {
        let w = width_of(v[n]);
        assert(v@.take(n + 1).drop_last() =~= v@.take(n as int));
        assert(v@.take(n + 1).last() == v@[n as int]);
        if w > max - used {
            break;
        }
        used += w;
        n += 1;
    }
    proof {
        lemma_clip_is(v@, max as nat, n as int);
    }
    n
}

/// How many bytes the text takes, where that is at most `max`.
pub fn bytes_within(v: &[char], max: usize) -> (r: Option<usize>)
    ensures
        match r {
            Some(n) => n == byte_len(v@) && n <= max,
            None => byte_len(v@) > max,
        },
{
    let mut used: usize = 0;
    let mut i: usize = 0;
    assert(v@.take(0) =~= Seq::<char>::empty());
    while i < v.len()
        invariant
            i <= v@.len(),
            used <= max,
            used == byte_len(v@.take(i as int)),
        decreases v@.len() - i,
    {
        let w = width_of(v[i]);
        assert(v@.take(i + 1).drop_last() =~= v@.take(i as int));
        if w > max - used {
            proof {
                lemma_byte_len_take(v@, i + 1, v@.len() as int);
            }
            return None;
        }
        used += w;
        i += 1;
    }
    assert(v@.take(i as int) =~= v@);
    Some(used)
}

/// Whether the text takes at most `max` bytes.
pub fn fits(v: &[char], max: usize) -> (b: bool)
    ensures
        b == (byte_len(v@) <= max),
{
    let n = clip_point(v, max);
    proof {
        lemma_clip(v@, max as nat);
        assert(v@.take(v@.len() as int) =~= v@);
    }
    n == v.len()
}

/// The Unicode White_Space property.
pub open spec fn is_white(c: char) -> bool {
    let u = c as u32;
    ||| 0x09 <= u <= 0x0d
    ||| u == 0x20
    ||| u == 0x85
    ||| u == 0xa0
    ||| u == 0x1680
    ||| 0x2000 <= u <= 0x200a
    ||| u == 0x2028
    ||| u == 0x2029
    ||| u == 0x202f
    ||| u == 0x205f
    ||| u == 0x3000
}

pub fn white(c: char) -> (b: bool)
    ensures
        b == is_white(c),
{
    let u: u32 = c as u32;
    (0x09 <= u && u <= 0x0d) || u == 0x20 || u == 0x85 || u == 0xa0 || u == 0x1680 || (0x2000 <= u
        && u <= 0x200a) || u == 0x2028 || u == 0x2029 || u == 0x202f || u == 0x205f || u == 0x3000
}

pub open spec fn trim_start(s: Seq<char>) -> Seq<char>
    decreases s.len(),
{
    if s.len() > 0 && is_white(s[0]) {
        trim_start(s.drop_first())
    } else {
        s
    }
}

pub open spec fn trim_end(s: Seq<char>) -> Seq<char>
    decreases s.len(),
{
    if s.len() > 0 && is_white(s.last()) {
        trim_end(s.drop_last())
    } else {
        s
    }
}

/// A text without the white space at its two ends.
pub open spec fn trim(s: Seq<char>) -> Seq<char> {
    trim_end(trim_start(s))
}

pub fn trimmed<'a>(v: &'a [char]) -> (r: &'a [char])
    ensures
        r@ == trim(v@),
{
    let n = v.len();
    let mut i: usize = 0;
    assert(v@.skip(0) =~= v@);
    while i < n && white(v[i])
        invariant
            n == v@.len(),
            i <= n,
            trim_start(v@) == trim_start(v@.skip(i as int)),
        decreases n - i,
    {
        assert(v@.skip(i as int).drop_first() =~= v@.skip(i + 1));
        i += 1;
    }
    assert(trim_start(v@) == v@.skip(i as int));
    let mut j: usize = n;
    assert(v@.skip(i as int) =~= v@.subrange(i as int, n as int));
    while i < j && white(v[j - 1])
        invariant
            n == v@.len(),
            i <= j <= n,
            trim(v@) == trim_end(v@.subrange(i as int, j as int)),
        decreases j - i,
    {
        assert(v@.subrange(i as int, j as int).drop_last() =~= v@.subrange(i as int, j - 1));
        assert(v@.subrange(i as int, j as int).last() == v@[j - 1]);
        j -= 1;
    }
    assert(j > i ==> v@.subrange(i as int, j as int).last() == v@[j - 1]);
    slice_subrange(v, i, j)
}

/// A text without the copies of `c` at its two ends.
pub open spec fn shaved(s: Seq<char>, c: char) -> Seq<char>
    decreases s.len(),
{
    if s.len() > 0 && s[0] == c {
        shaved(s.drop_first(), c)
    } else if s.len() > 0 && s.last() == c {
        shaved(s.drop_last(), c)
    } else {
        s
    }
}

pub fn shave<'a>(v: &'a [char], c: char) -> (r: &'a [char])
    ensures
        r@ == shaved(v@, c),
{
    let n = v.len();
    let mut i: usize = 0;
    assert(v@.subrange(0, n as int) =~= v@);
    while i < n && v[i] == c
        invariant
            n == v@.len(),
            i <= n,
            shaved(v@, c) == shaved(v@.subrange(i as int, n as int), c),
        decreases n - i,
    {
        assert(v@.subrange(i as int, n as int).drop_first() =~= v@.subrange(i + 1, n as int));
        i += 1;
    }
    let mut j: usize = n;
    while i < j && v[j - 1] == c
        invariant
            n == v@.len(),
            i <= j <= n,
            i < j ==> v@[i as int] != c,
            shaved(v@, c) == shaved(v@.subrange(i as int, j as int), c),
        decreases j - i,
    {
        assert(v@.subrange(i as int, j as int).drop_last() =~= v@.subrange(i as int, j - 1));
        j -= 1;
    }
    slice_subrange(v, i, j)
}

/// Where the first character of `set` stands at or after `from`, or the length
/// of the text if there is none.
pub open spec fn find_any(s: Seq<char>, set: Seq<char>, from: int) -> int
    decreases s.len() - from,
{
    if from >= s.len() {
        s.len() as int
    } else if set.contains(s[from]) {
        from
    } else {
        find_any(s, set, from + 1)
    }
}

pub proof fn lemma_find_any(s: Seq<char>, set: Seq<char>, from: int)
    requires
        0 <= from <= s.len(),
    ensures
        from <= find_any(s, set, from) <= s.len(),
        find_any(s, set, from) < s.len() ==> set.contains(s[find_any(s, set, from)]),
        forall|i: int| from <= i < find_any(s, set, from) ==> !set.contains(#[trigger] s[i]),
    decreases s.len() - from,
{
    if from < s.len() && !set.contains(s[from]) {
        lemma_find_any(s, set, from + 1);
    }
}

/// The first place at or after `from` where the property holds is the answer.
pub proof fn lemma_find_any_is(s: Seq<char>, set: Seq<char>, from: int, at: int)
    requires
        0 <= from <= at <= s.len(),
        forall|i: int| from <= i < at ==> !set.contains(#[trigger] s[i]),
        at < s.len() ==> set.contains(s[at]),
    ensures
        find_any(s, set, from) == at,
    decreases at - from,
{
    if from < at {
        assert(!set.contains(s[from]));
        lemma_find_any_is(s, set, from + 1, at);
    }
}

pub fn holds(set: &[char], c: char) -> (b: bool)
    ensures
        b == set@.contains(c),
{
    let mut i: usize = 0;
    while i < set.len()
        invariant
            i <= set@.len(),
            forall|j: int| 0 <= j < i ==> set@[j] != c,
        decreases set@.len() - i,
    {
        if set[i] == c {
            return true;
        }
        i += 1;
    }
    false
}

pub fn find(v: &[char], set: &[char], from: usize) -> (at: usize)
    requires
        from <= v@.len(),
    ensures
        at == find_any(v@, set@, from as int),
        from <= at <= v@.len(),
        at < v@.len() ==> set@.contains(v@[at as int]),
        forall|i: int| from <= i < at ==> !set@.contains(#[trigger] v@[i]),
{
    let mut at = from;
    while at < v.len() && !holds(set, v[at])
        invariant
            from <= at <= v@.len(),
            forall|i: int| from <= i < at ==> !set@.contains(#[trigger] v@[i]),
        decreases v@.len() - at,
    {
        at += 1;
    }
    proof {
        lemma_find_any_is(v@, set@, from as int, at as int);
    }
    at
}

/// Where `c` stands for the last time, or -1.
pub open spec fn last_index(s: Seq<char>, c: char) -> int
    decreases s.len(),
{
    if s.len() == 0 {
        -1
    } else if s.last() == c {
        s.len() - 1
    } else {
        last_index(s.drop_last(), c)
    }
}

pub proof fn lemma_last_index(s: Seq<char>, c: char)
    ensures
        -1 <= last_index(s, c) < s.len(),
        last_index(s, c) >= 0 ==> s[last_index(s, c)] == c,
        forall|i: int| last_index(s, c) < i < s.len() ==> #[trigger] s[i] != c,
    decreases s.len(),
{
    if s.len() > 0 && s.last() != c {
        lemma_last_index(s.drop_last(), c);
        let k = last_index(s, c);
        assert forall|i: int| k < i < s.len() implies #[trigger] s[i] != c by {
            if i < s.len() - 1 {
                assert(s.drop_last()[i] == s[i]);
            }
        }
    }
}

pub fn find_last(v: &[char], c: char) -> (at: Option<usize>)
    ensures
        match at {
            Some(i) => i == last_index(v@, c) && i < v@.len(),
            None => last_index(v@, c) == -1,
        },
{
    let mut i: usize = v.len();
    assert(v@.take(v@.len() as int) =~= v@);
    while i > 0
        invariant
            i <= v@.len(),
            last_index(v@, c) == last_index(v@.take(i as int), c),
        decreases i,
    {
        assert(v@.take(i as int).drop_last() =~= v@.take(i - 1));
        if v[i - 1] == c {
            return Some(i - 1);
        }
        i -= 1;
    }
    None
}

/// The pieces of `s` between the characters of `set`.
pub open spec fn split_any(s: Seq<char>, set: Seq<char>) -> Seq<Seq<char>>
    decreases s.len(),
{
    let at = find_any(s, set, 0);
    if 0 <= at < s.len() {
        seq![s.take(at)] + split_any(s.skip(at + 1), set)
    } else {
        seq![s]
    }
}

/// Path components written one after the other, with slashes between them.
pub open spec fn joined(parts: Seq<Seq<char>>) -> Seq<char>
    decreases parts.len(),
{
    if parts.len() == 0 {
        seq![]
    } else if parts.len() == 1 {
        parts[0]
    } else {
        joined(parts.drop_last()) + seq!['/'] + parts.last()
    }
}

proof fn lemma_split_push(a: Seq<char>, b: Seq<char>)
    requires
        !b.contains('/'),
    ensures
        split_any(a + seq!['/'] + b, seq!['/']) == split_any(a, seq!['/']).push(b),
    decreases a.len(),
{
    let slash = seq!['/'];
    assert(slash[0] == '/');
    let s = a + slash + b;
    let at = find_any(a, slash, 0);
    lemma_find_any(a, slash, 0);
    assert forall|i: int| 0 <= i < at implies !slash.contains(#[trigger] s[i]) by {
        assert(s[i] == a[i]);
    }
    if at < a.len() {
        assert(s[at] == a[at]);
        lemma_find_any_is(s, slash, 0, at);
        assert(s.take(at) =~= a.take(at));
        assert(s.skip(at + 1) =~= a.skip(at + 1) + slash + b);
        lemma_split_push(a.skip(at + 1), b);
        assert(split_any(s, slash) =~= split_any(a, slash).push(b));
    } else {
        assert(s[at] == '/');
        lemma_find_any_is(s, slash, 0, at);
        assert(s.take(at) =~= a);
        assert(s.skip(at + 1) =~= b);
        assert forall|i: int| 0 <= i < b.len() implies !slash.contains(#[trigger] b[i]) by {
            assert(b[i] != '/');
        }
        lemma_find_any_is(b, slash, 0, b.len() as int);
        assert(split_any(b, slash) == seq![b]);
        assert(split_any(s, slash) =~= seq![a] + seq![b]);
        assert(split_any(a, slash).push(b) =~= seq![a] + seq![b]);
    }
}

/// A path falls apart at its slashes into the components that it was joined of.
pub proof fn joined_splits_back(parts: Seq<Seq<char>>)
    requires
        parts.len() > 0,
        forall|k: int| 0 <= k < parts.len() ==> !(#[trigger] parts[k]).contains('/'),
    ensures
        split_any(joined(parts), seq!['/']) == parts,
    decreases parts.len(),
{
    if parts.len() == 1 {
        let b = parts[0];
        assert forall|i: int| 0 <= i < b.len() implies !seq!['/'].contains(#[trigger] b[i]) by {
            assert(b[i] != '/');
        }
        lemma_find_any_is(b, seq!['/'], 0, b.len() as int);
        assert(split_any(joined(parts), seq!['/']) =~= parts);
    } else {
        assert forall|k: int| 0 <= k < parts.drop_last().len() implies !(
        #[trigger] parts.drop_last()[k]).contains('/') by {
            assert(parts.drop_last()[k] == parts[k]);
        }
        joined_splits_back(parts.drop_last());
        lemma_split_push(joined(parts.drop_last()), parts.last());
        assert(parts.drop_last().push(parts.last()) =~= parts);
    }
}

pub open spec fn is_digit(c: char) -> bool {
    '0' <= c && c <= '9'
}

pub fn digit(c: char) -> (b: bool)
    ensures
        b == is_digit(c),
{
    '0' <= c && c <= '9'
}

pub open spec fn all_digits(s: Seq<char>) -> bool {
    forall|i: int| 0 <= i < s.len() ==> is_digit(#[trigger] s[i])
}

/// The number that decimal digits stand for.
pub open spec fn digits_value(s: Seq<char>) -> nat
    decreases s.len(),
{
    if s.len() == 0 {
        0
    } else {
        10 * digits_value(s.drop_last()) + (s.last() as nat - '0' as nat) as nat
    }
}

/// An optional `+` and then the digits of an unsigned number.
pub open spec fn unsigned_digits(s: Seq<char>) -> Seq<char> {
    if s.len() > 0 && s[0] == '+' {
        s.skip(1)
    } else {
        s
    }
}

/// The unsigned number written in `s`, where it is at most `max`.
pub open spec fn parse_unsigned(s: Seq<char>, max: nat) -> Option<nat> {
    let d = unsigned_digits(s);
    if d.len() > 0 && all_digits(d) && digits_value(d) <= max {
        Some(digits_value(d))
    } else {
        None
    }
}

pub proof fn lemma_digits_value_grows(s: Seq<char>, i: int)
    requires
        all_digits(s),
        0 <= i <= s.len(),
    ensures
        digits_value(s.take(i)) <= digits_value(s),
    decreases s.len(),
{
    if i < s.len() {
        let p = s.drop_last();
        assert forall|k: int| 0 <= k < p.len() implies is_digit(#[trigger] p[k]) by {
            assert(p[k] == s[k]);
        }
        lemma_digits_value_grows(p, i);
        assert(p.take(i) =~= s.take(i));
        assert(is_digit(s[s.len() - 1]));
    } else {
        assert(s.take(i) =~= s);
    }
}

pub fn parse_u32(v: &[char]) -> (r: Option<u32>)
    ensures
        match r {
            Some(n) => parse_unsigned(v@, u32::MAX as nat) == Some(n as nat),
            None => parse_unsigned(v@, u32::MAX as nat) is None,
        },
{
    let start: usize = if v.len() > 0 && v[0] == '+' {
        1
    } else {
        0
    };
    let ghost d = unsigned_digits(v@);
    assert(d =~= v@.skip(start as int));
    if v.len() == start {
        return None;
    }
    let mut i: usize = start;
    let mut n: u64 = 0;
    assert(d.take(0) =~= Seq::<char>::empty());
    while i < v.len()
        invariant
            start <= i <= v@.len(),
            d == v@.skip(start as int),
            d == unsigned_digits(v@),
            forall|k: int| 0 <= k < i - start ==> is_digit(#[trigger] d[k]),
            n == digits_value(d.take(i - start)),
            n <= u32::MAX,
        decreases v@.len() - i,
    {
        assert(d[i - start] == v@[i as int]);
        if !digit(v[i]) {
            return None;
        }
        let c: u64 = v[i] as u64 - '0' as u64;
        assert(d.take(i - start + 1).drop_last() =~= d.take(i - start));
        n = n * 10 + c;
        if n > 0xffff_ffff {
            proof {
                if all_digits(d) {
                    lemma_digits_value_grows(d, i - start + 1);
                }
            }
            return None;
        }
        i += 1;
    }
    assert(d.take(i - start) =~= d);
    Some(n as u32)
}

pub open spec fn digit_char(d: nat) -> char {
    (48 + d) as char
}

/// A number in decimal.
pub open spec fn decimal(n: nat) -> Seq<char>
    decreases n,
{
    if n < 10 {
        seq![digit_char(n)]
    } else {
        decimal(n / 10).push(digit_char(n % 10))
    }
}

pub open spec fn hex_char(d: nat) -> char {
    if d < 10 {
        (48 + d) as char
    } else {
        (87 + d) as char
    }
}

/// A number in hexadecimal, with small letters.
pub open spec fn hex(n: nat) -> Seq<char>
    decreases n,
{
    if n < 16 {
        seq![hex_char(n)]
    } else {
        hex(n / 16).push(hex_char(n % 16))
    }
}

pub fn hex_chars(n: u64) -> (v: Vec<char>)
    ensures
        v@ == hex(n as nat),
    decreases n,
{
    let low: u8 = (n % 16) as u8;
    let c: char = if low < 10 {
        (48 + low) as char
    } else {
        (87 + low) as char
    };
    assert(c == hex_char((n % 16) as nat));
    if n < 16 {
        let mut v: Vec<char> = Vec::new();
        v.push(c);
        assert(v@ =~= seq![c]);
        v
    } else {
        let mut v = hex_chars(n / 16);
        v.push(c);
        v
    }
}

/// A signed number in decimal.
pub open spec fn signed_decimal(n: int) -> Seq<char> {
    if n < 0 {
        seq!['-'] + decimal((-n) as nat)
    } else {
        decimal(n as nat)
    }
}

/// Reading back a number that was written in decimal gives the number.
pub proof fn decimal_reads_back(n: nat)
    ensures
        decimal(n).len() > 0,
        all_digits(decimal(n)),
        digits_value(decimal(n)) == n,
    decreases n,
{
    if n < 10 {
        let s = seq![digit_char(n)];
        assert(s.drop_last() =~= Seq::<char>::empty());
        reveal_with_fuel(digits_value, 2);
    } else {
        decimal_reads_back(n / 10);
        assert(decimal(n).drop_last() =~= decimal(n / 10));
    }
}

pub fn decimal_chars(n: u64) -> (v: Vec<char>)
    ensures
        v@ == decimal(n as nat),
    decreases n,
{
    let d: u8 = (48 + n % 10) as u8;
    let c = d as char;
    assert(c == digit_char((n % 10) as nat));
    if n < 10 {
        let mut v: Vec<char> = Vec::new();
        v.push(c);
        assert(v@ =~= seq![c]);
        v
    } else {
        let mut v = decimal_chars(n / 10);
        v.push(c);
        v
    }
}

pub fn signed_chars(n: i64) -> (v: Vec<char>)
    requires
        n > i64::MIN,
    ensures
        v@ == signed_decimal(n as int),
{
    if n < 0 {
        let mut v: Vec<char> = Vec::new();
        v.push('-');
        let mut rest = decimal_chars((-n) as u64);
        v.append(&mut rest);
        assert(v@ =~= signed_decimal(n as int));
        v
    } else {
        decimal_chars(n as u64)
    }
}

pub open spec fn ascii_lower(c: char) -> char {
    if 'A' <= c && c <= 'Z' {
        ((c as u32) + 32) as char
    } else {
        c
    }
}

/// A text with its ASCII letters in lower case.
pub open spec fn lower(s: Seq<char>) -> Seq<char> {
    s.map_values(|c: char| ascii_lower(c))
}

pub fn lower_char(c: char) -> (r: char)
    ensures
        r == ascii_lower(c),
{
    if 'A' <= c && c <= 'Z' {
        (c as u8 + 32) as char
    } else {
        c
    }
}

pub fn lowered(v: &[char]) -> (r: Vec<char>)
    ensures
        r@ == lower(v@),
{
    let mut r: Vec<char> = Vec::new();
    let mut i: usize = 0;
    while i < v.len()
        invariant
            i <= v@.len(),
            r@.len() == i,
            forall|k: int| 0 <= k < i ==> r@[k] == ascii_lower(#[trigger] v@[k]),
        decreases v@.len() - i,
    {
        r.push(lower_char(v[i]));
        i += 1;
    }
    assert(r@ =~= lower(v@));
    r
}

pub open spec fn ascii_upper(c: char) -> char {
    if 'a' <= c && c <= 'z' {
        ((c as u32) - 32) as char
    } else {
        c
    }
}

/// A text with its ASCII letters in upper case.
pub open spec fn upper(s: Seq<char>) -> Seq<char> {
    s.map_values(|c: char| ascii_upper(c))
}

fn upper_char(c: char) -> (r: char)
    ensures
        r == ascii_upper(c),
{
    if 'a' <= c && c <= 'z' {
        (c as u8 - 32) as char
    } else {
        c
    }
}

pub fn uppered(v: &[char]) -> (r: Vec<char>)
    ensures
        r@ == upper(v@),
{
    let mut r: Vec<char> = Vec::new();
    let mut i: usize = 0;
    while i < v.len()
        invariant
            i <= v@.len(),
            r@.len() == i,
            forall|k: int| 0 <= k < i ==> r@[k] == ascii_upper(#[trigger] v@[k]),
        decreases v@.len() - i,
    {
        r.push(upper_char(v[i]));
        i += 1;
    }
    assert(r@ =~= upper(v@));
    r
}

/// Whether two character slices hold the same text.
pub fn same(a: &[char], b: &[char]) -> (r: bool)
    ensures
        r == (a@ == b@),
{
    if a.len() != b.len() {
        return false;
    }
    let mut i: usize = 0;
    while i < a.len()
        invariant
            a@.len() == b@.len(),
            i <= a@.len(),
            forall|k: int| 0 <= k < i ==> a@[k] == b@[k],
        decreases a@.len() - i,
    {
        if a[i] != b[i] {
            return false;
        }
        i += 1;
    }
    assert(a@ =~= b@);
    true
}

/// Whether the text of a string is the given one.
pub fn same_text(a: &str, b: &str) -> (r: bool)
    ensures
        r == (a@ == b@),
{
    let x = chars_of(a);
    let y = chars_of(b);
    same(&x, &y)
}

/// Whether `p` stands at the start of `s`.
pub open spec fn starts_with(s: Seq<char>, p: Seq<char>) -> bool {
    p.len() <= s.len() && s.take(p.len() as int) == p
}

pub fn begins(v: &[char], p: &[char]) -> (r: bool)
    ensures
        r == starts_with(v@, p@),
{
    if v.len() < p.len() {
        return false;
    }
    same(slice_subrange(v, 0, p.len()), p)
}

/// Appends characters to a character vector.
pub fn push_all(v: &mut Vec<char>, more: &[char])
    ensures
        final(v)@ == old(v)@ + more@,
{
    let mut i: usize = 0;
    while i < more.len()
        invariant
            i <= more@.len(),
            v@ == old(v)@ + more@.take(i as int),
        decreases more@.len() - i,
    {
        v.push(more[i]);
        assert(more@.take(i + 1) =~= more@.take(i as int).push(more@[i as int]));
        i += 1;
    }
    assert(more@.take(more@.len() as int) =~= more@);
}

/// A copy of a slice of characters.
pub fn copied(v: &[char]) -> (r: Vec<char>)
    ensures
        r@ == v@,
{
    let mut r: Vec<char> = Vec::new();
    push_all(&mut r, v);
    assert(r@ =~= v@);
    r
}

/// Appends a string to a character vector.
pub fn push_text(v: &mut Vec<char>, more: &str)
    ensures
        final(v)@ == old(v)@ + more@,
{
    let m = chars_of(more);
    push_all(v, &m);
}

/// Whether `t` is the part of `s` from the `i`th character on that is left without the
/// white space around it.
pub open spec fn is_core(s: Seq<char>, t: Seq<char>, i: int) -> bool {
    &&& 0 <= i && i + t.len() <= s.len()
    &&& t == s.subrange(i, i + t.len())
    &&& forall|k: int| 0 <= k < i ==> is_white(#[trigger] s[k])
    &&& forall|k: int| i + t.len() <= k < s.len() ==> is_white(#[trigger] s[k])
    &&& t.len() > 0 ==> !is_white(t[0]) && !is_white(t.last())
}

proof fn lemma_trim_start_core(s: Seq<char>) -> (i: int)
    ensures
        0 <= i <= s.len(),
        trim_start(s) == s.skip(i),
        forall|k: int| 0 <= k < i ==> is_white(#[trigger] s[k]),
        i < s.len() ==> !is_white(s[i]),
    decreases s.len(),
{
    if s.len() > 0 && is_white(s[0]) {
        let rest = s.drop_first();
        let i = lemma_trim_start_core(rest);
        assert(rest.skip(i) =~= s.skip(i + 1));
        assert forall|k: int| 0 <= k < i + 1 implies is_white(#[trigger] s[k]) by {
            if k > 0 {
                assert(s[k] == rest[k - 1]);
            }
        }
        if i < rest.len() {
            assert(s[i + 1] == rest[i]);
        }
        i + 1
    } else {
        assert(s.skip(0) =~= s);
        0
    }
}

proof fn lemma_trim_end_core(s: Seq<char>) -> (n: int)
    ensures
        0 <= n <= s.len(),
        trim_end(s) == s.take(n),
        forall|k: int| n <= k < s.len() ==> is_white(#[trigger] s[k]),
        n > 0 ==> !is_white(s[n - 1]),
    decreases s.len(),
{
    if s.len() > 0 && is_white(s.last()) {
        let rest = s.drop_last();
        let n = lemma_trim_end_core(rest);
        assert(rest.take(n) =~= s.take(n));
        assert forall|k: int| n <= k < s.len() implies is_white(#[trigger] s[k]) by {
            if k < rest.len() {
                assert(s[k] == rest[k]);
            }
        }
        if n > 0 {
            assert(s[n - 1] == rest[n - 1]);
        }
        n
    } else {
        assert(s.take(s.len() as int) =~= s);
        s.len() as int
    }
}

/// Trimming takes white space from the two ends and nothing else.
pub proof fn trimming_keeps_the_core(s: Seq<char>) -> (i: int)
    ensures
        is_core(s, trim(s), i),
{
    let i = lemma_trim_start_core(s);
    let rest = s.skip(i);
    let n = lemma_trim_end_core(rest);
    let t = trim(s);
    assert(t =~= s.subrange(i, i + n));
    assert forall|k: int| i + n <= k < s.len() implies is_white(#[trigger] s[k]) by {
        assert(s[k] == rest[k - i]);
    }
    i
}

} // verus!
