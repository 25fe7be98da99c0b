//! Character-level helpers shared by the tree, its attribute cache and the markup reader.
use vstd::prelude::*;

verus! {

/// The characters with Unicode's White_Space property.
pub open spec fn is_white(c: char) -> bool {
    ||| c == ' '
    ||| ('\t' <= c && c <= '\r')
    ||| c == '\u{85}'
    ||| c == '\u{a0}'
    ||| c == '\u{1680}'
    ||| ('\u{2000}' <= c && c <= '\u{200a}')
    ||| c == '\u{2028}'
    ||| c == '\u{2029}'
    ||| c == '\u{202f}'
    ||| c == '\u{205f}'
    ||| c == '\u{3000}'
}

pub fn is_whitespace(c: char) -> (r: bool)
    ensures
        r == is_white(c),
{
    c == ' ' || ('\t' <= c && c <= '\r') || c == '\u{85}' || c == '\u{a0}' || c == '\u{1680}'
        || ('\u{2000}' <= c && c <= '\u{200a}') || c == '\u{2028}' || c == '\u{2029}'
        || c == '\u{202f}' || c == '\u{205f}' || c == '\u{3000}'
}

/// ASCII lowercase of one character: 'A'..='Z' map to 'a'..='z', all else is kept.
pub open spec fn lower_char(c: char) -> char {
    if 'A' <= c && c <= 'Z' {
        ((c as u32) + 32) as char
    } else {
        c
    }
}

/// ASCII lowercase of a character sequence.
pub open spec fn lower(s: Seq<char>) -> Seq<char> {
    s.map_values(|c: char| lower_char(c))
}

pub fn ascii_lower_char(c: char) -> (r: char)
    ensures
        r == lower_char(c),
{
    if 'A' <= c && c <= 'Z' {
        ((c as u8) + 32) as char
    } else {
        c
    }
}

/// The first index at or after `i` that does not hold whitespace (or the length).
pub open spec fn skip_white(s: Seq<char>, i: int) -> int
    decreases s.len() - i,
{
    if 0 <= i < s.len() && is_white(s[i]) {
        skip_white(s, i + 1)
    } else {
        i
    }
}

/// The end of `s[lo..j]` once the whitespace at its end is dropped.
pub open spec fn back_white(s: Seq<char>, lo: int, j: int) -> int
    decreases j - lo,
{
    if lo < j && j <= s.len() && is_white(s[j - 1]) {
        back_white(s, lo, j - 1)
    } else {
        j
    }
}

/// `s` without whitespace at either end.
pub open spec fn trimmed(s: Seq<char>) -> Seq<char> {
    let lo = skip_white(s, 0);
    s.subrange(lo, back_white(s, lo, s.len() as int))
}

/// Replaces, from left to right, each non-overlapping pair `a b` by `c`.
pub open spec fn replace_pair(s: Seq<char>, a: char, b: char, c: char) -> Seq<char>
    decreases s.len(),
{
    if s.len() < 2 {
        s
    } else if s[0] == a && s[1] == b {
        seq![c] + replace_pair(s.skip(2), a, b, c)
    } else {
        seq![s[0]] + replace_pair(s.skip(1), a, b, c)
    }
}

/// The text of a quoted value between its quotes, once `\\` and the escaped quote
/// character `q` are read back.
pub open spec fn unescaped(s: Seq<char>, q: char) -> Seq<char> {
    replace_pair(replace_pair(s, '\\', '\\', '\\'), '\\', q, q)
}

/// How one character is written inside a double-quoted value.
pub open spec fn escape_char(c: char) -> Seq<char> {
    if c == '\\' {
        seq!['\\', '\\']
    } else if c == '"' {
        seq!['\\', '"']
    } else {
        seq![c]
    }
}

/// A value written for a double-quoted attribute: backslashes and double quotes escaped.
pub open spec fn escaped(s: Seq<char>) -> Seq<char>
    decreases s.len(),
{
    if s.len() == 0 {
        Seq::empty()
    } else {
        escape_char(s[0]) + escaped(s.skip(1))
    }
}

/// Relies on String::push: the character is appended at the end.
#[verifier::external_body]
pub(crate) fn push_char(s: &mut String, c: char)
    ensures
        final(s)@ == old(s)@.push(c),
{
    s.push(c);
}

/// The characters of a string slice, in order.
pub fn chars_of(s: &str) -> (r: Vec<char>)
    ensures
        r@ == s@,
{
    let mut v: Vec<char> = Vec::new();
    for c in it: s.chars()
        invariant
            it.seq() == s@,
            v@ == s@.take(it.index()),
    {
        v.push(c);
    }
    v
}

/// The string made of `v[lo..hi]`.
pub fn string_of(v: &Vec<char>, lo: usize, hi: usize) -> (r: String)
    requires
        lo <= hi <= v.len(),
    ensures
        r@ == v@.subrange(lo as int, hi as int),
{
    let mut r = String::new();
    let mut i: usize = lo;
    while i < hi
        invariant
            lo <= i <= hi <= v.len(),
            r@ == v@.subrange(lo as int, i as int),
        decreases hi - i,
    {
        push_char(&mut r, v[i]);
        i = i + 1;
        assert(r@ =~= v@.subrange(lo as int, i as int));
    }
    r
}

/// The string made of `v[lo..hi]` in ASCII lowercase.
pub fn lower_string_of(v: &Vec<char>, lo: usize, hi: usize) -> (r: String)
    requires
        lo <= hi <= v.len(),
    ensures
        r@ == lower(v@.subrange(lo as int, hi as int)),
{
    let mut r = String::new();
    let mut i: usize = lo;
    while i < hi
        invariant
            lo <= i <= hi <= v.len(),
            r@ == lower(v@.subrange(lo as int, i as int)),
        decreases hi - i,
    {
        let c = ascii_lower_char(v[i]);
        push_char(&mut r, c);
        i = i + 1;
        assert(lower(v@.subrange(lo as int, i as int)) =~= lower(
            v@.subrange(lo as int, i - 1),
        ).push(c));
    }
    r
}

/// ASCII lowercase of a string slice.
pub fn lowercase(s: &str) -> (r: String)
    ensures
        r@ == lower(s@),
{
    let v = chars_of(s);
    assert(v@.subrange(0, v.len() as int) =~= s@);
    lower_string_of(&v, 0, v.len())
}

/// A copy of `v[lo..hi]`.
pub fn copy_range(v: &Vec<char>, lo: usize, hi: usize) -> (r: Vec<char>)
    requires
        lo <= hi <= v.len(),
    ensures
        r@ == v@.subrange(lo as int, hi as int),
{
    let mut r: Vec<char> = Vec::new();
    let mut i: usize = lo;
    while i < hi
        invariant
            lo <= i <= hi <= v.len(),
            r@ == v@.subrange(lo as int, i as int),
        decreases hi - i,
    {
        r.push(v[i]);
        i = i + 1;
        assert(r@ =~= v@.subrange(lo as int, i as int));
    }
    r
}

pub fn skip_whitespace(v: &Vec<char>, i: usize) -> (r: usize)
    requires
        i <= v.len(),
    ensures
        r == skip_white(v@, i as int),
        i <= r <= v.len(),
{
    let mut j = i;
    while j < v.len() && is_whitespace(v[j])
        invariant
            i <= j <= v.len(),
            skip_white(v@, i as int) == skip_white(v@, j as int),
        decreases v.len() - j,
    {
        j = j + 1;
    }
    j
}

/// The end of `v[lo..hi]` once the whitespace at its end is dropped.
pub fn trim_end(v: &Vec<char>, lo: usize, hi: usize) -> (r: usize)
    requires
        lo <= hi <= v.len(),
    ensures
        r == back_white(v@, lo as int, hi as int),
        lo <= r <= hi,
{
    let mut j = hi;
    while lo < j && is_whitespace(v[j - 1])
        invariant
            lo <= j <= hi <= v.len(),
            back_white(v@, lo as int, hi as int) == back_white(v@, lo as int, j as int),
        decreases j,
    {
        j = j - 1;
    }
    j
}

/// The bounds of `v` without whitespace at either end.
pub fn trim_bounds(v: &Vec<char>) -> (r: (usize, usize))
    ensures
        r.0 <= r.1 <= v.len(),
        v@.subrange(r.0 as int, r.1 as int) == trimmed(v@),
{
    let lo = skip_whitespace(v, 0);
    let mut hi = v.len();
    while lo < hi && is_whitespace(v[hi - 1])
        invariant
            lo <= hi <= v.len(),
            back_white(v@, lo as int, v.len() as int) == back_white(v@, lo as int, hi as int),
        decreases hi,
    {
        hi = hi - 1;
    }
    (lo, hi)
}

/// `v` with each non-overlapping pair `a b` replaced by `c`, from left to right.
pub fn replace_pair_in(v: &Vec<char>, a: char, b: char, c: char) -> (r: Vec<char>)
    ensures
        r@ == replace_pair(v@, a, b, c),
{
    let mut r: Vec<char> = Vec::new();
    let mut i: usize = 0;
    assert(v@.skip(0) =~= v@);
    assert(r@ + replace_pair(v@, a, b, c) =~= replace_pair(v@, a, b, c));
    while i < v.len()
        invariant
            i <= v.len(),
            replace_pair(v@, a, b, c) == r@ + replace_pair(v@.skip(i as int), a, b, c),
        decreases v.len() - i,
    {
        let ghost rest = v@.skip(i as int);
        if i + 1 < v.len() && v[i] == a && v[i + 1] == b {
            r.push(c);
            assert(rest.skip(2) =~= v@.skip(i + 2));
            i = i + 2;
        } else {
            r.push(v[i]);
            assert(rest.skip(1) =~= v@.skip(i + 1));
            i = i + 1;
        }
        assert(replace_pair(v@, a, b, c) == r@ + replace_pair(v@.skip(i as int), a, b, c)) by {
            assert(r@ =~= r@.drop_last() + seq![r@.last()]);
        }
    }
    r
}

/// The value of a quoted attribute, read from the characters between its quotes.
pub fn unescape(v: &Vec<char>, q: char) -> (r: Vec<char>)
    ensures
        r@ == unescaped(v@, q),
{
    let once = replace_pair_in(v, '\\', '\\', '\\');
    replace_pair_in(&once, '\\', q, q)
}

/// Appends `s` to `out`, written as the inside of a double-quoted value.
pub fn push_escaped(out: &mut String, s: &str)
    ensures
        final(out)@ == old(out)@ + escaped(s@),
{
    let v = chars_of(s);
    let mut i: usize = 0;
    assert(s@.skip(0) =~= s@);
    while i < v.len()
        invariant
            i <= v.len(),
            v@ == s@,
            old(out)@ + escaped(s@) == out@ + escaped(s@.skip(i as int)),
        decreases v.len() - i,
    {
        let c = v[i];
        let ghost rest = s@.skip(i as int);
        assert(rest.skip(1) =~= s@.skip(i + 1));
        if c == '\\' {
            push_char(out, '\\');
            push_char(out, '\\');
        } else if c == '"' {
            push_char(out, '\\');
            push_char(out, '"');
        } else {
            push_char(out, c);
        }
        i = i + 1;
        assert(old(out)@ + escaped(s@) == out@ + escaped(s@.skip(i as int))) by {
            assert(escaped(rest) == escape_char(c) + escaped(rest.skip(1)));
        }
    }
    assert(s@.skip(v.len() as int) =~= Seq::<char>::empty());
}

} // verus!

verus! {

/// A value after the first pass of `unescaped`: each backslash single again, each double
/// quote still escaped.
pub open spec fn half_unescaped(s: Seq<char>) -> Seq<char>
    decreases s.len(),
{
    if s.len() == 0 {
        Seq::empty()
    } else {
        (if s[0] == '"' {
            seq!['\\', '"']
        } else {
            seq![s[0]]
        }) + half_unescaped(s.skip(1))
    }
}

proof fn lemma_replace_pair_keep(x: char, t: Seq<char>, a: char, b: char, c: char)
    requires
        x != a || (t.len() > 0 && t[0] != b),
    ensures
        replace_pair(seq![x] + t, a, b, c) == seq![x] + replace_pair(t, a, b, c),
{
    let s = seq![x] + t;
    assert(s.skip(1) =~= t);
    if t.len() == 0 {
        assert(s =~= seq![x]);
        assert(seq![x] + t =~= seq![x]);
    }
}

proof fn lemma_replace_pair_hit(t: Seq<char>, a: char, b: char, c: char)
    ensures
        replace_pair(seq![a, b] + t, a, b, c) == seq![c] + replace_pair(t, a, b, c),
{
    let s = seq![a, b] + t;
    assert(s.skip(2) =~= t);
}

proof fn lemma_first_pass(v: Seq<char>)
    ensures
        replace_pair(escaped(v), '\\', '\\', '\\') == half_unescaped(v),
    decreases v.len(),
{
    if v.len() > 0 {
        let rest = v.skip(1);
        lemma_first_pass(rest);
        let e = escaped(rest);
        if v[0] == '\\' {
            lemma_replace_pair_hit(e, '\\', '\\', '\\');
        } else if v[0] == '"' {
            assert(seq!['\\', '"'] + e =~= seq!['\\'] + (seq!['"'] + e));
            lemma_replace_pair_keep('"', e, '\\', '\\', '\\');
            lemma_replace_pair_keep('\\', seq!['"'] + e, '\\', '\\', '\\');
            assert(seq!['\\'] + (seq!['"'] + replace_pair(e, '\\', '\\', '\\')) =~= seq![
                '\\',
                '"',
            ] + replace_pair(e, '\\', '\\', '\\'));
        } else {
            lemma_replace_pair_keep(v[0], e, '\\', '\\', '\\');
        }
    }
}

proof fn lemma_half_first(v: Seq<char>)
    requires
        half_unescaped(v).len() > 0,
    ensures
        half_unescaped(v)[0] != '"',
{
    let h = half_unescaped(v);
    let first = if v[0] == '"' { seq!['\\', '"'] } else { seq![v[0]] };
    assert(h[0] == first[0]);
}

proof fn lemma_second_pass(v: Seq<char>)
    ensures
        replace_pair(half_unescaped(v), '\\', '"', '"') == v,
    decreases v.len(),
{
    if v.len() == 0 {
        assert(half_unescaped(v) =~= Seq::<char>::empty());
    } else {
        let rest = v.skip(1);
        lemma_second_pass(rest);
        let h = half_unescaped(rest);
        if v[0] == '"' {
            lemma_replace_pair_hit(h, '\\', '"', '"');
        } else {
            if h.len() > 0 {
                lemma_half_first(rest);
            }
            if v[0] == '\\' && h.len() == 0 {
                assert(seq![v[0]] + h =~= seq![v[0]]);
                assert(replace_pair(seq![v[0]], '\\', '"', '"') == seq![v[0]]);
                assert(replace_pair(h, '\\', '"', '"') =~= h);
            } else {
                lemma_replace_pair_keep(v[0], h, '\\', '"', '"');
            }
        }
        assert(seq![v[0]] + rest =~= v);
    }
}

/// A value escaped for a double-quoted attribute unescapes to itself.
pub proof fn lemma_unescape_escaped(v: Seq<char>)
    ensures
        unescaped(escaped(v), '"') == v,
{
    lemma_first_pass(v);
    lemma_second_pass(v);
}

} // verus!
