//! The markup grammar: a character sequence read as a flat sequence of tokens.
//!
//! Between constructs whitespace is skipped. A construct is one of:
//! - a comment `<!-- ... -->` or a declaration such as `<!DOCTYPE html>`: skipped;
//! - a start tag `<name attributes>` or `<name attributes/>`, where each attribute is
//!   `key`, `key=value`, `key="value"` or `key='value'` (in a quoted value a backslash escapes
//!   the character after it);
//! - an end tag `</name>`;
//! - text: the characters up to the next `<`, without the whitespace at its end.
//!
//! A name starts with an ASCII letter and goes on with letters, digits, `-`, `_`, `:` and `.`.
//! A start tag closed by `/>`, or naming a void element (`br`, `img`, ...), has no content.
use vstd::prelude::*;
use crate::text::{
    back_white, escape_char, escaped, is_white, is_whitespace, lemma_unescape_escaped, lower,
    skip_white, skip_whitespace, unescaped,
};

verus! {

/// How an attribute's value is written; positions index the input.
#[derive(Clone, Copy, PartialEq, Eq, Structural, Debug)]
pub enum AttributeValue {
    /// No value: `key`.
    Absent,
    /// `key="..."` or `key='...'`: the quote and the characters between the quotes.
    Quoted { quote: char, start: usize, end: usize },
    /// `key=value`: the value's characters.
    Naked { start: usize, end: usize },
}

/// A piece of markup; positions index the input.
#[derive(Clone, Copy, PartialEq, Eq, Structural, Debug)]
pub enum Token {
    /// `<name` opening a start tag.
    TagStart { start: usize, end: usize },
    /// One attribute of the start tag that is open.
    Attribute { start: usize, end: usize, value: AttributeValue },
    /// The `>` or `/>` that ends a start tag; `closed` where the element has no content.
    TagEnd { closed: bool },
    /// `</name>`.
    Close { start: usize, end: usize },
    /// Text between tags.
    Text { start: usize, end: usize },
}

/// Classes of characters that runs are made of.
#[derive(Clone, Copy, PartialEq, Eq, Structural, Debug)]
pub enum CharClass {
    /// Characters of a name after its first.
    Name,
    /// Characters of an unquoted value.
    Naked,
    /// Anything but `<`.
    NotLt,
    /// Anything but `>`.
    NotGt,
}

pub open spec fn is_letter(c: char) -> bool {
    ('a' <= c && c <= 'z') || ('A' <= c && c <= 'Z')
}

pub open spec fn in_class(c: char, k: CharClass) -> bool {
    match k {
        CharClass::Name => is_letter(c) || ('0' <= c && c <= '9') || c == '-' || c == '_' || c
            == ':' || c == '.',
        CharClass::Naked => !is_white(c) && c != '"' && c != '\'' && c != '=' && c != '<' && c
            != '>' && c != '`',
        CharClass::NotLt => c != '<',
        CharClass::NotGt => c != '>',
    }
}

/// The end of the run of class `k` that starts at `i`.
pub open spec fn scan(s: Seq<char>, i: int, k: CharClass) -> int
    decreases s.len() - i,
{
    if 0 <= i < s.len() && in_class(s[i], k) {
        scan(s, i + 1, k)
    } else {
        i
    }
}

/// The index of the quote `q` that ends a quoted value whose characters start at `i`, a
/// backslash escaping the character after it; the length where there is none.
pub open spec fn quoted_end(s: Seq<char>, i: int, q: char) -> int
    decreases s.len() - i,
{
    if i < 0 || i >= s.len() {
        s.len() as int
    } else if s[i] == q {
        i
    } else if s[i] == '\\' && i + 1 < s.len() {
        quoted_end(s, i + 2, q)
    } else {
        quoted_end(s, i + 1, q)
    }
}

/// The index of the first `-->` at or after `i`; the length where there is none.
pub open spec fn comment_end(s: Seq<char>, i: int) -> int
    decreases s.len() - i,
{
    if i < 0 || i + 2 >= s.len() {
        s.len() as int
    } else if s[i] == '-' && s[i + 1] == '-' && s[i + 2] == '>' {
        i
    } else {
        comment_end(s, i + 1)
    }
}

/// The names of the void elements, which never have content.
pub open spec fn is_void_name(n: Seq<char>) -> bool {
    let n = lower(n);
    ||| n == seq!['a', 'r', 'e', 'a']
    ||| n == seq!['b', 'a', 's', 'e']
    ||| n == seq!['b', 'r']
    ||| n == seq!['c', 'o', 'l']
    ||| n == seq!['e', 'm', 'b', 'e', 'd']
    ||| n == seq!['h', 'r']
    ||| n == seq!['i', 'm', 'g']
    ||| n == seq!['i', 'n', 'p', 'u', 't']
    ||| n == seq!['l', 'i', 'n', 'k']
    ||| n == seq!['m', 'e', 't', 'a']
    ||| n == seq!['p', 'a', 'r', 'a', 'm']
    ||| n == seq!['s', 'o', 'u', 'r', 'c', 'e']
    ||| n == seq!['t', 'r', 'a', 'c', 'k']
    ||| n == seq!['w', 'b', 'r']
}

/// `r` with `a` put in front of its tokens.
pub open spec fn prepend(a: Seq<Token>, r: Result<Seq<Token>, int>) -> Result<Seq<Token>, int> {
    match r {
        Ok(t) => Ok(a + t),
        Err(e) => Err(e),
    }
}

/// `r` with `a` put in front of its attributes.
pub open spec fn prepend_attrs(a: Seq<Token>, r: Result<(Seq<Token>, int), int>) -> Result<
    (Seq<Token>, int),
    int,
> {
    match r {
        Ok((t, k)) => Ok((a + t, k)),
        Err(e) => Err(e),
    }
}

/// The attributes of a start tag from `i` on, and where they end; or where they stop
/// following the grammar.
pub open spec fn lex_attributes(s: Seq<char>, i: int) -> Result<(Seq<Token>, int), int>
    decreases s.len() - i,
{
    let j = skip_white(s, i);
    if i < 0 || j < i {
        Err(i)
    } else if j < s.len() && is_letter(s[j]) {
        let e = scan(s, j + 1, CharClass::Name);
        let k = skip_white(s, e);
        if e <= j || e > s.len() {
            Err(j)
        } else if k < s.len() && s[k] == '=' {
            let v = skip_white(s, k + 1);
            if v < s.len() && (s[v] == '"' || s[v] == '\'') {
                let end = quoted_end(s, v + 1, s[v]);
                if end >= s.len() || end < j {
                    Err(v)
                } else {
                    prepend_attrs(
                        seq![
                            Token::Attribute {
                                start: j as usize,
                                end: e as usize,
                                value: AttributeValue::Quoted {
                                    quote: s[v],
                                    start: (v + 1) as usize,
                                    end: end as usize,
                                },
                            },
                        ],
                        lex_attributes(s, end + 1),
                    )
                }
            } else if v < s.len() && in_class(s[v], CharClass::Naked) {
                let end = scan(s, v, CharClass::Naked);
                if end <= j || end > s.len() {
                    Err(v)
                } else {
                    prepend_attrs(
                        seq![
                            Token::Attribute {
                                start: j as usize,
                                end: e as usize,
                                value: AttributeValue::Naked { start: v as usize, end: end as usize },
                            },
                        ],
                        lex_attributes(s, end),
                    )
                }
            } else {
                Err(v)
            }
        } else {
            prepend_attrs(
                seq![
                    Token::Attribute {
                        start: j as usize,
                        end: e as usize,
                        value: AttributeValue::Absent,
                    },
                ],
                lex_attributes(s, e),
            )
        }
    } else {
        Ok((Seq::empty(), j))
    }
}

/// The construct that starts at or after `i`, once whitespace is skipped: the tokens it
/// gives and where the next one may start; `None` at the end of the input; or where the input
/// stops following the grammar.
pub open spec fn construct(s: Seq<char>, i: int) -> Result<Option<(Seq<Token>, int)>, int> {
    let j = skip_white(s, i);
    if j >= s.len() {
        Ok(None)
    } else if s[j] != '<' {
        let e = scan(s, j, CharClass::NotLt);
        Ok(Some((seq![Token::Text { start: j as usize, end: back_white(s, j, e) as usize }], e)))
    } else if j + 3 < s.len() && s[j + 1] == '!' && s[j + 2] == '-' && s[j + 3] == '-' {
        let e = comment_end(s, j + 4);
        if e + 2 >= s.len() {
            Err(j)
        } else {
            Ok(Some((Seq::empty(), e + 3)))
        }
    } else if j + 1 < s.len() && s[j + 1] == '!' {
        let e = scan(s, j + 2, CharClass::NotGt);
        if e >= s.len() {
            Err(j)
        } else {
            Ok(Some((Seq::empty(), e + 1)))
        }
    } else if j + 2 < s.len() && s[j + 1] == '/' && is_letter(s[j + 2]) {
        let e = scan(s, j + 3, CharClass::Name);
        let k = skip_white(s, e);
        if k < s.len() && s[k] == '>' {
            Ok(Some((seq![Token::Close { start: (j + 2) as usize, end: e as usize }], k + 1)))
        } else {
            Err(j)
        }
    } else if j + 1 < s.len() && is_letter(s[j + 1]) {
        let e = scan(s, j + 2, CharClass::Name);
        let start = Token::TagStart { start: (j + 1) as usize, end: e as usize };
        match lex_attributes(s, e) {
            Err(x) => Err(x),
            Ok((attrs, k)) => if k + 1 < s.len() && s[k] == '/' && s[k + 1] == '>' {
                Ok(Some((seq![start] + attrs + seq![Token::TagEnd { closed: true }], k + 2)))
            } else if k < s.len() && s[k] == '>' {
                Ok(
                    Some(
                        (
                            seq![start] + attrs + seq![
                                Token::TagEnd { closed: is_void_name(s.subrange(j + 1, e)) },
                            ],
                            k + 1,
                        ),
                    ),
                )
            } else {
                Err(k)
            },
        }
    } else {
        Err(j)
    }
}

/// The tokens of `s` from `i` on; or where `s` stops following the grammar.
pub open spec fn lex(s: Seq<char>, i: int) -> Result<Seq<Token>, int>
    decreases s.len() - i,
{
    match construct(s, i) {
        Err(e) => Err(e),
        Ok(None) => Ok(Seq::empty()),
        Ok(Some((t, n))) => if n <= i || n > s.len() {
            Err(i)
        } else {
            prepend(t, lex(s, n))
        },
    }
}

} // verus!

verus! {

pub proof fn lemma_prepend_assoc(a: Seq<Token>, b: Seq<Token>, r: Result<Seq<Token>, int>)
    ensures
        prepend(a, prepend(b, r)) == prepend(a + b, r),
{
    if let Ok(t) = r {
        assert(a + (b + t) =~= (a + b) + t);
    }
}

pub proof fn lemma_prepend_attrs_assoc(
    a: Seq<Token>,
    b: Seq<Token>,
    r: Result<(Seq<Token>, int), int>,
)
    ensures
        prepend_attrs(a, prepend_attrs(b, r)) == prepend_attrs(a + b, r),
{
    if let Ok((t, k)) = r {
        assert(a + (b + t) =~= (a + b) + t);
    }
}

pub fn is_letter_char(c: char) -> (r: bool)
    ensures
        r == is_letter(c),
{
    ('a' <= c && c <= 'z') || ('A' <= c && c <= 'Z')
}

pub fn char_in_class(c: char, k: CharClass) -> (r: bool)
    ensures
        r == in_class(c, k),
{
    match k {
        CharClass::Name => is_letter_char(c) || ('0' <= c && c <= '9') || c == '-' || c == '_'
            || c == ':' || c == '.',
        CharClass::Naked => !is_whitespace(c) && c != '"' && c != '\'' && c != '=' && c != '<'
            && c != '>' && c != '`',
        CharClass::NotLt => c != '<',
        CharClass::NotGt => c != '>',
    }
}

/// The end of the run of class `k` that starts at `i`.
pub fn scan_run(v: &Vec<char>, i: usize, k: CharClass) -> (r: usize)
    requires
        i <= v.len(),
    ensures
        r == scan(v@, i as int, k),
        i <= r <= v.len(),
{
    let mut j = i;
    while j < v.len() && char_in_class(v[j], k)
        invariant
            i <= j <= v.len(),
            scan(v@, i as int, k) == scan(v@, j as int, k),
        decreases v.len() - j,
    {
        j = j + 1;
    }
    j
}

/// The index of the quote `q` that ends a quoted value whose characters start at `i`.
pub fn find_quote_end(v: &Vec<char>, i: usize, q: char) -> (r: usize)
    requires
        i <= v.len(),
    ensures
        r == quoted_end(v@, i as int, q),
        i <= r <= v.len(),
{
    let mut j = i;
    while j < v.len() && v[j] != q
        invariant
            i <= j <= v.len(),
            quoted_end(v@, i as int, q) == quoted_end(v@, j as int, q),
        decreases v.len() - j,
    {
        if v[j] == '\\' && j + 1 < v.len() {
            j = j + 2;
        } else {
            j = j + 1;
        }
    }
    j
}

/// The index of the first `-->` at or after `i`.
pub fn find_comment_end(v: &Vec<char>, i: usize) -> (r: usize)
    requires
        i <= v.len(),
    ensures
        r == comment_end(v@, i as int),
        i <= r <= v.len(),
{
    let mut j = i;
    while v.len() - j > 2 && !(v[j] == '-' && v[j + 1] == '-' && v[j + 2] == '>')
        invariant
            i <= j <= v.len(),
            comment_end(v@, i as int) == comment_end(v@, j as int),
        decreases v.len() - j,
    {
        j = j + 1;
    }
    if v.len() - j > 2 {
        j
    } else {
        v.len()
    }
}

/// Whether `v[lo..hi]`, in ASCII lowercase, is `w`.
fn lower_range_is(v: &Vec<char>, lo: usize, hi: usize, w: &[char]) -> (r: bool)
    requires
        lo <= hi <= v.len(),
    ensures
        r == (lower(v@.subrange(lo as int, hi as int)) == w@),
{
    let ghost n = lower(v@.subrange(lo as int, hi as int));
    if hi - lo != w.len() {
        return false;
    }
    let mut k: usize = 0;
    while k < w.len()
        invariant
            lo <= hi <= v.len(),
            hi - lo == w.len(),
            n == lower(v@.subrange(lo as int, hi as int)),
            k <= w.len(),
            forall|x: int| 0 <= x < k ==> n[x] == w@[x],
        decreases w.len() - k,
    {
        if crate::text::ascii_lower_char(v[lo + k]) != w[k] {
            return false;
        }
        k = k + 1;
    }
    assert(n =~= w@);
    true
}

/// Whether `v[lo..hi]` names a void element.
pub fn void_name(v: &Vec<char>, lo: usize, hi: usize) -> (r: bool)
    requires
        lo <= hi <= v.len(),
    ensures
        r == is_void_name(v@.subrange(lo as int, hi as int)),
{
    let ghost n = lower(v@.subrange(lo as int, hi as int));
    let r = lower_range_is(v, lo, hi, &['a', 'r', 'e', 'a']) || lower_range_is(v, lo, hi, &['b', 'a', 's', 'e'])
        || lower_range_is(v, lo, hi, &['b', 'r']) || lower_range_is(v, lo, hi, &['c', 'o', 'l'])
        || lower_range_is(v, lo, hi, &['e', 'm', 'b', 'e', 'd']) || lower_range_is(v, lo, hi, &['h', 'r'])
        || lower_range_is(v, lo, hi, &['i', 'm', 'g']) || lower_range_is(v, lo, hi, &['i', 'n', 'p', 'u', 't'])
        || lower_range_is(v, lo, hi, &['l', 'i', 'n', 'k']) || lower_range_is(v, lo, hi, &['m', 'e', 't', 'a'])
        || lower_range_is(v, lo, hi, &['p', 'a', 'r', 'a', 'm'])
        || lower_range_is(v, lo, hi, &['s', 'o', 'u', 'r', 'c', 'e'])
        || lower_range_is(v, lo, hi, &['t', 'r', 'a', 'c', 'k']) || lower_range_is(v, lo, hi, &['w', 'b', 'r']);
    r
}

} // verus!

verus! {

/// Reads the attributes of a start tag from `i` on, adding their tokens to `out`; gives
/// where they end, or where the input stops following the grammar.
fn lex_attributes_into(v: &Vec<char>, from: usize, out: &mut Vec<Token>) -> (r: Result<usize, usize>)
    requires
        from <= v.len(),
    ensures
        match lex_attributes(v@, from as int) {
            Ok((t, k)) => r == Ok::<usize, usize>(k as usize) && final(out)@ == old(out)@ + t
                && from <= k <= v.len(),
            Err(e) => r == Err::<usize, usize>(e as usize) && 0 <= e <= v.len(),
        },
{
    let ghost s = v@;
    let ghost start = out@;
    let mut i = from;
    assert(out@.subrange(start.len() as int, out@.len() as int) =~= Seq::empty());
    assert(out@.subrange(0, start.len() as int) =~= start);
    proof {
        if let Ok((t, k)) = lex_attributes(s, i as int) {
            assert(Seq::<Token>::empty() + t =~= t);
        }
    }
    loop
        invariant
            i <= v.len(),
            s == v@,
            i >= from,
            start == old(out)@,
            lex_attributes(s, from as int) == prepend_attrs(
                out@.subrange(start.len() as int, out@.len() as int),
                lex_attributes(s, i as int),
            ),
            out@.len() >= start.len(),
            out@.subrange(0, start.len() as int) == start,
        decreases v.len() - i,
    {
        let ghost added = out@.subrange(start.len() as int, out@.len() as int);
        let j = skip_whitespace(v, i);
        if !(j < v.len() && is_letter_char(v[j])) {
            assert(lex_attributes(s, i as int) == Ok::<(Seq<Token>, int), int>((Seq::empty(), j as int)));
            assert(added + Seq::<Token>::empty() =~= added);
            assert(out@ =~= start + added);
            return Ok(j);
        }
        let e = scan_run(v, j + 1, CharClass::Name);
        let k = skip_whitespace(v, e);
        let tok: Token;
        let next: usize;
        if k < v.len() && v[k] == '=' {
            let w = skip_whitespace(v, k + 1);
            if w < v.len() && (v[w] == '"' || v[w] == '\'') {
                let end = find_quote_end(v, w + 1, v[w]);
                if end >= v.len() {
                    return Err(w);
                }
                tok = Token::Attribute {
                    start: j,
                    end: e,
                    value: AttributeValue::Quoted { quote: v[w], start: w + 1, end },
                };
                next = end + 1;
            } else if w < v.len() && char_in_class(v[w], CharClass::Naked) {
                let end = scan_run(v, w, CharClass::Naked);
                tok = Token::Attribute {
                    start: j,
                    end: e,
                    value: AttributeValue::Naked { start: w, end },
                };
                next = end;
            } else {
                return Err(w);
            }
        } else {
            tok = Token::Attribute { start: j, end: e, value: AttributeValue::Absent };
            next = e;
        }
        proof {
            assert(lex_attributes(s, i as int) == prepend_attrs(seq![tok], lex_attributes(s, next as int)));
            lemma_prepend_attrs_assoc(added, seq![tok], lex_attributes(s, next as int));
        }
        out.push(tok);
        proof {
            assert(out@.subrange(start.len() as int, out@.len() as int) =~= added + seq![tok]);
            assert(out@.subrange(0, start.len() as int) =~= start);
        }
        i = next;
    }
}

/// Reads the construct that starts at or after `i`, adding its tokens to `out`; gives where
/// the next one may start, `None` at the end of the input, or where the input stops
/// following the grammar.
fn next_construct(v: &Vec<char>, i: usize, out: &mut Vec<Token>) -> (r: Result<Option<usize>, usize>)
    requires
        i <= v.len(),
    ensures
        match construct(v@, i as int) {
            Err(e) => r == Err::<Option<usize>, usize>(e as usize) && 0 <= e <= v.len(),
            Ok(None) => r == Ok::<Option<usize>, usize>(None) && final(out)@ == old(out)@,
            Ok(Some((t, n))) => r == Ok::<Option<usize>, usize>(Some(n as usize)) && final(out)@
                == old(out)@ + t && i < n <= v.len(),
        },
{
    let ghost before = out@;
    let j = skip_whitespace(v, i);
    if j >= v.len() {
        return Ok(None);
    }
    if v[j] != '<' {
        let e = scan_run(v, j + 1, CharClass::NotLt);
        assert(scan(v@, j as int, CharClass::NotLt) == e);
        let t = crate::text::trim_end(v, j, e);
        let tok = Token::Text { start: j, end: t };
        out.push(tok);
        assert(out@ =~= before + seq![tok]);
        return Ok(Some(e));
    }
    if v.len() - j > 3 && v[j + 1] == '!' && v[j + 2] == '-' && v[j + 3] == '-' {
        let e = find_comment_end(v, j + 4);
        if e >= v.len() || v.len() - e <= 2 {
            return Err(j);
        }
        assert(out@ =~= before + Seq::<Token>::empty());
        return Ok(Some(e + 3));
    }
    if v.len() - j > 1 && v[j + 1] == '!' {
        let e = scan_run(v, j + 2, CharClass::NotGt);
        if e >= v.len() {
            return Err(j);
        }
        assert(out@ =~= before + Seq::<Token>::empty());
        return Ok(Some(e + 1));
    }
    if v.len() - j > 2 && v[j + 1] == '/' && is_letter_char(v[j + 2]) {
        let e = scan_run(v, j + 3, CharClass::Name);
        let k = skip_whitespace(v, e);
        if !(k < v.len() && v[k] == '>') {
            return Err(j);
        }
        out.push(Token::Close { start: j + 2, end: e });
        return Ok(Some(k + 1));
    }
    if v.len() - j > 1 && is_letter_char(v[j + 1]) {
        let e = scan_run(v, j + 2, CharClass::Name);
        let start = Token::TagStart { start: j + 1, end: e };
        out.push(start);
        let ghost with_start = out@;
        let k = match lex_attributes_into(v, e, out) {
            Ok(k) => k,
            Err(x) => {
                return Err(x);
            },
        };
        let ghost attrs = out@.subrange(with_start.len() as int, out@.len() as int);
        assert(out@ =~= before + seq![start] + attrs);
        let tok: Token;
        let next: usize;
        if v.len() - k > 1 && v[k] == '/' && v[k + 1] == '>' {
            tok = Token::TagEnd { closed: true };
            next = k + 2;
        } else if k < v.len() && v[k] == '>' {
            tok = Token::TagEnd { closed: void_name(v, j + 1, e) };
            next = k + 1;
        } else {
            return Err(k);
        }
        out.push(tok);
        assert(out@ =~= before + (seq![start] + attrs + seq![tok]));
        return Ok(Some(next));
    }
    Err(j)
}

/// The tokens of the input, or the offset where it stops following the grammar.
pub fn tokenize(v: &Vec<char>) -> (r: Result<Vec<Token>, usize>)
    ensures
        match lex(v@, 0) {
            Ok(t) => r matches Ok(out) && out@ == t,
            Err(e) => r == Err::<Vec<Token>, usize>(e as usize) && 0 <= e <= v.len(),
        },
{
    let ghost s = v@;
    let mut out: Vec<Token> = Vec::new();
    let mut i: usize = 0;
    assert(prepend(out@, lex(s, 0)) == lex(s, 0)) by {
        if let Ok(t) = lex(s, 0) {
            assert(out@ + t =~= t);
        }
    }
    loop
        invariant
            i <= v.len(),
            s == v@,
            lex(s, 0) == prepend(out@, lex(s, i as int)),
        decreases v.len() - i,
    {
        let ghost before = out@;
        match next_construct(v, i, &mut out) {
            Err(e) => {
                return Err(e);
            },
            Ok(None) => {
                assert(out@ + Seq::<Token>::empty() =~= out@);
                return Ok(out);
            },
            Ok(Some(n)) => {
                proof {
                    let t = out@.subrange(before.len() as int, out@.len() as int);
                    if let Ok(Some((t2, n2))) = construct(s, i as int) {
                        assert(out@ == before + t2);
                        assert(t2 =~= t);
                        assert(n2 == n);
                        assert(lex(s, i as int) == prepend(t2, lex(s, n2)));
                    }
                    assert(out@ =~= before + t);
                    lemma_prepend_assoc(before, t, lex(s, n as int));
                }
                i = n;
            },
        }
    }
}

} // verus!

verus! {

/// Where the escaped form of `v` stands in `s` from `i` on and a double quote follows, the
/// quoted value that starts at `i` ends at that quote.
pub proof fn lemma_quoted_end_after_escaped(s: Seq<char>, i: int, v: Seq<char>)
    requires
        0 <= i,
        i + escaped(v).len() < s.len(),
        s.subrange(i, i + escaped(v).len()) == escaped(v),
        s[i + escaped(v).len()] == '"',
    ensures
        quoted_end(s, i, '"') == i + escaped(v).len(),
    decreases v.len(),
{
    let e = escaped(v);
    if v.len() > 0 {
        let rest = v.skip(1);
        let u = escape_char(v[0]);
        assert(e == u + escaped(rest));
        assert(s[i] == e[0]);
        assert(s.subrange(i + u.len(), i + u.len() + escaped(rest).len()) =~= escaped(rest)) by {
            assert forall|k: int| 0 <= k < escaped(rest).len() implies s[i + u.len() + k]
                == escaped(rest)[k] by {
                assert(s.subrange(i, i + e.len())[u.len() + k] == e[u.len() + k]);
            }
        }
        if v[0] == '\\' || v[0] == '"' {
            assert(s[i] == '\\');
        }
        lemma_quoted_end_after_escaped(s, i + u.len(), rest);
    }
}

/// A value written as the markup projection writes it, between double quotes and escaped,
/// reads back as itself: the reader finds its closing quote right after it, and unescaping
/// the characters between the quotes gives the value again.
pub proof fn lemma_escaped_value_reads_back(s: Seq<char>, i: int, v: Seq<char>)
    requires
        0 <= i,
        i + escaped(v).len() < s.len(),
        s.subrange(i, i + escaped(v).len()) == escaped(v),
        s[i + escaped(v).len()] == '"',
    ensures
        quoted_end(s, i, '"') == i + escaped(v).len(),
        unescaped(s.subrange(i, quoted_end(s, i, '"')), '"') == v,
{
    lemma_quoted_end_after_escaped(s, i, v);
    assert(s.subrange(i, i + escaped(v).len()) == escaped(v));
    lemma_unescape_escaped(v);
}

} // verus!
