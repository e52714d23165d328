//! Text as a sequence of characters: conversion to and from `String`, and the
//! character-level operations the rest of the crate is written in, each with
//! the meaning `str` gives it stated as a spec function.

use vstd::prelude::*;

verus! {

/// Append one character to a string.
#[verifier::external_body]
pub(crate) fn push_char(text: &mut String, c: char)
    ensures
        final(text)@ == old(text)@.push(c),
{
    text.push(c);
}

/// The characters of a string slice, in order.
pub fn to_chars(text: &str) -> (out: Vec<char>)
    ensures
        out@ == text@,
{
    let mut out: Vec<char> = Vec::new();
    for c in it: text.chars()
        invariant
            out@ == it.seq().take(it.index() as int),
            it.seq() == text@,
    {
        out.push(c);
    }
    out
}

/// A string holding exactly these characters.
pub fn from_chars(chars: &[char]) -> (out: String)
    ensures
        out@ == chars@,
{
    let mut out = String::new();
    let mut i: usize = 0;
    while i < chars.len()
        invariant
            i <= chars@.len(),
            out@ == chars@.take(i as int),
        decreases chars@.len() - i,
    {
        push_char(&mut out, chars[i]);
        i = i + 1;
        assert(chars@.take(i as int) == chars@.take((i - 1) as int).push(chars@[i - 1]));
    }
    assert(chars@.take(chars@.len() as int) == chars@);
    out
}

/// Append characters to the end of a vector.
pub fn extend(out: &mut Vec<char>, more: &[char])
    ensures
        final(out)@ == old(out)@ + more@,
{
    let mut i: usize = 0;
    while i < more.len()
        invariant
            i <= more@.len(),
            out@ == old(out)@ + more@.take(i as int),
        decreases more@.len() - i,
    {
        out.push(more[i]);
        i = i + 1;
        assert(more@.take(i as int) == more@.take((i - 1) as int).push(more@[i - 1]));
    }
    assert(more@.take(more@.len() as int) == more@);
}

/// Append a string's characters to the end of a vector.
pub fn extend_str(out: &mut Vec<char>, more: &str)
    ensures
        final(out)@ == old(out)@ + more@,
{
    let chars = to_chars(more);
    extend(out, chars.as_slice());
}

/// The characters `from..to` of a slice, copied.
pub fn slice(text: &[char], from: usize, to: usize) -> (out: Vec<char>)
    requires
        from <= to <= text@.len(),
    ensures
        out@ == text@.subrange(from as int, to as int),
{
    let mut out: Vec<char> = Vec::new();
    let mut i: usize = from;
    while i < to
        invariant
            from <= i <= to,
            to <= text@.len(),
            out@ == text@.subrange(from as int, i as int),
        decreases to - i,
    {
        out.push(text[i]);
        i = i + 1;
        assert(text@.subrange(from as int, i as int) == text@.subrange(from as int, (i - 1) as int).push(
            text@[i - 1],
        ));
    }
    out
}

/// Whether two character slices hold the same characters.
pub fn same(a: &[char], b: &[char]) -> (res: bool)
    ensures
        res == (a@ == b@),
{
    if a.len() != b.len() {
        return false;
    }
    let mut i: usize = 0;
    while i < a.len()
        invariant
            i <= a@.len(),
            a@.len() == b@.len(),
            forall|k: int| 0 <= k < i ==> a@[k] == b@[k],
        decreases a@.len() - i,
    {
        if a[i] != b[i] {
            return false;
        }
        i = i + 1;
    }
    assert(a@ =~= b@);
    true
}

/// Whether two strings are equal.
pub fn same_str(a: &str, b: &str) -> (res: bool)
    ensures
        res == (a@ == b@),
{
    let x = to_chars(a);
    let y = to_chars(b);
    same(x.as_slice(), y.as_slice())
}

/// The whitespace `str::trim` removes: the Unicode `White_Space` property.
pub open spec fn is_ws(c: char) -> bool {
    let u = c as u32;
    ||| 0x09 <= u <= 0x0D
    ||| u == 0x20
    ||| u == 0x85
    ||| u == 0xA0
    ||| u == 0x1680
    ||| 0x2000 <= u <= 0x200A
    ||| u == 0x2028
    ||| u == 0x2029
    ||| u == 0x202F
    ||| u == 0x205F
    ||| u == 0x3000
}

/// Whether a character is Unicode whitespace.
pub fn char_is_ws(c: char) -> (res: bool)
    ensures
        res == is_ws(c),
{
    let u = c as u32;
    (0x09 <= u && u <= 0x0D) || u == 0x20 || u == 0x85 || u == 0xA0 || u == 0x1680 || (0x2000
        <= u && u <= 0x200A) || u == 0x2028 || u == 0x2029 || u == 0x202F || u == 0x205F || u
        == 0x3000
}

/// Where the text starts once leading whitespace is skipped.
pub open spec fn ws_prefix_len(s: Seq<char>) -> nat
    decreases s.len(),
{
    if s.len() > 0 && is_ws(s[0]) {
        1 + ws_prefix_len(s.drop_first())
    } else {
        0
    }
}

/// The text without leading whitespace, as `str::trim_start` leaves it.
pub open spec fn trim_start(s: Seq<char>) -> Seq<char> {
    s.skip(ws_prefix_len(s) as int)
}

/// Where the text ends once trailing whitespace is dropped.
pub open spec fn content_len(s: Seq<char>) -> nat
    decreases s.len(),
{
    if s.len() > 0 && is_ws(s.last()) {
        content_len(s.drop_last())
    } else {
        s.len()
    }
}

/// The text without trailing whitespace, as `str::trim_end` leaves it.
pub open spec fn trim_end(s: Seq<char>) -> Seq<char> {
    s.take(content_len(s) as int)
}

/// The text without whitespace at either end, as `str::trim` leaves it.
pub open spec fn trim(s: Seq<char>) -> Seq<char> {
    trim_end(trim_start(s))
}

/// Whether the text is empty or only whitespace.
pub open spec fn is_blank(s: Seq<char>) -> bool {
    trim(s).len() == 0
}

pub proof fn lemma_ws_prefix_len(s: Seq<char>)
    ensures
        ws_prefix_len(s) <= s.len(),
        forall|k: int| 0 <= k < ws_prefix_len(s) ==> is_ws(#[trigger] s[k]),
        ws_prefix_len(s) < s.len() ==> !is_ws(s[ws_prefix_len(s) as int]),
    decreases s.len(),
{
    if s.len() > 0 && is_ws(s[0]) {
        lemma_ws_prefix_len(s.drop_first());
        assert forall|k: int| 0 <= k < ws_prefix_len(s) implies is_ws(#[trigger] s[k]) by {
            if k > 0 {
                assert(s[k] == s.drop_first()[k - 1]);
            }
        }
    }
}

pub proof fn lemma_content_len(s: Seq<char>)
    ensures
        content_len(s) <= s.len(),
        forall|k: int| content_len(s) <= k < s.len() ==> is_ws(#[trigger] s[k]),
        content_len(s) > 0 ==> !is_ws(s[content_len(s) - 1]),
    decreases s.len(),
{
    if s.len() > 0 && is_ws(s.last()) {
        lemma_content_len(s.drop_last());
        assert forall|k: int| content_len(s) <= k < s.len() implies is_ws(#[trigger] s[k]) by {
            if k < s.len() - 1 {
                assert(s[k] == s.drop_last()[k]);
            }
        }
    }
}

/// A run of whitespace at the front is exactly what `ws_prefix_len` counts.
pub proof fn lemma_ws_prefix_len_is(s: Seq<char>, n: int)
    requires
        0 <= n <= s.len(),
        forall|k: int| 0 <= k < n ==> is_ws(#[trigger] s[k]),
        n < s.len() ==> !is_ws(s[n]),
    ensures
        ws_prefix_len(s) == n,
    decreases s.len(),
{
    if n > 0 {
        assert(is_ws(s[0]));
        assert forall|k: int| 0 <= k < n - 1 implies is_ws(#[trigger] s.drop_first()[k]) by {
            assert(s.drop_first()[k] == s[k + 1]);
        }
        if n < s.len() {
            assert(s.drop_first()[n - 1] == s[n]);
        }
        lemma_ws_prefix_len_is(s.drop_first(), n - 1);
    }
}

/// A run of whitespace at the back is exactly what `content_len` keeps out.
pub proof fn lemma_content_len_is(s: Seq<char>, n: int)
    requires
        0 <= n <= s.len(),
        forall|k: int| n <= k < s.len() ==> is_ws(#[trigger] s[k]),
        n > 0 ==> !is_ws(s[n - 1]),
    ensures
        content_len(s) == n,
    decreases s.len(),
{
    if n < s.len() {
        assert(is_ws(s[s.len() - 1]));
        assert forall|k: int| n <= k < s.len() - 1 implies is_ws(#[trigger] s.drop_last()[k]) by {
            assert(s.drop_last()[k] == s[k]);
        }
        if n > 0 {
            assert(s.drop_last()[n - 1] == s[n - 1]);
        }
        lemma_content_len_is(s.drop_last(), n);
    }
}

/// How many leading characters are whitespace.
pub fn leading_ws(s: &[char]) -> (n: usize)
    ensures
        n == ws_prefix_len(s@),
{
    let mut i: usize = 0;
    while i < s.len() && char_is_ws(s[i])
        invariant
            i <= s@.len(),
            forall|k: int| 0 <= k < i ==> is_ws(#[trigger] s@[k]),
        decreases s@.len() - i,
    {
        i = i + 1;
    }
    proof {
        lemma_ws_prefix_len_is(s@, i as int);
    }
    i
}

/// How many characters remain once trailing whitespace is dropped.
pub fn trimmed_len(s: &[char]) -> (n: usize)
    ensures
        n == content_len(s@),
{
    let mut n: usize = s.len();
    while n > 0 && char_is_ws(s[n - 1])
        invariant
            n <= s@.len(),
            forall|k: int| n <= k < s@.len() ==> is_ws(#[trigger] s@[k]),
        decreases n,
    {
        n = n - 1;
    }
    proof {
        lemma_content_len_is(s@, n as int);
    }
    n
}

/// `str::trim_start`.
pub fn trimmed_start(s: &[char]) -> (out: Vec<char>)
    ensures
        out@ == trim_start(s@),
{
    let n = leading_ws(s);
    proof {
        lemma_ws_prefix_len(s@);
    }
    slice(s, n, s.len())
}

/// `str::trim_end`.
pub fn trimmed_end(s: &[char]) -> (out: Vec<char>)
    ensures
        out@ == trim_end(s@),
{
    let n = trimmed_len(s);
    proof {
        lemma_content_len(s@);
    }
    slice(s, 0, n)
}

/// `str::trim`.
pub fn trimmed(s: &[char]) -> (out: Vec<char>)
    ensures
        out@ == trim(s@),
{
    let front = trimmed_start(s);
    trimmed_end(front.as_slice())
}

/// Whether the text is empty or only whitespace.
pub fn blank(s: &[char]) -> (res: bool)
    ensures
        res == is_blank(s@),
{
    let t = trimmed(s);
    t.len() == 0
}

/// Whether `p` begins `s`.
pub open spec fn starts_with(s: Seq<char>, p: Seq<char>) -> bool {
    p.len() <= s.len() && s.take(p.len() as int) == p
}

/// Whether `p` ends `s`.
pub open spec fn ends_with(s: Seq<char>, p: Seq<char>) -> bool {
    p.len() <= s.len() && s.skip(s.len() - p.len()) == p
}

/// Whether a text begins with one given character.
pub proof fn lemma_starts_with_char(s: Seq<char>, c: char)
    ensures
        starts_with(s, seq![c]) == (s.len() > 0 && s[0] == c),
{
    if s.len() > 0 {
        if s[0] == c {
            assert(s.take(1) =~= seq![c]);
        } else {
            assert(s.take(1)[0] != seq![c][0]);
        }
    }
}

/// `str::strip_prefix`.
pub open spec fn strip_prefix(s: Seq<char>, p: Seq<char>) -> Option<Seq<char>> {
    if starts_with(s, p) {
        Some(s.skip(p.len() as int))
    } else {
        None
    }
}

/// Whether `p` begins `s`.
pub fn has_prefix(s: &[char], p: &[char]) -> (res: bool)
    ensures
        res == starts_with(s@, p@),
{
    if p.len() > s.len() {
        return false;
    }
    let mut i: usize = 0;
    while i < p.len()
        invariant
            i <= p@.len() <= s@.len(),
            forall|k: int| 0 <= k < i ==> s@[k] == p@[k],
        decreases p@.len() - i,
    {
        if s[i] != p[i] {
            return false;
        }
        i = i + 1;
    }
    assert(s@.take(p@.len() as int) =~= p@);
    true
}

/// Whether `p` ends `s`.
pub fn has_suffix(s: &[char], p: &[char]) -> (res: bool)
    ensures
        res == ends_with(s@, p@),
{
    if p.len() > s.len() {
        return false;
    }
    let start = s.len() - p.len();
    let mut i: usize = 0;
    while i < p.len()
        invariant
            i <= p@.len() <= s@.len(),
            start + p@.len() == s@.len(),
            forall|k: int| 0 <= k < i ==> s@[start + k] == p@[k],
        decreases p@.len() - i,
    {
        if s[s.len() - (p.len() - i)] != p[i] {
            return false;
        }
        i = i + 1;
    }
    assert(s@.skip(start as int) =~= p@);
    true
}

/// `str::strip_prefix`.
pub fn without_prefix(s: &[char], p: &[char]) -> (out: Option<Vec<char>>)
    ensures
        match out {
            Some(rest) => strip_prefix(s@, p@) == Some(rest@),
            None => strip_prefix(s@, p@) is None,
        },
{
    if has_prefix(s, p) {
        Some(slice(s, p.len(), s.len()))
    } else {
        None
    }
}

/// The first position of `c` in `s`, if any.
pub open spec fn find(s: Seq<char>, c: char) -> Option<int>
    decreases s.len(),
{
    if s.len() == 0 {
        None
    } else if s[0] == c {
        Some(0)
    } else {
        match find(s.drop_first(), c) {
            Some(i) => Some(i + 1),
            None => None,
        }
    }
}

pub proof fn lemma_find(s: Seq<char>, c: char)
    ensures
        match find(s, c) {
            Some(i) => 0 <= i < s.len() && s[i] == c && forall|k: int| 0 <= k < i ==> s[k] != c,
            None => forall|k: int| 0 <= k < s.len() ==> s[k] != c,
        },
    decreases s.len(),
{
    if s.len() > 0 && s[0] != c {
        lemma_find(s.drop_first(), c);
        match find(s.drop_first(), c) {
            Some(i) => {
                assert forall|k: int| 0 <= k < i + 1 implies s[k] != c by {
                    if k > 0 {
                        assert(s[k] == s.drop_first()[k - 1]);
                    }
                }
            },
            None => {
                assert forall|k: int| 0 <= k < s.len() implies s[k] != c by {
                    if k > 0 {
                        assert(s[k] == s.drop_first()[k - 1]);
                    }
                }
            },
        }
    }
}

/// The first position of `c` at or after `from`, exactly as `find` reports it
/// on the rest of the text.
pub proof fn lemma_find_is(s: Seq<char>, c: char, i: int)
    requires
        0 <= i <= s.len(),
        forall|k: int| 0 <= k < i ==> s[k] != c,
        i < s.len() ==> s[i] == c,
    ensures
        find(s, c) == (if i < s.len() {
            Some(i)
        } else {
            None::<int>
        }),
{
    lemma_find(s, c);
}

/// The first position of `c` in `s[from..]`, counted from the start of `s`.
pub fn find_from(s: &[char], from: usize, c: char) -> (res: Option<usize>)
    requires
        from <= s@.len(),
    ensures
        match res {
            Some(i) => from <= i < s@.len() && s@[i as int] == c && find(s@.skip(from as int), c)
                == Some(i - from),
            None => find(s@.skip(from as int), c) is None,
        },
{
    let mut i = from;
    while i < s.len()
        invariant
            from <= i <= s@.len(),
            forall|k: int| from <= k < i ==> s@[k] != c,
        decreases s@.len() - i,
    {
        if s[i] == c {
            proof {
                lemma_find_is(s@.skip(from as int), c, i - from);
            }
            return Some(i);
        }
        i = i + 1;
    }
    proof {
        lemma_find_is(s@.skip(from as int), c, (s@.len() - from) as int);
    }
    None
}

/// Whether `c` occurs in `s`.
pub fn contains_char(s: &[char], c: char) -> (res: bool)
    ensures
        res == s@.contains(c),
{
    let found = find_from(s, 0, c);
    proof {
        lemma_find(s@, c);
        assert(s@.skip(0) == s@);
        if s@.contains(c) {
            let k = choose|k: int| 0 <= k < s@.len() && s@[k] == c;
            assert(s@[k] == c);
        }
    }
    found.is_some()
}

/// The position just after the last `c` in `s[..to]`, or 0 when there is none:
/// the start of the line holding offset `to`.
pub open spec fn line_start(s: Seq<char>, to: int) -> int
    decreases to,
{
    if to <= 0 {
        0
    } else if s[to - 1] == '\n' {
        to
    } else {
        line_start(s, to - 1)
    }
}

pub proof fn lemma_line_start(s: Seq<char>, to: int)
    requires
        0 <= to <= s.len(),
    ensures
        0 <= line_start(s, to) <= to,
        line_start(s, to) > 0 ==> s[line_start(s, to) - 1] == '\n',
        forall|k: int| line_start(s, to) <= k < to ==> s[k] != '\n',
    decreases to,
{
    if to > 0 && s[to - 1] != '\n' {
        lemma_line_start(s, to - 1);
    }
}

/// The start of the line holding offset `to`.
pub fn start_of_line(s: &[char], to: usize) -> (res: usize)
    requires
        to <= s@.len(),
    ensures
        res == line_start(s@, to as int),
{
    let mut i = to;
    while i > 0 && s[i - 1] != '\n'
        invariant
            i <= to <= s@.len(),
            line_start(s@, i as int) == line_start(s@, to as int),
        decreases i,
    {
        i = i - 1;
    }
    i
}

/// The offset of the first `\n` at or after `from`, or the length when none.
pub open spec fn line_end(s: Seq<char>, from: int) -> int {
    match find(s.skip(from), '\n') {
        Some(i) => from + i,
        None => s.len() as int,
    }
}

/// The offset of the first `\n` at or after `from`, or the length when none.
pub fn end_of_line(s: &[char], from: usize) -> (res: usize)
    requires
        from <= s@.len(),
    ensures
        res == line_end(s@, from as int),
        from <= res <= s@.len(),
{
    match find_from(s, from, '\n') {
        Some(i) => i,
        None => s.len(),
    }
}

/// One line as `str::lines` yields it: the trailing `\r` of a `\r\n` ending
/// is not part of the line.
pub open spec fn strip_cr(line: Seq<char>) -> Seq<char> {
    if line.len() > 0 && line.last() == '\r' {
        line.drop_last()
    } else {
        line
    }
}

/// The lines of a text, as `str::lines` yields them.
pub open spec fn lines(s: Seq<char>) -> Seq<Seq<char>>
    decreases s.len(),
{
    if s.len() == 0 {
        Seq::empty()
    } else {
        match find(s, '\n') {
            Some(i) => {
                if 0 <= i < s.len() {
                    seq![strip_cr(s.take(i))] + lines(s.skip(i + 1))
                } else {
                    Seq::empty()
                }
            },
            None => seq![s],
        }
    }
}

/// The lines of a text, as `str::lines` yields them.
pub fn split_lines(s: &[char]) -> (out: Vec<Vec<char>>)
    ensures
        out@.len() == lines(s@).len(),
        forall|k: int| 0 <= k < out@.len() ==> (#[trigger] out@[k])@ == lines(s@)[k],
{
    let mut out: Vec<Vec<char>> = Vec::new();
    let mut from: usize = 0;
    assert(s@.skip(0) =~= s@);
    assert(out@.map_values(|v: Vec<char>| v@) =~= Seq::<Seq<char>>::empty());
    while from < s.len()
        invariant
            from <= s@.len(),
            lines(s@) == out@.map_values(|v: Vec<char>| v@) + lines(s@.skip(from as int)),
        decreases s@.len() - from,
    {
        let ghost rest = s@.skip(from as int);
        proof {
            lemma_find(rest, '\n');
        }
        match find_from(s, from, '\n') {
            Some(i) => {
                let mut line = slice(s, from, i);
                if line.len() > 0 && line[line.len() - 1] == '\r' {
                    line.pop();
                }
                proof {
                    assert(rest.take(i - from) == s@.subrange(from as int, i as int));
                    assert(rest.skip(i - from + 1) == s@.skip(i + 1));
                }
                let ghost before = out@;
                out.push(line);
                proof {
                    assert(out@.map_values(|v: Vec<char>| v@) == before.map_values(
                        |v: Vec<char>| v@,
                    ).push(line@));
                    assert(lines(rest) == seq![strip_cr(rest.take(i - from))] + lines(
                        rest.skip(i - from + 1),
                    ));
                }
                from = i + 1;
            },
            None => {
                let line = slice(s, from, s.len());
                let ghost before = out@;
                out.push(line);
                proof {
                    assert(line@ == rest);
                    assert(out@.map_values(|v: Vec<char>| v@) == before.map_values(
                        |v: Vec<char>| v@,
                    ).push(line@));
                    assert(s@.skip(s@.len() as int) =~= Seq::<char>::empty());
                }
                from = s.len();
            },
        }
    }
    proof {
        assert(s@.skip(from as int) =~= Seq::<char>::empty());
        assert(lines(s@) =~= out@.map_values(|v: Vec<char>| v@));
        assert forall|k: int| 0 <= k < out@.len() implies (#[trigger] out@[k])@ == lines(s@)[k] by {
            assert(out@.map_values(|v: Vec<char>| v@)[k] == out@[k]@);
        }
    }
    out
}

/// The texts joined, each pair separated by `sep`.
pub open spec fn join(parts: Seq<Seq<char>>, sep: Seq<char>) -> Seq<char>
    decreases parts.len(),
{
    if parts.len() == 0 {
        Seq::empty()
    } else if parts.len() == 1 {
        parts[0]
    } else {
        join(parts.drop_last(), sep) + sep + parts.last()
    }
}

/// `[..].join(sep)` over character vectors.
pub fn join_chars(parts: &Vec<Vec<char>>, sep: &[char]) -> (out: Vec<char>)
    ensures
        out@ == join(parts@.map_values(|v: Vec<char>| v@), sep@),
{
    let ghost views = parts@.map_values(|v: Vec<char>| v@);
    let mut out: Vec<char> = Vec::new();
    let mut i: usize = 0;
    while i < parts.len()
        invariant
            i <= parts@.len(),
            views == parts@.map_values(|v: Vec<char>| v@),
            out@ == join(views.take(i as int), sep@),
        decreases parts@.len() - i,
    {
        if i > 0 {
            extend(&mut out, sep);
        }
        extend(&mut out, parts[i].as_slice());
        i = i + 1;
        proof {
            let t = views.take(i as int);
            assert(t.drop_last() == views.take((i - 1) as int));
            assert(t.last() == parts@[i - 1]@);
            if i == 1 {
                assert(views.take(0) =~= Seq::<Seq<char>>::empty());
                assert(out@ =~= t[0]);
            }
        }
    }
    assert(views.take(parts@.len() as int) == views);
    out
}

/// The decimal digits of a number, most significant first.
pub open spec fn decimal(n: nat) -> Seq<char>
    decreases n,
{
    if n < 10 {
        seq![digit_char(n)]
    } else {
        decimal(n / 10).push(digit_char(n % 10))
    }
}

/// The character for one decimal digit.
pub open spec fn digit_char(d: nat) -> char {
    if d == 0 {
        '0'
    } else if d == 1 {
        '1'
    } else if d == 2 {
        '2'
    } else if d == 3 {
        '3'
    } else if d == 4 {
        '4'
    } else if d == 5 {
        '5'
    } else if d == 6 {
        '6'
    } else if d == 7 {
        '7'
    } else if d == 8 {
        '8'
    } else {
        '9'
    }
}

/// A number as `{n:03}` writes it: its decimal digits, zero-padded to three.
pub open spec fn padded3(n: nat) -> Seq<char> {
    let d = decimal(n);
    if d.len() >= 3 {
        d
    } else {
        Seq::new((3 - d.len()) as nat, |_i: int| '0') + d
    }
}

/// The character for one decimal digit.
pub fn digit(d: u64) -> (c: char)
    requires
        d < 10,
    ensures
        c == digit_char(d as nat),
{
    if d == 0 {
        '0'
    } else if d == 1 {
        '1'
    } else if d == 2 {
        '2'
    } else if d == 3 {
        '3'
    } else if d == 4 {
        '4'
    } else if d == 5 {
        '5'
    } else if d == 6 {
        '6'
    } else if d == 7 {
        '7'
    } else if d == 8 {
        '8'
    } else {
        '9'
    }
}

/// The decimal digits of a number.
pub fn decimal_of(n: u64) -> (out: Vec<char>)
    ensures
        out@ == decimal(n as nat),
    decreases n,
{
    if n < 10 {
        let mut out: Vec<char> = Vec::new();
        out.push(digit(n));
        assert(out@ =~= seq![digit_char(n as nat)]);
        out
    } else {
        let mut out = decimal_of(n / 10);
        out.push(digit(n % 10));
        out
    }
}

/// A number as `{n:03}` writes it.
pub fn padded3_of(n: u64) -> (out: Vec<char>)
    ensures
        out@ == padded3(n as nat),
{
    let d = decimal_of(n);
    if d.len() >= 3 {
        d
    } else {
        let mut out: Vec<char> = Vec::new();
        let pad = 3 - d.len();
        let mut i: usize = 0;
        while i < pad
            invariant
                i <= pad,
                out@ == Seq::new(i as nat, |_i: int| '0'),
            decreases pad - i,
        {
            out.push('0');
            i = i + 1;
            assert(out@ =~= Seq::new(i as nat, |_i: int| '0'));
        }
        extend(&mut out, d.as_slice());
        out
    }
}

/// Whether the character is an ASCII decimal digit.
pub open spec fn is_digit(c: char) -> bool {
    48 <= (c as u32) <= 57
}

/// The value of an ASCII digit.
pub open spec fn digit_value(c: char) -> nat {
    ((c as u32) - 48) as nat
}

/// The number a string of decimal digits spells.
pub open spec fn digits_value(s: Seq<char>) -> nat
    decreases s.len(),
{
    if s.len() == 0 {
        0
    } else {
        digits_value(s.drop_last()) * 10 + digit_value(s.last())
    }
}

/// The digits of an unsigned number as written: without a leading `+`.
pub open spec fn unsigned_digits(s: Seq<char>) -> Seq<char> {
    if s.len() > 0 && s[0] == '+' {
        s.drop_first()
    } else {
        s
    }
}

/// The number `str::parse::<u32>` reads: an optional `+`, then one or more
/// ASCII digits whose value fits.
pub open spec fn parse_nat(s: Seq<char>, max: nat) -> Option<nat> {
    let digits = unsigned_digits(s);
    if digits.len() > 0 && (forall|k: int| 0 <= k < digits.len() ==> is_digit(#[trigger] digits[k]))
        && digits_value(digits) <= max {
        Some(digits_value(digits))
    } else {
        None
    }
}

pub proof fn lemma_parse_nat_not_digit(s: Seq<char>, max: nat, j: int)
    requires
        0 <= j < unsigned_digits(s).len(),
        !is_digit(unsigned_digits(s)[j]),
    ensures
        parse_nat(s, max) is None,
{
    let digits = unsigned_digits(s);
    assert(!(forall|k: int| 0 <= k < digits.len() ==> is_digit(#[trigger] digits[k])));
}

pub proof fn lemma_digits_value_prefix(s: Seq<char>, i: int)
    requires
        0 <= i < s.len(),
        forall|k: int| 0 <= k < s.len() ==> is_digit(#[trigger] s[k]),
    ensures
        digits_value(s.take(i)) <= digits_value(s.take(i + 1)),
        digits_value(s.take(i + 1)) == digits_value(s.take(i)) * 10 + digit_value(s[i]),
{
    assert(s.take(i + 1).drop_last() == s.take(i));
}

pub proof fn lemma_digits_value_mono(s: Seq<char>, i: int, j: int)
    requires
        0 <= i <= j <= s.len(),
        forall|k: int| 0 <= k < s.len() ==> is_digit(#[trigger] s[k]),
    ensures
        digits_value(s.take(i)) <= digits_value(s.take(j)),
    decreases j - i,
{
    if i < j {
        lemma_digits_value_mono(s, i, j - 1);
        lemma_digits_value_prefix(s, j - 1);
    }
}

/// `str::parse` into an unsigned number no greater than `max`.
pub fn parse_number(s: &[char], max: u64) -> (res: Option<u64>)
    ensures
        match res {
            Some(v) => parse_nat(s@, max as nat) == Some(v as nat),
            None => parse_nat(s@, max as nat) is None,
        },
{
    let start: usize = if s.len() > 0 && s[0] == '+' {
        1
    } else {
        0
    };
    let ghost digits = unsigned_digits(s@);
    assert(digits == s@.skip(start as int));
    if start >= s.len() {
        return None;
    }
    let mut value: u64 = 0;
    let mut i: usize = start;
    while i < s.len()
        invariant
            start <= i <= s@.len(),
            digits == s@.skip(start as int),
            digits == unsigned_digits(s@),
            value <= max,
            forall|k: int| start <= k < i ==> is_digit(#[trigger] s@[k]),
            value as nat == digits_value(digits.take(i - start)),
        decreases s@.len() - i,
    {
        let c = s[i];
        let u = c as u32;
        if !(48 <= u && u <= 57) {
            proof {
                assert(digits.len() == s@.len() - start);
                assert(i < s@.len());
                assert(digits[i - start] == c);
                assert(!is_digit(digits[i - start]));
                lemma_parse_nat_not_digit(s@, max as nat, i - start);
            }
            return None;
        }
        let d = (u - 48) as u64;
        proof {
            assert(digits.take(i - start + 1).drop_last() == digits.take(i - start));
            assert(digits.take(i - start + 1).last() == c);
            assert(digits[i - start] == c);
        }
        if d > max || value > (max - d) / 10 {
            proof {
                assert(value * 10 + d > max) by (nonlinear_arith)
                    requires
                        d > max || value > (max - d) / 10,
                ;
                if forall|k: int| 0 <= k < digits.len() ==> is_digit(#[trigger] digits[k]) {
                    lemma_digits_value_mono(digits, i - start + 1, digits.len() as int);
                    assert(digits.take(digits.len() as int) == digits);
                }
            }
            return None;
        }
        proof {
            assert(value * 10 + d <= max) by (nonlinear_arith)
                requires
                    value <= (max - d) / 10,
                    d <= max,
            ;
        }
        value = value * 10 + d;
        i = i + 1;
    }
    proof {
        assert(digits.take(digits.len() as int) == digits);
        assert forall|k: int| 0 <= k < digits.len() implies is_digit(#[trigger] digits[k]) by {
            assert(digits[k] == s@[k + start]);
        }
    }
    Some(value)
}

/// The characters of each vector, in order.
pub open spec fn texts(v: Seq<Vec<char>>) -> Seq<Seq<char>> {
    v.map_values(|e: Vec<char>| e@)
}

/// The characters of each string, in order.
pub open spec fn views(v: Seq<String>) -> Seq<Seq<char>> {
    v.map_values(|s: String| s@)
}

/// Strict lexicographic order by code point, which is how `str` compares.
pub open spec fn lex_lt(a: Seq<char>, b: Seq<char>) -> bool
    decreases a.len(),
{
    if a.len() == 0 {
        b.len() > 0
    } else if b.len() == 0 {
        false
    } else if (a[0] as u32) < (b[0] as u32) {
        true
    } else if a[0] == b[0] {
        lex_lt(a.drop_first(), b.drop_first())
    } else {
        false
    }
}

pub proof fn lemma_char_u32_injective(x: char, y: char)
    ensures
        (x as u32) == (y as u32) ==> x == y,
{
    vstd::utf8::char_u32_cast(x, x as u32);
    vstd::utf8::char_u32_cast(y, y as u32);
}

pub proof fn lemma_lex_irreflexive(a: Seq<char>)
    ensures
        !lex_lt(a, a),
    decreases a.len(),
{
    if a.len() > 0 {
        lemma_lex_irreflexive(a.drop_first());
    }
}

pub proof fn lemma_lex_asymmetric(a: Seq<char>, b: Seq<char>)
    ensures
        lex_lt(a, b) ==> !lex_lt(b, a),
    decreases a.len(),
{
    if a.len() > 0 && b.len() > 0 && a[0] == b[0] {
        lemma_lex_asymmetric(a.drop_first(), b.drop_first());
    }
}

pub proof fn lemma_lex_transitive(a: Seq<char>, b: Seq<char>, c: Seq<char>)
    requires
        lex_lt(a, b),
        lex_lt(b, c),
    ensures
        lex_lt(a, c),
    decreases a.len(),
{
    if a.len() > 0 && b.len() > 0 && c.len() > 0 {
        lemma_char_u32_injective(a[0], b[0]);
        lemma_char_u32_injective(b[0], c[0]);
        lemma_char_u32_injective(a[0], c[0]);
        if a[0] == b[0] && b[0] == c[0] {
            lemma_lex_transitive(a.drop_first(), b.drop_first(), c.drop_first());
        }
    }
}

pub proof fn lemma_lex_total(a: Seq<char>, b: Seq<char>)
    ensures
        a == b || lex_lt(a, b) || lex_lt(b, a),
    decreases a.len(),
{
    if a.len() > 0 && b.len() > 0 {
        lemma_char_u32_injective(a[0], b[0]);
        if a[0] == b[0] {
            lemma_lex_total(a.drop_first(), b.drop_first());
            if a.drop_first() == b.drop_first() {
                assert(a =~= seq![a[0]] + a.drop_first());
                assert(b =~= seq![b[0]] + b.drop_first());
            }
        }
    } else if a.len() == 0 && b.len() == 0 {
        assert(a =~= b);
    }
}

/// Whether `a` sorts strictly before `b`.
pub fn less(a: &[char], b: &[char]) -> (res: bool)
    ensures
        res == lex_lt(a@, b@),
{
    let mut i: usize = 0;
    assert(a@.skip(0) == a@);
    assert(b@.skip(0) == b@);
    while i < a.len() && i < b.len() && a[i] == b[i]
        invariant
            i <= a@.len(),
            i <= b@.len(),
            lex_lt(a@, b@) == lex_lt(a@.skip(i as int), b@.skip(i as int)),
        decreases a@.len() - i,
    {
        proof {
            assert(a@.skip(i as int).drop_first() == a@.skip(i + 1));
            assert(b@.skip(i as int).drop_first() == b@.skip(i + 1));
        }
        i = i + 1;
    }
    if i < a.len() && i < b.len() {
        assert(a@.skip(i as int)[0] == a@[i as int]);
        assert(b@.skip(i as int)[0] == b@[i as int]);
    }
    if i == a.len() {
        i < b.len()
    } else if i == b.len() {
        false
    } else {
        (a[i] as u32) < (b[i] as u32)
    }
}

/// The text split at every `c`, as `str::split(c)` yields the pieces.
pub open spec fn split(s: Seq<char>, c: char) -> Seq<Seq<char>>
    decreases s.len(),
{
    match find(s, c) {
        Some(i) => {
            if 0 <= i < s.len() {
                seq![s.take(i)] + split(s.skip(i + 1), c)
            } else {
                seq![s]
            }
        },
        None => seq![s],
    }
}

/// The pieces of a text between every `c`.
pub fn split_at_char(s: &[char], c: char) -> (out: Vec<Vec<char>>)
    ensures
        texts(out@) == split(s@, c),
{
    let mut out: Vec<Vec<char>> = Vec::new();
    let mut from: usize = 0;
    let n = s.len();
    assert(s@.skip(0) =~= s@);
    assert(texts(out@) =~= Seq::<Seq<char>>::empty());
    loop
        invariant
            from <= s@.len(),
            n == s@.len(),
            split(s@, c) == texts(out@) + split(s@.skip(from as int), c),
        decreases s@.len() - from,
    {
        let ghost rest = s@.skip(from as int);
        proof {
            lemma_find(rest, c);
        }
        let ghost before = out@;
        match find_from(s, from, c) {
            Some(i) => {
                let part = slice(s, from, i);
                out.push(part);
                proof {
                    assert(rest.take(i - from) == part@);
                    assert(rest.skip(i - from + 1) == s@.skip(i + 1));
                    assert(texts(out@) == texts(before).push(part@));
                }
                from = i + 1;
            },
            None => {
                let part = slice(s, from, s.len());
                out.push(part);
                proof {
                    assert(part@ == rest);
                    assert(texts(out@) =~= texts(before) + seq![rest]);
                }
                return out;
            },
        }
    }
}

/// `str::split_once(c)`.
pub open spec fn split_once(s: Seq<char>, c: char) -> Option<(Seq<char>, Seq<char>)> {
    match find(s, c) {
        Some(i) => Some((s.take(i), s.skip(i + 1))),
        None => None,
    }
}

/// `str::split_once(c)`.
pub fn split_once_at(s: &[char], c: char) -> (res: Option<(Vec<char>, Vec<char>)>)
    ensures
        match res {
            Some((a, b)) => split_once(s@, c) == Some((a@, b@)),
            None => split_once(s@, c) is None,
        },
{
    assert(s@.skip(0) == s@);
    let n = s.len();
    match find_from(s, 0, c) {
        Some(i) => Some((slice(s, 0, i), slice(s, i + 1, n))),
        None => None,
    }
}

/// The whitespace-separated words of a text, as `str::split_whitespace`
/// yields them.
pub open spec fn words(s: Seq<char>) -> Seq<Seq<char>>
    decreases s.len(),
{
    let t = trim_start(s);
    if t.len() == 0 {
        Seq::empty()
    } else {
        let w = word_len(t);
        if 0 < w <= t.len() && t.len() < s.len() + 1 {
            seq![t.take(w as int)] + words(t.skip(w as int))
        } else {
            Seq::empty()
        }
    }
}

/// How many leading characters are not whitespace.
pub open spec fn word_len(s: Seq<char>) -> nat
    decreases s.len(),
{
    if s.len() > 0 && !is_ws(s[0]) {
        1 + word_len(s.drop_first())
    } else {
        0
    }
}

pub proof fn lemma_word_len(s: Seq<char>)
    ensures
        word_len(s) <= s.len(),
        forall|k: int| 0 <= k < word_len(s) ==> !is_ws(#[trigger] s[k]),
        word_len(s) < s.len() ==> is_ws(s[word_len(s) as int]),
    decreases s.len(),
{
    if s.len() > 0 && !is_ws(s[0]) {
        lemma_word_len(s.drop_first());
        assert forall|k: int| 0 <= k < word_len(s) implies !is_ws(#[trigger] s[k]) by {
            if k > 0 {
                assert(s[k] == s.drop_first()[k - 1]);
            }
        }
    }
}

pub proof fn lemma_word_len_is(s: Seq<char>, n: int)
    requires
        0 <= n <= s.len(),
        forall|k: int| 0 <= k < n ==> !is_ws(#[trigger] s[k]),
        n < s.len() ==> is_ws(s[n]),
    ensures
        word_len(s) == n,
    decreases s.len(),
{
    if n > 0 {
        assert forall|k: int| 0 <= k < n - 1 implies !is_ws(#[trigger] s.drop_first()[k]) by {
            assert(s.drop_first()[k] == s[k + 1]);
        }
        if n < s.len() {
            assert(s.drop_first()[n - 1] == s[n]);
        }
        lemma_word_len_is(s.drop_first(), n - 1);
    }
}

/// The whitespace-separated words of a text.
pub fn split_words(s: &[char]) -> (out: Vec<Vec<char>>)
    ensures
        texts(out@) == words(s@),
{
    let mut out: Vec<Vec<char>> = Vec::new();
    let mut from: usize = 0;
    assert(s@.skip(0) =~= s@);
    assert(texts(out@) =~= Seq::<Seq<char>>::empty());
    while from < s.len()
        invariant
            from <= s@.len(),
            words(s@) == texts(out@) + words(s@.skip(from as int)),
        decreases s@.len() - from,
    {
        let ghost rest = s@.skip(from as int);
        let mut i = from;
        while i < s.len() && char_is_ws(s[i])
            invariant
                from <= i <= s@.len(),
                forall|k: int| from <= k < i ==> is_ws(#[trigger] s@[k]),
            decreases s@.len() - i,
        {
            i = i + 1;
        }
        proof {
            assert forall|k: int| 0 <= k < i - from implies is_ws(#[trigger] rest[k]) by {
                assert(rest[k] == s@[from + k]);
            }
            if i < s@.len() {
                assert(rest[i - from] == s@[i as int]);
            }
            lemma_ws_prefix_len_is(rest, i - from);
            assert(trim_start(rest) == s@.skip(i as int));
        }
        if i == s.len() {
            proof {
                assert(words(rest) == Seq::<Seq<char>>::empty());
                assert(s@.skip(i as int) =~= Seq::<char>::empty());
                assert(words(s@.skip(i as int)) == Seq::<Seq<char>>::empty());
            }
            from = i;
        } else {
            let mut j = i;
            while j < s.len() && !char_is_ws(s[j])
                invariant
                    i <= j <= s@.len(),
                    forall|k: int| i <= k < j ==> !is_ws(#[trigger] s@[k]),
                decreases s@.len() - j,
            {
                j = j + 1;
            }
            let ghost t = s@.skip(i as int);
            proof {
                assert forall|k: int| 0 <= k < j - i implies !is_ws(#[trigger] t[k]) by {
                    assert(t[k] == s@[i + k]);
                }
                if j < s@.len() {
                    assert(t[j - i] == s@[j as int]);
                }
                lemma_word_len_is(t, j - i);
                assert(t.take(j - i) == s@.subrange(i as int, j as int));
                assert(t.skip(j - i) == s@.skip(j as int));
                lemma_ws_prefix_len(rest);
            }
            let ghost before = out@;
            let w = slice(s, i, j);
            out.push(w);
            proof {
                assert(texts(out@) == texts(before).push(w@));
                assert(words(rest) == seq![w@] + words(s@.skip(j as int)));
            }
            from = j;
        }
    }
    proof {
        assert(s@.skip(from as int) =~= Seq::<char>::empty());
        assert(texts(out@) + Seq::<Seq<char>>::empty() =~= texts(out@));
    }
    out
}

} // verus!
