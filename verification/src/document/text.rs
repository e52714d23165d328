//! Line-level text rules the document's surgery is written in: which lines a
//! row owns, how far a line is indented, and moving a block of lines left or
//! right.

use crate::chars::{
    blank, extend, is_blank, join, join_chars, leading_ws, line_start, lemma_line_start, slice, split,
    split_at_char, start_of_line, starts_with, texts, trim, trim_start, trimmed, trimmed_start, ws_prefix_len,
    lemma_ws_prefix_len, has_prefix,
};
use vstd::prelude::*;

verus! {

/// `n` spaces.
pub open spec fn spaces(n: nat) -> Seq<char> {
    Seq::new(n, |_i: int| ' ')
}

/// `n` spaces.
pub fn pad(n: usize) -> (out: Vec<char>)
    ensures
        out@ == spaces(n as nat),
{
    let mut out: Vec<char> = Vec::new();
    let mut i: usize = 0;
    while i < n
        invariant
            i <= n,
            out@ == spaces(i as nat),
        decreases n - i,
    {
        out.push(' ');
        i = i + 1;
        assert(out@ =~= spaces(i as nat));
    }
    out
}

/// How many spaces begin a line.
pub open spec fn lead_spaces(line: Seq<char>) -> nat
    decreases line.len(),
{
    if line.len() > 0 && line[0] == ' ' {
        1 + lead_spaces(line.drop_first())
    } else {
        0
    }
}

pub proof fn lemma_lead_spaces(line: Seq<char>)
    ensures
        lead_spaces(line) <= line.len(),
        forall|k: int| 0 <= k < lead_spaces(line) ==> line[k] == ' ',
        lead_spaces(line) < line.len() ==> line[lead_spaces(line) as int] != ' ',
    decreases line.len(),
{
    if line.len() > 0 && line[0] == ' ' {
        lemma_lead_spaces(line.drop_first());
        assert forall|k: int| 0 <= k < lead_spaces(line) implies line[k] == ' ' by {
            if k > 0 {
                assert(line[k] == line.drop_first()[k - 1]);
            }
        }
    }
}

pub proof fn lemma_lead_spaces_is(line: Seq<char>, n: int)
    requires
        0 <= n <= line.len(),
        forall|k: int| 0 <= k < n ==> line[k] == ' ',
        n < line.len() ==> line[n] != ' ',
    ensures
        lead_spaces(line) == n,
    decreases n,
{
    if n > 0 {
        lemma_lead_spaces_is(line.drop_first(), n - 1);
    }
}

/// A line moved `n` columns left, as far as its leading spaces allow.
pub open spec fn dedent_line(line: Seq<char>, n: nat) -> Seq<char> {
    if lead_spaces(line) < n {
        line.skip(lead_spaces(line) as int)
    } else {
        line.skip(n as int)
    }
}

/// A line moved `n` columns right; an empty line stays empty.
pub open spec fn indent_line(line: Seq<char>, n: nat) -> Seq<char> {
    if line.len() == 0 {
        line
    } else {
        spaces(n) + line
    }
}

/// Every line of a text moved `n` columns left, as far as its spaces allow.
pub open spec fn dedent(text: Seq<char>, n: nat) -> Seq<char> {
    join(split(text, '\n').map_values(|l: Seq<char>| dedent_line(l, n)), seq!['\n'])
}

/// Every non-empty line of a text moved `n` columns right.
pub open spec fn indent_by(text: Seq<char>, n: nat) -> Seq<char> {
    join(split(text, '\n').map_values(|l: Seq<char>| indent_line(l, n)), seq!['\n'])
}

/// Each line transformed, then joined again.
fn map_lines(text: &[char], n: usize, right: bool) -> (out: Vec<char>)
    ensures
        right ==> out@ == indent_by(text@, n as nat),
        !right ==> out@ == dedent(text@, n as nat),
{
    let pieces = split_at_char(text, '\n');
    let ghost ls = texts(pieces@);
    let mut done: Vec<Vec<char>> = Vec::new();
    let mut i: usize = 0;
    while i < pieces.len()
        invariant
            i <= pieces@.len(),
            ls == texts(pieces@),
            ls == split(text@, '\n'),
            right ==> done@.map_values(|v: Vec<char>| v@) == ls.take(i as int).map_values(
                |l: Seq<char>| indent_line(l, n as nat),
            ),
            !right ==> done@.map_values(|v: Vec<char>| v@) == ls.take(i as int).map_values(
                |l: Seq<char>| dedent_line(l, n as nat),
            ),
        decreases pieces@.len() - i,
    {
        let line = &pieces[i];
        let next: Vec<char> = if right {
            if line.len() == 0 {
                Vec::new()
            } else {
                let mut v = pad(n);
                extend(&mut v, line.as_slice());
                v
            }
        } else {
            let mut k: usize = 0;
            while k < line.len() && k < n && line[k] == ' '
                invariant
                    k <= line@.len(),
                    k <= n,
                    forall|j: int| 0 <= j < k ==> line@[j] == ' ',
                decreases n - k,
            {
                k = k + 1;
            }
            proof {
                lemma_lead_spaces(line@);
                if k < n {
                    lemma_lead_spaces_is(line@, k as int);
                } else {
                    assert(lead_spaces(line@) >= n) by {
                        if lead_spaces(line@) < n {
                            assert(line@[lead_spaces(line@) as int] == ' ');
                        }
                    }
                }
            }
            slice(line.as_slice(), k, line.len())
        };
        let ghost before = done@;
        done.push(next);
        proof {
            assert(ls[i as int] == line@);
            assert(ls.take(i + 1) =~= ls.take(i as int).push(line@));
            if right {
                assert(next@ == indent_line(line@, n as nat));
                assert(done@.map_values(|v: Vec<char>| v@) =~= before.map_values(|v: Vec<char>| v@).push(
                    indent_line(line@, n as nat),
                ));
                assert(ls.take(i + 1).map_values(|l: Seq<char>| indent_line(l, n as nat)) =~= ls.take(
                    i as int,
                ).map_values(|l: Seq<char>| indent_line(l, n as nat)).push(indent_line(line@, n as nat)));
            } else {
                assert(next@ == dedent_line(line@, n as nat));
                assert(done@.map_values(|v: Vec<char>| v@) =~= before.map_values(|v: Vec<char>| v@).push(
                    dedent_line(line@, n as nat),
                ));
                assert(ls.take(i + 1).map_values(|l: Seq<char>| dedent_line(l, n as nat)) =~= ls.take(
                    i as int,
                ).map_values(|l: Seq<char>| dedent_line(l, n as nat)).push(dedent_line(line@, n as nat)));
            }
        }
        i = i + 1;
    }
    assert(ls.take(pieces@.len() as int) == ls);
    let nl = ['\n'];
    assert(nl@ == seq!['\n']);
    join_chars(&done, nl.as_slice())
}

/// Every non-empty line of a text moved `n` columns right.
pub fn indent_text(text: &[char], n: usize) -> (out: Vec<char>)
    ensures
        out@ == indent_by(text@, n as nat),
{
    map_lines(text, n, true)
}

/// Every line of a text moved `n` columns left, as far as its spaces allow.
pub fn dedent_text(text: &[char], n: usize) -> (out: Vec<char>)
    ensures
        out@ == dedent(text@, n as nat),
{
    map_lines(text, n, false)
}

/// Moving a block right and back left by the same amount gives it back
/// unchanged: a row pasted at an indent and cut at that indent is the row.
pub proof fn lemma_dedent_undoes_indent(text: Seq<char>, n: nat)
    ensures
        dedent(indent_by(text, n), n) == text,
{
    let ls = split(text, '\n');
    let moved = ls.map_values(|l: Seq<char>| indent_line(l, n));
    lemma_split_join(text, '\n');
    assert forall|k: int| 0 <= k < moved.len() implies !(#[trigger] moved[k]).contains('\n') by {
        lemma_split_pieces(text, '\n');
        assert(!ls[k].contains('\n'));
        if ls[k].len() > 0 {
            assert forall|j: int| 0 <= j < moved[k].len() implies moved[k][j] != '\n' by {
                if j >= n {
                    assert(moved[k][j] == ls[k][j - n]);
                }
            }
        }
    }
    lemma_join_split(moved, '\n');
    let back = moved.map_values(|l: Seq<char>| dedent_line(l, n));
    assert forall|k: int| 0 <= k < ls.len() implies #[trigger] back[k] == ls[k] by {
        let l = ls[k];
        if l.len() > 0 {
            let m = spaces(n) + l;
            lemma_lead_spaces(m);
            assert(lead_spaces(m) >= n) by {
                if lead_spaces(m) < n {
                    assert(m[lead_spaces(m) as int] == ' ');
                }
            }
            assert(m.skip(n as int) =~= l);
        }
    }
    assert(back =~= ls);
}

/// The pieces a text splits into carry no separator.
pub proof fn lemma_split_pieces(s: Seq<char>, c: char)
    ensures
        forall|k: int| 0 <= k < split(s, c).len() ==> !(#[trigger] split(s, c)[k]).contains(c),
        split(s, c).len() >= 1,
    decreases s.len(),
{
    crate::chars::lemma_find(s, c);
    match crate::chars::find(s, c) {
        Some(i) => {
            if 0 <= i < s.len() {
                lemma_split_pieces(s.skip(i + 1), c);
                let rest = split(s.skip(i + 1), c);
                assert forall|k: int| 0 <= k < split(s, c).len() implies !(#[trigger] split(s, c)[k]).contains(c) by {
                    if k == 0 {
                        assert(split(s, c)[0] == s.take(i));
                        if s.take(i).contains(c) {
                            let j = choose|j: int| 0 <= j < s.take(i).len() && s.take(i)[j] == c;
                            assert(s[j] == c);
                        }
                    } else {
                        assert(split(s, c)[k] == rest[k - 1]);
                    }
                }
            }
        },
        None => {
            assert forall|k: int| 0 <= k < split(s, c).len() implies !(#[trigger] split(s, c)[k]).contains(c) by {
                assert(split(s, c)[k] == s);
            }
        },
    }
}

/// Splitting a text and joining it back gives the text.
pub proof fn lemma_split_join(s: Seq<char>, c: char)
    ensures
        join(split(s, c), seq![c]) == s,
    decreases s.len(),
{
    crate::chars::lemma_find(s, c);
    match crate::chars::find(s, c) {
        Some(i) => {
            if 0 <= i < s.len() {
                lemma_split_join(s.skip(i + 1), c);
                lemma_join_front(s.take(i), split(s.skip(i + 1), c), c);
                assert(s.take(i) + seq![c] + s.skip(i + 1) =~= s);
            }
        },
        None => {},
    }
}

/// Joining pieces after a first one.
pub proof fn lemma_join_front(first: Seq<char>, rest: Seq<Seq<char>>, c: char)
    requires
        rest.len() >= 1,
    ensures
        join(seq![first] + rest, seq![c]) == first + seq![c] + join(rest, seq![c]),
    decreases rest.len(),
{
    let all = seq![first] + rest;
    let sep = seq![c];
    if rest.len() == 1 {
        assert(all.drop_last() =~= seq![first]);
        assert(all.last() == rest[0]);
        assert(join(rest, sep) == rest[0]);
        assert(join(seq![first], sep) == first);
        assert(join(all, sep) == join(all.drop_last(), sep) + sep + all.last());
    } else {
        lemma_join_front(first, rest.drop_last(), c);
        assert(all.drop_last() =~= seq![first] + rest.drop_last());
        assert(all.last() == rest.last());
        assert(join(all, sep) == join(all.drop_last(), sep) + sep + all.last());
        assert(join(rest, sep) == join(rest.drop_last(), sep) + sep + rest.last());
        assert(join(all, sep) =~= first + sep + join(rest, sep));
    }
}

/// Splitting joined pieces that carry no separator gives the pieces back.
pub proof fn lemma_join_split(parts: Seq<Seq<char>>, c: char)
    requires
        parts.len() >= 1,
        forall|k: int| 0 <= k < parts.len() ==> !(#[trigger] parts[k]).contains(c),
    ensures
        split(join(parts, seq![c]), c) == parts,
    decreases parts.len(),
{
    let first = parts[0];
    let s = join(parts, seq![c]);
    if parts.len() == 1 {
        assert(join(parts, seq![c]) == first);
        crate::chars::lemma_find(first, c);
        if crate::chars::find(first, c) is Some {
            let i = crate::chars::find(first, c)->0;
            assert(first.contains(c));
        }
        assert(split(first, c) =~= seq![first]);
    } else {
        let rest = parts.drop_first();
        assert(parts =~= seq![first] + rest);
        lemma_join_front(first, rest, c);
        lemma_join_split(rest, c);
        crate::chars::lemma_find(s, c);
        assert(s[first.len() as int] == c);
        assert(forall|j: int| 0 <= j < first.len() ==> s[j] == first[j]);
        assert(!first.contains(c));
        crate::chars::lemma_find_is(s, c, first.len() as int);
        assert(s.take(first.len() as int) =~= first);
        assert(s.skip(first.len() as int + 1) =~= join(rest, seq![c]));
    }
}

/// A line that is a comment once its indentation is skipped.
pub open spec fn is_comment(line: Seq<char>) -> bool {
    starts_with(trim_start(line), seq!['#'])
}

/// The start of the line holding `start`, moved up over every comment line
/// directly above it that has a line above it in turn: the comments a row
/// owns.
pub open spec fn attached_start(s: Seq<char>, start: int) -> int
    decreases start,
{
    if start <= 0 || start > s.len() {
        start
    } else {
        let above = line_start(s, start - 1);
        proof {
            lemma_line_start(s, start - 1);
        }
        if above > 0 && is_comment(s.subrange(above, start)) {
            attached_start(s, above)
        } else {
            start
        }
    }
}

/// The start of the line holding `offset`, with the comment lines directly
/// above it.
pub open spec fn line_holding(s: Seq<char>, offset: int) -> int {
    attached_start(s, line_start(s, offset))
}

pub proof fn lemma_attached_start(s: Seq<char>, start: int)
    requires
        0 <= start <= s.len(),
    ensures
        0 <= attached_start(s, start) <= start,
    decreases start,
{
    if start > 0 {
        let above = line_start(s, start - 1);
        lemma_line_start(s, start - 1);
        if above > 0 && is_comment(s.subrange(above, start)) {
            lemma_attached_start(s, above);
        }
    }
}

/// The start of the line holding `offset`, with the comments it owns.
pub fn holding_line(s: &[char], offset: usize) -> (res: usize)
    requires
        offset <= s@.len(),
    ensures
        res == line_holding(s@, offset as int),
        res <= offset,
{
    let mut start = start_of_line(s, offset);
    proof {
        lemma_line_start(s@, offset as int);
        lemma_attached_start(s@, start as int);
    }
    while start > 0
        invariant
            start <= offset <= s@.len(),
            attached_start(s@, start as int) == line_holding(s@, offset as int),
        decreases start,
    {
        let above = start_of_line(s, start - 1);
        proof {
            lemma_line_start(s@, start - 1);
        }
        if above == 0 {
            return start;
        }
        let line = slice(s, above, start);
        let t = trimmed_start(line.as_slice());
        let hash = ['#'];
        if !has_prefix(t.as_slice(), hash.as_slice()) {
            assert(hash@ == seq!['#']);
            return start;
        }
        assert(hash@ == seq!['#']);
        start = above;
    }
    start
}

/// Where a run of blank lines ending at `offset` begins.
pub open spec fn blank_run_start(s: Seq<char>, start: int) -> int
    decreases start,
{
    if start <= 0 || start > s.len() {
        start
    } else {
        let above = line_start(s, start - 1);
        proof {
            lemma_line_start(s, start - 1);
        }
        if !is_blank(s.subrange(above, start - 1)) {
            start
        } else {
            blank_run_start(s, above)
        }
    }
}

/// A blank run starts no later than where it ends.
pub proof fn lemma_blank_run_start(s: Seq<char>, start: int)
    requires
        0 <= start <= s.len(),
    ensures
        0 <= blank_run_start(s, start) <= start,
    decreases start,
{
    if start > 0 {
        let above = line_start(s, start - 1);
        lemma_line_start(s, start - 1);
        if is_blank(s.subrange(above, start - 1)) {
            lemma_blank_run_start(s, above);
        }
    }
}

/// Where the blank lines just above `offset` begin.
pub fn start_of_blank_run(s: &[char], offset: usize) -> (res: usize)
    requires
        offset <= s@.len(),
    ensures
        res == blank_run_start(s@, offset as int),
        res <= offset,
{
    let mut start = offset;
    while start > 0
        invariant
            start <= offset <= s@.len(),
            blank_run_start(s@, start as int) == blank_run_start(s@, offset as int),
        decreases start,
    {
        let above = start_of_line(s, start - 1);
        proof {
            lemma_line_start(s@, start - 1);
        }
        let line = slice(s, above, start - 1);
        if !blank(line.as_slice()) {
            return start;
        }
        start = above;
    }
    start
}

/// Where the text before `end` stops once trailing blank and comment lines
/// are set aside.
pub open spec fn remarks_end(s: Seq<char>, end: int) -> int
    decreases end,
{
    if end <= 0 || end > s.len() {
        end
    } else {
        let from = line_start(s, end);
        proof {
            lemma_line_start(s, end);
        }
        let line = trim_start(s.subrange(from, end));
        if from == 0 || !(line.len() == 0 || starts_with(line, seq!['#'])) {
            end
        } else {
            remarks_end(s, from - 1)
        }
    }
}

/// Where the text before `end` stops once trailing blank and comment lines
/// are set aside.
pub fn without_trailing_remarks(s: &[char], end: usize) -> (res: usize)
    requires
        end <= s@.len(),
    ensures
        res == remarks_end(s@, end as int),
        res <= end,
{
    let mut e = end;
    loop
        invariant
            e <= end <= s@.len(),
            remarks_end(s@, e as int) == remarks_end(s@, end as int),
        decreases e,
    {
        if e == 0 {
            return e;
        }
        let from = start_of_line(s, e);
        proof {
            lemma_line_start(s@, e as int);
        }
        let line = slice(s, from, e);
        let t = trimmed_start(line.as_slice());
        let hash = ['#'];
        assert(hash@ == seq!['#']);
        assert(t@ == trim_start(s@.subrange(from as int, e as int)));
        if from == 0 || !(t.len() == 0 || has_prefix(t.as_slice(), hash.as_slice())) {
            assert(remarks_end(s@, e as int) == e);
            return e;
        }
        assert(remarks_end(s@, e as int) == remarks_end(s@, from - 1));
        e = from - 1;
    }
}

pub proof fn lemma_remarks_end_le(s: Seq<char>, end: int)
    requires
        0 <= end <= s.len(),
    ensures
        remarks_end(s, end) <= end,
    decreases end,
{
    if end > 0 {
        let from = line_start(s, end);
        lemma_line_start(s, end);
        let line = trim_start(s.subrange(from, end));
        if !(from == 0 || !(line.len() == 0 || starts_with(line, seq!['#']))) {
            lemma_remarks_end_le(s, from - 1);
        }
    }
}

/// How far the line at `offset` is indented: its leading whitespace.
pub open spec fn depth(s: Seq<char>, offset: int) -> nat {
    ws_prefix_len(s.skip(offset))
}

/// How far the line at `offset` is indented.
pub fn depth_of(s: &[char], offset: usize) -> (n: usize)
    requires
        offset <= s@.len(),
    ensures
        n == depth(s@, offset as int),
{
    let rest = slice(s, offset, s.len());
    assert(rest@ == s@.skip(offset as int));
    leading_ws(rest.as_slice())
}

/// A text without one pair of matching quotes around it.
pub open spec fn unquote(s: Seq<char>) -> Seq<char> {
    if s.len() >= 2 && s[0] == s.last() && (s[0] == '"' || s[0] == '\'') {
        s.subrange(1, s.len() - 1)
    } else {
        s
    }
}

/// The id a row's text carries: the value of its first line that reads
/// `id:` once indented text is skipped.
pub open spec fn id_of(text: Seq<char>) -> Option<Seq<char>> {
    id_in(split(text, '\n'))
}

/// The id the first `id:` line of these carries.
pub open spec fn id_in(lines: Seq<Seq<char>>) -> Option<Seq<char>>
    decreases lines.len(),
{
    if lines.len() == 0 {
        None
    } else {
        let first = trim_start(lines[0]);
        if starts_with(first, "id:"@) {
            Some(unquote(trim(first.skip(3))))
        } else {
            id_in(lines.drop_first())
        }
    }
}

/// The id a row's text carries.
pub fn row_id(text: &[char]) -> (res: Option<Vec<char>>)
    ensures
        match res {
            Some(id) => id_of(text@) == Some(id@),
            None => id_of(text@) is None,
        },
{
    let lines = split_at_char(text, '\n');
    assert(texts(lines@).skip(0) =~= texts(lines@));
    let mut i: usize = 0;
    while i < lines.len()
        invariant
            i <= lines@.len(),
            id_in(texts(lines@).skip(i as int)) == id_of(text@),
        decreases lines@.len() - i,
    {
        let ghost rest = texts(lines@).skip(i as int);
        assert(rest[0] == lines@[i as int]@);
        assert(rest.drop_first() == texts(lines@).skip(i + 1));
        let first = trimmed_start(lines[i].as_slice());
        let key = ['i', 'd', ':'];
        assert(key@ == "id:"@) by {
            reveal_strlit("id:");
        }
        if has_prefix(first.as_slice(), key.as_slice()) {
            let value = slice(first.as_slice(), 3, first.len());
            let t = trimmed(value.as_slice());
            let n = t.len();
            if n >= 2 && t[0] == t[n - 1] && (t[0] == '"' || t[0] == '\'') {
                return Some(slice(t.as_slice(), 1, n - 1));
            }
            return Some(t);
        }
        i = i + 1;
    }
    assert(texts(lines@).skip(lines@.len() as int) =~= Seq::<Seq<char>>::empty());
    None
}

} // verus!
