//! A ledger rewritten into the style it declares.
//!
//! Every rule here is named by an option in the ledger's `style` or by a rule
//! `check` already enforces. Nothing is inferred from how the file happens to
//! look: a ledger says how it wants to be written, and this makes it so.
//!
//! What it does not do is add anything nobody asked for. It removes whitespace
//! no one chose (a space at the end of a line, a second blank line, a file that
//! does not end in exactly one newline) and it never inserts a blank line, a
//! comment, or a key.

use crate::chars::{
    find, strip_cr, decimal, decimal_of, ends_with, extend, extend_str, from_chars, is_ws, lex_lt, less, lines, same, split_lines,
    texts, to_chars, trim, trim_end, trimmed, trimmed_end, char_is_ws, has_suffix, views,
};
use crate::document::render::{FieldValue, FieldView};
use crate::document::yaml::{EditView, Scalar, ScalarView};
use crate::document::{
    field_route, key_route, key_shape, patch_spec, reordered_rows, replaced, sections_reordered, still_parses,
    with_indent, must_still_parse, Document, KeyShape, rows_at_indent, lists_in_order, section_ids,
    law_set_indent_at_the_indent_changes_nothing,
};
use crate::report::Report;
use crate::document::render::{field_views, read_rows_field, rows_field};
use crate::ledger::{declared_version, declared_version_of};
use crate::schema::{section_key, ArchiveOrder, ArchivedTask, Ledger, Section};
use vstd::prelude::*;

verus! {

/// A character that may follow a block scalar's `|` or `>`: a chomping or an
/// indentation indicator.
pub open spec fn is_block_indicator(c: char) -> bool {
    c == '-' || c == '+' || crate::chars::is_digit(c)
}

/// A line whose value is a block scalar: it ends in `|` or `>` after a space,
/// followed by nothing but chomping and indentation indicators.
pub open spec fn opens_block(line: Seq<char>) -> bool {
    exists|j: int|
        #![trigger line[j]]
        1 <= j < line.len() && line[j - 1] == ' ' && (line[j] == '|' || line[j] == '>') && forall|k: int|
            j < k < line.len() ==> is_block_indicator(#[trigger] line[k])
}

/// Whether a line belongs to the block scalar a line at `block` spaces opened:
/// it is blank, or it is indented further than the line that opened it.
pub open spec fn inside_block(block: Option<nat>, raw: Seq<char>) -> bool {
    match block {
        Some(n) => trim_end(raw).len() == 0 || crate::chars::ws_prefix_len(raw) > n,
        None => false,
    }
}

/// Where the tidying of a text's lines stands: the lines kept so far, which
/// of them were kept as written because they belong to a block scalar,
/// whether the last line read was a blank line outside a block scalar,
/// whether the last line kept was a top-level key, and how far the line that
/// opened the block scalar being read is indented.
pub open spec fn tidy_state(ls: Seq<Seq<char>>) -> (Seq<Seq<char>>, Seq<bool>, bool, bool, Option<nat>)
    decreases ls.len(),
{
    if ls.len() == 0 {
        (Seq::empty(), Seq::empty(), false, false, None)
    } else {
        let (kept, held, prev_blank, after_key, block) = tidy_state(ls.drop_last());
        let raw = ls.last();
        let line = trim_end(raw);
        if inside_block(block, raw) {
            (kept.push(raw), held.push(true), false, false, block)
        } else if line.len() == 0 {
            if prev_blank || after_key {
                (kept, held, true, after_key, None)
            } else {
                (kept.push(Seq::empty()), held.push(false), true, after_key, None)
            }
        } else {
            let opened = if opens_block(line) { Some(crate::chars::ws_prefix_len(line)) } else { None };
            (kept.push(line), held.push(false), false, is_key_line(line), opened)
        }
    }
}

/// Whether the line at `i` belongs to a block scalar, and is kept as written.
pub open spec fn in_block(ls: Seq<Seq<char>>, i: int) -> bool {
    inside_block(tidy_state(ls.take(i)).4, ls[i])
}

/// A top-level key: a line ending in `:` that does not start indented.
pub open spec fn is_key_line(line: Seq<char>) -> bool {
    ends_with(line, seq![':']) && !(line.len() > 0 && is_ws(line[0]))
}

/// The kept lines without a blank line at the end, unless it is the only one.
pub open spec fn without_trailing_blank(kept: Seq<Seq<char>>) -> Seq<Seq<char>>
    decreases kept.len(),
{
    if kept.len() >= 2 && kept.last().len() == 0 {
        without_trailing_blank(kept.drop_last())
    } else {
        kept
    }
}

/// The lines a tidied text is made of.
pub open spec fn tidy_lines(source: Seq<char>) -> Seq<Seq<char>> {
    without_trailing_blank(tidy_state(lines(source)).0)
}

/// Which of those lines were kept as written, inside a block scalar.
pub open spec fn tidy_held(source: Seq<char>) -> Seq<bool> {
    tidy_state(lines(source)).1.take(tidy_lines(source).len() as int)
}

/// Lines, each ended by a line break.
pub open spec fn terminated(ls: Seq<Seq<char>>) -> Seq<char>
    decreases ls.len(),
{
    if ls.len() == 0 {
        Seq::empty()
    } else {
        terminated(ls.drop_last()) + ls.last() + seq!['\n']
    }
}

/// A text without the whitespace nobody chose: a space at the end of a line,
/// a second blank line, a blank line between a list's key and its first row,
/// and a file that does not end in exactly one newline. The lines of a block
/// scalar are its value, and stay as they are; only blank lines at the very
/// end of the file are dropped, wherever they stand.
pub open spec fn tidied_spec(source: Seq<char>) -> Seq<char> {
    terminated(tidy_lines(source))
}

/// Trimming the end of a line that keeps some text leaves its indentation.
proof fn lemma_trim_end_keeps_indent(s: Seq<char>)
    requires
        trim_end(s).len() > 0,
    ensures
        crate::chars::ws_prefix_len(trim_end(s)) == crate::chars::ws_prefix_len(s),
        crate::chars::ws_prefix_len(s) < trim_end(s).len(),
{
    let t = trim_end(s);
    crate::chars::lemma_content_len(s);
    crate::chars::lemma_ws_prefix_len(s);
    let n = crate::chars::ws_prefix_len(s);
    assert(!is_ws(s[t.len() - 1]));
    if n >= t.len() {
        assert(is_ws(s[t.len() - 1]));
    }
    assert forall|k: int| 0 <= k < n implies is_ws(#[trigger] t[k]) by {
        assert(t[k] == s[k]);
    }
    assert(t[n as int] == s[n as int]);
    crate::chars::lemma_ws_prefix_len_is(t, n as int);
}

/// A line that opens a block scalar is not a key.
proof fn lemma_opener_is_no_key(line: Seq<char>)
    requires
        opens_block(line),
    ensures
        !is_key_line(line),
{
    let j = choose|j: int|
        #![trigger line[j]]
        1 <= j < line.len() && line[j - 1] == ' ' && (line[j] == '|' || line[j] == '>') && forall|k: int|
            j < k < line.len() ==> is_block_indicator(#[trigger] line[k]);
    let last = line.len() - 1;
    if j < last {
        assert(is_block_indicator(line[last]));
    }
    assert(line.last() != ':');
    assert(!ends_with(line, seq![':'])) by {
        if ends_with(line, seq![':']) {
            assert(line.skip(line.len() - 1)[0] == line.last());
        }
    }
}

/// A line kept as written inside a block scalar is not a key.
proof fn lemma_held_is_no_key(block: Option<nat>, raw: Seq<char>)
    requires
        inside_block(block, raw),
    ensures
        !is_key_line(raw),
{
    crate::chars::lemma_content_len(raw);
    crate::chars::lemma_ws_prefix_len(raw);
    if trim_end(raw).len() == 0 {
        if raw.len() > 0 {
            assert(is_ws(raw[raw.len() - 1]));
            assert(raw.last() != ':');
            assert(!ends_with(raw, seq![':'])) by {
                if ends_with(raw, seq![':']) {
                    assert(raw.skip(raw.len() - 1)[0] == raw.last());
                }
            }
        } else {
            assert(!ends_with(raw, seq![':']));
        }
    } else {
        assert(is_ws(raw[0]));
    }
}

proof fn lemma_tidy_state(ls: Seq<Seq<char>>)
    ensures
        ({
            let (kept, held, prev_blank, after_key, block) = tidy_state(ls);
            &&& held.len() == kept.len()
            &&& kept.len() <= ls.len()
            &&& forall|k: int| 0 <= k < kept.len() && !held[k] ==> #[trigger] trim_end(kept[k]) == kept[k]
            &&& forall|k: int|
                0 <= k && k + 1 < kept.len() && !held[k + 1] ==> !((#[trigger] kept[k]).len() == 0 && kept[k + 1].len() == 0)
            &&& forall|k: int| 0 <= k && k + 1 < kept.len() ==> is_key_line(#[trigger] kept[k]) ==> kept[k + 1].len() > 0
            &&& (kept.len() > 0 && kept.last().len() == 0 && !held.last() ==> prev_blank)
            &&& (kept.len() > 0 && held.last() ==> block is Some)
            &&& (kept.len() > 0 && is_key_line(kept.last()) ==> after_key)
            &&& (after_key ==> kept.len() > 0 && is_key_line(kept.last()) && block is None)
        }),
    decreases ls.len(),
{
    if ls.len() > 0 {
        lemma_tidy_state(ls.drop_last());
        let (kept0, held0, p0, a0, b0) = tidy_state(ls.drop_last());
        let raw = ls.last();
        let line = trim_end(raw);
        crate::chars::lemma_content_len(raw);
        lemma_trim_end_twice(raw);
        assert(!is_key_line(Seq::<char>::empty())) by {
            assert(!ends_with(Seq::<char>::empty(), seq![':']));
        }
        if inside_block(b0, raw) {
            lemma_held_is_no_key(b0, raw);
        } else if line.len() > 0 && opens_block(line) {
            lemma_opener_is_no_key(line);
        }
        let (kept, held, p, a, b) = tidy_state(ls);
        assert forall|k: int| 0 <= k < kept.len() && !held[k] implies #[trigger] trim_end(kept[k]) == kept[k] by {
            if k < kept0.len() {
                assert(kept[k] == kept0[k] && held[k] == held0[k]);
            } else if line.len() == 0 {
                assert(kept[k] == Seq::<char>::empty());
                assert(trim_end(Seq::<char>::empty()) =~= Seq::<char>::empty());
            }
        }
        assert forall|k: int|
            0 <= k && k + 1 < kept.len() && !held[k + 1] implies !((#[trigger] kept[k]).len() == 0 && kept[k + 1].len() == 0) by {
            if k + 1 < kept0.len() {
                assert(kept[k] == kept0[k] && kept[k + 1] == kept0[k + 1] && held[k + 1] == held0[k + 1]);
            } else {
                assert(kept[k] == kept0.last());
            }
        }
        assert forall|k: int| 0 <= k && k + 1 < kept.len() && is_key_line(#[trigger] kept[k]) implies kept[k + 1].len() > 0 by {
            if k + 1 < kept0.len() {
                assert(kept[k] == kept0[k] && kept[k + 1] == kept0[k + 1]);
            } else {
                assert(kept[k] == kept0.last());
            }
        }
    }
}

/// Trimming the end twice trims no more than once.
pub proof fn lemma_trim_end_twice(s: Seq<char>)
    ensures
        trim_end(trim_end(s)) == trim_end(s),
        trim_end(s).len() > 0 ==> !is_ws(trim_end(s).last()),
{
    crate::chars::lemma_content_len(s);
    let t = trim_end(s);
    crate::chars::lemma_content_len(t);
    if t.len() > 0 {
        crate::chars::lemma_content_len_is(t, t.len() as int);
    } else {
        assert(t.take(0) =~= t);
    }
}

proof fn lemma_without_trailing_blank(kept: Seq<Seq<char>>)
    ensures
        ({
            let w = without_trailing_blank(kept);
            &&& w.len() <= kept.len()
            &&& w == kept.take(w.len() as int)
            &&& (w.len() == 0 || w.len() == 1 || w.last().len() > 0)
            &&& forall|k: int| w.len() <= k < kept.len() ==> (#[trigger] kept[k]).len() == 0
        }),
    decreases kept.len(),
{
    if kept.len() >= 2 && kept.last().len() == 0 {
        lemma_without_trailing_blank(kept.drop_last());
        let w = without_trailing_blank(kept.drop_last());
        assert(kept.drop_last().take(w.len() as int) =~= kept.take(w.len() as int));
        assert forall|k: int| w.len() <= k < kept.len() implies (#[trigger] kept[k]).len() == 0 by {
            if k < kept.len() - 1 {
                assert(kept[k] == kept.drop_last()[k]);
            }
        }
    } else {
        assert(kept.take(kept.len() as int) =~= kept);
    }
}

/// What tidying promises of every text: it is the lines it keeps, each ended
/// by one line break; no line outside a block scalar ends in whitespace; no
/// two blank lines stand together but inside a block scalar; no blank line
/// follows a top-level key; and the text ends in exactly one line break, or
/// is empty, or is a single blank line.
pub proof fn law_tidied_shape(source: Seq<char>)
    ensures
        ({
            let t = tidy_lines(source);
            let h = tidy_held(source);
            &&& tidied_spec(source) == terminated(t)
            &&& h.len() == t.len()
            &&& forall|k: int| 0 <= k < t.len() && !h[k] ==> #[trigger] trim_end(t[k]) == t[k]
            &&& forall|k: int| 0 <= k && k + 1 < t.len() && !h[k + 1] ==> !((#[trigger] t[k]).len() == 0 && t[k + 1].len() == 0)
            &&& forall|k: int| 0 <= k && k + 1 < t.len() ==> is_key_line(#[trigger] t[k]) ==> t[k + 1].len() > 0
            &&& (t.len() == 0 || t.len() == 1 || t.last().len() > 0)
        }),
{
    let (kept, held, p, a, b) = tidy_state(lines(source));
    lemma_tidy_state(lines(source));
    lemma_without_trailing_blank(kept);
    let t = tidy_lines(source);
    let h = tidy_held(source);
    assert forall|k: int| 0 <= k < t.len() && !h[k] implies #[trigger] trim_end(t[k]) == t[k] by {
        assert(t[k] == kept[k] && h[k] == held[k]);
    }
    assert forall|k: int| 0 <= k && k + 1 < t.len() && !h[k + 1] implies !((#[trigger] t[k]).len() == 0 && t[k + 1].len() == 0) by {
        assert(t[k] == kept[k] && t[k + 1] == kept[k + 1] && h[k + 1] == held[k + 1]);
    }
    assert forall|k: int| 0 <= k && k + 1 < t.len() && is_key_line(#[trigger] t[k]) implies t[k + 1].len() > 0 by {
        assert(t[k] == kept[k] && t[k + 1] == kept[k + 1]);
    }
}

/// What tidying has kept of a text's first lines stays at the front of what
/// it keeps of the whole text.
proof fn lemma_tidy_grows(ls: Seq<Seq<char>>, j: int)
    requires
        0 <= j <= ls.len(),
    ensures
        tidy_state(ls.take(j)).0.len() <= tidy_state(ls).0.len(),
        tidy_state(ls).0.take(tidy_state(ls.take(j)).0.len() as int) == tidy_state(ls.take(j)).0,
        tidy_state(ls).1.take(tidy_state(ls.take(j)).0.len() as int) == tidy_state(ls.take(j)).1,
    decreases ls.len(),
{
    lemma_tidy_state(ls);
    lemma_tidy_state(ls.take(j));
    if j == ls.len() {
        assert(ls.take(j) =~= ls);
        let s = tidy_state(ls);
        assert(s.0.take(s.0.len() as int) =~= s.0);
        assert(s.1.take(s.1.len() as int) =~= s.1);
    } else {
        let front = ls.drop_last();
        assert(front.take(j) =~= ls.take(j));
        lemma_tidy_grows(front, j);
        lemma_tidy_state(front);
        let m = tidy_state(ls.take(j)).0.len() as int;
        let s0 = tidy_state(front);
        let s = tidy_state(ls);
        assert(s.0.take(m) =~= s0.0.take(m));
        assert(s.1.take(m) =~= s0.1.take(m));
    }
}

/// A line inside a block scalar is kept as it was written: the tidied text
/// holds it, unchanged, at the place tidying has reached once it is read.
/// Only an empty line at the very end of the file can be dropped.
pub proof fn law_tidying_keeps_block_scalars(source: Seq<char>, i: int)
    requires
        0 <= i < lines(source).len(),
        in_block(lines(source), i),
        lines(source)[i].len() > 0,
    ensures
        ({
            let m = tidy_state(lines(source).take(i + 1)).0.len() as int;
            &&& 1 <= m <= tidy_lines(source).len()
            &&& tidy_lines(source)[m - 1] == lines(source)[i]
            &&& tidy_held(source)[m - 1]
        }),
{
    let ls = lines(source);
    let upto = ls.take(i + 1);
    assert(upto.drop_last() =~= ls.take(i));
    assert(upto.last() == ls[i]);
    let m = tidy_state(upto).0.len() as int;
    lemma_tidy_state(ls.take(i));
    assert(tidy_state(upto).0 == tidy_state(ls.take(i)).0.push(ls[i]));
    assert(tidy_state(upto).1 == tidy_state(ls.take(i)).1.push(true));
    assert(tidy_state(upto).0[m - 1] == ls[i]);
    assert(tidy_state(upto).1[m - 1]);
    lemma_tidy_grows(ls, i + 1);
    let (kept, held, p, a, b) = tidy_state(ls);
    lemma_tidy_state(ls);
    lemma_without_trailing_blank(kept);
    assert(kept[m - 1] == tidy_state(upto).0[m - 1]);
    assert(held[m - 1] == tidy_state(upto).1[m - 1]);
    let w = tidy_lines(source);
    if w.len() < m {
        assert(kept[m - 1].len() == 0);
    }
    assert(w[m - 1] == kept[m - 1]);
    assert(tidy_held(source)[m - 1] == held[m - 1]);
}

/// No line `str::lines` yields holds a line break.
proof fn lemma_lines_hold_no_break(s: Seq<char>)
    ensures
        forall|k: int| 0 <= k < lines(s).len() ==> !(#[trigger] lines(s)[k]).contains('\n'),
    decreases s.len(),
{
    if s.len() > 0 {
        crate::chars::lemma_find(s, '\n');
        match find(s, '\n') {
            Some(i) => {
                if 0 <= i < s.len() {
                    lemma_lines_hold_no_break(s.skip(i + 1));
                    let first = strip_cr(s.take(i));
                    assert(!first.contains('\n')) by {
                        if first.contains('\n') {
                            let j = choose|j: int| 0 <= j < first.len() && first[j] == '\n';
                            assert(s[j] == '\n');
                        }
                    }
                    assert forall|k: int| 0 <= k < lines(s).len() implies !(#[trigger] lines(s)[k]).contains('\n') by {
                        if k > 0 {
                            assert(lines(s)[k] == lines(s.skip(i + 1))[k - 1]);
                        }
                    }
                }
            },
            None => {
                assert forall|k: int| 0 <= k < lines(s).len() implies !(#[trigger] lines(s)[k]).contains('\n') by {
                    assert(lines(s)[k] == s);
                }
            },
        }
    }
}

/// Tidying keeps no line that holds a line break, or ends in a carriage
/// return, when none of the lines it reads does and no line it keeps as
/// written ends in one.
proof fn lemma_tidy_state_holds_no_break(ls: Seq<Seq<char>>)
    requires
        forall|k: int| 0 <= k < ls.len() ==> !(#[trigger] ls[k]).contains('\n'),
        forall|k: int| 0 <= k < ls.len() && in_block(ls, k) && (#[trigger] ls[k]).len() > 0 ==> ls[k].last() != '\r',
    ensures
        forall|k: int| 0 <= k < tidy_state(ls).0.len() ==> !(#[trigger] tidy_state(ls).0[k]).contains('\n'),
        forall|k: int|
            0 <= k < tidy_state(ls).0.len() && (#[trigger] tidy_state(ls).0[k]).len() > 0 ==> tidy_state(ls).0[k].last() != '\r',
    decreases ls.len(),
{
    if ls.len() > 0 {
        let front = ls.drop_last();
        assert forall|k: int| 0 <= k < front.len() implies !(#[trigger] front[k]).contains('\n') by {
            assert(front[k] == ls[k]);
        }
        assert forall|k: int| 0 <= k < front.len() && in_block(front, k) && (#[trigger] front[k]).len() > 0 implies front[k].last() != '\r' by {
            assert(front[k] == ls[k]);
            assert(front.take(k) =~= ls.take(k));
        }
        lemma_tidy_state_holds_no_break(front);
        let kept0 = tidy_state(front).0;
        let (_, _, _, _, b0) = tidy_state(front);
        let raw = ls.last();
        let line = trim_end(raw);
        crate::chars::lemma_content_len(raw);
        lemma_trim_end_twice(raw);
        assert(!line.contains('\n')) by {
            if line.contains('\n') {
                let j = choose|j: int| 0 <= j < line.len() && line[j] == '\n';
                assert(raw[j] == '\n');
                assert(raw.contains('\n'));
            }
        }
        let last = ls.len() - 1;
        assert(ls.take(last) =~= front);
        assert(raw == ls[last]);
        assert(is_ws('\r'));
        let kept = tidy_state(ls).0;
        assert forall|k: int| 0 <= k < kept.len() implies !(#[trigger] kept[k]).contains('\n') by {
            if k < kept0.len() {
                assert(kept[k] == kept0[k]);
            } else if inside_block(b0, raw) {
                assert(kept[k] == raw);
            } else if line.len() == 0 {
                assert(kept[k] == Seq::<char>::empty());
            } else {
                assert(kept[k] == line);
            }
        }
        assert forall|k: int| 0 <= k < kept.len() && (#[trigger] kept[k]).len() > 0 implies kept[k].last() != '\r' by {
            if k < kept0.len() {
                assert(kept[k] == kept0[k]);
            } else if inside_block(b0, raw) {
                assert(kept[k] == raw);
                assert(in_block(ls, last));
            } else if line.len() == 0 {
                assert(kept[k] == Seq::<char>::empty());
            } else {
                assert(kept[k] == line);
            }
        }
    }
}

/// Lines ended by line breaks, taken from the front.
proof fn lemma_terminated_front(t: Seq<Seq<char>>)
    requires
        t.len() > 0,
    ensures
        terminated(t) == t[0] + seq!['\n'] + terminated(t.skip(1)),
    decreases t.len(),
{
    if t.len() == 1 {
        assert(t.skip(1) =~= Seq::<Seq<char>>::empty());
        assert(t.drop_last() =~= Seq::<Seq<char>>::empty());
        assert(terminated(t) =~= t[0] + seq!['\n'] + terminated(t.skip(1)));
    } else {
        lemma_terminated_front(t.drop_last());
        assert(t.drop_last().skip(1) =~= t.skip(1).drop_last());
        assert(t.skip(1).last() == t.last());
        assert(t.drop_last()[0] == t[0]);
        assert(terminated(t) =~= t[0] + seq!['\n'] + terminated(t.skip(1)));
    }
}

/// Lines without line breaks, or a carriage return at the end, each ended by
/// a line break, read back as those lines.
proof fn lemma_lines_of_terminated(t: Seq<Seq<char>>)
    requires
        forall|k: int| 0 <= k < t.len() ==> !(#[trigger] t[k]).contains('\n'),
        forall|k: int| 0 <= k < t.len() && (#[trigger] t[k]).len() > 0 ==> t[k].last() != '\r',
    ensures
        lines(terminated(t)) == t,
    decreases t.len(),
{
    if t.len() > 0 {
        lemma_terminated_front(t);
        let rest = t.skip(1);
        assert forall|k: int| 0 <= k < rest.len() implies !(#[trigger] rest[k]).contains('\n') by {
            assert(rest[k] == t[k + 1]);
        }
        assert forall|k: int| 0 <= k < rest.len() && (#[trigger] rest[k]).len() > 0 implies rest[k].last() != '\r' by {
            assert(rest[k] == t[k + 1]);
        }
        lemma_lines_of_terminated(rest);
        let s = terminated(t);
        let first = t[0];
        assert forall|k: int| 0 <= k < first.len() implies s[k] != '\n' by {
            assert(s[k] == first[k]);
            if first[k] == '\n' {
                assert(first.contains('\n'));
            }
        }
        assert(s[first.len() as int] == '\n');
        crate::chars::lemma_find_is(s, '\n', first.len() as int);
        assert(s.take(first.len() as int) =~= first);
        assert(s.skip(first.len() as int + 1) =~= terminated(rest));
        assert(lines(s) =~= seq![first] + rest);
        assert(seq![first] + rest =~= t);
    } else {
        assert(terminated(t) =~= Seq::<char>::empty());
    }
}

/// Tidying what tidying kept keeps it line for line, and reads it into the
/// same block scalars.
proof fn lemma_tidy_state_twice(ls: Seq<Seq<char>>)
    ensures
        ({
            let (kept, held, p, a, b) = tidy_state(ls);
            let (kept2, held2, p2, a2, b2) = tidy_state(kept);
            &&& kept2 == kept
            &&& held2 == held
            &&& a2 == a
            &&& b2 == b
            &&& (p2 || a2) == (p || a)
        }),
    decreases ls.len(),
{
    if ls.len() > 0 {
        let front = ls.drop_last();
        lemma_tidy_state_twice(front);
        lemma_tidy_state(front);
        let (kept0, held0, p0, a0, b0) = tidy_state(front);
        let raw = ls.last();
        let line = trim_end(raw);
        crate::chars::lemma_content_len(raw);
        lemma_trim_end_twice(raw);
        let (kept, held, p, a, b) = tidy_state(ls);
        if inside_block(b0, raw) {
            assert(kept.drop_last() == kept0);
            assert(kept.last() == raw);
        } else if line.len() == 0 {
            if !(p0 || a0) {
                assert(kept.drop_last() == kept0);
                assert(kept.last() == Seq::<char>::empty());
                assert(trim_end(Seq::<char>::empty()) =~= Seq::<char>::empty());
            }
        } else {
            lemma_trim_end_keeps_indent(raw);
            assert(kept.drop_last() == kept0);
            assert(kept.last() == line);
        }
    }
}

/// What tidying keeps of its own lines is what it kept before, also of the
/// first lines alone.
proof fn lemma_tidy_state_prefix(x: Seq<Seq<char>>, m: int)
    requires
        tidy_state(x).0 == x,
        0 <= m <= x.len(),
    ensures
        tidy_state(x.take(m)).0 == x.take(m),
    decreases x.len(),
{
    if m == x.len() {
        assert(x.take(m) =~= x);
    } else {
        let front = x.drop_last();
        lemma_tidy_state(front);
        assert(tidy_state(x).0.len() == x.len());
        assert(tidy_state(front).0.len() <= front.len());
        assert(tidy_state(x).0.drop_last() == tidy_state(front).0);
        assert(tidy_state(front).0 == front);
        assert(front.take(m) =~= x.take(m));
        lemma_tidy_state_prefix(front, m);
    }
}

/// Tidying a tidied text changes nothing: `fmt` run twice writes what it
/// wrote the first time, as far as the whitespace goes. The one text this
/// does not hold of keeps, inside a block scalar, a line that ends in a
/// carriage return of its own, which the second reading takes for part of
/// the line break.
pub proof fn law_tidying_twice_changes_nothing(source: Seq<char>)
    requires
        forall|k: int|
            0 <= k < lines(source).len() && in_block(lines(source), k) && (#[trigger] lines(source)[k]).len() > 0
                ==> lines(source)[k].last() != '\r',
    ensures
        tidied_spec(tidied_spec(source)) == tidied_spec(source),
{
    law_tidied_shape(source);
    let ls = lines(source);
    let kept = tidy_state(ls).0;
    lemma_lines_hold_no_break(source);
    lemma_tidy_state_holds_no_break(ls);
    lemma_without_trailing_blank(kept);
    let t = tidy_lines(source);
    assert forall|k: int| 0 <= k < t.len() implies !(#[trigger] t[k]).contains('\n') by {
        assert(t[k] == kept[k]);
    }
    assert forall|k: int| 0 <= k < t.len() && (#[trigger] t[k]).len() > 0 implies t[k].last() != '\r' by {
        assert(t[k] == kept[k]);
    }
    lemma_lines_of_terminated(t);
    lemma_tidy_state_twice(ls);
    lemma_tidy_state_prefix(kept, t.len() as int);
    assert(tidy_state(t).0 == t);
    lemma_without_trailing_blank(t);
    assert(without_trailing_blank(t) == t) by {
        if t.len() >= 2 && t.last().len() == 0 {
            assert(false);
        }
    }
}

/// Whether a character is a chomping or an indentation indicator.
fn indicator_char(c: char) -> (res: bool)
    ensures
        res == is_block_indicator(c),
{
    let u = c as u32;
    c == '-' || c == '+' || (48 <= u && u <= 57)
}

/// Whether a line opens a block scalar.
fn header_opens_block(line: &[char]) -> (res: bool)
    ensures
        res == opens_block(line@),
{
    let mut k: usize = line.len();
    while k > 0 && indicator_char(line[k - 1])
        invariant
            k <= line@.len(),
            forall|m: int| k <= m < line@.len() ==> is_block_indicator(#[trigger] line@[m]),
        decreases k,
    {
        k = k - 1;
    }
    assert(k == 0 || !is_block_indicator(line@[k - 1]));
    let res = k >= 2 && (line[k - 1] == '|' || line[k - 1] == '>') && line[k - 2] == ' ';
    proof {
        let s = line@;
        if res {
            let j = k - 1;
            assert(1 <= j < s.len() && s[j - 1] == ' ' && (s[j] == '|' || s[j] == '>'));
            assert(forall|m: int| j < m < s.len() ==> is_block_indicator(#[trigger] s[m]));
        } else if opens_block(s) {
            let j = choose|j: int|
                #![trigger s[j]]
                1 <= j < s.len() && s[j - 1] == ' ' && (s[j] == '|' || s[j] == '>') && forall|m: int|
                    j < m < s.len() ==> is_block_indicator(#[trigger] s[m]);
            assert(!is_block_indicator(s[j]));
            if j >= k {
                assert(is_block_indicator(s[j]));
            }
            if j < k - 1 {
                assert(is_block_indicator(s[k - 1]));
            }
            assert(j == k - 1);
        }
    }
    res
}

/// The indentation of the line that opened the block scalar being read.
pub open spec fn block_view(block: Option<usize>) -> Option<nat> {
    match block {
        Some(n) => Some(n as nat),
        None => None,
    }
}

/// A text without the whitespace nobody chose. The lines of a block scalar
/// stay as written.
pub fn tidied(source: &[char]) -> (out: Vec<char>)
    ensures
        out@ == tidied_spec(source@),
{
    let ls = split_lines(source);
    let mut kept: Vec<Vec<char>> = Vec::new();
    let ghost mut held: Seq<bool> = Seq::empty();
    let mut prev_blank = false;
    let mut after_key = false;
    let mut block: Option<usize> = None;
    let mut i: usize = 0;
    let ghost all = lines(source@);
    assert(all.take(0) =~= Seq::<Seq<char>>::empty());
    assert(texts(kept@) =~= Seq::<Seq<char>>::empty());
    while i < ls.len()
        invariant
            i <= ls@.len(),
            all == lines(source@),
            ls@.len() == all.len(),
            forall|k: int| 0 <= k < ls@.len() ==> (#[trigger] ls@[k])@ == all[k],
            tidy_state(all.take(i as int)) == (texts(kept@), held, prev_blank, after_key, block_view(block)),
        decreases ls@.len() - i,
    {
        proof {
            assert(all.take(i + 1).drop_last() == all.take(i as int));
            assert(all.take(i + 1).last() == ls@[i as int]@);
        }
        let raw = ls[i].as_slice();
        let line = trimmed_end(raw);
        let inside = match block {
            Some(n) => line.len() == 0 || crate::chars::leading_ws(raw) > n,
            None => false,
        };
        if inside {
            let ghost before = kept@;
            assert(raw@.subrange(0, raw@.len() as int) =~= raw@);
            kept.push(crate::chars::slice(raw, 0, raw.len()));
            proof {
                assert(texts(kept@) =~= texts(before).push(all[i as int]));
                held = held.push(true);
            }
            prev_blank = false;
            after_key = false;
        } else if line.len() == 0 {
            if !(prev_blank || after_key) {
                let ghost before = kept@;
                kept.push(Vec::new());
                proof {
                    assert(texts(kept@) =~= texts(before).push(Seq::<char>::empty()));
                    held = held.push(false);
                }
            }
            prev_blank = true;
            block = None;
        } else {
            let colon = [':'];
            assert(colon@ == seq![':']);
            let key = has_suffix(line.as_slice(), colon.as_slice()) && !char_is_ws(line[0]);
            let opened = if header_opens_block(line.as_slice()) {
                Some(crate::chars::leading_ws(line.as_slice()))
            } else {
                None
            };
            let ghost before = kept@;
            kept.push(line);
            proof {
                assert(texts(kept@) =~= texts(before).push(trim_end(all[i as int])));
                held = held.push(false);
            }
            prev_blank = false;
            after_key = key;
            block = opened;
        }
        i = i + 1;
    }
    assert(all.take(ls@.len() as int) == all);
    let mut n = kept.len();
    assert(texts(kept@).take(n as int) =~= texts(kept@));
    while n >= 2 && kept[n - 1].len() == 0
        invariant
            n <= kept@.len(),
            without_trailing_blank(texts(kept@)) == without_trailing_blank(texts(kept@).take(n as int)),
        decreases n,
    {
        proof {
            assert(texts(kept@).take(n as int).drop_last() == texts(kept@).take(n - 1));
        }
        n = n - 1;
    }
    proof {
        assert(without_trailing_blank(texts(kept@).take(n as int)) == texts(kept@).take(n as int));
    }
    let mut out: Vec<char> = Vec::new();
    let mut k: usize = 0;
    let ghost t = texts(kept@).take(n as int);
    assert(t.take(0) =~= Seq::<Seq<char>>::empty());
    while k < n
        invariant
            k <= n <= kept@.len(),
            t == texts(kept@).take(n as int),
            out@ == terminated(t.take(k as int)),
        decreases n - k,
    {
        proof {
            assert(t.take(k + 1).drop_last() == t.take(k as int));
            assert(t.take(k + 1).last() == kept@[k as int]@);
        }
        extend(&mut out, kept[k].as_slice());
        out.push('\n');
        k = k + 1;
    }
    assert(t.take(n as int) == t);
    out
}

/// How `{:?}` writes a string: quoted, with its escapes.
pub uninterp spec fn debug_text(s: Seq<char>) -> Seq<char>;

/// `format!("{:?}", s)` for a string.
#[verifier::external_body]
fn debug_of(s: &[char]) -> (out: Vec<char>)
    ensures
        out@ == debug_text(s@),
{
    let text: String = s.iter().collect();
    format!("{text:?}").chars().collect()
}

/// One line's difference, by its number.
pub open spec fn line_difference(k: nat, before: Seq<char>, after: Seq<char>) -> Seq<char> {
    "line "@ + decimal(k) + ": "@ + debug_text(before) + " would be "@ + debug_text(after)
}

/// The differences among the first `k` lines.
pub open spec fn differences_upto(from: Seq<Seq<char>>, to: Seq<Seq<char>>, k: int) -> Seq<Seq<char>>
    decreases k,
{
    if k <= 0 {
        Seq::empty()
    } else {
        let rest = differences_upto(from, to, k - 1);
        if from[k - 1] != to[k - 1] {
            rest.push(line_difference(k as nat, from[k - 1], to[k - 1]))
        } else {
            rest
        }
    }
}

/// Which lines `fmt` would change, by number, so `--check` says where to
/// look; when the line counts differ, just the counts.
pub open spec fn changes_spec(source: Seq<char>, wanted: Seq<char>) -> Seq<Seq<char>> {
    let from = lines(source);
    let to = lines(wanted);
    if from.len() != to.len() {
        seq![decimal(from.len()) + " lines, would be "@ + decimal(to.len())]
    } else {
        differences_upto(from, to, from.len() as int)
    }
}

/// Which lines `fmt` would change.
pub fn changes(source: &str, wanted: &str) -> (out: Vec<String>)
    ensures
        views(out@) == changes_spec(source@, wanted@),
{
    let a = to_chars(source);
    let b = to_chars(wanted);
    let from = split_lines(a.as_slice());
    let to = split_lines(b.as_slice());
    if from.len() != to.len() {
        let mut m = decimal_of(from.len() as u64);
        extend_str(&mut m, " lines, would be ");
        let n = decimal_of(to.len() as u64);
        extend(&mut m, n.as_slice());
        let out = vec![from_chars(m.as_slice())];
        assert(views(out@) =~= changes_spec(source@, wanted@));
        return out;
    }
    let mut out: Vec<String> = Vec::new();
    let mut k: usize = 0;
    while k < from.len()
        invariant
            k <= from@.len(),
            from@.len() == to@.len(),
            from@.len() == lines(a@).len(),
            to@.len() == lines(b@).len(),
            a@ == source@,
            b@ == wanted@,
            forall|j: int| 0 <= j < from@.len() ==> (#[trigger] from@[j])@ == lines(a@)[j],
            forall|j: int| 0 <= j < to@.len() ==> (#[trigger] to@[j])@ == lines(b@)[j],
            views(out@) == differences_upto(lines(a@), lines(b@), k as int),
        decreases from@.len() - k,
    {
        if !same(from[k].as_slice(), to[k].as_slice()) {
            let mut m = to_chars("line ");
            let n = decimal_of((k + 1) as u64);
            extend(&mut m, n.as_slice());
            extend_str(&mut m, ": ");
            let before = debug_of(from[k].as_slice());
            extend(&mut m, before.as_slice());
            extend_str(&mut m, " would be ");
            let after = debug_of(to[k].as_slice());
            extend(&mut m, after.as_slice());
            let ghost prev = out@;
            out.push(from_chars(m.as_slice()));
            proof {
                assert(views(out@) =~= views(prev).push(m@));
            }
        }
        k = k + 1;
    }
    out
}

/// Where the first blank line, `\n\n`, stands in a text.
pub open spec fn double_break(s: Seq<char>, from: int) -> Option<int>
    decreases s.len() - from,
{
    if from < 0 || from + 1 >= s.len() {
        None
    } else if s[from] == '\n' && s[from + 1] == '\n' {
        Some(from)
    } else {
        double_break(s, from + 1)
    }
}

/// A text split at every `\n\n`, as `str::split("\n\n")` yields the pieces.
pub open spec fn split_pars(s: Seq<char>) -> Seq<Seq<char>>
    decreases s.len(),
{
    match double_break(s, 0) {
        Some(i) => if 0 <= i && i + 2 <= s.len() {
            seq![s.take(i)] + split_pars(s.skip(i + 2))
        } else {
            seq![s]
        },
        None => seq![s],
    }
}

/// The non-empty trimmed pieces, in order.
pub open spec fn kept_pieces(pieces: Seq<Seq<char>>) -> Seq<Seq<char>>
    decreases pieces.len(),
{
    if pieces.len() == 0 {
        Seq::empty()
    } else {
        let rest = kept_pieces(pieces.drop_last());
        let t = trim(pieces.last());
        if t.len() == 0 {
            rest
        } else {
            rest.push(t)
        }
    }
}

/// A schema 3 note split into paragraphs at blank lines: each trimmed, none
/// empty.
pub open spec fn paragraphs_spec(notes: Seq<char>) -> Seq<Seq<char>> {
    kept_pieces(split_pars(notes))
}

proof fn lemma_double_break(s: Seq<char>, from: int)
    requires
        0 <= from,
    ensures
        match double_break(s, from) {
            Some(i) => from <= i && i + 1 < s.len() && s[i] == '\n' && s[i + 1] == '\n' && forall|j: int|
                from <= j < i ==> !(#[trigger] s[j] == '\n' && s[j + 1] == '\n'),
            None => forall|j: int| from <= j && j + 1 < s.len() ==> !(#[trigger] s[j] == '\n' && s[j + 1] == '\n'),
        },
    decreases s.len() - from,
{
    if from + 1 < s.len() && !(s[from] == '\n' && s[from + 1] == '\n') {
        lemma_double_break(s, from + 1);
    }
}

proof fn lemma_double_break_skip(s: Seq<char>, from: int, k: int)
    requires
        0 <= k <= from,
        k <= s.len(),
    ensures
        double_break(s.skip(k), from - k) == match double_break(s, from) {
            Some(i) => Some(i - k),
            None => None::<int>,
        },
    decreases s.len() - from,
{
    let t = s.skip(k);
    assert(t.len() == s.len() - k);
    if from + 1 < s.len() {
        assert(t[from - k] == s[from] && t[from - k + 1] == s[from + 1]);
        if !(s[from] == '\n' && s[from + 1] == '\n') {
            lemma_double_break_skip(s, from + 1, k);
        }
    }
}

/// A schema 3 note split into paragraphs at blank lines.
pub fn paragraphs(notes: &str) -> (out: Vec<String>)
    ensures
        views(out@) == paragraphs_spec(notes@),
{
    let s = to_chars(notes);
    let n = s.len();
    let mut pieces: Vec<Vec<char>> = Vec::new();
    let mut start: usize = 0;
    let mut i: usize = 0;
    assert(s@.skip(0) =~= s@);
    assert(texts(pieces@) =~= Seq::<Seq<char>>::empty());
    while n - i > 1
        invariant
            n == s@.len(),
            s@ == notes@,
            start <= i <= n,
            split_pars(s@) == texts(pieces@) + split_pars(s@.skip(start as int)),
            double_break(s@, start as int) == double_break(s@, i as int),
        decreases n - i,
    {
        proof {
            lemma_double_break(s@, i as int);
        }
        if s[i] == '\n' && s[i + 1] == '\n' {
            let piece = crate::chars::slice(s.as_slice(), start, i);
            let ghost before = pieces@;
            pieces.push(piece);
            proof {
                lemma_double_break_skip(s@, start as int, start as int);
                let rest = s@.skip(start as int);
                assert(double_break(rest, 0) == Some(i - start));
                assert(rest.take(i - start) =~= piece@);
                assert(rest.skip(i - start + 2) =~= s@.skip(i + 2));
                assert(texts(pieces@) =~= texts(before).push(piece@));
                assert(split_pars(rest) == seq![piece@] + split_pars(s@.skip(i + 2)));
                assert(texts(pieces@) + split_pars(s@.skip(i + 2)) =~= texts(before) + split_pars(rest));
            }
            start = i + 2;
            i = i + 2;
        } else {
            i = i + 1;
        }
    }
    proof {
        lemma_double_break(s@, i as int);
        lemma_double_break_skip(s@, start as int, start as int);
    }
    let last = crate::chars::slice(s.as_slice(), start, n);
    let ghost before = pieces@;
    pieces.push(last);
    proof {
        assert(double_break(s@.skip(start as int), 0) is None);
        assert(split_pars(s@.skip(start as int)) == seq![s@.skip(start as int)]);
        assert(last@ =~= s@.skip(start as int));
        assert(texts(pieces@) =~= texts(before) + seq![s@.skip(start as int)]);
    }
    let mut out: Vec<String> = Vec::new();
    let mut k: usize = 0;
    let ghost ps = texts(pieces@);
    assert(ps =~= split_pars(s@));
    assert(ps.take(0) =~= Seq::<Seq<char>>::empty());
    while k < pieces.len()
        invariant
            k <= pieces@.len(),
            ps == texts(pieces@),
            views(out@) == kept_pieces(ps.take(k as int)),
        decreases pieces@.len() - k,
    {
        proof {
            assert(ps.take(k + 1).drop_last() == ps.take(k as int));
            assert(ps.take(k + 1).last() == pieces@[k as int]@);
        }
        let t = trimmed(pieces[k].as_slice());
        if t.len() > 0 {
            let ghost before = out@;
            out.push(from_chars(t.as_slice()));
            proof {
                assert(views(out@) =~= views(before).push(t@));
            }
        }
        k = k + 1;
    }
    assert(ps.take(pieces@.len() as int) == ps);
    out
}


/// An archived row placed among rows already newest first, after every row
/// completed no earlier than it.
pub open spec fn insert_newest(sorted: Seq<(Seq<char>, Seq<char>)>, row: (Seq<char>, Seq<char>)) -> Seq<(Seq<char>, Seq<char>)>
    decreases sorted.len(),
{
    if sorted.len() == 0 || !lex_lt(sorted.last().0, row.0) {
        sorted.push(row)
    } else {
        insert_newest(sorted.drop_last(), row).push(sorted.last())
    }
}

/// Rows, as completion stamp and id, newest first; rows completed at the same
/// moment keep their order.
pub open spec fn by_newest(rows: Seq<(Seq<char>, Seq<char>)>) -> Seq<(Seq<char>, Seq<char>)>
    decreases rows.len(),
{
    if rows.len() == 0 {
        Seq::empty()
    } else {
        insert_newest(by_newest(rows.drop_last()), rows.last())
    }
}

/// The archive's ids, most recently completed first. Stamps share one zone
/// and one shape, so comparing their text compares their moments.
pub open spec fn newest_first_spec(l: Ledger) -> Seq<Seq<char>> {
    by_newest(l.archive@.map_values(|t: ArchivedTask| (t.completed@, t.id@))).map_values(
        |r: (Seq<char>, Seq<char>)| r.1,
    )
}

proof fn lemma_insert_newest(sorted: Seq<(Seq<char>, Seq<char>)>, row: (Seq<char>, Seq<char>), j: int)
    requires
        0 <= j <= sorted.len(),
        forall|k: int| j <= k < sorted.len() ==> lex_lt((#[trigger] sorted[k]).0, row.0),
        j == 0 || !lex_lt(sorted[j - 1].0, row.0),
    ensures
        insert_newest(sorted, row) == sorted.take(j).push(row) + sorted.skip(j),
    decreases sorted.len(),
{
    if sorted.len() == 0 {
        assert(sorted.take(j).push(row) + sorted.skip(j) =~= seq![row]);
    } else if j == sorted.len() {
        assert(sorted.take(j).push(row) + sorted.skip(j) =~= sorted.push(row));
    } else {
        lemma_insert_newest(sorted.drop_last(), row, j);
        assert(sorted.drop_last().take(j) =~= sorted.take(j));
        assert((sorted.take(j).push(row) + sorted.drop_last().skip(j)).push(sorted.last()) =~= sorted.take(j).push(row)
            + sorted.skip(j));
    }
}

/// The archive's ids, most recently completed first.
pub fn newest_first(l: &Ledger) -> (out: Vec<String>)
    ensures
        views(out@) == newest_first_spec(*l),
{
    let ghost rows = l.archive@.map_values(|t: ArchivedTask| (t.completed@, t.id@));
    let mut sorted: Vec<(Vec<char>, String)> = Vec::new();
    let mut i: usize = 0;
    assert(rows.take(0) =~= Seq::<(Seq<char>, Seq<char>)>::empty());
    assert(sorted@.map_values(|r: (Vec<char>, String)| (r.0@, r.1@)) =~= Seq::<(Seq<char>, Seq<char>)>::empty());
    while i < l.archive.len()
        invariant
            i <= l.archive@.len(),
            rows == l.archive@.map_values(|t: ArchivedTask| (t.completed@, t.id@)),
            sorted@.map_values(|r: (Vec<char>, String)| (r.0@, r.1@)) == by_newest(rows.take(i as int)),
        decreases l.archive@.len() - i,
    {
        let stamp = to_chars(l.archive[i].completed.as_str());
        let ghost row = (stamp@, l.archive@[i as int].id@);
        let mut j: usize = sorted.len();
        while j > 0 && less(sorted[j - 1].0.as_slice(), stamp.as_slice())
            invariant
                j <= sorted@.len(),
                forall|k: int| j <= k < sorted@.len() ==> lex_lt((#[trigger] sorted@[k]).0@, stamp@),
            decreases j,
        {
            j = j - 1;
        }
        let ghost before = sorted@.map_values(|r: (Vec<char>, String)| (r.0@, r.1@));
        proof {
            assert forall|k: int| j <= k < before.len() implies lex_lt((#[trigger] before[k]).0, row.0) by {
                assert(before[k].0 == sorted@[k].0@);
            }
            if j > 0 {
                assert(before[j - 1].0 == sorted@[j - 1].0@);
            }
            lemma_insert_newest(before, row, j as int);
            assert(rows.take(i + 1).drop_last() == rows.take(i as int));
            assert(rows.take(i + 1).last() == row);
        }
        let ghost raw = sorted@;
        sorted.insert(j, (stamp, l.archive[i].id.clone()));
        proof {
            assert(sorted@.map_values(|r: (Vec<char>, String)| (r.0@, r.1@)) =~= before.take(j as int).push(row)
                + before.skip(j as int));
        }
        i = i + 1;
    }
    assert(rows.take(l.archive@.len() as int) == rows);
    let ghost done = sorted@.map_values(|r: (Vec<char>, String)| (r.0@, r.1@));
    let mut out: Vec<String> = Vec::new();
    let mut k: usize = 0;
    while k < sorted.len()
        invariant
            k <= sorted@.len(),
            done == sorted@.map_values(|r: (Vec<char>, String)| (r.0@, r.1@)),
            views(out@) == done.map_values(|r: (Seq<char>, Seq<char>)| r.1).take(k as int),
        decreases sorted@.len() - k,
    {
        let ghost before = out@;
        out.push(sorted[k].1.clone());
        proof {
            assert(views(out@) =~= views(before).push(sorted@[k as int].1@));
            assert(done.map_values(|r: (Seq<char>, Seq<char>)| r.1).take(k + 1) =~= done.map_values(
                |r: (Seq<char>, Seq<char>)| r.1,
            ).take(k as int).push(done[k as int].1));
        }
        k = k + 1;
    }
    assert(done.map_values(|r: (Seq<char>, Seq<char>)| r.1).take(sorted@.len() as int) == done.map_values(
        |r: (Seq<char>, Seq<char>)| r.1,
    ));
    out
}

/// The keys of the lists, in the order the style names them.
pub open spec fn order_keys(order: Seq<Section>) -> Seq<Seq<char>> {
    order.map_values(|s: Section| section_key(s))
}

/// A ledger's text as its own style says it should be written: the archive
/// newest first when the style asks for it, every list's rows at the style's
/// indent, the lists in the style's order, and the whitespace nobody chose
/// removed; refused when the result would not read as YAML.
pub open spec fn normalized_spec(s: Seq<char>, l: Ledger) -> Result<Seq<char>, Seq<char>> {
    let style = l.style;
    let ordered = if style.archive_order == ArchiveOrder::NewestFirst {
        reordered_rows(s, "archive"@, newest_first_spec(l))
    } else {
        Ok(s)
    };
    let indent = style.indent as nat;
    match ordered {
        Err(e) => Err(e),
        Ok(a) => match with_indent(a, "queue"@, indent) {
            Err(e) => Err(e),
            Ok(b) => match with_indent(b, "archive"@, indent) {
                Err(e) => Err(e),
                Ok(c) => match with_indent(c, "horizon"@, indent) {
                    Err(e) => Err(e),
                    Ok(d) => match sections_reordered(d, order_keys(style.section_order@)) {
                        Err(e) => Err(e),
                        Ok(e) => {
                            let t = tidied_spec(e);
                            match still_parses(t) {
                                Err(m) => Err(m),
                                Ok(()) => Ok(t),
                            }
                        },
                    },
                },
            },
        },
    }
}

/// Every character of a line stands in the lines ended by line breaks.
proof fn lemma_terminated_holds(t: Seq<Seq<char>>, p: int, j: int)
    requires
        0 <= p < t.len(),
        0 <= j < t[p].len(),
    ensures
        terminated(t).contains(t[p][j]),
    decreases t.len(),
{
    let front = t.drop_last();
    if p == t.len() - 1 {
        let at = terminated(front).len() + j;
        assert(terminated(t)[at] == t[p][j]);
    } else {
        assert(front[p] == t[p]);
        lemma_terminated_holds(front, p, j);
        let k = choose|k: int| 0 <= k < terminated(front).len() && terminated(front)[k] == t[p][j];
        assert(terminated(t)[k] == terminated(front)[k]);
    }
}

/// A tidied text without carriage returns was read from lines whose block
/// scalars hold none at the end of a line either.
proof fn lemma_tidied_without_cr(e: Seq<char>)
    requires
        !tidied_spec(e).contains('\r'),
    ensures
        forall|k: int|
            0 <= k < lines(e).len() && in_block(lines(e), k) && (#[trigger] lines(e)[k]).len() > 0
                ==> lines(e)[k].last() != '\r',
{
    assert forall|k: int|
        0 <= k < lines(e).len() && in_block(lines(e), k) && (#[trigger] lines(e)[k]).len() > 0 implies lines(e)[k].last() != '\r' by {
        law_tidying_keeps_block_scalars(e, k);
        let m = tidy_state(lines(e).take(k + 1)).0.len() as int;
        let line = lines(e)[k];
        if line.last() == '\r' {
            lemma_terminated_holds(tidy_lines(e), m - 1, line.len() - 1);
        }
    }
}

/// What `fmt` wrote stays as it is under the steps that depend on how the
/// parser reads it, when each of them already holds.
proof fn lemma_normalizing_what_its_steps_keep(s: Seq<char>, l: Ledger, t: Seq<char>)
    requires
        normalized_spec(s, l) == Ok::<Seq<char>, Seq<char>>(t),
        !t.contains('\r'),
        l.style.archive_order == ArchiveOrder::NewestFirst ==> reordered_rows(t, "archive"@, newest_first_spec(l))
            == Ok::<Seq<char>, Seq<char>>(t),
        with_indent(t, "queue"@, l.style.indent as nat) == Ok::<Seq<char>, Seq<char>>(t),
        with_indent(t, "archive"@, l.style.indent as nat) == Ok::<Seq<char>, Seq<char>>(t),
        with_indent(t, "horizon"@, l.style.indent as nat) == Ok::<Seq<char>, Seq<char>>(t),
        sections_reordered(t, order_keys(l.style.section_order@)) == Ok::<Seq<char>, Seq<char>>(t),
    ensures
        normalized_spec(t, l) == Ok::<Seq<char>, Seq<char>>(t),
{
    let style = l.style;
    let indent = style.indent as nat;
    let ordered = if style.archive_order == ArchiveOrder::NewestFirst {
        reordered_rows(s, "archive"@, newest_first_spec(l))
    } else {
        Ok(s)
    };
    let a = ordered->Ok_0;
    let b = with_indent(a, "queue"@, indent)->Ok_0;
    let c = with_indent(b, "archive"@, indent)->Ok_0;
    let d = with_indent(c, "horizon"@, indent)->Ok_0;
    let e = sections_reordered(d, order_keys(style.section_order@))->Ok_0;
    assert(t == tidied_spec(e));
    lemma_tidied_without_cr(e);
    law_tidying_twice_changes_nothing(e);
    assert(tidied_spec(t) == t);
}

/// Formatting what `fmt` wrote changes nothing, once the parser reads it as
/// being in the style the ledger declares: the archive's ids newest first
/// when that is the order asked for, every row of every list at the
/// declared indent, and the lists in the declared order. The one text this
/// is not stated of holds a carriage return.
pub proof fn law_formatting_its_own_output_changes_nothing(s: Seq<char>, l: Ledger, t: Seq<char>)
    requires
        normalized_spec(s, l) == Ok::<Seq<char>, Seq<char>>(t),
        !t.contains('\r'),
        l.style.archive_order == ArchiveOrder::NewestFirst ==> section_ids(t, "archive"@) == Ok::<Seq<Seq<char>>, Seq<char>>(
            newest_first_spec(l),
        ),
        rows_at_indent(t, "queue"@, l.style.indent as nat),
        rows_at_indent(t, "archive"@, l.style.indent as nat),
        rows_at_indent(t, "horizon"@, l.style.indent as nat),
        lists_in_order(t, order_keys(l.style.section_order@)),
    ensures
        normalized_spec(t, l) == Ok::<Seq<char>, Seq<char>>(t),
{
    let indent = l.style.indent as nat;
    law_set_indent_at_the_indent_changes_nothing(t, "queue"@, indent);
    law_set_indent_at_the_indent_changes_nothing(t, "archive"@, indent);
    law_set_indent_at_the_indent_changes_nothing(t, "horizon"@, indent);
    lemma_normalizing_what_its_steps_keep(s, l, t);
}

/// The keys of the lists, in the order given.
fn section_keys(sections: &Vec<Section>) -> (order: Vec<String>)
    ensures
        views(order@) == order_keys(sections@),
{
    let mut order: Vec<String> = Vec::new();
    let mut k: usize = 0;
    while k < sections.len()
        invariant
            k <= sections@.len(),
            views(order@) == order_keys(sections@).take(k as int),
        decreases sections@.len() - k,
    {
        let ghost before = order@;
        order.push(String::from_str(sections[k].key()));
        proof {
            assert(views(order@) =~= views(before).push(section_key(sections@[k as int])));
            assert(order_keys(sections@).take(k + 1) =~= order_keys(sections@).take(k as int).push(
                section_key(sections@[k as int]),
            ));
        }
        k = k + 1;
    }
    assert(order_keys(sections@).take(sections@.len() as int) == order_keys(sections@));
    order
}

/// The ledger as its own style says it should be written.
#[verifier::rlimit(40)]
pub fn normalized(source: &str, l: &Ledger) -> (res: Result<String, String>)
    ensures
        match res {
            Ok(t) => normalized_spec(source@, *l) == Ok::<Seq<char>, Seq<char>>(t@),
            Err(m) => normalized_spec(source@, *l) == Err::<Seq<char>, Seq<char>>(m@),
        },
{
    let mut document = Document::new(String::from_str(source));
    if l.style.archive_order == ArchiveOrder::NewestFirst {
        let ids = newest_first(l);
        match document.reorder_rows("archive", &ids) {
            Ok(()) => {},
            Err(m) => {
                return Err(m);
            },
        }
    }
    let indent = l.style.indent as usize;
    match document.set_indent("queue", indent) {
        Ok(()) => {},
        Err(m) => {
            return Err(m);
        },
    }
    match document.set_indent("archive", indent) {
        Ok(()) => {},
        Err(m) => {
            return Err(m);
        },
    }
    match document.set_indent("horizon", indent) {
        Ok(()) => {},
        Err(m) => {
            return Err(m);
        },
    }
    let order = section_keys(&l.style.section_order);
    match document.reorder_sections(&order) {
        Ok(()) => {},
        Err(m) => {
            return Err(m);
        },
    }
    let text = tidied(document.text().as_slice());
    let out = from_chars(text.as_slice());
    match must_still_parse(out.as_str()) {
        Ok(()) => Ok(out),
        Err(m) => Err(m),
    }
}

/// What `fmt` reports, and whether it writes: nothing to do when the file is
/// already in its style; otherwise the lines that differ, written unless
/// `--check` was given.
pub fn formatted(path: &str, found: &str, wanted: &str, check: bool) -> (res: (Report, bool))
    ensures
        ({
            let (r, write) = res;
            &&& r is Formatted
            &&& r->Formatted_path@ == path@
            &&& r->Formatted_check == check
            &&& r->Formatted_changed == (found@ != wanted@)
            &&& views(r->Formatted_differences@) == (if found@ == wanted@ {
                Seq::empty()
            } else {
                changes_spec(found@, wanted@)
            })
            &&& write == (found@ != wanted@ && !check)
        }),
{
    if crate::chars::same_str(found, wanted) {
        let none: Vec<String> = Vec::new();
        assert(views(none@) =~= Seq::<Seq<char>>::empty());
        return (Report::Formatted { path: String::from_str(path), changed: false, check, differences: none }, false);
    }
    let differences = changes(found, wanted);
    (Report::Formatted { path: String::from_str(path), changed: true, check, differences }, !check)
}

/// Whether a ledger's `schema_version` lets `fmt` work on it: the current
/// version and a file without one are kept as they are, version 3 is
/// rewritten, and anything else is refused.
pub open spec fn upgrade_plan(version: Option<u64>) -> Result<bool, Seq<char>> {
    match version {
        None => Ok(false),
        Some(v) => if v == 4 {
            Ok(false)
        } else if v == 3 {
            Ok(true)
        } else {
            Err("schema_version "@ + decimal(v as nat) + " must be 4 (or 3, which fmt rewrites)"@)
        },
    }
}

/// The text with a schema 3 row's scalar `notes` rewritten as a list of its
/// paragraphs, or dropped when it has none; a row whose `notes` is not
/// written as a scalar is left alone.
pub open spec fn note_rewritten(s: Seq<char>, section: Seq<char>, index: nat, text: Seq<char>) -> Result<Seq<char>, Seq<char>> {
    match key_shape(s, section, index, "notes"@) {
        Err(e) => Err(e),
        Ok(shape) => if shape != Some(KeyShape::Scalar) {
            Ok(s)
        } else if paragraphs_spec(text).len() == 0 {
            patch_spec(s, field_route(section, index, "notes"@), EditView::Remove)
        } else {
            replaced(s, field_route(section, index, "notes"@), FieldView::List(paragraphs_spec(text)))
        },
    }
}

/// The text with every listed scalar note rewritten, in order.
pub open spec fn notes_rewritten(s: Seq<char>, notes: Seq<(Seq<char>, usize, Seq<char>)>) -> Result<Seq<char>, Seq<char>>
    decreases notes.len(),
{
    if notes.len() == 0 {
        Ok(s)
    } else {
        match notes_rewritten(s, notes.drop_last()) {
            Err(e) => Err(e),
            Ok(t) => note_rewritten(t, notes.last().0, notes.last().1 as nat, notes.last().2),
        }
    }
}

/// What `fmt` does to a ledger before anything else: a schema 3 file becomes
/// schema 4, each scalar `notes` a list of paragraphs and `schema_version` 4;
/// a current file is left as it is; other versions are refused. The caller
/// reads the version and the scalar notes, as section, row index and text,
/// from the file.
pub open spec fn upgraded(s: Seq<char>, version: Option<u64>, notes: Seq<(Seq<char>, usize, Seq<char>)>) -> Result<Seq<char>, Seq<char>> {
    match upgrade_plan(version) {
        Err(e) => Err(e),
        Ok(false) => Ok(s),
        Ok(true) => match notes_rewritten(s, notes) {
            Err(e) => Err(e),
            Ok(t) => patch_spec(t, key_route("schema_version"@), EditView::Replace(ScalarView::Number(4))),
        },
    }
}

/// Scalar notes as values.
pub open spec fn note_views(notes: Seq<(String, usize, String)>) -> Seq<(Seq<char>, usize, Seq<char>)> {
    notes.map_values(|n: (String, usize, String)| (n.0@, n.1, n.2@))
}

proof fn lemma_notes_rewritten_err(s: Seq<char>, notes: Seq<(Seq<char>, usize, Seq<char>)>, k: int)
    requires
        0 <= k <= notes.len(),
        notes_rewritten(s, notes.take(k)) is Err,
    ensures
        notes_rewritten(s, notes) == notes_rewritten(s, notes.take(k)),
    decreases notes.len() - k,
{
    if k < notes.len() {
        assert(notes.take(k + 1).drop_last() == notes.take(k));
        lemma_notes_rewritten_err(s, notes, k + 1);
    } else {
        assert(notes.take(k) == notes);
    }
}

/// A schema 3 ledger rewritten as schema 4, or left alone, or refused, given
/// the version it declares and its scalar notes.
pub fn upgrade_with(document: &mut Document, version: Option<u64>, notes: &Vec<(String, usize, String)>) -> (res: Result<(), String>)
    ensures
        match res {
            Ok(()) => upgraded(old(document)@, version, note_views(notes@)) == Ok::<Seq<char>, Seq<char>>(final(document)@),
            Err(m) => upgraded(old(document)@, version, note_views(notes@)) == Err::<Seq<char>, Seq<char>>(m@),
        },
{
    match version {
        None => {
            return Ok(());
        },
        Some(v) => {
            if v == 4 {
                return Ok(());
            }
            if v != 3 {
                let mut m = to_chars("schema_version ");
                let d = decimal_of(v);
                extend(&mut m, d.as_slice());
                extend_str(&mut m, " must be 4 (or 3, which fmt rewrites)");
                return Err(from_chars(m.as_slice()));
            }
        },
    }
    let ghost start = document@;
    let ghost nv = note_views(notes@);
    let mut i: usize = 0;
    assert(nv.take(0) =~= Seq::<(Seq<char>, usize, Seq<char>)>::empty());
    while i < notes.len()
        invariant
            i <= notes@.len(),
            start == old(document)@,
            version == Some(3u64),
            nv == note_views(notes@),
            notes_rewritten(start, nv.take(i as int)) == Ok::<Seq<char>, Seq<char>>(document@),
        decreases notes@.len() - i,
    {
        proof {
            assert(nv.take(i + 1).drop_last() == nv.take(i as int));
            assert(nv.take(i + 1).last() == nv[i as int]);
        }
        let (section, index, text) = (&notes[i].0, notes[i].1, &notes[i].2);
        let shape = match document.row_key_shape(section.as_str(), index, "notes") {
            Ok(s) => s,
            Err(m) => {
                proof {
                    lemma_notes_rewritten_err(start, nv, i as int + 1);
                }
                return Err(m);
            },
        };
        if shape == Some(KeyShape::Scalar) {
            let items = paragraphs(text.as_str());
            let outcome = if items.len() == 0 {
                document.remove_row_key(section.as_str(), index, "notes")
            } else {
                document.replace_row_value(section.as_str(), index, "notes", &FieldValue::List(items))
            };
            match outcome {
                Ok(()) => {},
                Err(m) => {
                    proof {
                        lemma_notes_rewritten_err(start, nv, i as int + 1);
                    }
                    return Err(m);
                },
            }
        }
        i = i + 1;
    }
    assert(nv.take(notes@.len() as int) == nv);
    document.set("schema_version", Scalar::Number(4))
}

/// The rows of one list that hold a string `notes`, as section, row index and
/// text, from the first `k` items.
pub open spec fn string_notes(section: Seq<char>, rows: Seq<Option<Option<Seq<char>>>>, k: int) -> Seq<(Seq<char>, usize, Seq<char>)>
    decreases k,
{
    if k <= 0 {
        Seq::empty()
    } else {
        let before = string_notes(section, rows, k - 1);
        match rows[k - 1] {
            Some(Some(t)) => before.push((section, (k - 1) as usize, t)),
            _ => before,
        }
    }
}

/// The string `notes` of one list of a ledger's text.
pub open spec fn list_notes(text: Seq<char>, section: Seq<char>) -> Seq<(Seq<char>, usize, Seq<char>)> {
    match rows_field(text, section, "notes"@) {
        None => Seq::empty(),
        Some(rows) => string_notes(section, rows, rows.len() as int),
    }
}

/// Every row's string `notes` in a ledger's text, queue then archive then
/// horizon, as section, row index and text.
pub open spec fn scalar_notes(text: Seq<char>) -> Seq<(Seq<char>, usize, Seq<char>)> {
    list_notes(text, "queue"@) + list_notes(text, "archive"@) + list_notes(text, "horizon"@)
}

/// The string `notes` of one list, appended to `out`.
fn push_list_notes(out: &mut Vec<(String, usize, String)>, text: &str, section: &str)
    ensures
        note_views(final(out)@) == note_views(old(out)@) + list_notes(text@, section@),
{
    let field = "notes";
    proof {
        reveal_strlit("notes");
    }
    match read_rows_field(text, section, field) {
        None => {
            assert(note_views(out@) =~= note_views(out@) + Seq::<(Seq<char>, usize, Seq<char>)>::empty());
        },
        Some(rows) => {
            let ghost start = note_views(out@);
            let ghost rv = field_views(rows@);
            let mut k: usize = 0;
            while k < rows.len()
                invariant
                    k <= rows@.len(),
                    rv == field_views(rows@),
                    note_views(out@) == start + string_notes(section@, rv, k as int),
                decreases rows@.len() - k,
            {
                match &rows[k] {
                    Some(Some(t)) => {
                        let ghost before = out@;
                        out.push((String::from_str(section), k, t.clone()));
                        proof {
                            assert(note_views(out@) =~= note_views(before).push((section@, k, t@)));
                        }
                    },
                    _ => {},
                }
                k = k + 1;
            }
            assert(string_notes(section@, rv, rows@.len() as int) == list_notes(text@, section@));
        },
    }
}

/// The string `notes` the rows of a ledger's text hold.
pub fn scalar_notes_of(text: &str) -> (out: Vec<(String, usize, String)>)
    ensures
        note_views(out@) == scalar_notes(text@),
{
    let mut out: Vec<(String, usize, String)> = Vec::new();
    assert(note_views(out@) =~= Seq::<(Seq<char>, usize, Seq<char>)>::empty());
    push_list_notes(&mut out, text, "queue");
    push_list_notes(&mut out, text, "archive");
    push_list_notes(&mut out, text, "horizon");
    proof {
        reveal_strlit("queue");
        reveal_strlit("archive");
        reveal_strlit("horizon");
        assert(Seq::<(Seq<char>, usize, Seq<char>)>::empty() + list_notes(text@, "queue"@) =~= list_notes(text@, "queue"@));
    }
    out
}

/// What `fmt` does first to a ledger's text: a schema 3 file becomes schema 4,
/// each string `notes` found in the text a list of its paragraphs; a current
/// file is left as it is; other versions are refused and the text is kept.
pub fn upgrade(document: &mut Document) -> (res: Result<(), String>)
    ensures
        match res {
            Ok(()) => upgraded(old(document)@, declared_version(old(document)@), scalar_notes(old(document)@))
                == Ok::<Seq<char>, Seq<char>>(final(document)@),
            Err(m) => upgraded(old(document)@, declared_version(old(document)@), scalar_notes(old(document)@))
                == Err::<Seq<char>, Seq<char>>(m@) && final(document)@ == old(document)@,
        },
{
    let text = from_chars(document.text().as_slice());
    let version = declared_version_of(text.as_str());
    let notes = scalar_notes_of(text.as_str());
    let mut work = document.duplicate();
    let res = upgrade_with(&mut work, version, &notes);
    if res.is_ok() {
        *document = work;
    }
    res
}

} // verus!
