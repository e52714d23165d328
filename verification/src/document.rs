//! A ledger as the text somebody wrote, edited where it must change and copied
//! everywhere else.
//!
//! The structure comes from a real YAML parser: `yamlpath` gives the span of
//! any row and `yamlpatch` performs the key-level edits, so nothing here
//! guesses at indentation or decides how to quote a value.
//!
//! Two things are ours, because the format leaves them open. A row moves by
//! character range, since no patch operation offers a move. And a comment
//! written directly above a row, with no blank line between, belongs to that
//! row: the parser hands a comment to the row above it, which would strand a
//! comment on one move and steal it on the next.

pub mod yaml;
pub mod text;
pub mod render;
pub mod notes;
pub mod value;


use crate::chars::{
    ends_with, extend, extend_str, from_chars, has_suffix, line_end, end_of_line, slice, starts_with, to_chars, trim_end, trim_start,
    trimmed_end, views,
};
use crate::document::text::{
    blank_run_start, dedent, dedent_text, depth, depth_of, holding_line, id_of, indent_by, indent_text, line_holding,
    remarks_end, row_id, start_of_blank_run, without_trailing_remarks, spaces,
};
use crate::document::yaml::{
    apply_patch, exact, exact_chars, key, key_chars, patched, reads, route_view, yaml_reads, Edit, EditView, Scalar,
    ScalarView, Step, StepView,
};
use crate::document::render::{entry_views, yaml_rendering, yaml_text, yml_valid, reads_as_yaml, FieldValue, FieldView, Yaml, YamlView};
use crate::document::value::{entry_text, list_text, mapping_entry, row_item, sequence_item, sequence_like};
use crate::edit::lists::first_index;
use vstd::prelude::*;

verus! {

/// How deep a section's rows sit when the file does not say: every ledger
/// this tool has written uses two spaces.
pub const DEFAULT_INDENT: usize = 2;

/// The complaint when the parser cannot follow the text.
pub open spec fn NOT_YAML() -> Seq<char> {
    "this ledger is not YAML the parser can follow"@
}

/// The complaint when the parser's rows do not follow one another.
pub open spec fn TANGLED() -> Seq<char> {
    "the rows of this list do not follow one another"@
}

/// A ledger's text, with the parser's view of it available on demand.
pub struct Document {
    source: Vec<char>,
}

impl View for Document {
    type V = Seq<char>;

    closed spec fn view(&self) -> Seq<char> {
        self.source@
    }
}

/// The route to a top-level key.
pub open spec fn key_route(key: Seq<char>) -> Seq<StepView> {
    seq![StepView::Key(key)]
}

/// The route to one row of a section.
pub open spec fn row_route(section: Seq<char>, i: nat) -> Seq<StepView> {
    seq![StepView::Key(section), StepView::Index(i)]
}

/// The route to one key of one row of a section.
pub open spec fn field_route(section: Seq<char>, i: nat, key: Seq<char>) -> Seq<StepView> {
    seq![StepView::Key(section), StepView::Index(i), StepView::Key(key)]
}

/// The route to one key of a row standing alone.
pub open spec fn own_route(key: Seq<char>) -> Seq<StepView> {
    seq![StepView::Index(0), StepView::Key(key)]
}

/// The route to a top-level key.
pub fn route_to_key(key: &str) -> (out: Vec<Step>)
    ensures
        route_view(out@) == key_route(key@),
{
    let out = vec![Step::Key(String::from_str(key))];
    assert(route_view(out@) =~= key_route(key@));
    out
}

/// The route to one row of a section.
pub fn route_to_row(section: &str, i: usize) -> (out: Vec<Step>)
    ensures
        route_view(out@) == row_route(section@, i as nat),
{
    let out = vec![Step::Key(String::from_str(section)), Step::Index(i)];
    assert(route_view(out@) =~= row_route(section@, i as nat));
    out
}

/// The route to one key of one row of a section.
pub fn route_to_field(section: &str, i: usize, key: &str) -> (out: Vec<Step>)
    ensures
        route_view(out@) == field_route(section@, i as nat, key@),
{
    let out = vec![Step::Key(String::from_str(section)), Step::Index(i), Step::Key(String::from_str(key))];
    assert(route_view(out@) =~= field_route(section@, i as nat, key@));
    out
}

/// The route to one key of a row standing alone.
pub fn route_to_own(key: &str) -> (out: Vec<Step>)
    ensures
        route_view(out@) == own_route(key@),
{
    let out = vec![Step::Index(0), Step::Key(String::from_str(key))];
    assert(route_view(out@) =~= own_route(key@));
    out
}

/// How many rows the parser finds in a section from row `i` on, stopping at
/// the first index it finds nothing at. A list cannot hold more rows than
/// its text has characters, so the count stops there too.
pub open spec fn count_from(s: Seq<char>, section: Seq<char>, i: nat) -> nat
    decreases s.len() - i,
{
    if i >= s.len() {
        i
    } else {
        match exact_chars(s, row_route(section, i)) {
            Ok(Some(_)) => count_from(s, section, i + 1),
            _ => i,
        }
    }
}

/// How many rows the parser finds in a section.
pub open spec fn row_count(s: Seq<char>, section: Seq<char>) -> nat {
    count_from(s, section, 0)
}

/// The parser's exact span of row `i`.
pub open spec fn span_of(s: Seq<char>, section: Seq<char>, i: int) -> (int, int) {
    match exact_chars(s, row_route(section, i as nat)) {
        Ok(Some(p)) => p,
        _ => (0, 0),
    }
}

/// Where row `i` starts: the line holding its text, with the comments above
/// it that it owns.
pub open spec fn row_start(s: Seq<char>, section: Seq<char>, i: int) -> int {
    line_holding(s, span_of(s, section, i).0)
}

/// Where row `i` ends: where the next row starts, or, for the last row, the
/// end of its text without the blank and comment lines that trail it.
pub open spec fn row_end(s: Seq<char>, section: Seq<char>, i: int) -> int {
    if i + 1 < row_count(s, section) {
        row_start(s, section, i + 1)
    } else {
        remarks_end(s, span_of(s, section, i).1)
    }
}

/// Whether every row's range runs forward.
pub open spec fn rows_follow(s: Seq<char>, section: Seq<char>) -> bool {
    forall|i: int| 0 <= i < row_count(s, section) ==> row_start(s, section, i) <= #[trigger] row_end(s, section, i)
}

/// The character ranges a section's rows occupy, in file order.
pub open spec fn row_ranges(s: Seq<char>, section: Seq<char>) -> Seq<(int, int)> {
    Seq::new(row_count(s, section), |i: int| (row_start(s, section, i), row_end(s, section, i)))
}

/// The ids the rows of a section carry, from row `i` on, skipping a row
/// that carries none.
pub open spec fn ids_from(s: Seq<char>, section: Seq<char>, i: nat) -> Seq<Seq<char>>
    decreases row_count(s, section) - i,
{
    if i >= row_count(s, section) {
        Seq::empty()
    } else {
        let span = span_of(s, section, i as int);
        match id_of(s.subrange(span.0, span.1)) {
            Some(id) => seq![id] + ids_from(s, section, i + 1),
            None => ids_from(s, section, i + 1),
        }
    }
}

/// The ids a section's rows carry, in file order, or why they cannot be read.
pub open spec fn section_ids(s: Seq<char>, section: Seq<char>) -> Result<Seq<Seq<char>>, Seq<char>> {
    if !yaml_reads(s) {
        Err(NOT_YAML())
    } else {
        Ok(ids_from(s, section, 0))
    }
}

/// The ranges a section's rows occupy, or why they cannot be read.
pub open spec fn section_rows(s: Seq<char>, section: Seq<char>) -> Result<Seq<(int, int)>, Seq<char>> {
    if !yaml_reads(s) {
        Err(NOT_YAML())
    } else if !rows_follow(s, section) {
        Err(TANGLED())
    } else {
        Ok(row_ranges(s, section))
    }
}

proof fn lemma_count_from(s: Seq<char>, section: Seq<char>, i: nat)
    requires
        i <= s.len(),
    ensures
        i <= count_from(s, section, i) <= s.len(),
        forall|k: int| i <= k < count_from(s, section, i) ==> #[trigger] exact_chars(s, row_route(section, k as nat)) is Ok
            && exact_chars(s, row_route(section, k as nat))->Ok_0 is Some,
    decreases s.len() - i,
{
    if i < s.len() {
        if let Ok(Some(_)) = exact_chars(s, row_route(section, i)) {
            lemma_count_from(s, section, i + 1);
        }
    }
}

/// The parser's spans of a section's rows, and how many there are.
fn spans(s: &Vec<char>, section: &str) -> (out: Vec<(usize, usize)>)
    ensures
        out@.len() == row_count(s@, section@),
        forall|i: int| 0 <= i < out@.len() ==> (#[trigger] out@[i]).0 == span_of(s@, section@, i).0
            && out@[i].1 == span_of(s@, section@, i).1 && out@[i].0 <= out@[i].1 <= s@.len(),
{
    let mut out: Vec<(usize, usize)> = Vec::new();
    let mut index: usize = 0;
    let n = s.len();
    proof {
        lemma_count_from(s@, section@, 0);
    }
    loop
        invariant
            n == s@.len(),
            index == out@.len(),
            index <= n,
            count_from(s@, section@, 0) == count_from(s@, section@, index as nat),
            forall|i: int| 0 <= i < out@.len() ==> (#[trigger] out@[i]).0 == span_of(s@, section@, i).0
                && out@[i].1 == span_of(s@, section@, i).1 && out@[i].0 <= out@[i].1 <= s@.len(),
        decreases n - index,
    {
        if index >= n {
            return out;
        }
        let route = route_to_row(section, index);
        match exact(s, &route) {
            Ok(Some(span)) => {
                out.push(span);
                index = index + 1;
            },
            _ => {
                return out;
            },
        }
    }
}

impl Document {
    /// A document holding this text.
    pub fn new(source: String) -> (d: Document)
        ensures
            d@ == source@,
    {
        Document { source: to_chars(source.as_str()) }
    }

    /// A second document holding the same text.
    pub fn duplicate(&self) -> (d: Document)
        ensures
            d@ == self@,
    {
        let source = crate::chars::slice(self.source.as_slice(), 0, self.source.len());
        assert(self.source@.subrange(0, self.source@.len() as int) =~= self.source@);
        Document { source }
    }

    /// The text, edits and all.
    pub fn into_source(self) -> (out: String)
        ensures
            out@ == self@,
    {
        from_chars(self.source.as_slice())
    }

    /// The text, edits and all.
    pub fn text(&self) -> (out: &Vec<char>)
        ensures
            out@ == self@,
    {
        &self.source
    }

    /// Whether the parser can follow the text.
    pub fn readable(&self) -> (res: bool)
        ensures
            res == yaml_reads(self@),
    {
        let text = from_chars(self.source.as_slice());
        reads(text.as_str())
    }

    /// The character ranges of a section's rows, in file order. A row runs
    /// from its first owned comment to where the next row starts; the last
    /// row stops at the end of its text, leaving trailing blank and comment
    /// lines outside.
    #[verifier::rlimit(60)]
    pub fn rows(&self, section: &str) -> (res: Result<Vec<(usize, usize)>, String>)
        ensures
            match res {
                Ok(r) => section_rows(self@, section@) == Ok::<Seq<(int, int)>, Seq<char>>(
                    r@.map_values(|p: (usize, usize)| (p.0 as int, p.1 as int)),
                ),
                Err(m) => section_rows(self@, section@) == Err::<Seq<(int, int)>, Seq<char>>(m@),
            },
            match res {
                Ok(r) => forall|i: int| 0 <= i < r@.len() ==> (#[trigger] r@[i]).0 <= r@[i].1 <= self@.len(),
                Err(_) => true,
            },
    {
        if !self.readable() {
            return Err(String::from_str("this ledger is not YAML the parser can follow"));
        }
        let s = &self.source;
        let spans = spans(s, section);
        let n = spans.len();
        let mut starts: Vec<usize> = Vec::new();
        let mut i: usize = 0;
        while i < n
            invariant
                n == spans@.len(),
                i <= n,
                starts@.len() == i,
                forall|k: int| 0 <= k < i ==> #[trigger] starts@[k] == row_start(s@, section@, k),
                forall|k: int| 0 <= k < i ==> starts@[k] <= spans@[k].0,
                forall|i: int| 0 <= i < spans@.len() ==> (#[trigger] spans@[i]).0 == span_of(s@, section@, i).0
                    && spans@[i].1 == span_of(s@, section@, i).1 && spans@[i].0 <= spans@[i].1 <= s@.len(),
            decreases n - i,
        {
            starts.push(holding_line(s.as_slice(), spans[i].0));
            i = i + 1;
        }
        let mut out: Vec<(usize, usize)> = Vec::new();
        let mut i: usize = 0;
        while i < n
            invariant
                n == spans@.len(),
                n == row_count(s@, section@),
                yaml_reads(s@),
                self@ == s@,
                starts@.len() == n,
                i <= n,
                out@.len() == i,
                forall|k: int| 0 <= k < n ==> #[trigger] starts@[k] == row_start(s@, section@, k),
                forall|k: int| 0 <= k < n ==> #[trigger] starts@[k] <= s@.len(),
                forall|i: int| 0 <= i < spans@.len() ==> (#[trigger] spans@[i]).1 == span_of(s@, section@, i).1
                    && spans@[i].1 <= s@.len(),
                forall|k: int| 0 <= k < i ==> (#[trigger] out@[k]).0 == row_start(s@, section@, k)
                    && out@[k].1 == row_end(s@, section@, k) && out@[k].0 <= out@[k].1 <= s@.len(),
            decreases n - i,
        {
            let end = if i + 1 < n {
                assert(starts@[i + 1] == row_start(s@, section@, i + 1));
                starts[i + 1]
            } else {
                without_trailing_remarks(s.as_slice(), spans[i].1)
            };
            assert(end == row_end(s@, section@, i as int));
            if i + 1 < n {
                assert(starts@[i + 1] <= s@.len());
            }
            if starts[i] > end {
                proof {
                    assert(starts@[i as int] == row_start(s@, section@, i as int));
                    assert(!rows_follow(s@, section@));
                }
                return Err(String::from_str("the rows of this list do not follow one another"));
            }
            out.push((starts[i], end));
            i = i + 1;
        }
        proof {
            assert forall|k: int| 0 <= k < row_count(s@, section@) implies row_start(s@, section@, k) <= #[trigger] row_end(s@, section@, k) by {
                assert(out@[k].0 <= out@[k].1);
            }
            assert(out@.map_values(|p: (usize, usize)| (p.0 as int, p.1 as int)) =~= row_ranges(s@, section@));
        }
        Ok(out)
    }

    /// Every id a section's rows carry, in file order.
    pub fn ids(&self, section: &str) -> (res: Result<Vec<String>, String>)
        ensures
            match res {
                Ok(ids) => section_ids(self@, section@) == Ok::<Seq<Seq<char>>, Seq<char>>(crate::chars::views(ids@)),
                Err(m) => section_ids(self@, section@) == Err::<Seq<Seq<char>>, Seq<char>>(m@),
            },
    {
        if !self.readable() {
            return Err(String::from_str("this ledger is not YAML the parser can follow"));
        }
        let s = &self.source;
        let spans = spans(s, section);
        let n = spans.len();
        let mut ids: Vec<String> = Vec::new();
        let mut i: usize = n;
        let ghost total = row_count(s@, section@);
        while i > 0
            invariant
                n == spans@.len(),
                n == total,
                total == row_count(s@, section@),
                i <= n,
                crate::chars::views(ids@) == ids_from(s@, section@, i as nat),
                forall|i: int| 0 <= i < spans@.len() ==> (#[trigger] spans@[i]).0 == span_of(s@, section@, i).0
                    && spans@[i].1 == span_of(s@, section@, i).1 && spans@[i].0 <= spans@[i].1 <= s@.len(),
            decreases i,
        {
            i = i - 1;
            let text = crate::chars::slice(s.as_slice(), spans[i].0, spans[i].1);
            match row_id(text.as_slice()) {
                Some(id) => {
                    let ghost before = ids@;
                    ids.insert(0, from_chars(id.as_slice()));
                    proof {
                        assert(crate::chars::views(ids@) =~= seq![id@] + crate::chars::views(before));
                    }
                },
                None => {},
            }
        }
        Ok(ids)
    }

    /// Where a row sits among the ids its section carries.
    pub fn position_of(&self, section: &str, id: &str) -> (res: Result<usize, String>)
        ensures
            match res {
                Ok(i) => section_ids(self@, section@) matches Ok(ids) && crate::edit::lists::first_index(ids, id@)
                    == Some(i as int),
                Err(m) => match section_ids(self@, section@) {
                    Ok(ids) => crate::edit::lists::first_index(ids, id@) is None && m@ == id@ + " is not in "@
                        + section@,
                    Err(e) => m@ == e,
                },
            },
    {
        let ids = match self.ids(section) {
            Ok(ids) => ids,
            Err(m) => {
                return Err(m);
            },
        };
        match crate::mutate::position(&ids, id) {
            Some(i) => Ok(i),
            None => {
                let mut m = to_chars(id);
                crate::chars::extend_str(&mut m, " is not in ");
                crate::chars::extend_str(&mut m, section);
                Err(from_chars(m.as_slice()))
            },
        }
    }
}


/// The text with `s[from..to]` replaced by `t`.
pub open spec fn splice(s: Seq<char>, from: int, to: int, t: Seq<char>) -> Seq<char> {
    s.take(from) + t + s.skip(to)
}

/// A section's key and the end of the line it stands on, or why it cannot be
/// found.
pub open spec fn key_line(s: Seq<char>, section: Seq<char>) -> Result<(int, int), Seq<char>> {
    if !yaml_reads(s) {
        Err(NOT_YAML())
    } else {
        match key_chars(s, key_route(section)) {
            Ok((from, to)) => Ok((from, line_end(s, to))),
            Err(()) => Err(section + ": is missing"@),
        }
    }
}

/// Just past the line a section's key stands on: where its first row goes.
pub open spec fn front_of(s: Seq<char>, section: Seq<char>) -> Result<int, Seq<char>> {
    if !yaml_reads(s) {
        Err(NOT_YAML())
    } else {
        match key_chars(s, key_route(section)) {
            Ok((_, after)) => Ok(
                if line_end(s, after) < s.len() {
                    line_end(s, after) + 1
                } else {
                    s.len() as int
                },
            ),
            Err(()) => Err(section + ": is missing"@),
        }
    }
}

/// How deep a section's rows sit: as deep as its first row, or two spaces
/// when it has none.
pub open spec fn indent_of(s: Seq<char>, section: Seq<char>) -> Result<nat, Seq<char>> {
    match section_rows(s, section) {
        Err(e) => Err(e),
        Ok(rows) => Ok(
            if rows.len() == 0 {
                DEFAULT_INDENT as nat
            } else {
                depth(s, rows[0].0)
            },
        ),
    }
}

/// The text with a section's key added as an empty list when it has none.
pub open spec fn ensured(s: Seq<char>, section: Seq<char>) -> Result<Seq<char>, Seq<char>> {
    if !yaml_reads(s) {
        Err(NOT_YAML())
    } else if key_chars(s, key_route(section)) is Ok {
        Ok(s)
    } else {
        let t = if ends_with(s, seq!['\n']) {
            s
        } else {
            s.push('\n')
        };
        Ok(t + section + ": []\n"@)
    }
}

/// The text with a section written `key: []` opened to take rows.
pub open spec fn opened(s: Seq<char>, section: Seq<char>) -> Result<Seq<char>, Seq<char>> {
    match key_line(s, section) {
        Err(e) => Err(e),
        Ok((from, end)) => if ends_with(trim_end(s.subrange(from, end)), "[]"@) {
            Ok(splice(s, from, end, section + ":"@))
        } else {
            Ok(s)
        },
    }
}

/// The text with a section that has no rows left written `key: []`.
pub open spec fn closed_if_empty(s: Seq<char>, section: Seq<char>) -> Result<Seq<char>, Seq<char>> {
    match section_ids(s, section) {
        Err(e) => Err(e),
        Ok(ids) => if ids.len() > 0 {
            Ok(s)
        } else {
            match key_line(s, section) {
                Err(e) => Err(e),
                Ok((from, end)) => Ok(splice(s, from, end, section + ": []"@)),
            }
        },
    }
}

/// What cutting a row out of a section leaves, and the row itself, moved
/// left to column zero. The last row takes the blank lines above it and the
/// line break after it; any other row carries the blank lines below it.
#[verifier::opaque]
pub open spec fn cut_spec(s: Seq<char>, section: Seq<char>, id: Seq<char>) -> Result<(Seq<char>, Seq<char>), Seq<char>> {
    match section_ids(s, section) {
        Err(e) => Err(e),
        Ok(ids) => match first_index(ids, id) {
            None => Err(id + " is not in "@ + section),
            Some(index) => match section_rows(s, section) {
                Err(e) => Err(e),
                Ok(rows) => if index >= rows.len() {
                    Err(TANGLED())
                } else {
                    let span = rows[index];
                    let indent = if rows.len() == 0 {
                        DEFAULT_INDENT as nat
                    } else {
                        depth(s, rows[0].0)
                    };
                    let row = dedent(trim_end(s.subrange(span.0, span.1)), indent);
                    let last = index + 1 == rows.len();
                    let from = if last {
                        blank_run_start(s, span.0)
                    } else {
                        span.0
                    };
                    let to = if last && starts_with(s.skip(span.1), seq!['\n']) {
                        span.1 + 1
                    } else {
                        span.1
                    };
                    Ok((splice(s, from, to, Seq::empty()), row))
                },
            },
        },
    }
}

/// The text with a row pasted as a section's first row.
#[verifier::opaque]
pub open spec fn pasted_front(s: Seq<char>, section: Seq<char>, row: Seq<char>) -> Result<Seq<char>, Seq<char>> {
    match ensured(s, section) {
        Err(e) => Err(e),
        Ok(s1) => match opened(s1, section) {
            Err(e) => Err(e),
            Ok(s2) => match section_ids(s2, section) {
                Err(e) => Err(e),
                Ok(ids) => match indent_of(s2, section) {
                    Err(e) => Err(e),
                    Ok(indent) => match front_of(s2, section) {
                        Err(e) => Err(e),
                        Ok(at) => {
                            let block = if ids.len() > 0 {
                                indent_by(row, indent) + "\n\n"@
                            } else {
                                indent_by(row, indent) + "\n"@
                            };
                            Ok(splice(s2, at, at, block))
                        },
                    },
                },
            },
        },
    }
}

/// The text with a row pasted as a section's last row.
#[verifier::opaque]
pub open spec fn pasted_back(s: Seq<char>, section: Seq<char>, row: Seq<char>) -> Result<Seq<char>, Seq<char>> {
    match ensured(s, section) {
        Err(e) => Err(e),
        Ok(s1) => match opened(s1, section) {
            Err(e) => Err(e),
            Ok(s2) => match indent_of(s2, section) {
                Err(e) => Err(e),
                Ok(indent) => match section_rows(s2, section) {
                    Err(e) => Err(e),
                    Ok(rows) => if rows.len() == 0 {
                        match front_of(s2, section) {
                            Err(e) => Err(e),
                            Ok(at) => Ok(splice(s2, at, at, indent_by(row, indent) + "\n"@)),
                        }
                    } else {
                        let end = rows.last().1;
                        let at = if line_end(s2, end) < s2.len() {
                            line_end(s2, end) + 1
                        } else {
                            s2.len() as int
                        };
                        Ok(splice(s2, at, at, "\n"@ + indent_by(row, indent) + "\n"@))
                    },
                },
            },
        },
    }
}

/// The text with a row pasted so that it becomes row `index` of a section.
#[verifier::opaque]
pub open spec fn pasted_at(s: Seq<char>, section: Seq<char>, index: int, row: Seq<char>) -> Result<Seq<char>, Seq<char>> {
    match section_ids(s, section) {
        Err(e) => Err(e),
        Ok(ids) => if index == 0 {
            pasted_front(s, section, row)
        } else if index >= ids.len() {
            pasted_back(s, section, row)
        } else {
            match ensured(s, section) {
                Err(e) => Err(e),
                Ok(s1) => match opened(s1, section) {
                    Err(e) => Err(e),
                    Ok(s2) => match indent_of(s2, section) {
                        Err(e) => Err(e),
                        Ok(indent) => match section_rows(s2, section) {
                            Err(e) => Err(e),
                            Ok(rows) => if index >= rows.len() {
                                Err(TANGLED())
                            } else {
                                let at = rows[index].0;
                                Ok(splice(s2, at, at, indent_by(row, indent) + "\n\n"@))
                            },
                        },
                    },
                },
            }
        },
    }
}

/// The text with a row moved to the front of its section.
pub open spec fn moved_to_front(s: Seq<char>, section: Seq<char>, id: Seq<char>) -> Result<Seq<char>, Seq<char>> {
    match section_ids(s, section) {
        Err(e) => Err(e),
        Ok(ids) => if ids.len() > 0 && ids[0] == id {
            Ok(s)
        } else {
            match cut_spec(s, section, id) {
                Err(e) => Err(e),
                Ok((t, row)) => pasted_front(t, section, row),
            }
        },
    }
}

/// The text with the rows cut one by one, in order, and the rows cut.
pub open spec fn cut_all(s: Seq<char>, section: Seq<char>, ids: Seq<Seq<char>>) -> Result<(Seq<char>, Seq<Seq<char>>), Seq<char>>
    decreases ids.len(),
{
    if ids.len() == 0 {
        Ok((s, Seq::empty()))
    } else {
        match cut_all(s, section, ids.drop_last()) {
            Err(e) => Err(e),
            Ok((t, rows)) => match cut_spec(t, section, ids.last()) {
                Err(e) => Err(e),
                Ok((u, row)) => Ok((u, rows.push(row))),
            },
        }
    }
}

/// The text with the rows pasted at the back one by one, in order.
pub open spec fn paste_all(s: Seq<char>, section: Seq<char>, rows: Seq<Seq<char>>) -> Result<Seq<char>, Seq<char>>
    decreases rows.len(),
{
    if rows.len() == 0 {
        Ok(s)
    } else {
        match paste_all(s, section, rows.drop_last()) {
            Err(e) => Err(e),
            Ok(t) => pasted_back(t, section, rows.last()),
        }
    }
}

/// The text with a section's rows in the order `ids` gives: each cut out,
/// then all pasted back in that order. A section already in that order is
/// left as it is.
pub open spec fn reordered_rows(s: Seq<char>, section: Seq<char>, ids: Seq<Seq<char>>) -> Result<Seq<char>, Seq<char>> {
    match section_ids(s, section) {
        Err(e) => Err(e),
        Ok(current) => if current == ids {
            Ok(s)
        } else {
            match cut_all(s, section, ids) {
                Err(e) => Err(e),
                Ok((t, rows)) => paste_all(t, section, rows),
            }
        },
    }
}

proof fn lemma_ids_from_len(s: Seq<char>, section: Seq<char>, i: nat)
    ensures
        ids_from(s, section, i).len() <= if i <= row_count(s, section) { row_count(s, section) - i } else { 0 },
    decreases row_count(s, section) - i,
{
    if i < row_count(s, section) {
        lemma_ids_from_len(s, section, i + 1);
    }
}

impl Document {
    /// Replace `self[from..to]` with `t`.
    fn splice(&mut self, from: usize, to: usize, t: &[char])
        requires
            from <= to <= old(self)@.len(),
        ensures
            final(self)@ == splice(old(self)@, from as int, to as int, t@),
    {
        let mut out = slice(self.source.as_slice(), 0, from);
        extend(&mut out, t);
        let n = self.source.len();
        let rest = slice(self.source.as_slice(), to, n);
        extend(&mut out, rest.as_slice());
        proof {
            assert(self.source@.subrange(0, from as int) == self.source@.take(from as int));
            assert(self.source@.subrange(to as int, n as int) == self.source@.skip(to as int));
        }
        self.source = out;
    }

    /// A section's key and the end of the line it stands on.
    fn key_line(&self, section: &str) -> (res: Result<(usize, usize), String>)
        ensures
            match res {
                Ok((a, b)) => key_line(self@, section@) == Ok::<(int, int), Seq<char>>((a as int, b as int))
                    && a <= b <= self@.len(),
                Err(m) => key_line(self@, section@) == Err::<(int, int), Seq<char>>(m@),
            },
    {
        if !self.readable() {
            return Err(String::from_str("this ledger is not YAML the parser can follow"));
        }
        let route = route_to_key(section);
        match key(&self.source, &route) {
            Ok((from, to)) => {
                let end = end_of_line(self.source.as_slice(), to);
                Ok((from, end))
            },
            Err(()) => {
                let mut m = to_chars(section);
                extend_str(&mut m, ": is missing");
                Err(from_chars(m.as_slice()))
            },
        }
    }

    /// Just past the line a section's key stands on.
    fn front_of(&self, section: &str) -> (res: Result<usize, String>)
        ensures
            match res {
                Ok(at) => front_of(self@, section@) == Ok::<int, Seq<char>>(at as int) && at <= self@.len(),
                Err(m) => front_of(self@, section@) == Err::<int, Seq<char>>(m@),
            },
    {
        if !self.readable() {
            return Err(String::from_str("this ledger is not YAML the parser can follow"));
        }
        let route = route_to_key(section);
        match key(&self.source, &route) {
            Ok((_, after)) => {
                let end = end_of_line(self.source.as_slice(), after);
                if end < self.source.len() {
                    Ok(end + 1)
                } else {
                    Ok(self.source.len())
                }
            },
            Err(()) => {
                let mut m = to_chars(section);
                extend_str(&mut m, ": is missing");
                Err(from_chars(m.as_slice()))
            },
        }
    }

    /// How deep a section's rows sit.
    fn indent_of(&self, section: &str) -> (res: Result<usize, String>)
        ensures
            match res {
                Ok(n) => indent_of(self@, section@) == Ok::<nat, Seq<char>>(n as nat),
                Err(m) => indent_of(self@, section@) == Err::<nat, Seq<char>>(m@),
            },
    {
        let rows = match self.rows(section) {
            Ok(r) => r,
            Err(m) => {
                return Err(m);
            },
        };
        if rows.len() == 0 {
            Ok(DEFAULT_INDENT)
        } else {
            proof {
                assert(rows@.map_values(|p: (usize, usize)| (p.0 as int, p.1 as int))[0].0 == rows@[0].0);
            }
            Ok(depth_of(self.source.as_slice(), rows[0].0))
        }
    }

    /// Add a section's key as an empty list when the file has none.
    fn ensure_section(&mut self, section: &str) -> (res: Result<(), String>)
        ensures
            match res {
                Ok(()) => ensured(old(self)@, section@) == Ok::<Seq<char>, Seq<char>>(final(self)@),
                Err(m) => ensured(old(self)@, section@) == Err::<Seq<char>, Seq<char>>(m@),
            },
    {
        if !self.readable() {
            return Err(String::from_str("this ledger is not YAML the parser can follow"));
        }
        let route = route_to_key(section);
        if key(&self.source, &route).is_ok() {
            return Ok(());
        }
        let nl = ['\n'];
        assert(nl@ == seq!['\n']);
        if !has_suffix(self.source.as_slice(), nl.as_slice()) {
            self.source.push('\n');
        }
        extend_str(&mut self.source, section);
        extend_str(&mut self.source, ": []\n");
        Ok(())
    }

    /// Open a section written `key: []` to take rows.
    fn open(&mut self, section: &str) -> (res: Result<(), String>)
        ensures
            match res {
                Ok(()) => opened(old(self)@, section@) == Ok::<Seq<char>, Seq<char>>(final(self)@),
                Err(m) => opened(old(self)@, section@) == Err::<Seq<char>, Seq<char>>(m@),
            },
    {
        let (from, end) = match self.key_line(section) {
            Ok(p) => p,
            Err(m) => {
                return Err(m);
            },
        };
        let line = slice(self.source.as_slice(), from, end);
        let t = trimmed_end(line.as_slice());
        let brackets = ['[', ']'];
        assert(brackets@ == "[]"@) by {
            reveal_strlit("[]");
        }
        if !has_suffix(t.as_slice(), brackets.as_slice()) {
            return Ok(());
        }
        let mut key_text = to_chars(section);
        extend_str(&mut key_text, ":");
        self.splice(from, end, key_text.as_slice());
        Ok(())
    }

    /// Write a section with no rows left as `key: []`.
    fn close_if_empty(&mut self, section: &str) -> (res: Result<(), String>)
        ensures
            match res {
                Ok(()) => closed_if_empty(old(self)@, section@) == Ok::<Seq<char>, Seq<char>>(final(self)@),
                Err(m) => closed_if_empty(old(self)@, section@) == Err::<Seq<char>, Seq<char>>(m@),
            },
    {
        let ids = match self.ids(section) {
            Ok(ids) => ids,
            Err(m) => {
                return Err(m);
            },
        };
        if ids.len() > 0 {
            return Ok(());
        }
        let (from, end) = match self.key_line(section) {
            Ok(p) => p,
            Err(m) => {
                return Err(m);
            },
        };
        let mut key_text = to_chars(section);
        extend_str(&mut key_text, ": []");
        self.splice(from, end, key_text.as_slice());
        Ok(())
    }

    /// Remove a row and return it moved to column zero, without disturbing
    /// the rows around it.
    #[verifier::rlimit(80)]
    pub fn cut(&mut self, section: &str, id: &str) -> (res: Result<String, String>)
        ensures
            match res {
                Ok(row) => cut_spec(old(self)@, section@, id@) == Ok::<(Seq<char>, Seq<char>), Seq<char>>(
                    (final(self)@, row@),
                ),
                Err(m) => cut_spec(old(self)@, section@, id@) == Err::<(Seq<char>, Seq<char>), Seq<char>>(m@)
                    && final(self)@ == old(self)@,
            },
    {
        reveal(cut_spec);
        let ids = match self.ids(section) {
            Ok(ids) => ids,
            Err(m) => {
                return Err(m);
            },
        };
        let index = match crate::mutate::position(&ids, id) {
            Some(i) => i,
            None => {
                let mut m = to_chars(id);
                extend_str(&mut m, " is not in ");
                extend_str(&mut m, section);
                return Err(from_chars(m.as_slice()));
            },
        };
        let rows = match self.rows(section) {
            Ok(r) => r,
            Err(m) => {
                return Err(m);
            },
        };
        let ghost ranges = rows@.map_values(|p: (usize, usize)| (p.0 as int, p.1 as int));
        if index >= rows.len() {
            return Err(String::from_str("the rows of this list do not follow one another"));
        }
        let (start, end) = rows[index];
        let indent = if rows.len() == 0 {
            DEFAULT_INDENT
        } else {
            depth_of(self.source.as_slice(), rows[0].0)
        };
        proof {
            assert(ranges[index as int] == (start as int, end as int));
            assert(ranges[0].0 == rows@[0].0);
        }
        let text = slice(self.source.as_slice(), start, end);
        let trimmed = trimmed_end(text.as_slice());
        let row = dedent_text(trimmed.as_slice(), indent);
        let last = index + 1 == rows.len();
        let from = if last {
            start_of_blank_run(self.source.as_slice(), start)
        } else {
            start
        };
        let n = self.source.len();
        let to = if last && end < n && self.source[end] == '\n' {
            end + 1
        } else {
            end
        };
        proof {
            lemma_starts_with_newline(self.source@, end as int);
        }
        let empty: [char; 0] = [];
        assert(empty@ =~= Seq::<char>::empty());
        self.splice(from, to, empty.as_slice());
        Ok(from_chars(row.as_slice()))
    }

    /// Paste a row as a section's first row.
    fn paste_front(&mut self, section: &str, row: &[char]) -> (res: Result<(), String>)
        ensures
            match res {
                Ok(()) => pasted_front(old(self)@, section@, row@) == Ok::<Seq<char>, Seq<char>>(final(self)@),
                Err(m) => pasted_front(old(self)@, section@, row@) == Err::<Seq<char>, Seq<char>>(m@),
            },
    {
        reveal(pasted_front);
        match self.ensure_section(section) {
            Ok(()) => {},
            Err(m) => {
                return Err(m);
            },
        }
        match self.open(section) {
            Ok(()) => {},
            Err(m) => {
                return Err(m);
            },
        }
        let crowded = match self.ids(section) {
            Ok(ids) => ids.len() > 0,
            Err(m) => {
                return Err(m);
            },
        };
        let indent = match self.indent_of(section) {
            Ok(n) => n,
            Err(m) => {
                return Err(m);
            },
        };
        let at = match self.front_of(section) {
            Ok(at) => at,
            Err(m) => {
                return Err(m);
            },
        };
        let mut block = indent_text(row, indent);
        if crowded {
            extend_str(&mut block, "\n\n");
        } else {
            extend_str(&mut block, "\n");
        }
        self.splice(at, at, block.as_slice());
        Ok(())
    }

    /// Paste a row as a section's last row.
    fn paste_back(&mut self, section: &str, row: &[char]) -> (res: Result<(), String>)
        ensures
            match res {
                Ok(()) => pasted_back(old(self)@, section@, row@) == Ok::<Seq<char>, Seq<char>>(final(self)@),
                Err(m) => pasted_back(old(self)@, section@, row@) == Err::<Seq<char>, Seq<char>>(m@),
            },
    {
        reveal(pasted_back);
        match self.ensure_section(section) {
            Ok(()) => {},
            Err(m) => {
                return Err(m);
            },
        }
        match self.open(section) {
            Ok(()) => {},
            Err(m) => {
                return Err(m);
            },
        }
        let indent = match self.indent_of(section) {
            Ok(n) => n,
            Err(m) => {
                return Err(m);
            },
        };
        let rows = match self.rows(section) {
            Ok(r) => r,
            Err(m) => {
                return Err(m);
            },
        };
        let ghost ranges = rows@.map_values(|p: (usize, usize)| (p.0 as int, p.1 as int));
        if rows.len() == 0 {
            let at = match self.front_of(section) {
                Ok(at) => at,
                Err(m) => {
                    return Err(m);
                },
            };
            let mut block = indent_text(row, indent);
            extend_str(&mut block, "\n");
            self.splice(at, at, block.as_slice());
            return Ok(());
        }
        let last = rows[rows.len() - 1].1;
        proof {
            assert(ranges.last().1 == last);
        }
        let e = end_of_line(self.source.as_slice(), last);
        let at = if e < self.source.len() {
            e + 1
        } else {
            self.source.len()
        };
        let mut block = to_chars("\n");
        let moved = indent_text(row, indent);
        extend(&mut block, moved.as_slice());
        extend_str(&mut block, "\n");
        self.splice(at, at, block.as_slice());
        Ok(())
    }

    /// Paste a row so that it becomes row `index` of a section.
    pub fn paste_at(&mut self, section: &str, index: usize, row: &str) -> (res: Result<(), String>)
        ensures
            match res {
                Ok(()) => pasted_at(old(self)@, section@, index as int, row@) == Ok::<Seq<char>, Seq<char>>(
                    final(self)@,
                ),
                Err(m) => pasted_at(old(self)@, section@, index as int, row@) == Err::<Seq<char>, Seq<char>>(m@),
            },
            res is Err ==> final(self)@ == old(self)@,
    {
        let mut work = self.duplicate();
        let res = work.paste_at_in_place(section, index, row);
        if res.is_ok() {
            self.source = work.source;
        }
        res
    }

    /// The same edit, made on this text directly.
    fn paste_at_in_place(&mut self, section: &str, index: usize, row: &str) -> (res: Result<(), String>)
        ensures
            match res {
                Ok(()) => pasted_at(old(self)@, section@, index as int, row@) == Ok::<Seq<char>, Seq<char>>(
                    final(self)@,
                ),
                Err(m) => pasted_at(old(self)@, section@, index as int, row@) == Err::<Seq<char>, Seq<char>>(m@),
            },
    {
        reveal(pasted_at);
        let row = to_chars(row);
        let count = match self.ids(section) {
            Ok(ids) => ids.len(),
            Err(m) => {
                return Err(m);
            },
        };
        if index == 0 {
            return self.paste_front(section, row.as_slice());
        }
        if index >= count {
            return self.paste_back(section, row.as_slice());
        }
        match self.ensure_section(section) {
            Ok(()) => {},
            Err(m) => {
                return Err(m);
            },
        }
        match self.open(section) {
            Ok(()) => {},
            Err(m) => {
                return Err(m);
            },
        }
        let indent = match self.indent_of(section) {
            Ok(n) => n,
            Err(m) => {
                return Err(m);
            },
        };
        let rows = match self.rows(section) {
            Ok(r) => r,
            Err(m) => {
                return Err(m);
            },
        };
        let ghost ranges = rows@.map_values(|p: (usize, usize)| (p.0 as int, p.1 as int));
        if index >= rows.len() {
            return Err(String::from_str("the rows of this list do not follow one another"));
        }
        let at = rows[index].0;
        proof {
            assert(ranges[index as int].0 == at);
        }
        let mut block = indent_text(row.as_slice(), indent);
        extend_str(&mut block, "\n\n");
        self.splice(at, at, block.as_slice());
        Ok(())
    }

    /// Move a row to the front of its section.
    pub fn move_to_front(&mut self, section: &str, id: &str) -> (res: Result<(), String>)
        ensures
            match res {
                Ok(()) => moved_to_front(old(self)@, section@, id@) == Ok::<Seq<char>, Seq<char>>(final(self)@),
                Err(m) => moved_to_front(old(self)@, section@, id@) == Err::<Seq<char>, Seq<char>>(m@),
            },
            res is Err ==> final(self)@ == old(self)@,
    {
        let mut work = self.duplicate();
        let res = work.move_to_front_in_place(section, id);
        if res.is_ok() {
            self.source = work.source;
        }
        res
    }

    /// The same edit, made on this text directly.
    fn move_to_front_in_place(&mut self, section: &str, id: &str) -> (res: Result<(), String>)
        ensures
            match res {
                Ok(()) => moved_to_front(old(self)@, section@, id@) == Ok::<Seq<char>, Seq<char>>(final(self)@),
                Err(m) => moved_to_front(old(self)@, section@, id@) == Err::<Seq<char>, Seq<char>>(m@),
            },
    {
        let ids = match self.ids(section) {
            Ok(ids) => ids,
            Err(m) => {
                return Err(m);
            },
        };
        if ids.len() > 0 && crate::chars::same_str(ids[0].as_str(), id) {
            return Ok(());
        }
        let row = match self.cut(section, id) {
            Ok(r) => r,
            Err(m) => {
                return Err(m);
            },
        };
        let row = to_chars(row.as_str());
        self.paste_front(section, row.as_slice())
    }

    /// Put a section's rows in the order `ids` gives, each moved whole.
    pub fn reorder_rows(&mut self, section: &str, ids: &Vec<String>) -> (res: Result<(), String>)
        ensures
            match res {
                Ok(()) => reordered_rows(old(self)@, section@, views(ids@)) == Ok::<Seq<char>, Seq<char>>(
                    final(self)@,
                ),
                Err(m) => reordered_rows(old(self)@, section@, views(ids@)) == Err::<Seq<char>, Seq<char>>(m@),
            },
            res is Err ==> final(self)@ == old(self)@,
    {
        let mut work = self.duplicate();
        let res = work.reorder_rows_in_place(section, ids);
        if res.is_ok() {
            self.source = work.source;
        }
        res
    }

    /// The same edit, made on this text directly.
    fn reorder_rows_in_place(&mut self, section: &str, ids: &Vec<String>) -> (res: Result<(), String>)
        ensures
            match res {
                Ok(()) => reordered_rows(old(self)@, section@, views(ids@)) == Ok::<Seq<char>, Seq<char>>(
                    final(self)@,
                ),
                Err(m) => reordered_rows(old(self)@, section@, views(ids@)) == Err::<Seq<char>, Seq<char>>(m@),
            },
    {
        let current = match self.ids(section) {
            Ok(c) => c,
            Err(m) => {
                return Err(m);
            },
        };
        if same_list(&current, ids) {
            return Ok(());
        }
        let rows = match self.cut_each(section, ids) {
            Ok(rows) => rows,
            Err(m) => {
                return Err(m);
            },
        };
        self.paste_each(section, &rows)
    }

    /// Cut the rows `ids` names, one by one.
    fn cut_each(&mut self, section: &str, ids: &Vec<String>) -> (res: Result<Vec<Vec<char>>, String>)
        ensures
            match res {
                Ok(rows) => cut_all(old(self)@, section@, views(ids@)) == Ok::<(Seq<char>, Seq<Seq<char>>), Seq<char>>(
                    (final(self)@, crate::chars::texts(rows@)),
                ),
                Err(m) => cut_all(old(self)@, section@, views(ids@)) == Err::<(Seq<char>, Seq<Seq<char>>), Seq<char>>(m@),
            },
    {
        let ghost start = self@;
        let mut rows: Vec<Vec<char>> = Vec::new();
        let mut i: usize = 0;
        assert(views(ids@).take(0) =~= Seq::<Seq<char>>::empty());
        assert(crate::chars::texts(rows@) =~= Seq::<Seq<char>>::empty());
        while i < ids.len()
            invariant
                i <= ids@.len(),
                start == old(self)@,
                cut_all(start, section@, views(ids@).take(i as int)) == Ok::<(Seq<char>, Seq<Seq<char>>), Seq<char>>(
                    (self@, crate::chars::texts(rows@)),
                ),
            decreases ids@.len() - i,
        {
            proof {
                assert(views(ids@).take(i + 1).drop_last() == views(ids@).take(i as int));
                assert(views(ids@).take(i + 1).last() == ids@[i as int]@);
            }
            let ghost before = rows@;
            match self.cut(section, ids[i].as_str()) {
                Ok(r) => {
                    rows.push(to_chars(r.as_str()));
                    proof {
                        assert(crate::chars::texts(rows@) =~= crate::chars::texts(before).push(r@));
                    }
                },
                Err(m) => {
                    proof {
                        lemma_cut_all_err(start, section@, views(ids@), i as int + 1);
                    }
                    return Err(m);
                },
            }
            i = i + 1;
        }
        assert(views(ids@).take(ids@.len() as int) == views(ids@));
        Ok(rows)
    }

    /// Paste the rows at the back of a section, one by one.
    fn paste_each(&mut self, section: &str, rows: &Vec<Vec<char>>) -> (res: Result<(), String>)
        ensures
            match res {
                Ok(()) => paste_all(old(self)@, section@, crate::chars::texts(rows@)) == Ok::<Seq<char>, Seq<char>>(
                    final(self)@,
                ),
                Err(m) => paste_all(old(self)@, section@, crate::chars::texts(rows@)) == Err::<Seq<char>, Seq<char>>(m@),
            },
    {
        let ghost cut = self@;
        let mut k: usize = 0;
        assert(crate::chars::texts(rows@).take(0) =~= Seq::<Seq<char>>::empty());
        while k < rows.len()
            invariant
                k <= rows@.len(),
                cut == old(self)@,
                paste_all(cut, section@, crate::chars::texts(rows@).take(k as int)) == Ok::<Seq<char>, Seq<char>>(self@),
            decreases rows@.len() - k,
        {
            proof {
                assert(crate::chars::texts(rows@).take(k + 1).drop_last() == crate::chars::texts(rows@).take(k as int));
                assert(crate::chars::texts(rows@).take(k + 1).last() == rows@[k as int]@);
            }
            match self.paste_back(section, rows[k].as_slice()) {
                Ok(()) => {},
                Err(m) => {
                    proof {
                        lemma_paste_all_err(cut, section@, crate::chars::texts(rows@), k as int + 1);
                    }
                    return Err(m);
                },
            }
            k = k + 1;
        }
        assert(crate::chars::texts(rows@).take(rows@.len() as int) == crate::chars::texts(rows@));
        Ok(())
    }
}

/// Whether the text from `end` on begins with a line break.
proof fn lemma_starts_with_newline(s: Seq<char>, end: int)
    requires
        0 <= end <= s.len(),
    ensures
        starts_with(s.skip(end), seq!['\n']) == (end < s.len() && s[end] == '\n'),
{
    let x = s.skip(end);
    if end < s.len() {
        if s[end] == '\n' {
            assert(x.take(1) =~= seq!['\n']);
        } else {
            assert(x.take(1)[0] != seq!['\n'][0]);
        }
    }
}

/// Once cutting a prefix of the ids fails, cutting them all fails the same way.
proof fn lemma_cut_all_err(s: Seq<char>, section: Seq<char>, ids: Seq<Seq<char>>, k: int)
    requires
        0 <= k <= ids.len(),
        cut_all(s, section, ids.take(k)) is Err,
    ensures
        cut_all(s, section, ids) == cut_all(s, section, ids.take(k)),
    decreases ids.len() - k,
{
    if k < ids.len() {
        assert(ids.take(k + 1).drop_last() == ids.take(k));
        lemma_cut_all_err(s, section, ids, k + 1);
    } else {
        assert(ids.take(k) == ids);
    }
}

/// Once pasting a prefix of the rows fails, pasting them all fails the same way.
proof fn lemma_paste_all_err(s: Seq<char>, section: Seq<char>, rows: Seq<Seq<char>>, k: int)
    requires
        0 <= k <= rows.len(),
        paste_all(s, section, rows.take(k)) is Err,
    ensures
        paste_all(s, section, rows) == paste_all(s, section, rows.take(k)),
    decreases rows.len() - k,
{
    if k < rows.len() {
        assert(rows.take(k + 1).drop_last() == rows.take(k));
        lemma_paste_all_err(s, section, rows, k + 1);
    } else {
        assert(rows.take(k) == rows);
    }
}

/// Whether two lists hold the same strings in the same order.
pub fn same_list(a: &Vec<String>, b: &Vec<String>) -> (res: bool)
    ensures
        res == (views(a@) == views(b@)),
{
    if a.len() != b.len() {
        proof {
            assert(views(a@).len() != views(b@).len());
        }
        return false;
    }
    let mut i: usize = 0;
    while i < a.len()
        invariant
            i <= a@.len(),
            a@.len() == b@.len(),
            forall|k: int| 0 <= k < i ==> views(a@)[k] == views(b@)[k],
        decreases a@.len() - i,
    {
        if !crate::chars::same_str(a[i].as_str(), b[i].as_str()) {
            proof {
                assert(views(a@)[i as int] != views(b@)[i as int]);
            }
            return false;
        }
        i = i + 1;
    }
    assert(views(a@) =~= views(b@));
    true
}


/// A section's whole block: from the comments above its key through its last
/// row, without the blank or comment lines that follow. `None` when the file
/// has no such list, which `horizon` is allowed to be.
pub open spec fn block_of(s: Seq<char>, section: Seq<char>) -> Result<Option<(int, int)>, Seq<char>> {
    if !yaml_reads(s) {
        Err(NOT_YAML())
    } else if key_chars(s, key_route(section)) is Err {
        Ok(None)
    } else {
        match key_line(s, section) {
            Err(e) => Err(e),
            Ok((key_start, key_end)) => match section_rows(s, section) {
                Err(e) => Err(e),
                Ok(rows) => {
                    let end = if rows.len() > 0 {
                        rows.last().1
                    } else {
                        key_end
                    };
                    Ok(Some((line_holding(s, key_start), if end >= key_end { end } else { key_end })))
                },
            },
        }
    }
}

/// The blocks of the named sections the file has, in the order named.
pub open spec fn blocks_in(s: Seq<char>, order: Seq<Seq<char>>) -> Result<Seq<(Seq<char>, (int, int))>, Seq<char>>
    decreases order.len(),
{
    if order.len() == 0 {
        Ok(Seq::empty())
    } else {
        match blocks_in(s, order.drop_last()) {
            Err(e) => Err(e),
            Ok(found) => match block_of(s, order.last()) {
                Err(e) => Err(e),
                Ok(None) => Ok(found),
                Ok(Some(span)) => Ok(found.push((order.last(), span))),
            },
        }
    }
}

/// A block placed among blocks already in file order, after every one that
/// starts no later than it does.
pub open spec fn insert_by_start(sorted: Seq<(Seq<char>, (int, int))>, b: (Seq<char>, (int, int))) -> Seq<(Seq<char>, (int, int))>
    decreases sorted.len(),
{
    if sorted.len() == 0 || sorted.last().1.0 <= b.1.0 {
        sorted.push(b)
    } else {
        insert_by_start(sorted.drop_last(), b).push(sorted.last())
    }
}

/// Blocks in file order; blocks that start together keep their order.
pub open spec fn by_start(blocks: Seq<(Seq<char>, (int, int))>) -> Seq<(Seq<char>, (int, int))>
    decreases blocks.len(),
{
    if blocks.len() == 0 {
        Seq::empty()
    } else {
        insert_by_start(by_start(blocks.drop_last()), blocks.last())
    }
}

/// The first reason the blocks, in file order from `k` on, cannot be moved:
/// two overlap, or something that is not blank stands between two.
pub open spec fn layout_problem(s: Seq<char>, found: Seq<(Seq<char>, (int, int))>, k: int) -> Option<Seq<char>>
    decreases found.len() - k,
{
    if k < 0 || k + 1 >= found.len() {
        None
    } else if found[k].1.1 > found[k + 1].1.0 {
        Some("these lists overlap, which is not a file this can reorder"@)
    } else if !crate::chars::is_blank(s.subrange(found[k].1.1, found[k + 1].1.0)) {
        Some("something between these lists belongs to neither; move it above a key or out of the way"@)
    } else {
        layout_problem(s, found, k + 1)
    }
}

/// The blocks' text in the wanted order, each without trailing whitespace and
/// followed by the file's own gap at that place, from block `k` on.
pub open spec fn rebuilt(s: Seq<char>, blocks: Seq<(Seq<char>, (int, int))>, found: Seq<(Seq<char>, (int, int))>, k: int) -> Seq<char>
    decreases blocks.len() - k,
{
    if k < 0 || k >= blocks.len() {
        Seq::empty()
    } else {
        let span = blocks[k].1;
        let gap = if k + 1 < found.len() {
            s.subrange(found[k].1.1, found[k + 1].1.0)
        } else {
            Seq::empty()
        };
        trim_end(s.subrange(span.0, span.1)) + gap + rebuilt(s, blocks, found, k + 1)
    }
}

/// The text with its lists in the order the names give, each moved whole:
/// its key line, its rows, and the comments and blank lines between them.
/// Everything above the first list and below the last stays where it is,
/// and so do the blank lines between lists. A file already in that order is
/// left alone.
pub open spec fn sections_reordered(s: Seq<char>, order: Seq<Seq<char>>) -> Result<Seq<char>, Seq<char>> {
    match blocks_in(s, order) {
        Err(e) => Err(e),
        Ok(blocks) => if blocks.len() < 2 {
            Ok(s)
        } else {
            let found = by_start(blocks);
            if found.map_values(|b: (Seq<char>, (int, int))| b.0) == blocks.map_values(|b: (Seq<char>, (int, int))| b.0) {
                Ok(s)
            } else {
                match layout_problem(s, found, 0) {
                    Some(m) => Err(m),
                    None => Ok(splice(s, found[0].1.0, found.last().1.1, rebuilt(s, blocks, found, 0))),
                }
            }
        },
    }
}


/// Named blocks as values.
pub open spec fn block_views(v: Seq<(String, (usize, usize))>) -> Seq<(Seq<char>, (int, int))> {
    v.map_values(|b: (String, (usize, usize))| (b.0@, (b.1.0 as int, b.1.1 as int)))
}

/// Placing a block after the blocks that start no later than it does, in
/// terms of where it lands.
proof fn lemma_insert_by_start(sorted: Seq<(Seq<char>, (int, int))>, b: (Seq<char>, (int, int)), j: int)
    requires
        0 <= j <= sorted.len(),
        forall|k: int| j <= k < sorted.len() ==> (#[trigger] sorted[k]).1.0 > b.1.0,
        j == 0 || sorted[j - 1].1.0 <= b.1.0,
    ensures
        insert_by_start(sorted, b) == sorted.take(j).push(b) + sorted.skip(j),
    decreases sorted.len(),
{
    if sorted.len() == 0 {
        assert(sorted.take(j).push(b) + sorted.skip(j) =~= seq![b]);
    } else if j == sorted.len() {
        assert(sorted.take(j) =~= sorted);
        assert(sorted.skip(j) =~= Seq::<(Seq<char>, (int, int))>::empty());
        assert(sorted.take(j).push(b) + sorted.skip(j) =~= sorted.push(b));
    } else {
        lemma_insert_by_start(sorted.drop_last(), b, j);
        assert(sorted.drop_last().take(j) =~= sorted.take(j));
        assert((sorted.take(j).push(b) + sorted.drop_last().skip(j)).push(sorted.last()) =~= sorted.take(j).push(b)
            + sorted.skip(j));
    }
}

impl Document {
    /// A section's whole block, or `None` when the file has no such list.
    fn block_of(&self, section: &str) -> (res: Result<Option<(usize, usize)>, String>)
        ensures
            match res {
                Ok(Some((a, b))) => block_of(self@, section@) == Ok::<Option<(int, int)>, Seq<char>>(
                    Some((a as int, b as int)),
                ) && a <= b <= self@.len(),
                Ok(None) => block_of(self@, section@) == Ok::<Option<(int, int)>, Seq<char>>(None),
                Err(m) => block_of(self@, section@) == Err::<Option<(int, int)>, Seq<char>>(m@),
            },
    {
        if !self.readable() {
            return Err(String::from_str("this ledger is not YAML the parser can follow"));
        }
        let route = route_to_key(section);
        if key(&self.source, &route).is_err() {
            return Ok(None);
        }
        let (key_start, key_end) = match self.key_line(section) {
            Ok(p) => p,
            Err(m) => {
                return Err(m);
            },
        };
        let rows = match self.rows(section) {
            Ok(r) => r,
            Err(m) => {
                return Err(m);
            },
        };
        let ghost ranges = rows@.map_values(|p: (usize, usize)| (p.0 as int, p.1 as int));
        let end = if rows.len() > 0 {
            proof {
                assert(ranges.last().1 == rows@[rows@.len() - 1].1);
            }
            rows[rows.len() - 1].1
        } else {
            key_end
        };
        let from = holding_line(self.source.as_slice(), key_start);
        Ok(Some((from, if end >= key_end { end } else { key_end })))
    }

    /// The blocks of the named sections the file has, in the order named.
    fn blocks(&self, order: &Vec<String>) -> (res: Result<Vec<(String, (usize, usize))>, String>)
        ensures
            match res {
                Ok(b) => blocks_in(self@, views(order@)) == Ok::<Seq<(Seq<char>, (int, int))>, Seq<char>>(
                    block_views(b@),
                ) && forall|k: int| 0 <= k < b@.len() ==> (#[trigger] b@[k]).1.0 <= b@[k].1.1 <= self@.len(),
                Err(m) => blocks_in(self@, views(order@)) == Err::<Seq<(Seq<char>, (int, int))>, Seq<char>>(m@),
            },
    {
        let mut out: Vec<(String, (usize, usize))> = Vec::new();
        let mut i: usize = 0;
        assert(views(order@).take(0) =~= Seq::<Seq<char>>::empty());
        assert(block_views(out@) =~= Seq::<(Seq<char>, (int, int))>::empty());
        while i < order.len()
            invariant
                i <= order@.len(),
                blocks_in(self@, views(order@).take(i as int)) == Ok::<Seq<(Seq<char>, (int, int))>, Seq<char>>(
                    block_views(out@),
                ),
                forall|k: int| 0 <= k < out@.len() ==> (#[trigger] out@[k]).1.0 <= out@[k].1.1 <= self@.len(),
            decreases order@.len() - i,
        {
            proof {
                assert(views(order@).take(i + 1).drop_last() == views(order@).take(i as int));
                assert(views(order@).take(i + 1).last() == order@[i as int]@);
            }
            match self.block_of(order[i].as_str()) {
                Err(m) => {
                    proof {
                        lemma_blocks_in_err(self@, views(order@), i as int + 1);
                    }
                    return Err(m);
                },
                Ok(None) => {},
                Ok(Some(span)) => {
                    let ghost before = out@;
                    out.push((order[i].clone(), span));
                    proof {
                        assert(block_views(out@) =~= block_views(before).push((order@[i as int]@, (span.0 as int, span.1 as int))));
                    }
                },
            }
            i = i + 1;
        }
        assert(views(order@).take(order@.len() as int) == views(order@));
        Ok(out)
    }

    /// Put the lists in the order these names give, moving each one whole.
    pub fn reorder_sections(&mut self, order: &Vec<String>) -> (res: Result<(), String>)
        ensures
            match res {
                Ok(()) => sections_reordered(old(self)@, views(order@)) == Ok::<Seq<char>, Seq<char>>(final(self)@),
                Err(m) => sections_reordered(old(self)@, views(order@)) == Err::<Seq<char>, Seq<char>>(m@),
            },
            res is Err ==> final(self)@ == old(self)@,
    {
        let mut work = self.duplicate();
        let res = work.reorder_sections_in_place(order);
        if res.is_ok() {
            self.source = work.source;
        }
        res
    }

    /// The same edit, made on this text directly.
    fn reorder_sections_in_place(&mut self, order: &Vec<String>) -> (res: Result<(), String>)
        ensures
            match res {
                Ok(()) => sections_reordered(old(self)@, views(order@)) == Ok::<Seq<char>, Seq<char>>(final(self)@),
                Err(m) => sections_reordered(old(self)@, views(order@)) == Err::<Seq<char>, Seq<char>>(m@),
            },
    {
        let blocks = match self.blocks(order) {
            Ok(b) => b,
            Err(m) => {
                return Err(m);
            },
        };
        if blocks.len() < 2 {
            return Ok(());
        }
        let found = sort_by_start(&blocks, self.source.len());
        let ghost bv = block_views(blocks@);
        let ghost fv = block_views(found@);
        if same_names(&found, &blocks) {
            return Ok(());
        }
        let n = found.len();
        let mut k: usize = 0;
        while k + 1 < n
            invariant
                n == found@.len(),
                n >= 2,
                k + 1 <= n,
                self@ == old(self)@,
                bv == block_views(blocks@),
                fv == block_views(found@),
                fv == by_start(bv),
                bv.len() >= 2,
                blocks_in(self@, views(order@)) == Ok::<Seq<(Seq<char>, (int, int))>, Seq<char>>(bv),
                fv.map_values(|b: (Seq<char>, (int, int))| b.0) != bv.map_values(|b: (Seq<char>, (int, int))| b.0),
                forall|j: int| 0 <= j < n ==> (#[trigger] found@[j]).1.0 <= found@[j].1.1 <= self@.len(),
                forall|j: int| 0 <= j < k ==> (#[trigger] found@[j]).1.1 <= found@[j + 1].1.0,
                found@[0].1.0 <= found@[k as int].1.1,
                layout_problem(self@, fv, 0) == layout_problem(self@, fv, k as int),
            decreases n - k,
        {
            let (_, (_, end)) = found[k];
            let (_, (next, _)) = found[k + 1];
            if end > next {
                return Err(String::from_str("these lists overlap, which is not a file this can reorder"));
            }
            let between = slice(self.source.as_slice(), end, next);
            if !crate::chars::blank(between.as_slice()) {
                return Err(String::from_str(
                    "something between these lists belongs to neither; move it above a key or out of the way",
                ));
            }
            k = k + 1;
        }
        assert(layout_problem(self@, fv, k as int) is None);
        let mut text: Vec<char> = Vec::new();
        let mut at: usize = blocks.len();
        let ghost total = blocks@.len();
        while at > 0
            invariant
                at <= blocks@.len(),
                total == blocks@.len(),
                n == found@.len(),
                total == n,
                bv == block_views(blocks@),
                fv == block_views(found@),
                forall|j: int| 0 <= j < n ==> (#[trigger] found@[j]).1.0 <= found@[j].1.1 <= self@.len(),
                forall|j: int| 0 <= j < total ==> (#[trigger] blocks@[j]).1.0 <= blocks@[j].1.1 <= self@.len(),
                forall|j: int| 0 <= j && j + 1 < n ==> (#[trigger] found@[j]).1.1 <= found@[j + 1].1.0,
                found@[0].1.0 <= found@[n - 1].1.1,
                text@ == rebuilt(self@, bv, fv, at as int),
                self@ == old(self)@,
                fv == by_start(bv),
                bv.len() >= 2,
                blocks_in(self@, views(order@)) == Ok::<Seq<(Seq<char>, (int, int))>, Seq<char>>(bv),
                fv.map_values(|b: (Seq<char>, (int, int))| b.0) != bv.map_values(|b: (Seq<char>, (int, int))| b.0),
                layout_problem(self@, fv, 0) is None,
            decreases at,
        {
            at = at - 1;
            let (_, (from, to)) = blocks[at];
            let piece = slice(self.source.as_slice(), from, to);
            let mut part = trimmed_end(piece.as_slice());
            if at + 1 < n {
                let gap = slice(self.source.as_slice(), found[at].1.1, found[at + 1].1.0);
                extend(&mut part, gap.as_slice());
            }
            extend(&mut part, text.as_slice());
            text = part;
        }
        let start = found[0].1.0;
        let stop = found[n - 1].1.1;
        proof {
            assert(fv[0].1.0 == start && fv.last().1.1 == stop);
        }
        self.splice(start, stop, text.as_slice());
        Ok(())
    }
}

/// Once a prefix of the names yields an error, all of them yield it.
proof fn lemma_blocks_in_err(s: Seq<char>, order: Seq<Seq<char>>, k: int)
    requires
        0 <= k <= order.len(),
        blocks_in(s, order.take(k)) is Err,
    ensures
        blocks_in(s, order) == blocks_in(s, order.take(k)),
    decreases order.len() - k,
{
    if k < order.len() {
        assert(order.take(k + 1).drop_last() == order.take(k));
        lemma_blocks_in_err(s, order, k + 1);
    } else {
        assert(order.take(k) == order);
    }
}

/// Whether two block lists name the same sections in the same order.
fn same_names(a: &Vec<(String, (usize, usize))>, b: &Vec<(String, (usize, usize))>) -> (res: bool)
    ensures
        res == (block_views(a@).map_values(|x: (Seq<char>, (int, int))| x.0) == block_views(b@).map_values(
            |x: (Seq<char>, (int, int))| x.0,
        )),
{
    let ghost an = block_views(a@).map_values(|x: (Seq<char>, (int, int))| x.0);
    let ghost bn = block_views(b@).map_values(|x: (Seq<char>, (int, int))| x.0);
    if a.len() != b.len() {
        assert(an.len() != bn.len());
        return false;
    }
    let mut i: usize = 0;
    while i < a.len()
        invariant
            i <= a@.len(),
            a@.len() == b@.len(),
            an == block_views(a@).map_values(|x: (Seq<char>, (int, int))| x.0),
            bn == block_views(b@).map_values(|x: (Seq<char>, (int, int))| x.0),
            forall|k: int| 0 <= k < i ==> an[k] == bn[k],
        decreases a@.len() - i,
    {
        if !crate::chars::same_str(a[i].0.as_str(), b[i].0.as_str()) {
            assert(an[i as int] != bn[i as int]);
            return false;
        }
        i = i + 1;
    }
    assert(an =~= bn);
    true
}

/// Blocks in file order; blocks that start together keep their order.
fn sort_by_start(blocks: &Vec<(String, (usize, usize))>, limit: usize) -> (out: Vec<(String, (usize, usize))>)
    requires
        forall|k: int| 0 <= k < blocks@.len() ==> (#[trigger] blocks@[k]).1.0 <= blocks@[k].1.1 <= limit,
    ensures
        block_views(out@) == by_start(block_views(blocks@)),
        out@.len() == blocks@.len(),
        forall|k: int| 0 <= k < out@.len() ==> (#[trigger] out@[k]).1.0 <= out@[k].1.1 <= limit,
{
    let mut out: Vec<(String, (usize, usize))> = Vec::new();
    let mut i: usize = 0;
    while i < blocks.len()
        invariant
            i <= blocks@.len(),
            out@.len() == i,
            block_views(out@) == by_start(block_views(blocks@).take(i as int)),
            forall|k: int| 0 <= k < blocks@.len() ==> (#[trigger] blocks@[k]).1.0 <= blocks@[k].1.1 <= limit,
            forall|k: int| 0 <= k < out@.len() ==> (#[trigger] out@[k]).1.0 <= out@[k].1.1 <= limit,
        decreases blocks@.len() - i,
    {
        let b = (blocks[i].0.clone(), blocks[i].1);
        let ghost bview = (blocks@[i as int].0@, (blocks@[i as int].1.0 as int, blocks@[i as int].1.1 as int));
        let mut j: usize = out.len();
        while j > 0 && out[j - 1].1.0 > b.1.0
            invariant
                j <= out@.len(),
                forall|k: int| j <= k < out@.len() ==> (#[trigger] out@[k]).1.0 > b.1.0,
            decreases j,
        {
            j = j - 1;
        }
        let ghost before = out@;
        proof {
            assert(b.0@ == blocks@[i as int].0@);
            lemma_insert_by_start(block_views(before), bview, j as int);
            assert(block_views(blocks@).take(i + 1).drop_last() == block_views(blocks@).take(i as int));
            assert(block_views(blocks@).take(i + 1).last() == bview);
        }
        out.insert(j, b);
        proof {
            assert(block_views(out@) =~= block_views(before).take(j as int).push(bview) + block_views(before).skip(
                j as int,
            ));
            assert forall|k: int| 0 <= k < out@.len() implies (#[trigger] out@[k]).1.0 <= out@[k].1.1 <= limit by {
                if k < j {
                    assert(out@[k] == before[k]);
                } else if k == j {
                    assert(out@[k].1 == blocks@[i as int].1);
                } else {
                    assert(out@[k] == before[k - 1]);
                }
            }
        }
        i = i + 1;
    }
    assert(block_views(blocks@).take(blocks@.len() as int) == block_views(blocks@));
    out
}


/// A row's text moved to sit at `indent`: its lines shifted by the
/// difference, and whatever ended its range (the blank lines before the next
/// row) ending it still.
pub open spec fn row_at_indent(s: Seq<char>, from: int, to: int, indent: nat) -> Seq<char> {
    let text = s.subrange(from, to);
    let body = trim_end(text);
    let tail = text.skip(body.len() as int);
    indent_by(dedent(body, depth(s, from)), indent) + tail
}

/// The text with the first `k` of a section's rows moved to `indent`, the
/// last of them first, so each move leaves the ranges before it where the
/// parser found them. A row already at `indent` is left as it is.
pub open spec fn indented(s: Seq<char>, rows: Seq<(int, int)>, indent: nat, k: int) -> Result<Seq<char>, Seq<char>>
    decreases k,
{
    if k <= 0 {
        Ok(s)
    } else {
        let from = rows[k - 1].0;
        let to = rows[k - 1].1;
        if !(0 <= from <= to <= s.len()) {
            Err(TANGLED())
        } else if depth(s, from) == indent {
            indented(s, rows, indent, k - 1)
        } else {
            indented(splice(s, from, to, row_at_indent(s, from, to, indent)), rows, indent, k - 1)
        }
    }
}

/// The text with every row of a section at `indent`, the rows taken as the
/// parser finds them in the text as it was.
pub open spec fn with_indent(s: Seq<char>, section: Seq<char>, indent: nat) -> Result<Seq<char>, Seq<char>> {
    match section_rows(s, section) {
        Err(e) => Err(e),
        Ok(rows) => indented(s, rows, indent, rows.len() as int),
    }
}

/// Rows already at `indent` are left as they are, whichever of them come
/// first.
proof fn lemma_indented_at_indent(s: Seq<char>, rows: Seq<(int, int)>, indent: nat, k: int)
    requires
        k <= rows.len(),
        forall|j: int| 0 <= j < rows.len() ==> 0 <= (#[trigger] rows[j]).0 <= rows[j].1 <= s.len() && depth(s, rows[j].0) == indent,
    ensures
        indented(s, rows, indent, k) == Ok::<Seq<char>, Seq<char>>(s),
    decreases k,
{
    if k > 0 {
        let r = rows[k - 1];
        lemma_indented_at_indent(s, rows, indent, k - 1);
    }
}

/// Whether the parser finds every row of a section at `indent`.
pub open spec fn rows_at_indent(s: Seq<char>, section: Seq<char>, indent: nat) -> bool {
    section_rows(s, section) matches Ok(rows) && forall|j: int|
        0 <= j < rows.len() ==> 0 <= (#[trigger] rows[j]).0 <= rows[j].1 <= s.len() && depth(s, rows[j].0) == indent
}

/// Whether the parser finds the lists that `order` names, as many as stand
/// in the text, already in that order.
pub open spec fn lists_in_order(s: Seq<char>, order: Seq<Seq<char>>) -> bool {
    blocks_in(s, order) matches Ok(blocks) && (blocks.len() < 2 || by_start(blocks).map_values(
        |b: (Seq<char>, (int, int))| b.0,
    ) == blocks.map_values(|b: (Seq<char>, (int, int))| b.0))
}

/// Setting a section's indent where the parser finds every row already at
/// that indent changes nothing: a second `set_indent` of a section, once
/// its rows are found where the first call wrote them, leaves the text as
/// it is.
pub proof fn law_set_indent_at_the_indent_changes_nothing(s: Seq<char>, section: Seq<char>, indent: nat)
    requires
        rows_at_indent(s, section, indent),
    ensures
        with_indent(s, section, indent) == Ok::<Seq<char>, Seq<char>>(s),
{
    let rows = section_rows(s, section)->Ok_0;
    lemma_indented_at_indent(s, rows, indent, rows.len() as int);
}

/// Joined pieces begin with the first piece.
proof fn lemma_join_starts_with_first(parts: Seq<Seq<char>>, c: char)
    requires
        parts.len() >= 1,
    ensures
        parts[0].len() <= crate::chars::join(parts, seq![c]).len(),
        crate::chars::join(parts, seq![c]).take(parts[0].len() as int) == parts[0],
{
    if parts.len() == 1 {
        assert(parts[0].take(parts[0].len() as int) =~= parts[0]);
    } else {
        assert(parts =~= seq![parts[0]] + parts.skip(1));
        crate::document::text::lemma_join_front(parts[0], parts.skip(1), c);
        let j = crate::chars::join(parts, seq![c]);
        assert(j == parts[0] + seq![c] + crate::chars::join(parts.skip(1), seq![c]));
        assert(j.take(parts[0].len() as int) =~= parts[0]);
    }
}

/// A row `set_indent` moves begins with exactly `indent` spaces, then the
/// first character of its text: the row the parser found at `from`, whose
/// line begins with spaces only, is written `indent` spaces in.
pub proof fn law_moved_row_starts_at_indent(s: Seq<char>, from: int, to: int, indent: nat)
    requires
        0 <= from <= to <= s.len(),
        from + depth(s, from) < to,
        forall|k: int| from <= k < from + depth(s, from) ==> s[k] == ' ',
    ensures
        ({
            let d = depth(s, from) as int;
            let r = row_at_indent(s, from, to, indent);
            &&& r.len() > indent
            &&& r.take(indent as int) == spaces(indent)
            &&& r[indent as int] == s[from + d]
            &&& !crate::chars::is_ws(r[indent as int])
        }),
{
    let d = depth(s, from) as int;
    let text = s.subrange(from, to);
    let rest = s.skip(from);
    crate::chars::lemma_ws_prefix_len(rest);
    assert(rest[d] == s[from + d]);
    assert(!crate::chars::is_ws(s[from + d]));
    let body = trim_end(text);
    crate::chars::lemma_content_len(text);
    assert(text[d] == s[from + d]);
    if crate::chars::content_len(text) <= d {
        assert(crate::chars::is_ws(text[d]));
    }
    assert(body.len() > d);
    assert forall|k: int| 0 <= k < d implies body[k] == ' ' by {
        assert(body[k] == text[k] && text[k] == s[from + k]);
    }
    assert(body[d] == s[from + d]);
    let parts = crate::chars::split(body, '\n');
    crate::document::text::lemma_split_pieces(body, '\n');
    crate::chars::lemma_find(body, '\n');
    let p0 = parts[0];
    assert forall|k: int| 0 <= k <= d implies body[k] != '\n' by {
        assert(crate::chars::is_ws('\n'));
    }
    let first_break = crate::chars::find(body, '\n');
    match first_break {
        Some(i) => {
            if 0 <= i < body.len() {
                assert(body[i] == '\n');
                assert(i > d);
                assert(p0 == body.take(i));
            } else {
                assert(p0 == body);
            }
        },
        None => {
            assert(p0 == body);
        },
    }
    assert(p0.len() > d);
    assert forall|k: int| 0 <= k < d implies p0[k] == ' ' by {
        assert(p0[k] == body[k]);
    }
    assert(p0[d] == body[d]);
    assert(p0[d] != ' ');
    crate::document::text::lemma_lead_spaces_is(p0, d);
    let dl = crate::document::text::dedent_line(p0, d as nat);
    assert(dl == p0.skip(d));
    let line0 = crate::document::text::indent_line(dl, indent);
    assert(line0 == spaces(indent) + dl);
    let mapped = parts.map_values(|l: Seq<char>| crate::document::text::dedent_line(l, d as nat));
    assert(mapped[0] == dl);
    let dedented = dedent(body, d as nat);
    lemma_join_starts_with_first(mapped, '\n');
    assert(dedented.take(dl.len() as int) == dl);
    let parts2 = crate::chars::split(dedented, '\n');
    crate::document::text::lemma_split_pieces(dedented, '\n');
    crate::chars::lemma_find(dedented, '\n');
    assert(!dl.contains('\n')) by {
        if dl.contains('\n') {
            let j = choose|j: int| 0 <= j < dl.len() && dl[j] == '\n';
            assert(p0[d + j] == '\n');
            assert(p0.contains('\n'));
        }
    }
    match crate::chars::find(dedented, '\n') {
        Some(i) => {
            if 0 <= i < dedented.len() {
                if i < dl.len() {
                    assert(dedented.take(dl.len() as int)[i] == dedented[i]);
                    assert(dedented[i] == dl[i]);
                }
                assert(parts2[0] == dedented.take(i));
                if i > dl.len() {
                    assert(dedented[dl.len() as int] == '\n') by {
                        assert(mapped.len() >= 2) by {
                            if mapped.len() == 1 {
                                assert(dedented == dl);
                            }
                        }
                        crate::document::text::lemma_join_front(mapped[0], mapped.skip(1), '\n');
                        assert(mapped =~= seq![mapped[0]] + mapped.skip(1));
                    }
                }
                assert(parts2[0] =~= dl);
            } else {
                assert(parts2[0] == dedented);
            }
        },
        None => {
            assert(parts2[0] == dedented);
            assert(mapped.len() == 1) by {
                if mapped.len() >= 2 {
                    crate::document::text::lemma_join_front(mapped[0], mapped.skip(1), '\n');
                    assert(mapped =~= seq![mapped[0]] + mapped.skip(1));
                    assert(dedented[dl.len() as int] == '\n');
                }
            }
            assert(dedented =~= dl);
        },
    }
    assert(parts2[0] == dl);
    let mapped2 = parts2.map_values(|l: Seq<char>| crate::document::text::indent_line(l, indent));
    assert(mapped2[0] == line0);
    lemma_join_starts_with_first(mapped2, '\n');
    let moved = indent_by(dedented, indent);
    assert(moved.take(line0.len() as int) == line0);
    let r = row_at_indent(s, from, to, indent);
    assert(r == moved + text.skip(body.len() as int));
    assert(line0.len() > indent);
    assert(moved.take(line0.len() as int)[indent as int] == moved[indent as int]);
    assert(r[indent as int] == moved[indent as int]);
    assert(moved[indent as int] == line0[indent as int]);
    assert(line0[indent as int] == dl[0]);
    assert(dl[0] == p0[d]);
    assert(r.take(indent as int) =~= spaces(indent)) by {
        assert forall|k: int| 0 <= k < indent implies r[k] == ' ' by {
            assert(r[k] == moved[k]);
            assert(moved.take(line0.len() as int)[k] == moved[k]);
            assert(moved[k] == line0[k]);
        }
    }
}

impl Document {
    /// Move every row of a section to sit `indent` spaces under its key.
    pub fn set_indent(&mut self, section: &str, indent: usize) -> (res: Result<(), String>)
        ensures
            match res {
                Ok(()) => with_indent(old(self)@, section@, indent as nat) == Ok::<Seq<char>, Seq<char>>(final(self)@),
                Err(m) => with_indent(old(self)@, section@, indent as nat) == Err::<Seq<char>, Seq<char>>(m@),
            },
            res is Err ==> final(self)@ == old(self)@,
    {
        let mut work = self.duplicate();
        let res = work.set_indent_in_place(section, indent);
        if res.is_ok() {
            self.source = work.source;
        }
        res
    }

    /// The same edit, made on this text directly.
    fn set_indent_in_place(&mut self, section: &str, indent: usize) -> (res: Result<(), String>)
        ensures
            match res {
                Ok(()) => with_indent(old(self)@, section@, indent as nat) == Ok::<Seq<char>, Seq<char>>(final(self)@),
                Err(m) => with_indent(old(self)@, section@, indent as nat) == Err::<Seq<char>, Seq<char>>(m@),
            },
    {
        let rows = match self.rows(section) {
            Ok(r) => r,
            Err(m) => {
                return Err(m);
            },
        };
        let ghost ranges = rows@.map_values(|p: (usize, usize)| (p.0 as int, p.1 as int));
        let ghost target = with_indent(self@, section@, indent as nat);
        assert(target == indented(self@, ranges, indent as nat, rows@.len() as int));
        let mut k: usize = rows.len();
        while k > 0
            invariant
                k <= rows@.len(),
                ranges == rows@.map_values(|p: (usize, usize)| (p.0 as int, p.1 as int)),
                indented(self@, ranges, indent as nat, k as int) == target,
                target == with_indent(old(self)@, section@, indent as nat),
            decreases k,
        {
            let (from, to) = rows[k - 1];
            proof {
                assert(ranges[k - 1] == (from as int, to as int));
            }
            if !(from <= to && to <= self.source.len()) {
                return Err(String::from_str("the rows of this list do not follow one another"));
            }
            let d = depth_of(self.source.as_slice(), from);
            if d != indent {
                let text = slice(self.source.as_slice(), from, to);
                let body = trimmed_end(text.as_slice());
                proof {
                    crate::chars::lemma_content_len(text@);
                }
                let tail = slice(text.as_slice(), body.len(), text.len());
                let left = dedent_text(body.as_slice(), d);
                let mut moved = indent_text(left.as_slice(), indent);
                extend(&mut moved, tail.as_slice());
                self.splice(from, to, moved.as_slice());
            }
            k = k - 1;
        }
        Ok(())
    }
}

/// The text one patch makes, or why it cannot be made.
pub open spec fn patch_spec(s: Seq<char>, route: Seq<StepView>, edit: EditView) -> Result<Seq<char>, Seq<char>> {
    if !yaml_reads(s) {
        Err(NOT_YAML())
    } else {
        match patched(s, route, edit) {
            Ok(t) => Ok(t),
            Err(()) => Err("edit this ledger"@),
        }
    }
}

/// Whether a route ends at a row's `notes`.
pub open spec fn names_notes(route: Seq<StepView>) -> bool {
    route.len() > 0 && route.last() == StepView::Key("notes"@)
}

/// Whether a route ends at a row's `notes`.
fn route_names_notes(route: &Vec<Step>) -> (res: bool)
    ensures
        res == names_notes(route_view(route@)),
{
    if route.len() == 0 {
        return false;
    }
    let last = route.len() - 1;
    assert(route_view(route@).last() == route@[last as int]@);
    match &route[last] {
        Step::Key(k) => {
            let same = crate::chars::same_str(k.as_str(), "notes");
            proof {
                reveal_strlit("notes");
            }
            same
        },
        Step::Index(_) => false,
    }
}

/// The text with the value at a route replaced: a list written in the style
/// the old value had, a string by the patcher.
pub open spec fn replaced(s: Seq<char>, route: Seq<StepView>, value: FieldView) -> Result<Seq<char>, Seq<char>> {
    match value {
        FieldView::List(items) => if !yaml_reads(s) {
            Err(NOT_YAML())
        } else {
            match exact_chars(s, route) {
                Ok(Some((from, to))) => match list_text(s, from, to, items, names_notes(route)) {
                    Err(e) => Err(e),
                    Ok(written) => Ok(splice(s, from, to, written)),
                },
                _ => Err("the value to replace is missing"@),
            }
        },
        FieldView::Text(t) => patch_spec(s, route, EditView::Replace(ScalarView::Text(t))),
    }
}

/// How a row field is written.
#[derive(Clone, Copy, Debug, PartialEq, Eq, Structural)]
pub enum KeyShape {
    /// A string, number, or folded or literal scalar.
    Scalar,
    /// A block or flow sequence.
    Sequence,
}

/// Whether a row has `key`, and whether its value is written as a list.
pub open spec fn key_shape(s: Seq<char>, section: Seq<char>, index: nat, key: Seq<char>) -> Result<Option<KeyShape>, Seq<char>> {
    if !yaml_reads(s) {
        Err(NOT_YAML())
    } else {
        match exact_chars(s, field_route(section, index, key)) {
            Ok(Some((from, to))) => {
                let t = crate::chars::trim(s.subrange(from, to));
                Ok(
                    Some(
                        if starts_with(t, seq!['[']) || starts_with(t, seq!['-']) {
                            KeyShape::Sequence
                        } else {
                            KeyShape::Scalar
                        },
                    ),
                )
            },
            _ => Ok(None),
        }
    }
}

/// A `blocked_by` list rewritten to hold `kept`, in the style it was written:
/// a flow list stays a flow list, a block list stays a block list at the
/// column it stood at, and an emptied block list becomes `[]`.
pub open spec fn list_rewrite(s: Seq<char>, from: int, to: int, kept: Seq<Seq<char>>) -> Seq<char> {
    if !starts_with(trim_start(s.subrange(from, to)), seq!['-']) {
        "["@ + crate::chars::join(kept, ", "@) + "]"@
    } else if kept.len() == 0 {
        "[]"@
    } else {
        block_items(kept, spaces((from - crate::chars::line_start(s, from)) as nat))
    }
}

/// List items, the first where the old list began, the rest on new lines at
/// `pad`.
pub open spec fn block_items(kept: Seq<Seq<char>>, pad: Seq<char>) -> Seq<char>
    decreases kept.len(),
{
    if kept.len() == 0 {
        Seq::empty()
    } else if kept.len() == 1 {
        "- "@ + kept[0]
    } else {
        block_items(kept.drop_last(), pad) + "\n"@ + pad + "- "@ + kept.last()
    }
}

/// The text with one queued row's `blocked_by` holding exactly `kept`.
pub open spec fn blockers_rewritten(s: Seq<char>, section: Seq<char>, row: Seq<char>, kept: Seq<Seq<char>>) -> Result<Seq<char>, Seq<char>> {
    match section_ids(s, section) {
        Err(e) => Err(e),
        Ok(ids) => match first_index(ids, row) {
            None => Err(row + " is not in "@ + section),
            Some(index) => if !yaml_reads(s) {
                Err(NOT_YAML())
            } else {
                match exact_chars(s, field_route(section, index as nat, "blocked_by"@)) {
                    Ok(Some((from, to))) => Ok(splice(s, from, to, list_rewrite(s, from, to, kept))),
                    _ => Err(row + " has no blocked_by to rewrite"@),
                }
            },
        },
    }
}

/// A row standing alone, with one change made: a key dropped, replaced, or
/// added at the end.
pub open spec fn revised_once(row: Seq<char>, key: Seq<char>, value: Option<FieldView>) -> Result<Seq<char>, Seq<char>> {
    if !yaml_reads(row) {
        Err("read the row on its own"@)
    } else {
        let exists = exact_chars(row, own_route(key)) is Ok;
        match (exists, value) {
            (true, None) => patch_spec(row, own_route(key), EditView::Remove),
            (true, Some(v)) => replaced(row, own_route(key), v),
            (false, Some(v)) => match entry_text(key, v) {
                Err(e) => Err(e),
                Ok(entry) => Ok(trim_end(row) + "\n"@ + indent_by(entry, 2)),
            },
            (false, None) => Ok(row),
        }
    }
}

/// A row standing alone with every change made in turn.
pub open spec fn revised_all(row: Seq<char>, changes: Seq<(Seq<char>, Option<FieldView>)>) -> Result<Seq<char>, Seq<char>>
    decreases changes.len(),
{
    if changes.len() == 0 {
        Ok(row)
    } else {
        match revised_all(row, changes.drop_last()) {
            Err(e) => Err(e),
            Ok(t) => revised_once(t, changes.last().0, changes.last().1),
        }
    }
}

/// A row standing alone with keys dropped, replaced, or added, so that no
/// removal can reach a neighbour's comment. Existing keys stay where they
/// are; new keys are appended.
pub open spec fn revised(row: Seq<char>, changes: Seq<(Seq<char>, Option<FieldView>)>) -> Result<Seq<char>, Seq<char>> {
    match revised_all(row, changes) {
        Err(e) => Err(e),
        Ok(t) => Ok(trim_end(t)),
    }
}

/// Changes as values.
pub open spec fn change_views(changes: Seq<(String, Option<FieldValue>)>) -> Seq<(Seq<char>, Option<FieldView>)> {
    changes.map_values(|c: (String, Option<FieldValue>)| (c.0@, match c.1 {
        Some(v) => Some(v@),
        None => None,
    }))
}

/// Whether a text still reads as YAML, as the next verb will read it.
pub open spec fn still_parses(source: Seq<char>) -> Result<(), Seq<char>> {
    if yml_valid(source) {
        Ok(())
    } else {
        Err("this edit would leave a file that is not valid YAML"@)
    }
}

/// Fail rather than write something the next verb cannot read.
pub fn must_still_parse(source: &str) -> (res: Result<(), String>)
    ensures
        match res {
            Ok(()) => still_parses(source@) == Ok::<(), Seq<char>>(()),
            Err(m) => still_parses(source@) == Err::<(), Seq<char>>(m@),
        },
{
    if reads_as_yaml(source) {
        Ok(())
    } else {
        Err(String::from_str("this edit would leave a file that is not valid YAML"))
    }
}

/// A copy of a field value.
pub fn copy_value(v: &FieldValue) -> (out: FieldValue)
    ensures
        out@ == v@,
{
    match v {
        FieldValue::Text(t) => FieldValue::Text(t.clone()),
        FieldValue::List(l) => FieldValue::List(crate::edit::lists::copy_strings(l)),
    }
}

impl Document {
    /// Apply one patch, stated against a route rather than offsets.
    fn patch(&mut self, route: &Vec<Step>, edit: &Edit) -> (res: Result<(), String>)
        ensures
            match res {
                Ok(()) => patch_spec(old(self)@, route_view(route@), edit@) == Ok::<Seq<char>, Seq<char>>(final(self)@),
                Err(m) => patch_spec(old(self)@, route_view(route@), edit@) == Err::<Seq<char>, Seq<char>>(m@),
            },
    {
        if !self.readable() {
            return Err(String::from_str("this ledger is not YAML the parser can follow"));
        }
        let text = from_chars(self.source.as_slice());
        match apply_patch(text.as_str(), route, edit) {
            Ok(edited) => {
                self.source = to_chars(edited.as_str());
                Ok(())
            },
            Err(()) => Err(String::from_str("edit this ledger")),
        }
    }

    /// Replace a top-level scalar, leaving its line where it was.
    pub fn set(&mut self, key: &str, value: Scalar) -> (res: Result<(), String>)
        ensures
            match res {
                Ok(()) => patch_spec(old(self)@, key_route(key@), EditView::Replace(value@)) == Ok::<Seq<char>, Seq<char>>(
                    final(self)@,
                ),
                Err(m) => patch_spec(old(self)@, key_route(key@), EditView::Replace(value@)) == Err::<Seq<char>, Seq<char>>(
                    m@,
                ),
            },
            res is Err ==> final(self)@ == old(self)@,
    {
        let mut work = self.duplicate();
        let res = work.set_in_place(key, value);
        if res.is_ok() {
            self.source = work.source;
        }
        res
    }

    /// The same edit, made on this text directly.
    fn set_in_place(&mut self, key: &str, value: Scalar) -> (res: Result<(), String>)
        ensures
            match res {
                Ok(()) => patch_spec(old(self)@, key_route(key@), EditView::Replace(value@)) == Ok::<Seq<char>, Seq<char>>(
                    final(self)@,
                ),
                Err(m) => patch_spec(old(self)@, key_route(key@), EditView::Replace(value@)) == Err::<Seq<char>, Seq<char>>(
                    m@,
                ),
            },
    {
        let route = route_to_key(key);
        let edit = Edit::Replace(value);
        self.patch(&route, &edit)
    }

    /// Replace the value at a route.
    fn replace_value(&mut self, route: &Vec<Step>, value: &FieldValue) -> (res: Result<(), String>)
        ensures
            match res {
                Ok(()) => replaced(old(self)@, route_view(route@), value@) == Ok::<Seq<char>, Seq<char>>(final(self)@),
                Err(m) => replaced(old(self)@, route_view(route@), value@) == Err::<Seq<char>, Seq<char>>(m@),
            },
    {
        match value {
            FieldValue::List(items) => {
                if !self.readable() {
                    return Err(String::from_str("this ledger is not YAML the parser can follow"));
                }
                let (from, to) = match exact(&self.source, route) {
                    Ok(Some(span)) => span,
                    _ => {
                        return Err(String::from_str("the value to replace is missing"));
                    },
                };
                let notes = route_names_notes(route);
                let written = match sequence_like(self.source.as_slice(), from, to, items, notes) {
                    Ok(w) => w,
                    Err(m) => {
                        return Err(m);
                    },
                };
                self.splice(from, to, written.as_slice());
                Ok(())
            },
            FieldValue::Text(t) => {
                let edit = Edit::Replace(Scalar::Text(t.clone()));
                self.patch(route, &edit)
            },
        }
    }

    /// Replace one key on a row that is still in the file.
    pub fn replace_row_value(&mut self, section: &str, index: usize, key: &str, value: &FieldValue) -> (res: Result<(), String>)
        ensures
            match res {
                Ok(()) => replaced(old(self)@, field_route(section@, index as nat, key@), value@) == Ok::<Seq<char>, Seq<char>>(
                    final(self)@,
                ),
                Err(m) => replaced(old(self)@, field_route(section@, index as nat, key@), value@) == Err::<Seq<char>, Seq<char>>(
                    m@,
                ),
            },
            res is Err ==> final(self)@ == old(self)@,
    {
        let mut work = self.duplicate();
        let res = work.replace_row_value_in_place(section, index, key, value);
        if res.is_ok() {
            self.source = work.source;
        }
        res
    }

    /// The same edit, made on this text directly.
    fn replace_row_value_in_place(&mut self, section: &str, index: usize, key: &str, value: &FieldValue) -> (res: Result<(), String>)
        ensures
            match res {
                Ok(()) => replaced(old(self)@, field_route(section@, index as nat, key@), value@) == Ok::<Seq<char>, Seq<char>>(
                    final(self)@,
                ),
                Err(m) => replaced(old(self)@, field_route(section@, index as nat, key@), value@) == Err::<Seq<char>, Seq<char>>(
                    m@,
                ),
            },
    {
        let route = route_to_field(section, index, key);
        self.replace_value(&route, value)
    }

    /// Drop a key from a row that is still in the file.
    pub fn remove_row_key(&mut self, section: &str, index: usize, key: &str) -> (res: Result<(), String>)
        ensures
            match res {
                Ok(()) => patch_spec(old(self)@, field_route(section@, index as nat, key@), EditView::Remove) == Ok::<
                    Seq<char>,
                    Seq<char>,
                >(final(self)@),
                Err(m) => patch_spec(old(self)@, field_route(section@, index as nat, key@), EditView::Remove) == Err::<
                    Seq<char>,
                    Seq<char>,
                >(m@),
            },
            res is Err ==> final(self)@ == old(self)@,
    {
        let mut work = self.duplicate();
        let res = work.remove_row_key_in_place(section, index, key);
        if res.is_ok() {
            self.source = work.source;
        }
        res
    }

    /// The same edit, made on this text directly.
    fn remove_row_key_in_place(&mut self, section: &str, index: usize, key: &str) -> (res: Result<(), String>)
        ensures
            match res {
                Ok(()) => patch_spec(old(self)@, field_route(section@, index as nat, key@), EditView::Remove) == Ok::<
                    Seq<char>,
                    Seq<char>,
                >(final(self)@),
                Err(m) => patch_spec(old(self)@, field_route(section@, index as nat, key@), EditView::Remove) == Err::<
                    Seq<char>,
                    Seq<char>,
                >(m@),
            },
    {
        let route = route_to_field(section, index, key);
        self.patch(&route, &Edit::Remove)
    }

    /// Whether a row has `key`, and whether its value is written as a list.
    pub fn row_key_shape(&self, section: &str, index: usize, key: &str) -> (res: Result<Option<KeyShape>, String>)
        ensures
            match res {
                Ok(shape) => key_shape(self@, section@, index as nat, key@) == Ok::<Option<KeyShape>, Seq<char>>(shape),
                Err(m) => key_shape(self@, section@, index as nat, key@) == Err::<Option<KeyShape>, Seq<char>>(m@),
            },
    {
        if !self.readable() {
            return Err(String::from_str("this ledger is not YAML the parser can follow"));
        }
        let route = route_to_field(section, index, key);
        match exact(&self.source, &route) {
            Ok(Some((from, to))) => {
                let value = slice(self.source.as_slice(), from, to);
                let t = crate::chars::trimmed(value.as_slice());
                proof {
                    crate::chars::lemma_starts_with_char(t@, '[');
                    crate::chars::lemma_starts_with_char(t@, '-');
                }
                if t.len() > 0 && (t[0] == '[' || t[0] == '-') {
                    Ok(Some(KeyShape::Sequence))
                } else {
                    Ok(Some(KeyShape::Scalar))
                }
            },
            _ => Ok(None),
        }
    }

    /// Take an id out of a row's `blocked_by`, leaving exactly `kept`.
    pub fn rewrite_blockers(&mut self, section: &str, row: &str, kept: &Vec<String>) -> (res: Result<(), String>)
        ensures
            match res {
                Ok(()) => blockers_rewritten(old(self)@, section@, row@, views(kept@)) == Ok::<Seq<char>, Seq<char>>(
                    final(self)@,
                ),
                Err(m) => blockers_rewritten(old(self)@, section@, row@, views(kept@)) == Err::<Seq<char>, Seq<char>>(m@),
            },
            res is Err ==> final(self)@ == old(self)@,
    {
        let mut work = self.duplicate();
        let res = work.rewrite_blockers_in_place(section, row, kept);
        if res.is_ok() {
            self.source = work.source;
        }
        res
    }

    /// The same edit, made on this text directly.
    fn rewrite_blockers_in_place(&mut self, section: &str, row: &str, kept: &Vec<String>) -> (res: Result<(), String>)
        ensures
            match res {
                Ok(()) => blockers_rewritten(old(self)@, section@, row@, views(kept@)) == Ok::<Seq<char>, Seq<char>>(
                    final(self)@,
                ),
                Err(m) => blockers_rewritten(old(self)@, section@, row@, views(kept@)) == Err::<Seq<char>, Seq<char>>(m@),
            },
    {
        let index = match self.position_of(section, row) {
            Ok(i) => i,
            Err(m) => {
                return Err(m);
            },
        };
        if !self.readable() {
            return Err(String::from_str("this ledger is not YAML the parser can follow"));
        }
        let route = route_to_field(section, index, "blocked_by");
        let (from, to) = match exact(&self.source, &route) {
            Ok(Some(span)) => span,
            _ => {
                let mut m = to_chars(row);
                extend_str(&mut m, " has no blocked_by to rewrite");
                return Err(from_chars(m.as_slice()));
            },
        };
        let written = self.rewrite_list(from, to, kept);
        self.splice(from, to, written.as_slice());
        Ok(())
    }

    /// A list rewritten to hold `kept`, in the style it was written.
    fn rewrite_list(&self, from: usize, to: usize, kept: &Vec<String>) -> (out: Vec<char>)
        requires
            from <= to <= self@.len(),
        ensures
            out@ == list_rewrite(self@, from as int, to as int, views(kept@)),
    {
        let was = slice(self.source.as_slice(), from, to);
        let front = crate::chars::trimmed_start(was.as_slice());
        proof {
            crate::chars::lemma_starts_with_char(front@, '-');
        }
        if !(front.len() > 0 && front[0] == '-') {
            let mut parts: Vec<Vec<char>> = Vec::new();
            let mut i: usize = 0;
            while i < kept.len()
                invariant
                    i <= kept@.len(),
                    crate::chars::texts(parts@) == views(kept@).take(i as int),
                decreases kept@.len() - i,
            {
                let ghost before = parts@;
                parts.push(to_chars(kept[i].as_str()));
                proof {
                    assert(crate::chars::texts(parts@) =~= crate::chars::texts(before).push(kept@[i as int]@));
                    assert(views(kept@).take(i + 1) =~= views(kept@).take(i as int).push(kept@[i as int]@));
                }
                i = i + 1;
            }
            assert(views(kept@).take(kept@.len() as int) == views(kept@));
            let sep = to_chars(", ");
            proof {
                assert(parts@.map_values(|v: Vec<char>| v@) =~= crate::chars::texts(parts@));
            }
            let joined = crate::chars::join_chars(&parts, sep.as_slice());
            let mut out = to_chars("[");
            extend(&mut out, joined.as_slice());
            extend_str(&mut out, "]");
            return out;
        }
        if kept.len() == 0 {
            return to_chars("[]");
        }
        let line = crate::chars::start_of_line(self.source.as_slice(), from);
        proof {
            crate::chars::lemma_line_start(self.source@, from as int);
        }
        let padding = crate::document::text::pad(from - line);
        let mut out = to_chars("- ");
        extend_str(&mut out, kept[0].as_str());
        let mut i: usize = 1;
        while i < kept.len()
            invariant
                1 <= i <= kept@.len(),
                out@ == block_items(views(kept@).take(i as int), padding@),
            decreases kept@.len() - i,
        {
            proof {
                assert(views(kept@).take(i + 1).drop_last() == views(kept@).take(i as int));
                assert(views(kept@).take(i + 1).last() == kept@[i as int]@);
            }
            out.push('\n');
            extend(&mut out, padding.as_slice());
            extend_str(&mut out, "- ");
            extend_str(&mut out, kept[i].as_str());
            proof {
                reveal_strlit("\n");
            }
            i = i + 1;
        }
        assert(views(kept@).take(kept@.len() as int) == views(kept@));
        proof {
            assert(views(kept@).take(1) =~= seq![kept@[0]@]);
        }
        out
    }
}


proof fn lemma_revised_all_err(row: Seq<char>, changes: Seq<(Seq<char>, Option<FieldView>)>, k: int)
    requires
        0 <= k <= changes.len(),
        revised_all(row, changes.take(k)) is Err,
    ensures
        revised_all(row, changes) == revised_all(row, changes.take(k)),
    decreases changes.len() - k,
{
    if k < changes.len() {
        assert(changes.take(k + 1).drop_last() == changes.take(k));
        lemma_revised_all_err(row, changes, k + 1);
    } else {
        assert(changes.take(k) == changes);
    }
}

impl Document {
    /// Make one change to the row this document holds on its own.
    fn revise_once(&mut self, key: &str, value: &Option<FieldValue>) -> (res: Result<(), String>)
        ensures
            match res {
                Ok(()) => revised_once(old(self)@, key@, match value {
                    Some(v) => Some(v@),
                    None => None,
                }) == Ok::<Seq<char>, Seq<char>>(final(self)@),
                Err(m) => revised_once(old(self)@, key@, match value {
                    Some(v) => Some(v@),
                    None => None,
                }) == Err::<Seq<char>, Seq<char>>(m@),
            },
    {
        if !self.readable() {
            return Err(String::from_str("read the row on its own"));
        }
        let route = route_to_own(key);
        let exists = exact(&self.source, &route).is_ok();
        match value {
            None => if exists {
                self.patch(&route, &Edit::Remove)
            } else {
                Ok(())
            },
            Some(v) => if exists {
                self.replace_value(&route, v)
            } else {
                let entry = match mapping_entry(key, v) {
                    Ok(e) => e,
                    Err(m) => {
                        return Err(m);
                    },
                };
                let mut kept = trimmed_end(self.source.as_slice());
                kept.push('\n');
                let moved = indent_text(entry.as_slice(), 2);
                extend(&mut kept, moved.as_slice());
                proof {
                    assert(kept@ =~= trim_end(self@) + "\n"@ + indent_by(entry@, 2)) by {
                        reveal_strlit("\n");
                    }
                }
                self.source = kept;
                Ok(())
            },
        }
    }
}

/// Drop, replace, or add keys on a row standing alone, so that no removal can
/// reach a neighbour's comment. Existing keys stay where they are; new keys
/// are appended.
pub fn revise_fields(row: &str, changes: &Vec<(String, Option<FieldValue>)>) -> (res: Result<String, String>)
    ensures
        match res {
            Ok(t) => revised(row@, change_views(changes@)) == Ok::<Seq<char>, Seq<char>>(t@),
            Err(m) => revised(row@, change_views(changes@)) == Err::<Seq<char>, Seq<char>>(m@),
        },
{
    let mut kept = Document::new(String::from_str(row));
    let ghost cv = change_views(changes@);
    let mut i: usize = 0;
    assert(cv.take(0) =~= Seq::<(Seq<char>, Option<FieldView>)>::empty());
    while i < changes.len()
        invariant
            i <= changes@.len(),
            cv == change_views(changes@),
            revised_all(row@, cv.take(i as int)) == Ok::<Seq<char>, Seq<char>>(kept@),
        decreases changes@.len() - i,
    {
        proof {
            assert(cv.take(i + 1).drop_last() == cv.take(i as int));
            assert(cv.take(i + 1).last() == cv[i as int]);
        }
        match kept.revise_once(changes[i].0.as_str(), &changes[i].1) {
            Ok(()) => {},
            Err(m) => {
                proof {
                    lemma_revised_all_err(row@, cv, i as int + 1);
                }
                return Err(m);
            },
        }
        i = i + 1;
    }
    assert(cv.take(changes@.len() as int) == cv);
    let text = trimmed_end(kept.text().as_slice());
    Ok(from_chars(text.as_slice()))
}

/// The text with a row moved from one section to the front of another, with
/// keys changed on the way, and the section it left written `key: []` when
/// that was its last row.
pub open spec fn moved_between(s: Seq<char>, from: Seq<char>, to: Seq<char>, id: Seq<char>, changes: Seq<(Seq<char>, Option<FieldView>)>, front: bool) -> Result<Seq<char>, Seq<char>> {
    match cut_spec(s, from, id) {
        Err(e) => Err(e),
        Ok((t, row)) => match revised(row, changes) {
            Err(e) => Err(e),
            Ok(r) => match closed_if_empty(t, from) {
                Err(e) => Err(e),
                Ok(u) => if front {
                    pasted_front(u, to, r)
                } else {
                    pasted_back(u, to, r)
                },
            },
        },
    }
}

/// The text with a new row, rendered from its entries, at the end of a section.
pub open spec fn appended(s: Seq<char>, section: Seq<char>, entries: Seq<(Seq<char>, FieldView)>) -> Result<Seq<char>, Seq<char>> {
    match yaml_rendering(YamlView::Mapping(entries)) {
        Err(()) => Err("render the new row"@),
        Ok(mapping) => match row_item(mapping, entries) {
            Err(e) => Err(e),
            Ok(item) => pasted_back(s, section, item),
        },
    }
}

impl Document {
    /// Move a row from one section to another, dropping and adding keys
    /// while it stands alone; to the front when `front`, else to the back.
    fn move_row(&mut self, from: &str, to: &str, id: &str, changes: &Vec<(String, Option<FieldValue>)>, front: bool) -> (res: Result<(), String>)
        ensures
            match res {
                Ok(()) => moved_between(old(self)@, from@, to@, id@, change_views(changes@), front) == Ok::<
                    Seq<char>,
                    Seq<char>,
                >(final(self)@),
                Err(m) => moved_between(old(self)@, from@, to@, id@, change_views(changes@), front) == Err::<
                    Seq<char>,
                    Seq<char>,
                >(m@),
            },
    {
        let row = match self.cut(from, id) {
            Ok(r) => r,
            Err(m) => {
                return Err(m);
            },
        };
        let row = match revise_fields(row.as_str(), changes) {
            Ok(r) => r,
            Err(m) => {
                return Err(m);
            },
        };
        match self.close_if_empty(from) {
            Ok(()) => {},
            Err(m) => {
                return Err(m);
            },
        }
        let row = to_chars(row.as_str());
        if front {
            self.paste_front(to, row.as_slice())
        } else {
            self.paste_back(to, row.as_slice())
        }
    }

    /// Move a row to the front of another section, changing keys on the way.
    pub fn move_between(&mut self, from: &str, to: &str, id: &str, changes: &Vec<(String, Option<FieldValue>)>) -> (res: Result<(), String>)
        ensures
            match res {
                Ok(()) => moved_between(old(self)@, from@, to@, id@, change_views(changes@), true) == Ok::<
                    Seq<char>,
                    Seq<char>,
                >(final(self)@),
                Err(m) => moved_between(old(self)@, from@, to@, id@, change_views(changes@), true) == Err::<
                    Seq<char>,
                    Seq<char>,
                >(m@),
            },
            res is Err ==> final(self)@ == old(self)@,
    {
        let mut work = self.duplicate();
        let res = work.move_between_in_place(from, to, id, changes);
        if res.is_ok() {
            self.source = work.source;
        }
        res
    }

    /// The same edit, made on this text directly.
    fn move_between_in_place(&mut self, from: &str, to: &str, id: &str, changes: &Vec<(String, Option<FieldValue>)>) -> (res: Result<(), String>)
        ensures
            match res {
                Ok(()) => moved_between(old(self)@, from@, to@, id@, change_views(changes@), true) == Ok::<
                    Seq<char>,
                    Seq<char>,
                >(final(self)@),
                Err(m) => moved_between(old(self)@, from@, to@, id@, change_views(changes@), true) == Err::<
                    Seq<char>,
                    Seq<char>,
                >(m@),
            },
    {
        self.move_row(from, to, id, changes, true)
    }

    /// Move a row to the end of another section, changing keys on the way.
    pub fn move_to_end(&mut self, from: &str, to: &str, id: &str, changes: &Vec<(String, Option<FieldValue>)>) -> (res: Result<(), String>)
        ensures
            match res {
                Ok(()) => moved_between(old(self)@, from@, to@, id@, change_views(changes@), false) == Ok::<
                    Seq<char>,
                    Seq<char>,
                >(final(self)@),
                Err(m) => moved_between(old(self)@, from@, to@, id@, change_views(changes@), false) == Err::<
                    Seq<char>,
                    Seq<char>,
                >(m@),
            },
            res is Err ==> final(self)@ == old(self)@,
    {
        let mut work = self.duplicate();
        let res = work.move_to_end_in_place(from, to, id, changes);
        if res.is_ok() {
            self.source = work.source;
        }
        res
    }

    /// The same edit, made on this text directly.
    fn move_to_end_in_place(&mut self, from: &str, to: &str, id: &str, changes: &Vec<(String, Option<FieldValue>)>) -> (res: Result<(), String>)
        ensures
            match res {
                Ok(()) => moved_between(old(self)@, from@, to@, id@, change_views(changes@), false) == Ok::<
                    Seq<char>,
                    Seq<char>,
                >(final(self)@),
                Err(m) => moved_between(old(self)@, from@, to@, id@, change_views(changes@), false) == Err::<
                    Seq<char>,
                    Seq<char>,
                >(m@),
            },
    {
        self.move_row(from, to, id, changes, false)
    }

    /// Add a new row, rendered from its entries, at the end of a section.
    pub fn append(&mut self, section: &str, entries: &Vec<(String, FieldValue)>) -> (res: Result<(), String>)
        ensures
            match res {
                Ok(()) => appended(old(self)@, section@, entry_views(entries@)) == Ok::<Seq<char>, Seq<char>>(final(self)@),
                Err(m) => appended(old(self)@, section@, entry_views(entries@)) == Err::<Seq<char>, Seq<char>>(m@),
            },
            res is Err ==> final(self)@ == old(self)@,
    {
        let mut work = self.duplicate();
        let res = work.append_in_place(section, entries);
        if res.is_ok() {
            self.source = work.source;
        }
        res
    }

    /// The same edit, made on this text directly.
    fn append_in_place(&mut self, section: &str, entries: &Vec<(String, FieldValue)>) -> (res: Result<(), String>)
        ensures
            match res {
                Ok(()) => appended(old(self)@, section@, entry_views(entries@)) == Ok::<Seq<char>, Seq<char>>(final(self)@),
                Err(m) => appended(old(self)@, section@, entry_views(entries@)) == Err::<Seq<char>, Seq<char>>(m@),
            },
    {
        let mut copy: Vec<(String, FieldValue)> = Vec::new();
        let mut i: usize = 0;
        while i < entries.len()
            invariant
                i <= entries@.len(),
                entry_views(copy@) == entry_views(entries@).take(i as int),
            decreases entries@.len() - i,
        {
            let ghost before = copy@;
            copy.push((entries[i].0.clone(), copy_value(&entries[i].1)));
            proof {
                assert(entry_views(copy@) =~= entry_views(before).push(entry_views(entries@)[i as int]));
                assert(entry_views(entries@).take(i + 1) =~= entry_views(entries@).take(i as int).push(
                    entry_views(entries@)[i as int],
                ));
            }
            i = i + 1;
        }
        assert(entry_views(entries@).take(entries@.len() as int) == entry_views(entries@));
        let mapping = match yaml_text(&Yaml::Mapping(copy)) {
            Ok(m) => m,
            Err(()) => {
                return Err(String::from_str("render the new row"));
            },
        };
        let item = match sequence_item(mapping.as_str(), entries) {
            Ok(t) => t,
            Err(m) => {
                return Err(m);
            },
        };
        self.paste_back(section, item.as_slice())
    }
}

} // verus!
