//! How a row's `notes` list is written: each note as the plainest YAML that
//! reads back as exactly that note.

use crate::chars::{
    blank, extend, extend_str, from_chars, has_prefix, is_blank, join, lines, split, split_at_char, split_lines,
    texts, to_chars, trim_end, trimmed_end, views,
};
use crate::document::render::{
    json_rendering, json_text, read_string_list, yaml_rendering, yaml_text, yml_string_list, FieldValue, FieldView,
    Yaml, YamlView,
};
use crate::document::text::{indent_by, indent_line, indent_text};
use vstd::prelude::*;

verus! {

/// How many line breaks end a text.
pub open spec fn trailing_breaks(s: Seq<char>) -> nat
    decreases s.len(),
{
    if s.len() > 0 && s.last() == '\n' {
        1 + trailing_breaks(s.drop_last())
    } else {
        0
    }
}

/// Whether some line of a text is not empty but only whitespace.
pub open spec fn has_blank_line(s: Seq<char>) -> bool {
    exists|k: int| 0 <= k < split(s, '\n').len() && (#[trigger] split(s, '\n')[k]).len() > 0 && is_blank(
        split(s, '\n')[k],
    )
}

/// Whether a rendering reads back as exactly one note.
pub open spec fn round_trips(text: Seq<char>, note: Seq<char>) -> bool {
    yml_string_list(text) == Some(seq![note])
}

/// The complaint when a note cannot be written.
pub open spec fn RENDER_NOTE() -> Seq<char> {
    "render a note"@
}

/// One note as a list item: a literal block when it spans lines and a block
/// reads back as it; a folded block when a plain scalar would need quotes and
/// the block reads back; the escaped JSON string when nothing plainer reads
/// back exactly; the plain scalar otherwise.
pub open spec fn note_item(note: Seq<char>) -> Result<Seq<char>, Seq<char>> {
    match yaml_rendering(YamlView::Text(note)) {
        Err(()) => Err(RENDER_NOTE()),
        Ok(scalar) => match json_rendering(FieldView::Text(note)) {
            Err(()) => Err(RENDER_NOTE()),
            Ok(json) => {
                let escaped = "- "@ + json;
                if note.contains('\n') {
                    let trailing = trailing_breaks(note);
                    if trailing > 1 || has_blank_line(note) {
                        Ok(escaped)
                    } else {
                        let content = note.take(note.len() - trailing);
                        let chomp = if trailing == 0 {
                            "-"@
                        } else {
                            Seq::empty()
                        };
                        let block = "- |2"@ + chomp + "\n"@ + indent_by(content, 2);
                        Ok(
                            if round_trips(block, note) {
                                block
                            } else {
                                escaped
                            },
                        )
                    }
                } else {
                    let plain = trim_end(scalar);
                    if plain.len() > 0 && (plain[0] == '\'' || plain[0] == '"') {
                        let block = "- >2-\n  "@ + note;
                        Ok(
                            if round_trips(block, note) {
                                block
                            } else {
                                escaped
                            },
                        )
                    } else {
                        Ok("- "@ + plain)
                    }
                }
            },
        },
    }
}

/// The notes as list items, one per line group, from the first `k`.
pub open spec fn note_items(notes: Seq<Seq<char>>) -> Result<Seq<char>, Seq<char>>
    decreases notes.len(),
{
    if notes.len() == 0 {
        Ok(Seq::empty())
    } else {
        match note_items(notes.drop_last()) {
            Err(e) => Err(e),
            Ok(acc) => match note_item(notes.last()) {
                Err(e) => Err(e),
                Ok(item) => Ok(
                    if acc.len() > 0 {
                        acc + "\n"@ + item
                    } else {
                        acc + item
                    },
                ),
            },
        }
    }
}

/// A notes value as the lines under its key: a list of notes item by item,
/// anything else as the YAML serializer writes it.
pub open spec fn notes_body(value: FieldView) -> Result<Seq<char>, Seq<char>> {
    match value {
        FieldView::List(items) => note_items(items),
        FieldView::Text(t) => match yaml_rendering(YamlView::Text(t)) {
            Ok(r) => Ok(r),
            Err(()) => Err("render notes"@),
        },
    }
}

/// Each line of a text moved `n` columns right, empty lines left empty, as
/// `str::lines` reads the text.
pub open spec fn indent_lines(text: Seq<char>, n: nat) -> Seq<char> {
    join(lines(text).map_values(|l: Seq<char>| indent_line(l, n)), seq!['\n'])
}

/// A row's `notes` key with its list under it.
pub open spec fn notes_entry(value: FieldView) -> Result<Seq<char>, Seq<char>> {
    match notes_body(value) {
        Err(e) => Err(e),
        Ok(body) => Ok("notes:\n"@ + indent_lines(body, 2)),
    }
}

/// How many line breaks end a text.
fn count_trailing_breaks(s: &[char]) -> (n: usize)
    ensures
        n == trailing_breaks(s@),
        n <= s@.len(),
{
    let mut n: usize = 0;
    let len = s.len();
    assert(s@.take(len as int) == s@);
    while n < len && s[len - 1 - n] == '\n'
        invariant
            n <= len,
            len == s@.len(),
            trailing_breaks(s@) == n + trailing_breaks(s@.take(len - n)),
        decreases len - n,
    {
        proof {
            assert(s@.take(len - n).drop_last() == s@.take(len - n - 1));
        }
        n = n + 1;
    }
    proof {
        lemma_trailing_breaks_le(s@.take(len - n));
    }
    n
}

proof fn lemma_trailing_breaks_le(s: Seq<char>)
    ensures
        trailing_breaks(s) <= s.len(),
        s.len() > 0 && s.last() != '\n' ==> trailing_breaks(s) == 0,
    decreases s.len(),
{
    if s.len() > 0 && s.last() == '\n' {
        lemma_trailing_breaks_le(s.drop_last());
    }
}

/// Whether some line of a text is not empty but only whitespace.
fn any_blank_line(s: &[char]) -> (res: bool)
    ensures
        res == has_blank_line(s@),
{
    let parts = split_at_char(s, '\n');
    let mut k: usize = 0;
    while k < parts.len()
        invariant
            k <= parts@.len(),
            texts(parts@) == split(s@, '\n'),
            forall|j: int| 0 <= j < k ==> !((#[trigger] split(s@, '\n')[j]).len() > 0 && is_blank(split(s@, '\n')[j])),
        decreases parts@.len() - k,
    {
        assert(split(s@, '\n')[k as int] == parts@[k as int]@);
        if parts[k].len() > 0 && blank(parts[k].as_slice()) {
            return true;
        }
        k = k + 1;
    }
    false
}

/// Whether a rendering reads back as exactly one note.
fn reads_back(text: &[char], note: &[char]) -> (res: bool)
    ensures
        res == round_trips(text@, note@),
{
    let t = from_chars(text);
    match read_string_list(t.as_str()) {
        None => false,
        Some(v) => {
            if v.len() != 1 {
                proof {
                    assert(views(v@).len() != 1);
                }
                return false;
            }
            let first = to_chars(v[0].as_str());
            let same = crate::chars::same(first.as_slice(), note);
            proof {
                if same {
                    assert(views(v@) =~= seq![note@]);
                } else {
                    assert(views(v@)[0] != seq![note@][0]);
                }
            }
            same
        },
    }
}

/// One note as a list item.
pub fn item(note: &str) -> (res: Result<Vec<char>, String>)
    ensures
        match res {
            Ok(t) => note_item(note@) == Ok::<Seq<char>, Seq<char>>(t@),
            Err(m) => note_item(note@) == Err::<Seq<char>, Seq<char>>(m@),
        },
{
    let text = String::from_str(note);
    let scalar = match yaml_text(&Yaml::Text(text.clone())) {
        Ok(s) => s,
        Err(()) => {
            return Err(String::from_str("render a note"));
        },
    };
    let json = match json_text(&FieldValue::Text(text)) {
        Ok(j) => j,
        Err(()) => {
            return Err(String::from_str("render a note"));
        },
    };
    let n = to_chars(note);
    let mut escaped = to_chars("- ");
    extend_str(&mut escaped, json.as_str());
    if crate::chars::contains_char(n.as_slice(), '\n') {
        let trailing = count_trailing_breaks(n.as_slice());
        if trailing > 1 || any_blank_line(n.as_slice()) {
            return Ok(escaped);
        }
        let content = crate::chars::slice(n.as_slice(), 0, n.len() - trailing);
        let mut block = to_chars("- |2");
        if trailing == 0 {
            extend_str(&mut block, "-");
        }
        extend_str(&mut block, "\n");
        let body = indent_text(content.as_slice(), 2);
        extend(&mut block, body.as_slice());
        proof {
            assert(content@ == n@.take(n@.len() - trailing));
        }
        if reads_back(block.as_slice(), n.as_slice()) {
            return Ok(block);
        }
        return Ok(escaped);
    }
    let plain = trimmed_end(to_chars(scalar.as_str()).as_slice());
    if plain.len() > 0 && (plain[0] == '\'' || plain[0] == '"') {
        let mut block = to_chars("- >2-\n  ");
        extend(&mut block, n.as_slice());
        if reads_back(block.as_slice(), n.as_slice()) {
            return Ok(block);
        }
        return Ok(escaped);
    }
    let mut out = to_chars("- ");
    extend(&mut out, plain.as_slice());
    Ok(out)
}

/// The notes as list items.
pub fn items(notes: &Vec<String>) -> (res: Result<Vec<char>, String>)
    ensures
        match res {
            Ok(t) => note_items(views(notes@)) == Ok::<Seq<char>, Seq<char>>(t@),
            Err(m) => note_items(views(notes@)) == Err::<Seq<char>, Seq<char>>(m@),
        },
{
    let mut acc: Vec<char> = Vec::new();
    let mut i: usize = 0;
    assert(views(notes@).take(0) =~= Seq::<Seq<char>>::empty());
    while i < notes.len()
        invariant
            i <= notes@.len(),
            note_items(views(notes@).take(i as int)) == Ok::<Seq<char>, Seq<char>>(acc@),
        decreases notes@.len() - i,
    {
        proof {
            assert(views(notes@).take(i + 1).drop_last() == views(notes@).take(i as int));
            assert(views(notes@).take(i + 1).last() == notes@[i as int]@);
        }
        match item(notes[i].as_str()) {
            Ok(t) => {
                let ghost before = acc@;
                if acc.len() > 0 {
                    acc.push('\n');
                }
                extend(&mut acc, t.as_slice());
                proof {
                    if before.len() > 0 {
                        assert(acc@ =~= before + "\n"@ + t@) by {
                            reveal_strlit("\n");
                        }
                    } else {
                        assert(acc@ =~= before + t@);
                    }
                }
            },
            Err(m) => {
                proof {
                    lemma_note_items_err(views(notes@), i as int + 1);
                }
                return Err(m);
            },
        }
        i = i + 1;
    }
    assert(views(notes@).take(notes@.len() as int) == views(notes@));
    Ok(acc)
}

proof fn lemma_note_items_err(notes: Seq<Seq<char>>, k: int)
    requires
        0 <= k <= notes.len(),
        note_items(notes.take(k)) is Err,
    ensures
        note_items(notes) == note_items(notes.take(k)),
    decreases notes.len() - k,
{
    if k < notes.len() {
        assert(notes.take(k + 1).drop_last() == notes.take(k));
        lemma_note_items_err(notes, k + 1);
    } else {
        assert(notes.take(k) == notes);
    }
}

/// Each line of a text moved `n` columns right, as `str::lines` reads it.
pub fn indent_each_line(text: &[char], n: usize) -> (out: Vec<char>)
    ensures
        out@ == indent_lines(text@, n as nat),
{
    let ls = split_lines(text);
    let mut moved: Vec<Vec<char>> = Vec::new();
    let mut i: usize = 0;
    while i < ls.len()
        invariant
            i <= ls@.len(),
            ls@.len() == lines(text@).len(),
            forall|k: int| 0 <= k < ls@.len() ==> (#[trigger] ls@[k])@ == lines(text@)[k],
            moved@.map_values(|v: Vec<char>| v@) == lines(text@).take(i as int).map_values(
                |l: Seq<char>| indent_line(l, n as nat),
            ),
        decreases ls@.len() - i,
    {
        let line = &ls[i];
        let next = if line.len() == 0 {
            Vec::new()
        } else {
            let mut v = crate::document::text::pad(n);
            extend(&mut v, line.as_slice());
            v
        };
        let ghost before = moved@;
        moved.push(next);
        proof {
            assert(next@ == indent_line(lines(text@)[i as int], n as nat));
            assert(moved@.map_values(|v: Vec<char>| v@) =~= before.map_values(|v: Vec<char>| v@).push(next@));
            assert(lines(text@).take(i + 1).map_values(|l: Seq<char>| indent_line(l, n as nat)) =~= lines(text@).take(
                i as int,
            ).map_values(|l: Seq<char>| indent_line(l, n as nat)).push(next@));
        }
        i = i + 1;
    }
    assert(lines(text@).take(ls@.len() as int) == lines(text@));
    let nl = ['\n'];
    assert(nl@ == seq!['\n']);
    crate::chars::join_chars(&moved, nl.as_slice())
}

/// A row's `notes` key with its list under it.
pub fn mapping_entry(value: &FieldValue) -> (res: Result<Vec<char>, String>)
    ensures
        match res {
            Ok(t) => notes_entry(value@) == Ok::<Seq<char>, Seq<char>>(t@),
            Err(m) => notes_entry(value@) == Err::<Seq<char>, Seq<char>>(m@),
        },
{
    let body = match value {
        FieldValue::List(items_list) => match items(items_list) {
            Ok(b) => b,
            Err(m) => {
                return Err(m);
            },
        },
        FieldValue::Text(t) => match yaml_text(&Yaml::Text(t.clone())) {
            Ok(r) => to_chars(r.as_str()),
            Err(()) => {
                return Err(String::from_str("render notes"));
            },
        },
    };
    let mut out = to_chars("notes:\n");
    let moved = indent_each_line(body.as_slice(), 2);
    extend(&mut out, moved.as_slice());
    Ok(out)
}

} // verus!
