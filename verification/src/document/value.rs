//! How a value is written into a ledger: a list rewritten in the style its old
//! value used, a new key added to a row, a new row appended to a list.

use crate::chars::{
    extend, extend_str, from_chars, has_prefix, is_blank, join, join_chars, line_start, lines, slice, split_lines,
    start_of_line, starts_with, texts, to_chars, trim, trim_end, trim_start, trimmed, trimmed_end, trimmed_start,
    views, ws_prefix_len, leading_ws, blank,
};
use crate::document::notes::{
    indent_each_line, indent_lines, items as note_list, mapping_entry as notes_mapping_entry, note_items, notes_entry,
};
use crate::document::render::{
    entry_views, json_rendering, json_text, yaml_rendering, yaml_text, FieldValue, FieldView, Yaml, YamlView,
};
use crate::document::text::{indent_line, pad, spaces};
use vstd::prelude::*;

verus! {

/// A rendered line under a key: a list item moves two columns right.
pub open spec fn nested_line(l: Seq<char>) -> Seq<char> {
    if starts_with(trim_start(l), "- "@) {
        "  "@ + l
    } else {
        l
    }
}

/// A rendering with its list items indented under their key.
pub open spec fn nested(rendered: Seq<char>) -> Seq<char> {
    join(lines(trim_end(rendered)).map_values(|l: Seq<char>| nested_line(l)), seq!['\n'])
}

/// A rendering with its list items indented under their key.
pub fn indent_nested_lists(rendered: &[char]) -> (out: Vec<char>)
    ensures
        out@ == nested(rendered@),
{
    let t = trimmed_end(rendered);
    let ls = split_lines(t.as_slice());
    let mut moved: Vec<Vec<char>> = Vec::new();
    let mut i: usize = 0;
    let dash = ['-', ' '];
    assert(dash@ == "- "@) by {
        reveal_strlit("- ");
    }
    while i < ls.len()
        invariant
            i <= ls@.len(),
            dash@ == "- "@,
            ls@.len() == lines(t@).len(),
            forall|k: int| 0 <= k < ls@.len() ==> (#[trigger] ls@[k])@ == lines(t@)[k],
            moved@.map_values(|v: Vec<char>| v@) == lines(t@).take(i as int).map_values(|l: Seq<char>| nested_line(l)),
        decreases ls@.len() - i,
    {
        let line = &ls[i];
        let front = trimmed_start(line.as_slice());
        let next = if has_prefix(front.as_slice(), dash.as_slice()) {
            let mut v = to_chars("  ");
            extend(&mut v, line.as_slice());
            v
        } else {
            line.clone()
        };
        let ghost before = moved@;
        moved.push(next);
        proof {
            assert(next@ == nested_line(lines(t@)[i as int]));
            assert(moved@.map_values(|v: Vec<char>| v@) =~= before.map_values(|v: Vec<char>| v@).push(next@));
            assert(lines(t@).take(i + 1).map_values(|l: Seq<char>| nested_line(l)) =~= lines(t@).take(i as int).map_values(
                |l: Seq<char>| nested_line(l),
            ).push(next@));
        }
        i = i + 1;
    }
    assert(lines(t@).take(ls@.len() as int) == lines(t@));
    let nl = ['\n'];
    assert(nl@ == seq!['\n']);
    join_chars(&moved, nl.as_slice())
}

/// A key and its value as lines to add to a row: `notes` as its list of
/// notes, anything else as the serializer writes a one-key mapping.
pub open spec fn entry_text(key: Seq<char>, value: FieldView) -> Result<Seq<char>, Seq<char>> {
    if key == "notes"@ {
        notes_entry(value)
    } else {
        match yaml_rendering(YamlView::Mapping(seq![(key, value)])) {
            Err(()) => Err("render "@ + key),
            Ok(r) => Ok(nested(r)),
        }
    }
}

/// A key and its value as lines to add to a row.
pub fn mapping_entry(key: &str, value: &FieldValue) -> (res: Result<Vec<char>, String>)
    ensures
        match res {
            Ok(t) => entry_text(key@, value@) == Ok::<Seq<char>, Seq<char>>(t@),
            Err(m) => entry_text(key@, value@) == Err::<Seq<char>, Seq<char>>(m@),
        },
{
    if crate::chars::same_str(key, "notes") {
        return notes_mapping_entry(value);
    }
    let copy = match value {
        FieldValue::Text(t) => FieldValue::Text(t.clone()),
        FieldValue::List(l) => FieldValue::List(crate::edit::lists::copy_strings(l)),
    };
    let entries = vec![(String::from_str(key), copy)];
    proof {
        assert(entry_views(entries@) =~= seq![(key@, value@)]);
    }
    match yaml_text(&Yaml::Mapping(entries)) {
        Ok(r) => Ok(indent_nested_lists(to_chars(r.as_str()).as_slice())),
        Err(()) => {
            let mut m = to_chars("render ");
            extend_str(&mut m, key);
            Err(from_chars(m.as_slice()))
        },
    }
}

/// Where a row's `notes` list sits among its entries, if it has one.
pub open spec fn notes_at(entries: Seq<(Seq<char>, FieldView)>) -> Option<int>
    decreases entries.len(),
{
    if entries.len() == 0 {
        None
    } else {
        match notes_at(entries.drop_last()) {
            Some(k) => Some(k),
            None => if entries.last().0 == "notes"@ {
                Some(entries.len() - 1)
            } else {
                None
            },
        }
    }
}

/// The entries without entry `k`, the last one taking its place, as
/// `Mapping::remove` leaves them.
pub open spec fn swap_removed<T>(entries: Seq<T>, k: int) -> Seq<T> {
    if k == entries.len() - 1 {
        entries.drop_last()
    } else {
        entries.update(k, entries.last()).drop_last()
    }
}

/// A new row as a list item: the serializer's mapping behind `- `, its lines
/// aligned under the first, with a `notes` list written note by note after
/// the rest.
pub open spec fn row_item(mapping: Seq<char>, entries: Seq<(Seq<char>, FieldView)>) -> Result<Seq<char>, Seq<char>> {
    let at = notes_at(entries);
    let listed = at is Some && entries[at->0].1 is List;
    let body = if listed {
        match yaml_rendering(YamlView::Mapping(swap_removed(entries, at->0))) {
            Ok(r) => Ok(r),
            Err(()) => Err("render the row without notes"@),
        }
    } else {
        Ok(mapping)
    };
    match body {
        Err(e) => Err(e),
        Ok(b) => {
            let ls = lines(nested(b));
            if ls.len() == 0 {
                Ok(Seq::empty())
            } else {
                let row = "- "@ + ls[0] + continued(ls.skip(1));
                if listed {
                    match notes_entry(entries[at->0].1) {
                        Err(e) => Err(e),
                        Ok(n) => Ok(row + "\n"@ + join(lines(n).map_values(|l: Seq<char>| "  "@ + l), seq!['\n'])),
                    }
                } else {
                    Ok(row)
                }
            }
        },
    }
}

/// Lines continuing a list item, each on a new line two columns in.
pub open spec fn continued(ls: Seq<Seq<char>>) -> Seq<char>
    decreases ls.len(),
{
    if ls.len() == 0 {
        Seq::empty()
    } else {
        continued(ls.drop_last()) + "\n  "@ + ls.last()
    }
}

/// A new row as a list item.
pub fn sequence_item(mapping: &str, entries: &Vec<(String, FieldValue)>) -> (res: Result<Vec<char>, String>)
    ensures
        match res {
            Ok(t) => row_item(mapping@, entry_views(entries@)) == Ok::<Seq<char>, Seq<char>>(t@),
            Err(m) => row_item(mapping@, entry_views(entries@)) == Err::<Seq<char>, Seq<char>>(m@),
        },
{
    let ghost ev = entry_views(entries@);
    let mut at: Option<usize> = None;
    let mut i: usize = 0;
    assert(ev.take(0) =~= Seq::<(Seq<char>, FieldView)>::empty());
    while i < entries.len()
        invariant
            i <= entries@.len(),
            ev == entry_views(entries@),
            notes_at(ev.take(i as int)) == match at {
                Some(k) => Some(k as int),
                None => None::<int>,
            },
            match at {
                Some(k) => k < i,
                None => true,
            },
        decreases entries@.len() - i,
    {
        proof {
            assert(ev.take(i + 1).drop_last() == ev.take(i as int));
            assert(ev.take(i + 1).last() == ev[i as int]);
        }
        if at.is_none() && crate::chars::same_str(entries[i].0.as_str(), "notes") {
            at = Some(i);
        }
        i = i + 1;
    }
    assert(ev.take(entries@.len() as int) == ev);
    let listed = match at {
        Some(k) => match &entries[k].1 {
            FieldValue::List(_) => true,
            FieldValue::Text(_) => false,
        },
        None => false,
    };
    let body = if listed {
        let k = match at {
            Some(k) => k,
            None => 0,
        };
        let mut rest: Vec<(String, FieldValue)> = Vec::new();
        let n = entries.len();
        let mut j: usize = 0;
        while j + 1 < n
            invariant
                k < n,
                n == entries@.len(),
                j + 1 <= n,
                ev == entry_views(entries@),
                entry_views(rest@) == swap_removed(ev, k as int).take(j as int),
            decreases n - j,
        {
            let source = if j == k {
                n - 1
            } else {
                j
            };
            let copy = match &entries[source].1 {
                FieldValue::Text(t) => FieldValue::Text(t.clone()),
                FieldValue::List(l) => FieldValue::List(crate::edit::lists::copy_strings(l)),
            };
            let ghost before = rest@;
            rest.push((entries[source].0.clone(), copy));
            proof {
                assert(entry_views(rest@) =~= entry_views(before).push(ev[source as int]));
                assert(swap_removed(ev, k as int)[j as int] == ev[source as int]);
                assert(swap_removed(ev, k as int).take(j + 1) =~= swap_removed(ev, k as int).take(j as int).push(
                    ev[source as int],
                ));
            }
            j = j + 1;
        }
        assert(swap_removed(ev, k as int).take(j as int) =~= swap_removed(ev, k as int));
        match yaml_text(&Yaml::Mapping(rest)) {
            Ok(r) => to_chars(r.as_str()),
            Err(()) => {
                return Err(String::from_str("render the row without notes"));
            },
        }
    } else {
        to_chars(mapping)
    };
    let written = indent_nested_lists(body.as_slice());
    let ls = split_lines(written.as_slice());
    if ls.len() == 0 {
        return Ok(Vec::new());
    }
    let mut row = to_chars("- ");
    extend(&mut row, ls[0].as_slice());
    let mut more: Vec<char> = Vec::new();
    let mut k: usize = 1;
    while k < ls.len()
        invariant
            1 <= k <= ls@.len(),
            ls@.len() == lines(written@).len(),
            forall|m: int| 0 <= m < ls@.len() ==> (#[trigger] ls@[m])@ == lines(written@)[m],
            more@ == continued(lines(written@).skip(1).take(k - 1)),
        decreases ls@.len() - k,
    {
        extend_str(&mut more, "\n  ");
        extend(&mut more, ls[k].as_slice());
        proof {
            let t = lines(written@).skip(1);
            assert(t.take(k as int).drop_last() == t.take(k - 1));
            assert(t.take(k as int).last() == ls@[k as int]@);
        }
        k = k + 1;
    }
    assert(lines(written@).skip(1).take(ls@.len() - 1) == lines(written@).skip(1));
    extend(&mut row, more.as_slice());
    if !listed {
        return Ok(row);
    }
    let k = match at {
        Some(k) => k,
        None => 0,
    };
    let entry = match notes_mapping_entry(&entries[k].1) {
        Ok(e) => e,
        Err(m) => {
            return Err(m);
        },
    };
    let nls = split_lines(entry.as_slice());
    let mut padded: Vec<Vec<char>> = Vec::new();
    let mut m: usize = 0;
    while m < nls.len()
        invariant
            m <= nls@.len(),
            nls@.len() == lines(entry@).len(),
            forall|q: int| 0 <= q < nls@.len() ==> (#[trigger] nls@[q])@ == lines(entry@)[q],
            padded@.map_values(|v: Vec<char>| v@) == lines(entry@).take(m as int).map_values(|l: Seq<char>| "  "@ + l),
        decreases nls@.len() - m,
    {
        let mut v = to_chars("  ");
        extend(&mut v, nls[m].as_slice());
        let ghost before = padded@;
        padded.push(v);
        proof {
            assert(padded@.map_values(|v: Vec<char>| v@) =~= before.map_values(|v: Vec<char>| v@).push(
                "  "@ + lines(entry@)[m as int],
            ));
            assert(lines(entry@).take(m + 1).map_values(|l: Seq<char>| "  "@ + l) =~= lines(entry@).take(m as int).map_values(
                |l: Seq<char>| "  "@ + l,
            ).push("  "@ + lines(entry@)[m as int]));
        }
        m = m + 1;
    }
    assert(lines(entry@).take(nls@.len() as int) == lines(entry@));
    let nl = ['\n'];
    assert(nl@ == seq!['\n']);
    let joined = join_chars(&padded, nl.as_slice());
    row.push('\n');
    extend(&mut row, joined.as_slice());
    proof {
        assert(row@ =~= "- "@ + lines(written@)[0] + continued(lines(written@).skip(1)) + "\n"@ + joined@) by {
            reveal_strlit("\n");
        }
    }
    Ok(row)
}


/// The lines of a block scalar grouped into paragraphs: the groups still open
/// and those closed by a blank line, as the lines so far leave them.
pub open spec fn groups(ls: Seq<Seq<char>>) -> (Seq<Seq<Seq<char>>>, Seq<Seq<char>>)
    decreases ls.len(),
{
    if ls.len() == 0 {
        (Seq::empty(), Seq::empty())
    } else {
        let (done, current) = groups(ls.drop_last());
        if is_blank(ls.last()) {
            (
                if current.len() > 0 {
                    done.push(current)
                } else {
                    done
                },
                Seq::empty(),
            )
        } else {
            (done, current.push(ls.last()))
        }
    }
}

/// The paragraphs of a block scalar's lines: runs of lines between blank
/// lines, none of them empty.
pub open spec fn paragraphs(ls: Seq<Seq<char>>) -> Seq<Seq<Seq<char>>> {
    let (done, current) = groups(ls);
    if current.len() > 0 {
        done.push(current)
    } else {
        done
    }
}

/// The least indentation of the lines that are not blank, if any is not.
pub open spec fn min_depth(ls: Seq<Seq<char>>) -> Option<nat>
    decreases ls.len(),
{
    if ls.len() == 0 {
        None
    } else {
        let rest = min_depth(ls.drop_last());
        if is_blank(ls.last()) {
            rest
        } else {
            let d = ws_prefix_len(ls.last());
            match rest {
                None => Some(d),
                Some(r) => Some(if r <= d { r } else { d }),
            }
        }
    }
}

/// One paragraph line moved to sit under a new list item.
pub open spec fn shifted(line: Seq<char>, depth: nat) -> Seq<char> {
    if depth <= line.len() {
        line.skip(depth as int)
    } else {
        trim_start(line)
    }
}

/// A paragraph's lines, each on a new line at `pad`.
pub open spec fn para_lines(lines: Seq<Seq<char>>, depth: nat, pad: nat) -> Seq<char>
    decreases lines.len(),
{
    if lines.len() == 0 {
        Seq::empty()
    } else {
        para_lines(lines.drop_last(), depth, pad) + "\n"@ + spaces(pad) + shifted(lines.last(), depth)
    }
}

/// Paragraphs as list items, each a block scalar under the old indicator.
pub open spec fn para_items(paras: Seq<Seq<Seq<char>>>, indicator: Seq<char>, depth: nat, key_indent: nat) -> Seq<char>
    decreases paras.len(),
{
    if paras.len() == 0 {
        Seq::empty()
    } else {
        para_items(paras.drop_last(), indicator, depth, key_indent) + "\n"@ + spaces(key_indent + 2) + "- "@
            + indicator + para_lines(paras.last(), depth, key_indent + 4)
    }
}

/// A block scalar rewritten as a list of block scalars, one per paragraph,
/// when its paragraphs are exactly as many as the new items.
pub open spec fn block_sequence(source: Seq<char>, from: int, to: int, count: nat) -> Option<Seq<char>> {
    let ls = lines(trim_start(source.subrange(from, to)));
    if ls.len() == 0 {
        None
    } else {
        let indicator = trim(ls[0]);
        if !(indicator.len() > 0 && (indicator[0] == '>' || indicator[0] == '|')) {
            None
        } else {
            let body = ls.skip(1);
            match min_depth(body) {
                None => None,
                Some(depth) => {
                    let paras = paragraphs(body);
                    if paras.len() != count {
                        None
                    } else {
                        let key_indent = ws_prefix_len(source.subrange(line_start(source, from), from));
                        Some(para_items(paras, indicator, depth, key_indent))
                    }
                },
            }
        }
    }
}

/// How the serializer writes each item on its own.
pub open spec fn item_renderings(items: Seq<Seq<char>>) -> Result<Seq<Seq<char>>, ()>
    decreases items.len(),
{
    if items.len() == 0 {
        Ok(Seq::empty())
    } else {
        match item_renderings(items.drop_last()) {
            Err(()) => Err(()),
            Ok(rs) => match yaml_rendering(YamlView::Text(items.last())) {
                Err(()) => Err(()),
                Ok(r) => Ok(rs.push(r)),
            },
        }
    }
}

/// Notes written note by note where a list value stood at
/// `source[from..to]`: in place of a block list, at its column; in place of
/// anything else, as a block list on the lines under the key.
pub open spec fn notes_placed(source: Seq<char>, from: int, to: int, body: Seq<char>) -> Seq<char> {
    let was = trim_start(source.subrange(from, to));
    let prefix = source.subrange(line_start(source, from), from);
    if starts_with(was, seq!['-']) {
        trim_start(indent_lines(body, prefix.len()))
    } else {
        "\n"@ + indent_lines(body, ws_prefix_len(prefix) + 2)
    }
}

/// A list of strings written where a list value stood at `source[from..to]`,
/// in the style that value had: a block scalar's paragraphs become block
/// scalar items, a flow list stays a flow list, and a block list or a scalar
/// becomes a block list under the key. A row's `notes` keep a block scalar's
/// or a flow list's style where it can hold them; otherwise they are written
/// note by note, as a new row writes them.
pub open spec fn list_text(source: Seq<char>, from: int, to: int, items: Seq<Seq<char>>, notes: bool) -> Result<Seq<char>, Seq<char>> {
    let was = trim_start(source.subrange(from, to));
    match block_sequence(source, from, to, items.len()) {
        Some(r) => Ok(r),
        None => if starts_with(was, seq!['[']) {
            match item_renderings(items) {
                Err(()) => Err("render a flow-sequence item"@),
                Ok(rs) => if forall|k: int| 0 <= k < rs.len() ==> !trim_end(#[trigger] rs[k]).contains('\n') {
                    Ok("["@ + join(rs.map_values(|r: Seq<char>| trim_end(r)), ", "@) + "]"@)
                } else if notes {
                    match note_items(items) {
                        Err(e) => Err(e),
                        Ok(body) => Ok(notes_placed(source, from, to, body)),
                    }
                } else {
                    match json_rendering(FieldView::List(items)) {
                        Ok(j) => Ok(j),
                        Err(()) => Err("render a flow sequence"@),
                    }
                },
            }
        } else if notes {
            match note_items(items) {
                Err(e) => Err(e),
                Ok(body) => Ok(notes_placed(source, from, to, body)),
            }
        } else {
            match yaml_rendering(YamlView::List(items)) {
                Err(()) => Err("render a block sequence"@),
                Ok(rendered) => {
                    let prefix = source.subrange(line_start(source, from), from);
                    let existing = starts_with(was, seq!['-']);
                    let indent = if existing {
                        prefix.len()
                    } else {
                        ws_prefix_len(prefix) + 2
                    };
                    let written = join(
                        lines(trim_end(rendered)).map_values(|l: Seq<char>| spaces(indent) + l),
                        seq!['\n'],
                    );
                    Ok(
                        if existing {
                            trim_start(written)
                        } else {
                            "\n"@ + written
                        },
                    )
                },
            }
        },
    }
}


/// The paragraphs of some lines, and their least indentation.
fn paragraphs_of(ls: &Vec<Vec<char>>) -> (res: (Vec<Vec<Vec<char>>>, Option<usize>))
    ensures
        res.0@.map_values(|p: Vec<Vec<char>>| texts(p@)) == paragraphs(texts(ls@)),
        match res.1 {
            Some(d) => min_depth(texts(ls@)) == Some(d as nat),
            None => min_depth(texts(ls@)) is None,
        },
{
    let ghost tl = texts(ls@);
    let mut done: Vec<Vec<Vec<char>>> = Vec::new();
    let mut current: Vec<Vec<char>> = Vec::new();
    let mut depth: Option<usize> = None;
    let mut i: usize = 0;
    assert(tl.take(0) =~= Seq::<Seq<char>>::empty());
    while i < ls.len()
        invariant
            i <= ls@.len(),
            tl == texts(ls@),
            groups(tl.take(i as int)) == (done@.map_values(|p: Vec<Vec<char>>| texts(p@)), texts(current@)),
            match depth {
                Some(d) => min_depth(tl.take(i as int)) == Some(d as nat),
                None => min_depth(tl.take(i as int)) is None,
            },
        decreases ls@.len() - i,
    {
        proof {
            assert(tl.take(i + 1).drop_last() == tl.take(i as int));
            assert(tl.take(i + 1).last() == ls@[i as int]@);
        }
        let line = &ls[i];
        if blank(line.as_slice()) {
            if current.len() > 0 {
                let ghost before = done@;
                let closed = current;
                current = Vec::new();
                done.push(closed);
                proof {
                    assert(done@.map_values(|p: Vec<Vec<char>>| texts(p@)) =~= before.map_values(
                        |p: Vec<Vec<char>>| texts(p@),
                    ).push(texts(closed@)));
                }
            } else {
                current = Vec::new();
            }
            proof {
                assert(texts(current@) =~= Seq::<Seq<char>>::empty());
            }
        } else {
            let ghost before = current@;
            current.push(line.clone());
            proof {
                assert(texts(current@) =~= texts(before).push(line@));
            }
            let d = leading_ws(line.as_slice());
            depth = match depth {
                None => Some(d),
                Some(r) => Some(if r <= d { r } else { d }),
            };
        }
        i = i + 1;
    }
    assert(tl.take(ls@.len() as int) == tl);
    if current.len() > 0 {
        let ghost before = done@;
        let ghost last = texts(current@);
        done.push(current);
        proof {
            assert(done@.map_values(|p: Vec<Vec<char>>| texts(p@)) =~= before.map_values(|p: Vec<Vec<char>>| texts(p@)).push(
                last,
            ));
        }
    }
    (done, depth)
}

/// A block scalar rewritten as one block scalar item per paragraph, when the
/// counts agree.
fn block_sequence_of(source: &[char], from: usize, to: usize, count: usize) -> (res: Option<Vec<char>>)
    requires
        from <= to <= source@.len(),
    ensures
        match res {
            Some(t) => block_sequence(source@, from as int, to as int, count as nat) == Some(t@),
            None => block_sequence(source@, from as int, to as int, count as nat) is None,
        },
{
    let value = slice(source, from, to);
    let front = trimmed_start(value.as_slice());
    let ls = split_lines(front.as_slice());
    proof {
        assert(texts(ls@) =~= lines(front@));
    }
    if ls.len() == 0 {
        return None;
    }
    let indicator = trimmed(ls[0].as_slice());
    if !(indicator.len() > 0 && (indicator[0] == '>' || indicator[0] == '|')) {
        return None;
    }
    let mut body: Vec<Vec<char>> = Vec::new();
    let mut i: usize = 1;
    while i < ls.len()
        invariant
            1 <= i <= ls@.len(),
            texts(body@) == texts(ls@).subrange(1, i as int),
        decreases ls@.len() - i,
    {
        body.push(ls[i].clone());
        proof {
            assert(texts(ls@).subrange(1, i + 1) =~= texts(ls@).subrange(1, i as int).push(ls@[i as int]@));
        }
        i = i + 1;
    }
    proof {
        assert(texts(ls@).subrange(1, ls@.len() as int) =~= lines(front@).skip(1));
    }
    let (paras, depth) = paragraphs_of(&body);
    let depth = match depth {
        None => {
            return None;
        },
        Some(d) => d,
    };
    if paras.len() != count {
        return None;
    }
    let ls_start = start_of_line(source, from);
    proof {
        crate::chars::lemma_line_start(source@, from as int);
    }
    let prefix = slice(source, ls_start, from);
    let key_indent = leading_ws(prefix.as_slice());
    proof {
        crate::chars::lemma_ws_prefix_len(prefix@);
    }
    let ghost pv = paras@.map_values(|p: Vec<Vec<char>>| texts(p@));
    let mut out: Vec<char> = Vec::new();
    let mut k: usize = 0;
    assert(pv.take(0) =~= Seq::<Seq<Seq<char>>>::empty());
    while k < paras.len()
        invariant
            k <= paras@.len(),
            key_indent <= source@.len(),
            pv == paras@.map_values(|p: Vec<Vec<char>>| texts(p@)),
            out@ == para_items(pv.take(k as int), indicator@, depth as nat, key_indent as nat),
        decreases paras@.len() - k,
    {
        proof {
            assert(pv.take(k + 1).drop_last() == pv.take(k as int));
            assert(pv.take(k + 1).last() == texts(paras@[k as int]@));
        }
        out.push('\n');
        let mut item_pad = pad(key_indent);
        extend_str(&mut item_pad, "  ");
        proof {
            assert(item_pad@ =~= spaces((key_indent + 2) as nat)) by {
                reveal_strlit("  ");
            }
        }
        extend(&mut out, item_pad.as_slice());
        extend_str(&mut out, "- ");
        extend(&mut out, indicator.as_slice());
        let para = &paras[k];
        let mut body_text: Vec<char> = Vec::new();
        let mut j: usize = 0;
        let ghost lines_here = texts(para@);
        assert(lines_here.take(0) =~= Seq::<Seq<char>>::empty());
        while j < para.len()
            invariant
                j <= para@.len(),
                key_indent <= source@.len(),
                lines_here == texts(para@),
                body_text@ == para_lines(lines_here.take(j as int), depth as nat, (key_indent + 4) as nat),
            decreases para@.len() - j,
        {
            proof {
                assert(lines_here.take(j + 1).drop_last() == lines_here.take(j as int));
                assert(lines_here.take(j + 1).last() == para@[j as int]@);
            }
            body_text.push('\n');
            let mut content_pad = pad(key_indent);
            extend_str(&mut content_pad, "    ");
            proof {
                assert(content_pad@ =~= spaces((key_indent + 4) as nat)) by {
                    reveal_strlit("    ");
                }
            }
            extend(&mut body_text, content_pad.as_slice());
            let line = &para[j];
            if depth <= line.len() {
                let rest = slice(line.as_slice(), depth, line.len());
                extend(&mut body_text, rest.as_slice());
            } else {
                let rest = trimmed_start(line.as_slice());
                extend(&mut body_text, rest.as_slice());
            }
            proof {
                reveal_strlit("\n");
            }
            j = j + 1;
        }
        assert(lines_here.take(para@.len() as int) == lines_here);
        extend(&mut out, body_text.as_slice());
        proof {
            reveal_strlit("\n");
            reveal_strlit("- ");
        }
        k = k + 1;
    }
    assert(pv.take(paras@.len() as int) == pv);
    Some(out)
}


/// Every line of a text, as `str::lines` reads it, behind `padding`.
fn pad_lines(text: &[char], padding: &[char]) -> (out: Vec<char>)
    ensures
        out@ == join(lines(text@).map_values(|l: Seq<char>| padding@ + l), seq!['\n']),
{
    let ls = split_lines(text);
    let mut moved: Vec<Vec<char>> = Vec::new();
    let mut i: usize = 0;
    while i < ls.len()
        invariant
            i <= ls@.len(),
            ls@.len() == lines(text@).len(),
            forall|k: int| 0 <= k < ls@.len() ==> (#[trigger] ls@[k])@ == lines(text@)[k],
            moved@.map_values(|v: Vec<char>| v@) == lines(text@).take(i as int).map_values(|l: Seq<char>| padding@ + l),
        decreases ls@.len() - i,
    {
        let mut v: Vec<char> = Vec::new();
        extend(&mut v, padding);
        extend(&mut v, ls[i].as_slice());
        let ghost before = moved@;
        moved.push(v);
        proof {
            assert(moved@.map_values(|v: Vec<char>| v@) =~= before.map_values(|v: Vec<char>| v@).push(
                padding@ + lines(text@)[i as int],
            ));
            assert(lines(text@).take(i + 1).map_values(|l: Seq<char>| padding@ + l) =~= lines(text@).take(i as int).map_values(
                |l: Seq<char>| padding@ + l,
            ).push(padding@ + lines(text@)[i as int]));
        }
        i = i + 1;
    }
    assert(lines(text@).take(ls@.len() as int) == lines(text@));
    let nl = ['\n'];
    assert(nl@ == seq!['\n']);
    join_chars(&moved, nl.as_slice())
}

proof fn lemma_item_renderings_err(items: Seq<Seq<char>>, k: int)
    requires
        0 <= k <= items.len(),
        item_renderings(items.take(k)) is Err,
    ensures
        item_renderings(items) is Err,
    decreases items.len() - k,
{
    if k < items.len() {
        assert(items.take(k + 1).drop_last() == items.take(k));
        lemma_item_renderings_err(items, k + 1);
    } else {
        assert(items.take(k) == items);
    }
}

/// Every line of a text that is not empty, as `str::lines` reads it, behind
/// `padding`.
fn pad_filled_lines(text: &[char], padding: &[char]) -> (out: Vec<char>)
    ensures
        out@ == join(lines(text@).map_values(|l: Seq<char>| if l.len() == 0 { l } else { padding@ + l }), seq!['\n']),
{
    let ls = split_lines(text);
    let mut moved: Vec<Vec<char>> = Vec::new();
    let mut i: usize = 0;
    while i < ls.len()
        invariant
            i <= ls@.len(),
            ls@.len() == lines(text@).len(),
            forall|k: int| 0 <= k < ls@.len() ==> (#[trigger] ls@[k])@ == lines(text@)[k],
            moved@.map_values(|v: Vec<char>| v@) == lines(text@).take(i as int).map_values(
                |l: Seq<char>| if l.len() == 0 { l } else { padding@ + l },
            ),
        decreases ls@.len() - i,
    {
        let mut v: Vec<char> = Vec::new();
        if ls[i].len() > 0 {
            extend(&mut v, padding);
        }
        extend(&mut v, ls[i].as_slice());
        let ghost before = moved@;
        moved.push(v);
        proof {
            let l = lines(text@)[i as int];
            assert(v@ == (if l.len() == 0 { l } else { padding@ + l }));
            assert(moved@.map_values(|v: Vec<char>| v@) =~= before.map_values(|v: Vec<char>| v@).push(v@));
            assert(lines(text@).take(i + 1).map_values(|l: Seq<char>| if l.len() == 0 { l } else { padding@ + l })
                =~= lines(text@).take(i as int).map_values(
                |l: Seq<char>| if l.len() == 0 { l } else { padding@ + l },
            ).push(v@));
        }
        i = i + 1;
    }
    assert(lines(text@).take(ls@.len() as int) == lines(text@));
    let nl = ['\n'];
    assert(nl@ == seq!['\n']);
    join_chars(&moved, nl.as_slice())
}

/// Notes written note by note where a list value stood at `source[from..to]`.
fn place_notes(source: &[char], from: usize, to: usize, body: &[char]) -> (out: Vec<char>)
    requires
        from <= to <= source@.len(),
    ensures
        out@ == notes_placed(source@, from as int, to as int, body@),
{
    let value = slice(source, from, to);
    let was = trimmed_start(value.as_slice());
    proof {
        crate::chars::lemma_starts_with_char(was@, '-');
        crate::chars::lemma_line_start(source@, from as int);
    }
    let ls_start = start_of_line(source, from);
    let prefix = slice(source, ls_start, from);
    if was.len() > 0 && was[0] == '-' {
        let moved = indent_each_line(body, prefix.len());
        trimmed_start(moved.as_slice())
    } else {
        let ws = leading_ws(prefix.as_slice());
        let mut padding = pad(ws);
        extend_str(&mut padding, "  ");
        proof {
            assert(padding@ =~= spaces((ws + 2) as nat)) by {
                reveal_strlit("  ");
            }
        }
        let moved = pad_filled_lines(body, padding.as_slice());
        proof {
            assert(lines(body@).map_values(|l: Seq<char>| indent_line(l, (ws + 2) as nat)) =~= lines(body@).map_values(
                |l: Seq<char>| if l.len() == 0 { l } else { padding@ + l },
            ));
        }
        let mut out = to_chars("\n");
        extend(&mut out, moved.as_slice());
        out
    }
}

/// A list of strings written where a list value stood at `source[from..to]`,
/// in the style that value had; a row's `notes` note by note where that style
/// cannot hold them.
#[verifier::loop_isolation(false)]
pub fn sequence_like(source: &[char], from: usize, to: usize, items: &Vec<String>, notes: bool) -> (res: Result<Vec<char>, String>)
    requires
        from <= to <= source@.len(),
    ensures
        match res {
            Ok(t) => list_text(source@, from as int, to as int, views(items@), notes) == Ok::<Seq<char>, Seq<char>>(t@),
            Err(m) => list_text(source@, from as int, to as int, views(items@), notes) == Err::<Seq<char>, Seq<char>>(m@),
        },
{
    match block_sequence_of(source, from, to, items.len()) {
        Some(r) => {
            return Ok(r);
        },
        None => {},
    }
    let value = slice(source, from, to);
    let was = trimmed_start(value.as_slice());
    proof {
        crate::chars::lemma_starts_with_char(was@, '[');
        crate::chars::lemma_starts_with_char(was@, '-');
    }
    if was.len() > 0 && was[0] == '[' {
        let mut rs: Vec<Vec<char>> = Vec::new();
        let mut i: usize = 0;
        assert(views(items@).take(0) =~= Seq::<Seq<char>>::empty());
        assert(texts(rs@) =~= Seq::<Seq<char>>::empty());
        while i < items.len()
            invariant
                i <= items@.len(),
                item_renderings(views(items@).take(i as int)) == Ok::<Seq<Seq<char>>, ()>(texts(rs@)),
            decreases items@.len() - i,
        {
            proof {
                assert(views(items@).take(i + 1).drop_last() == views(items@).take(i as int));
                assert(views(items@).take(i + 1).last() == items@[i as int]@);
            }
            match yaml_text(&Yaml::Text(items[i].clone())) {
                Ok(r) => {
                    let ghost before = rs@;
                    rs.push(to_chars(r.as_str()));
                    proof {
                        assert(texts(rs@) =~= texts(before).push(r@));
                    }
                },
                Err(()) => {
                    proof {
                        lemma_item_renderings_err(views(items@), i as int + 1);
                    }
                    return Err(String::from_str("render a flow-sequence item"));
                },
            }
            i = i + 1;
        }
        assert(views(items@).take(items@.len() as int) == views(items@));
        let mut trimmed_items: Vec<Vec<char>> = Vec::new();
        let mut single = true;
        let mut k: usize = 0;
        while k < rs.len()
            invariant
                k <= rs@.len(),
                trimmed_items@.map_values(|v: Vec<char>| v@) == texts(rs@).take(k as int).map_values(
                    |r: Seq<char>| trim_end(r),
                ),
                single == forall|j: int| 0 <= j < k ==> !trim_end(#[trigger] texts(rs@)[j]).contains('\n'),
            decreases rs@.len() - k,
        {
            let t = trimmed_end(rs[k].as_slice());
            let breaks = crate::chars::contains_char(t.as_slice(), '\n');
            proof {
                assert(texts(rs@)[k as int] == rs@[k as int]@);
                if !single {
                    let j = choose|j: int| 0 <= j < k && trim_end(#[trigger] texts(rs@)[j]).contains('\n');
                }
            }
            if breaks {
                single = false;
            }
            let ghost before = trimmed_items@;
            trimmed_items.push(t);
            proof {
                assert(trimmed_items@.map_values(|v: Vec<char>| v@) =~= before.map_values(|v: Vec<char>| v@).push(
                    trim_end(texts(rs@)[k as int]),
                ));
                assert(texts(rs@).take(k + 1).map_values(|r: Seq<char>| trim_end(r)) =~= texts(rs@).take(k as int).map_values(
                    |r: Seq<char>| trim_end(r),
                ).push(trim_end(texts(rs@)[k as int])));
            }
            k = k + 1;
        }
        assert(texts(rs@).take(rs@.len() as int) == texts(rs@));
        if single {
            let sep = to_chars(", ");
            let joined = join_chars(&trimmed_items, sep.as_slice());
            let mut out = to_chars("[");
            extend(&mut out, joined.as_slice());
            extend_str(&mut out, "]");
            return Ok(out);
        }
        if notes {
            return match note_list(items) {
                Ok(body) => Ok(place_notes(source, from, to, body.as_slice())),
                Err(m) => Err(m),
            };
        }
        let copy = crate::edit::lists::copy_strings(items);
        return match json_text(&FieldValue::List(copy)) {
            Ok(j) => Ok(to_chars(j.as_str())),
            Err(()) => Err(String::from_str("render a flow sequence")),
        };
    }
    if notes {
        return match note_list(items) {
            Ok(body) => Ok(place_notes(source, from, to, body.as_slice())),
            Err(m) => Err(m),
        };
    }
    let copy = crate::edit::lists::copy_strings(items);
    let rendered = match yaml_text(&Yaml::List(copy)) {
        Ok(r) => to_chars(r.as_str()),
        Err(()) => {
            return Err(String::from_str("render a block sequence"));
        },
    };
    let ls_start = start_of_line(source, from);
    proof {
        crate::chars::lemma_line_start(source@, from as int);
    }
    let prefix = slice(source, ls_start, from);
    let existing = was.len() > 0 && was[0] == '-';
    let padding = if existing {
        pad(prefix.len())
    } else {
        let mut p = pad(leading_ws(prefix.as_slice()));
        extend_str(&mut p, "  ");
        proof {
            assert(p@ =~= spaces(ws_prefix_len(prefix@) + 2)) by {
                reveal_strlit("  ");
            }
        }
        p
    };
    let body = trimmed_end(rendered.as_slice());
    let written = pad_lines(body.as_slice(), padding.as_slice());
    if existing {
        Ok(trimmed_start(written.as_slice()))
    } else {
        let mut out = to_chars("\n");
        extend(&mut out, written.as_slice());
        Ok(out)
    }
}

} // verus!
