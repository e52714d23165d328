//! Ids closed by commit trailers: a body line `Closes CTC-001` or
//! `Completes: CTC-001`. The subject line never counts.

use crate::chars::{
    extend, from_chars, has_prefix, lines, split, split_at_char, split_lines, split_once,
    split_once_at, split_words, strip_prefix, texts, to_chars, trim, trimmed, views, words,
};
use vstd::prelude::*;

verus! {

/// Whether a character may stand in an id: ASCII letter, digit, or `-`.
pub open spec fn id_char(c: char) -> bool {
    let u = c as u32;
    (48 <= u <= 57) || (65 <= u <= 90) || (97 <= u <= 122) || c == '-'
}

/// The id a trailer names, if what follows the keyword is one: ASCII letters,
/// digits and dashes, with at least one dash.
pub open spec fn trailer_id(raw: Seq<char>) -> Option<Seq<char>> {
    let id = trim(raw);
    if (forall|k: int| 0 <= k < id.len() ==> id_char(#[trigger] id[k])) && id.contains('-') {
        Some(id)
    } else {
        None
    }
}

/// The id one body line closes, if any.
pub open spec fn line_id(line: Seq<char>) -> Option<Seq<char>> {
    let line = trim(line);
    match strip_prefix(line, "Closes "@) {
        Some(rest) => trailer_id(rest),
        None => match strip_prefix(line, "Completes: "@) {
            Some(rest) => trailer_id(rest),
            None => None,
        },
    }
}

/// The ids a list of body lines close, in order.
pub open spec fn lines_ids(ls: Seq<Seq<char>>) -> Seq<Seq<char>>
    decreases ls.len(),
{
    if ls.len() == 0 {
        Seq::empty()
    } else {
        let rest = lines_ids(ls.drop_last());
        match line_id(ls.last()) {
            Some(id) => rest.push(id),
            None => rest,
        }
    }
}

/// The ids a commit message closes, in line order: its body lines only, the
/// first line being the subject.
pub open spec fn body_ids(body: Seq<char>) -> Seq<Seq<char>> {
    if lines(body).len() == 0 {
        Seq::empty()
    } else {
        lines_ids(lines(body).skip(1))
    }
}

/// The closes one log record contributes: each id its body names, with its
/// sha.
pub open spec fn record_closes(record: Seq<char>) -> Seq<(Seq<char>, Seq<char>)> {
    let r = trim(record);
    if r.len() == 0 {
        Seq::empty()
    } else {
        match split_once(r, '\0') {
            Some((sha, body)) => body_ids(body).map_values(|id: Seq<char>| (id, sha)),
            None => Seq::empty(),
        }
    }
}

/// The closes of a list of records, in order.
pub open spec fn records_closes(rs: Seq<Seq<char>>) -> Seq<(Seq<char>, Seq<char>)>
    decreases rs.len(),
{
    if rs.len() == 0 {
        Seq::empty()
    } else {
        records_closes(rs.drop_last()) + record_closes(rs.last())
    }
}

/// Every `(id, sha)` a `git log --format=%H%x00%B%x1e` output names.
pub open spec fn log_closes(log: Seq<char>) -> Seq<(Seq<char>, Seq<char>)> {
    records_closes(split(log, '\u{1e}'))
}

/// Whether every character is one an id may hold.
fn all_id_chars(s: &[char]) -> (res: bool)
    ensures
        res == forall|k: int| 0 <= k < s@.len() ==> id_char(#[trigger] s@[k]),
{
    let mut i: usize = 0;
    while i < s.len()
        invariant
            i <= s@.len(),
            forall|k: int| 0 <= k < i ==> id_char(#[trigger] s@[k]),
        decreases s@.len() - i,
    {
        let c = s[i];
        let u = c as u32;
        if !((48 <= u && u <= 57) || (65 <= u && u <= 90) || (97 <= u && u <= 122) || c == '-') {
            return false;
        }
        i = i + 1;
    }
    true
}

/// Record the id a trailer names, if it is one.
pub fn push_id(ids: &mut Vec<Vec<char>>, raw: &[char])
    ensures
        texts(final(ids)@) == match trailer_id(raw@) {
            Some(id) => texts(old(ids)@).push(id),
            None => texts(old(ids)@),
        },
{
    let id = trimmed(raw);
    if all_id_chars(id.as_slice()) && crate::chars::contains_char(id.as_slice(), '-') {
        let ghost before = texts(ids@);
        ids.push(id);
        proof {
            assert(texts(ids@) =~= before.push(trim(raw@)));
        }
    }
}

/// The ids a commit message closes, in line order, the subject not counted.
pub fn parse_body(body: &[char]) -> (out: Vec<Vec<char>>)
    ensures
        texts(out@) == body_ids(body@),
{
    let ls = split_lines(body);
    let closes = to_chars("Closes ");
    let completes = to_chars("Completes: ");
    let mut ids: Vec<Vec<char>> = Vec::new();
    if ls.len() == 0 {
        return ids;
    }
    let ghost rest = lines(body@).skip(1);
    let mut k: usize = 1;
    assert(rest.take(0) =~= Seq::<Seq<char>>::empty());
    while k < ls.len()
        invariant
            1 <= k <= ls@.len(),
            ls@.len() == lines(body@).len(),
            forall|j: int| 0 <= j < ls@.len() ==> (#[trigger] ls@[j])@ == lines(body@)[j],
            rest == lines(body@).skip(1),
            closes@ == "Closes "@,
            completes@ == "Completes: "@,
            texts(ids@) == lines_ids(rest.take(k - 1)),
        decreases ls@.len() - k,
    {
        proof {
            assert(rest.take(k as int).drop_last() == rest.take(k - 1));
            assert(rest.take(k as int).last() == ls@[k as int]@);
        }
        let line = trimmed(ls[k].as_slice());
        if has_prefix(line.as_slice(), closes.as_slice()) {
            let r = crate::chars::slice(line.as_slice(), closes.len(), line.len());
            push_id(&mut ids, r.as_slice());
        } else if has_prefix(line.as_slice(), completes.as_slice()) {
            let r = crate::chars::slice(line.as_slice(), completes.len(), line.len());
            push_id(&mut ids, r.as_slice());
        }
        k = k + 1;
    }
    assert(rest.take(ls@.len() - 1) =~= rest);
    ids
}

/// Every `(id, sha)` a `git log --format=%H%x00%B%x1e` output names, in
/// record order.
pub fn parse_log(log: &str) -> (out: Vec<(String, String)>)
    ensures
        out@.map_values(|p: (String, String)| (p.0@, p.1@)) == log_closes(log@),
{
    let text = to_chars(log);
    let records = split_at_char(text.as_slice(), '\u{1e}');
    let ghost rs = texts(records@);
    let mut found: Vec<(String, String)> = Vec::new();
    let mut k: usize = 0;
    while k < records.len()
        invariant
            k <= records@.len(),
            rs == texts(records@),
            rs == split(log@, '\u{1e}'),
            found@.map_values(|p: (String, String)| (p.0@, p.1@)) == records_closes(
                rs.take(k as int),
            ),
        decreases records@.len() - k,
    {
        proof {
            assert(rs.take(k + 1).drop_last() == rs.take(k as int));
            assert(rs.take(k + 1).last() == records@[k as int]@);
        }
        let record = trimmed(records[k].as_slice());
        let ghost start = found@.map_values(|p: (String, String)| (p.0@, p.1@));
        if record.len() > 0 {
            match split_once_at(record.as_slice(), '\0') {
                Some((sha, body)) => {
                    let ids = parse_body(body.as_slice());
                    let ghost idv = texts(ids@);
                    let mut j: usize = 0;
                    while j < ids.len()
                        invariant
                            j <= ids@.len(),
                            idv == texts(ids@),
                            found@.map_values(|p: (String, String)| (p.0@, p.1@)) == start
                                + idv.take(j as int).map_values(|id: Seq<char>| (id, sha@)),
                        decreases ids@.len() - j,
                    {
                        let ghost before = found@;
                        found.push((from_chars(ids[j].as_slice()), from_chars(sha.as_slice())));
                        proof {
                            assert(found@.map_values(|p: (String, String)| (p.0@, p.1@))
                                =~= before.map_values(|p: (String, String)| (p.0@, p.1@)).push(
                                (ids@[j as int]@, sha@),
                            ));
                            assert(idv.take(j + 1).map_values(|id: Seq<char>| (id, sha@))
                                =~= idv.take(j as int).map_values(|id: Seq<char>| (id, sha@)).push(
                                (idv[j as int], sha@),
                            ));
                        }
                        j = j + 1;
                    }
                    proof {
                        assert(idv.take(ids@.len() as int) == idv);
                    }
                },
                None => {
                    proof {
                        assert(start + Seq::<(Seq<char>, Seq<char>)>::empty() =~= start);
                    }
                },
            }
        } else {
            proof {
                assert(start + Seq::<(Seq<char>, Seq<char>)>::empty() =~= start);
            }
        }
        k = k + 1;
    }
    assert(rs.take(records@.len() as int) =~= rs);
    found
}

/// The `git log` revision one pre-push line asks to scan: the local sha when
/// the remote sha is all zeros (a new ref), else `remote..local`.
pub open spec fn pre_push_rev(line: Seq<char>) -> Result<Seq<char>, Seq<char>> {
    let parts = words(line);
    if parts.len() != 4 {
        Err(PRE_PUSH_SHAPE())
    } else if forall|k: int| 0 <= k < parts[3].len() ==> #[trigger] parts[3][k] == '0' {
        Ok(parts[1])
    } else {
        Ok(parts[3] + ".."@ + parts[1])
    }
}

pub open spec fn PRE_PUSH_SHAPE() -> Seq<char> {
    "pre-push line is not <local-ref> <local-sha> <remote-ref> <remote-sha>"@
}

/// The revisions a pre-push stdin asks to scan, one per non-blank line, up to
/// and including the first line that is not four fields.
pub open spec fn pre_push_plan(ls: Seq<Seq<char>>) -> Seq<Result<Seq<char>, Seq<char>>>
    decreases ls.len(),
{
    if ls.len() == 0 {
        Seq::empty()
    } else {
        let rest = pre_push_plan(ls.drop_last());
        if rest.len() > 0 && rest.last() is Err {
            rest
        } else if trim(ls.last()).len() == 0 {
            rest
        } else {
            rest.push(pre_push_rev(trim(ls.last())))
        }
    }
}

/// Whether every character is `0`.
fn all_zero(s: &[char]) -> (res: bool)
    ensures
        res == forall|k: int| 0 <= k < s@.len() ==> #[trigger] s@[k] == '0',
{
    let mut i: usize = 0;
    while i < s.len()
        invariant
            i <= s@.len(),
            forall|k: int| 0 <= k < i ==> #[trigger] s@[k] == '0',
        decreases s@.len() - i,
    {
        if s[i] != '0' {
            return false;
        }
        i = i + 1;
    }
    true
}

/// What a pre-push stdin asks `git log` to scan, in line order. Each entry is
/// one revision, or the error that stops the scan; nothing follows an error.
pub fn closed_ids_pre_push(stdin: &str) -> (out: Vec<Result<String, String>>)
    ensures
        out@.map_values(
            |r: Result<String, String>| match r {
                Ok(s) => Ok(s@),
                Err(s) => Err(s@),
            },
        ) == pre_push_plan(lines(stdin@)),
{
    let text = to_chars(stdin);
    let ls = split_lines(text.as_slice());
    let mut out: Vec<Result<String, String>> = Vec::new();
    let mut k: usize = 0;
    let mut stopped = false;
    while k < ls.len()
        invariant
            k <= ls@.len(),
            ls@.len() == lines(stdin@).len(),
            forall|j: int| 0 <= j < ls@.len() ==> (#[trigger] ls@[j])@ == lines(stdin@)[j],
            stopped == (out@.len() > 0 && out@.last() is Err),
            out@.map_values(
                |r: Result<String, String>| match r {
                    Ok(s) => Ok(s@),
                    Err(s) => Err(s@),
                },
            ) == pre_push_plan(lines(stdin@).take(k as int)),
        decreases ls@.len() - k,
    {
        proof {
            assert(lines(stdin@).take(k + 1).drop_last() == lines(stdin@).take(k as int));
            assert(lines(stdin@).take(k + 1).last() == ls@[k as int]@);
        }
        let ghost before = out@;
        let line = trimmed(ls[k].as_slice());
        if !stopped && line.len() > 0 {
            let parts = split_words(line.as_slice());
            let entry: Result<String, String> = if parts.len() != 4 {
                Err(String::from_str(
                    "pre-push line is not <local-ref> <local-sha> <remote-ref> <remote-sha>",
                ))
            } else if all_zero(parts[3].as_slice()) {
                Ok(from_chars(parts[1].as_slice()))
            } else {
                let mut range = parts[3].clone();
                crate::chars::extend_str(&mut range, "..");
                extend(&mut range, parts[1].as_slice());
                Ok(from_chars(range.as_slice()))
            };
            proof {
                if parts@.len() == 4 {
                    assert(texts(parts@)[1] == parts@[1]@);
                    assert(texts(parts@)[3] == parts@[3]@);
                }
            }
            stopped = entry.is_err();
            out.push(entry);
            proof {
                assert(out@.map_values(
                    |r: Result<String, String>| match r {
                        Ok(s) => Ok(s@),
                        Err(s) => Err(s@),
                    },
                ) =~= before.map_values(
                    |r: Result<String, String>| match r {
                        Ok(s) => Ok(s@),
                        Err(s) => Err(s@),
                    },
                ).push(pre_push_rev(line@)));
            }
        } else {
            proof {
                if stopped {
                    assert(before.map_values(
                        |r: Result<String, String>| match r {
                            Ok(s) => Ok(s@),
                            Err(s) => Err(s@),
                        },
                    ).last() is Err);
                }
            }
        }
        k = k + 1;
    }
    assert(lines(stdin@).take(ls@.len() as int) =~= lines(stdin@));
    out
}


/// IDs closed by commit trailers, given what `git log` printed for the whole
/// history. A scan that could not run is a failure, not an empty history.
pub fn closed_ids(log: Result<String, String>) -> (res: Result<Vec<(String, String)>, String>)
    ensures
        match log {
            Ok(text) => res matches Ok(out) && out@.map_values(|p: (String, String)| (p.0@, p.1@)) == log_closes(text@),
            Err(e) => res matches Err(m) && m@ == e@,
        },
{
    match log {
        Ok(text) => Ok(parse_log(text.as_str())),
        Err(e) => Err(e),
    }
}

/// The same scan over a revision range.
pub fn closed_ids_rev(log: Result<String, String>) -> (res: Result<Vec<(String, String)>, String>)
    ensures
        match log {
            Ok(text) => res matches Ok(out) && out@.map_values(|p: (String, String)| (p.0@, p.1@)) == log_closes(text@),
            Err(e) => res matches Err(m) && m@ == e@,
        },
{
    closed_ids(log)
}

} // verus!
