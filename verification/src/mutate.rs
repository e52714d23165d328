//! The verbs that change a ledger, and what each decides before the file is
//! touched: which id a new row gets, where it goes, whether its blockers allow
//! it there, which rows a commit closes.

use crate::chars::{extend, extend_str, from_chars, same, to_chars, views};
use crate::cli::{disposition_word, AddArgs, ArchiveArgs, IdArgs, InitArgs, ParkArgs, PromoteArgs};
use crate::document::render::{entry_views, FieldValue, FieldView};
use crate::document::yaml::{EditView, Scalar, ScalarView};
use crate::document::{
    appended, blockers_rewritten, change_views, key_route, moved_between, moved_to_front, patch_spec, reordered_rows,
    section_ids, Document,
};
use crate::edit::lists::copy_strings;
use crate::ledger::corpus::{id_text, MAX_TASK_NUMBER};
use crate::ledger::{next_id, next_number};
use crate::report::{Destination, Report};
use crate::schema::{kind_word, Kind};
use crate::edit::lists::{first_index, lemma_first_index};
use crate::schema::{inside_the_repo, is_lower, is_prefix, plan_complaint, prefix_is_valid, Ledger, VERSION};
use vstd::prelude::*;

verus! {

/// Why a `--plan` cannot be used, if it cannot: it is empty, it points
/// somewhere the repository may not, or no file is there.
pub open spec fn plan_refusal(plan: Option<Seq<char>>, exists: bool) -> Option<Seq<char>> {
    match plan {
        None => None,
        Some(p) => if p.len() == 0 {
            Some("--plan needs a path"@)
        } else {
            match plan_complaint(p) {
                Some(e) => Some("plan "@ + p + " "@ + e),
                None => if !exists {
                    Some("missing plan "@ + p)
                } else {
                    None
                },
            }
        },
    }
}

/// A requested plan as text.
pub open spec fn plan_text(plan: Option<&String>) -> Option<Seq<char>> {
    match plan {
        Some(p) => Some(p@),
        None => None,
    }
}

/// An optional string as text.
pub open spec fn opt_text(o: Option<String>) -> Option<Seq<char>> {
    match o {
        Some(p) => Some(p@),
        None => None,
    }
}

/// Refuse a `--plan` that cannot be used. Whether a file exists there, beside
/// the ledger, is the caller's to look up.
pub fn require_plan(plan: Option<&String>, plan_exists: bool) -> (res: Result<(), String>)
    ensures
        match res {
            Ok(()) => plan_refusal(plan_text(plan), plan_exists) is None,
            Err(m) => plan_refusal(plan_text(plan), plan_exists) == Some(m@),
        },
{
    let plan = match plan {
        None => {
            return Ok(());
        },
        Some(p) => p,
    };
    if plan.as_str().is_empty() {
        return Err(String::from_str("--plan needs a path"));
    }
    match inside_the_repo(plan.as_str()) {
        Some(e) => {
            let mut m = to_chars("plan ");
            extend_str(&mut m, plan.as_str());
            extend_str(&mut m, " ");
            extend_str(&mut m, e.as_str());
            Err(from_chars(m.as_slice()))
        },
        None => if !plan_exists {
            let mut m = to_chars("missing plan ");
            extend_str(&mut m, plan.as_str());
            Err(from_chars(m.as_slice()))
        } else {
            Ok(())
        },
    }
}

/// One character in ASCII upper case.
pub open spec fn upper_char(c: char) -> char {
    if is_lower(c) {
        ((c as u32) - 32) as char
    } else {
        c
    }
}

/// A text in ASCII upper case, as `str::to_ascii_uppercase` writes it.
pub open spec fn upper(s: Seq<char>) -> Seq<char> {
    s.map_values(|c: char| upper_char(c))
}

/// One character in ASCII upper case.
fn char_upper(c: char) -> (r: char)
    ensures
        r == upper_char(c),
{
    if 'a' <= c && c <= 'z' {
        let b: u8 = c as u8;
        let d: u8 = b - 32;
        d as char
    } else {
        c
    }
}

/// A text in ASCII upper case.
pub fn ascii_upper(s: &str) -> (out: Vec<char>)
    ensures
        out@ == upper(s@),
{
    let chars = to_chars(s);
    let mut out: Vec<char> = Vec::new();
    let mut i: usize = 0;
    while i < chars.len()
        invariant
            i <= chars@.len(),
            chars@ == s@,
            out@ == upper(s@).take(i as int),
        decreases chars@.len() - i,
    {
        out.push(char_upper(chars[i]));
        proof {
            assert(upper(s@).take(i + 1) =~= upper(s@).take(i as int).push(upper_char(s@[i as int])));
        }
        i = i + 1;
    }
    assert(upper(s@).take(s@.len() as int) == upper(s@));
    out
}

/// Whether a prefix is usable: `[A-Z][A-Z0-9]{1,7}`.
pub fn valid_prefix(prefix: &str) -> (res: bool)
    ensures
        res == is_prefix(prefix@),
{
    let chars = to_chars(prefix);
    prefix_is_valid(chars.as_slice())
}

/// The ledger `init` writes for a prefix.
pub open spec fn fresh_ledger(prefix: Seq<char>) -> Seq<char> {
    "# yaml-language-server: $schema=https://raw.githubusercontent.com/victor-software-house/qctl/main/schema/tasks.schema.json\nschema_version: 4\nprefix: "@
        + prefix + "\nactive: null\nqueue: []\narchive: []\nhorizon: []\n"@
}

/// What `init` writes, or why it refuses: the prefix, upper-cased, must be
/// usable, and an existing file stays unless `--force` was given. Whether a
/// file is at `path` is the caller's to look up.
pub open spec fn init_spec(prefix: Seq<char>, path: Seq<char>, exists: bool, force: bool) -> Result<Seq<char>, Seq<char>> {
    if !is_prefix(upper(prefix)) {
        Err("prefix must match [A-Z][A-Z0-9]{1,7}"@)
    } else if exists && !force {
        Err(path + " already exists (pass --force)"@)
    } else {
        Ok(fresh_ledger(upper(prefix)))
    }
}

/// The text `init` writes, or why it refuses.
pub fn init(args: &InitArgs, path: &str, exists: bool) -> (res: Result<String, String>)
    ensures
        match res {
            Ok(body) => init_spec(args.prefix@, path@, exists, args.force) == Ok::<Seq<char>, Seq<char>>(body@),
            Err(m) => init_spec(args.prefix@, path@, exists, args.force) == Err::<Seq<char>, Seq<char>>(m@),
        },
{
    let prefix = ascii_upper(args.prefix.as_str());
    if !prefix_is_valid(prefix.as_slice()) {
        return Err(String::from_str("prefix must match [A-Z][A-Z0-9]{1,7}"));
    }
    if exists && !args.force {
        let mut m = to_chars(path);
        extend_str(&mut m, " already exists (pass --force)");
        return Err(from_chars(m.as_slice()));
    }
    assert(VERSION == 4);
    let mut body = to_chars(
        "# yaml-language-server: $schema=https://raw.githubusercontent.com/victor-software-house/qctl/main/schema/tasks.schema.json\nschema_version: 4\nprefix: ",
    );
    extend(&mut body, prefix.as_slice());
    extend_str(&mut body, "\nactive: null\nqueue: []\narchive: []\nhorizon: []\n");
    Ok(from_chars(body.as_slice()))
}

/// Where a new queued row goes among `ids`: the end, or just before or after
/// a queued id, never both.
pub open spec fn insertion(ids: Seq<Seq<char>>, before: Option<Seq<char>>, after: Option<Seq<char>>) -> Result<int, Seq<char>> {
    match (before, after) {
        (None, None) => Ok(ids.len() as int),
        (Some(_), Some(_)) => Err("use --before or --after, not both"@),
        (Some(b), None) => match first_index(ids, b) {
            Some(i) => Ok(i),
            None => Err(b + " is not queued"@),
        },
        (None, Some(a)) => match first_index(ids, a) {
            Some(i) => Ok(i + 1),
            None => Err(a + " is not queued"@),
        },
    }
}

/// Where a string first sits in a list.
pub fn position(list: &Vec<String>, x: &str) -> (res: Option<usize>)
    ensures
        match res {
            Some(i) => first_index(views(list@), x@) == Some(i as int),
            None => first_index(views(list@), x@) is None,
        },
{
    let target = to_chars(x);
    let mut i: usize = 0;
    while i < list.len()
        invariant
            i <= list@.len(),
            target@ == x@,
            forall|k: int| 0 <= k < i ==> views(list@)[k] != x@,
        decreases list@.len() - i,
    {
        let here = to_chars(list[i].as_str());
        if same(here.as_slice(), target.as_slice()) {
            proof {
                lemma_first_index(views(list@), x@);
                assert(views(list@)[i as int] == x@);
                assert(views(list@).contains(x@));
            }
            return Some(i);
        }
        i = i + 1;
    }
    proof {
        lemma_first_index(views(list@), x@);
    }
    None
}

/// Where a new queued row goes, or why it cannot.
pub fn insertion_index(ids: &Vec<String>, before: Option<&String>, after: Option<&String>) -> (res: Result<usize, String>)
    ensures
        match res {
            Ok(i) => insertion(views(ids@), plan_text(before), plan_text(after)) == Ok::<int, Seq<char>>(i as int),
            Err(m) => insertion(views(ids@), plan_text(before), plan_text(after)) == Err::<int, Seq<char>>(m@),
        },
{
    match (before, after) {
        (None, None) => Ok(ids.len()),
        (Some(_), Some(_)) => Err(String::from_str("use --before or --after, not both")),
        (Some(b), None) => match position(ids, b.as_str()) {
            Some(i) => Ok(i),
            None => {
                let mut m = to_chars(b.as_str());
                extend_str(&mut m, " is not queued");
                Err(from_chars(m.as_slice()))
            },
        },
        (None, Some(a)) => match position(ids, a.as_str()) {
            Some(i) => {
                let n = ids.len();
                proof {
                    lemma_first_index(views(ids@), a@);
                }
                assert(i < n);
                Ok(i + 1)
            },
            None => {
                let mut m = to_chars(a.as_str());
                extend_str(&mut m, " is not queued");
                Err(from_chars(m.as_slice()))
            },
        },
    }
}

/// The first blocker of a new queued row at `insertion` that is not queued
/// earlier than it, as the complaint `add` makes.
pub open spec fn blocker_complaint(ids: Seq<Seq<char>>, id: Seq<char>, blockers: Seq<Seq<char>>, insertion: int) -> Option<Seq<char>>
    decreases blockers.len(),
{
    if blockers.len() == 0 {
        None
    } else {
        match blocker_complaint(ids, id, blockers.drop_last(), insertion) {
            Some(m) => Some(m),
            None => {
                let b = blockers.last();
                match first_index(ids, b) {
                    Some(i) => if i < insertion {
                        None
                    } else {
                        Some(id + " <- "@ + b + " is not earlier"@)
                    },
                    None => Some(id + " <- "@ + b + " is not queued"@),
                }
            },
        }
    }
}

/// The first blocker of a new queued row that is not queued ahead of it.
pub fn check_blockers(ids: &Vec<String>, id: &str, blockers: &Vec<String>, insertion: usize) -> (res: Result<(), String>)
    ensures
        match res {
            Ok(()) => blocker_complaint(views(ids@), id@, views(blockers@), insertion as int) is None,
            Err(m) => blocker_complaint(views(ids@), id@, views(blockers@), insertion as int) == Some(m@),
        },
{
    let mut k: usize = 0;
    while k < blockers.len()
        invariant
            k <= blockers@.len(),
            blocker_complaint(views(ids@), id@, views(blockers@).take(k as int), insertion as int) is None,
        decreases blockers@.len() - k,
    {
        proof {
            assert(views(blockers@).take(k + 1).drop_last() == views(blockers@).take(k as int));
            assert(views(blockers@).take(k + 1).last() == blockers@[k as int]@);
        }
        let b = &blockers[k];
        match position(ids, b.as_str()) {
            Some(i) => if i >= insertion {
                let mut m = to_chars(id);
                extend_str(&mut m, " <- ");
                extend_str(&mut m, b.as_str());
                extend_str(&mut m, " is not earlier");
                proof {
                    lemma_complaint_stays(views(ids@), id@, views(blockers@), insertion as int, k + 1);
                }
                return Err(from_chars(m.as_slice()));
            },
            None => {
                let mut m = to_chars(id);
                extend_str(&mut m, " <- ");
                extend_str(&mut m, b.as_str());
                extend_str(&mut m, " is not queued");
                proof {
                    lemma_complaint_stays(views(ids@), id@, views(blockers@), insertion as int, k + 1);
                }
                return Err(from_chars(m.as_slice()));
            },
        }
        k = k + 1;
    }
    assert(views(blockers@).take(blockers@.len() as int) == views(blockers@));
    Ok(())
}

/// Once a prefix of the blockers yields a complaint, the whole list yields it.
pub proof fn lemma_complaint_stays(ids: Seq<Seq<char>>, id: Seq<char>, blockers: Seq<Seq<char>>, insertion: int, k: int)
    requires
        0 <= k <= blockers.len(),
        blocker_complaint(ids, id, blockers.take(k), insertion) is Some,
    ensures
        blocker_complaint(ids, id, blockers, insertion) == blocker_complaint(ids, id, blockers.take(k), insertion),
    decreases blockers.len() - k,
{
    if k < blockers.len() {
        assert(blockers.take(k + 1).drop_last() == blockers.take(k));
        lemma_complaint_stays(ids, id, blockers, insertion, k + 1);
    } else {
        assert(blockers.take(k) == blockers);
    }
}

/// Whether a new row at `insertion` would take `queue[0]` from the active row.
pub open spec fn displaces_active(ids: Seq<Seq<char>>, insertion: int, active: Option<Seq<char>>) -> bool {
    insertion == 0 && ids.len() > 0 && active is Some
}

/// The complaint when a new row would take `queue[0]` from the active row.
pub open spec fn displacement_message(id: Seq<char>, before: Option<Seq<char>>, active: Seq<char>) -> Seq<char> {
    let named = match before {
        Some(b) => b,
        None => active,
    };
    "add --before "@ + named + " would make "@ + id + " queue[0] while active is "@ + active
}

/// The ids a commit log closes that the queue still holds, each once, with
/// the first commit that closed it, in log order.
pub open spec fn closing(ids: Seq<Seq<char>>, closed: Seq<(Seq<char>, Seq<char>)>) -> Seq<(Seq<char>, Seq<char>)>
    decreases closed.len(),
{
    if closed.len() == 0 {
        Seq::empty()
    } else {
        let rest = closing(ids, closed.drop_last());
        let last = closed.last();
        if ids.contains(last.0) && !rest.map_values(|p: (Seq<char>, Seq<char>)| p.0).contains(last.0) {
            rest.push(last)
        } else {
            rest
        }
    }
}

/// A list of id and commit pairs as text.
pub open spec fn pair_views(v: Seq<(String, String)>) -> Seq<(Seq<char>, Seq<char>)> {
    v.map_values(|p: (String, String)| (p.0@, p.1@))
}

/// The queue's ids.
pub open spec fn queue_ids(l: Ledger) -> Seq<Seq<char>> {
    l.queue@.map_values(|t: crate::schema::QueuedTask| t.id@)
}

/// Whether `x` is among the first components of `v`.
fn has_first(v: &Vec<(String, String)>, x: &String) -> (res: bool)
    ensures
        res == pair_views(v@).map_values(|p: (Seq<char>, Seq<char>)| p.0).contains(x@),
{
    let target = to_chars(x.as_str());
    let ghost firsts = pair_views(v@).map_values(|p: (Seq<char>, Seq<char>)| p.0);
    let mut i: usize = 0;
    while i < v.len()
        invariant
            i <= v@.len(),
            target@ == x@,
            firsts == pair_views(v@).map_values(|p: (Seq<char>, Seq<char>)| p.0),
            forall|k: int| 0 <= k < i ==> firsts[k] != x@,
        decreases v@.len() - i,
    {
        let here = to_chars(v[i].0.as_str());
        if same(here.as_slice(), target.as_slice()) {
            assert(firsts[i as int] == x@);
            return true;
        }
        i = i + 1;
    }
    false
}

/// Which closed ids `close-from-git` archives, and with which commit as
/// evidence: those the queue holds, each once, first commit first.
pub fn closing_ids(ledger: &Ledger, closed: &Vec<(String, String)>) -> (out: Vec<(String, String)>)
    ensures
        pair_views(out@) == closing(queue_ids(*ledger), pair_views(closed@)),
{
    let mut ids: Vec<String> = Vec::new();
    let mut q: usize = 0;
    while q < ledger.queue.len()
        invariant
            q <= ledger.queue@.len(),
            views(ids@) == queue_ids(*ledger).take(q as int),
        decreases ledger.queue@.len() - q,
    {
        let ghost before = ids@;
        ids.push(ledger.queue[q].id.clone());
        proof {
            assert(views(ids@) =~= views(before).push(ledger.queue@[q as int].id@));
            assert(queue_ids(*ledger).take(q + 1) =~= queue_ids(*ledger).take(q as int).push(ledger.queue@[q as int].id@));
        }
        q = q + 1;
    }
    assert(queue_ids(*ledger).take(ledger.queue@.len() as int) == queue_ids(*ledger));
    let mut out: Vec<(String, String)> = Vec::new();
    let mut i: usize = 0;
    while i < closed.len()
        invariant
            i <= closed@.len(),
            views(ids@) == queue_ids(*ledger),
            pair_views(out@) == closing(queue_ids(*ledger), pair_views(closed@).take(i as int)),
        decreases closed@.len() - i,
    {
        proof {
            assert(pair_views(closed@).take(i + 1).drop_last() == pair_views(closed@).take(i as int));
            assert(pair_views(closed@).take(i + 1).last() == (closed@[i as int].0@, closed@[i as int].1@));
        }
        let (id, sha) = &closed[i];
        let queued = match position(&ids, id.as_str()) {
            Some(_) => true,
            None => false,
        };
        proof {
            lemma_first_index(views(ids@), id@);
        }
        if queued && !has_first(&out, id) {
            let ghost before = out@;
            out.push((id.clone(), sha.clone()));
            proof {
                assert(pair_views(out@) =~= pair_views(before).push((id@, sha@)));
            }
        }
        i = i + 1;
    }
    assert(pair_views(closed@).take(closed@.len() as int) == pair_views(closed@));
    out
}

/// The ids joined by `, `.
pub open spec fn comma_list(ids: Seq<Seq<char>>) -> Seq<char> {
    crate::chars::join(ids, ", "@)
}

/// How `close-from-git` ends once every closed row is archived: refused when
/// `active` still names a closed id, refused on a pre-push run that archived
/// anything (the push has to be made again with the ledger committed), and
/// done otherwise.
pub open spec fn close_outcome(active: Option<Seq<char>>, archived: Seq<Seq<char>>, pre_push: bool, name: Seq<char>) -> Option<Seq<char>> {
    if active is Some && archived.contains(active->0) {
        Some("active "@ + active->0 + " still names a closed id"@)
    } else if pre_push && archived.len() > 0 {
        Some("archived "@ + comma_list(archived) + "; commit "@ + name + " and push again (the hook does not amend)"@)
    } else {
        None
    }
}

/// How `close-from-git` ends, given the ledger as it reads after archiving,
/// the ids archived, whether this ran as the pre-push hook, and the ledger's
/// file name.
pub fn finish_close(after: &Ledger, archived: &Vec<String>, pre_push: bool, name: &str) -> (res: Result<(), String>)
    ensures
        match res {
            Ok(()) => close_outcome(
                match after.active {
                    Some(a) => Some(a@),
                    None => None,
                },
                views(archived@),
                pre_push,
                name@,
            ) is None,
            Err(m) => close_outcome(
                match after.active {
                    Some(a) => Some(a@),
                    None => None,
                },
                views(archived@),
                pre_push,
                name@,
            ) == Some(m@),
        },
{
    match &after.active {
        Some(active) => match position(archived, active.as_str()) {
            Some(_) => {
                proof {
                    lemma_first_index(views(archived@), active@);
                }
                let mut m = to_chars("active ");
                extend_str(&mut m, active.as_str());
                extend_str(&mut m, " still names a closed id");
                return Err(from_chars(m.as_slice()));
            },
            None => {
                proof {
                    lemma_first_index(views(archived@), active@);
                }
            },
        },
        None => {},
    }
    if pre_push && archived.len() > 0 {
        let mut parts: Vec<Vec<char>> = Vec::new();
        let mut i: usize = 0;
        while i < archived.len()
            invariant
                i <= archived@.len(),
                parts@.map_values(|v: Vec<char>| v@) == views(archived@).take(i as int),
            decreases archived@.len() - i,
        {
            let ghost before = parts@;
            parts.push(to_chars(archived[i].as_str()));
            proof {
                assert(parts@.map_values(|v: Vec<char>| v@) =~= before.map_values(|v: Vec<char>| v@).push(archived@[i as int]@));
                assert(views(archived@).take(i + 1) =~= views(archived@).take(i as int).push(archived@[i as int]@));
            }
            i = i + 1;
        }
        assert(views(archived@).take(archived@.len() as int) == views(archived@));
        let sep = to_chars(", ");
        let joined = crate::chars::join_chars(&parts, sep.as_slice());
        let mut m = to_chars("archived ");
        extend(&mut m, joined.as_slice());
        extend_str(&mut m, "; commit ");
        extend_str(&mut m, name);
        extend_str(&mut m, " and push again (the hook does not amend)");
        return Err(from_chars(m.as_slice()));
    }
    Ok(())
}


/// An entry for a key whose value may be absent.
pub open spec fn opt_entry(key: Seq<char>, v: Option<Seq<char>>) -> Seq<(Seq<char>, FieldView)> {
    match v {
        Some(t) => seq![(key, FieldView::Text(t))],
        None => Seq::empty(),
    }
}

/// An entry for a list that is left out when empty.
pub open spec fn list_entry(key: Seq<char>, v: Seq<Seq<char>>) -> Seq<(Seq<char>, FieldView)> {
    if v.len() > 0 {
        seq![(key, FieldView::List(v))]
    } else {
        Seq::empty()
    }
}

/// A new queued row's entries, in the order a queued row is written.
pub open spec fn queued_entries(id: Seq<char>, args: AddArgs) -> Seq<(Seq<char>, FieldView)> {
    seq![
        ("id"@, FieldView::Text(id)),
        ("title"@, FieldView::Text(args.title@)),
        ("scope"@, FieldView::Text(args.scope@)),
        ("outcome"@, FieldView::Text(args.outcome@)),
        ("blocked_by"@, FieldView::List(views(args.blocked_by@))),
        ("acceptance"@, FieldView::List(views(args.acceptance@))),
    ] + opt_entry("patch"@, opt_text(args.patch)) + opt_entry("plan"@, opt_text(args.plan))
        + list_entry("links"@, views(args.links@)) + list_entry("notes"@, views(args.note@))
}

/// A new horizon row's entries, in the order a horizon row is written.
pub open spec fn horizon_entries(id: Seq<char>, args: AddArgs, kind: Kind, open: Seq<char>) -> Seq<(Seq<char>, FieldView)> {
    seq![
        ("id"@, FieldView::Text(id)),
        ("title"@, FieldView::Text(args.title@)),
        ("scope"@, FieldView::Text(args.scope@)),
        ("outcome"@, FieldView::Text(args.outcome@)),
        ("kind"@, FieldView::Text(kind_word(kind))),
        ("open"@, FieldView::Text(open)),
    ] + opt_entry("patch"@, opt_text(args.patch)) + opt_entry("plan"@, opt_text(args.plan))
        + list_entry("links"@, views(args.links@)) + list_entry("notes"@, views(args.note@))
}

/// Push an entry for a key whose value may be absent.
fn push_opt(entries: &mut Vec<(String, FieldValue)>, key: &str, v: &Option<String>)
    ensures
        entry_views(final(entries)@) == entry_views(old(entries)@) + opt_entry(key@, opt_text(*v)),
{
    match v {
        Some(t) => {
            entries.push((String::from_str(key), FieldValue::Text(t.clone())));
            assert(entry_views(entries@) =~= entry_views(old(entries)@) + opt_entry(key@, opt_text(*v)));
        },
        None => {
            assert(entry_views(entries@) =~= entry_views(old(entries)@) + opt_entry(key@, opt_text(*v)));
        },
    }
}

/// Push an entry for a list, unless it is empty.
fn push_list(entries: &mut Vec<(String, FieldValue)>, key: &str, v: &Vec<String>)
    ensures
        entry_views(final(entries)@) == entry_views(old(entries)@) + list_entry(key@, views(v@)),
{
    if v.len() > 0 {
        entries.push((String::from_str(key), FieldValue::List(copy_strings(v))));
    }
    assert(entry_views(entries@) =~= entry_views(old(entries)@) + list_entry(key@, views(v@)));
}

/// A new row's leading entries.
fn head_entries(id: &String, args: &AddArgs) -> (out: Vec<(String, FieldValue)>)
    ensures
        entry_views(out@) == seq![
            ("id"@, FieldView::Text(id@)),
            ("title"@, FieldView::Text(args.title@)),
            ("scope"@, FieldView::Text(args.scope@)),
            ("outcome"@, FieldView::Text(args.outcome@)),
        ],
{
    let out = vec![
        (String::from_str("id"), FieldValue::Text(id.clone())),
        (String::from_str("title"), FieldValue::Text(args.title.clone())),
        (String::from_str("scope"), FieldValue::Text(args.scope.clone())),
        (String::from_str("outcome"), FieldValue::Text(args.outcome.clone())),
    ];
    assert(entry_views(out@) =~= seq![
        ("id"@, FieldView::Text(id@)),
        ("title"@, FieldView::Text(args.title@)),
        ("scope"@, FieldView::Text(args.scope@)),
        ("outcome"@, FieldView::Text(args.outcome@)),
    ]);
    out
}

/// A new queued row's entries.
fn queued_row(id: &String, args: &AddArgs) -> (out: Vec<(String, FieldValue)>)
    ensures
        entry_views(out@) == queued_entries(id@, *args),
{
    let mut out = head_entries(id, args);
    let ghost h = entry_views(out@);
    out.push((String::from_str("blocked_by"), FieldValue::List(copy_strings(&args.blocked_by))));
    out.push((String::from_str("acceptance"), FieldValue::List(copy_strings(&args.acceptance))));
    let ghost six = entry_views(out@);
    assert(six =~= h + seq![
        ("blocked_by"@, FieldView::List(views(args.blocked_by@))),
        ("acceptance"@, FieldView::List(views(args.acceptance@))),
    ]);
    push_opt(&mut out, "patch", &args.patch);
    push_opt(&mut out, "plan", &args.plan);
    push_list(&mut out, "links", &args.links);
    push_list(&mut out, "notes", &args.note);
    assert(entry_views(out@) =~= queued_entries(id@, *args));
    out
}

/// A new horizon row's entries.
fn horizon_row(id: &String, args: &AddArgs, kind: Kind, open: &String) -> (out: Vec<(String, FieldValue)>)
    ensures
        entry_views(out@) == horizon_entries(id@, *args, kind, open@),
{
    let mut out = head_entries(id, args);
    let ghost h = entry_views(out@);
    out.push((String::from_str("kind"), FieldValue::Text(String::from_str(kind.word()))));
    out.push((String::from_str("open"), FieldValue::Text(open.clone())));
    let ghost six = entry_views(out@);
    assert(six =~= h + seq![("kind"@, FieldView::Text(kind_word(kind))), ("open"@, FieldView::Text(open@))]);
    push_opt(&mut out, "patch", &args.patch);
    push_opt(&mut out, "plan", &args.plan);
    push_list(&mut out, "links", &args.links);
    push_list(&mut out, "notes", &args.note);
    assert(entry_views(out@) =~= horizon_entries(id@, *args, kind, open@));
    out
}

/// The id the next row gets, or why there is none.
pub open spec fn fresh_id(l: Ledger) -> Result<Seq<char>, Seq<char>> {
    if next_number(l) > MAX_TASK_NUMBER {
        Err("id space exhausted"@)
    } else {
        Ok(id_text(l.prefix@, next_number(l)))
    }
}

/// The active row, if any, as text.
pub open spec fn active_of(l: Ledger) -> Option<Seq<char>> {
    match l.active {
        Some(a) => Some(a@),
        None => None,
    }
}

/// What `add` writes: the new text and the new row's id, or why it refuses.
/// A queued row gets the next id, goes at the end or just before or after a
/// queued id, never takes `queue[0]` from the active row, and names only
/// blockers queued ahead of it. A horizon row needs a kind and an open
/// question and has neither blockers nor acceptance.
pub open spec fn add_spec(args: AddArgs, l: Ledger, s: Seq<char>, plan_exists: bool) -> Result<(Seq<char>, Seq<char>), Seq<char>> {
    if args.horizon {
        if args.blocked_by@.len() > 0 {
            Err("horizon rows have no blocked_by"@)
        } else if args.acceptance@.len() > 0 {
            Err("horizon rows have no acceptance"@)
        } else {
            match args.kind {
                None => Err("--horizon needs --kind"@),
                Some(kind) => match args.open {
                    None => Err("--horizon needs --open"@),
                    Some(open) => match plan_refusal(opt_text(args.plan), plan_exists) {
                        Some(m) => Err(m),
                        None => match fresh_id(l) {
                            Err(e) => Err(e),
                            Ok(id) => match appended(s, "horizon"@, horizon_entries(id, args, kind, open@)) {
                                Err(e) => Err(e),
                                Ok(t) => Ok((t, id)),
                            },
                        },
                    },
                },
            }
        }
    } else if args.kind is Some || args.open is Some {
        Err("--kind and --open belong to --horizon"@)
    } else if args.acceptance@.len() == 0 {
        Err("add to the queue needs --acceptance"@)
    } else {
        match plan_refusal(opt_text(args.plan), plan_exists) {
            Some(m) => Err(m),
            None => match fresh_id(l) {
                Err(e) => Err(e),
                Ok(id) => {
                    let ids = queue_ids(l);
                    match insertion(ids, opt_text(args.before), opt_text(args.after)) {
                        Err(e) => Err(e),
                        Ok(at) => if displaces_active(ids, at, active_of(l)) {
                            Err(displacement_message(id, opt_text(args.before), active_of(l)->0))
                        } else {
                            match blocker_complaint(ids, id, views(args.blocked_by@), at) {
                                Some(m) => Err(m),
                                None => match appended(s, "queue"@, queued_entries(id, args)) {
                                    Err(e) => Err(e),
                                    Ok(t) => if at < ids.len() {
                                        match reordered_rows(t, "queue"@, ids.insert(at, id)) {
                                            Err(e) => Err(e),
                                            Ok(u) => Ok((u, id)),
                                        }
                                    } else {
                                        Ok((t, id))
                                    },
                                },
                            }
                        },
                    }
                },
            },
        }
    }
}

/// Whether `r` reports a row added at `path` with this id, to the horizon or
/// the queue.
pub open spec fn added_report(r: Report, path: Seq<char>, id: Seq<char>, horizon: bool) -> bool {
    match r {
        Report::Added { path: p, id: i, destination } => p@ == path && i@ == id && destination == (if horizon {
            Destination::Horizon
        } else {
            Destination::Queue
        }),
        _ => false,
    }
}

/// The queue's ids.
fn queued_ids(l: &Ledger) -> (ids: Vec<String>)
    ensures
        views(ids@) == queue_ids(*l),
{
    let mut ids: Vec<String> = Vec::new();
    let mut q: usize = 0;
    while q < l.queue.len()
        invariant
            q <= l.queue@.len(),
            views(ids@) == queue_ids(*l).take(q as int),
        decreases l.queue@.len() - q,
    {
        let ghost before = ids@;
        ids.push(l.queue[q].id.clone());
        proof {
            assert(views(ids@) =~= views(before).push(l.queue@[q as int].id@));
            assert(queue_ids(*l).take(q + 1) =~= queue_ids(*l).take(q as int).push(l.queue@[q as int].id@));
        }
        q = q + 1;
    }
    assert(queue_ids(*l).take(l.queue@.len() as int) == queue_ids(*l));
    ids
}

/// `add`: a new row on the queue or the horizon. The ledger is the file as
/// read and checked; whether `--plan` names a file beside it is the caller's
/// to look up.
pub fn add(args: &AddArgs, path: &str, l: &Ledger, document: &mut Document, plan_exists: bool) -> (res: Result<Report, String>)
    ensures
        match res {
            Ok(r) => match add_spec(*args, *l, old(document)@, plan_exists) {
                Ok((t, id)) => t == final(document)@ && added_report(r, path@, id, args.horizon),
                Err(_) => false,
            },
            Err(m) => add_spec(*args, *l, old(document)@, plan_exists) == Err::<(Seq<char>, Seq<char>), Seq<char>>(m@),
        },
        res is Err ==> final(document)@ == old(document)@,
{
    let mut work = document.duplicate();
    let res = add_in_place(args, path, l, &mut work, plan_exists);
    if res.is_ok() {
        *document = work;
    }
    res
}

/// The same verb, editing the text directly.
fn add_in_place(args: &AddArgs, path: &str, l: &Ledger, document: &mut Document, plan_exists: bool) -> (res: Result<Report, String>)
    ensures
        match res {
            Ok(r) => match add_spec(*args, *l, old(document)@, plan_exists) {
                Ok((t, id)) => t == final(document)@ && added_report(r, path@, id, args.horizon),
                Err(_) => false,
            },
            Err(m) => add_spec(*args, *l, old(document)@, plan_exists) == Err::<(Seq<char>, Seq<char>), Seq<char>>(m@),
        },
{
    if args.horizon {
        if args.blocked_by.len() > 0 {
            return Err(String::from_str("horizon rows have no blocked_by"));
        }
        if args.acceptance.len() > 0 {
            return Err(String::from_str("horizon rows have no acceptance"));
        }
        let kind = match args.kind {
            Some(k) => k,
            None => {
                return Err(String::from_str("--horizon needs --kind"));
            },
        };
        let open = match &args.open {
            Some(o) => o,
            None => {
                return Err(String::from_str("--horizon needs --open"));
            },
        };
        match require_plan(args.plan.as_ref(), plan_exists) {
            Ok(()) => {},
            Err(m) => {
                return Err(m);
            },
        }
        let id = match next_id(l) {
            Ok(id) => id,
            Err(m) => {
                return Err(m);
            },
        };
        let row = horizon_row(&id, args, kind, open);
        match document.append("horizon", &row) {
            Ok(()) => {},
            Err(m) => {
                return Err(m);
            },
        }
        return Ok(Report::Added { path: String::from_str(path), id, destination: Destination::Horizon });
    }
    if args.kind.is_some() || args.open.is_some() {
        return Err(String::from_str("--kind and --open belong to --horizon"));
    }
    if args.acceptance.len() == 0 {
        return Err(String::from_str("add to the queue needs --acceptance"));
    }
    match require_plan(args.plan.as_ref(), plan_exists) {
        Ok(()) => {},
        Err(m) => {
            return Err(m);
        },
    }
    let id = match next_id(l) {
        Ok(id) => id,
        Err(m) => {
            return Err(m);
        },
    };
    let mut ids = queued_ids(l);
    let at = match insertion_index(&ids, args.before.as_ref(), args.after.as_ref()) {
        Ok(at) => at,
        Err(m) => {
            return Err(m);
        },
    };
    if at == 0 && ids.len() > 0 {
        match &l.active {
            Some(active) => {
                let named = match &args.before {
                    Some(b) => b.clone(),
                    None => active.clone(),
                };
                let mut m = to_chars("add --before ");
                extend_str(&mut m, named.as_str());
                extend_str(&mut m, " would make ");
                extend_str(&mut m, id.as_str());
                extend_str(&mut m, " queue[0] while active is ");
                extend_str(&mut m, active.as_str());
                return Err(from_chars(m.as_slice()));
            },
            None => {},
        }
    }
    match check_blockers(&ids, id.as_str(), &args.blocked_by, at) {
        Ok(()) => {},
        Err(m) => {
            return Err(m);
        },
    }
    let row = queued_row(&id, args);
    match document.append("queue", &row) {
        Ok(()) => {},
        Err(m) => {
            return Err(m);
        },
    }
    if at < ids.len() {
        let ghost before = views(ids@);
        ids.insert(at, id.clone());
        proof {
            assert(views(ids@) =~= before.insert(at as int, id@));
        }
        match document.reorder_rows("queue", &ids) {
            Ok(()) => {},
            Err(m) => {
                return Err(m);
            },
        }
    }
    Ok(Report::Added { path: String::from_str(path), id, destination: Destination::Queue })
}


/// Where a row first sits in the queue.
pub open spec fn queued_at(l: Ledger, id: Seq<char>) -> Option<int> {
    first_index(queue_ids(l), id)
}

/// What `start` writes: the row moved to `queue[0]` and named `active`, or
/// why it refuses: the row is not queued, or it is still blocked.
pub open spec fn start_spec(id: Seq<char>, l: Ledger, s: Seq<char>) -> Result<Seq<char>, Seq<char>> {
    match queued_at(l, id) {
        None => Err(id + " is not queued"@),
        Some(k) => if l.queue@[k].blocked_by@.len() > 0 {
            Err(id + " is blocked"@)
        } else {
            match moved_to_front(s, "queue"@, id) {
                Err(e) => Err(e),
                Ok(t) => patch_spec(t, key_route("active"@), EditView::Replace(ScalarView::Text(id))),
            }
        },
    }
}

/// `start`: an unblocked queued row becomes `queue[0]` and `active`.
pub fn start(args: &IdArgs, path: &str, l: &Ledger, document: &mut Document) -> (res: Result<Report, String>)
    ensures
        match res {
            Ok(r) => start_spec(args.id@, *l, old(document)@) == Ok::<Seq<char>, Seq<char>>(final(document)@)
                && r == (Report::Started { path: r->Started_path, id: r->Started_id }) && r->Started_path@ == path@
                && r->Started_id@ == args.id@,
            Err(m) => start_spec(args.id@, *l, old(document)@) == Err::<Seq<char>, Seq<char>>(m@),
        },
        res is Err ==> final(document)@ == old(document)@,
{
    let mut work = document.duplicate();
    let res = start_in_place(args, path, l, &mut work);
    if res.is_ok() {
        *document = work;
    }
    res
}

/// The same verb, editing the text directly.
fn start_in_place(args: &IdArgs, path: &str, l: &Ledger, document: &mut Document) -> (res: Result<Report, String>)
    ensures
        match res {
            Ok(r) => start_spec(args.id@, *l, old(document)@) == Ok::<Seq<char>, Seq<char>>(final(document)@)
                && r == (Report::Started { path: r->Started_path, id: r->Started_id }) && r->Started_path@ == path@
                && r->Started_id@ == args.id@,
            Err(m) => start_spec(args.id@, *l, old(document)@) == Err::<Seq<char>, Seq<char>>(m@),
        },
{
    let ids = queued_ids(l);
    let k = match position(&ids, args.id.as_str()) {
        Some(k) => k,
        None => {
            let mut m = to_chars(args.id.as_str());
            extend_str(&mut m, " is not queued");
            return Err(from_chars(m.as_slice()));
        },
    };
    proof {
        lemma_first_index(views(ids@), args.id@);
    }
    if l.queue[k].blocked_by.len() > 0 {
        let mut m = to_chars(args.id.as_str());
        extend_str(&mut m, " is blocked");
        return Err(from_chars(m.as_slice()));
    }
    match document.move_to_front("queue", args.id.as_str()) {
        Ok(()) => {},
        Err(m) => {
            return Err(m);
        },
    }
    match document.set("active", Scalar::Text(args.id.clone())) {
        Ok(()) => {},
        Err(m) => {
            return Err(m);
        },
    }
    Ok(Report::Started { path: String::from_str(path), id: args.id.clone() })
}

/// The first row of these that names `id` among its blockers.
pub open spec fn first_blocked_by(q: Seq<crate::schema::QueuedTask>, id: Seq<char>) -> Option<int>
    decreases q.len(),
{
    if q.len() == 0 {
        None
    } else {
        match first_blocked_by(q.drop_last(), id) {
            Some(k) => Some(k),
            None => if views(q.last().blocked_by@).contains(id) {
                Some(q.len() - 1)
            } else {
                None
            },
        }
    }
}

/// Whether a list of strings holds `x`.
fn holds_id(list: &Vec<String>, x: &str) -> (res: bool)
    ensures
        res == views(list@).contains(x@),
{
    let found = position(list, x);
    proof {
        lemma_first_index(views(list@), x@);
    }
    found.is_some()
}

/// The first queued row that names `id` among its blockers.
fn find_blocked_by(l: &Ledger, id: &str) -> (res: Option<usize>)
    ensures
        match res {
            Some(k) => first_blocked_by(l.queue@, id@) == Some(k as int) && k < l.queue@.len(),
            None => first_blocked_by(l.queue@, id@) is None,
        },
{
    let mut k: usize = 0;
    assert(l.queue@.take(0) =~= Seq::<crate::schema::QueuedTask>::empty());
    while k < l.queue.len()
        invariant
            k <= l.queue@.len(),
            first_blocked_by(l.queue@.take(k as int), id@) is None,
        decreases l.queue@.len() - k,
    {
        proof {
            assert(l.queue@.take(k + 1).drop_last() == l.queue@.take(k as int));
            assert(l.queue@.take(k + 1).last() == l.queue@[k as int]);
        }
        if holds_id(&l.queue[k].blocked_by, id) {
            proof {
                lemma_first_blocked_by_stays(l.queue@, id@, k as int + 1);
            }
            return Some(k);
        }
        k = k + 1;
    }
    assert(l.queue@.take(l.queue@.len() as int) == l.queue@);
    None
}

proof fn lemma_first_blocked_by_stays(q: Seq<crate::schema::QueuedTask>, id: Seq<char>, k: int)
    requires
        0 <= k <= q.len(),
        first_blocked_by(q.take(k), id) is Some,
    ensures
        first_blocked_by(q, id) == first_blocked_by(q.take(k), id),
    decreases q.len() - k,
{
    if k < q.len() {
        assert(q.take(k + 1).drop_last() == q.take(k));
        lemma_first_blocked_by_stays(q, id, k + 1);
    } else {
        assert(q.take(k) == q);
    }
}

/// The changes a row undergoes when it leaves the queue for the horizon.
pub open spec fn parking(kind: Kind, open: Seq<char>) -> Seq<(Seq<char>, Option<FieldView>)> {
    seq![
        ("blocked_by"@, None),
        ("acceptance"@, None),
        ("kind"@, Some(FieldView::Text(kind_word(kind)))),
        ("open"@, Some(FieldView::Text(open))),
    ]
}

/// What `park` writes: a queued row demoted onto the horizon, losing what
/// only a queued row carries and gaining a kind and an open question, with
/// `active` nulled when it named the row; or why it refuses: the row is not
/// queued, or another queued row still names it as a blocker.
pub open spec fn park_spec(id: Seq<char>, kind: Kind, open: Seq<char>, l: Ledger, s: Seq<char>) -> Result<Seq<char>, Seq<char>> {
    match queued_at(l, id) {
        None => Err(id + " is not queued"@),
        Some(_) => match first_blocked_by(l.queue@, id) {
            Some(k) => Err(l.queue@[k].id@ + " still names "@ + id + " as a blocker"@),
            None => match moved_between(s, "queue"@, "horizon"@, id, parking(kind, open), false) {
                Err(e) => Err(e),
                Ok(t) => if active_of(l) == Some(id) {
                    patch_spec(t, key_route("active"@), EditView::Replace(ScalarView::Null))
                } else {
                    Ok(t)
                },
            },
        },
    }
}

/// `park`: a queued row demoted onto the horizon.
pub fn park(args: &ParkArgs, path: &str, l: &Ledger, document: &mut Document) -> (res: Result<Report, String>)
    ensures
        match res {
            Ok(r) => park_spec(args.id@, args.kind, args.open@, *l, old(document)@) == Ok::<Seq<char>, Seq<char>>(
                final(document)@,
            ) && r == (Report::Parked { path: r->Parked_path, id: r->Parked_id }) && r->Parked_path@ == path@
                && r->Parked_id@ == args.id@,
            Err(m) => park_spec(args.id@, args.kind, args.open@, *l, old(document)@) == Err::<Seq<char>, Seq<char>>(m@),
        },
        res is Err ==> final(document)@ == old(document)@,
{
    let mut work = document.duplicate();
    let res = park_in_place(args, path, l, &mut work);
    if res.is_ok() {
        *document = work;
    }
    res
}

/// The same verb, editing the text directly.
fn park_in_place(args: &ParkArgs, path: &str, l: &Ledger, document: &mut Document) -> (res: Result<Report, String>)
    ensures
        match res {
            Ok(r) => park_spec(args.id@, args.kind, args.open@, *l, old(document)@) == Ok::<Seq<char>, Seq<char>>(
                final(document)@,
            ) && r == (Report::Parked { path: r->Parked_path, id: r->Parked_id }) && r->Parked_path@ == path@
                && r->Parked_id@ == args.id@,
            Err(m) => park_spec(args.id@, args.kind, args.open@, *l, old(document)@) == Err::<Seq<char>, Seq<char>>(m@),
        },
{
    let ids = queued_ids(l);
    match position(&ids, args.id.as_str()) {
        Some(_) => {},
        None => {
            let mut m = to_chars(args.id.as_str());
            extend_str(&mut m, " is not queued");
            return Err(from_chars(m.as_slice()));
        },
    }
    match find_blocked_by(l, args.id.as_str()) {
        Some(k) => {
            let mut m = to_chars(l.queue[k].id.as_str());
            extend_str(&mut m, " still names ");
            extend_str(&mut m, args.id.as_str());
            extend_str(&mut m, " as a blocker");
            return Err(from_chars(m.as_slice()));
        },
        None => {},
    }
    let changes = vec![
        (String::from_str("blocked_by"), None),
        (String::from_str("acceptance"), None),
        (String::from_str("kind"), Some(FieldValue::Text(String::from_str(args.kind.word())))),
        (String::from_str("open"), Some(FieldValue::Text(args.open.clone()))),
    ];
    assert(change_views(changes@) =~= parking(args.kind, args.open@));
    match document.move_to_end("queue", "horizon", args.id.as_str(), &changes) {
        Ok(()) => {},
        Err(m) => {
            return Err(m);
        },
    }
    let parked_active = match &l.active {
        Some(a) => crate::chars::same_str(a.as_str(), args.id.as_str()),
        None => false,
    };
    if parked_active {
        match document.set("active", Scalar::Null) {
            Ok(()) => {},
            Err(m) => {
                return Err(m);
            },
        }
    }
    Ok(Report::Parked { path: String::from_str(path), id: args.id.clone() })
}

/// The horizon's ids.
pub open spec fn horizon_ids(l: Ledger) -> Seq<Seq<char>> {
    l.horizon@.map_values(|t: crate::schema::HorizonTask| t.id@)
}

/// The first of these blockers the queue does not hold.
pub open spec fn unqueued(ids: Seq<Seq<char>>, blockers: Seq<Seq<char>>) -> Option<Seq<char>>
    decreases blockers.len(),
{
    if blockers.len() == 0 {
        None
    } else {
        match unqueued(ids, blockers.drop_last()) {
            Some(b) => Some(b),
            None => if ids.contains(blockers.last()) {
                None
            } else {
                Some(blockers.last())
            },
        }
    }
}

/// The changes a row undergoes when it leaves the horizon for the queue.
pub open spec fn promotion(blocked_by: Seq<Seq<char>>, acceptance: Seq<Seq<char>>) -> Seq<(Seq<char>, Option<FieldView>)> {
    seq![
        ("kind"@, None),
        ("open"@, None),
        ("blocked_by"@, Some(FieldView::List(blocked_by))),
        ("acceptance"@, Some(FieldView::List(acceptance))),
    ]
}

/// What `promote` writes: a horizon row moved to the queue's tail, losing
/// its kind and open question and gaining blockers and acceptance; or why it
/// refuses: no acceptance, the row is not on the horizon, or a blocker is not
/// queued.
pub open spec fn promote_spec(args: PromoteArgs, l: Ledger, s: Seq<char>) -> Result<Seq<char>, Seq<char>> {
    if args.acceptance@.len() == 0 {
        Err("promote onto the queue needs --acceptance"@)
    } else if !horizon_ids(l).contains(args.id@) {
        Err(args.id@ + " is not on the horizon"@)
    } else {
        match unqueued(queue_ids(l), views(args.blocked_by@)) {
            Some(b) => Err(args.id@ + " <- "@ + b + " is not queued"@),
            None => moved_between(
                s,
                "horizon"@,
                "queue"@,
                args.id@,
                promotion(views(args.blocked_by@), views(args.acceptance@)),
                false,
            ),
        }
    }
}

/// `promote`: a horizon row onto the queue's tail. It does not become active.
#[verifier::loop_isolation(false)]
pub fn promote(args: &PromoteArgs, path: &str, l: &Ledger, document: &mut Document) -> (res: Result<Report, String>)
    ensures
        match res {
            Ok(r) => promote_spec(*args, *l, old(document)@) == Ok::<Seq<char>, Seq<char>>(final(document)@) && r == (
            Report::Promoted { path: r->Promoted_path, id: r->Promoted_id }) && r->Promoted_path@ == path@
                && r->Promoted_id@ == args.id@,
            Err(m) => promote_spec(*args, *l, old(document)@) == Err::<Seq<char>, Seq<char>>(m@),
        },
        res is Err ==> final(document)@ == old(document)@,
{
    let mut work = document.duplicate();
    let res = promote_in_place(args, path, l, &mut work);
    if res.is_ok() {
        *document = work;
    }
    res
}

/// The same verb, editing the text directly.
#[verifier::loop_isolation(false)]
fn promote_in_place(args: &PromoteArgs, path: &str, l: &Ledger, document: &mut Document) -> (res: Result<Report, String>)
    ensures
        match res {
            Ok(r) => promote_spec(*args, *l, old(document)@) == Ok::<Seq<char>, Seq<char>>(final(document)@) && r == (
            Report::Promoted { path: r->Promoted_path, id: r->Promoted_id }) && r->Promoted_path@ == path@
                && r->Promoted_id@ == args.id@,
            Err(m) => promote_spec(*args, *l, old(document)@) == Err::<Seq<char>, Seq<char>>(m@),
        },
{
    if args.acceptance.len() == 0 {
        return Err(String::from_str("promote onto the queue needs --acceptance"));
    }
    let mut horizon: Vec<String> = Vec::new();
    let mut h: usize = 0;
    while h < l.horizon.len()
        invariant
            h <= l.horizon@.len(),
            views(horizon@) == horizon_ids(*l).take(h as int),
        decreases l.horizon@.len() - h,
    {
        let ghost before = horizon@;
        horizon.push(l.horizon[h].id.clone());
        proof {
            assert(views(horizon@) =~= views(before).push(l.horizon@[h as int].id@));
            assert(horizon_ids(*l).take(h + 1) =~= horizon_ids(*l).take(h as int).push(l.horizon@[h as int].id@));
        }
        h = h + 1;
    }
    assert(horizon_ids(*l).take(l.horizon@.len() as int) == horizon_ids(*l));
    if !holds_id(&horizon, args.id.as_str()) {
        let mut m = to_chars(args.id.as_str());
        extend_str(&mut m, " is not on the horizon");
        return Err(from_chars(m.as_slice()));
    }
    let ids = queued_ids(l);
    let mut k: usize = 0;
    assert(views(args.blocked_by@).take(0) =~= Seq::<Seq<char>>::empty());
    while k < args.blocked_by.len()
        invariant
            k <= args.blocked_by@.len(),
            views(ids@) == queue_ids(*l),
            unqueued(queue_ids(*l), views(args.blocked_by@).take(k as int)) is None,
        decreases args.blocked_by@.len() - k,
    {
        proof {
            assert(views(args.blocked_by@).take(k + 1).drop_last() == views(args.blocked_by@).take(k as int));
            assert(views(args.blocked_by@).take(k + 1).last() == args.blocked_by@[k as int]@);
        }
        if !holds_id(&ids, args.blocked_by[k].as_str()) {
            proof {
                lemma_unqueued_stays(queue_ids(*l), views(args.blocked_by@), k as int + 1);
            }
            let mut m = to_chars(args.id.as_str());
            extend_str(&mut m, " <- ");
            extend_str(&mut m, args.blocked_by[k].as_str());
            extend_str(&mut m, " is not queued");
            return Err(from_chars(m.as_slice()));
        }
        k = k + 1;
    }
    assert(views(args.blocked_by@).take(args.blocked_by@.len() as int) == views(args.blocked_by@));
    let changes = vec![
        (String::from_str("kind"), None),
        (String::from_str("open"), None),
        (String::from_str("blocked_by"), Some(FieldValue::List(copy_strings(&args.blocked_by)))),
        (String::from_str("acceptance"), Some(FieldValue::List(copy_strings(&args.acceptance)))),
    ];
    assert(change_views(changes@) =~= promotion(views(args.blocked_by@), views(args.acceptance@)));
    match document.move_to_end("horizon", "queue", args.id.as_str(), &changes) {
        Ok(()) => {},
        Err(m) => {
            return Err(m);
        },
    }
    Ok(Report::Promoted { path: String::from_str(path), id: args.id.clone() })
}

proof fn lemma_unqueued_stays(ids: Seq<Seq<char>>, blockers: Seq<Seq<char>>, k: int)
    requires
        0 <= k <= blockers.len(),
        unqueued(ids, blockers.take(k)) is Some,
    ensures
        unqueued(ids, blockers) == unqueued(ids, blockers.take(k)),
    decreases blockers.len() - k,
{
    if k < blockers.len() {
        assert(blockers.take(k + 1).drop_last() == blockers.take(k));
        lemma_unqueued_stays(ids, blockers, k + 1);
    } else {
        assert(blockers.take(k) == blockers);
    }
}


/// The changes a row undergoes when it leaves the queue for the archive.
pub open spec fn archiving(now: Seq<char>, evidence: Seq<Seq<char>>, disposition: Seq<char>) -> Seq<(Seq<char>, Option<FieldView>)> {
    seq![
        ("blocked_by"@, None),
        ("acceptance"@, None),
        ("completed"@, Some(FieldView::Text(now))),
        ("evidence"@, Some(FieldView::List(evidence))),
        ("disposition"@, Some(FieldView::Text(disposition))),
    ]
}

/// A list without any copy of `id`.
pub open spec fn kept_blockers(blockers: Seq<Seq<char>>, id: Seq<char>) -> Seq<Seq<char>>
    decreases blockers.len(),
{
    if blockers.len() == 0 {
        Seq::empty()
    } else {
        let rest = kept_blockers(blockers.drop_last(), id);
        if blockers.last() == id {
            rest
        } else {
            rest.push(blockers.last())
        }
    }
}

/// The text with `id` taken out of the `blocked_by` of every one of these
/// queued rows that names it, in queue order.
pub open spec fn unblocked(s: Seq<char>, q: Seq<crate::schema::QueuedTask>, id: Seq<char>) -> Result<Seq<char>, Seq<char>>
    decreases q.len(),
{
    if q.len() == 0 {
        Ok(s)
    } else {
        match unblocked(s, q.drop_last(), id) {
            Err(e) => Err(e),
            Ok(t) => {
                let task = q.last();
                if views(task.blocked_by@).contains(id) {
                    blockers_rewritten(t, "queue"@, task.id@, kept_blockers(views(task.blocked_by@), id))
                } else {
                    Ok(t)
                }
            },
        }
    }
}

/// What `archive` writes: the queued row moved to the archive's front with
/// its completion stamped, every `blocked_by` that named it rewritten without
/// it, and `active` set to the queue's new first row, or null when the queue
/// is empty; or why it refuses: the row is not queued, or the moment could
/// not be read. `now` is the outcome of reading the clock in the ledger's
/// zone.
pub open spec fn archive_spec(args: ArchiveArgs, l: Ledger, s: Seq<char>, now: Result<Seq<char>, Seq<char>>) -> Result<Seq<char>, Seq<char>> {
    if !queue_ids(l).contains(args.id@) {
        Err(args.id@ + " is not queued"@)
    } else {
        match now {
            Err(e) => Err(e),
            Ok(stamp) => match moved_between(
                s,
                "queue"@,
                "archive"@,
                args.id@,
                archiving(stamp, views(args.evidence@), disposition_word(args.disposition)),
                true,
            ) {
                Err(e) => Err(e),
                Ok(t) => match unblocked(t, l.queue@, args.id@) {
                    Err(e) => Err(e),
                    Ok(u) => match section_ids(u, "queue"@) {
                        Err(e) => Err(e),
                        Ok(ids) => patch_spec(
                            u,
                            key_route("active"@),
                            EditView::Replace(
                                if ids.len() > 0 {
                                    ScalarView::Text(ids[0])
                                } else {
                                    ScalarView::Null
                                },
                            ),
                        ),
                    },
                },
            },
        }
    }
}

/// A list without any copy of `id`.
fn without_id(blockers: &Vec<String>, id: &str) -> (out: Vec<String>)
    ensures
        views(out@) == kept_blockers(views(blockers@), id@),
{
    let mut out: Vec<String> = Vec::new();
    let mut i: usize = 0;
    assert(views(blockers@).take(0) =~= Seq::<Seq<char>>::empty());
    while i < blockers.len()
        invariant
            i <= blockers@.len(),
            views(out@) == kept_blockers(views(blockers@).take(i as int), id@),
        decreases blockers@.len() - i,
    {
        proof {
            assert(views(blockers@).take(i + 1).drop_last() == views(blockers@).take(i as int));
            assert(views(blockers@).take(i + 1).last() == blockers@[i as int]@);
        }
        if !crate::chars::same_str(blockers[i].as_str(), id) {
            let ghost before = out@;
            out.push(blockers[i].clone());
            proof {
                assert(views(out@) =~= views(before).push(blockers@[i as int]@));
            }
        }
        i = i + 1;
    }
    assert(views(blockers@).take(blockers@.len() as int) == views(blockers@));
    out
}

proof fn lemma_unblocked_err(s: Seq<char>, q: Seq<crate::schema::QueuedTask>, id: Seq<char>, k: int)
    requires
        0 <= k <= q.len(),
        unblocked(s, q.take(k), id) is Err,
    ensures
        unblocked(s, q, id) == unblocked(s, q.take(k), id),
    decreases q.len() - k,
{
    if k < q.len() {
        assert(q.take(k + 1).drop_last() == q.take(k));
        lemma_unblocked_err(s, q, id, k + 1);
    } else {
        assert(q.take(k) == q);
    }
}

/// `archive`: a queued row moves to the archive, and nothing left behind
/// still names it.
pub fn archive(args: &ArchiveArgs, path: &str, l: &Ledger, document: &mut Document, now: Result<String, String>) -> (res: Result<Report, String>)
    ensures
        match res {
            Ok(r) => archive_spec(*args, *l, old(document)@, match now {
                Ok(t) => Ok(t@),
                Err(e) => Err(e@),
            }) == Ok::<Seq<char>, Seq<char>>(final(document)@) && r == (Report::Archived {
                path: r->Archived_path,
                id: r->Archived_id,
            }) && r->Archived_path@ == path@ && r->Archived_id@ == args.id@,
            Err(m) => archive_spec(*args, *l, old(document)@, match now {
                Ok(t) => Ok(t@),
                Err(e) => Err(e@),
            }) == Err::<Seq<char>, Seq<char>>(m@),
        },
        res is Err ==> final(document)@ == old(document)@,
{
    let mut work = document.duplicate();
    let res = archive_in_place(args, path, l, &mut work, now);
    if res.is_ok() {
        *document = work;
    }
    res
}

/// The same verb, editing the text directly.
#[verifier::loop_isolation(false)]
#[verifier::rlimit(30)]
fn archive_in_place(args: &ArchiveArgs, path: &str, l: &Ledger, document: &mut Document, now: Result<String, String>) -> (res: Result<Report, String>)
    ensures
        match res {
            Ok(r) => archive_spec(*args, *l, old(document)@, match now {
                Ok(t) => Ok(t@),
                Err(e) => Err(e@),
            }) == Ok::<Seq<char>, Seq<char>>(final(document)@) && r == (Report::Archived {
                path: r->Archived_path,
                id: r->Archived_id,
            }) && r->Archived_path@ == path@ && r->Archived_id@ == args.id@,
            Err(m) => archive_spec(*args, *l, old(document)@, match now {
                Ok(t) => Ok(t@),
                Err(e) => Err(e@),
            }) == Err::<Seq<char>, Seq<char>>(m@),
        },
{
    let ids = queued_ids(l);
    if !holds_id(&ids, args.id.as_str()) {
        let mut m = to_chars(args.id.as_str());
        extend_str(&mut m, " is not queued");
        return Err(from_chars(m.as_slice()));
    }
    let stamp = match now {
        Ok(t) => t,
        Err(e) => {
            return Err(e);
        },
    };
    let changes = vec![
        (String::from_str("blocked_by"), None),
        (String::from_str("acceptance"), None),
        (String::from_str("completed"), Some(FieldValue::Text(stamp))),
        (String::from_str("evidence"), Some(FieldValue::List(copy_strings(&args.evidence)))),
        (String::from_str("disposition"), Some(FieldValue::Text(String::from_str(args.disposition.as_str())))),
    ];
    assert(change_views(changes@) =~= archiving(stamp@, views(args.evidence@), disposition_word(args.disposition)));
    match document.move_between("queue", "archive", args.id.as_str(), &changes) {
        Ok(()) => {},
        Err(m) => {
            return Err(m);
        },
    }
    let ghost moved = document@;
    let mut k: usize = 0;
    assert(l.queue@.take(0) =~= Seq::<crate::schema::QueuedTask>::empty());
    while k < l.queue.len()
        invariant
            k <= l.queue@.len(),
            unblocked(moved, l.queue@.take(k as int), args.id@) == Ok::<Seq<char>, Seq<char>>(document@),
        decreases l.queue@.len() - k,
    {
        proof {
            assert(l.queue@.take(k + 1).drop_last() == l.queue@.take(k as int));
            assert(l.queue@.take(k + 1).last() == l.queue@[k as int]);
        }
        let task = &l.queue[k];
        if holds_id(&task.blocked_by, args.id.as_str()) {
            let kept = without_id(&task.blocked_by, args.id.as_str());
            match document.rewrite_blockers("queue", task.id.as_str(), &kept) {
                Ok(()) => {},
                Err(m) => {
                    proof {
                        lemma_unblocked_err(moved, l.queue@, args.id@, k as int + 1);
                    }
                    return Err(m);
                },
            }
        }
        k = k + 1;
    }
    assert(l.queue@.take(l.queue@.len() as int) == l.queue@);
    let next = match document.ids("queue") {
        Ok(ids) => ids,
        Err(m) => {
            return Err(m);
        },
    };
    let value = if next.len() > 0 {
        Scalar::Text(next[0].clone())
    } else {
        Scalar::Null
    };
    match document.set("active", value) {
        Ok(()) => {},
        Err(m) => {
            return Err(m);
        },
    }
    Ok(Report::Archived { path: String::from_str(path), id: args.id.clone() })
}

} // verus!
