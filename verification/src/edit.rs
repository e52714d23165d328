//! Surgical edits to one existing queue, horizon, or archive row.

pub mod fields;
pub mod lists;
pub mod policy;
pub mod position;

use crate::chars::{extend_str, from_chars, to_chars, views};
use crate::cli::{EditArgs, RemoveField};
use crate::document::render::FieldView;
use crate::document::{change_views, cut_spec, pasted_at, revised, revise_fields, section_ids, Document};
use crate::edit::fields::{changes, changes_spec, list_view, Changes, ListEdit};
use crate::edit::lists::{applied, apply, copy_strings, first_index, lemma_first_index, selectors_for, Removals};
use crate::edit::policy::{refusal, requested, requested_fields, validate, kind_section, RowKind};
use crate::edit::position::{destination, destination_for, ids_of};
use crate::mutate::{horizon_ids, opt_text, position, queue_ids};
use crate::report::Report;
use crate::schema::{ArchivedTask, Ledger};
use vstd::prelude::*;

verus! {

/// The archive's ids.
pub open spec fn archive_ids(l: Ledger) -> Seq<Seq<char>> {
    l.archive@.map_values(|t: ArchivedTask| t.id@)
}

/// Which list holds a row, and where: the queue first, then the horizon,
/// then the archive.
pub open spec fn locate_spec(l: Ledger, id: Seq<char>) -> Result<(RowKind, int), Seq<char>> {
    match first_index(queue_ids(l), id) {
        Some(i) => Ok((RowKind::Queue, i)),
        None => match first_index(horizon_ids(l), id) {
            Some(i) => Ok((RowKind::Horizon, i)),
            None => match first_index(archive_ids(l), id) {
                Some(i) => Ok((RowKind::Archive, i)),
                None => Err(id + " is not in the ledger"@),
            },
        },
    }
}

/// A row's notes and links, wherever it stands.
pub open spec fn notes_links(l: Ledger, kind: RowKind, i: int) -> (Seq<Seq<char>>, Seq<Seq<char>>) {
    match kind {
        RowKind::Queue => (views(l.queue@[i].notes@), views(l.queue@[i].links@)),
        RowKind::Horizon => (views(l.horizon@[i].notes@), views(l.horizon@[i].links@)),
        RowKind::Archive => (views(l.archive@[i].notes@), views(l.archive@[i].links@)),
    }
}

/// The selectors `--remove` names for one list.
pub open spec fn removals_for(args: EditArgs, field: RemoveField) -> Seq<Seq<char>> {
    selectors_for(args.remove@, field)
}

/// The lists an edit rewrites on a row of this kind, as key, old and new,
/// and the queued row's new blockers; or why it refuses.
pub open spec fn edited_lists(args: EditArgs, l: Ledger, kind: RowKind, i: int) -> Result<
    (Seq<(Seq<char>, Seq<Seq<char>>, Seq<Seq<char>>)>, Option<Seq<Seq<char>>>),
    Seq<char>,
> {
    let (notes, links) = notes_links(l, kind, i);
    match applied(notes, views(args.note@), removals_for(args, RemoveField::Note), opt_text(args.reorder_notes)) {
        Err(e) => Err(e),
        Ok(notes2) => match applied(links, views(args.links@), removals_for(args, RemoveField::Link), None) {
            Err(e) => Err(e),
            Ok(links2) => {
                let both = seq![("notes"@, notes, notes2), ("links"@, links, links2)];
                match kind {
                    RowKind::Queue => {
                        let acc = views(l.queue@[i].acceptance@);
                        let blocked = views(l.queue@[i].blocked_by@);
                        match applied(acc, views(args.acceptance@), removals_for(args, RemoveField::Acceptance), None) {
                            Err(e) => Err(e),
                            Ok(acc2) => if acc2.len() == 0 {
                                Err("queued rows need acceptance"@)
                            } else {
                                match applied(
                                    blocked,
                                    views(args.blocked_by@),
                                    removals_for(args, RemoveField::BlockedBy),
                                    None,
                                ) {
                                    Err(e) => Err(e),
                                    Ok(blocked2) => Ok(
                                        (
                                            both + seq![("acceptance"@, acc, acc2), ("blocked_by"@, blocked, blocked2)],
                                            Some(blocked2),
                                        ),
                                    ),
                                }
                            },
                        }
                    },
                    RowKind::Horizon => Ok((both, None)),
                    RowKind::Archive => {
                        let ev = views(l.archive@[i].evidence@);
                        match applied(ev, views(args.evidence@), removals_for(args, RemoveField::Evidence), None) {
                            Err(e) => Err(e),
                            Ok(ev2) => if ev2.len() == 0 {
                                Err("archived rows need evidence"@)
                            } else {
                                Ok((both + seq![("evidence"@, ev, ev2)], None))
                            },
                        }
                    },
                }
            },
        },
    }
}

/// What an edit does to the ledger it read: the row's list, its index, the
/// key changes, and where the row ends up; or why it refuses.
pub open spec fn edit_plan(args: EditArgs, l: Ledger, plan_exists: bool) -> Result<(RowKind, int, Changes, int), Seq<char>> {
    let requested = requested_fields(args);
    if requested.len() == 0 {
        Err("edit needs a field or a position"@)
    } else {
        match locate_spec(l, args.id@) {
            Err(e) => Err(e),
            Ok((kind, i)) => match refusal(requested, kind) {
                Some(m) => Err(m),
                None => match edited_lists(args, l, kind, i) {
                    Err(e) => Err(e),
                    Ok((lists, blockers)) => match changes_spec(args, plan_exists, lists) {
                        Err(e) => Err(e),
                        Ok(ch) => if kind == RowKind::Queue {
                            match destination_for(l, args, blockers) {
                                Err(e) => Err(e),
                                Ok(d) => Ok((kind, i, ch, d)),
                            }
                        } else {
                            Ok((kind, i, ch, i))
                        },
                    },
                },
            },
        }
    }
}

/// The text with a row rewritten and put at `destination`, and whether
/// anything changed: a row with no key changes that stays put is left as it
/// is; otherwise it is cut out, revised on its own, and pasted back.
pub open spec fn rewritten(s: Seq<char>, section: Seq<char>, id: Seq<char>, destination: int, changes: Changes) -> Result<(Seq<char>, bool), Seq<char>> {
    match section_ids(s, section) {
        Err(e) => Err(e),
        Ok(ids) => match first_index(ids, id) {
            None => Err(id + " is not in "@ + section),
            Some(current) => if changes.len() == 0 && current == destination {
                Ok((s, false))
            } else {
                match cut_spec(s, section, id) {
                    Err(e) => Err(e),
                    Ok((t, row)) => {
                        let r = if changes.len() == 0 {
                            Ok(row)
                        } else {
                            revised(row, changes)
                        };
                        match r {
                            Err(e) => Err(e),
                            Ok(r2) => match pasted_at(t, section, destination, r2) {
                                Err(e) => Err(e),
                                Ok(u) => Ok((u, true)),
                            },
                        }
                    },
                }
            },
        },
    }
}

/// What `edit` does: the new text and whether it changed, or why it refuses.
pub open spec fn edit_spec(args: EditArgs, l: Ledger, s: Seq<char>, plan_exists: bool) -> Result<(Seq<char>, bool), Seq<char>> {
    match edit_plan(args, l, plan_exists) {
        Err(e) => Err(e),
        Ok((kind, _, ch, d)) => rewritten(s, kind_section(kind), args.id@, d, ch),
    }
}

/// Where a string first sits among some rows' ids.
fn locate(l: &Ledger, id: &str) -> (res: Result<(RowKind, usize), String>)
    ensures
        match res {
            Ok((k, i)) => locate_spec(*l, id@) == Ok::<(RowKind, int), Seq<char>>((k, i as int)) && match k {
                RowKind::Queue => i < l.queue@.len(),
                RowKind::Horizon => i < l.horizon@.len(),
                RowKind::Archive => i < l.archive@.len(),
            },
            Err(m) => locate_spec(*l, id@) == Err::<(RowKind, int), Seq<char>>(m@),
        },
{
    let mut q: Vec<String> = Vec::new();
    let mut k: usize = 0;
    while k < l.queue.len()
        invariant
            k <= l.queue@.len(),
            views(q@) == queue_ids(*l).take(k as int),
        decreases l.queue@.len() - k,
    {
        let ghost before = q@;
        q.push(l.queue[k].id.clone());
        proof {
            assert(views(q@) =~= views(before).push(l.queue@[k as int].id@));
            assert(queue_ids(*l).take(k + 1) =~= queue_ids(*l).take(k as int).push(l.queue@[k as int].id@));
        }
        k = k + 1;
    }
    assert(queue_ids(*l).take(l.queue@.len() as int) == queue_ids(*l));
    match position(&q, id) {
        Some(i) => {
            proof {
                lemma_first_index(views(q@), id@);
            }
            return Ok((RowKind::Queue, i));
        },
        None => {},
    }
    let mut h: Vec<String> = Vec::new();
    let mut k: usize = 0;
    while k < l.horizon.len()
        invariant
            k <= l.horizon@.len(),
            views(h@) == horizon_ids(*l).take(k as int),
        decreases l.horizon@.len() - k,
    {
        let ghost before = h@;
        h.push(l.horizon[k].id.clone());
        proof {
            assert(views(h@) =~= views(before).push(l.horizon@[k as int].id@));
            assert(horizon_ids(*l).take(k + 1) =~= horizon_ids(*l).take(k as int).push(l.horizon@[k as int].id@));
        }
        k = k + 1;
    }
    assert(horizon_ids(*l).take(l.horizon@.len() as int) == horizon_ids(*l));
    match position(&h, id) {
        Some(i) => {
            proof {
                lemma_first_index(views(h@), id@);
            }
            return Ok((RowKind::Horizon, i));
        },
        None => {},
    }
    let mut a: Vec<String> = Vec::new();
    let mut k: usize = 0;
    while k < l.archive.len()
        invariant
            k <= l.archive@.len(),
            views(a@) == archive_ids(*l).take(k as int),
        decreases l.archive@.len() - k,
    {
        let ghost before = a@;
        a.push(l.archive[k].id.clone());
        proof {
            assert(views(a@) =~= views(before).push(l.archive@[k as int].id@));
            assert(archive_ids(*l).take(k + 1) =~= archive_ids(*l).take(k as int).push(l.archive@[k as int].id@));
        }
        k = k + 1;
    }
    assert(archive_ids(*l).take(l.archive@.len() as int) == archive_ids(*l));
    match position(&a, id) {
        Some(i) => {
            proof {
                lemma_first_index(views(a@), id@);
            }
            Ok((RowKind::Archive, i))
        },
        None => {
            let mut m = to_chars(id);
            extend_str(&mut m, " is not in the ledger");
            Err(from_chars(m.as_slice()))
        },
    }
}


/// An optional string as a borrowed `str`.
fn as_text(o: &Option<String>) -> (res: Option<&str>)
    ensures
        match res {
            Some(t) => o matches Some(x) && t@ == x@,
            None => o is None,
        },
{
    match o {
        Some(x) => Some(x.as_str()),
        None => None,
    }
}

/// The lists an edit rewrites on the located row, and a queued row's new
/// blockers.
#[verifier::loop_isolation(false)]
fn row_edits(args: &EditArgs, l: &Ledger, kind: RowKind, i: usize) -> (res: Result<(Vec<ListEdit>, Option<Vec<String>>), String>)
    requires
        match kind {
            RowKind::Queue => i < l.queue@.len(),
            RowKind::Horizon => i < l.horizon@.len(),
            RowKind::Archive => i < l.archive@.len(),
        },
    ensures
        match res {
            Ok((lists, blockers)) => edited_lists(*args, *l, kind, i as int) == Ok::<
                (Seq<(Seq<char>, Seq<Seq<char>>, Seq<Seq<char>>)>, Option<Seq<Seq<char>>>),
                Seq<char>,
            >((lists@.map_values(|e: ListEdit| list_view(e)), match blockers {
                Some(b) => Some(views(b@)),
                None => None,
            })),
            Err(m) => edited_lists(*args, *l, kind, i as int) == Err::<
                (Seq<(Seq<char>, Seq<Seq<char>>, Seq<Seq<char>>)>, Option<Seq<Seq<char>>>),
                Seq<char>,
            >(m@),
        },
{
    let removals = Removals::new(args);
    let (notes, links) = match kind {
        RowKind::Queue => (&l.queue[i].notes, &l.queue[i].links),
        RowKind::Horizon => (&l.horizon[i].notes, &l.horizon[i].links),
        RowKind::Archive => (&l.archive[i].notes, &l.archive[i].links),
    };
    let reorder = as_text(&args.reorder_notes);
    let notes2 = match apply(notes, &args.note, removals.for_field(RemoveField::Note), reorder) {
        Ok(n) => n,
        Err(m) => {
            return Err(m);
        },
    };
    let links2 = match apply(links, &args.links, removals.for_field(RemoveField::Link), None) {
        Ok(n) => n,
        Err(m) => {
            return Err(m);
        },
    };
    let mut lists = vec![
        ListEdit { key: String::from_str("notes"), before: copy_strings(notes), after: notes2 },
        ListEdit { key: String::from_str("links"), before: copy_strings(links), after: links2 },
    ];
    let ghost both = lists@.map_values(|e: ListEdit| list_view(e));
    proof {
        let (n0, l0) = notes_links(*l, kind, i as int);
        assert(n0 == views(notes@) && l0 == views(links@));
        assert(removals.of(RemoveField::Note) == removals_for(*args, RemoveField::Note));
        assert(removals.of(RemoveField::Link) == removals_for(*args, RemoveField::Link));
        assert(match reorder {
            Some(o) => Some(o@),
            None => None,
        } == opt_text(args.reorder_notes));
        assert(both =~= seq![("notes"@, n0, views(lists@[0].after@)), ("links"@, l0, views(lists@[1].after@))]);
    }
    match kind {
        RowKind::Queue => {
            let acc = &l.queue[i].acceptance;
            let acc2 = match apply(acc, &args.acceptance, removals.for_field(RemoveField::Acceptance), None) {
                Ok(n) => n,
                Err(m) => {
                    return Err(m);
                },
            };
            if acc2.len() == 0 {
                return Err(String::from_str("queued rows need acceptance"));
            }
            let blocked = &l.queue[i].blocked_by;
            let blocked2 = match apply(blocked, &args.blocked_by, removals.for_field(RemoveField::BlockedBy), None) {
                Ok(n) => n,
                Err(m) => {
                    return Err(m);
                },
            };
            lists.push(ListEdit { key: String::from_str("acceptance"), before: copy_strings(acc), after: acc2 });
            let kept = copy_strings(&blocked2);
            lists.push(ListEdit { key: String::from_str("blocked_by"), before: copy_strings(blocked), after: blocked2 });
            assert(lists@.map_values(|e: ListEdit| list_view(e)) =~= both + seq![
                ("acceptance"@, views(acc@), views(lists@[2].after@)),
                ("blocked_by"@, views(blocked@), views(kept@)),
            ]);
            Ok((lists, Some(kept)))
        },
        RowKind::Horizon => Ok((lists, None)),
        RowKind::Archive => {
            let ev = &l.archive[i].evidence;
            let ev2 = match apply(ev, &args.evidence, removals.for_field(RemoveField::Evidence), None) {
                Ok(n) => n,
                Err(m) => {
                    return Err(m);
                },
            };
            if ev2.len() == 0 {
                return Err(String::from_str("archived rows need evidence"));
            }
            lists.push(ListEdit { key: String::from_str("evidence"), before: copy_strings(ev), after: ev2 });
            assert(lists@.map_values(|e: ListEdit| list_view(e)) =~= both + seq![
                ("evidence"@, views(ev@), views(lists@[2].after@)),
            ]);
            Ok((lists, None))
        },
    }
}

/// `edit`: rewrite named fields on one queued, horizon, or archived row, and
/// move a queued row, without touching any other line. The ledger is the file
/// as read and checked; whether `--plan` names a file beside it is the
/// caller's to look up. `Ok` carries whether the text changed, so an edit that
/// changes nothing writes nothing.
pub fn run(args: &EditArgs, path: &str, l: &Ledger, document: &mut Document, plan_exists: bool) -> (res: Result<(Report, bool), String>)
    ensures
        match res {
            Ok((r, changed)) => edit_spec(*args, *l, old(document)@, plan_exists) == Ok::<(Seq<char>, bool), Seq<char>>(
                (final(document)@, changed),
            ) && r == (Report::Edited { path: r->Edited_path, id: r->Edited_id }) && r->Edited_path@ == path@
                && r->Edited_id@ == args.id@,
            Err(m) => edit_spec(*args, *l, old(document)@, plan_exists) == Err::<(Seq<char>, bool), Seq<char>>(m@),
        },
        res is Err ==> final(document)@ == old(document)@,
{
    let mut work = document.duplicate();
    let res = run_in_place(args, path, l, &mut work, plan_exists);
    if res.is_ok() {
        *document = work;
    }
    res
}

/// The same verb, editing the text directly.
fn run_in_place(args: &EditArgs, path: &str, l: &Ledger, document: &mut Document, plan_exists: bool) -> (res: Result<(Report, bool), String>)
    ensures
        match res {
            Ok((r, changed)) => edit_spec(*args, *l, old(document)@, plan_exists) == Ok::<(Seq<char>, bool), Seq<char>>(
                (final(document)@, changed),
            ) && r == (Report::Edited { path: r->Edited_path, id: r->Edited_id }) && r->Edited_path@ == path@
                && r->Edited_id@ == args.id@,
            Err(m) => edit_spec(*args, *l, old(document)@, plan_exists) == Err::<(Seq<char>, bool), Seq<char>>(m@),
        },
{
    let wanted = requested(args);
    if wanted.len() == 0 {
        return Err(String::from_str("edit needs a field or a position"));
    }
    let (kind, i) = match locate(l, args.id.as_str()) {
        Ok(p) => p,
        Err(m) => {
            return Err(m);
        },
    };
    match validate(&wanted, kind) {
        Ok(()) => {},
        Err(m) => {
            return Err(m);
        },
    }
    let (lists, blockers) = match row_edits(args, l, kind, i) {
        Ok(p) => p,
        Err(m) => {
            return Err(m);
        },
    };
    let ch = match changes(args, plan_exists, &lists) {
        Ok(c) => c,
        Err(m) => {
            return Err(m);
        },
    };
    let d = if kind == RowKind::Queue {
        proof {
            assert(ids_of(l.queue@) == queue_ids(*l));
            lemma_first_index(queue_ids(*l), args.id@);
        }
        match destination(l, args, blockers.as_ref()) {
            Ok(d) => d,
            Err(m) => {
                return Err(m);
            },
        }
    } else {
        i
    };
    let section = kind.section();
    let current = match document.position_of(section, args.id.as_str()) {
        Ok(c) => c,
        Err(m) => {
            return Err(m);
        },
    };
    let report = Report::Edited { path: String::from_str(path), id: args.id.clone() };
    if ch.len() == 0 && current == d {
        return Ok((report, false));
    }
    let row = match document.cut(section, args.id.as_str()) {
        Ok(r) => r,
        Err(m) => {
            return Err(m);
        },
    };
    let row = if ch.len() == 0 {
        row
    } else {
        match revise_fields(row.as_str(), &ch) {
            Ok(r) => r,
            Err(m) => {
                return Err(m);
            },
        }
    };
    match document.paste_at(section, d, row.as_str()) {
        Ok(()) => {},
        Err(m) => {
            return Err(m);
        },
    }
    Ok((report, true))
}

} // verus!
