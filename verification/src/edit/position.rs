//! Where `edit --position` puts a queued row, revalidating every blocker.

use crate::chars::{extend_str, from_chars, same, to_chars, views};
use crate::cli::{position_view, EditArgs, EditPosition};
use crate::edit::lists::{copy_strings, first_index, lemma_first_index};
use crate::ledger::order::{order_problems, validate, Row};
use crate::schema::{Ledger, QueuedTask};
use vstd::prelude::*;

verus! {

/// The ids without every copy of `x`, in order.
pub open spec fn without(ids: Seq<Seq<char>>, x: Seq<char>) -> Seq<Seq<char>>
    decreases ids.len(),
{
    if ids.len() == 0 {
        Seq::empty()
    } else {
        let rest = without(ids.drop_last(), x);
        if ids.last() == x {
            rest
        } else {
            rest.push(ids.last())
        }
    }
}

/// A requested position as tag and id.
pub open spec fn position_opt(p: Option<EditPosition>) -> Option<(nat, Seq<char>)> {
    match p {
        Some(q) => Some(position_view(q)),
        None => None,
    }
}

/// The index a position names among the rows that stay.
pub open spec fn index_for(ids: Seq<Seq<char>>, current: int, position: Option<(nat, Seq<char>)>) -> Result<int, Seq<char>> {
    match position {
        None => Ok(current),
        Some((tag, id)) => {
            let remaining = without(ids, ids[current]);
            if tag == 0 {
                Ok(0)
            } else if tag == 1 {
                Ok(remaining.len() as int)
            } else {
                match first_index(remaining, id) {
                    Some(i) => if tag == 2 {
                        Ok(i)
                    } else {
                        Ok(i + 1)
                    },
                    None => Err(id + " is not queued"@),
                }
            }
        },
    }
}

/// The ids without every copy of `x`.
fn remove_all(ids: &Vec<String>, x: &String) -> (out: Vec<String>)
    ensures
        views(out@) == without(views(ids@), x@),
{
    let mut out: Vec<String> = Vec::new();
    let mut i: usize = 0;
    while i < ids.len()
        invariant
            i <= ids@.len(),
            views(out@) == without(views(ids@).take(i as int), x@),
        decreases ids@.len() - i,
    {
        proof {
            assert(views(ids@).take(i + 1).drop_last() == views(ids@).take(i as int));
            assert(views(ids@).take(i + 1).last() == ids@[i as int]@);
        }
        if ids[i] != *x {
            let ghost before = out@;
            out.push(ids[i].clone());
            proof {
                assert(views(out@) =~= views(before).push(ids@[i as int]@));
            }
        }
        i = i + 1;
    }
    assert(views(ids@).take(ids@.len() as int) == views(ids@));
    out
}

/// Where a string first sits in a list.
fn find_id(list: &Vec<String>, x: &String) -> (res: Option<usize>)
    ensures
        match res {
            Some(i) => first_index(views(list@), x@) == Some(i as int),
            None => first_index(views(list@), x@) is None,
        },
{
    let mut i: usize = 0;
    while i < list.len()
        invariant
            i <= list@.len(),
            forall|k: int| 0 <= k < i ==> views(list@)[k] != x@,
        decreases list@.len() - i,
    {
        if list[i] == *x {
            proof {
                lemma_first_index(views(list@), x@);
                assert(views(list@)[i as int] == x@);
                assert(views(list@).contains(x@));
            }
            return Some(i);
        }
        i = i + 1;
    }
    proof {
        lemma_first_index(views(list@), x@);
    }
    None
}

/// The index a position names among the rows that stay.
pub fn index(ids: &Vec<String>, current: usize, position: Option<&EditPosition>) -> (res: Result<usize, String>)
    requires
        current < ids@.len(),
    ensures
        ({
            let p = match position {
                Some(p) => Some(position_view(*p)),
                None => None,
            };
            match res {
                Ok(i) => index_for(views(ids@), current as int, p) == Ok::<int, Seq<char>>(i as int),
                Err(m) => index_for(views(ids@), current as int, p) == Err::<int, Seq<char>>(m@),
            }
        }),
{
    let position = match position {
        Some(p) => p,
        None => {
            return Ok(current);
        },
    };
    let remaining = remove_all(ids, &ids[current]);
    let n = remaining.len();
    match position {
        EditPosition::Front => Ok(0),
        EditPosition::Back => Ok(remaining.len()),
        EditPosition::Before(before) => match find_id(&remaining, before) {
            Some(i) => Ok(i),
            None => {
                let mut m = to_chars(before.as_str());
                extend_str(&mut m, " is not queued");
                Err(from_chars(m.as_slice()))
            },
        },
        EditPosition::After(after) => match find_id(&remaining, after) {
            Some(i) => {
                proof {
                    lemma_first_index(views(remaining@), after@);
                }
                assert(i < n);
                Ok(i + 1)
            },
            None => {
                let mut m = to_chars(after.as_str());
                extend_str(&mut m, " is not queued");
                Err(from_chars(m.as_slice()))
            },
        },
    }
}

/// A queued row as the order rule sees it: its id and its blockers.
pub open spec fn pair_of(t: QueuedTask) -> (Seq<char>, Seq<Seq<char>>) {
    (t.id@, views(t.blocked_by@))
}

/// The queue's rows, except every one carrying `id`, as id and blockers.
pub open spec fn pairs_without(q: Seq<QueuedTask>, id: Seq<char>) -> Seq<(Seq<char>, Seq<Seq<char>>)>
    decreases q.len(),
{
    if q.len() == 0 {
        Seq::empty()
    } else {
        let rest = pairs_without(q.drop_last(), id);
        if q.last().id@ == id {
            rest
        } else {
            rest.push(pair_of(q.last()))
        }
    }
}

/// The first blocker problem among these rows, if any.
pub open spec fn first_problem(pairs: Seq<(Seq<char>, Seq<Seq<char>>)>) -> Option<Seq<char>> {
    let problems = order_problems(
        pairs.map_values(|p: (Seq<char>, Seq<Seq<char>>)| p.0),
        pairs.map_values(|p: (Seq<char>, Seq<Seq<char>>)| p.1),
        pairs.len() as int,
    );
    if problems.len() == 0 {
        None
    } else {
        Some(problems[0])
    }
}

/// The queue's ids.
pub open spec fn ids_of(q: Seq<QueuedTask>) -> Seq<Seq<char>> {
    q.map_values(|t: QueuedTask| t.id@)
}

/// Where an edited queued row lands, or why it cannot: the position it asks
/// for, `active` staying `queue[0]`, and every blocker still earlier.
pub open spec fn destination_for(l: Ledger, args: EditArgs, edited: Option<Seq<Seq<char>>>) -> Result<int, Seq<char>> {
    match edited {
        None => Err("queued row has no blocker state"@),
        Some(b) => {
            let ids = ids_of(l.queue@);
            let id = args.id@;
            let current = first_index(ids, id)->0;
            match index_for(ids, current, position_opt(args.position)) {
                Err(e) => Err(e),
                Ok(d) => if d == 0 && l.active is Some && l.active->0@ != id {
                    Err("edit would make "@ + id + " queue[0] while active is "@ + l.active->0@)
                } else if l.active is Some && l.active->0@ == id && d != 0 {
                    Err("edit would leave active "@ + id + " off queue[0]"@)
                } else {
                    match first_problem(pairs_without(l.queue@, id).insert(d, (id, b))) {
                        Some(m) => Err(m),
                        None => Ok(d),
                    }
                },
            }
        },
    }
}

/// Where an edited queued row lands, or why it cannot.
pub fn destination(l: &Ledger, args: &EditArgs, edited_blockers: Option<&Vec<String>>) -> (res: Result<usize, String>)
    requires
        ids_of(l.queue@).contains(args.id@),
    ensures
        ({
            let edited = match edited_blockers {
                Some(b) => Some(views(b@)),
                None => None,
            };
            match res {
                Ok(d) => destination_for(*l, *args, edited) == Ok::<int, Seq<char>>(d as int),
                Err(m) => destination_for(*l, *args, edited) == Err::<int, Seq<char>>(m@),
            }
        }),
{
    let edited = match edited_blockers {
        Some(b) => b,
        None => {
            return Err(String::from_str("queued row has no blocker state"));
        },
    };
    let mut ids: Vec<String> = Vec::new();
    let mut i: usize = 0;
    while i < l.queue.len()
        invariant
            i <= l.queue@.len(),
            views(ids@) == ids_of(l.queue@).take(i as int),
        decreases l.queue@.len() - i,
    {
        let ghost before = ids@;
        ids.push(l.queue[i].id.clone());
        proof {
            assert(views(ids@) =~= views(before).push(l.queue@[i as int].id@));
            assert(ids_of(l.queue@).take(i + 1) =~= ids_of(l.queue@).take(i as int).push(
                l.queue@[i as int].id@,
            ));
        }
        i = i + 1;
    }
    assert(ids_of(l.queue@).take(l.queue@.len() as int) == ids_of(l.queue@));
    let current = match find_id(&ids, &args.id) {
        Some(c) => c,
        None => {
            proof {
                lemma_first_index(views(ids@), args.id@);
            }
            return Err(String::from_str("queued row has no blocker state"));
        },
    };
    proof {
        lemma_first_index(views(ids@), args.id@);
    }
    let destination = match index(&ids, current, args.position.as_ref()) {
        Ok(d) => d,
        Err(m) => {
            return Err(m);
        },
    };
    if destination == 0 {
        match &l.active {
            Some(active) => {
                if *active != args.id {
                    let mut m = to_chars("edit would make ");
                    extend_str(&mut m, args.id.as_str());
                    extend_str(&mut m, " queue[0] while active is ");
                    extend_str(&mut m, active.as_str());
                    return Err(from_chars(m.as_slice()));
                }
            },
            None => {},
        }
    }
    match &l.active {
        Some(active) => {
            if *active == args.id && destination != 0 {
                let mut m = to_chars("edit would leave active ");
                extend_str(&mut m, args.id.as_str());
                extend_str(&mut m, " off queue[0]");
                return Err(from_chars(m.as_slice()));
            }
        },
        None => {},
    }
    let mut ordered: Vec<Row> = Vec::new();
    let mut i: usize = 0;
    while i < l.queue.len()
        invariant
            i <= l.queue@.len(),
            ordered@.map_values(|r: Row| (r.id@, views(r.blockers@))) == pairs_without(
                l.queue@.take(i as int),
                args.id@,
            ),
        decreases l.queue@.len() - i,
    {
        proof {
            assert(l.queue@.take(i + 1).drop_last() == l.queue@.take(i as int));
            assert(l.queue@.take(i + 1).last() == l.queue@[i as int]);
        }
        if l.queue[i].id != args.id {
            let ghost before = ordered@;
            let row = Row { id: l.queue[i].id.clone(), blockers: copy_strings(&l.queue[i].blocked_by) };
            ordered.push(row);
            proof {
                assert(ordered@.map_values(|r: Row| (r.id@, views(r.blockers@))) =~= before.map_values(
                    |r: Row| (r.id@, views(r.blockers@)),
                ).push(pair_of(l.queue@[i as int])));
            }
        }
        i = i + 1;
    }
    assert(l.queue@.take(l.queue@.len() as int) == l.queue@);
    proof {
        lemma_without_pairs(l.queue@, args.id@);
        lemma_index_for_bound(views(ids@), current as int, position_opt(args.position));
        assert(views(ids@)[current as int] == args.id@);
    }
    let ghost before = ordered@;
    ordered.insert(destination, Row { id: args.id.clone(), blockers: copy_strings(edited) });
    let ghost pairs = pairs_without(l.queue@, args.id@).insert(destination as int, (args.id@, views(edited@)));
    proof {
        assert(ordered@.map_values(|r: Row| (r.id@, views(r.blockers@))) =~= pairs);
        assert(ordered@.map_values(|r: Row| r.id@) =~= pairs.map_values(
            |p: (Seq<char>, Seq<Seq<char>>)| p.0,
        ));
        assert(ordered@.map_values(|r: Row| views(r.blockers@)) =~= pairs.map_values(
            |p: (Seq<char>, Seq<Seq<char>>)| p.1,
        ));
    }
    match validate(&ordered) {
        Ok(()) => Ok(destination),
        Err(m) => Err(m),
    }
}

/// The ids of the rows that stay are exactly the ids without `id`.
pub proof fn lemma_without_pairs(q: Seq<QueuedTask>, id: Seq<char>)
    ensures
        pairs_without(q, id).len() == without(ids_of(q), id).len(),
    decreases q.len(),
{
    if q.len() > 0 {
        lemma_without_pairs(q.drop_last(), id);
        assert(ids_of(q).drop_last() =~= ids_of(q.drop_last()));
    }
}

pub proof fn lemma_without_prefix_len(ids: Seq<Seq<char>>, x: Seq<char>, k: int)
    requires
        0 <= k <= ids.len(),
        forall|j: int| 0 <= j < k ==> ids[j] != x,
    ensures
        without(ids, x).len() >= k,
    decreases ids.len(),
{
    if ids.len() > 0 {
        if k == ids.len() {
            lemma_without_prefix_len(ids.drop_last(), x, k - 1);
        } else {
            lemma_without_prefix_len(ids.drop_last(), x, k);
        }
    }
}

/// A position never names an index past the rows that stay.
pub proof fn lemma_index_for_bound(ids: Seq<Seq<char>>, current: int, p: Option<(nat, Seq<char>)>)
    requires
        0 <= current < ids.len(),
        first_index(ids, ids[current]) == Some(current),
        index_for(ids, current, p) is Ok,
    ensures
        0 <= index_for(ids, current, p)->Ok_0 <= without(ids, ids[current]).len(),
{
    lemma_first_index(ids, ids[current]);
    lemma_without_prefix_len(ids, ids[current], current);
    match p {
        None => {},
        Some((tag, id)) => {
            let remaining = without(ids, ids[current]);
            lemma_first_index(remaining, id);
        },
    }
}

} // verus!
