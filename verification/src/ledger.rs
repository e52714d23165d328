//! The rules a ledger keeps across rows: ids, the corpus they form, the active
//! row, blockers, archive order, and plans.

pub mod corpus;
pub mod order;

use crate::chars::{
    decimal, decimal_of, extend, extend_str, from_chars, is_digit, lemma_lex_asymmetric, lemma_lex_total, less,
    lex_lt, same, strip_prefix, texts, to_chars, views, without_prefix,
};
use crate::ledger::corpus::{
    claims, corpus_errors, corpus_numbers, duplicated_ids, highest, highest_number, id_for,
    id_text, lemma_highest_bounds, lemma_highest_fits, id_number, Status,
};
use crate::ledger::order::{blocker_problems, order_problems};
use crate::document::render::{read_top_number, top_number};
use crate::report::{Report, Task};
use crate::schema::{
    calendar_moment, inside_the_repo, instant_shape_is_valid, is_a_real_instant, is_instant_shape,
    is_patch_name, is_prefix, is_task_id, is_zone, patch_name_is_valid, plan_complaint,
    prefix_is_valid, task_id_is_valid, zone_is_valid, ArchiveOrder, ArchivedTask, HorizonTask,
    Ledger, QueuedTask, Section, STAMP_FORMAT, VERSION,
};
use vstd::prelude::*;

verus! {

/// Whether an id is `PREFIX-` followed by at least three ASCII digits.
pub open spec fn id_matches(id: Seq<char>, prefix: Seq<char>) -> bool {
    match strip_prefix(id, prefix) {
        Some(rest) => match strip_prefix(rest, seq!['-']) {
            Some(n) => n.len() >= 3 && forall|k: int| 0 <= k < n.len() ==> is_digit(#[trigger] n[k]),
            None => false,
        },
        None => false,
    }
}

/// Whether an id is `PREFIX-` followed by at least three ASCII digits.
pub fn id_matches_prefix(id: &str, prefix: &str) -> (res: bool)
    ensures
        res == id_matches(id@, prefix@),
{
    let id = to_chars(id);
    let prefix = to_chars(prefix);
    let dash: [char; 1] = ['-'];
    assert(dash@ =~= seq!['-']);
    match without_prefix(id.as_slice(), prefix.as_slice()) {
        Some(rest) => match without_prefix(rest.as_slice(), dash.as_slice()) {
            Some(n) => n.len() >= 3 && crate::schema::all_digits(n.as_slice(), 0, n.len()),
            None => false,
        },
        None => false,
    }
}

/// The id the next row gets: one past the highest number any list holds.
pub open spec fn next_number(l: Ledger) -> nat {
    highest(claims(l), l.prefix@) + 1
}

/// The id the next row gets, unless the id space is exhausted.
pub fn next_id(l: &Ledger) -> (res: Result<String, String>)
    ensures
        match res {
            Ok(id) => next_number(*l) <= corpus::MAX_TASK_NUMBER && id@ == id_text(
                l.prefix@,
                next_number(*l),
            ),
            Err(m) => next_number(*l) > corpus::MAX_TASK_NUMBER && m@ == "id space exhausted"@,
        },
{
    let next = highest_number(l) as u64 + 1;
    if next > corpus::MAX_TASK_NUMBER as u64 {
        return Err(String::from_str("id space exhausted"));
    }
    let prefix = to_chars(l.prefix.as_str());
    let id = id_for(prefix.as_slice(), next);
    Ok(from_chars(id.as_slice()))
}

/// The complaint about an archived row whose stamp names no real moment.
pub open spec fn instant_errors(archive: Seq<ArchivedTask>) -> Seq<Seq<char>>
    decreases archive.len(),
{
    if archive.len() == 0 {
        Seq::empty()
    } else {
        let rest = instant_errors(archive.drop_last());
        let t = archive.last();
        if calendar_moment(t.completed@, STAMP_FORMAT@) {
            rest
        } else {
            rest.push(t.id@ + ": completed "@ + t.completed@ + " is not a moment that exists"@)
        }
    }
}

/// The complaint about every id that does not carry the ledger's prefix.
pub open spec fn prefix_errors(cs: Seq<(Seq<char>, Status)>, prefix: Seq<char>) -> Seq<Seq<char>>
    decreases cs.len(),
{
    if cs.len() == 0 {
        Seq::empty()
    } else {
        let rest = prefix_errors(cs.drop_last(), prefix);
        let id = cs.last().0;
        if id_matches(id, prefix) {
            rest
        } else {
            rest.push(id + " does not match "@ + prefix + "-NNN"@)
        }
    }
}

/// Whether a horizon row carries this id.
pub open spec fn on_horizon(horizon: Seq<HorizonTask>, id: Seq<char>) -> bool {
    exists|k: int| 0 <= k < horizon.len() && (#[trigger] horizon[k]).id@ == id
}

/// What is wrong with `active`, if anything.
pub open spec fn active_errors(l: Ledger) -> Seq<Seq<char>> {
    match l.active {
        Some(a) => {
            let a = a@;
            (if on_horizon(l.horizon@, a) {
                seq!["active "@ + a + " is on the horizon, not the queue"@]
            } else {
                Seq::empty()
            }) + if l.queue@.len() == 0 {
                seq!["active "@ + a + " is not in the queue"@]
            } else if l.queue@[0].id@ == a {
                if l.queue@[0].blocked_by@.len() > 0 {
                    seq!["active "@ + a + " is blocked"@]
                } else {
                    Seq::empty()
                }
            } else {
                seq!["active "@ + a + " must be queue[0] (found "@ + l.queue@[0].id@ + ")"@]
            }
        },
        None => Seq::empty(),
    }
}

/// The queue's ids, in order.
pub open spec fn queue_ids(l: Ledger) -> Seq<Seq<char>> {
    l.queue@.map_values(|t: QueuedTask| t.id@)
}

/// Each queued row's blockers, in order.
pub open spec fn queue_blockers(l: Ledger) -> Seq<Seq<Seq<char>>> {
    l.queue@.map_values(|t: QueuedTask| views(t.blocked_by@))
}

/// The archive's stamps, in file order.
pub open spec fn stamps(l: Ledger) -> Seq<Seq<char>> {
    l.archive@.map_values(|t: ArchivedTask| t.completed@)
}

/// Whether the stamps never increase: most recent first.
pub open spec fn newest_first(s: Seq<Seq<char>>) -> bool {
    forall|i: int, j: int| 0 <= i < j < s.len() ==> !lex_lt(#[trigger] s[i], #[trigger] s[j])
}

/// What `check` says about archive order.
pub open spec fn order_errors(l: Ledger) -> Seq<Seq<char>> {
    if l.style.archive_order == ArchiveOrder::NewestFirst && !newest_first(stamps(l)) {
        seq!["archive is not newest-first by completed"@]
    } else {
        Seq::empty()
    }
}

/// The plan each row names, queue then archive then horizon, in file order.
pub open spec fn plans(l: Ledger) -> Seq<Seq<char>> {
    l.queue@.filter(|t: QueuedTask| t.plan is Some).map_values(|t: QueuedTask| t.plan->0@)
        + l.archive@.filter(|t: ArchivedTask| t.plan is Some).map_values(
        |t: ArchivedTask| t.plan->0@,
    ) + l.horizon@.filter(|t: HorizonTask| t.plan is Some).map_values(
        |t: HorizonTask| t.plan->0@,
    )
}

/// The complaint about every plan that is not where the row says.
pub open spec fn plan_errors(plans: Seq<Seq<char>>, present: Seq<bool>) -> Seq<Seq<char>>
    decreases plans.len(),
{
    if plans.len() == 0 {
        Seq::empty()
    } else {
        let rest = plan_errors(plans.drop_last(), present);
        if present[plans.len() - 1] {
            rest
        } else {
            rest.push("missing plan "@ + plans.last())
        }
    }
}

/// Everything `check` says about a ledger beyond its single values, given
/// which of its plans exist.
pub open spec fn graph(
    l: Ledger,
    present: Seq<bool>,
    dups: Seq<Seq<char>>,
    nums: Seq<u32>,
) -> Seq<Seq<char>> {
    instant_errors(l.archive@) + prefix_errors(claims(l), l.prefix@) + corpus_errors(
        claims(l),
        l.prefix@,
        dups,
        nums,
    ) + active_errors(l) + order_problems(queue_ids(l), queue_blockers(l), l.queue@.len() as int)
        + order_errors(l) + plan_errors(plans(l), present)
}

/// Push a text onto a list of texts.
fn push_text(out: &mut Vec<Vec<char>>, t: Vec<char>)
    ensures
        texts(final(out)@) == texts(old(out)@).push(t@),
{
    out.push(t);
    assert(texts(out@) =~= texts(old(out)@).push(t@));
}

/// Push several texts onto a list of texts.
fn push_texts(out: &mut Vec<Vec<char>>, more: Vec<Vec<char>>)
    ensures
        texts(final(out)@) == texts(old(out)@) + texts(more@),
{
    let mut k: usize = 0;
    while k < more.len()
        invariant
            k <= more@.len(),
            texts(out@) == texts(old(out)@) + texts(more@).take(k as int),
        decreases more@.len() - k,
    {
        push_text(out, more[k].clone());
        proof {
            assert(texts(more@).take(k + 1) =~= texts(more@).take(k as int).push(more@[k as int]@));
        }
        k = k + 1;
    }
    assert(texts(more@).take(more@.len() as int) =~= texts(more@));
}

/// Every archived row whose stamp names no real moment.
fn instants(archive: &Vec<ArchivedTask>) -> (out: Vec<Vec<char>>)
    ensures
        texts(out@) == instant_errors(archive@),
{
    let mut out: Vec<Vec<char>> = Vec::new();
    let mut i: usize = 0;
    while i < archive.len()
        invariant
            i <= archive@.len(),
            texts(out@) == instant_errors(archive@.take(i as int)),
        decreases archive@.len() - i,
    {
        proof {
            assert(archive@.take(i + 1).drop_last() == archive@.take(i as int));
            assert(archive@.take(i + 1).last() == archive@[i as int]);
        }
        let t = &archive[i];
        if !is_a_real_instant(t.completed.as_str(), STAMP_FORMAT) {
            let mut m: Vec<char> = Vec::new();
            extend_str(&mut m, t.id.as_str());
            extend_str(&mut m, ": completed ");
            extend_str(&mut m, t.completed.as_str());
            extend_str(&mut m, " is not a moment that exists");
            push_text(&mut out, m);
        }
        i = i + 1;
    }
    assert(archive@.take(archive@.len() as int) == archive@);
    out
}

/// Every id that does not carry the ledger's prefix.
fn prefixes(cs: &Vec<corpus::Claim>, prefix: &str) -> (out: Vec<Vec<char>>)
    ensures
        texts(out@) == prefix_errors(corpus::claim_views(cs@), prefix@),
{
    let ghost vs = corpus::claim_views(cs@);
    let mut out: Vec<Vec<char>> = Vec::new();
    let mut i: usize = 0;
    while i < cs.len()
        invariant
            i <= cs@.len(),
            vs == corpus::claim_views(cs@),
            texts(out@) == prefix_errors(vs.take(i as int), prefix@),
        decreases cs@.len() - i,
    {
        proof {
            assert(vs.take(i + 1).drop_last() == vs.take(i as int));
            assert(vs.take(i + 1).last() == vs[i as int]);
            assert(vs[i as int].0 == cs@[i as int].id@);
        }
        let id = from_chars(cs[i].id.as_slice());
        if !id_matches_prefix(id.as_str(), prefix) {
            let mut m: Vec<char> = Vec::new();
            extend(&mut m, cs[i].id.as_slice());
            extend_str(&mut m, " does not match ");
            extend_str(&mut m, prefix);
            extend_str(&mut m, "-NNN");
            push_text(&mut out, m);
        }
        i = i + 1;
    }
    assert(vs.take(cs@.len() as int) == vs);
    out
}

/// The message about `active` with the given tail.
fn active_message(a: &str, tail: &str) -> (out: Vec<char>)
    ensures
        out@ == "active "@ + a@ + tail@,
{
    let mut m: Vec<char> = Vec::new();
    extend_str(&mut m, "active ");
    extend_str(&mut m, a);
    extend_str(&mut m, tail);
    m
}

/// What is wrong with `active`, if anything.
fn active(l: &Ledger) -> (out: Vec<Vec<char>>)
    ensures
        texts(out@) == active_errors(*l),
{
    let mut out: Vec<Vec<char>> = Vec::new();
    match &l.active {
        Some(a) => {
            let mut k: usize = 0;
            let mut found = false;
            while k < l.horizon.len()
                invariant
                    k <= l.horizon@.len(),
                    found == exists|j: int| 0 <= j < k && (#[trigger] l.horizon@[j]).id@ == a@,
                decreases l.horizon@.len() - k,
            {
                if l.horizon[k].id == *a {
                    found = true;
                }
                k = k + 1;
            }
            if found {
                push_text(&mut out, active_message(a.as_str(), " is on the horizon, not the queue"));
            }
            let ghost first = texts(out@);
            if l.queue.len() == 0 {
                push_text(&mut out, active_message(a.as_str(), " is not in the queue"));
            } else if l.queue[0].id == *a {
                if l.queue[0].blocked_by.len() > 0 {
                    push_text(&mut out, active_message(a.as_str(), " is blocked"));
                }
            } else {
                let mut m = active_message(a.as_str(), " must be queue[0] (found ");
                extend_str(&mut m, l.queue[0].id.as_str());
                extend_str(&mut m, ")");
                push_text(&mut out, m);
            }
            proof {
                if !found {
                    assert(first =~= Seq::<Seq<char>>::empty());
                }
            }
        },
        None => {},
    }
    out
}

/// The queue's ids and blockers, as texts.
fn queue_texts(l: &Ledger) -> (res: (Vec<Vec<char>>, Vec<Vec<Vec<char>>>))
    ensures
        texts(res.0@) == queue_ids(*l),
        res.1@.map_values(|b: Vec<Vec<char>>| texts(b@)) == queue_blockers(*l),
        res.0@.len() == res.1@.len(),
{
    let mut ids: Vec<Vec<char>> = Vec::new();
    let mut bls: Vec<Vec<Vec<char>>> = Vec::new();
    let mut i: usize = 0;
    while i < l.queue.len()
        invariant
            i <= l.queue@.len(),
            ids@.len() == i,
            bls@.len() == i,
            texts(ids@) == queue_ids(*l).take(i as int),
            bls@.map_values(|b: Vec<Vec<char>>| texts(b@)) == queue_blockers(*l).take(i as int),
        decreases l.queue@.len() - i,
    {
        let ghost bb = bls@.map_values(|b: Vec<Vec<char>>| texts(b@));
        push_text(&mut ids, to_chars(l.queue[i].id.as_str()));
        let mut b: Vec<Vec<char>> = Vec::new();
        let mut k: usize = 0;
        while k < l.queue[i].blocked_by.len()
            invariant
                i < l.queue@.len(),
                k <= l.queue@[i as int].blocked_by@.len(),
                texts(b@) == views(l.queue@[i as int].blocked_by@).take(k as int),
            decreases l.queue@[i as int].blocked_by@.len() - k,
        {
            push_text(&mut b, to_chars(l.queue[i].blocked_by[k].as_str()));
            proof {
                assert(views(l.queue@[i as int].blocked_by@).take(k + 1) =~= views(
                    l.queue@[i as int].blocked_by@,
                ).take(k as int).push(l.queue@[i as int].blocked_by@[k as int]@));
            }
            k = k + 1;
        }
        proof {
            assert(views(l.queue@[i as int].blocked_by@).take(
                l.queue@[i as int].blocked_by@.len() as int,
            ) =~= views(l.queue@[i as int].blocked_by@));
        }
        let ghost bv = texts(b@);
        bls.push(b);
        proof {
            assert(queue_ids(*l).take(i + 1) =~= queue_ids(*l).take(i as int).push(
                l.queue@[i as int].id@,
            ));
            assert(bls@.map_values(|b: Vec<Vec<char>>| texts(b@)) =~= bb.push(bv));
            assert(queue_blockers(*l).take(i + 1) =~= queue_blockers(*l).take(i as int).push(bv));
        }
        i = i + 1;
    }
    proof {
        assert(queue_ids(*l).take(l.queue@.len() as int) =~= queue_ids(*l));
        assert(queue_blockers(*l).take(l.queue@.len() as int) =~= queue_blockers(*l));
    }
    (ids, bls)
}

pub proof fn lemma_not_lt_chain(a: Seq<char>, b: Seq<char>, c: Seq<char>)
    requires
        !lex_lt(a, b),
        !lex_lt(b, c),
    ensures
        !lex_lt(a, c),
{
    lemma_lex_total(a, b);
    lemma_lex_total(b, c);
    if lex_lt(a, c) {
        if a == b {
        } else if b == c {
        } else {
            crate::chars::lemma_lex_transitive(c, b, a);
            lemma_lex_asymmetric(c, a);
        }
    }
}

/// Whether the archive's stamps never increase.
fn stamps_newest_first(archive: &Vec<ArchivedTask>) -> (res: bool)
    ensures
        res == newest_first(archive@.map_values(|t: ArchivedTask| t.completed@)),
{
    let ghost s = archive@.map_values(|t: ArchivedTask| t.completed@);
    let mut i: usize = 1;
    if archive.len() == 0 {
        return true;
    }
    while i < archive.len()
        invariant
            1 <= i <= archive@.len(),
            s == archive@.map_values(|t: ArchivedTask| t.completed@),
            forall|a: int, b: int| 0 <= a < b < i ==> !lex_lt(#[trigger] s[a], #[trigger] s[b]),
        decreases archive@.len() - i,
    {
        let prev = to_chars(archive[i - 1].completed.as_str());
        let cur = to_chars(archive[i].completed.as_str());
        if less(prev.as_slice(), cur.as_slice()) {
            proof {
                assert(s[i - 1] == prev@ && s[i as int] == cur@);
            }
            return false;
        }
        proof {
            assert forall|a: int, b: int| 0 <= a < b < i + 1 implies !lex_lt(
                #[trigger] s[a],
                #[trigger] s[b],
            ) by {
                if b == i && a < i - 1 {
                    lemma_not_lt_chain(s[a], s[i - 1], s[b]);
                }
            }
        }
        i = i + 1;
    }
    true
}

/// The plans the rows name, queue then archive then horizon.
pub fn plan_paths(l: &Ledger) -> (out: Vec<String>)
    ensures
        views(out@) == plans(*l),
{
    let mut out: Vec<String> = Vec::new();
    let ghost pq = l.queue@.filter(|t: QueuedTask| t.plan is Some).map_values(
        |t: QueuedTask| t.plan->0@,
    );
    let ghost pa = l.archive@.filter(|t: ArchivedTask| t.plan is Some).map_values(
        |t: ArchivedTask| t.plan->0@,
    );
    let ghost ph = l.horizon@.filter(|t: HorizonTask| t.plan is Some).map_values(
        |t: HorizonTask| t.plan->0@,
    );
    let mut i: usize = 0;
    while i < l.queue.len()
        invariant
            i <= l.queue@.len(),
            views(out@) == l.queue@.take(i as int).filter(|t: QueuedTask| t.plan is Some).map_values(
                |t: QueuedTask| t.plan->0@,
            ),
        decreases l.queue@.len() - i,
    {
        let ghost before = out@;
        proof {
            reveal_with_fuel(Seq::filter, 1);
            assert(l.queue@.take(i + 1).drop_last() == l.queue@.take(i as int));
        }
        match &l.queue[i].plan {
            Some(p) => {
                out.push(p.clone());
                proof {
                    assert(views(out@) =~= views(before).push(p@));
                }
            },
            None => {},
        }
        i = i + 1;
    }
    proof {
        assert(l.queue@.take(l.queue@.len() as int) == l.queue@);
    }
    let ghost after_queue = out@;
    let mut i: usize = 0;
    while i < l.archive.len()
        invariant
            i <= l.archive@.len(),
            views(after_queue) == pq,
            pq == l.queue@.filter(|t: QueuedTask| t.plan is Some).map_values(
                |t: QueuedTask| t.plan->0@,
            ),
            views(out@) == pq + l.archive@.take(i as int).filter(
                |t: ArchivedTask| t.plan is Some,
            ).map_values(|t: ArchivedTask| t.plan->0@),
        decreases l.archive@.len() - i,
    {
        let ghost before = out@;
        proof {
            reveal_with_fuel(Seq::filter, 1);
            assert(l.archive@.take(i + 1).drop_last() == l.archive@.take(i as int));
        }
        match &l.archive[i].plan {
            Some(p) => {
                out.push(p.clone());
                proof {
                    assert(views(out@) =~= views(before).push(p@));
                }
            },
            None => {},
        }
        proof {
            let f = l.archive@.take(i + 1).filter(|t: ArchivedTask| t.plan is Some).map_values(
                |t: ArchivedTask| t.plan->0@,
            );
            let g = l.archive@.take(i as int).filter(|t: ArchivedTask| t.plan is Some).map_values(
                |t: ArchivedTask| t.plan->0@,
            );
            if l.archive@[i as int].plan is Some {
                assert(f =~= g.push(l.archive@[i as int].plan->0@));
            } else {
                assert(f =~= g);
            }
        }
        i = i + 1;
    }
    proof {
        assert(l.archive@.take(l.archive@.len() as int) == l.archive@);
    }
    let mut i: usize = 0;
    while i < l.horizon.len()
        invariant
            i <= l.horizon@.len(),
            pq == l.queue@.filter(|t: QueuedTask| t.plan is Some).map_values(
                |t: QueuedTask| t.plan->0@,
            ),
            pa == l.archive@.filter(|t: ArchivedTask| t.plan is Some).map_values(
                |t: ArchivedTask| t.plan->0@,
            ),
            views(out@) == pq + pa + l.horizon@.take(i as int).filter(
                |t: HorizonTask| t.plan is Some,
            ).map_values(|t: HorizonTask| t.plan->0@),
        decreases l.horizon@.len() - i,
    {
        let ghost before = out@;
        proof {
            reveal_with_fuel(Seq::filter, 1);
            assert(l.horizon@.take(i + 1).drop_last() == l.horizon@.take(i as int));
        }
        match &l.horizon[i].plan {
            Some(p) => {
                out.push(p.clone());
                proof {
                    assert(views(out@) =~= views(before).push(p@));
                }
            },
            None => {},
        }
        proof {
            let f = l.horizon@.take(i + 1).filter(|t: HorizonTask| t.plan is Some).map_values(
                |t: HorizonTask| t.plan->0@,
            );
            let g = l.horizon@.take(i as int).filter(|t: HorizonTask| t.plan is Some).map_values(
                |t: HorizonTask| t.plan->0@,
            );
            if l.horizon@[i as int].plan is Some {
                assert(f =~= g.push(l.horizon@[i as int].plan->0@));
            } else {
                assert(f =~= g);
            }
        }
        i = i + 1;
    }
    proof {
        assert(l.horizon@.take(l.horizon@.len() as int) == l.horizon@);
    }
    out
}

/// Everything `check` says about a ledger beyond its single values.
/// `present[k]` says whether the `k`th plan [`plan_paths`] names exists
/// beside the ledger.
pub fn graph_errors(l: &Ledger, present: &Vec<bool>) -> (out: Vec<String>)
    requires
        present@.len() == plans(*l).len(),
    ensures
        exists|dups: Seq<Seq<char>>, nums: Seq<u32>|
            #![trigger graph(*l, present@, dups, nums)]
            duplicated_ids(claims(*l), dups) && corpus_numbers(claims(*l), l.prefix@, nums) && views(
                out@,
            ) == graph(*l, present@, dups, nums),
{
    let mut all: Vec<Vec<char>> = Vec::new();
    push_texts(&mut all, instants(&l.archive));
    let cs = corpus::claims_of(l);
    push_texts(&mut all, prefixes(&cs, l.prefix.as_str()));
    let corpus_found = corpus::errors(l);
    let ghost dups_nums = choose|dups: Seq<Seq<char>>, nums: Seq<u32>|
        duplicated_ids(claims(*l), dups) && corpus_numbers(claims(*l), l.prefix@, nums)
            && texts(corpus_found@) == corpus_errors(claims(*l), l.prefix@, dups, nums);
    push_texts(&mut all, corpus_found);
    push_texts(&mut all, active(l));
    let (ids, bls) = queue_texts(l);
    push_texts(&mut all, blocker_problems(&ids, &bls));
    if l.style.archive_order == ArchiveOrder::NewestFirst && !stamps_newest_first(&l.archive) {
        push_text(&mut all, to_chars("archive is not newest-first by completed"));
    }
    let ghost before_plans = texts(all@);
    let paths = plan_paths(l);
    let mut k: usize = 0;
    while k < paths.len()
        invariant
            k <= paths@.len(),
            views(paths@) == plans(*l),
            present@.len() == paths@.len(),
            texts(all@) == before_plans + plan_errors(plans(*l).take(k as int), present@),
        decreases paths@.len() - k,
    {
        proof {
            assert(plans(*l).take(k + 1).drop_last() == plans(*l).take(k as int));
            assert(plans(*l).take(k + 1).last() == paths@[k as int]@);
        }
        if !present[k] {
            let mut m: Vec<char> = Vec::new();
            extend_str(&mut m, "missing plan ");
            extend_str(&mut m, paths[k].as_str());
            push_text(&mut all, m);
        }
        k = k + 1;
    }
    proof {
        assert(plans(*l).take(paths@.len() as int) == plans(*l));
    }
    let mut out: Vec<String> = Vec::new();
    let mut k: usize = 0;
    while k < all.len()
        invariant
            k <= all@.len(),
            views(out@) == texts(all@).take(k as int),
        decreases all@.len() - k,
    {
        let ghost before = out@;
        out.push(from_chars(all[k].as_slice()));
        proof {
            assert(views(out@) =~= views(before).push(all@[k as int]@));
            assert(texts(all@).take(k + 1) =~= texts(all@).take(k as int).push(all@[k as int]@));
        }
        k = k + 1;
    }
    proof {
        assert(texts(all@).take(all@.len() as int) == texts(all@));
        let (dups, nums) = dups_nums;
        assert(views(out@) =~= graph(*l, present@, dups, nums));
    }
    out
}

/// A ledger's status report: the ledger as it stands.
pub fn status(path: String, ledger: Ledger) -> (r: Report)
    ensures
        r == (Report::Status { path, ledger }),
{
    Report::Status { path, ledger }
}

/// Whether `t` is the row `show` finds for `id`: the first queued row carrying
/// it, else the first archived, else the first on the horizon.
pub open spec fn shown(l: Ledger, id: Seq<char>, t: Task) -> bool {
    match t {
        Task::Queued { task } => exists|k: int|
            0 <= k < l.queue@.len() && l.queue@[k] == task && task.id@ == id && forall|j: int|
                0 <= j < k ==> (#[trigger] l.queue@[j]).id@ != id,
        Task::Archived { task } => absent_from_queue(l, id) && exists|k: int|
            0 <= k < l.archive@.len() && l.archive@[k] == task && task.id@ == id && forall|j: int|
                0 <= j < k ==> (#[trigger] l.archive@[j]).id@ != id,
        Task::Horizon { task } => absent_from_queue(l, id) && absent_from_archive(l, id) && exists|k: int|
            0 <= k < l.horizon@.len() && l.horizon@[k] == task && task.id@ == id && forall|j: int|
                0 <= j < k ==> (#[trigger] l.horizon@[j]).id@ != id,
    }
}

pub open spec fn absent_from_queue(l: Ledger, id: Seq<char>) -> bool {
    forall|j: int| 0 <= j < l.queue@.len() ==> (#[trigger] l.queue@[j]).id@ != id
}

pub open spec fn absent_from_archive(l: Ledger, id: Seq<char>) -> bool {
    forall|j: int| 0 <= j < l.archive@.len() ==> (#[trigger] l.archive@[j]).id@ != id
}

pub open spec fn absent_from_horizon(l: Ledger, id: Seq<char>) -> bool {
    forall|j: int| 0 <= j < l.horizon@.len() ==> (#[trigger] l.horizon@[j]).id@ != id
}

/// The row a task id names, searched queue, then archive, then horizon.
pub fn find_task(ledger: Ledger, id: &str) -> (res: Result<Task, String>)
    ensures
        match res {
            Ok(t) => shown(ledger, id@, t),
            Err(m) => m@ == "no task "@ + id@ && absent_from_queue(ledger, id@)
                && absent_from_archive(ledger, id@) && absent_from_horizon(ledger, id@),
        },
{
    let Ledger { queue, archive, horizon, .. } = ledger;
    let key = String::from_str(id);
    let mut k: usize = 0;
    while k < queue.len()
        invariant
            queue == ledger.queue,
            key@ == id@,
            k <= queue@.len(),
            forall|j: int| 0 <= j < k ==> (#[trigger] queue@[j]).id@ != id@,
        decreases queue@.len() - k,
    {
        if queue[k].id == key {
            let mut queue = queue;
            let task = queue.remove(k);
            return Ok(Task::Queued { task });
        }
        k = k + 1;
    }
    let mut k: usize = 0;
    while k < archive.len()
        invariant
            archive == ledger.archive,
            key@ == id@,
            k <= archive@.len(),
            absent_from_queue(ledger, id@),
            forall|j: int| 0 <= j < k ==> (#[trigger] archive@[j]).id@ != id@,
        decreases archive@.len() - k,
    {
        if archive[k].id == key {
            let mut archive = archive;
            let task = archive.remove(k);
            return Ok(Task::Archived { task });
        }
        k = k + 1;
    }
    let mut k: usize = 0;
    while k < horizon.len()
        invariant
            horizon == ledger.horizon,
            key@ == id@,
            k <= horizon@.len(),
            absent_from_queue(ledger, id@),
            absent_from_archive(ledger, id@),
            forall|j: int| 0 <= j < k ==> (#[trigger] horizon@[j]).id@ != id@,
        decreases horizon@.len() - k,
    {
        if horizon[k].id == key {
            let mut horizon = horizon;
            let task = horizon.remove(k);
            return Ok(Task::Horizon { task });
        }
        k = k + 1;
    }
    let mut m: Vec<char> = Vec::new();
    extend_str(&mut m, "no task ");
    extend_str(&mut m, id);
    Err(from_chars(m.as_slice()))
}

/// One task, found by id, as the `show` report.
pub fn show(path: String, ledger: Ledger, id: &str) -> (res: Result<Report, String>)
    ensures
        match res {
            Ok(r) => r matches Report::Show { path: p, task } && p == path && shown(ledger, id@, task),
            Err(m) => m@ == "no task "@ + id@ && absent_from_queue(ledger, id@)
                && absent_from_archive(ledger, id@) && absent_from_horizon(ledger, id@),
        },
{
    match find_task(ledger, id) {
        Ok(task) => Ok(Report::Show { path, task }),
        Err(m) => Err(m),
    }
}

/// One complaint when a rule fails: the field's path and what it must be.
pub open spec fn complain(ok: bool, path: Seq<char>, msg: Seq<char>) -> Seq<Seq<char>> {
    if ok {
        Seq::empty()
    } else {
        seq![path + ": "@ + msg]
    }
}

/// The path of one list item.
pub open spec fn item_path(path: Seq<char>, j: nat) -> Seq<char> {
    path + "["@ + decimal(j) + "]"@
}

/// The path of one field of one row.
pub open spec fn field_path(list: Seq<char>, i: nat, field: Seq<char>) -> Seq<char> {
    item_path(list, i) + "."@ + field
}

/// A complaint for every empty item, in order.
pub open spec fn empty_items(path: Seq<char>, items: Seq<Seq<char>>) -> Seq<Seq<char>>
    decreases items.len(),
{
    if items.len() == 0 {
        Seq::empty()
    } else {
        empty_items(path, items.drop_last()) + complain(
            items.last().len() > 0,
            item_path(path, (items.len() - 1) as nat),
            "must not be empty"@,
        )
    }
}

/// A complaint for every item that is not a task id, in order.
pub open spec fn bad_ids(path: Seq<char>, items: Seq<Seq<char>>) -> Seq<Seq<char>>
    decreases items.len(),
{
    if items.len() == 0 {
        Seq::empty()
    } else {
        bad_ids(path, items.drop_last()) + complain(
            is_task_id(items.last()),
            item_path(path, (items.len() - 1) as nat),
            ID_RULE(),
        )
    }
}

pub open spec fn ID_RULE() -> Seq<char> {
    "must be a task id such as QCTL-001"@
}

pub open spec fn NONEMPTY() -> Seq<char> {
    "must not be empty"@
}

pub open spec fn PATCH_RULE() -> Seq<char> {
    "must match ^[a-z][a-z0-9-]*$"@
}

/// The complaints about an optional changeset name.
pub open spec fn patch_complaint(path: Seq<char>, patch: Option<String>) -> Seq<Seq<char>> {
    match patch {
        Some(p) => complain(is_patch_name(p@), path, PATCH_RULE()),
        None => Seq::empty(),
    }
}

/// The complaints about an optional plan path.
pub open spec fn plan_value_complaint(path: Seq<char>, plan: Option<String>) -> Seq<Seq<char>> {
    match plan {
        Some(p) => match plan_complaint(p@) {
            Some(m) => seq![path + ": "@ + m],
            None => Seq::empty(),
        },
        None => Seq::empty(),
    }
}

/// What is wrong with the values of one queued row.
pub open spec fn queued_errors(i: nat, t: QueuedTask) -> Seq<Seq<char>> {
    queued_head(i, t) + queued_tail(i, t)
}

/// The complaints about a queued row's scalar fields and blockers.
pub open spec fn queued_head(i: nat, t: QueuedTask) -> Seq<Seq<char>> {
    let q = "queue"@;
    complain(is_task_id(t.id@), field_path(q, i, "id"@), ID_RULE()) + complain(
        t.title@.len() > 0,
        field_path(q, i, "title"@),
        NONEMPTY(),
    ) + complain(t.scope@.len() > 0, field_path(q, i, "scope"@), NONEMPTY()) + complain(
        t.outcome@.len() > 0,
        field_path(q, i, "outcome"@),
        NONEMPTY(),
    ) + bad_ids(field_path(q, i, "blocked_by"@), views(t.blocked_by@)) + complain(
        t.acceptance@.len() > 0,
        field_path(q, i, "acceptance"@),
        NONEMPTY(),
    )
}

/// The complaints about a queued row's lists and optional fields.
pub open spec fn queued_tail(i: nat, t: QueuedTask) -> Seq<Seq<char>> {
    let q = "queue"@;
    empty_items(field_path(q, i, "acceptance"@), views(t.acceptance@)) + patch_complaint(
        field_path(q, i, "patch"@),
        t.patch,
    ) + plan_value_complaint(field_path(q, i, "plan"@), t.plan) + empty_items(
        field_path(q, i, "links"@),
        views(t.links@),
    ) + empty_items(field_path(q, i, "notes"@), views(t.notes@))
}

pub open spec fn STAMP_RULE() -> Seq<char> {
    "must be written as YYYY-MM-DDThh:mm:ss"@
}

pub open spec fn MOMENT_RULE() -> Seq<char> {
    "must be a moment that exists"@
}

/// What is wrong with the values of one archived row.
pub open spec fn archived_errors(i: nat, t: ArchivedTask) -> Seq<Seq<char>> {
    archived_head(i, t) + archived_tail(i, t)
}

/// The complaints about an archived row's scalar fields and stamp.
pub open spec fn archived_head(i: nat, t: ArchivedTask) -> Seq<Seq<char>> {
    let a = "archive"@;
    complain(is_task_id(t.id@), field_path(a, i, "id"@), ID_RULE()) + complain(
        t.title@.len() > 0,
        field_path(a, i, "title"@),
        NONEMPTY(),
    ) + complain(t.scope@.len() > 0, field_path(a, i, "scope"@), NONEMPTY()) + complain(
        is_instant_shape(t.completed@),
        field_path(a, i, "completed"@),
        STAMP_RULE(),
    ) + complain(calendar_moment(t.completed@, STAMP_FORMAT@), field_path(a, i, "completed"@), MOMENT_RULE())
        + complain(t.outcome@.len() > 0, field_path(a, i, "outcome"@), NONEMPTY())
}

/// The complaints about an archived row's lists and optional fields.
pub open spec fn archived_tail(i: nat, t: ArchivedTask) -> Seq<Seq<char>> {
    let a = "archive"@;
    complain(t.evidence@.len() > 0, field_path(a, i, "evidence"@), NONEMPTY()) + empty_items(
        field_path(a, i, "evidence"@),
        views(t.evidence@),
    ) + patch_complaint(field_path(a, i, "patch"@), t.patch) + plan_value_complaint(
        field_path(a, i, "plan"@),
        t.plan,
    ) + empty_items(field_path(a, i, "links"@), views(t.links@)) + empty_items(
        field_path(a, i, "notes"@),
        views(t.notes@),
    )
}

/// The complaints about a horizon row's scalar fields.
pub open spec fn horizon_head(i: nat, t: HorizonTask) -> Seq<Seq<char>> {
    let h = "horizon"@;
    complain(is_task_id(t.id@), field_path(h, i, "id"@), ID_RULE()) + complain(
        t.title@.len() > 0,
        field_path(h, i, "title"@),
        NONEMPTY(),
    ) + complain(t.scope@.len() > 0, field_path(h, i, "scope"@), NONEMPTY()) + complain(
        t.outcome@.len() > 0,
        field_path(h, i, "outcome"@),
        NONEMPTY(),
    ) + complain(t.open@.len() > 0, field_path(h, i, "open"@), NONEMPTY())
}

/// The complaints about a horizon row's optional fields and lists.
pub open spec fn horizon_tail(i: nat, t: HorizonTask) -> Seq<Seq<char>> {
    let h = "horizon"@;
    patch_complaint(field_path(h, i, "patch"@), t.patch) + plan_value_complaint(field_path(h, i, "plan"@), t.plan)
        + empty_items(field_path(h, i, "links"@), views(t.links@)) + empty_items(
        field_path(h, i, "notes"@),
        views(t.notes@),
    )
}

/// What is wrong with the values of one horizon row.
pub open spec fn horizon_errors(i: nat, t: HorizonTask) -> Seq<Seq<char>> {
    horizon_head(i, t) + horizon_tail(i, t)
}

/// Every row's value complaints, in row order.
pub open spec fn queue_value_errors(rows: Seq<QueuedTask>) -> Seq<Seq<char>>
    decreases rows.len(),
{
    if rows.len() == 0 {
        Seq::empty()
    } else {
        queue_value_errors(rows.drop_last()) + queued_errors((rows.len() - 1) as nat, rows.last())
    }
}

pub open spec fn archive_value_errors(rows: Seq<ArchivedTask>) -> Seq<Seq<char>>
    decreases rows.len(),
{
    if rows.len() == 0 {
        Seq::empty()
    } else {
        archive_value_errors(rows.drop_last()) + archived_errors(
            (rows.len() - 1) as nat,
            rows.last(),
        )
    }
}

pub open spec fn horizon_value_errors(rows: Seq<HorizonTask>) -> Seq<Seq<char>>
    decreases rows.len(),
{
    if rows.len() == 0 {
        Seq::empty()
    } else {
        horizon_value_errors(rows.drop_last()) + horizon_errors(
            (rows.len() - 1) as nat,
            rows.last(),
        )
    }
}

/// Whether the order names every list exactly once.
pub open spec fn all_three_lists(order: Seq<Section>) -> bool {
    &&& order.len() == 3
    &&& order.contains(Section::Queue)
    &&& order.contains(Section::Archive)
    &&& order.contains(Section::Horizon)
}

/// What the contract says is wrong with these values, field by field.
pub open spec fn values(l: Ledger) -> Seq<Seq<char>> {
    complain(l.schema_version == VERSION, "schema_version"@, "must be 4"@) + complain(
        is_prefix(l.prefix@),
        "prefix"@,
        "must match ^[A-Z][A-Z0-9]{1,7}$"@,
    ) + complain(
        is_zone(l.style.timezone@),
        "style.timezone"@,
        "must be an offset from UTC such as +00:00"@,
    ) + complain(
        all_three_lists(l.style.section_order@),
        "style.section_order"@,
        "must name queue, archive and horizon, once each"@,
    ) + complain(1 <= l.style.indent <= 8, "style.indent"@, "must be between 1 and 8"@) + match l.active {
        Some(a) => complain(is_task_id(a@), "active"@, ID_RULE()),
        None => Seq::empty(),
    } + queue_value_errors(l.queue@) + archive_value_errors(l.archive@) + horizon_value_errors(
        l.horizon@,
    )
}

/// Push `path: msg` when the rule fails.
fn check_rule(out: &mut Vec<Vec<char>>, ok: bool, path: &[char], msg: &str)
    ensures
        texts(final(out)@) == texts(old(out)@) + complain(ok, path@, msg@),
{
    if !ok {
        let mut m: Vec<char> = Vec::new();
        extend(&mut m, path);
        extend_str(&mut m, ": ");
        extend_str(&mut m, msg);
        push_text(out, m);
    } else {
        assert(texts(out@) =~= texts(out@) + Seq::<Seq<char>>::empty());
    }
}

/// The path of one list item.
fn path_of_item(path: &[char], j: usize) -> (out: Vec<char>)
    ensures
        out@ == item_path(path@, j as nat),
{
    let mut out: Vec<char> = Vec::new();
    extend(&mut out, path);
    extend_str(&mut out, "[");
    let d = decimal_of(j as u64);
    extend(&mut out, d.as_slice());
    extend_str(&mut out, "]");
    out
}

/// The path of one field of one row.
fn path_of_field(list: &str, i: usize, field: &str) -> (out: Vec<char>)
    ensures
        out@ == field_path(list@, i as nat, field@),
{
    let l = to_chars(list);
    let mut out = path_of_item(l.as_slice(), i);
    extend_str(&mut out, ".");
    extend_str(&mut out, field);
    out
}

/// A complaint for every empty item.
fn check_items(out: &mut Vec<Vec<char>>, path: &[char], items: &Vec<String>)
    ensures
        texts(final(out)@) == texts(old(out)@) + empty_items(path@, views(items@)),
{
    let mut j: usize = 0;
    while j < items.len()
        invariant
            j <= items@.len(),
            texts(out@) == texts(old(out)@) + empty_items(path@, views(items@).take(j as int)),
        decreases items@.len() - j,
    {
        proof {
            assert(views(items@).take(j + 1).drop_last() == views(items@).take(j as int));
            assert(views(items@).take(j + 1).last() == items@[j as int]@);
        }
        let p = path_of_item(path, j);
        check_rule(out, !items[j].as_str().is_empty(), p.as_slice(), "must not be empty");
        j = j + 1;
    }
    assert(views(items@).take(items@.len() as int) == views(items@));
}


/// A complaint for every item that is not a task id.
fn check_ids(out: &mut Vec<Vec<char>>, path: &[char], items: &Vec<String>)
    ensures
        texts(final(out)@) == texts(old(out)@) + bad_ids(path@, views(items@)),
{
    let mut j: usize = 0;
    while j < items.len()
        invariant
            j <= items@.len(),
            texts(out@) == texts(old(out)@) + bad_ids(path@, views(items@).take(j as int)),
        decreases items@.len() - j,
    {
        proof {
            assert(views(items@).take(j + 1).drop_last() == views(items@).take(j as int));
            assert(views(items@).take(j + 1).last() == items@[j as int]@);
        }
        let p = path_of_item(path, j);
        let c = to_chars(items[j].as_str());
        check_rule(out, task_id_is_valid(c.as_slice()), p.as_slice(), "must be a task id such as QCTL-001");
        j = j + 1;
    }
    assert(views(items@).take(items@.len() as int) == views(items@));
}

/// The complaint about an optional changeset name.
fn check_patch(out: &mut Vec<Vec<char>>, path: &[char], patch: &Option<String>)
    ensures
        texts(final(out)@) == texts(old(out)@) + patch_complaint(path@, *patch),
{
    match patch {
        Some(p) => {
            let c = to_chars(p.as_str());
            check_rule(out, patch_name_is_valid(c.as_slice()), path, "must match ^[a-z][a-z0-9-]*$");
        },
        None => {
            assert(texts(out@) =~= texts(out@) + Seq::<Seq<char>>::empty());
        },
    }
}

/// The complaint about an optional plan path.
fn check_plan(out: &mut Vec<Vec<char>>, path: &[char], plan: &Option<String>)
    ensures
        texts(final(out)@) == texts(old(out)@) + plan_value_complaint(path@, *plan),
{
    match plan {
        Some(p) => match inside_the_repo(p.as_str()) {
            Some(m) => {
                let mut line: Vec<char> = Vec::new();
                extend(&mut line, path);
                extend_str(&mut line, ": ");
                extend_str(&mut line, m.as_str());
                push_text(out, line);
            },
            None => {
                assert(texts(out@) =~= texts(out@) + Seq::<Seq<char>>::empty());
            },
        },
        None => {
            assert(texts(out@) =~= texts(out@) + Seq::<Seq<char>>::empty());
        },
    }
}

/// Whether a string is a task id.
fn is_id(s: &String) -> (res: bool)
    ensures
        res == is_task_id(s@),
{
    let c = to_chars(s.as_str());
    task_id_is_valid(c.as_slice())
}

#[verifier::rlimit(50)]
fn queued_checks_head(out: &mut Vec<Vec<char>>, i: usize, t: &QueuedTask)
    ensures
        texts(final(out)@) == texts(old(out)@) + queued_head(i as nat, *t),
{
    let ghost base = texts(old(out)@);
    let ghost mut acc: Seq<Seq<char>> = Seq::empty();
    assert(texts(out@) =~= base + acc);
    let p = path_of_field("queue", i, "id");
    check_rule(out, is_id(&t.id), p.as_slice(), "must be a task id such as QCTL-001");
    proof {
        assert(texts(out@) =~= base + (complain(is_task_id(t.id@), field_path("queue"@, i as nat, "id"@), ID_RULE())));
        acc = complain(is_task_id(t.id@), field_path("queue"@, i as nat, "id"@), ID_RULE());
    }
    let p = path_of_field("queue", i, "title");
    check_rule(out, !t.title.as_str().is_empty(), p.as_slice(), "must not be empty");
    proof {
        assert(texts(out@) =~= base + (acc + complain(t.title@.len() > 0, field_path("queue"@, i as nat, "title"@), NONEMPTY())));
        acc = acc + complain(t.title@.len() > 0, field_path("queue"@, i as nat, "title"@), NONEMPTY());
    }
    let p = path_of_field("queue", i, "scope");
    check_rule(out, !t.scope.as_str().is_empty(), p.as_slice(), "must not be empty");
    proof {
        assert(texts(out@) =~= base + (acc + complain(t.scope@.len() > 0, field_path("queue"@, i as nat, "scope"@), NONEMPTY())));
        acc = acc + complain(t.scope@.len() > 0, field_path("queue"@, i as nat, "scope"@), NONEMPTY());
    }
    let p = path_of_field("queue", i, "outcome");
    check_rule(out, !t.outcome.as_str().is_empty(), p.as_slice(), "must not be empty");
    proof {
        assert(texts(out@) =~= base + (acc + complain(t.outcome@.len() > 0, field_path("queue"@, i as nat, "outcome"@), NONEMPTY())));
        acc = acc + complain(t.outcome@.len() > 0, field_path("queue"@, i as nat, "outcome"@), NONEMPTY());
    }
    let p = path_of_field("queue", i, "blocked_by");
    check_ids(out, p.as_slice(), &t.blocked_by);
    proof {
        assert(texts(out@) =~= base + (acc + bad_ids(field_path("queue"@, i as nat, "blocked_by"@), views(t.blocked_by@))));
        acc = acc + bad_ids(field_path("queue"@, i as nat, "blocked_by"@), views(t.blocked_by@));
    }
    let p = path_of_field("queue", i, "acceptance");
    check_rule(out, t.acceptance.len() > 0, p.as_slice(), "must not be empty");
    proof {
        assert(texts(out@) =~= base + (acc + complain(t.acceptance@.len() > 0, field_path("queue"@, i as nat, "acceptance"@), NONEMPTY())));
        acc = acc + complain(t.acceptance@.len() > 0, field_path("queue"@, i as nat, "acceptance"@), NONEMPTY());
    }
    let p = path_of_field("queue", i, "acceptance");
    assert(acc == queued_head(i as nat, *t));
}

#[verifier::rlimit(50)]
fn queued_checks_tail(out: &mut Vec<Vec<char>>, i: usize, t: &QueuedTask)
    ensures
        texts(final(out)@) == texts(old(out)@) + queued_tail(i as nat, *t),
{
    let ghost base = texts(old(out)@);
    let ghost mut acc: Seq<Seq<char>> = Seq::empty();
    let p = path_of_field("queue", i, "acceptance");
    check_items(out, p.as_slice(), &t.acceptance);
    proof {
        assert(texts(out@) =~= base + (empty_items(field_path("queue"@, i as nat, "acceptance"@), views(t.acceptance@))));
        acc = empty_items(field_path("queue"@, i as nat, "acceptance"@), views(t.acceptance@));
    }
    let p = path_of_field("queue", i, "patch");
    check_patch(out, p.as_slice(), &t.patch);
    proof {
        assert(texts(out@) =~= base + (acc + patch_complaint(field_path("queue"@, i as nat, "patch"@), t.patch)));
        acc = acc + patch_complaint(field_path("queue"@, i as nat, "patch"@), t.patch);
    }
    let p = path_of_field("queue", i, "plan");
    check_plan(out, p.as_slice(), &t.plan);
    proof {
        assert(texts(out@) =~= base + (acc + plan_value_complaint(field_path("queue"@, i as nat, "plan"@), t.plan)));
        acc = acc + plan_value_complaint(field_path("queue"@, i as nat, "plan"@), t.plan);
    }
    let p = path_of_field("queue", i, "links");
    check_items(out, p.as_slice(), &t.links);
    proof {
        assert(texts(out@) =~= base + (acc + empty_items(field_path("queue"@, i as nat, "links"@), views(t.links@))));
        acc = acc + empty_items(field_path("queue"@, i as nat, "links"@), views(t.links@));
    }
    let p = path_of_field("queue", i, "notes");
    check_items(out, p.as_slice(), &t.notes);
    proof {
        assert(texts(out@) =~= base + (acc + empty_items(field_path("queue"@, i as nat, "notes"@), views(t.notes@))));
        acc = acc + empty_items(field_path("queue"@, i as nat, "notes"@), views(t.notes@));
    }
    assert(acc == queued_tail(i as nat, *t));
}

fn queued_checks(out: &mut Vec<Vec<char>>, i: usize, t: &QueuedTask)
    ensures
        texts(final(out)@) == texts(old(out)@) + queued_errors(i as nat, *t),
{
    queued_checks_head(out, i, t);
    queued_checks_tail(out, i, t);
    assert(texts(out@) =~= texts(old(out)@) + queued_errors(i as nat, *t));
}


#[verifier::rlimit(50)]
fn archived_checks_head(out: &mut Vec<Vec<char>>, i: usize, t: &ArchivedTask)
    ensures
        texts(final(out)@) == texts(old(out)@) + archived_head(i as nat, *t),
{
    let ghost base = texts(old(out)@);
    let ghost mut acc: Seq<Seq<char>> = Seq::empty();
    assert(texts(out@) =~= base + acc);
    let p = path_of_field("archive", i, "id");
    check_rule(out, is_id(&t.id), p.as_slice(), "must be a task id such as QCTL-001");
    proof {
        assert(texts(out@) =~= base + (complain(is_task_id(t.id@), field_path("archive"@, i as nat, "id"@), ID_RULE())));
        acc = complain(is_task_id(t.id@), field_path("archive"@, i as nat, "id"@), ID_RULE());
    }
    let p = path_of_field("archive", i, "title");
    check_rule(out, !t.title.as_str().is_empty(), p.as_slice(), "must not be empty");
    proof {
        assert(texts(out@) =~= base + (acc + complain(t.title@.len() > 0, field_path("archive"@, i as nat, "title"@), NONEMPTY())));
        acc = acc + complain(t.title@.len() > 0, field_path("archive"@, i as nat, "title"@), NONEMPTY());
    }
    let p = path_of_field("archive", i, "scope");
    check_rule(out, !t.scope.as_str().is_empty(), p.as_slice(), "must not be empty");
    proof {
        assert(texts(out@) =~= base + (acc + complain(t.scope@.len() > 0, field_path("archive"@, i as nat, "scope"@), NONEMPTY())));
        acc = acc + complain(t.scope@.len() > 0, field_path("archive"@, i as nat, "scope"@), NONEMPTY());
    }
    let p = path_of_field("archive", i, "completed");
    let c = to_chars(t.completed.as_str());
    check_rule(out, instant_shape_is_valid(c.as_slice()), p.as_slice(), "must be written as YYYY-MM-DDThh:mm:ss");
    proof {
        assert(texts(out@) =~= base + (acc + complain(is_instant_shape(t.completed@), field_path("archive"@, i as nat, "completed"@), STAMP_RULE())));
        acc = acc + complain(is_instant_shape(t.completed@), field_path("archive"@, i as nat, "completed"@), STAMP_RULE());
    }
    check_rule(out, is_a_real_instant(t.completed.as_str(), STAMP_FORMAT), p.as_slice(), "must be a moment that exists");
    proof {
        assert(texts(out@) =~= base + (acc + complain(calendar_moment(t.completed@, STAMP_FORMAT@), field_path("archive"@, i as nat, "completed"@), MOMENT_RULE())));
        acc = acc + complain(calendar_moment(t.completed@, STAMP_FORMAT@), field_path("archive"@, i as nat, "completed"@), MOMENT_RULE());
    }
    let p = path_of_field("archive", i, "outcome");
    check_rule(out, !t.outcome.as_str().is_empty(), p.as_slice(), "must not be empty");
    proof {
        assert(texts(out@) =~= base + (acc + complain(t.outcome@.len() > 0, field_path("archive"@, i as nat, "outcome"@), NONEMPTY())));
        acc = acc + complain(t.outcome@.len() > 0, field_path("archive"@, i as nat, "outcome"@), NONEMPTY());
    }
    assert(acc == archived_head(i as nat, *t));
}

#[verifier::rlimit(50)]
fn archived_checks_tail(out: &mut Vec<Vec<char>>, i: usize, t: &ArchivedTask)
    ensures
        texts(final(out)@) == texts(old(out)@) + archived_tail(i as nat, *t),
{
    let ghost base = texts(old(out)@);
    let ghost mut acc: Seq<Seq<char>> = Seq::empty();
    let p = path_of_field("archive", i, "evidence");
    check_rule(out, t.evidence.len() > 0, p.as_slice(), "must not be empty");
    proof {
        assert(texts(out@) =~= base + (complain(t.evidence@.len() > 0, field_path("archive"@, i as nat, "evidence"@), NONEMPTY())));
        acc = complain(t.evidence@.len() > 0, field_path("archive"@, i as nat, "evidence"@), NONEMPTY());
    }
    let p = path_of_field("archive", i, "evidence");
    check_items(out, p.as_slice(), &t.evidence);
    proof {
        assert(texts(out@) =~= base + (acc + empty_items(field_path("archive"@, i as nat, "evidence"@), views(t.evidence@))));
        acc = acc + empty_items(field_path("archive"@, i as nat, "evidence"@), views(t.evidence@));
    }
    let p = path_of_field("archive", i, "patch");
    check_patch(out, p.as_slice(), &t.patch);
    proof {
        assert(texts(out@) =~= base + (acc + patch_complaint(field_path("archive"@, i as nat, "patch"@), t.patch)));
        acc = acc + patch_complaint(field_path("archive"@, i as nat, "patch"@), t.patch);
    }
    let p = path_of_field("archive", i, "plan");
    check_plan(out, p.as_slice(), &t.plan);
    proof {
        assert(texts(out@) =~= base + (acc + plan_value_complaint(field_path("archive"@, i as nat, "plan"@), t.plan)));
        acc = acc + plan_value_complaint(field_path("archive"@, i as nat, "plan"@), t.plan);
    }
    let p = path_of_field("archive", i, "links");
    check_items(out, p.as_slice(), &t.links);
    proof {
        assert(texts(out@) =~= base + (acc + empty_items(field_path("archive"@, i as nat, "links"@), views(t.links@))));
        acc = acc + empty_items(field_path("archive"@, i as nat, "links"@), views(t.links@));
    }
    let p = path_of_field("archive", i, "notes");
    check_items(out, p.as_slice(), &t.notes);
    proof {
        assert(texts(out@) =~= base + (acc + empty_items(field_path("archive"@, i as nat, "notes"@), views(t.notes@))));
        acc = acc + empty_items(field_path("archive"@, i as nat, "notes"@), views(t.notes@));
    }
    assert(acc == archived_tail(i as nat, *t));
}

fn archived_checks(out: &mut Vec<Vec<char>>, i: usize, t: &ArchivedTask)
    ensures
        texts(final(out)@) == texts(old(out)@) + archived_errors(i as nat, *t),
{
    archived_checks_head(out, i, t);
    archived_checks_tail(out, i, t);
    assert(texts(out@) =~= texts(old(out)@) + archived_errors(i as nat, *t));
}


fn horizon_checks_head(out: &mut Vec<Vec<char>>, i: usize, t: &HorizonTask)
    ensures
        texts(final(out)@) == texts(old(out)@) + horizon_head(i as nat, *t),
{
    let ghost base = texts(old(out)@);
    let ghost mut acc: Seq<Seq<char>> = Seq::empty();
    assert(texts(out@) =~= base + acc);
    let p = path_of_field("horizon", i, "id");
    check_rule(out, is_id(&t.id), p.as_slice(), "must be a task id such as QCTL-001");
    proof {
        assert(texts(out@) =~= base + (complain(is_task_id(t.id@), field_path("horizon"@, i as nat, "id"@), ID_RULE())));
        acc = complain(is_task_id(t.id@), field_path("horizon"@, i as nat, "id"@), ID_RULE());
    }
    let p = path_of_field("horizon", i, "title");
    check_rule(out, !t.title.as_str().is_empty(), p.as_slice(), "must not be empty");
    proof {
        assert(texts(out@) =~= base + (acc + complain(t.title@.len() > 0, field_path("horizon"@, i as nat, "title"@), NONEMPTY())));
        acc = acc + complain(t.title@.len() > 0, field_path("horizon"@, i as nat, "title"@), NONEMPTY());
    }
    let p = path_of_field("horizon", i, "scope");
    check_rule(out, !t.scope.as_str().is_empty(), p.as_slice(), "must not be empty");
    proof {
        assert(texts(out@) =~= base + (acc + complain(t.scope@.len() > 0, field_path("horizon"@, i as nat, "scope"@), NONEMPTY())));
        acc = acc + complain(t.scope@.len() > 0, field_path("horizon"@, i as nat, "scope"@), NONEMPTY());
    }
    let p = path_of_field("horizon", i, "outcome");
    check_rule(out, !t.outcome.as_str().is_empty(), p.as_slice(), "must not be empty");
    proof {
        assert(texts(out@) =~= base + (acc + complain(t.outcome@.len() > 0, field_path("horizon"@, i as nat, "outcome"@), NONEMPTY())));
        acc = acc + complain(t.outcome@.len() > 0, field_path("horizon"@, i as nat, "outcome"@), NONEMPTY());
    }
    let p = path_of_field("horizon", i, "open");
    check_rule(out, !t.open.as_str().is_empty(), p.as_slice(), "must not be empty");
    proof {
        assert(texts(out@) =~= base + (acc + complain(t.open@.len() > 0, field_path("horizon"@, i as nat, "open"@), NONEMPTY())));
        acc = acc + complain(t.open@.len() > 0, field_path("horizon"@, i as nat, "open"@), NONEMPTY());
    }
    assert(acc == horizon_head(i as nat, *t));
}

fn horizon_checks_tail(out: &mut Vec<Vec<char>>, i: usize, t: &HorizonTask)
    ensures
        texts(final(out)@) == texts(old(out)@) + horizon_tail(i as nat, *t),
{
    let ghost base = texts(old(out)@);
    let ghost mut acc: Seq<Seq<char>> = Seq::empty();
    assert(texts(out@) =~= base + acc);
    let p = path_of_field("horizon", i, "patch");
    check_patch(out, p.as_slice(), &t.patch);
    proof {
        assert(texts(out@) =~= base + (patch_complaint(field_path("horizon"@, i as nat, "patch"@), t.patch)));
        acc = patch_complaint(field_path("horizon"@, i as nat, "patch"@), t.patch);
    }
    let p = path_of_field("horizon", i, "plan");
    check_plan(out, p.as_slice(), &t.plan);
    proof {
        assert(texts(out@) =~= base + (acc + plan_value_complaint(field_path("horizon"@, i as nat, "plan"@), t.plan)));
        acc = acc + plan_value_complaint(field_path("horizon"@, i as nat, "plan"@), t.plan);
    }
    let p = path_of_field("horizon", i, "links");
    check_items(out, p.as_slice(), &t.links);
    proof {
        assert(texts(out@) =~= base + (acc + empty_items(field_path("horizon"@, i as nat, "links"@), views(t.links@))));
        acc = acc + empty_items(field_path("horizon"@, i as nat, "links"@), views(t.links@));
    }
    let p = path_of_field("horizon", i, "notes");
    check_items(out, p.as_slice(), &t.notes);
    proof {
        assert(texts(out@) =~= base + (acc + empty_items(field_path("horizon"@, i as nat, "notes"@), views(t.notes@))));
        acc = acc + empty_items(field_path("horizon"@, i as nat, "notes"@), views(t.notes@));
    }
    assert(acc =~= horizon_tail(i as nat, *t));
}

fn horizon_checks(out: &mut Vec<Vec<char>>, i: usize, t: &HorizonTask)
    ensures
        texts(final(out)@) == texts(old(out)@) + horizon_errors(i as nat, *t),
{
    horizon_checks_head(out, i, t);
    horizon_checks_tail(out, i, t);
    assert(texts(out@) =~= texts(old(out)@) + horizon_errors(i as nat, *t));
}

/// Whether the order names every list exactly once.
fn names_all_three(order: &Vec<Section>) -> (res: bool)
    ensures
        res == all_three_lists(order@),
{
    if order.len() != 3 {
        return false;
    }
    let mut q = false;
    let mut a = false;
    let mut h = false;
    let mut k: usize = 0;
    while k < 3
        invariant
            k <= 3,
            order@.len() == 3,
            q == order@.take(k as int).contains(Section::Queue),
            a == order@.take(k as int).contains(Section::Archive),
            h == order@.take(k as int).contains(Section::Horizon),
        decreases 3 - k,
    {
        proof {
            let t = order@.take(k + 1);
            assert(t =~= order@.take(k as int).push(order@[k as int]));
            assert forall|s: Section| t.contains(s) <==> (order@.take(k as int).contains(s) || s == order@[k as int]) by {
                if t.contains(s) {
                    let j = choose|j: int| 0 <= j < t.len() && t[j] == s;
                    if j < k {
                        assert(order@.take(k as int)[j] == s);
                    }
                }
                if order@.take(k as int).contains(s) {
                    let j = choose|j: int| 0 <= j < k && order@.take(k as int)[j] == s;
                    assert(t[j] == s);
                }
                if s == order@[k as int] {
                    assert(t[k as int] == s);
                }
            }
        }
        match order[k] {
            Section::Queue => {
                q = true;
            },
            Section::Archive => {
                a = true;
            },
            Section::Horizon => {
                h = true;
            },
        }
        k = k + 1;
    }
    assert(order@.take(3) == order@);
    q && a && h
}

/// What the contract says is wrong with these values, field by field.
pub fn value_errors(l: &Ledger) -> (out: Vec<String>)
    ensures
        views(out@) == values(*l),
{
    let mut all: Vec<Vec<char>> = Vec::new();
    let p = to_chars("schema_version");
    check_rule(&mut all, l.schema_version == VERSION, p.as_slice(), "must be 4");
    let p = to_chars("prefix");
    let c = to_chars(l.prefix.as_str());
    check_rule(&mut all, prefix_is_valid(c.as_slice()), p.as_slice(), "must match ^[A-Z][A-Z0-9]{1,7}$");
    let p = to_chars("style.timezone");
    let c = to_chars(l.style.timezone.as_str());
    check_rule(&mut all, zone_is_valid(c.as_slice()), p.as_slice(), "must be an offset from UTC such as +00:00");
    let p = to_chars("style.section_order");
    check_rule(&mut all, names_all_three(&l.style.section_order), p.as_slice(), "must name queue, archive and horizon, once each");
    let p = to_chars("style.indent");
    check_rule(&mut all, 1 <= l.style.indent && l.style.indent <= 8, p.as_slice(), "must be between 1 and 8");
    match &l.active {
        Some(a) => {
            let p = to_chars("active");
            check_rule(&mut all, is_id(a), p.as_slice(), "must be a task id such as QCTL-001");
        },
        None => {},
    }
    let ghost head = texts(all@);
    let mut i: usize = 0;
    while i < l.queue.len()
        invariant
            i <= l.queue@.len(),
            texts(all@) == head + queue_value_errors(l.queue@.take(i as int)),
        decreases l.queue@.len() - i,
    {
        proof {
            assert(l.queue@.take(i + 1).drop_last() == l.queue@.take(i as int));
            assert(l.queue@.take(i + 1).last() == l.queue@[i as int]);
        }
        queued_checks(&mut all, i, &l.queue[i]);
        i = i + 1;
    }
    assert(l.queue@.take(l.queue@.len() as int) == l.queue@);
    let ghost head = texts(all@);
    let mut i: usize = 0;
    while i < l.archive.len()
        invariant
            i <= l.archive@.len(),
            texts(all@) == head + archive_value_errors(l.archive@.take(i as int)),
        decreases l.archive@.len() - i,
    {
        proof {
            assert(l.archive@.take(i + 1).drop_last() == l.archive@.take(i as int));
            assert(l.archive@.take(i + 1).last() == l.archive@[i as int]);
        }
        archived_checks(&mut all, i, &l.archive[i]);
        i = i + 1;
    }
    assert(l.archive@.take(l.archive@.len() as int) == l.archive@);
    let ghost head = texts(all@);
    let mut i: usize = 0;
    while i < l.horizon.len()
        invariant
            i <= l.horizon@.len(),
            texts(all@) == head + horizon_value_errors(l.horizon@.take(i as int)),
        decreases l.horizon@.len() - i,
    {
        proof {
            assert(l.horizon@.take(i + 1).drop_last() == l.horizon@.take(i as int));
            assert(l.horizon@.take(i + 1).last() == l.horizon@[i as int]);
        }
        horizon_checks(&mut all, i, &l.horizon[i]);
        i = i + 1;
    }
    assert(l.horizon@.take(l.horizon@.len() as int) == l.horizon@);
    let mut out: Vec<String> = Vec::new();
    let mut k: usize = 0;
    while k < all.len()
        invariant
            k <= all@.len(),
            views(out@) == texts(all@).take(k as int),
        decreases all@.len() - k,
    {
        let ghost before = out@;
        out.push(from_chars(all[k].as_slice()));
        proof {
            assert(views(out@) =~= views(before).push(all@[k as int]@));
            assert(texts(all@).take(k + 1) =~= texts(all@).take(k as int).push(all@[k as int]@));
        }
        k = k + 1;
    }
    proof {
        assert(texts(all@).take(all@.len() as int) == texts(all@));
        assert(views(out@) =~= values(*l));
    }
    out
}


/// Why a file's `schema_version` keeps the verbs away, if it does: schema 3
/// is rewritten by `fmt`, any other version but the current one is not this
/// tool's. A file whose version cannot be read is left to the parser.
pub open spec fn stale_schema_spec(version: Option<u64>, path: Seq<char>) -> Option<Seq<char>> {
    match version {
        None => None,
        Some(v) => if v == 4 {
            None
        } else if v == 3 {
            Some(
                path
                    + ": schema_version 3; run qctl fmt to rewrite notes into a list and set schema_version 4"@,
            )
        } else {
            Some(path + ": schema_version "@ + crate::chars::decimal(v as nat) + " must be 4"@)
        },
    }
}

/// Why a file's `schema_version` keeps the verbs away, if it does, given the
/// version the file declares.
pub fn stale_schema_for(version: Option<u64>, path: &str) -> (res: Option<String>)
    ensures
        match res {
            Some(m) => stale_schema_spec(version, path@) == Some(m@),
            None => stale_schema_spec(version, path@) is None,
        },
{
    let v = match version {
        None => {
            return None;
        },
        Some(v) => v,
    };
    if v == 4 {
        return None;
    }
    let mut m = to_chars(path);
    if v == 3 {
        extend_str(
            &mut m,
            ": schema_version 3; run qctl fmt to rewrite notes into a list and set schema_version 4",
        );
        return Some(from_chars(m.as_slice()));
    }
    extend_str(&mut m, ": schema_version ");
    let d = crate::chars::decimal_of(v);
    crate::chars::extend(&mut m, d.as_slice());
    extend_str(&mut m, " must be 4");
    Some(from_chars(m.as_slice()))
}

/// The `schema_version` a ledger's text declares, as `serde_yml` reads it.
pub open spec fn declared_version(raw: Seq<char>) -> Option<u64> {
    top_number(raw, "schema_version"@)
}

/// The version a ledger's text declares, if it reads as one.
pub fn declared_version_of(raw: &str) -> (res: Option<u64>)
    ensures
        res == declared_version(raw@),
{
    let v = read_top_number(raw, "schema_version");
    proof {
        reveal_strlit("schema_version");
    }
    v
}

/// Why a ledger's text keeps the verbs away, if it does: schema 3 is
/// rewritten by `fmt`, any other version but the current one is not this
/// tool's; a text whose version cannot be read is left to the parser.
pub fn stale_schema_message(raw: &str, path: &str) -> (res: Option<String>)
    ensures
        match res {
            Some(m) => stale_schema_spec(declared_version(raw@), path@) == Some(m@),
            None => stale_schema_spec(declared_version(raw@), path@) is None,
        },
{
    stale_schema_for(declared_version_of(raw), path)
}

/// The complaint a verb makes about a ledger whose values are wrong: every
/// value complaint, joined.
pub open spec fn admission(l: Ledger, path: Seq<char>) -> Option<Seq<char>> {
    if values(l).len() == 0 {
        None
    } else {
        Some("validate "@ + path + ": "@ + crate::chars::join(values(l), "; "@))
    }
}

/// The ledger, refused when its values are wrong: none of the verbs should
/// edit a file they cannot vouch for.
pub fn vouch_for(path: &str, ledger: Ledger) -> (res: Result<Ledger, String>)
    ensures
        match res {
            Ok(l) => l == ledger && admission(ledger, path@) is None,
            Err(m) => admission(ledger, path@) == Some(m@),
        },
{
    let complaints = value_errors(&ledger);
    if complaints.len() == 0 {
        return Ok(ledger);
    }
    let mut parts: Vec<Vec<char>> = Vec::new();
    let mut i: usize = 0;
    while i < complaints.len()
        invariant
            i <= complaints@.len(),
            texts(parts@) == views(complaints@).take(i as int),
        decreases complaints@.len() - i,
    {
        let ghost before = parts@;
        parts.push(to_chars(complaints[i].as_str()));
        proof {
            assert(texts(parts@) =~= texts(before).push(complaints@[i as int]@));
            assert(views(complaints@).take(i + 1) =~= views(complaints@).take(i as int).push(complaints@[i as int]@));
        }
        i = i + 1;
    }
    assert(views(complaints@).take(complaints@.len() as int) == views(complaints@));
    let sep = to_chars("; ");
    proof {
        assert(parts@.map_values(|v: Vec<char>| v@) =~= texts(parts@));
    }
    let joined = crate::chars::join_chars(&parts, sep.as_slice());
    let mut m = to_chars("validate ");
    extend_str(&mut m, path);
    extend_str(&mut m, ": ");
    crate::chars::extend(&mut m, joined.as_slice());
    Err(from_chars(m.as_slice()))
}

} // verus!
