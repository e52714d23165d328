//! The id corpus: queue, archive, and horizon partition one sequence of ids,
//! `PREFIX-001` through the highest, each claimed exactly once.

use crate::chars::{
    decimal, decimal_of, extend, extend_str, from_chars, join, join_chars, less, lex_lt,
    lemma_lex_asymmetric, lemma_lex_irreflexive, lemma_lex_total, lemma_lex_transitive, padded3,
    padded3_of, parse_nat, parse_number, same, strip_prefix, texts, to_chars, without_prefix,
};
use crate::schema::{ArchivedTask, HorizonTask, Ledger, QueuedTask};
use vstd::prelude::*;

verus! {

/// The highest number a task id may carry.
pub const MAX_TASK_NUMBER: u32 = 999_999;

/// Which list claims an id.
#[derive(Clone, Copy, PartialEq, Eq, Structural, Debug)]
pub enum Status {
    Queue,
    Archive,
    Horizon,
}

/// The word a list is named by in a message.
pub open spec fn status_word(status: Status) -> Seq<char> {
    match status {
        Status::Queue => "queue"@,
        Status::Archive => "archive"@,
        Status::Horizon => "horizon"@,
    }
}

fn status_text(status: Status) -> (out: &'static str)
    ensures
        out@ == status_word(status),
{
    match status {
        Status::Queue => "queue",
        Status::Archive => "archive",
        Status::Horizon => "horizon",
    }
}

/// One id as written, and the list it sits in.
pub struct Claim {
    pub id: Vec<char>,
    pub status: Status,
}

/// A claim as the ledger makes it.
pub open spec fn claim_view(c: Claim) -> (Seq<char>, Status) {
    (c.id@, c.status)
}

/// Claims as the ledger makes them.
pub open spec fn claim_views(cs: Seq<Claim>) -> Seq<(Seq<char>, Status)> {
    cs.map_values(|c: Claim| claim_view(c))
}

/// Every id the ledger holds, queue first, then archive, then horizon, each in
/// file order.
pub open spec fn claims(l: Ledger) -> Seq<(Seq<char>, Status)> {
    l.queue@.map_values(|t: QueuedTask| (t.id@, Status::Queue)) + l.archive@.map_values(
        |t: ArchivedTask| (t.id@, Status::Archive),
    ) + l.horizon@.map_values(|t: HorizonTask| (t.id@, Status::Horizon))
}

/// Every id the ledger holds, with the list that holds it.
pub fn claims_of(l: &Ledger) -> (out: Vec<Claim>)
    ensures
        claim_views(out@) == claims(*l),
{
    let mut out: Vec<Claim> = Vec::new();
    let ghost q = l.queue@.map_values(|t: QueuedTask| (t.id@, Status::Queue));
    let ghost a = l.archive@.map_values(|t: ArchivedTask| (t.id@, Status::Archive));
    let ghost h = l.horizon@.map_values(|t: HorizonTask| (t.id@, Status::Horizon));
    let mut i: usize = 0;
    while i < l.queue.len()
        invariant
            i <= l.queue@.len(),
            q == l.queue@.map_values(|t: QueuedTask| (t.id@, Status::Queue)),
            claim_views(out@) == q.take(i as int),
        decreases l.queue@.len() - i,
    {
        let ghost before = out@;
        out.push(Claim { id: to_chars(l.queue[i].id.as_str()), status: Status::Queue });
        proof {
            assert(claim_views(out@) =~= claim_views(before).push(q[i as int]));
            assert(q.take(i + 1) == q.take(i as int).push(q[i as int]));
        }
        i = i + 1;
    }
    assert(q.take(l.queue@.len() as int) == q);
    let mut i: usize = 0;
    while i < l.archive.len()
        invariant
            i <= l.archive@.len(),
            q == l.queue@.map_values(|t: QueuedTask| (t.id@, Status::Queue)),
            a == l.archive@.map_values(|t: ArchivedTask| (t.id@, Status::Archive)),
            claim_views(out@) == q + a.take(i as int),
        decreases l.archive@.len() - i,
    {
        let ghost before = out@;
        out.push(Claim { id: to_chars(l.archive[i].id.as_str()), status: Status::Archive });
        proof {
            assert(claim_views(out@) =~= claim_views(before).push(a[i as int]));
            assert(a.take(i + 1) == a.take(i as int).push(a[i as int]));
            assert(q + a.take(i + 1) =~= (q + a.take(i as int)).push(a[i as int]));
        }
        i = i + 1;
    }
    assert(a.take(l.archive@.len() as int) == a);
    let mut i: usize = 0;
    while i < l.horizon.len()
        invariant
            i <= l.horizon@.len(),
            q == l.queue@.map_values(|t: QueuedTask| (t.id@, Status::Queue)),
            a == l.archive@.map_values(|t: ArchivedTask| (t.id@, Status::Archive)),
            h == l.horizon@.map_values(|t: HorizonTask| (t.id@, Status::Horizon)),
            claim_views(out@) == q + a + h.take(i as int),
        decreases l.horizon@.len() - i,
    {
        let ghost before = out@;
        out.push(Claim { id: to_chars(l.horizon[i].id.as_str()), status: Status::Horizon });
        proof {
            assert(claim_views(out@) =~= claim_views(before).push(h[i as int]));
            assert(h.take(i + 1) == h.take(i as int).push(h[i as int]));
            assert(q + a + h.take(i + 1) =~= (q + a + h.take(i as int)).push(h[i as int]));
        }
        i = i + 1;
    }
    assert(h.take(l.horizon@.len() as int) == h);
    out
}

/// The number an id carries under a prefix: what follows `PREFIX-`, read as
/// `u32` reads it.
pub open spec fn id_number(id: Seq<char>, prefix: Seq<char>) -> Option<nat> {
    match strip_prefix(id, prefix) {
        Some(rest) => match strip_prefix(rest, seq!['-']) {
            Some(digits) => parse_nat(digits, u32::MAX as nat),
            None => None,
        },
        None => None,
    }
}

/// The number an id carries under a prefix.
pub fn number(id: &[char], prefix: &[char]) -> (res: Option<u32>)
    ensures
        match res {
            Some(n) => id_number(id@, prefix@) == Some(n as nat),
            None => id_number(id@, prefix@) is None,
        },
{
    let dash: [char; 1] = ['-'];
    assert(dash@ =~= seq!['-']);
    match without_prefix(id, prefix) {
        Some(rest) => match without_prefix(rest.as_slice(), dash.as_slice()) {
            Some(digits) => match parse_number(digits.as_slice(), u32::MAX as u64) {
                Some(n) => Some(n as u32),
                None => None,
            },
            None => None,
        },
        None => None,
    }
}

/// The largest number among the claims, or 0 when none carries one.
pub open spec fn highest(cs: Seq<(Seq<char>, Status)>, prefix: Seq<char>) -> nat
    decreases cs.len(),
{
    if cs.len() == 0 {
        0
    } else {
        let rest = highest(cs.drop_last(), prefix);
        match id_number(cs.last().0, prefix) {
            Some(n) => if n > rest {
                n
            } else {
                rest
            },
            None => rest,
        }
    }
}

pub proof fn lemma_highest_bounds(cs: Seq<(Seq<char>, Status)>, prefix: Seq<char>, k: int)
    requires
        0 <= k < cs.len(),
        id_number(cs[k].0, prefix) is Some,
    ensures
        id_number(cs[k].0, prefix)->0 <= highest(cs, prefix),
    decreases cs.len(),
{
    if k < cs.len() - 1 {
        assert(cs.drop_last()[k] == cs[k]);
        lemma_highest_bounds(cs.drop_last(), prefix, k);
    }
}

pub proof fn lemma_highest_fits(cs: Seq<(Seq<char>, Status)>, prefix: Seq<char>)
    ensures
        highest(cs, prefix) <= u32::MAX,
    decreases cs.len(),
{
    if cs.len() > 0 {
        lemma_highest_fits(cs.drop_last(), prefix);
    }
}

/// The largest number any id in the ledger carries, or 0.
pub fn highest_number(l: &Ledger) -> (n: u32)
    ensures
        n as nat == highest(claims(*l), l.prefix@),
{
    let cs = claims_of(l);
    let prefix = to_chars(l.prefix.as_str());
    let ghost views = claim_views(cs@);
    let mut best: u32 = 0;
    let mut i: usize = 0;
    while i < cs.len()
        invariant
            i <= cs@.len(),
            views == claim_views(cs@),
            prefix@ == l.prefix@,
            best as nat == highest(views.take(i as int), prefix@),
        decreases cs@.len() - i,
    {
        let found = number(cs[i].id.as_slice(), prefix.as_slice());
        proof {
            assert(views.take(i + 1).drop_last() == views.take(i as int));
            assert(views.take(i + 1).last() == views[i as int]);
            assert(views[i as int].0 == cs@[i as int].id@);
        }
        match found {
            Some(n) => {
                if n > best {
                    best = n;
                }
            },
            None => {},
        }
        i = i + 1;
    }
    assert(views.take(cs@.len() as int) == views);
    best
}

/// `PREFIX-NNN` for a number.
pub open spec fn id_text(prefix: Seq<char>, n: nat) -> Seq<char> {
    prefix + seq!['-'] + padded3(n)
}

/// `PREFIX-NNN` for a number.
pub fn id_for(prefix: &[char], n: u64) -> (out: Vec<char>)
    ensures
        out@ == id_text(prefix@, n as nat),
{
    let mut out: Vec<char> = Vec::new();
    extend(&mut out, prefix);
    out.push('-');
    let digits = padded3_of(n);
    extend(&mut out, digits.as_slice());
    assert(out@ =~= prefix@ + seq!['-'] + padded3(n as nat));
    out
}

/// How many claims name this id.
pub open spec fn claim_count(cs: Seq<(Seq<char>, Status)>, id: Seq<char>) -> nat
    decreases cs.len(),
{
    if cs.len() == 0 {
        0
    } else {
        claim_count(cs.drop_last(), id) + if cs.last().0 == id {
            1nat
        } else {
            0nat
        }
    }
}

/// The lists that claim this id, in claim order.
pub open spec fn statuses(cs: Seq<(Seq<char>, Status)>, id: Seq<char>) -> Seq<Status>
    decreases cs.len(),
{
    if cs.len() == 0 {
        Seq::empty()
    } else if cs.last().0 == id {
        statuses(cs.drop_last(), id).push(cs.last().1)
    } else {
        statuses(cs.drop_last(), id)
    }
}

/// The distinct lists among these, queue before archive before horizon.
pub open spec fn distinct_statuses(ss: Seq<Status>) -> Seq<Status> {
    (if ss.contains(Status::Queue) {
        seq![Status::Queue]
    } else {
        Seq::empty()
    }) + (if ss.contains(Status::Archive) {
        seq![Status::Archive]
    } else {
        Seq::empty()
    }) + (if ss.contains(Status::Horizon) {
        seq![Status::Horizon]
    } else {
        Seq::empty()
    })
}

/// What `check` says about an id claimed more than once.
pub open spec fn duplicate_message(cs: Seq<(Seq<char>, Status)>, id: Seq<char>) -> Seq<char> {
    let ss = statuses(cs, id);
    let d = distinct_statuses(ss);
    if d.len() == 1 {
        "duplicate id "@ + id + " appears "@ + decimal(ss.len()) + " times in "@ + status_word(d[0])
    } else {
        "duplicate id "@ + id + " has multiple statuses: "@ + join(d.map_values(|s: Status| status_word(s)), ", "@)
    }
}

/// Whether the texts are in strictly increasing order.
pub open spec fn strictly_sorted(s: Seq<Seq<char>>) -> bool {
    forall|i: int, j: int| 0 <= i < j < s.len() ==> lex_lt(#[trigger] s[i], #[trigger] s[j])
}

/// `ids` is exactly the ids claimed more than once, in increasing order.
pub open spec fn duplicated_ids(cs: Seq<(Seq<char>, Status)>, ids: Seq<Seq<char>>) -> bool {
    &&& strictly_sorted(ids)
    &&& forall|k: int| 0 <= k < ids.len() ==> claim_count(cs, #[trigger] ids[k]) > 1
    &&& forall|j: int|
        0 <= j < cs.len() && claim_count(cs, #[trigger] cs[j].0) > 1 ==> ids.contains(cs[j].0)
}

pub proof fn lemma_claim_count_positive(cs: Seq<(Seq<char>, Status)>, j: int)
    requires
        0 <= j < cs.len(),
    ensures
        claim_count(cs, cs[j].0) >= 1,
    decreases cs.len(),
{
    if j < cs.len() - 1 {
        assert(cs.drop_last()[j] == cs[j]);
        lemma_claim_count_positive(cs.drop_last(), j);
    }
}

pub proof fn lemma_statuses_len(cs: Seq<(Seq<char>, Status)>, id: Seq<char>)
    ensures
        statuses(cs, id).len() == claim_count(cs, id),
        forall|k: int|
            0 <= k < statuses(cs, id).len() ==> exists|j: int|
                0 <= j < cs.len() && cs[j].0 == id && cs[j].1 == #[trigger] statuses(cs, id)[k],
        forall|j: int|
            0 <= j < cs.len() && cs[j].0 == id ==> statuses(cs, id).contains(#[trigger] cs[j].1),
    decreases cs.len(),
{
    if cs.len() > 0 {
        let r = cs.drop_last();
        lemma_statuses_len(r, id);
        assert forall|k: int| 0 <= k < statuses(cs, id).len() implies exists|j: int|
            0 <= j < cs.len() && cs[j].0 == id && cs[j].1 == #[trigger] statuses(cs, id)[k] by {
            if k < statuses(r, id).len() {
                assert(statuses(cs, id)[k] == statuses(r, id)[k]);
                let j = choose|j: int|
                    0 <= j < r.len() && r[j].0 == id && r[j].1 == #[trigger] statuses(r, id)[k];
                assert(cs[j] == r[j]);
            } else {
                assert(cs[cs.len() - 1].1 == statuses(cs, id)[k]);
            }
        }
        assert forall|j: int| 0 <= j < cs.len() && cs[j].0 == id implies statuses(cs, id).contains(
            #[trigger] cs[j].1,
        ) by {
            if j < cs.len() - 1 {
                assert(r[j] == cs[j]);
                let k = choose|k: int| 0 <= k < statuses(r, id).len() && statuses(r, id)[k] == cs[j].1;
                assert(statuses(cs, id)[k] == statuses(r, id)[k]);
            } else {
                assert(statuses(cs, id).last() == cs[j].1);
            }
        }
    }
}

/// Keep a strictly sorted list sorted while adding a text it does not hold.
fn insert_sorted(v: &mut Vec<Vec<char>>, x: Vec<char>)
    requires
        strictly_sorted(texts(old(v)@)),
        !texts(old(v)@).contains(x@),
    ensures
        strictly_sorted(texts(final(v)@)),
        forall|t: Seq<char>|
            texts(final(v)@).contains(t) <==> (old(v)@.map_values(
                |e: Vec<char>| e@,
            ).contains(t) || t == x@),
{
    let ghost before = texts(v@);
    let mut i: usize = 0;
    while i < v.len() && less(v[i].as_slice(), x.as_slice())
        invariant
            i <= v@.len(),
            before == texts(v@),
            forall|k: int| 0 <= k < i ==> lex_lt(#[trigger] before[k], x@),
        decreases v@.len() - i,
    {
        proof {
            assert(before[i as int] == v@[i as int]@);
        }
        i = i + 1;
    }
    proof {
        if i < before.len() {
            assert(before[i as int] == v@[i as int]@);
            lemma_lex_total(before[i as int], x@);
            assert(before[i as int] != x@) by {
                assert(before.contains(before[i as int]));
            }
            assert(lex_lt(x@, before[i as int]));
        }
    }
    let ghost xv = x@;
    v.insert(i, x);
    proof {
        let after = texts(v@);
        assert(after =~= before.insert(i as int, xv));
        assert forall|a: int, b: int| 0 <= a < b < after.len() implies lex_lt(
            #[trigger] after[a],
            #[trigger] after[b],
        ) by {
            if b < i {
                assert(after[a] == before[a] && after[b] == before[b]);
            } else if b == i {
                assert(after[a] == before[a]);
            } else if a < i {
                assert(after[a] == before[a] && after[b] == before[b - 1]);
                assert(lex_lt(xv, before[i as int]));
                if b - 1 > i {
                    lemma_lex_transitive(xv, before[i as int], before[b - 1]);
                }
                lemma_lex_transitive(before[a], xv, before[b - 1]);
            } else if a == i {
                assert(after[b] == before[b - 1]);
                if b - 1 > i {
                    lemma_lex_transitive(xv, before[i as int], before[b - 1]);
                }
            } else {
                assert(after[a] == before[a - 1] && after[b] == before[b - 1]);
            }
        }
        assert forall|t: Seq<char>| after.contains(t) <==> (before.contains(t) || t == xv) by {
            if after.contains(t) {
                let k = choose|k: int| 0 <= k < after.len() && after[k] == t;
                if k < i {
                    assert(before[k] == t);
                } else if k > i {
                    assert(before[k - 1] == t);
                }
            }
            if before.contains(t) {
                let k = choose|k: int| 0 <= k < before.len() && before[k] == t;
                if k < i {
                    assert(after[k] == t);
                } else {
                    assert(after[k + 1] == t);
                }
            }
            if t == xv {
                assert(after[i as int] == t);
            }
        }
    }
}

/// Whether a list of texts holds this one.
fn holds(v: &Vec<Vec<char>>, x: &[char]) -> (res: bool)
    ensures
        res == texts(v@).contains(x@),
{
    let ghost views = texts(v@);
    let mut i: usize = 0;
    while i < v.len()
        invariant
            i <= v@.len(),
            views == texts(v@),
            forall|k: int| 0 <= k < i ==> views[k] != x@,
        decreases v@.len() - i,
    {
        if same(v[i].as_slice(), x) {
            proof {
                assert(views[i as int] == x@);
            }
            return true;
        }
        i = i + 1;
    }
    false
}

/// How many claims name this id, and which lists they sit in.
fn claimants(cs: &Vec<Claim>, id: &[char]) -> (res: (usize, bool, bool, bool))
    ensures
        res.0 as nat == claim_count(claim_views(cs@), id@),
        res.1 == statuses(claim_views(cs@), id@).contains(Status::Queue),
        res.2 == statuses(claim_views(cs@), id@).contains(Status::Archive),
        res.3 == statuses(claim_views(cs@), id@).contains(Status::Horizon),
{
    let ghost views = claim_views(cs@);
    let mut n: usize = 0;
    let mut q = false;
    let mut a = false;
    let mut h = false;
    let mut i: usize = 0;
    while i < cs.len()
        invariant
            i <= cs@.len(),
            views == claim_views(cs@),
            n as nat == claim_count(views.take(i as int), id@),
            n <= i,
            q == statuses(views.take(i as int), id@).contains(Status::Queue),
            a == statuses(views.take(i as int), id@).contains(Status::Archive),
            h == statuses(views.take(i as int), id@).contains(Status::Horizon),
        decreases cs@.len() - i,
    {
        let ghost t = views.take(i + 1);
        proof {
            assert(t.drop_last() == views.take(i as int));
            assert(t.last() == views[i as int]);
            assert(views[i as int] == claim_view(cs@[i as int]));
        }
        if same(cs[i].id.as_slice(), id) {
            n = n + 1;
            match cs[i].status {
                Status::Queue => {
                    q = true;
                },
                Status::Archive => {
                    a = true;
                },
                Status::Horizon => {
                    h = true;
                },
            }
            proof {
                let s0 = statuses(views.take(i as int), id@);
                assert(statuses(t, id@) == s0.push(cs@[i as int].status));
                assert forall|st: Status| statuses(t, id@).contains(st) <==> (s0.contains(st)
                    || st == cs@[i as int].status) by {
                    if statuses(t, id@).contains(st) {
                        let k = choose|k: int|
                            0 <= k < statuses(t, id@).len() && statuses(t, id@)[k] == st;
                        if k < s0.len() {
                            assert(s0[k] == st);
                        }
                    }
                    if s0.contains(st) {
                        let k = choose|k: int| 0 <= k < s0.len() && s0[k] == st;
                        assert(statuses(t, id@)[k] == st);
                    }
                    if st == cs@[i as int].status {
                        assert(statuses(t, id@)[s0.len() as int] == st);
                    }
                }
            }
        }
        i = i + 1;
    }
    assert(views.take(cs@.len() as int) == views);
    (n, q, a, h)
}

/// The message for one id claimed more than once.
fn duplicate_text(cs: &Vec<Claim>, id: &[char]) -> (out: Vec<char>)
    ensures
        out@ == duplicate_message(claim_views(cs@), id@),
{
    let ghost views = claim_views(cs@);
    let (n, q, a, h) = claimants(cs, id);
    proof {
        lemma_statuses_len(views, id@);
    }
    let mut distinct: Vec<Status> = Vec::new();
    if q {
        distinct.push(Status::Queue);
    }
    if a {
        distinct.push(Status::Archive);
    }
    if h {
        distinct.push(Status::Horizon);
    }
    let ghost ss = statuses(views, id@);
    assert(distinct@ =~= distinct_statuses(ss));
    let mut out: Vec<char> = Vec::new();
    if distinct.len() == 1 {
        extend_str(&mut out, "duplicate id ");
        extend(&mut out, id);
        extend_str(&mut out, " appears ");
        let count = decimal_of(n as u64);
        extend(&mut out, count.as_slice());
        extend_str(&mut out, " times in ");
        extend_str(&mut out, status_text(distinct[0]));
    } else {
        extend_str(&mut out, "duplicate id ");
        extend(&mut out, id);
        extend_str(&mut out, " has multiple statuses: ");
        let mut words: Vec<Vec<char>> = Vec::new();
        let mut k: usize = 0;
        while k < distinct.len()
            invariant
                k <= distinct@.len(),
                texts(words@) == distinct@.take(k as int).map_values(
                    |s: Status| status_word(s),
                ),
            decreases distinct@.len() - k,
        {
            let ghost before = words@;
            words.push(to_chars(status_text(distinct[k])));
            proof {
                assert(texts(words@) =~= texts(before).push(status_word(distinct@[k as int])));
                assert(distinct@.take(k + 1).map_values(|s: Status| status_word(s))
                    =~= distinct@.take(k as int).map_values(|s: Status| status_word(s)).push(
                    status_word(distinct@[k as int]),
                ));
            }
            k = k + 1;
        }
        assert(distinct@.take(distinct@.len() as int) == distinct@);
        let sep = to_chars(", ");
        let joined = join_chars(&words, sep.as_slice());
        extend(&mut out, joined.as_slice());
    }
    out
}

/// One message per id claimed more than once, in increasing id order.
pub fn duplicate_errors(cs: &Vec<Claim>) -> (out: Vec<Vec<char>>)
    ensures
        exists|ids: Seq<Seq<char>>|
            #![trigger duplicated_ids(claim_views(cs@), ids)]
            duplicated_ids(claim_views(cs@), ids) && texts(out@) == ids.map_values(
                |id: Seq<char>| duplicate_message(claim_views(cs@), id),
            ),
{
    let ghost views = claim_views(cs@);
    let mut dups: Vec<Vec<char>> = Vec::new();
    let mut i: usize = 0;
    while i < cs.len()
        invariant
            i <= cs@.len(),
            views == claim_views(cs@),
            strictly_sorted(texts(dups@)),
            forall|k: int|
                0 <= k < dups@.len() ==> claim_count(
                    views,
                    #[trigger] texts(dups@)[k],
                ) > 1,
            forall|j: int|
                0 <= j < i && claim_count(views, #[trigger] views[j].0) > 1 ==> texts(dups@).contains(views[j].0),
        decreases cs@.len() - i,
    {
        proof {
            assert(views[i as int] == claim_view(cs@[i as int]));
        }
        let (n, _, _, _) = claimants(cs, cs[i].id.as_slice());
        if n > 1 && !holds(&dups, cs[i].id.as_slice()) {
            let ghost before = texts(dups@);
            let id = cs[i].id.clone();
            insert_sorted(&mut dups, id);
            proof {
                let after = texts(dups@);
                assert forall|k: int| 0 <= k < after.len() implies claim_count(
                    views,
                    #[trigger] after[k],
                ) > 1 by {
                    assert(after.contains(after[k]));
                    if before.contains(after[k]) {
                        let m = choose|m: int| 0 <= m < before.len() && before[m] == after[k];
                    }
                }
                assert forall|j: int|
                    0 <= j < i + 1 && claim_count(views, #[trigger] views[j].0) > 1 implies after.contains(
                    views[j].0,
                ) by {
                    if j < i {
                        assert(before.contains(views[j].0));
                    }
                }
            }
        } else {
            proof {
                let after = texts(dups@);
                assert forall|j: int|
                    0 <= j < i + 1 && claim_count(views, #[trigger] views[j].0) > 1 implies after.contains(
                    views[j].0,
                ) by {}
            }
        }
        i = i + 1;
    }
    let mut out: Vec<Vec<char>> = Vec::new();
    let mut k: usize = 0;
    let ghost ids = texts(dups@);
    while k < dups.len()
        invariant
            k <= dups@.len(),
            views == claim_views(cs@),
            ids == texts(dups@),
            texts(out@) == ids.take(k as int).map_values(
                |id: Seq<char>| duplicate_message(views, id),
            ),
        decreases dups@.len() - k,
    {
        let ghost before = out@;
        let message = duplicate_text(cs, dups[k].as_slice());
        out.push(message);
        proof {
            assert(ids[k as int] == dups@[k as int]@);
            assert(texts(out@) =~= texts(before).push(
                duplicate_message(views, ids[k as int]),
            ));
            assert(ids.take(k + 1).map_values(|id: Seq<char>| duplicate_message(views, id))
                =~= ids.take(k as int).map_values(|id: Seq<char>| duplicate_message(views, id)).push(
                duplicate_message(views, ids[k as int]),
            ));
        }
        k = k + 1;
    }
    proof {
        assert(ids.take(dups@.len() as int) == ids);
        assert(duplicated_ids(views, ids));
    }
    out
}

/// What `check` says about one claim's number, if anything.
pub open spec fn number_error(id: Seq<char>, prefix: Seq<char>) -> Option<Seq<char>> {
    match id_number(id, prefix) {
        Some(n) => if n == 0 {
            Some(id + " uses zero; the task sequence starts at "@ + prefix + "-001"@)
        } else if n > MAX_TASK_NUMBER {
            Some(id + " is outside the id space (max "@ + prefix + "-999999)"@)
        } else if id != id_text(prefix, n) {
            Some(id + " is not canonical; use "@ + id_text(prefix, n))
        } else {
            None
        },
        None => None,
    }
}

/// Whether a claim contributes its number to the corpus: it carries one, in
/// range, written canonically.
pub open spec fn canonical_number(id: Seq<char>, prefix: Seq<char>) -> Option<nat> {
    match id_number(id, prefix) {
        Some(n) => if number_error(id, prefix) is None {
            Some(n)
        } else {
            None
        },
        None => None,
    }
}

/// Every number complaint, in claim order.
pub open spec fn number_errors(cs: Seq<(Seq<char>, Status)>, prefix: Seq<char>) -> Seq<Seq<char>>
    decreases cs.len(),
{
    if cs.len() == 0 {
        Seq::empty()
    } else {
        let rest = number_errors(cs.drop_last(), prefix);
        match number_error(cs.last().0, prefix) {
            Some(m) => rest.push(m),
            None => rest,
        }
    }
}

/// The canonical numbers the claims carry, each once, in increasing order.
pub open spec fn corpus_numbers(cs: Seq<(Seq<char>, Status)>, prefix: Seq<char>, nums: Seq<u32>) -> bool {
    &&& forall|i: int, j: int| 0 <= i < j < nums.len() ==> #[trigger] nums[i] < #[trigger] nums[j]
    &&& forall|k: int|
        #![trigger nums[k]]
        0 <= k < nums.len() ==> exists|j: int|
            0 <= j < cs.len() && canonical_number(#[trigger] cs[j].0, prefix) == Some(
                nums[k] as nat,
            )
    &&& forall|j: int|
        0 <= j < cs.len() && #[trigger] canonical_number(cs[j].0, prefix) is Some ==> nums.contains(
            canonical_number(cs[j].0, prefix)->0 as u32,
        )
}

/// Add a number to a strictly increasing list that does not hold it.
fn insert_number(v: &mut Vec<u32>, x: u32)
    requires
        forall|i: int, j: int| 0 <= i < j < old(v)@.len() ==> #[trigger] old(v)@[i] < #[trigger] old(v)@[j],
    ensures
        forall|i: int, j: int| 0 <= i < j < final(v)@.len() ==> #[trigger] final(v)@[i] < #[trigger] final(v)@[j],
        forall|t: u32| final(v)@.contains(t) <==> (old(v)@.contains(t) || t == x),
{
    let ghost before = v@;
    let mut i: usize = 0;
    while i < v.len() && v[i] < x
        invariant
            i <= v@.len(),
            before == v@,
            forall|k: int| 0 <= k < i ==> #[trigger] before[k] < x,
        decreases v@.len() - i,
    {
        i = i + 1;
    }
    if i < v.len() && v[i] == x {
        return;
    }
    v.insert(i, x);
    proof {
        let after = v@;
        assert(after =~= before.insert(i as int, x));
        assert forall|t: u32| after.contains(t) <==> (before.contains(t) || t == x) by {
            if after.contains(t) {
                let k = choose|k: int| 0 <= k < after.len() && after[k] == t;
                if k < i {
                    assert(before[k] == t);
                } else if k > i {
                    assert(before[k - 1] == t);
                }
            }
            if before.contains(t) {
                let k = choose|k: int| 0 <= k < before.len() && before[k] == t;
                if k < i {
                    assert(after[k] == t);
                } else {
                    assert(after[k + 1] == t);
                }
            }
            if t == x {
                assert(after[i as int] == t);
            }
        }
    }
}

/// The complaint about one claim's number, if any, and the number it
/// contributes when it has none.
fn judge_number(id: &[char], prefix: &[char]) -> (res: (Option<Vec<char>>, Option<u32>))
    ensures
        match res.0 {
            Some(m) => number_error(id@, prefix@) == Some(m@),
            None => number_error(id@, prefix@) is None,
        },
        match res.1 {
            Some(n) => canonical_number(id@, prefix@) == Some(n as nat),
            None => canonical_number(id@, prefix@) is None,
        },
{
    match number(id, prefix) {
        Some(n) => {
            if n == 0 {
                let mut m: Vec<char> = Vec::new();
                extend(&mut m, id);
                extend_str(&mut m, " uses zero; the task sequence starts at ");
                extend(&mut m, prefix);
                extend_str(&mut m, "-001");
                (Some(m), None)
            } else if n > MAX_TASK_NUMBER {
                let mut m: Vec<char> = Vec::new();
                extend(&mut m, id);
                extend_str(&mut m, " is outside the id space (max ");
                extend(&mut m, prefix);
                extend_str(&mut m, "-999999)");
                (Some(m), None)
            } else {
                let canonical = id_for(prefix, n as u64);
                if !same(id, canonical.as_slice()) {
                    let mut m: Vec<char> = Vec::new();
                    extend(&mut m, id);
                    extend_str(&mut m, " is not canonical; use ");
                    extend(&mut m, canonical.as_slice());
                    (Some(m), None)
                } else {
                    (None, Some(n))
                }
            }
        },
        None => (None, None),
    }
}

/// Every number complaint, and the canonical numbers in increasing order.
pub fn own_numbers(cs: &Vec<Claim>, prefix: &[char]) -> (res: (Vec<Vec<char>>, Vec<u32>))
    ensures
        texts(res.0@) == number_errors(
            claim_views(cs@),
            prefix@,
        ),
        corpus_numbers(claim_views(cs@), prefix@, res.1@),
{
    let ghost views = claim_views(cs@);
    let mut errors: Vec<Vec<char>> = Vec::new();
    let mut nums: Vec<u32> = Vec::new();
    let mut i: usize = 0;
    while i < cs.len()
        invariant
            i <= cs@.len(),
            views == claim_views(cs@),
            texts(errors@) == number_errors(views.take(i as int), prefix@),
            corpus_numbers(views.take(i as int), prefix@, nums@),
        decreases cs@.len() - i,
    {
        let ghost t = views.take(i + 1);
        let ghost prev = nums@;
        proof {
            assert(t.drop_last() == views.take(i as int));
            assert(t.last() == views[i as int]);
            assert(views[i as int] == claim_view(cs@[i as int]));
        }
        let (complaint, contributed) = judge_number(cs[i].id.as_slice(), prefix);
        match complaint {
            Some(m) => {
                let ghost before = errors@;
                errors.push(m);
                proof {
                    assert(texts(errors@) =~= texts(before).push(m@));
                }
            },
            None => {},
        }
        match contributed {
            Some(n) => {
                insert_number(&mut nums, n);
            },
            None => {},
        }
        proof {
            let s = views.take(i as int);
            assert forall|k: int| #![trigger nums@[k]] 0 <= k < nums@.len() implies exists|j: int|
                0 <= j < t.len() && canonical_number(#[trigger] t[j].0, prefix@) == Some(
                    nums@[k] as nat,
                ) by {
                if prev.contains(nums@[k]) {
                    let m = choose|m: int| 0 <= m < prev.len() && prev[m] == nums@[k];
                    let j = choose|j: int|
                        0 <= j < s.len() && canonical_number(#[trigger] s[j].0, prefix@) == Some(
                            prev[m] as nat,
                        );
                    assert(t[j] == s[j]);
                } else {
                    assert(nums@.contains(nums@[k]));
                    assert(t[i as int].0 == cs@[i as int].id@);
                }
            }
            assert forall|j: int|
                0 <= j < t.len() && #[trigger] canonical_number(t[j].0, prefix@) is Some implies nums@.contains(
                canonical_number(t[j].0, prefix@)->0 as u32,
            ) by {
                if j < i {
                    assert(t[j] == s[j]);
                    assert(prev.contains(canonical_number(s[j].0, prefix@)->0 as u32));
                }
            }
        }
        i = i + 1;
    }
    assert(views.take(cs@.len() as int) == views);
    (errors, nums)
}

/// The ranges of numbers missing before each present one, starting after
/// `prev`.
pub open spec fn gaps(nums: Seq<u32>, prev: nat) -> Seq<(nat, nat)>
    decreases nums.len(),
{
    if nums.len() == 0 {
        Seq::empty()
    } else {
        let n = nums[0] as nat;
        (if n > prev + 1 {
            seq![(prev + 1, (n - 1) as nat)]
        } else {
            Seq::empty()
        }) + gaps(nums.drop_first(), n)
    }
}

/// The ranges of numbers missing from a strictly increasing list, from 1.
pub fn missing_ranges(numbers: &[u32]) -> (out: Vec<(u32, u32)>)
    ensures
        out@.map_values(|r: (u32, u32)| (r.0 as nat, r.1 as nat)) == gaps(numbers@, 0),
{
    let mut missing: Vec<(u32, u32)> = Vec::new();
    let mut previous: u32 = 0;
    let mut i: usize = 0;
    assert(numbers@.skip(0) == numbers@);
    while i < numbers.len()
        invariant
            i <= numbers@.len(),
            i > 0 ==> previous == numbers@[i - 1],
            i == 0 ==> previous == 0,
            gaps(numbers@, 0) == missing@.map_values(|r: (u32, u32)| (r.0 as nat, r.1 as nat))
                + gaps(numbers@.skip(i as int), previous as nat),
        decreases numbers@.len() - i,
    {
        let number = numbers[i];
        let ghost rest = numbers@.skip(i as int);
        let ghost before = missing@;
        proof {
            assert(rest[0] == number);
            assert(rest.drop_first() == numbers@.skip(i + 1));
        }
        if number > previous && number - previous > 1 {
            missing.push((previous + 1, number - 1));
            proof {
                assert(missing@.map_values(|r: (u32, u32)| (r.0 as nat, r.1 as nat)) =~= before.map_values(
                    |r: (u32, u32)| (r.0 as nat, r.1 as nat),
                ) + seq![(previous as nat + 1, (number - 1) as nat)]);
            }
        } else {
            proof {
                assert(seq![] + gaps(rest.drop_first(), number as nat) == gaps(rest.drop_first(), number as nat));
            }
        }
        previous = number;
        i = i + 1;
    }
    proof {
        assert(numbers@.skip(i as int) =~= Seq::<u32>::empty());
        assert(missing@.map_values(|r: (u32, u32)| (r.0 as nat, r.1 as nat)) + Seq::<(nat, nat)>::empty()
            =~= missing@.map_values(|r: (u32, u32)| (r.0 as nat, r.1 as nat)));
    }
    missing
}

/// `PREFIX-NNN`, or `PREFIX-NNN..PREFIX-MMM` for a longer run.
pub open spec fn range_text(prefix: Seq<char>, start: nat, end: nat) -> Seq<char> {
    if start == end {
        id_text(prefix, start)
    } else {
        id_text(prefix, start) + ".."@ + id_text(prefix, end)
    }
}

/// `PREFIX-NNN`, or `PREFIX-NNN..PREFIX-MMM` for a longer run.
pub fn format_range(prefix: &str, start: u32, end: u32) -> (out: String)
    ensures
        out@ == range_text(prefix@, start as nat, end as nat),
{
    let p = to_chars(prefix);
    let mut out = id_for(p.as_slice(), start as u64);
    if start != end {
        extend_str(&mut out, "..");
        let last = id_for(p.as_slice(), end as u64);
        extend(&mut out, last.as_slice());
    }
    from_chars(out.as_slice())
}

/// What `check` says about the corpus as a whole.
pub open spec fn corpus_errors(cs: Seq<(Seq<char>, Status)>, prefix: Seq<char>, dups: Seq<Seq<char>>, nums: Seq<u32>) -> Seq<Seq<char>> {
    let missing = gaps(nums, 0);
    dups.map_values(|id: Seq<char>| duplicate_message(cs, id)) + number_errors(cs, prefix) + if missing.len() == 0 {
        Seq::<Seq<char>>::empty()
    } else {
        seq![
            "missing task ids: "@ + join(
                missing.map_values(|r: (nat, nat)| range_text(prefix, r.0, r.1)),
                ", "@,
            ),
        ]
    }
}

/// Every corpus complaint: ids claimed twice, numbers written wrong, and gaps.
pub fn errors(l: &Ledger) -> (out: Vec<Vec<char>>)
    ensures
        exists|dups: Seq<Seq<char>>, nums: Seq<u32>|
            #![trigger corpus_errors(claims(*l), l.prefix@, dups, nums)]
            duplicated_ids(claims(*l), dups) && corpus_numbers(claims(*l), l.prefix@, nums)
                && texts(out@) == corpus_errors(
                claims(*l),
                l.prefix@,
                dups,
                nums,
            ),
{
    let cs = claims_of(l);
    let prefix = to_chars(l.prefix.as_str());
    let ghost views = claim_views(cs@);
    let mut out = duplicate_errors(&cs);
    let ghost dups = choose|ids: Seq<Seq<char>>|
        duplicated_ids(views, ids) && texts(out@) == ids.map_values(
            |id: Seq<char>| duplicate_message(views, id),
        );
    let (numbered, numbers) = own_numbers(&cs, prefix.as_slice());
    let ghost first = out@;
    let mut k: usize = 0;
    while k < numbered.len()
        invariant
            k <= numbered@.len(),
            texts(out@) == texts(first)
                + numbered@.take(k as int).map_values(|v: Vec<char>| v@),
        decreases numbered@.len() - k,
    {
        let ghost before = out@;
        out.push(numbered[k].clone());
        proof {
            assert(numbered@.take(k + 1).map_values(|v: Vec<char>| v@) =~= numbered@.take(
                k as int,
            ).map_values(|v: Vec<char>| v@).push(numbered@[k as int]@));
            assert(texts(out@) =~= texts(before).push(
                numbered@[k as int]@,
            ));
        }
        k = k + 1;
    }
    assert(numbered@.take(numbered@.len() as int) == numbered@);
    let missing = missing_ranges(numbers.as_slice());
    let ghost mv = missing@.map_values(|r: (u32, u32)| (r.0 as nat, r.1 as nat));
    if missing.len() > 0 {
        let mut parts: Vec<Vec<char>> = Vec::new();
        let mut k: usize = 0;
        while k < missing.len()
            invariant
                k <= missing@.len(),
                mv == missing@.map_values(|r: (u32, u32)| (r.0 as nat, r.1 as nat)),
                prefix@ == l.prefix@,
                texts(parts@) == mv.take(k as int).map_values(
                    |r: (nat, nat)| range_text(l.prefix@, r.0, r.1),
                ),
            decreases missing@.len() - k,
        {
            let ghost before = parts@;
            let (start, end) = missing[k];
            let text = format_range(l.prefix.as_str(), start, end);
            parts.push(to_chars(text.as_str()));
            proof {
                assert(texts(parts@) =~= texts(before).push(
                    text@,
                ));
                assert(mv.take(k + 1).map_values(|r: (nat, nat)| range_text(l.prefix@, r.0, r.1))
                    =~= mv.take(k as int).map_values(
                    |r: (nat, nat)| range_text(l.prefix@, r.0, r.1),
                ).push(range_text(l.prefix@, mv[k as int].0, mv[k as int].1)));
            }
            k = k + 1;
        }
        assert(mv.take(missing@.len() as int) == mv);
        let sep = to_chars(", ");
        let joined = join_chars(&parts, sep.as_slice());
        let mut line: Vec<char> = Vec::new();
        extend_str(&mut line, "missing task ids: ");
        extend(&mut line, joined.as_slice());
        let ghost before = out@;
        out.push(line);
        proof {
            assert(texts(out@) =~= texts(before).push(
                line@,
            ));
        }
    }
    proof {
        assert(texts(out@) =~= corpus_errors(views, l.prefix@, dups, numbers@));
    }
    out
}

} // verus!
