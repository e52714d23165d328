//! Blockers must sit earlier in the queue than the row that names them.

use crate::chars::{extend, extend_str, same, texts, to_chars, views};
use vstd::prelude::*;

verus! {

/// A queued row as the order rule sees it: its id and what blocks it.
pub struct Row {
    pub id: String,
    pub blockers: Vec<String>,
}

/// Where an id sits among these, as a map built from them in order records it:
/// the last row that carries it.
pub open spec fn last_position(ids: Seq<Seq<char>>, x: Seq<char>) -> Option<int>
    decreases ids.len(),
{
    if ids.len() == 0 {
        None
    } else if ids.last() == x {
        Some(ids.len() - 1)
    } else {
        last_position(ids.drop_last(), x)
    }
}

pub proof fn lemma_last_position(ids: Seq<Seq<char>>, x: Seq<char>)
    ensures
        match last_position(ids, x) {
            Some(at) => 0 <= at < ids.len() && ids[at] == x && forall|k: int|
                at < k < ids.len() ==> ids[k] != x,
            None => forall|k: int| 0 <= k < ids.len() ==> ids[k] != x,
        },
    decreases ids.len(),
{
    if ids.len() > 0 && ids.last() != x {
        lemma_last_position(ids.drop_last(), x);
        match last_position(ids.drop_last(), x) {
            Some(at) => {
                assert forall|k: int| at < k < ids.len() implies ids[k] != x by {
                    if k < ids.len() - 1 {
                        assert(ids[k] == ids.drop_last()[k]);
                    }
                }
            },
            None => {
                assert forall|k: int| 0 <= k < ids.len() implies ids[k] != x by {
                    if k < ids.len() - 1 {
                        assert(ids[k] == ids.drop_last()[k]);
                    }
                }
            },
        }
    }
}

/// What is wrong with one blocker of the row at `index`, if anything.
pub open spec fn blocker_problem(ids: Seq<Seq<char>>, index: int, blocker: Seq<char>) -> Option<Seq<char>> {
    match last_position(ids, blocker) {
        Some(at) => if at < index {
            None
        } else {
            Some(ids[index] + " <- "@ + blocker + " is not earlier"@)
        },
        None => Some(ids[index] + " <- "@ + blocker + " is not queued"@),
    }
}

/// The problems with the first `m` blockers of the row at `index`.
pub open spec fn row_problems(ids: Seq<Seq<char>>, index: int, blockers: Seq<Seq<char>>, m: int) -> Seq<Seq<char>>
    decreases m,
{
    if m <= 0 {
        Seq::empty()
    } else {
        let rest = row_problems(ids, index, blockers, m - 1);
        match blocker_problem(ids, index, blockers[m - 1]) {
            Some(p) => rest.push(p),
            None => rest,
        }
    }
}

/// The problems with the blockers of the first `n` rows, in order.
pub open spec fn order_problems(ids: Seq<Seq<char>>, blockers: Seq<Seq<Seq<char>>>, n: int) -> Seq<Seq<char>>
    decreases n,
{
    if n <= 0 {
        Seq::empty()
    } else {
        order_problems(ids, blockers, n - 1) + row_problems(
            ids,
            n - 1,
            blockers[n - 1],
            blockers[n - 1].len() as int,
        )
    }
}

/// Where an id sits among these: the last row that carries it.
fn position_of_id(ids: &Vec<Vec<char>>, x: &[char]) -> (res: Option<usize>)
    ensures
        match res {
            Some(at) => last_position(texts(ids@), x@) == Some(at as int),
            None => last_position(texts(ids@), x@) is None,
        },
{
    let ghost vs = texts(ids@);
    let mut k: usize = ids.len();
    assert(vs.take(ids@.len() as int) =~= vs);
    while k > 0
        invariant
            k <= ids@.len(),
            vs == texts(ids@),
            last_position(vs, x@) == last_position(vs.take(k as int), x@),
        decreases k,
    {
        proof {
            assert(vs.take(k as int).last() == ids@[k - 1]@);
            assert(vs.take(k as int).drop_last() == vs.take(k - 1));
        }
        if same(ids[k - 1].as_slice(), x) {
            return Some(k - 1);
        }
        k = k - 1;
    }
    None
}

/// Every blocker problem among these rows, in row order.
pub fn blocker_problems(ids: &Vec<Vec<char>>, blockers: &Vec<Vec<Vec<char>>>) -> (out: Vec<Vec<char>>)
    requires
        ids@.len() == blockers@.len(),
    ensures
        texts(out@) == order_problems(
            texts(ids@),
            blockers@.map_values(|b: Vec<Vec<char>>| texts(b@)),
            ids@.len() as int,
        ),
{
    let ghost vs = texts(ids@);
    let ghost bs = blockers@.map_values(|b: Vec<Vec<char>>| texts(b@));
    let mut out: Vec<Vec<char>> = Vec::new();
    let mut index: usize = 0;
    while index < ids.len()
        invariant
            index <= ids@.len(),
            ids@.len() == blockers@.len(),
            vs == texts(ids@),
            bs == blockers@.map_values(|b: Vec<Vec<char>>| texts(b@)),
            texts(out@) == order_problems(vs, bs, index as int),
        decreases ids@.len() - index,
    {
        let row = &blockers[index];
        let ghost start = texts(out@);
        proof {
            assert(bs[index as int] == texts(row@));
        }
        let mut m: usize = 0;
        while m < row.len()
            invariant
                m <= row@.len(),
                index < ids@.len(),
                vs == texts(ids@),
                bs[index as int] == texts(row@),
                texts(out@) == start + row_problems(vs, index as int, bs[index as int], m as int),
            decreases row@.len() - m,
        {
            let blocker = &row[m];
            let at = position_of_id(ids, blocker.as_slice());
            proof {
                assert(bs[index as int][m as int] == blocker@);
                assert(vs[index as int] == ids@[index as int]@);
            }
            let ghost before = texts(out@);
            let problem = match at {
                Some(at) => {
                    if at < index {
                        None
                    } else {
                        let mut p: Vec<char> = Vec::new();
                        extend(&mut p, ids[index].as_slice());
                        extend_str(&mut p, " <- ");
                        extend(&mut p, blocker.as_slice());
                        extend_str(&mut p, " is not earlier");
                        Some(p)
                    }
                },
                None => {
                    let mut p: Vec<char> = Vec::new();
                    extend(&mut p, ids[index].as_slice());
                    extend_str(&mut p, " <- ");
                    extend(&mut p, blocker.as_slice());
                    extend_str(&mut p, " is not queued");
                    Some(p)
                },
            };
            match problem {
                Some(p) => {
                    out.push(p);
                    proof {
                        assert(texts(out@) =~= before.push(p@));
                    }
                },
                None => {},
            }
            m = m + 1;
        }
        index = index + 1;
    }
    out
}

/// The text of each row's id, and the text of each row's blockers.
fn row_texts(rows: &Vec<Row>) -> (res: (Vec<Vec<char>>, Vec<Vec<Vec<char>>>))
    ensures
        texts(res.0@) == rows@.map_values(|r: Row| r.id@),
        res.1@.map_values(|b: Vec<Vec<char>>| texts(b@)) == rows@.map_values(
            |r: Row| views(r.blockers@),
        ),
        res.0@.len() == res.1@.len(),
{
    let mut ids: Vec<Vec<char>> = Vec::new();
    let mut bls: Vec<Vec<Vec<char>>> = Vec::new();
    let mut i: usize = 0;
    while i < rows.len()
        invariant
            i <= rows@.len(),
            ids@.len() == i,
            bls@.len() == i,
            texts(ids@) == rows@.take(i as int).map_values(|r: Row| r.id@),
            bls@.map_values(|b: Vec<Vec<char>>| texts(b@)) == rows@.take(i as int).map_values(
                |r: Row| views(r.blockers@),
            ),
        decreases rows@.len() - i,
    {
        let ghost bi = texts(ids@);
        let ghost bb = bls@.map_values(|b: Vec<Vec<char>>| texts(b@));
        ids.push(to_chars(rows[i].id.as_str()));
        let mut b: Vec<Vec<char>> = Vec::new();
        let mut k: usize = 0;
        while k < rows[i].blockers.len()
            invariant
                k <= rows@[i as int].blockers@.len(),
                i < rows@.len(),
                texts(b@) == views(rows@[i as int].blockers@).take(k as int),
            decreases rows@[i as int].blockers@.len() - k,
        {
            let ghost before = texts(b@);
            b.push(to_chars(rows[i].blockers[k].as_str()));
            proof {
                assert(texts(b@) =~= before.push(rows@[i as int].blockers@[k as int]@));
                assert(views(rows@[i as int].blockers@).take(k + 1) =~= views(
                    rows@[i as int].blockers@,
                ).take(k as int).push(rows@[i as int].blockers@[k as int]@));
            }
            k = k + 1;
        }
        proof {
            assert(views(rows@[i as int].blockers@).take(rows@[i as int].blockers@.len() as int)
                =~= views(rows@[i as int].blockers@));
        }
        let ghost bv = texts(b@);
        bls.push(b);
        proof {
            assert(texts(ids@) =~= bi.push(rows@[i as int].id@));
            assert(rows@.take(i + 1).map_values(|r: Row| r.id@) =~= rows@.take(i as int).map_values(
                |r: Row| r.id@,
            ).push(rows@[i as int].id@));
            assert(bls@.map_values(|b: Vec<Vec<char>>| texts(b@)) =~= bb.push(bv));
            assert(rows@.take(i + 1).map_values(|r: Row| views(r.blockers@)) =~= rows@.take(
                i as int,
            ).map_values(|r: Row| views(r.blockers@)).push(views(rows@[i as int].blockers@)));
        }
        i = i + 1;
    }
    proof {
        assert(rows@.take(rows@.len() as int) == rows@);
    }
    (ids, bls)
}

/// Require every blocker to be queued before the row that names it: the first
/// problem, in row order, is the error.
pub fn validate(rows: &Vec<Row>) -> (res: Result<(), String>)
    ensures
        ({
            let problems = order_problems(
                rows@.map_values(|r: Row| r.id@),
                rows@.map_values(|r: Row| views(r.blockers@)),
                rows@.len() as int,
            );
            match res {
                Ok(()) => problems.len() == 0,
                Err(m) => problems.len() > 0 && m@ == problems[0],
            }
        }),
{
    let (ids, bls) = row_texts(rows);
    let problems = blocker_problems(&ids, &bls);
    if problems.len() == 0 {
        Ok(())
    } else {
        proof {
            assert(texts(problems@)[0] == problems@[0]@);
        }
        Err(crate::chars::from_chars(problems[0].as_slice()))
    }
}

} // verus!
