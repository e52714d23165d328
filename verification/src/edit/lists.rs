//! List fields edited item by item: removals by index or exact text, a note
//! permutation, then additions that must be new and non-empty.

use crate::chars::{
    decimal, decimal_of, extend, extend_str, from_chars, parse_nat, parse_number, same, split,
    split_at_char, texts, to_chars, trim, trimmed, views,
};
use crate::cli::{EditArgs, RemoveField};
use vstd::prelude::*;

verus! {

/// The first position of `x` in the list, if any.
pub open spec fn first_index(list: Seq<Seq<char>>, x: Seq<char>) -> Option<int>
    decreases list.len(),
{
    if list.len() == 0 {
        None
    } else if list[0] == x {
        Some(0)
    } else {
        match first_index(list.drop_first(), x) {
            Some(i) => Some(i + 1),
            None => None,
        }
    }
}

pub proof fn lemma_first_index(list: Seq<Seq<char>>, x: Seq<char>)
    ensures
        match first_index(list, x) {
            Some(i) => 0 <= i < list.len() && list[i] == x && forall|k: int|
                0 <= k < i ==> list[k] != x,
            None => !list.contains(x),
        },
    decreases list.len(),
{
    if list.len() > 0 && list[0] != x {
        lemma_first_index(list.drop_first(), x);
        match first_index(list.drop_first(), x) {
            Some(i) => {
                assert forall|k: int| 0 <= k < i + 1 implies list[k] != x by {
                    if k > 0 {
                        assert(list[k] == list.drop_first()[k - 1]);
                    }
                }
            },
            None => {
                if list.contains(x) {
                    let k = choose|k: int| 0 <= k < list.len() && list[k] == x;
                    assert(list.drop_first()[k - 1] == x);
                }
            },
        }
    }
}

/// One `--remove` applied to a list: a 1-based index when the selector reads
/// as one in range, else the first item equal to it.
pub open spec fn removed(list: Seq<Seq<char>>, selector: Seq<char>) -> Result<Seq<Seq<char>>, Seq<char>> {
    match parse_nat(selector, usize::MAX as nat) {
        Some(i) if 1 <= i <= list.len() => Ok(list.remove(i - 1)),
        _ => match first_index(list, selector) {
            Some(k) => Ok(list.remove(k)),
            None => Err(selector + " is not in the list"@),
        },
    }
}

/// Every removal, in order; the first that fails is the error.
pub open spec fn removed_all(list: Seq<Seq<char>>, selectors: Seq<Seq<char>>) -> Result<Seq<Seq<char>>, Seq<char>>
    decreases selectors.len(),
{
    if selectors.len() == 0 {
        Ok(list)
    } else {
        match removed_all(list, selectors.drop_last()) {
            Ok(l) => removed(l, selectors.last()),
            Err(e) => Err(e),
        }
    }
}

pub open spec fn PERMUTATION_RULE() -> Seq<char> {
    "--reorder-notes needs a permutation such as 3,1,2"@
}

/// The permutation's numbers, if every comma-separated part reads as one.
pub open spec fn parsed_indexes(parts: Seq<Seq<char>>) -> Option<Seq<nat>>
    decreases parts.len(),
{
    if parts.len() == 0 {
        Some(Seq::empty())
    } else {
        match parsed_indexes(parts.drop_last()) {
            Some(ns) => match parse_nat(trim(parts.last()), usize::MAX as nat) {
                Some(n) => Some(ns.push(n)),
                None => None,
            },
            None => None,
        }
    }
}

/// The first `k` indexes applied: each in range and new, else the complaint.
pub open spec fn permuted_prefix(list: Seq<Seq<char>>, ns: Seq<nat>, k: int) -> Result<Seq<Seq<char>>, Seq<char>>
    decreases k,
{
    if k <= 0 {
        Ok(Seq::empty())
    } else {
        match permuted_prefix(list, ns, k - 1) {
            Err(e) => Err(e),
            Ok(acc) => {
                let i = ns[k - 1];
                if !(1 <= i <= list.len()) {
                    Err("--reorder-notes index "@ + decimal(i) + " is out of range"@)
                } else if ns.take(k - 1).contains(i) {
                    Err("--reorder-notes repeats "@ + decimal(i))
                } else {
                    Ok(acc.push(list[i - 1]))
                }
            },
        }
    }
}

/// `--reorder-notes`: the list rearranged by a permutation of 1-based indexes.
pub open spec fn permuted(list: Seq<Seq<char>>, order: Seq<char>) -> Result<Seq<Seq<char>>, Seq<char>> {
    match parsed_indexes(split(order, ',')) {
        None => Err(PERMUTATION_RULE()),
        Some(ns) => if ns.len() != list.len() {
            Err("--reorder-notes must name every note once"@)
        } else {
            permuted_prefix(list, ns, ns.len() as int)
        },
    }
}

/// Every addition, in order: non-empty and not already present.
pub open spec fn added(list: Seq<Seq<char>>, items: Seq<Seq<char>>) -> Result<Seq<Seq<char>>, Seq<char>>
    decreases items.len(),
{
    if items.len() == 0 {
        Ok(list)
    } else {
        match added(list, items.drop_last()) {
            Err(e) => Err(e),
            Ok(l) => {
                let item = items.last();
                if item.len() == 0 {
                    Err("list item is empty"@)
                } else if l.contains(item) {
                    Err("duplicate "@ + item)
                } else {
                    Ok(l.push(item))
                }
            },
        }
    }
}

/// A list field after an edit: removals, then the reorder, then additions.
pub open spec fn applied(
    current: Seq<Seq<char>>,
    additions: Seq<Seq<char>>,
    removals: Seq<Seq<char>>,
    reorder: Option<Seq<char>>,
) -> Result<Seq<Seq<char>>, Seq<char>> {
    match removed_all(current, removals) {
        Err(e) => Err(e),
        Ok(l) => {
            let r = match reorder {
                Some(order) => permuted(l, order),
                None => Ok(l),
            };
            match r {
                Err(e) => Err(e),
                Ok(l2) => added(l2, additions),
            }
        },
    }
}

/// Copy a list of strings.
pub fn copy_strings(v: &Vec<String>) -> (out: Vec<String>)
    ensures
        out@ == v@,
{
    let mut out: Vec<String> = Vec::new();
    let mut i: usize = 0;
    while i < v.len()
        invariant
            i <= v@.len(),
            out@ == v@.take(i as int),
        decreases v@.len() - i,
    {
        out.push(v[i].clone());
        proof {
            assert(v@.take(i + 1) =~= v@.take(i as int).push(v@[i as int]));
        }
        i = i + 1;
    }
    assert(v@.take(v@.len() as int) == v@);
    out
}

/// Where `x` first sits in the list.
fn index_of(list: &Vec<String>, x: &[char]) -> (res: Option<usize>)
    ensures
        match res {
            Some(i) => first_index(views(list@), x@) == Some(i as int),
            None => first_index(views(list@), x@) is None,
        },
{
    let mut i: usize = 0;
    while i < list.len()
        invariant
            i <= list@.len(),
            forall|k: int| 0 <= k < i ==> views(list@)[k] != x@,
        decreases list@.len() - i,
    {
        let c = to_chars(list[i].as_str());
        if same(c.as_slice(), x) {
            proof {
                lemma_first_index(views(list@), x@);
                match first_index(views(list@), x@) {
                    Some(j) => {
                        if j < i {
                        } else if j > i {
                            assert(views(list@)[i as int] == x@);
                        }
                    },
                    None => {
                        assert(views(list@)[i as int] == x@);
                        assert(views(list@).contains(x@));
                    },
                }
            }
            return Some(i);
        }
        i = i + 1;
    }
    proof {
        lemma_first_index(views(list@), x@);
        match first_index(views(list@), x@) {
            Some(j) => {
                assert(views(list@)[j] != x@);
            },
            None => {},
        }
    }
    None
}

/// One `--remove` applied to a list.
pub fn remove(list: &mut Vec<String>, selector: &str) -> (res: Result<(), String>)
    ensures
        match res {
            Ok(()) => removed(views(old(list)@), selector@) == Ok::<Seq<Seq<char>>, Seq<char>>(
                views(final(list)@),
            ),
            Err(m) => removed(views(old(list)@), selector@) == Err::<Seq<Seq<char>>, Seq<char>>(m@),
        },
{
    let sel = to_chars(selector);
    let ghost before = list@;
    match parse_number(sel.as_slice(), usize::MAX as u64) {
        Some(index) => {
            if index >= 1 && index <= list.len() as u64 {
                list.remove((index - 1) as usize);
                proof {
                    assert(views(list@) =~= views(before).remove(index - 1));
                }
                return Ok(());
            }
        },
        None => {},
    }
    let found = index_of(list, sel.as_slice());
    proof {
        lemma_first_index(views(list@), sel@);
    }
    match found {
        Some(k) => {
            list.remove(k);
            proof {
                assert(views(list@) =~= views(before).remove(k as int));
            }
            Ok(())
        },
        None => {
            let mut m: Vec<char> = Vec::new();
            extend(&mut m, sel.as_slice());
            extend_str(&mut m, " is not in the list");
            Err(from_chars(m.as_slice()))
        },
    }
}

/// `--reorder-notes`: the list rearranged by a permutation.
pub fn permute(list: &Vec<String>, order: &str) -> (res: Result<Vec<String>, String>)
    ensures
        match res {
            Ok(l) => permuted(views(list@), order@) == Ok::<Seq<Seq<char>>, Seq<char>>(views(l@)),
            Err(m) => permuted(views(list@), order@) == Err::<Seq<Seq<char>>, Seq<char>>(m@),
        },
{
    let text = to_chars(order);
    let parts = split_at_char(text.as_slice(), ',');
    let ghost ps = texts(parts@);
    let mut indexes: Vec<u64> = Vec::new();
    let mut k: usize = 0;
    while k < parts.len()
        invariant
            k <= parts@.len(),
            ps == texts(parts@),
            ps == split(order@, ','),
            parsed_indexes(ps.take(k as int)) == Some(indexes@.map_values(|n: u64| n as nat)),
        decreases parts@.len() - k,
    {
        proof {
            assert(ps.take(k + 1).drop_last() == ps.take(k as int));
            assert(ps.take(k + 1).last() == parts@[k as int]@);
        }
        let part = trimmed(parts[k].as_slice());
        match parse_number(part.as_slice(), usize::MAX as u64) {
            Some(n) => {
                let ghost before = indexes@;
                indexes.push(n);
                proof {
                    assert(indexes@.map_values(|n: u64| n as nat) =~= before.map_values(
                        |n: u64| n as nat,
                    ).push(n as nat));
                }
            },
            None => {
                proof {
                    // A part that does not read stops every longer prefix too.
                    assert(parsed_indexes(ps.take(k + 1)) is None);
                    lemma_parsed_indexes_none(ps, k as int + 1);
                    assert(ps.take(ps.len() as int) == ps);
                }
                return Err(String::from_str("--reorder-notes needs a permutation such as 3,1,2"));
            },
        }
        k = k + 1;
    }
    assert(ps.take(parts@.len() as int) == ps);
    assert(ps == split(order@, ','));
    let ghost ns = indexes@.map_values(|n: u64| n as nat);
    if indexes.len() != list.len() {
        return Err(String::from_str("--reorder-notes must name every note once"));
    }
    let mut seen: Vec<u64> = Vec::new();
    let mut reordered: Vec<String> = Vec::new();
    let mut k: usize = 0;
    assert(views(reordered@) =~= Seq::<Seq<char>>::empty());
    assert(seen@ =~= indexes@.take(0));
    while k < indexes.len()
        invariant
            k <= indexes@.len(),
            ns == indexes@.map_values(|n: u64| n as nat),
            seen@ == indexes@.take(k as int),
            indexes@.len() == list@.len(),
            parsed_indexes(split(order@, ',')) == Some(ns),
            permuted_prefix(views(list@), ns, k as int) == Ok::<Seq<Seq<char>>, Seq<char>>(
                views(reordered@),
            ),
        decreases indexes@.len() - k,
    {
        let index = indexes[k];
        proof {
            assert(ns[k as int] == index as nat);
        }
        if !(index >= 1 && index <= list.len() as u64) {
            let mut m = to_chars("--reorder-notes index ");
            let d = decimal_of(index);
            extend(&mut m, d.as_slice());
            extend_str(&mut m, " is out of range");
            proof {
                assert(permuted_prefix(views(list@), ns, k as int + 1) is Err);
                lemma_permuted_prefix_err(views(list@), ns, k as int + 1);
            }
            return Err(from_chars(m.as_slice()));
        }
        let mut j: usize = 0;
        let mut repeated = false;
        while j < seen.len()
            invariant
                j <= seen@.len(),
                repeated == seen@.take(j as int).contains(index),
            decreases seen@.len() - j,
        {
            proof {
                let t = seen@.take(j + 1);
                assert(t =~= seen@.take(j as int).push(seen@[j as int]));
                assert forall|x: u64| t.contains(x) <==> (seen@.take(j as int).contains(x) || x == seen@[j as int]) by {
                    if t.contains(x) {
                        let m = choose|m: int| 0 <= m < t.len() && t[m] == x;
                        if m < j {
                            assert(seen@.take(j as int)[m] == x);
                        }
                    }
                    if seen@.take(j as int).contains(x) {
                        let m = choose|m: int| 0 <= m < j && seen@.take(j as int)[m] == x;
                        assert(t[m] == x);
                    }
                    if x == seen@[j as int] {
                        assert(t[j as int] == x);
                    }
                }
            }
            if seen[j] == index {
                repeated = true;
            }
            j = j + 1;
        }
        proof {
            assert(seen@.take(seen@.len() as int) == seen@);
            assert(ns.take(k as int) =~= seen@.map_values(|n: u64| n as nat));
            assert(ns.take(k as int).contains(index as nat) <==> seen@.contains(index)) by {
                if seen@.contains(index) {
                    let m = choose|m: int| 0 <= m < seen@.len() && seen@[m] == index;
                    assert(ns.take(k as int)[m] == index as nat);
                }
                if ns.take(k as int).contains(index as nat) {
                    let m = choose|m: int| 0 <= m < k && ns.take(k as int)[m] == index as nat;
                    assert(seen@[m] == index);
                }
            }
        }
        if repeated {
            let mut m = to_chars("--reorder-notes repeats ");
            let d = decimal_of(index);
            extend(&mut m, d.as_slice());
            proof {
                assert(permuted_prefix(views(list@), ns, k as int + 1) is Err);
                lemma_permuted_prefix_err(views(list@), ns, k as int + 1);
            }
            return Err(from_chars(m.as_slice()));
        }
        let ghost before = reordered@;
        reordered.push(list[(index - 1) as usize].clone());
        seen.push(index);
        proof {
            assert(views(reordered@) =~= views(before).push(list@[index - 1]@));
            assert(indexes@.take(k + 1) =~= indexes@.take(k as int).push(index));
        }
        k = k + 1;
    }
    Ok(reordered)
}

pub proof fn lemma_parsed_indexes_none(ps: Seq<Seq<char>>, k: int)
    requires
        0 <= k <= ps.len(),
        parsed_indexes(ps.take(k)) is None,
    ensures
        parsed_indexes(ps) is None,
    decreases ps.len() - k,
{
    if k < ps.len() {
        assert(ps.take(k + 1).drop_last() == ps.take(k));
        lemma_parsed_indexes_none(ps, k + 1);
    } else {
        assert(ps.take(k) == ps);
    }
}

pub proof fn lemma_permuted_prefix_err(list: Seq<Seq<char>>, ns: Seq<nat>, k: int)
    requires
        0 <= k <= ns.len(),
        permuted_prefix(list, ns, k) is Err,
    ensures
        permuted_prefix(list, ns, ns.len() as int) == permuted_prefix(list, ns, k),
    decreases ns.len() - k,
{
    if k < ns.len() {
        lemma_permuted_prefix_err(list, ns, k + 1);
    }
}

/// A list field after an edit: removals, then the reorder, then additions.
pub fn apply(
    current: &Vec<String>,
    additions: &Vec<String>,
    removals: &Vec<String>,
    reorder: Option<&str>,
) -> (res: Result<Vec<String>, String>)
    ensures
        match res {
            Ok(l) => applied(
                views(current@),
                views(additions@),
                views(removals@),
                match reorder {
                    Some(o) => Some(o@),
                    None => None,
                },
            ) == Ok::<Seq<Seq<char>>, Seq<char>>(views(l@)),
            Err(m) => applied(
                views(current@),
                views(additions@),
                views(removals@),
                match reorder {
                    Some(o) => Some(o@),
                    None => None,
                },
            ) == Err::<Seq<Seq<char>>, Seq<char>>(m@),
        },
{
    let mut list = copy_strings(current);
    let mut k: usize = 0;
    while k < removals.len()
        invariant
            k <= removals@.len(),
            removed_all(views(current@), views(removals@).take(k as int)) == Ok::<
                Seq<Seq<char>>,
                Seq<char>,
            >(views(list@)),
        decreases removals@.len() - k,
    {
        proof {
            assert(views(removals@).take(k + 1).drop_last() == views(removals@).take(k as int));
            assert(views(removals@).take(k + 1).last() == removals@[k as int]@);
        }
        match remove(&mut list, removals[k].as_str()) {
            Ok(()) => {},
            Err(m) => {
                proof {
                    lemma_removed_all_err(views(current@), views(removals@), k as int + 1);
                }
                return Err(m);
            },
        }
        k = k + 1;
    }
    assert(views(removals@).take(removals@.len() as int) == views(removals@));
    let list = match reorder {
        Some(order) => match permute(&list, order) {
            Ok(l) => l,
            Err(m) => {
                return Err(m);
            },
        },
        None => list,
    };
    let mut list = list;
    let ghost base = views(list@);
    let ghost reo = match reorder {
        Some(o) => Some(o@),
        None => None,
    };
    assert(applied(views(current@), views(additions@), views(removals@), reo) == added(
        base,
        views(additions@),
    ));
    assert(views(additions@).take(0) =~= Seq::<Seq<char>>::empty());
    let mut k: usize = 0;
    while k < additions.len()
        invariant
            k <= additions@.len(),
            applied(views(current@), views(additions@), views(removals@), reo) == added(
                base,
                views(additions@),
            ),
            reo == match reorder {
                Some(o) => Some(o@),
                None => None::<Seq<char>>,
            },
            added(base, views(additions@).take(k as int)) == Ok::<Seq<Seq<char>>, Seq<char>>(
                views(list@),
            ),
        decreases additions@.len() - k,
    {
        proof {
            assert(views(additions@).take(k + 1).drop_last() == views(additions@).take(k as int));
            assert(views(additions@).take(k + 1).last() == additions@[k as int]@);
        }
        let item = &additions[k];
        if item.as_str().is_empty() {
            proof {
                assert(added(base, views(additions@).take(k + 1)) is Err);
                lemma_added_err(base, views(additions@), k as int + 1);
            }
            return Err(String::from_str("list item is empty"));
        }
        let c = to_chars(item.as_str());
        match index_of(&list, c.as_slice()) {
            Some(_) => {
                proof {
                    lemma_first_index(views(list@), item@);
                    assert(views(list@).contains(item@));
                    assert(added(base, views(additions@).take(k + 1)) is Err);
                    lemma_added_err(base, views(additions@), k as int + 1);
                }
                let mut m = to_chars("duplicate ");
                extend(&mut m, c.as_slice());
                return Err(from_chars(m.as_slice()));
            },
            None => {
                proof {
                    lemma_first_index(views(list@), item@);
                }
            },
        }
        let ghost before = list@;
        list.push(item.clone());
        proof {
            assert(views(list@) =~= views(before).push(item@));
        }
        k = k + 1;
    }
    assert(views(additions@).take(additions@.len() as int) == views(additions@));
    Ok(list)
}

pub proof fn lemma_removed_all_err(list: Seq<Seq<char>>, sels: Seq<Seq<char>>, k: int)
    requires
        0 <= k <= sels.len(),
        removed_all(list, sels.take(k)) is Err,
    ensures
        removed_all(list, sels) == removed_all(list, sels.take(k)),
    decreases sels.len() - k,
{
    if k < sels.len() {
        assert(sels.take(k + 1).drop_last() == sels.take(k));
        lemma_removed_all_err(list, sels, k + 1);
    } else {
        assert(sels.take(k) == sels);
    }
}

pub proof fn lemma_added_err(list: Seq<Seq<char>>, items: Seq<Seq<char>>, k: int)
    requires
        0 <= k <= items.len(),
        added(list, items.take(k)) is Err,
    ensures
        added(list, items) == added(list, items.take(k)),
    decreases items.len() - k,
{
    if k < items.len() {
        assert(items.take(k + 1).drop_last() == items.take(k));
        lemma_added_err(list, items, k + 1);
    } else {
        assert(items.take(k) == items);
    }
}

/// The `--remove` selectors an edit names, grouped by the list they apply to.
pub struct Removals {
    pub note: Vec<String>,
    pub acceptance: Vec<String>,
    pub link: Vec<String>,
    pub blocked_by: Vec<String>,
    pub evidence: Vec<String>,
}

/// The selectors of the removals that name this list, in order.
pub open spec fn selectors_for(specs: Seq<crate::cli::RemoveSpec>, field: RemoveField) -> Seq<Seq<char>>
    decreases specs.len(),
{
    if specs.len() == 0 {
        Seq::empty()
    } else {
        let rest = selectors_for(specs.drop_last(), field);
        if specs.last().field == field {
            rest.push(specs.last().selector@)
        } else {
            rest
        }
    }
}

impl Removals {
    /// The selectors for one list.
    pub open spec fn of(&self, field: RemoveField) -> Seq<Seq<char>> {
        match field {
            RemoveField::Note => views(self.note@),
            RemoveField::Acceptance => views(self.acceptance@),
            RemoveField::Link => views(self.link@),
            RemoveField::BlockedBy => views(self.blocked_by@),
            RemoveField::Evidence => views(self.evidence@),
        }
    }

    /// Group an edit's removals by the list they name.
    pub fn new(args: &EditArgs) -> (grouped: Removals)
        ensures
            forall|f: RemoveField| #[trigger] grouped.of(f) == selectors_for(args.remove@, f),
    {
        let mut grouped = Removals {
            note: Vec::new(),
            acceptance: Vec::new(),
            link: Vec::new(),
            blocked_by: Vec::new(),
            evidence: Vec::new(),
        };
        let mut k: usize = 0;
        while k < args.remove.len()
            invariant
                k <= args.remove@.len(),
                forall|f: RemoveField| #[trigger] grouped.of(f) == selectors_for(args.remove@.take(k as int), f),
            decreases args.remove@.len() - k,
        {
            proof {
                assert(args.remove@.take(k + 1).drop_last() == args.remove@.take(k as int));
                assert(args.remove@.take(k + 1).last() == args.remove@[k as int]);
            }
            let removal = &args.remove[k];
            let ghost before = grouped;
            grouped.for_field_mut(removal.field).push(removal.selector.clone());
            proof {
                assert forall|f: RemoveField| #[trigger] grouped.of(f) == selectors_for(args.remove@.take(k + 1), f) by {
                    if f == removal.field {
                        assert(grouped.of(f) =~= before.of(f).push(removal.selector@));
                    } else {
                        assert(grouped.of(f) == before.of(f));
                    }
                }
            }
            k = k + 1;
        }
        assert(args.remove@.take(args.remove@.len() as int) == args.remove@);
        grouped
    }

    /// The selectors for one list.
    pub fn for_field(&self, field: RemoveField) -> (out: &Vec<String>)
        ensures
            views(out@) == self.of(field),
    {
        match field {
            RemoveField::Note => &self.note,
            RemoveField::Acceptance => &self.acceptance,
            RemoveField::Link => &self.link,
            RemoveField::BlockedBy => &self.blocked_by,
            RemoveField::Evidence => &self.evidence,
        }
    }

    /// The selectors for one list, to add to.
    fn for_field_mut(&mut self, field: RemoveField) -> (out: &mut Vec<String>)
        ensures
            *out == match field {
                RemoveField::Note => old(self).note,
                RemoveField::Acceptance => old(self).acceptance,
                RemoveField::Link => old(self).link,
                RemoveField::BlockedBy => old(self).blocked_by,
                RemoveField::Evidence => old(self).evidence,
            },
            match field {
                RemoveField::Note => *final(self) == Removals { note: *final(out), ..*old(self) },
                RemoveField::Acceptance => *final(self) == Removals { acceptance: *final(out), ..*old(self) },
                RemoveField::Link => *final(self) == Removals { link: *final(out), ..*old(self) },
                RemoveField::BlockedBy => *final(self) == Removals { blocked_by: *final(out), ..*old(self) },
                RemoveField::Evidence => *final(self) == Removals { evidence: *final(out), ..*old(self) },
            },
    {
        match field {
            RemoveField::Note => &mut self.note,
            RemoveField::Acceptance => &mut self.acceptance,
            RemoveField::Link => &mut self.link,
            RemoveField::BlockedBy => &mut self.blocked_by,
            RemoveField::Evidence => &mut self.evidence,
        }
    }
}

} // verus!
