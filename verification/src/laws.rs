//! What holds of the ledger's rules across every input: the promises the
//! verbs and checks make as a whole, each proved over the specifications the
//! functions themselves are verified against.

use crate::chars::{trim, trim_end, trim_start};
use crate::document::text::{dedent, indent_by, lemma_dedent_undoes_indent};
use crate::edit::lists::{first_index, lemma_first_index};
use crate::hooks::{forward_slashes, ledger_rel_spec, relative};
use crate::ledger::corpus::{claims, gaps, highest, id_number, lemma_highest_bounds};
use crate::ledger::next_number;
use crate::ledger::order::{blocker_problem, last_position, lemma_last_position, order_problems, row_problems};
use crate::mutate::{blocker_complaint, closing, insertion, kept_blockers};
use crate::schema::{ArchiveOrder, Ledger};
use crate::trailers::{line_id, lines_ids};
use crate::ledger::{active_errors, graph, instant_errors, newest_first, order_errors, plan_errors, plans, prefix_errors, queue_blockers, stamps};
use crate::ledger::corpus::corpus_errors;
use crate::mutate::queue_ids;
use crate::edit::lists::{removed, removed_all};
use crate::mutate::{list_entry, opt_entry, opt_text, queued_entries};
use crate::cli::{disposition_word, AddArgs, ArchiveArgs};
use crate::mutate::{archive_spec, archiving, unblocked};
use crate::document::{closed_if_empty, moved_between, patch_spec, revised};
use crate::document::yaml::{EditView, ScalarView};
use crate::chars::views;
use crate::chars::{lemma_lex_asymmetric, lemma_lex_irreflexive, lemma_lex_total, lemma_lex_transitive, lex_lt};
use crate::format::{by_newest, insert_newest};
use crate::document::{
    cut_spec, ensured, front_of, moved_to_front, indent_of, key_route, opened, pasted_at, pasted_back, pasted_front, row_count, row_end, row_start,
    rows_follow, section_ids, section_rows, span_of,
};
use crate::document::text::{lemma_attached_start, lemma_blank_run_start, lemma_remarks_end_le, line_holding};
use crate::document::yaml::{exact_chars, lemma_char_index_bound};
use crate::document::notes::{note_item, round_trips};
use crate::document::render::{json_rendering, yaml_rendering, FieldView, YamlView};
use vstd::prelude::*;

verus! {

/// A list of numbers strictly increasing, every one past `prev`.
pub open spec fn increasing_from(nums: Seq<u32>, prev: nat) -> bool {
    &&& forall|i: int, j: int| 0 <= i < j < nums.len() ==> nums[i] < nums[j]
    &&& forall|i: int| 0 <= i < nums.len() ==> prev < #[trigger] nums[i]
}

/// Whether some range covers `n`.
pub open spec fn covered(ranges: Seq<(nat, nat)>, n: nat) -> bool {
    exists|k: int| 0 <= k < ranges.len() && (#[trigger] ranges[k]).0 <= n <= ranges[k].1
}

proof fn lemma_gaps(nums: Seq<u32>, prev: nat)
    requires
        increasing_from(nums, prev),
    ensures
        forall|k: int| 0 <= k < gaps(nums, prev).len() ==> prev < (#[trigger] gaps(nums, prev)[k]).0 <= gaps(nums, prev)[k].1,
        forall|k: int| 0 <= k < gaps(nums, prev).len() ==> nums.len() > 0 && (#[trigger] gaps(nums, prev)[k]).1 < nums.last(),
        forall|n: nat| covered(gaps(nums, prev), n) <==> (nums.len() > 0 && prev < n < nums.last() && !nums.contains(n as u32)),
    decreases nums.len(),
{
    if nums.len() > 0 {
        let first = nums[0] as nat;
        let rest = nums.drop_first();
        assert(increasing_from(rest, first)) by {
            assert forall|i: int| 0 <= i < rest.len() implies first < #[trigger] rest[i] by {
                assert(rest[i] == nums[i + 1]);
            }
            assert forall|i: int, j: int| 0 <= i < j < rest.len() implies rest[i] < rest[j] by {
                assert(rest[i] == nums[i + 1] && rest[j] == nums[j + 1]);
            }
        }
        lemma_gaps(rest, first);
        let head: Seq<(nat, nat)> = if first > prev + 1 {
            seq![(prev + 1, (first - 1) as nat)]
        } else {
            Seq::empty()
        };
        let g = gaps(nums, prev);
        let gr = gaps(rest, first);
        assert(g == head + gr);
        assert forall|k: int| 0 <= k < g.len() implies prev < (#[trigger] g[k]).0 <= g[k].1 by {
            if k >= head.len() {
                assert(g[k] == gr[k - head.len()]);
            }
        }
        assert forall|k: int| 0 <= k < g.len() implies nums.len() > 0 && (#[trigger] g[k]).1 < nums.last() by {
            if k >= head.len() {
                assert(g[k] == gr[k - head.len()]);
                assert(rest.last() == nums.last());
            } else {
                if nums.len() > 1 {
                    assert(nums[0] < nums[nums.len() - 1]);
                }
                if nums.len() == 1 {
                    assert(nums.last() == nums[0]);
                }
            }
        }
        assert forall|n: nat| covered(g, n) <==> (prev < n < nums.last() && !nums.contains(n as u32)) by {
            if covered(g, n) {
                let k = choose|k: int| 0 <= k < g.len() && (#[trigger] g[k]).0 <= n <= g[k].1;
                if k < head.len() {
                    assert(g[k] == head[k]);
                    assert(n < first);
                    if nums.contains(n as u32) {
                        let j = choose|j: int| 0 <= j < nums.len() && nums[j] == n as u32;
                        if j > 0 {
                            assert(nums[0] < nums[j]);
                        }
                    }
                    if nums.len() > 1 {
                        assert(nums[0] < nums[nums.len() - 1]);
                    }
                } else {
                    assert(g[k] == gr[k - head.len()]);
                    assert(covered(gr, n));
                    assert(rest.last() == nums.last());
                    if nums.contains(n as u32) {
                        let j = choose|j: int| 0 <= j < nums.len() && nums[j] == n as u32;
                        if j > 0 {
                            assert(rest.contains(n as u32)) by {
                                assert(rest[j - 1] == nums[j]);
                            }
                        }
                    }
                }
            } else {
                if prev < n < nums.last() && !nums.contains(n as u32) {
                    if n < first {
                        assert(head.len() == 1);
                        assert(g[0] == head[0]);
                    } else {
                        assert(n != first) by {
                            assert(nums[0] == first as u32);
                        }
                        assert(rest.len() > 0 && rest.last() == nums.last());
                        assert(!rest.contains(n as u32)) by {
                            if rest.contains(n as u32) {
                                let j = choose|j: int| 0 <= j < rest.len() && rest[j] == n as u32;
                                assert(nums[j + 1] == n as u32);
                            }
                        }
                        assert(covered(gr, n));
                        let k = choose|k: int| 0 <= k < gr.len() && (#[trigger] gr[k]).0 <= n <= gr[k].1;
                        assert(g[k + head.len()] == gr[k]);
                    }
                }
            }
        }
    }
}

/// The missing ids are exactly the numbers from 1 up to the highest present
/// one that no id carries, as compact ranges in order: each range runs
/// forward and every number in it is missing, and every missing number lies
/// in one.
pub proof fn law_missing_ranges_are_exact(nums: Seq<u32>)
    requires
        increasing_from(nums, 0),
    ensures
        forall|k: int| 0 <= k < gaps(nums, 0).len() ==> 1 <= (#[trigger] gaps(nums, 0)[k]).0 <= gaps(nums, 0)[k].1,
        forall|n: nat| covered(gaps(nums, 0), n) <==> (nums.len() > 0 && 1 <= n <= nums.last() && !nums.contains(
            n as u32,
        )),
{
    lemma_gaps(nums, 0);
    assert forall|n: nat| covered(gaps(nums, 0), n) <==> (nums.len() > 0 && 1 <= n <= nums.last() && !nums.contains(
        n as u32,
    )) by {
        if nums.len() > 0 && n == nums.last() {
            assert(nums.contains(n as u32)) by {
                assert(nums[nums.len() - 1] == n as u32);
            }
        }
    }
}

/// Ids are never reused: the next id's number is past the number of every
/// id any list of the ledger holds under its prefix.
pub proof fn law_next_id_is_fresh(l: Ledger)
    ensures
        forall|k: int| 0 <= k < claims(l).len() && #[trigger] id_number(claims(l)[k].0, l.prefix@) is Some ==> id_number(
            claims(l)[k].0,
            l.prefix@,
        )->0 < next_number(l),
{
    assert forall|k: int| 0 <= k < claims(l).len() && #[trigger] id_number(claims(l)[k].0, l.prefix@) is Some implies id_number(
        claims(l)[k].0,
        l.prefix@,
    )->0 < next_number(l) by {
        lemma_highest_bounds(claims(l), l.prefix@, k);
    }
}

proof fn lemma_row_problems(ids: Seq<Seq<char>>, index: int, blockers: Seq<Seq<char>>, m: int)
    requires
        0 <= m <= blockers.len(),
    ensures
        row_problems(ids, index, blockers, m).len() == 0 <==> forall|j: int| 0 <= j < m ==> #[trigger] blocker_problem(
            ids,
            index,
            blockers[j],
        ) is None,
    decreases m,
{
    if m > 0 {
        lemma_row_problems(ids, index, blockers, m - 1);
    }
}

proof fn lemma_order_problems(ids: Seq<Seq<char>>, blockers: Seq<Seq<Seq<char>>>, n: int)
    requires
        0 <= n <= blockers.len(),
    ensures
        order_problems(ids, blockers, n).len() == 0 <==> forall|i: int, j: int|
            0 <= i < n && 0 <= j < blockers[i].len() ==> #[trigger] blocker_problem(ids, i, blockers[i][j]) is None,
    decreases n,
{
    if n > 0 {
        lemma_order_problems(ids, blockers, n - 1);
        lemma_row_problems(ids, n - 1, blockers[n - 1], blockers[n - 1].len() as int);
    }
}

/// Whether `b` is the id of a row standing before row `i`.
pub open spec fn earlier(ids: Seq<Seq<char>>, i: int, b: Seq<char>) -> bool {
    exists|at: int| 0 <= at < i && ids[at] == b
}

/// The queue's order rule: in a queue whose ids are distinct, there is no
/// blocker problem exactly when every blocker of every row is the id of a row
/// standing earlier in the queue.
pub proof fn law_blockers_point_backward(ids: Seq<Seq<char>>, blockers: Seq<Seq<Seq<char>>>)
    requires
        ids.len() == blockers.len(),
        forall|a: int, b: int| 0 <= a < b < ids.len() ==> ids[a] != ids[b],
    ensures
        order_problems(ids, blockers, ids.len() as int).len() == 0 <==> forall|i: int, j: int|
            0 <= i < ids.len() && 0 <= j < blockers[i].len() ==> #[trigger] earlier(ids, i, blockers[i][j]),
{
    lemma_order_problems(ids, blockers, ids.len() as int);
    assert forall|i: int, j: int| 0 <= i < ids.len() && 0 <= j < blockers[i].len() implies (#[trigger] blocker_problem(
        ids,
        i,
        blockers[i][j],
    ) is None <==> earlier(ids, i, blockers[i][j])) by {
        let b = blockers[i][j];
        lemma_last_position(ids, b);
        match last_position(ids, b) {
            Some(at) => {
                if earlier(ids, i, b) {
                    let a = choose|a: int| 0 <= a < i && ids[a] == b;
                    if at >= i {
                        assert(ids[a] == ids[at]);
                    }
                } else {
                    if at < i {
                        assert(ids[at] == b);
                    }
                }
            },
            None => {
                if earlier(ids, i, b) {
                    let a = choose|a: int| 0 <= a < i && ids[a] == b;
                    assert(ids[a] == b);
                }
            },
        }
    }
    assert((forall|i: int, j: int|
        0 <= i < ids.len() && 0 <= j < blockers[i].len() ==> #[trigger] earlier(ids, i, blockers[i][j])) ==> (forall|
        i: int,
        j: int,
    | 0 <= i < ids.len() && 0 <= j < blockers[i].len() ==> #[trigger] blocker_problem(ids, i, blockers[i][j]) is None))
        by {
        if forall|i: int, j: int| 0 <= i < ids.len() && 0 <= j < blockers[i].len() ==> #[trigger] earlier(ids, i, blockers[i][j]) {
            assert forall|i: int, j: int| 0 <= i < ids.len() && 0 <= j < blockers[i].len() implies #[trigger] blocker_problem(
                ids,
                i,
                blockers[i][j],
            ) is None by {
                assert(earlier(ids, i, blockers[i][j]));
            }
        }
    }
    assert((forall|i: int, j: int|
        0 <= i < ids.len() && 0 <= j < blockers[i].len() ==> #[trigger] blocker_problem(ids, i, blockers[i][j]) is None)
        ==> (forall|i: int, j: int|
        0 <= i < ids.len() && 0 <= j < blockers[i].len() ==> #[trigger] earlier(ids, i, blockers[i][j]))) by {
        if forall|i: int, j: int| 0 <= i < ids.len() && 0 <= j < blockers[i].len() ==> #[trigger] blocker_problem(ids, i, blockers[i][j]) is None {
            assert forall|i: int, j: int| 0 <= i < ids.len() && 0 <= j < blockers[i].len() implies #[trigger] earlier(
                ids,
                i,
                blockers[i][j],
            ) by {
                assert(blocker_problem(ids, i, blockers[i][j]) is None);
            }
        }
    }
}

/// Whether an id is queued ahead of position `at`.
pub open spec fn queued_ahead(ids: Seq<Seq<char>>, b: Seq<char>, at: int) -> bool {
    match first_index(ids, b) {
        Some(i) => i < at,
        None => false,
    }
}

/// A new queued row's blockers pass exactly when each is queued ahead of the
/// place the row goes.
pub proof fn law_new_row_blockers(ids: Seq<Seq<char>>, id: Seq<char>, blockers: Seq<Seq<char>>, at: int)
    ensures
        blocker_complaint(ids, id, blockers, at) is None <==> forall|j: int| 0 <= j < blockers.len() ==> #[trigger] queued_ahead(
            ids,
            blockers[j],
            at,
        ),
    decreases blockers.len(),
{
    if blockers.len() > 0 {
        let front = blockers.drop_last();
        law_new_row_blockers(ids, id, front, at);
        let b = blockers.last();
        assert(blocker_complaint(ids, id, blockers, at) is None <==> (blocker_complaint(ids, id, front, at) is None
            && queued_ahead(ids, b, at)));
        if forall|j: int| 0 <= j < blockers.len() ==> #[trigger] queued_ahead(ids, blockers[j], at) {
            assert forall|j: int| 0 <= j < front.len() implies #[trigger] queued_ahead(ids, front[j], at) by {
                assert(front[j] == blockers[j]);
                assert(queued_ahead(ids, blockers[j], at));
            }
            assert(queued_ahead(ids, blockers[blockers.len() - 1], at));
        }
        if blocker_complaint(ids, id, blockers, at) is None {
            assert forall|j: int| 0 <= j < blockers.len() implies #[trigger] queued_ahead(ids, blockers[j], at) by {
                if j < front.len() {
                    assert(front[j] == blockers[j]);
                    assert(queued_ahead(ids, front[j], at));
                }
            }
        }
    }
}

/// Archiving takes the archived id out of a `blocked_by` and leaves every
/// other blocker in it.
pub proof fn law_archive_unblocks(blockers: Seq<Seq<char>>, id: Seq<char>)
    ensures
        !kept_blockers(blockers, id).contains(id),
        forall|x: Seq<char>| x != id ==> (kept_blockers(blockers, id).contains(x) <==> blockers.contains(x)),
    decreases blockers.len(),
{
    if blockers.len() > 0 {
        law_archive_unblocks(blockers.drop_last(), id);
        let rest = kept_blockers(blockers.drop_last(), id);
        let k = kept_blockers(blockers, id);
        if blockers.last() == id {
            assert(k == rest);
        } else {
            assert(k == rest.push(blockers.last()));
        }
        assert forall|x: Seq<char>| x != id implies (k.contains(x) <==> blockers.contains(x)) by {
            if blockers.contains(x) {
                let j = choose|j: int| 0 <= j < blockers.len() && blockers[j] == x;
                if j < blockers.len() - 1 {
                    assert(blockers.drop_last()[j] == x);
                    assert(blockers.drop_last().contains(x));
                    assert(rest.contains(x));
                    let m = choose|m: int| 0 <= m < rest.len() && rest[m] == x;
                    if blockers.last() != id {
                        assert(k[m] == x);
                    }
                } else {
                    assert(k.last() == x);
                }
            }
            if k.contains(x) {
                let m = choose|m: int| 0 <= m < k.len() && k[m] == x;
                if blockers.last() != id && m == k.len() - 1 {
                    assert(blockers[blockers.len() - 1] == x);
                } else {
                    assert(rest[m] == x);
                    assert(rest.contains(x));
                    assert(blockers.drop_last().contains(x));
                    let j = choose|j: int| 0 <= j < blockers.drop_last().len() && blockers.drop_last()[j] == x;
                    assert(blockers.drop_last()[j] == blockers[j]);
                }
            }
        }
        if k.contains(id) {
            let m = choose|m: int| 0 <= m < k.len() && k[m] == id;
            if blockers.last() != id && m == k.len() - 1 {
            } else {
                assert(rest[m] == id);
            }
        }
    }
}

/// `close-from-git` archives only ids the queue holds, each at most once,
/// and every queued id some commit closed.
pub proof fn law_closing_picks_each_queued_id_once(ids: Seq<Seq<char>>, closed: Seq<(Seq<char>, Seq<char>)>)
    ensures
        forall|k: int| 0 <= k < closing(ids, closed).len() ==> ids.contains((#[trigger] closing(ids, closed)[k]).0),
        forall|a: int, b: int|
            0 <= a < b < closing(ids, closed).len() ==> (#[trigger] closing(ids, closed)[a]).0 != (#[trigger] closing(
                ids,
                closed,
            )[b]).0,
        forall|k: int|
            0 <= k < closed.len() && ids.contains((#[trigger] closed[k]).0) ==> exists|m: int|
                0 <= m < closing(ids, closed).len() && closing(ids, closed)[m].0 == closed[k].0,
    decreases closed.len(),
{
    if closed.len() > 0 {
        law_closing_picks_each_queued_id_once(ids, closed.drop_last());
        let rest = closing(ids, closed.drop_last());
        let c = closing(ids, closed);
        let last = closed.last();
        let firsts = rest.map_values(|p: (Seq<char>, Seq<char>)| p.0);
        if ids.contains(last.0) && !firsts.contains(last.0) {
            assert(c == rest.push(last));
            assert forall|a: int, b: int| 0 <= a < b < c.len() implies (#[trigger] c[a]).0 != (#[trigger] c[b]).0 by {
                if b == c.len() - 1 {
                    assert(c[a] == rest[a]);
                    assert(firsts[a] == rest[a].0);
                } else {
                    assert(c[a] == rest[a] && c[b] == rest[b]);
                }
            }
            assert forall|k: int| 0 <= k < closed.len() && ids.contains((#[trigger] closed[k]).0) implies exists|m: int|
                0 <= m < c.len() && c[m].0 == closed[k].0 by {
                if k < closed.len() - 1 {
                    assert(closed.drop_last()[k] == closed[k]);
                    let m = choose|m: int| 0 <= m < rest.len() && rest[m].0 == closed[k].0;
                    assert(c[m] == rest[m]);
                } else {
                    assert(c[c.len() - 1] == last);
                }
            }
            assert forall|k: int| 0 <= k < c.len() implies ids.contains((#[trigger] c[k]).0) by {
                if k < rest.len() {
                    assert(c[k] == rest[k]);
                }
            }
        } else {
            assert(c == rest);
            assert forall|k: int| 0 <= k < closed.len() && ids.contains((#[trigger] closed[k]).0) implies exists|m: int|
                0 <= m < c.len() && c[m].0 == closed[k].0 by {
                if k < closed.len() - 1 {
                    assert(closed.drop_last()[k] == closed[k]);
                } else {
                    let m = choose|m: int| 0 <= m < firsts.len() && firsts[m] == last.0;
                    assert(rest[m].0 == last.0);
                }
            }
        }
    }
}

/// A row moved right by some amount and back left by the same amount is the
/// row it was: what a paste at an indent writes, a cut at that indent reads
/// back.
pub proof fn law_dedent_undoes_indent(text: Seq<char>, n: nat)
    ensures
        dedent(indent_by(text, n), n) == text,
{
    lemma_dedent_undoes_indent(text, n);
}

/// The hook names the ledger in single quotes, so the name it writes holds no
/// single quote, and its separators are all `/`.
pub proof fn law_hook_path_is_quotable(ledger: Seq<char>, root: Seq<char>)
    ensures
        ledger_rel_spec(ledger, root) matches Ok(rel) ==> !rel.contains('\'') && !rel.contains('\\'),
{
    match relative(ledger, root) {
        Some(rel) => if !rel.contains('\'') {
            let out = forward_slashes(rel);
            if out.contains('\'') {
                let k = choose|k: int| 0 <= k < out.len() && out[k] == '\'';
                assert(rel[k] == '\'');
            }
            if out.contains('\\') {
                let k = choose|k: int| 0 <= k < out.len() && out[k] == '\\';
            }
        },
        None => {},
    }
}


/// Stamps newest first: no stamp sorts before a later one.
pub open spec fn newest_first_order(rows: Seq<(Seq<char>, Seq<char>)>) -> bool {
    forall|i: int, j: int| 0 <= i < j < rows.len() ==> !lex_lt(#[trigger] rows[i].0, #[trigger] rows[j].0)
}

proof fn lemma_not_before_transitive(a: Seq<char>, b: Seq<char>, c: Seq<char>)
    requires
        !lex_lt(a, b),
        !lex_lt(b, c),
    ensures
        !lex_lt(a, c),
{
    lemma_lex_total(a, b);
    if lex_lt(a, c) {
        if a == b {
        } else {
            lemma_lex_transitive(b, a, c);
        }
    }
}

proof fn lemma_insert_newest_sorted(sorted: Seq<(Seq<char>, Seq<char>)>, row: (Seq<char>, Seq<char>))
    requires
        newest_first_order(sorted),
    ensures
        newest_first_order(insert_newest(sorted, row)),
        insert_newest(sorted, row).len() == sorted.len() + 1,
        forall|k: int| 0 <= k < insert_newest(sorted, row).len() ==> #[trigger] insert_newest(sorted, row)[k] == row
            || sorted.contains(insert_newest(sorted, row)[k]),
    decreases sorted.len(),
{
    let out = insert_newest(sorted, row);
    if sorted.len() == 0 || !lex_lt(sorted.last().0, row.0) {
        assert(out == sorted.push(row));
        assert forall|i: int, j: int| 0 <= i < j < out.len() implies !lex_lt(#[trigger] out[i].0, #[trigger] out[j].0) by {
            if j == out.len() - 1 {
                assert(out[j] == row);
                if i < sorted.len() - 1 {
                    assert(!lex_lt(sorted[i].0, sorted[sorted.len() - 1].0));
                } else {
                    lemma_lex_irreflexive(sorted[i].0);
                }
                lemma_not_before_transitive(sorted[i].0, sorted.last().0, row.0);
            } else {
                assert(out[i] == sorted[i] && out[j] == sorted[j]);
            }
        }
        assert forall|k: int| 0 <= k < out.len() implies #[trigger] out[k] == row || sorted.contains(out[k]) by {
            if k < sorted.len() {
                assert(out[k] == sorted[k]);
            }
        }
    } else {
        let front = sorted.drop_last();
        let last = sorted.last();
        assert(newest_first_order(front)) by {
            assert forall|i: int, j: int| 0 <= i < j < front.len() implies !lex_lt(#[trigger] front[i].0, #[trigger] front[j].0) by {
                assert(front[i] == sorted[i] && front[j] == sorted[j]);
            }
        }
        lemma_insert_newest_sorted(front, row);
        let mid = insert_newest(front, row);
        assert(out == mid.push(last));
        lemma_lex_asymmetric(last.0, row.0);
        assert forall|i: int, j: int| 0 <= i < j < out.len() implies !lex_lt(#[trigger] out[i].0, #[trigger] out[j].0) by {
            if j == out.len() - 1 {
                assert(out[j] == last);
                assert(out[i] == mid[i]);
                if mid[i] == row {
                } else {
                    assert(front.contains(mid[i]));
                    let m = choose|m: int| 0 <= m < front.len() && front[m] == mid[i];
                    assert(sorted[m] == mid[i]);
                    assert(!lex_lt(sorted[m].0, sorted[sorted.len() - 1].0));
                }
            } else {
                assert(out[i] == mid[i] && out[j] == mid[j]);
            }
        }
        assert forall|k: int| 0 <= k < out.len() implies #[trigger] out[k] == row || sorted.contains(out[k]) by {
            if k < mid.len() {
                assert(out[k] == mid[k]);
                if mid[k] != row {
                    let m = choose|m: int| 0 <= m < front.len() && front[m] == mid[k];
                    assert(sorted[m] == mid[k]);
                }
            } else {
                assert(sorted[sorted.len() - 1] == last);
            }
        }
    }
}

/// The archive order `fmt` writes is newest first: every row keeps its place
/// among the rows, and no row's stamp sorts before the stamp of a row after it.
pub proof fn law_newest_first_is_ordered(rows: Seq<(Seq<char>, Seq<char>)>)
    ensures
        newest_first_order(by_newest(rows)),
        by_newest(rows).len() == rows.len(),
        forall|k: int| 0 <= k < by_newest(rows).len() ==> rows.contains(#[trigger] by_newest(rows)[k]),
    decreases rows.len(),
{
    if rows.len() > 0 {
        law_newest_first_is_ordered(rows.drop_last());
        let before = by_newest(rows.drop_last());
        lemma_insert_newest_sorted(before, rows.last());
        assert forall|k: int| 0 <= k < by_newest(rows).len() implies rows.contains(#[trigger] by_newest(rows)[k]) by {
            let x = by_newest(rows)[k];
            if x == rows.last() {
                assert(rows[rows.len() - 1] == x);
            } else {
                let m = choose|m: int| 0 <= m < before.len() && before[m] == x;
                assert(rows.drop_last().contains(x));
                let j = choose|j: int| 0 <= j < rows.drop_last().len() && rows.drop_last()[j] == x;
                assert(rows[j] == x);
            }
        }
    }
}


proof fn lemma_span_of(s: Seq<char>, section: Seq<char>, i: int)
    ensures
        0 <= span_of(s, section, i).0 <= span_of(s, section, i).1 <= s.len(),
{
    let route = crate::document::row_route(section, i as nat);
    match crate::document::yaml::exact_span(s, route) {
        Ok(Some((a, b))) => {
            lemma_char_index_bound(s, a as int);
            lemma_char_index_bound(s, b as int);
        },
        _ => {},
    }
}

proof fn lemma_row_bounds(s: Seq<char>, section: Seq<char>, i: int)
    requires
        0 <= i < row_count(s, section),
    ensures
        0 <= row_start(s, section, i) <= s.len(),
        row_end(s, section, i) <= s.len(),
{
    lemma_span_of(s, section, i);
    crate::chars::lemma_line_start(s, span_of(s, section, i).0);
    lemma_attached_start(s, crate::chars::line_start(s, span_of(s, section, i).0));
    if i + 1 < row_count(s, section) {
        lemma_span_of(s, section, i + 1);
        crate::chars::lemma_line_start(s, span_of(s, section, i + 1).0);
        lemma_attached_start(s, crate::chars::line_start(s, span_of(s, section, i + 1).0));
    } else {
        lemma_remarks_end_le(s, span_of(s, section, i).1);
    }
}

/// Cutting a row out of a list touches nothing else: what is left is the
/// text before one point and the text after another, each exactly as it was.
#[verifier::rlimit(40)]
pub proof fn law_cut_keeps_the_rest(s: Seq<char>, section: Seq<char>, id: Seq<char>)
    ensures
        cut_spec(s, section, id) matches Ok((t, _)) ==> exists|a: int, b: int|
            0 <= a <= b <= s.len() && t == #[trigger] s.take(a) + #[trigger] s.skip(b),
{
    reveal(cut_spec);
    if let Ok((t, row)) = cut_spec(s, section, id) {
        let ids = crate::document::section_ids(s, section)->Ok_0;
        let index = first_index(ids, id)->0;
        crate::edit::lists::lemma_first_index(ids, id);
        let rows = section_rows(s, section)->Ok_0;
        assert(rows == crate::document::row_ranges(s, section));
        assert(index < rows.len());
        assert(rows_follow(s, section));
        let span = rows[index];
        assert(span == (row_start(s, section, index), row_end(s, section, index)));
        assert(span.0 <= span.1);
        lemma_row_bounds(s, section, index);
        lemma_blank_run_start(s, span.0);
        let last = index + 1 == rows.len();
        let from = if last {
            crate::document::text::blank_run_start(s, span.0)
        } else {
            span.0
        };
        let to = if last && crate::chars::starts_with(s.skip(span.1), seq!['\n']) {
            span.1 + 1
        } else {
            span.1
        };
        assert(0 <= from <= to <= s.len());
        assert(t == s.take(from) + Seq::<char>::empty() + s.skip(to));
        assert(t == s.take(from) + s.skip(to));
    }
}

/// A note is written in one of three ways: as its escaped JSON string; as a
/// literal or folded block only when that block reads back as exactly the
/// note; or, when it is a single line the serializer writes without quotes,
/// as that plain scalar.
pub proof fn law_notes_read_back(note: Seq<char>)
    ensures
        note_item(note) matches Ok(t) ==> (t == "- "@ + json_rendering(FieldView::Text(note))->Ok_0 || round_trips(
            t,
            note,
        ) || (!note.contains('\n') && t == "- "@ + trim_end(yaml_rendering(YamlView::Text(note))->Ok_0))),
{
}

/// `--before` and `--after` place a new queued row right next to the row they
/// name: with the new id inserted where `add` puts it, the named row is the
/// one just after it, or just before it; with neither, the row goes last.
pub proof fn law_add_places_the_row_beside_its_neighbour(
    ids: Seq<Seq<char>>,
    id: Seq<char>,
    before: Option<Seq<char>>,
    after: Option<Seq<char>>,
)
    ensures
        insertion(ids, before, after) matches Ok(at) ==> {
            let placed = ids.insert(at, id);
            &&& 0 <= at <= ids.len()
            &&& placed[at] == id
            &&& (before matches Some(b) ==> placed[at + 1] == b)
            &&& (after matches Some(a) ==> at >= 1 && placed[at - 1] == a)
            &&& (before is None && after is None ==> at == ids.len())
        },
{
    if let Some(b) = before {
        lemma_first_index(ids, b);
    }
    if let Some(a) = after {
        lemma_first_index(ids, a);
    }
}


/// `t` is `u` with a row, moved `ind` columns right, written whole at `at`
/// with the line breaks that set it apart, and nothing else changed.
pub open spec fn pasted_whole(u: Seq<char>, t: Seq<char>, at: int, row: Seq<char>, ind: nat) -> bool {
    let r = indent_by(row, ind);
    &&& 0 <= at <= u.len()
    &&& {
        ||| t == u.take(at) + r + "\n"@ + u.skip(at)
        ||| t == u.take(at) + r + "\n\n"@ + u.skip(at)
        ||| t == u.take(at) + "\n"@ + r + "\n"@ + u.skip(at)
    }
}

/// Where a list's first row goes lies within the text.
proof fn lemma_front_of_bounds(s: Seq<char>, section: Seq<char>)
    ensures
        front_of(s, section) matches Ok(at) ==> 0 <= at <= s.len(),
{
    if let Ok(at) = front_of(s, section) {
        let (a, b) = crate::document::yaml::key_span(s, key_route(section))->Ok_0;
        lemma_char_index_bound(s, b as int);
        let after = crate::document::yaml::key_chars(s, key_route(section))->Ok_0.1;
        assert(0 <= after <= s.len());
        crate::chars::lemma_find(s.skip(after), '\n');
    }
}

/// The text a paste writes into, and the depth its rows sit at.
pub open spec fn paste_target(s: Seq<char>, section: Seq<char>, u: Seq<char>, ind: nat) -> bool {
    &&& ensured(s, section) matches Ok(s1) && opened(s1, section) == Ok::<Seq<char>, Seq<char>>(u)
    &&& indent_of(u, section) == Ok::<nat, Seq<char>>(ind)
}

#[verifier::rlimit(100)]
proof fn lemma_paste_front(s: Seq<char>, section: Seq<char>, row: Seq<char>)
    ensures
        pasted_front(s, section, row) matches Ok(t) ==> exists|u: Seq<char>, at: int, ind: nat|
            #[trigger] pasted_whole(u, t, at, row, ind) && paste_target(s, section, u, ind) && front_of(u, section) == Ok::<
                int,
                Seq<char>,
            >(at),
{
    reveal(pasted_front);
    if let Ok(t) = pasted_front(s, section, row) {
        let s1 = ensured(s, section)->Ok_0;
        let u = opened(s1, section)->Ok_0;
        let ind = indent_of(u, section)->Ok_0;
        lemma_front_of_bounds(u, section);
        let at = front_of(u, section)->Ok_0;
        let r = indent_by(row, ind);
        if section_ids(u, section)->Ok_0.len() > 0 {
            assert(t =~= u.take(at) + r + "\n\n"@ + u.skip(at));
        } else {
            assert(t =~= u.take(at) + r + "\n"@ + u.skip(at));
        }
        assert(pasted_whole(u, t, at, row, ind));
    }
}

#[verifier::rlimit(100)]
proof fn lemma_paste_back(s: Seq<char>, section: Seq<char>, row: Seq<char>)
    ensures
        pasted_back(s, section, row) matches Ok(t) ==> exists|u: Seq<char>, at: int, ind: nat|
            #[trigger] pasted_whole(u, t, at, row, ind) && paste_target(s, section, u, ind),
{
    reveal(pasted_back);
    if let Ok(t) = pasted_back(s, section, row) {
        let s1 = ensured(s, section)->Ok_0;
        let u = opened(s1, section)->Ok_0;
        let ind = indent_of(u, section)->Ok_0;
        let rows = section_rows(u, section)->Ok_0;
        if rows.len() > 0 {
            let n = rows.len() - 1;
            assert(rows[n] == (row_start(u, section, n), row_end(u, section, n)));
            assert(rows_follow(u, section));
            assert(row_start(u, section, n) <= row_end(u, section, n));
            lemma_row_bounds(u, section, n);
            let end = rows.last().1;
            crate::chars::lemma_find(u.skip(end), '\n');
            let at = if crate::chars::line_end(u, end) < u.len() {
                crate::chars::line_end(u, end) + 1
            } else {
                u.len() as int
            };
            assert(t =~= u.take(at) + "\n"@ + indent_by(row, ind) + "\n"@ + u.skip(at));
            assert(pasted_whole(u, t, at, row, ind));
        } else {
            lemma_front_of_bounds(u, section);
            let at = front_of(u, section)->Ok_0;
            assert(t =~= u.take(at) + indent_by(row, ind) + "\n"@ + u.skip(at));
            assert(pasted_whole(u, t, at, row, ind));
        }
    }
}

/// Pasting a row into a list writes it whole, at the depth of the list's
/// rows (two spaces when it has none), in one place of the text as it stands
/// once the list's key exists and takes rows; nothing else in that text
/// changes.
#[verifier::rlimit(40)]
pub proof fn law_paste_writes_the_row_whole(s: Seq<char>, section: Seq<char>, index: nat, row: Seq<char>)
    ensures
        pasted_at(s, section, index as int, row) matches Ok(t) ==> exists|u: Seq<char>, at: int, ind: nat|
            #[trigger] pasted_whole(u, t, at, row, ind) && paste_target(s, section, u, ind),
{
    let index = index as int;
    reveal(pasted_at);
    lemma_paste_front(s, section, row);
    lemma_paste_back(s, section, row);
    if let Ok(t) = pasted_at(s, section, index, row) {
        let ids = section_ids(s, section)->Ok_0;
        if index == 0 {
            assert(pasted_front(s, section, row) == Ok::<Seq<char>, Seq<char>>(t));
        } else if index >= ids.len() {
            assert(pasted_back(s, section, row) == Ok::<Seq<char>, Seq<char>>(t));
        } else {
            let s1 = ensured(s, section)->Ok_0;
            let u = opened(s1, section)->Ok_0;
            let ind = indent_of(u, section)->Ok_0;
            let rows = section_rows(u, section)->Ok_0;
            assert(ensured(s, section) is Ok);
            assert(opened(s1, section) is Ok);
            assert(indent_of(u, section) is Ok);
            assert(section_rows(u, section) is Ok);
            assert(0 <= index < rows.len());
            assert(rows[index] == (row_start(u, section, index), row_end(u, section, index)));
            lemma_row_bounds(u, section, index);
            let at = rows[index].0;
            assert(t =~= u.take(at) + indent_by(row, ind) + "\n\n"@ + u.skip(at));
            assert(pasted_whole(u, t, at, row, ind));
        }
    }
}


/// `t` is `s` with the range `a..b` cut out and `row` written whole in
/// what is left, once the list's key takes rows.
pub open spec fn moved_whole(s: Seq<char>, section: Seq<char>, t: Seq<char>, a: int, b: int, row: Seq<char>, u: Seq<char>, at: int, ind: nat) -> bool {
    &&& 0 <= a <= b <= s.len()
    &&& pasted_whole(u, t, at, row, ind)
    &&& paste_target(s.take(a) + s.skip(b), section, u, ind)
}

/// Moving a row to the front of its list touches nothing else: the text is
/// left as it was when the row is already first; otherwise one range is cut
/// out, every other character staying as it was, and the row is written
/// whole, once, at the front of the list.
pub proof fn law_move_to_front_moves_one_row(s: Seq<char>, section: Seq<char>, id: Seq<char>)
    ensures
        moved_to_front(s, section, id) matches Ok(t) ==> t == s || exists|a: int, b: int, row: Seq<char>, u: Seq<char>, at: int, ind: nat|
            #[trigger] moved_whole(s, section, t, a, b, row, u, at, ind),
{
    if let Ok(t) = moved_to_front(s, section, id) {
        let ids = section_ids(s, section)->Ok_0;
        if !(ids.len() > 0 && ids[0] == id) {
            law_cut_keeps_the_rest(s, section, id);
            let (c, row) = cut_spec(s, section, id)->Ok_0;
            let (a, b) = choose|a: int, b: int| 0 <= a <= b <= s.len() && c == #[trigger] s.take(a) + #[trigger] s.skip(b);
            lemma_paste_front(c, section, row);
            assert(pasted_front(c, section, row) == Ok::<Seq<char>, Seq<char>>(t));
            let (u, at, ind) = choose|u: Seq<char>, at: int, ind: nat|
                #[trigger] pasted_whole(u, t, at, row, ind) && paste_target(c, section, u, ind);
            assert(moved_whole(s, section, t, a, b, row, u, at, ind));
        }
    }
}


/// A commit's body is read line by line: the ids that two runs of body lines
/// close, one after the other, are the ids the first run closes followed by
/// those the second closes. However many trailers a commit carries, none is
/// dropped.
pub proof fn law_trailers_are_read_line_by_line(a: Seq<Seq<char>>, b: Seq<Seq<char>>)
    ensures
        lines_ids(a + b) == lines_ids(a) + lines_ids(b),
    decreases b.len(),
{
    if b.len() == 0 {
        assert(a + b =~= a);
        assert(lines_ids(a) + lines_ids(b) =~= lines_ids(a));
    } else {
        law_trailers_are_read_line_by_line(a, b.drop_last());
        assert((a + b).drop_last() =~= a + b.drop_last());
        assert((a + b).last() == b.last());
        match line_id(b.last()) {
            Some(id) => {
                assert(lines_ids(a) + lines_ids(b) =~= (lines_ids(a) + lines_ids(b.drop_last())).push(id));
            },
            None => {},
        }
    }
}

/// One body line closes exactly the id its trailer names: `Closes ID` or
/// `Completes: ID` with a well-formed id, and nothing otherwise.
pub proof fn law_one_trailer_line(line: Seq<char>)
    ensures
        lines_ids(seq![line]) == match line_id(line) {
            Some(id) => seq![id],
            None => Seq::<Seq<char>>::empty(),
        },
{
    assert(seq![line].drop_last() =~= Seq::<Seq<char>>::empty());
    assert(lines_ids(seq![line].drop_last()) == Seq::<Seq<char>>::empty());
    assert(seq![line].last() == line);
    match line_id(line) {
        Some(id) => {
            assert(Seq::<Seq<char>>::empty().push(id) =~= seq![id]);
        },
        None => {},
    }
}

/// Every body line that names a trailer contributes its id: the ids read
/// from the lines are at least as many as the trailer lines, and each
/// trailer line's id is among them.
pub proof fn law_every_trailer_line_counts(ls: Seq<Seq<char>>, k: int)
    requires
        0 <= k < ls.len(),
        line_id(ls[k]) is Some,
    ensures
        lines_ids(ls).contains(line_id(ls[k])->0),
{
    let id = line_id(ls[k])->0;
    assert(ls =~= ls.take(k) + seq![ls[k]] + ls.skip(k + 1));
    law_trailers_are_read_line_by_line(ls.take(k) + seq![ls[k]], ls.skip(k + 1));
    law_trailers_are_read_line_by_line(ls.take(k), seq![ls[k]]);
    law_one_trailer_line(ls[k]);
    let all = lines_ids(ls.take(k)) + seq![id] + lines_ids(ls.skip(k + 1));
    assert(all[lines_ids(ls.take(k)).len() as int] == id);
}

/// `check` complains that the archive is out of order exactly when the
/// ledger asks for newest first and some row's stamp sorts before the stamp
/// of a row below it, whichever two rows they are; the complaint stands
/// among everything `check` says of the rows.
pub proof fn law_archive_order_is_checked_over_every_pair(l: Ledger, present: Seq<bool>, dups: Seq<Seq<char>>, nums: Seq<u32>)
    ensures
        order_errors(l) == if l.style.archive_order == ArchiveOrder::NewestFirst && exists|i: int, j: int|
            0 <= i < j < l.archive@.len() && lex_lt(#[trigger] l.archive@[i].completed@, #[trigger] l.archive@[j].completed@) {
            seq!["archive is not newest-first by completed"@]
        } else {
            Seq::<Seq<char>>::empty()
        },
        order_errors(l).len() > 0 ==> graph(l, present, dups, nums).contains("archive is not newest-first by completed"@),
{
    let st = stamps(l);
    assert forall|i: int| 0 <= i < l.archive@.len() implies #[trigger] st[i] == l.archive@[i].completed@ by {}
    if exists|i: int, j: int| 0 <= i < j < l.archive@.len() && lex_lt(#[trigger] l.archive@[i].completed@, #[trigger] l.archive@[j].completed@) {
        let (i, j) = choose|i: int, j: int| 0 <= i < j < l.archive@.len() && lex_lt(#[trigger] l.archive@[i].completed@, #[trigger] l.archive@[j].completed@);
        assert(st[i] == l.archive@[i].completed@ && st[j] == l.archive@[j].completed@);
        assert(!newest_first(st));
    } else {
        assert forall|i: int, j: int| 0 <= i < j < st.len() implies !lex_lt(#[trigger] st[i], #[trigger] st[j]) by {
            assert(st[i] == l.archive@[i].completed@ && st[j] == l.archive@[j].completed@);
        }
        assert(newest_first(st));
    }
    if order_errors(l).len() > 0 {
        let g = graph(l, present, dups, nums);
        let before = instant_errors(l.archive@) + prefix_errors(claims(l), l.prefix@) + corpus_errors(claims(l), l.prefix@, dups, nums)
            + active_errors(l) + order_problems(queue_ids(l), queue_blockers(l), l.queue@.len() as int);
        assert(g == before + order_errors(l) + plan_errors(plans(l), present));
        assert(g[before.len() as int] == order_errors(l)[0]);
    }
}

/// Removals are applied one after another: removing the selectors of `a`,
/// then those of `b`, is removing those of `a + b`; and a single selector
/// removes as `removed` says.
pub proof fn law_removals_apply_in_turn(list: Seq<Seq<char>>, a: Seq<Seq<char>>, b: Seq<Seq<char>>)
    ensures
        removed_all(list, a + b) == match removed_all(list, a) {
            Ok(l) => removed_all(l, b),
            Err(e) => Err(e),
        },
    decreases b.len(),
{
    if b.len() == 0 {
        assert(a + b =~= a);
    } else {
        law_removals_apply_in_turn(list, a, b.drop_last());
        assert((a + b).drop_last() =~= a + b.drop_last());
        assert((a + b).last() == b.last());
    }
}

/// A single removal is the one `removed` makes.
pub proof fn law_one_removal(list: Seq<Seq<char>>, selector: Seq<char>)
    ensures
        removed_all(list, seq![selector]) == removed(list, selector),
{
    assert(seq![selector].drop_last() =~= Seq::<Seq<char>>::empty());
    assert(removed_all(list, seq![selector].drop_last()) == Ok::<Seq<Seq<char>>, Seq<char>>(list));
    assert(seq![selector].last() == selector);
}

/// Every removal that succeeds takes exactly one item out: a list that all
/// its removals were applied to is shorter by as many items as there were
/// selectors.
pub proof fn law_each_removal_takes_one_item(list: Seq<Seq<char>>, selectors: Seq<Seq<char>>)
    ensures
        removed_all(list, selectors) matches Ok(r) ==> r.len() + selectors.len() == list.len(),
    decreases selectors.len(),
{
    if selectors.len() > 0 {
        law_each_removal_takes_one_item(list, selectors.drop_last());
        if let Ok(l) = removed_all(list, selectors.drop_last()) {
            lemma_first_index(l, selectors.last());
        }
    }
}


/// Whether a row's entries give `key` the value `v`, and no other value.
pub open spec fn carries(e: Seq<(Seq<char>, FieldView)>, key: Seq<char>, v: FieldView) -> bool {
    &&& e.contains((key, v))
    &&& forall|k: int| 0 <= k < e.len() && (#[trigger] e[k]).0 == key ==> e[k].1 == v
}

/// Whether a row's entries leave `key` out.
pub open spec fn lacks(e: Seq<(Seq<char>, FieldView)>, key: Seq<char>) -> bool {
    forall|k: int| 0 <= k < e.len() ==> (#[trigger] e[k]).0 != key
}

/// A new queued row carries every argument `add` was given, each under its
/// own key: the id, title, scope, outcome, blockers and acceptance always;
/// the patch and plan when given; the links and the notes, in the order
/// given, when there are any. Nothing given is dropped.
pub proof fn law_new_queued_row_carries_its_arguments(id: Seq<char>, args: AddArgs)
    ensures
        ({
            let e = queued_entries(id, args);
            &&& carries(e, "id"@, FieldView::Text(id))
            &&& carries(e, "title"@, FieldView::Text(args.title@))
            &&& carries(e, "scope"@, FieldView::Text(args.scope@))
            &&& carries(e, "outcome"@, FieldView::Text(args.outcome@))
            &&& carries(e, "blocked_by"@, FieldView::List(views(args.blocked_by@)))
            &&& carries(e, "acceptance"@, FieldView::List(views(args.acceptance@)))
            &&& (args.patch matches Some(p) ==> carries(e, "patch"@, FieldView::Text(p@)))
            &&& (args.patch is None ==> lacks(e, "patch"@))
            &&& (args.plan matches Some(p) ==> carries(e, "plan"@, FieldView::Text(p@)))
            &&& (args.plan is None ==> lacks(e, "plan"@))
            &&& (args.links@.len() > 0 ==> carries(e, "links"@, FieldView::List(views(args.links@))))
            &&& (args.links@.len() == 0 ==> lacks(e, "links"@))
            &&& (args.note@.len() > 0 ==> carries(e, "notes"@, FieldView::List(views(args.note@))))
            &&& (args.note@.len() == 0 ==> lacks(e, "notes"@))
        }),
{
    reveal_strlit("id");
    reveal_strlit("title");
    reveal_strlit("scope");
    reveal_strlit("outcome");
    reveal_strlit("blocked_by");
    reveal_strlit("acceptance");
    reveal_strlit("patch");
    reveal_strlit("plan");
    reveal_strlit("links");
    reveal_strlit("notes");
    let e = queued_entries(id, args);
    let base = seq![
        ("id"@, FieldView::Text(id)),
        ("title"@, FieldView::Text(args.title@)),
        ("scope"@, FieldView::Text(args.scope@)),
        ("outcome"@, FieldView::Text(args.outcome@)),
        ("blocked_by"@, FieldView::List(views(args.blocked_by@))),
        ("acceptance"@, FieldView::List(views(args.acceptance@))),
    ];
    let pa = opt_entry("patch"@, opt_text(args.patch));
    let pl = opt_entry("plan"@, opt_text(args.plan));
    let li = list_entry("links"@, views(args.links@));
    let no = list_entry("notes"@, views(args.note@));
    assert(e == base + pa + pl + li + no);
    let names = seq!["id"@, "title"@, "scope"@, "outcome"@, "blocked_by"@, "acceptance"@, "patch"@, "plan"@, "links"@, "notes"@];
    assert(forall|a: int, b: int| 0 <= a < b < 10 ==> names[a] != names[b]) by {
        assert forall|a: int, b: int| 0 <= a < b < 10 implies names[a] != names[b] by {
            if names[a] == names[b] {
                assert(names[a].len() == names[b].len());
                assert(names[a][0] == names[b][0]);
                assert(names[a][names[a].len() - 1] == names[b][names[b].len() - 1]);
            }
        }
    }
    // Where each entry stands, and what key it has.
    let at_pa = 6int;
    let at_pl = at_pa + pa.len();
    let at_li = at_pl + pl.len();
    let at_no = at_li + li.len();
    assert(e.len() == at_no + no.len());
    assert forall|k: int| 0 <= k < e.len() implies (#[trigger] e[k]).0 == (if k < 6 {
        names[k]
    } else if k < at_pl {
        names[6]
    } else if k < at_li {
        names[7]
    } else if k < at_no {
        names[8]
    } else {
        names[9]
    }) by {
        if k < 6 {
            assert(e[k] == base[k]);
        } else if k < at_pl {
            assert(e[k] == pa[k - 6]);
        } else if k < at_li {
            assert(e[k] == pl[k - at_pl]);
        } else if k < at_no {
            assert(e[k] == li[k - at_li]);
        } else {
            assert(e[k] == no[k - at_no]);
        }
    }
    assert(e[0] == base[0] && e[1] == base[1] && e[2] == base[2] && e[3] == base[3] && e[4] == base[4] && e[5] == base[5]);
    if let Some(p) = args.patch {
        assert(e[at_pa] == pa[0]);
    }
    if let Some(p) = args.plan {
        assert(e[at_pl] == pl[0]);
    }
    if args.links@.len() > 0 {
        assert(e[at_li] == li[0]);
    }
    if args.note@.len() > 0 {
        assert(e[at_no] == no[0]);
    }
    assert forall|k: int| 0 <= k < e.len() implies {
        &&& ((#[trigger] e[k]).0 == names[6] ==> e[k] == pa[0])
        &&& (e[k].0 == names[7] ==> e[k] == pl[0])
        &&& (e[k].0 == names[8] ==> e[k] == li[0])
        &&& (e[k].0 == names[9] ==> e[k] == no[0])
        &&& (k < 6 ==> e[k] == base[k])
    } by {
        if k < 6 {
            assert(e[k] == base[k]);
        } else if k < at_pl {
            assert(e[k] == pa[k - 6]);
        } else if k < at_li {
            assert(e[k] == pl[k - at_pl]);
        } else if k < at_no {
            assert(e[k] == li[k - at_li]);
        } else {
            assert(e[k] == no[k - at_no]);
        }
    }
}


/// `t` is `u` with `row` written whole at the front of `section`: right
/// under the list's key, before every row it had.
pub open spec fn written_first(u: Seq<char>, t: Seq<char>, section: Seq<char>, row: Seq<char>, ind: nat) -> bool {
    front_of(u, section) matches Ok(at) && pasted_whole(u, t, at, row, ind)
}

/// What `archive` does once the row stands in the archive: the blockers that
/// named it are dropped, and `active` names the queue's new first row, or
/// nothing when the queue is empty.
pub open spec fn after_archiving(t: Seq<char>, l: Ledger, id: Seq<char>) -> Result<Seq<char>, Seq<char>> {
    match unblocked(t, l.queue@, id) {
        Err(e) => Err(e),
        Ok(u) => match section_ids(u, "queue"@) {
            Err(e) => Err(e),
            Ok(ids) => patch_spec(
                u,
                key_route("active"@),
                EditView::Replace(if ids.len() > 0 { ScalarView::Text(ids[0]) } else { ScalarView::Null }),
            ),
        },
    }
}

/// The row `archive` moves: cut out of the queue, revised with the stamp,
/// the evidence and the disposition, and written first in the archive.
pub open spec fn archived_first(
    s: Seq<char>,
    id: Seq<char>,
    changes: Seq<(Seq<char>, Option<FieldView>)>,
    t: Seq<char>,
    u: Seq<char>,
    row: Seq<char>,
    ind: nat,
) -> bool {
    &&& cut_spec(s, "queue"@, id) is Ok
    &&& revised(cut_spec(s, "queue"@, id)->Ok_0.1, changes) == Ok::<Seq<char>, Seq<char>>(row)
    &&& closed_if_empty(cut_spec(s, "queue"@, id)->Ok_0.0, "queue"@) is Ok
    &&& paste_target(closed_if_empty(cut_spec(s, "queue"@, id)->Ok_0.0, "queue"@)->Ok_0, "archive"@, u, ind)
    &&& written_first(u, t, "archive"@, row, ind)
}

/// `archive` writes the archived row at the front of the archive, newest
/// first, before every row the archive had; the rest of the text is the
/// queue without the row, and only then are blockers and `active` brought
/// up to date.
pub proof fn law_archive_writes_the_row_first(args: ArchiveArgs, l: Ledger, s: Seq<char>, now: Result<Seq<char>, Seq<char>>)
    ensures
        archive_spec(args, l, s, now) matches Ok(r) ==> exists|t: Seq<char>, u: Seq<char>, row: Seq<char>, ind: nat|
            #[trigger] archived_first(
                s,
                args.id@,
                archiving(now->Ok_0, views(args.evidence@), disposition_word(args.disposition)),
                t,
                u,
                row,
                ind,
            ) && after_archiving(t, l, args.id@) == Ok::<Seq<char>, Seq<char>>(r),
{
    if let Ok(r) = archive_spec(args, l, s, now) {
        let id = args.id@;
        let changes = archiving(now->Ok_0, views(args.evidence@), disposition_word(args.disposition));
        let (c, cut) = cut_spec(s, "queue"@, id)->Ok_0;
        let row = revised(cut, changes)->Ok_0;
        let left = closed_if_empty(c, "queue"@)->Ok_0;
        let t = moved_between(s, "queue"@, "archive"@, id, changes, true)->Ok_0;
        assert(pasted_front(left, "archive"@, row) == Ok::<Seq<char>, Seq<char>>(t));
        lemma_paste_front(left, "archive"@, row);
        let (u, at, ind) = choose|u: Seq<char>, at: int, ind: nat|
            #[trigger] pasted_whole(u, t, at, row, ind) && paste_target(left, "archive"@, u, ind) && front_of(u, "archive"@)
                == Ok::<int, Seq<char>>(at);
        assert(written_first(u, t, "archive"@, row, ind));
        assert(archived_first(s, id, changes, t, u, row, ind));
        assert(after_archiving(t, l, id) == Ok::<Seq<char>, Seq<char>>(r));
    }
}

} // verus!
