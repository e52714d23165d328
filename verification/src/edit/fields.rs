//! The key-level changes an `edit` makes to one row.

use crate::chars::{extend_str, from_chars, to_chars, views};
use crate::cli::{EditArgs, UnsetField};
use crate::document::render::{FieldValue, FieldView};
use crate::document::{change_views, same_list};
use crate::edit::lists::copy_strings;
use crate::mutate::{opt_text, plan_refusal, require_plan};
use crate::schema::kind_word;
use vstd::prelude::*;

verus! {

/// A list as the row holds it and as the edit leaves it.
pub struct ListEdit {
    pub key: String,
    pub before: Vec<String>,
    pub after: Vec<String>,
}

/// A list edit as values.
pub open spec fn list_view(e: ListEdit) -> (Seq<char>, Seq<Seq<char>>, Seq<Seq<char>>) {
    (e.key@, views(e.before@), views(e.after@))
}

/// Changes as values.
pub type Changes = Seq<(Seq<char>, Option<FieldView>)>;

/// A scalar field set, when it was given; an empty value is refused.
pub open spec fn scalar_change(key: Seq<char>, value: Option<Seq<char>>) -> Result<Changes, Seq<char>> {
    match value {
        None => Ok(Seq::empty()),
        Some(v) => if v.len() == 0 {
            Err("--"@ + key + " needs a value"@)
        } else {
            Ok(seq![(key, Some(FieldView::Text(v)))])
        },
    }
}

/// An optional field set, dropped when `--unset` names it.
pub open spec fn optional_change(key: Seq<char>, value: Option<Seq<char>>, unset: bool) -> Result<Changes, Seq<char>> {
    if unset {
        Ok(seq![(key, None)])
    } else {
        scalar_change(key, value)
    }
}

/// A list written anew when the edit changed it, dropped when it left it
/// empty.
pub open spec fn list_change(e: (Seq<char>, Seq<Seq<char>>, Seq<Seq<char>>)) -> Changes {
    if e.1 == e.2 {
        Seq::empty()
    } else if e.2.len() == 0 {
        seq![(e.0, None)]
    } else {
        seq![(e.0, Some(FieldView::List(e.2)))]
    }
}

/// Every list's change, in order.
pub open spec fn list_changes(lists: Seq<(Seq<char>, Seq<Seq<char>>, Seq<Seq<char>>)>) -> Changes
    decreases lists.len(),
{
    if lists.len() == 0 {
        Seq::empty()
    } else {
        list_changes(lists.drop_last()) + list_change(lists.last())
    }
}

/// Two results of changes joined, the first complaint winning.
pub open spec fn then(a: Result<Changes, Seq<char>>, b: Result<Changes, Seq<char>>) -> Result<Changes, Seq<char>> {
    match a {
        Err(e) => Err(e),
        Ok(x) => match b {
            Err(e) => Err(e),
            Ok(y) => Ok(x + y),
        },
    }
}

/// The changes an `edit` makes to a row's keys: scalars replaced, optional
/// fields set or dropped, lists rewritten; or why it refuses: a field both
/// set and unset, a plan that cannot be used, or an empty value.
pub open spec fn changes_spec(args: EditArgs, plan_exists: bool, lists: Seq<(Seq<char>, Seq<Seq<char>>, Seq<Seq<char>>)>) -> Result<Changes, Seq<char>> {
    let unset_patch = args.unset@.contains(UnsetField::Patch);
    let unset_plan = args.unset@.contains(UnsetField::Plan);
    if args.patch is Some && unset_patch {
        Err("use --patch or --unset patch, not both"@)
    } else if args.plan is Some && unset_plan {
        Err("use --plan or --unset plan, not both"@)
    } else {
        match plan_refusal(opt_text(args.plan), plan_exists) {
            Some(m) => Err(m),
            None => {
                let kind: Changes = match args.kind {
                    Some(k) => seq![("kind"@, Some(FieldView::Text(kind_word(k))))],
                    None => Seq::empty(),
                };
                then(
                    then(
                        then(
                            then(
                                then(
                                    then(
                                        scalar_change("title"@, opt_text(args.title)),
                                        scalar_change("scope"@, opt_text(args.scope)),
                                    ),
                                    scalar_change("outcome"@, opt_text(args.outcome)),
                                ),
                                Ok(kind),
                            ),
                            scalar_change("open"@, opt_text(args.open)),
                        ),
                        then(
                            optional_change("patch"@, opt_text(args.patch), unset_patch),
                            optional_change("plan"@, opt_text(args.plan), unset_plan),
                        ),
                    ),
                    Ok(list_changes(lists)),
                )
            },
        }
    }
}

/// Whether `--unset` names a field.
fn unsets(args: &EditArgs, field: UnsetField) -> (res: bool)
    ensures
        res == args.unset@.contains(field),
{
    let mut i: usize = 0;
    while i < args.unset.len()
        invariant
            i <= args.unset@.len(),
            forall|k: int| 0 <= k < i ==> args.unset@[k] != field,
        decreases args.unset@.len() - i,
    {
        if args.unset[i] == field {
            assert(args.unset@[i as int] == field);
            return true;
        }
        i = i + 1;
    }
    false
}

/// Push a scalar field's change, when it was given.
fn push_scalar(changes: &mut Vec<(String, Option<FieldValue>)>, key: &str, value: &Option<String>) -> (res: Result<(), String>)
    ensures
        match (res, scalar_change(key@, opt_text(*value))) {
            (Ok(()), Ok(c)) => change_views(final(changes)@) == change_views(old(changes)@) + c,
            (Err(m), Err(e)) => m@ == e,
            _ => false,
        },
{
    match value {
        None => {
            assert(change_views(changes@) =~= change_views(old(changes)@) + Seq::<(Seq<char>, Option<FieldView>)>::empty());
            Ok(())
        },
        Some(v) => {
            if v.as_str().is_empty() {
                let mut m = to_chars("--");
                extend_str(&mut m, key);
                extend_str(&mut m, " needs a value");
                return Err(from_chars(m.as_slice()));
            }
            changes.push((String::from_str(key), Some(FieldValue::Text(v.clone()))));
            assert(change_views(changes@) =~= change_views(old(changes)@) + seq![(key@, Some(FieldView::Text(v@)))]);
            Ok(())
        },
    }
}

/// Push an optional field's change.
fn push_optional(changes: &mut Vec<(String, Option<FieldValue>)>, key: &str, value: &Option<String>, unset: bool) -> (res: Result<(), String>)
    ensures
        match (res, optional_change(key@, opt_text(*value), unset)) {
            (Ok(()), Ok(c)) => change_views(final(changes)@) == change_views(old(changes)@) + c,
            (Err(m), Err(e)) => m@ == e,
            _ => false,
        },
{
    if unset {
        changes.push((String::from_str(key), None));
        assert(change_views(changes@) =~= change_views(old(changes)@) + seq![(key@, None::<FieldView>)]);
        return Ok(());
    }
    push_scalar(changes, key, value)
}

/// Push a list's change, when the edit changed it.
fn push_list(changes: &mut Vec<(String, Option<FieldValue>)>, list: &ListEdit)
    ensures
        change_views(final(changes)@) == change_views(old(changes)@) + list_change(list_view(*list)),
{
    if same_list(&list.before, &list.after) {
        assert(change_views(changes@) =~= change_views(old(changes)@) + list_change(list_view(*list)));
        return;
    }
    if list.after.len() == 0 {
        changes.push((list.key.clone(), None));
    } else {
        changes.push((list.key.clone(), Some(FieldValue::List(copy_strings(&list.after)))));
    }
    assert(change_views(changes@) =~= change_views(old(changes)@) + list_change(list_view(*list)));
}

/// The changes an `edit` makes to a row's keys, or why it refuses. Whether
/// `--plan` names a file beside the ledger is the caller's to look up.
pub fn changes(args: &EditArgs, plan_exists: bool, lists: &Vec<ListEdit>) -> (res: Result<Vec<(String, Option<FieldValue>)>, String>)
    ensures
        match res {
            Ok(c) => changes_spec(*args, plan_exists, lists@.map_values(|e: ListEdit| list_view(e))) == Ok::<
                Changes,
                Seq<char>,
            >(change_views(c@)),
            Err(m) => changes_spec(*args, plan_exists, lists@.map_values(|e: ListEdit| list_view(e))) == Err::<
                Changes,
                Seq<char>,
            >(m@),
        },
{
    let unset_patch = unsets(args, UnsetField::Patch);
    let unset_plan = unsets(args, UnsetField::Plan);
    if args.patch.is_some() && unset_patch {
        return Err(String::from_str("use --patch or --unset patch, not both"));
    }
    if args.plan.is_some() && unset_plan {
        return Err(String::from_str("use --plan or --unset plan, not both"));
    }
    let plan_ref = args.plan.as_ref();
    assert(crate::mutate::plan_text(plan_ref) == opt_text(args.plan));
    match require_plan(plan_ref, plan_exists) {
        Ok(()) => {},
        Err(m) => {
            return Err(m);
        },
    }
    let mut out: Vec<(String, Option<FieldValue>)> = Vec::new();
    match push_scalar(&mut out, "title", &args.title) {
        Ok(()) => {},
        Err(m) => {
            return Err(m);
        },
    }
    match push_scalar(&mut out, "scope", &args.scope) {
        Ok(()) => {},
        Err(m) => {
            return Err(m);
        },
    }
    match push_scalar(&mut out, "outcome", &args.outcome) {
        Ok(()) => {},
        Err(m) => {
            return Err(m);
        },
    }
    let ghost before_kind = change_views(out@);
    match args.kind {
        Some(k) => {
            out.push((String::from_str("kind"), Some(FieldValue::Text(String::from_str(k.word())))));
        },
        None => {},
    }
    let ghost kind: Changes = match args.kind {
        Some(k) => seq![("kind"@, Some(FieldView::Text(kind_word(k))))],
        None => Seq::empty(),
    };
    assert(change_views(out@) =~= before_kind + kind);
    match push_scalar(&mut out, "open", &args.open) {
        Ok(()) => {},
        Err(m) => {
            return Err(m);
        },
    }
    match push_optional(&mut out, "patch", &args.patch, unset_patch) {
        Ok(()) => {},
        Err(m) => {
            return Err(m);
        },
    }
    match push_optional(&mut out, "plan", &args.plan, unset_plan) {
        Ok(()) => {},
        Err(m) => {
            return Err(m);
        },
    }
    let ghost fixed = change_views(out@);
    let ghost lv = lists@.map_values(|e: ListEdit| list_view(e));
    let mut i: usize = 0;
    assert(lv.take(0) =~= Seq::<(Seq<char>, Seq<Seq<char>>, Seq<Seq<char>>)>::empty());
    assert(fixed + list_changes(lv.take(0)) =~= fixed);
    while i < lists.len()
        invariant
            i <= lists@.len(),
            lv == lists@.map_values(|e: ListEdit| list_view(e)),
            change_views(out@) == fixed + list_changes(lv.take(i as int)),
        decreases lists@.len() - i,
    {
        proof {
            assert(lv.take(i + 1).drop_last() == lv.take(i as int));
            assert(lv.take(i + 1).last() == list_view(lists@[i as int]));
        }
        push_list(&mut out, &lists[i]);
        proof {
            assert(change_views(out@) =~= fixed + list_changes(lv.take(i + 1)));
        }
        i = i + 1;
    }
    assert(lv.take(lists@.len() as int) == lv);
    proof {
        let t = scalar_change("title"@, opt_text(args.title))->Ok_0;
        let sc = scalar_change("scope"@, opt_text(args.scope))->Ok_0;
        let o = scalar_change("outcome"@, opt_text(args.outcome))->Ok_0;
        let op = scalar_change("open"@, opt_text(args.open))->Ok_0;
        let pa = optional_change("patch"@, opt_text(args.patch), unset_patch)->Ok_0;
        let pl = optional_change("plan"@, opt_text(args.plan), unset_plan)->Ok_0;
        assert(fixed =~= t + sc + o + kind + op + pa + pl);
        assert(change_views(out@) =~= (t + sc + o + kind + op + (pa + pl)) + list_changes(lv));
    }
    Ok(out)
}

} // verus!
