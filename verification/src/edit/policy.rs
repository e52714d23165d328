//! Which fields each kind of row lets `edit` touch.

use crate::chars::{extend_str, from_chars, to_chars};
use crate::cli::{EditArgs, RemoveField, UnsetField};
use vstd::prelude::*;

verus! {

/// The list a row sits in.
#[derive(Clone, Copy, PartialEq, Eq, Structural, Debug)]
pub enum RowKind {
    Queue,
    Horizon,
    Archive,
}

/// The key a row kind's list is written under.
pub open spec fn kind_section(kind: RowKind) -> Seq<char> {
    match kind {
        RowKind::Queue => "queue"@,
        RowKind::Horizon => "horizon"@,
        RowKind::Archive => "archive"@,
    }
}

impl RowKind {
    /// The key this kind's list is written under.
    pub fn section(self) -> (out: &'static str)
        ensures
            out@ == kind_section(self),
    {
        match self {
            RowKind::Queue => "queue",
            RowKind::Horizon => "horizon",
            RowKind::Archive => "archive",
        }
    }

    /// Whether `edit` may touch this field on this kind of row.
    pub open spec fn allows(self, field: Field) -> bool {
        match self {
            RowKind::Queue => field != Field::Kind && field != Field::Open && field != Field::Evidence,
            RowKind::Horizon => field != Field::Acceptance && field != Field::BlockedBy
                && field != Field::Evidence && field != Field::Position,
            RowKind::Archive => field == Field::Note || field == Field::Link || field == Field::Evidence,
        }
    }

    /// Whether `edit` may touch this field on this kind of row.
    pub fn allowed(self, field: Field) -> (res: bool)
        ensures
            res == self.allows(field),
    {
        match self {
            RowKind::Queue => match field {
                Field::Kind | Field::Open | Field::Evidence => false,
                _ => true,
            },
            RowKind::Horizon => match field {
                Field::Acceptance | Field::BlockedBy | Field::Evidence | Field::Position => false,
                _ => true,
            },
            RowKind::Archive => match field {
                Field::Note | Field::Link | Field::Evidence => true,
                _ => false,
            },
        }
    }
}

/// A field, or field operation, an edit can request.
#[derive(Clone, Copy, PartialEq, Eq, Structural, Debug)]
pub enum Field {
    Title,
    Scope,
    Outcome,
    Kind,
    Open,
    Patch,
    Plan,
    Acceptance,
    Note,
    Link,
    BlockedBy,
    Evidence,
    Position,
}

/// The options that request a field, as a message names them.
pub open spec fn option_text(field: Field) -> Seq<char> {
    match field {
        Field::Title => "--title"@,
        Field::Scope => "--scope"@,
        Field::Outcome => "--outcome"@,
        Field::Kind => "--kind"@,
        Field::Open => "--open"@,
        Field::Patch => "--patch/--unset patch"@,
        Field::Plan => "--plan/--unset plan"@,
        Field::Acceptance => "--acceptance/--remove acceptance:…"@,
        Field::Note => "--note/--remove note:…/--reorder-notes"@,
        Field::Link => "--link/--remove link:…"@,
        Field::BlockedBy => "--blocked-by/--remove blocked-by:…"@,
        Field::Evidence => "--evidence/--remove evidence:…"@,
        Field::Position => "--position"@,
    }
}

impl Field {
    /// The options that request this field.
    pub fn option(self) -> (out: &'static str)
        ensures
            out@ == option_text(self),
    {
        match self {
            Field::Title => "--title",
            Field::Scope => "--scope",
            Field::Outcome => "--outcome",
            Field::Kind => "--kind",
            Field::Open => "--open",
            Field::Patch => "--patch/--unset patch",
            Field::Plan => "--plan/--unset plan",
            Field::Acceptance => "--acceptance/--remove acceptance:…",
            Field::Note => "--note/--remove note:…/--reorder-notes",
            Field::Link => "--link/--remove link:…",
            Field::BlockedBy => "--blocked-by/--remove blocked-by:…",
            Field::Evidence => "--evidence/--remove evidence:…",
            Field::Position => "--position",
        }
    }
}

/// The first requested field this kind of row refuses, if any.
pub open spec fn first_refused(requested: Seq<Field>, kind: RowKind) -> Option<Field>
    decreases requested.len(),
{
    if requested.len() == 0 {
        None
    } else if !kind.allows(requested[0]) {
        Some(requested[0])
    } else {
        first_refused(requested.drop_first(), kind)
    }
}

/// Whether this kind of row accepts every requested field, and the complaint
/// when it does not.
pub open spec fn refusal(requested: Seq<Field>, kind: RowKind) -> Option<Seq<char>> {
    match first_refused(requested, kind) {
        None => None,
        Some(f) => if kind == RowKind::Archive {
            Some("archive rows accept only note, evidence, and link ops"@)
        } else {
            Some(kind_section(kind) + " rows do not accept "@ + option_text(f))
        },
    }
}

/// Refuse a request this kind of row does not accept.
pub fn validate(requested: &Vec<Field>, kind: RowKind) -> (res: Result<(), String>)
    ensures
        match res {
            Ok(()) => refusal(requested@, kind) is None,
            Err(m) => refusal(requested@, kind) == Some(m@),
        },
{
    let mut k: usize = 0;
    assert(requested@.skip(0) == requested@);
    while k < requested.len()
        invariant
            k <= requested@.len(),
            first_refused(requested@, kind) == first_refused(requested@.skip(k as int), kind),
        decreases requested@.len() - k,
    {
        let field = requested[k];
        proof {
            assert(requested@.skip(k as int)[0] == field);
            assert(requested@.skip(k as int).drop_first() == requested@.skip(k + 1));
        }
        if !kind.allowed(field) {
            if kind == RowKind::Archive {
                return Err(String::from_str("archive rows accept only note, evidence, and link ops"));
            }
            let mut m = to_chars(kind.section());
            extend_str(&mut m, " rows do not accept ");
            extend_str(&mut m, field.option());
            return Err(from_chars(m.as_slice()));
        }
        k = k + 1;
    }
    proof {
        assert(requested@.skip(k as int) =~= Seq::<Field>::empty());
    }
    Ok(())
}

/// `fields`, with `field` after it when `condition` holds.
pub open spec fn pushed_if(fields: Seq<Field>, condition: bool, field: Field) -> Seq<Field> {
    if condition {
        fields.push(field)
    } else {
        fields
    }
}

/// Append a field when a condition holds.
pub fn push_if(fields: &mut Vec<Field>, condition: bool, field: Field)
    ensures
        final(fields)@ == pushed_if(old(fields)@, condition, field),
{
    if condition {
        fields.push(field);
    }
}

/// The field an `--unset` names.
pub open spec fn unset_field(u: UnsetField) -> Field {
    match u {
        UnsetField::Patch => Field::Patch,
        UnsetField::Plan => Field::Plan,
    }
}

/// The field a `--remove` names.
pub open spec fn removal_field(f: RemoveField) -> Field {
    match f {
        RemoveField::Note => Field::Note,
        RemoveField::Acceptance => Field::Acceptance,
        RemoveField::Link => Field::Link,
        RemoveField::BlockedBy => Field::BlockedBy,
        RemoveField::Evidence => Field::Evidence,
    }
}

/// Every field an edit requests, in the order its options are checked: the
/// scalars, each `--unset`, the lists, each `--remove`, then a reorder and a
/// position.
pub open spec fn requested_fields(args: EditArgs) -> Seq<Field> {
    let a = pushed_if(Seq::empty(), args.title is Some, Field::Title);
    let a = pushed_if(a, args.scope is Some, Field::Scope);
    let a = pushed_if(a, args.outcome is Some, Field::Outcome);
    let a = pushed_if(a, args.kind is Some, Field::Kind);
    let a = pushed_if(a, args.open is Some, Field::Open);
    let a = pushed_if(a, args.patch is Some, Field::Patch);
    let a = pushed_if(a, args.plan is Some, Field::Plan);
    let a = a + args.unset@.map_values(|u: UnsetField| unset_field(u));
    let a = pushed_if(a, args.acceptance@.len() > 0, Field::Acceptance);
    let a = pushed_if(a, args.note@.len() > 0, Field::Note);
    let a = pushed_if(a, args.links@.len() > 0, Field::Link);
    let a = pushed_if(a, args.blocked_by@.len() > 0, Field::BlockedBy);
    let a = pushed_if(a, args.evidence@.len() > 0, Field::Evidence);
    let a = a + args.remove@.map_values(|r: crate::cli::RemoveSpec| removal_field(r.field));
    let a = pushed_if(a, args.reorder_notes is Some, Field::Note);
    pushed_if(a, args.position is Some, Field::Position)
}

/// Every field an edit requests.
pub fn requested(args: &EditArgs) -> (fields: Vec<Field>)
    ensures
        fields@ == requested_fields(*args),
{
    let mut fields: Vec<Field> = Vec::new();
    push_if(&mut fields, args.title.is_some(), Field::Title);
    push_if(&mut fields, args.scope.is_some(), Field::Scope);
    push_if(&mut fields, args.outcome.is_some(), Field::Outcome);
    push_if(&mut fields, args.kind.is_some(), Field::Kind);
    push_if(&mut fields, args.open.is_some(), Field::Open);
    push_if(&mut fields, args.patch.is_some(), Field::Patch);
    push_if(&mut fields, args.plan.is_some(), Field::Plan);
    let ghost head = fields@;
    let mut k: usize = 0;
    while k < args.unset.len()
        invariant
            k <= args.unset@.len(),
            fields@ == head + args.unset@.take(k as int).map_values(|u: UnsetField| unset_field(u)),
        decreases args.unset@.len() - k,
    {
        fields.push(
            match args.unset[k] {
                UnsetField::Patch => Field::Patch,
                UnsetField::Plan => Field::Plan,
            },
        );
        proof {
            assert(args.unset@.take(k + 1).map_values(|u: UnsetField| unset_field(u))
                =~= args.unset@.take(k as int).map_values(|u: UnsetField| unset_field(u)).push(
                unset_field(args.unset@[k as int]),
            ));
        }
        k = k + 1;
    }
    assert(args.unset@.take(args.unset@.len() as int) == args.unset@);
    push_if(&mut fields, args.acceptance.len() > 0, Field::Acceptance);
    push_if(&mut fields, args.note.len() > 0, Field::Note);
    push_if(&mut fields, args.links.len() > 0, Field::Link);
    push_if(&mut fields, args.blocked_by.len() > 0, Field::BlockedBy);
    push_if(&mut fields, args.evidence.len() > 0, Field::Evidence);
    let ghost head = fields@;
    let mut k: usize = 0;
    while k < args.remove.len()
        invariant
            k <= args.remove@.len(),
            fields@ == head + args.remove@.take(k as int).map_values(
                |r: crate::cli::RemoveSpec| removal_field(r.field),
            ),
        decreases args.remove@.len() - k,
    {
        fields.push(
            match args.remove[k].field {
                RemoveField::Note => Field::Note,
                RemoveField::Acceptance => Field::Acceptance,
                RemoveField::Link => Field::Link,
                RemoveField::BlockedBy => Field::BlockedBy,
                RemoveField::Evidence => Field::Evidence,
            },
        );
        proof {
            assert(args.remove@.take(k + 1).map_values(
                |r: crate::cli::RemoveSpec| removal_field(r.field),
            ) =~= args.remove@.take(k as int).map_values(
                |r: crate::cli::RemoveSpec| removal_field(r.field),
            ).push(removal_field(args.remove@[k as int].field)));
        }
        k = k + 1;
    }
    assert(args.remove@.take(args.remove@.len() as int) == args.remove@);
    push_if(&mut fields, args.reorder_notes.is_some(), Field::Note);
    push_if(&mut fields, args.position.is_some(), Field::Position);
    fields
}

} // verus!
