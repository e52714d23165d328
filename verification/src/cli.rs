//! What each command is given: the arguments as plain values, and the parsers
//! for the ones that carry a grammar of their own.

use crate::chars::{from_chars, split_once, split_once_at, to_chars};
use crate::schema::{kind_word, Kind};
use vstd::prelude::*;

verus! {

/// Every command qctl offers.
pub enum Command {
    Init(InitArgs),
    Status(LedgerArgs),
    Check(CheckArgs),
    Add(AddArgs),
    Start(IdArgs),
    Archive(ArchiveArgs),
    Park(ParkArgs),
    Promote(PromoteArgs),
    Edit(EditArgs),
    Show(IdArgs),
    Fmt(FmtArgs),
    CloseFromGit(CloseFromGitArgs),
    Hook(HookArgs),
    Schema(SchemaArgs),
    Instructions,
}

pub struct FmtArgs {
    pub ledger: LedgerArgs,
    /// Say what is not in the declared style, writing nothing.
    pub check: bool,
}

pub struct SchemaArgs {
    /// Where to write it. Defaults to `schema/tasks.schema.json`.
    pub out: Option<String>,
}

pub struct CheckArgs {
    pub ledger: LedgerArgs,
    /// Skip the git trailer scan.
    pub no_git: bool,
}

pub struct CloseFromGitArgs {
    pub ledger: LedgerArgs,
    /// Read pre-push stdin.
    pub pre_push: bool,
    /// `git log` revision range, such as `main..HEAD`.
    pub range: Option<String>,
}

pub struct HookArgs {
    pub command: HookCommand,
}

pub enum HookCommand {
    Install(HookInstallArgs),
}

pub struct HookInstallArgs {
    pub ledger: LedgerArgs,
    /// Overwrite an existing git pre-push.
    pub force: bool,
}

pub struct LedgerArgs {
    /// Ledger path. Defaults to `TASKS_LEDGER`, then `tasks.yaml`.
    pub file: Option<String>,
}

pub struct InitArgs {
    pub prefix: String,
    pub ledger: LedgerArgs,
    pub force: bool,
}

pub struct AddArgs {
    pub ledger: LedgerArgs,
    pub title: String,
    pub scope: String,
    pub outcome: String,
    pub acceptance: Vec<String>,
    pub patch: Option<String>,
    pub note: Vec<String>,
    pub blocked_by: Vec<String>,
    pub plan: Option<String>,
    pub links: Vec<String>,
    /// Place the new row immediately after this queued id.
    pub after: Option<String>,
    /// Place the new row immediately before this queued id.
    pub before: Option<String>,
    /// Write a horizon row instead of a queue row.
    pub horizon: bool,
    pub kind: Option<Kind>,
    pub open: Option<String>,
}

pub struct IdArgs {
    pub id: String,
    pub ledger: LedgerArgs,
}

pub struct ArchiveArgs {
    pub id: String,
    pub ledger: LedgerArgs,
    pub evidence: Vec<String>,
    pub disposition: Disposition,
}

pub struct ParkArgs {
    pub id: String,
    pub ledger: LedgerArgs,
    /// Why it leaves the queue.
    pub kind: Kind,
    /// The missing start condition.
    pub open: String,
}

pub struct PromoteArgs {
    pub id: String,
    pub ledger: LedgerArgs,
    pub acceptance: Vec<String>,
    pub blocked_by: Vec<String>,
}

pub struct EditArgs {
    pub id: String,
    pub ledger: LedgerArgs,
    pub title: Option<String>,
    pub scope: Option<String>,
    pub outcome: Option<String>,
    pub kind: Option<Kind>,
    pub open: Option<String>,
    pub patch: Option<String>,
    pub plan: Option<String>,
    pub unset: Vec<UnsetField>,
    pub acceptance: Vec<String>,
    pub note: Vec<String>,
    pub links: Vec<String>,
    pub blocked_by: Vec<String>,
    pub evidence: Vec<String>,
    pub remove: Vec<RemoveSpec>,
    pub reorder_notes: Option<String>,
    pub position: Option<EditPosition>,
}

/// Where `edit --position` moves a queued row.
pub enum EditPosition {
    Front,
    Back,
    Before(String),
    After(String),
}

/// One `--remove field:selector`.
pub struct RemoveSpec {
    pub field: RemoveField,
    pub selector: String,
}

/// The lists `--remove` can take an item from.
#[derive(Clone, Copy, PartialEq, Eq, Structural, Debug)]
pub enum RemoveField {
    Note,
    Acceptance,
    Link,
    BlockedBy,
    Evidence,
}

/// The optional fields `--unset` can drop.
#[derive(Clone, Copy, PartialEq, Eq, Structural, Debug)]
pub enum UnsetField {
    Patch,
    Plan,
}

/// How `archive` says a task left the queue.
#[derive(Clone, Copy, PartialEq, Eq, Structural, Debug)]
pub enum Disposition {
    Completed,
    Dropped,
}

/// The word a disposition is written as.
pub open spec fn disposition_word(d: Disposition) -> Seq<char> {
    match d {
        Disposition::Completed => "completed"@,
        Disposition::Dropped => "dropped"@,
    }
}

impl Disposition {
    /// The word this disposition is written as.
    pub fn as_str(self) -> (word: &'static str)
        ensures
            word@ == disposition_word(self),
    {
        match self {
            Disposition::Completed => "completed",
            Disposition::Dropped => "dropped",
        }
    }
}

/// The kind a word names, or the complaint.
pub open spec fn kind_of(raw: Seq<char>) -> Result<Kind, Seq<char>> {
    if raw == "research"@ {
        Ok(Kind::Research)
    } else if raw == "evaluation"@ {
        Ok(Kind::Evaluation)
    } else if raw == "deferred"@ {
        Ok(Kind::Deferred)
    } else {
        Err("kind must be research, evaluation, or deferred (got "@ + raw + ")"@)
    }
}

/// `--kind`: research, evaluation, or deferred.
pub fn parse_kind(raw: &str) -> (res: Result<Kind, String>)
    ensures
        match res {
            Ok(k) => kind_of(raw@) == Ok::<Kind, Seq<char>>(k),
            Err(m) => kind_of(raw@) == Err::<Kind, Seq<char>>(m@),
        },
{
    let c = to_chars(raw);
    let research = to_chars("research");
    let evaluation = to_chars("evaluation");
    let deferred = to_chars("deferred");
    if crate::chars::same(c.as_slice(), research.as_slice()) {
        Ok(Kind::Research)
    } else if crate::chars::same(c.as_slice(), evaluation.as_slice()) {
        Ok(Kind::Evaluation)
    } else if crate::chars::same(c.as_slice(), deferred.as_slice()) {
        Ok(Kind::Deferred)
    } else {
        let mut m = to_chars("kind must be research, evaluation, or deferred (got ");
        crate::chars::extend(&mut m, c.as_slice());
        crate::chars::extend_str(&mut m, ")");
        Err(from_chars(m.as_slice()))
    }
}

pub open spec fn POSITION_RULE() -> Seq<char> {
    "position must be front, back, before:ID, or after:ID"@
}

/// The position a word names, or the complaint.
pub open spec fn position_of(raw: Seq<char>) -> Result<(nat, Seq<char>), Seq<char>> {
    if raw == "front"@ {
        Ok((0, Seq::empty()))
    } else if raw == "back"@ {
        Ok((1, Seq::empty()))
    } else {
        match split_once(raw, ':') {
            None => Err(POSITION_RULE()),
            Some((relation, id)) => if id.len() == 0 {
                Err("position needs an id after ':'"@)
            } else if relation == "before"@ {
                Ok((2, id))
            } else if relation == "after"@ {
                Ok((3, id))
            } else {
                Err(POSITION_RULE())
            },
        }
    }
}

/// A position as [`position_of`] describes it.
pub open spec fn position_view(p: EditPosition) -> (nat, Seq<char>) {
    match p {
        EditPosition::Front => (0, Seq::empty()),
        EditPosition::Back => (1, Seq::empty()),
        EditPosition::Before(id) => (2, id@),
        EditPosition::After(id) => (3, id@),
    }
}

/// `--position`: `front`, `back`, `before:ID`, or `after:ID`.
pub fn parse_position(raw: &str) -> (res: Result<EditPosition, String>)
    ensures
        match res {
            Ok(p) => position_of(raw@) == Ok::<(nat, Seq<char>), Seq<char>>(position_view(p)),
            Err(m) => position_of(raw@) == Err::<(nat, Seq<char>), Seq<char>>(m@),
        },
{
    let c = to_chars(raw);
    let front = to_chars("front");
    let back = to_chars("back");
    if crate::chars::same(c.as_slice(), front.as_slice()) {
        return Ok(EditPosition::Front);
    }
    if crate::chars::same(c.as_slice(), back.as_slice()) {
        return Ok(EditPosition::Back);
    }
    match split_once_at(c.as_slice(), ':') {
        None => Err(String::from_str("position must be front, back, before:ID, or after:ID")),
        Some((relation, id)) => {
            if id.len() == 0 {
                return Err(String::from_str("position needs an id after ':'"));
            }
            let before = to_chars("before");
            let after = to_chars("after");
            if crate::chars::same(relation.as_slice(), before.as_slice()) {
                Ok(EditPosition::Before(from_chars(id.as_slice())))
            } else if crate::chars::same(relation.as_slice(), after.as_slice()) {
                Ok(EditPosition::After(from_chars(id.as_slice())))
            } else {
                Err(String::from_str("position must be front, back, before:ID, or after:ID"))
            }
        },
    }
}

/// The list a `--remove` field word names.
pub open spec fn remove_field_of(word: Seq<char>) -> Option<RemoveField> {
    if word == "note"@ {
        Some(RemoveField::Note)
    } else if word == "acceptance"@ {
        Some(RemoveField::Acceptance)
    } else if word == "link"@ {
        Some(RemoveField::Link)
    } else if word == "blocked-by"@ {
        Some(RemoveField::BlockedBy)
    } else if word == "evidence"@ {
        Some(RemoveField::Evidence)
    } else {
        None
    }
}

/// The removal a `field:selector` names, or the complaint.
pub open spec fn removal_of(raw: Seq<char>) -> Result<(RemoveField, Seq<char>), Seq<char>> {
    match split_once(raw, ':') {
        None => Err("remove must be field:index or field:exact text"@),
        Some((field, selector)) => if selector.len() == 0 {
            Err("remove needs an index or exact text after ':'"@)
        } else {
            match remove_field_of(field) {
                Some(f) => Ok((f, selector)),
                None => Err("remove field must be note, acceptance, link, blocked-by, or evidence"@),
            }
        },
    }
}

/// `--remove`: `field:index` or `field:exact text`.
pub fn parse_remove(raw: &str) -> (res: Result<RemoveSpec, String>)
    ensures
        match res {
            Ok(r) => removal_of(raw@) == Ok::<(RemoveField, Seq<char>), Seq<char>>(
                (r.field, r.selector@),
            ),
            Err(m) => removal_of(raw@) == Err::<(RemoveField, Seq<char>), Seq<char>>(m@),
        },
{
    let c = to_chars(raw);
    match split_once_at(c.as_slice(), ':') {
        None => Err(String::from_str("remove must be field:index or field:exact text")),
        Some((field, selector)) => {
            if selector.len() == 0 {
                return Err(String::from_str("remove needs an index or exact text after ':'"));
            }
            let f = field.as_slice();
            let chosen = if crate::chars::same(f, to_chars("note").as_slice()) {
                Some(RemoveField::Note)
            } else if crate::chars::same(f, to_chars("acceptance").as_slice()) {
                Some(RemoveField::Acceptance)
            } else if crate::chars::same(f, to_chars("link").as_slice()) {
                Some(RemoveField::Link)
            } else if crate::chars::same(f, to_chars("blocked-by").as_slice()) {
                Some(RemoveField::BlockedBy)
            } else if crate::chars::same(f, to_chars("evidence").as_slice()) {
                Some(RemoveField::Evidence)
            } else {
                None
            };
            match chosen {
                Some(field) => Ok(RemoveSpec { field, selector: from_chars(selector.as_slice()) }),
                None => Err(String::from_str(
                    "remove field must be note, acceptance, link, blocked-by, or evidence",
                )),
            }
        },
    }
}

} // verus!
