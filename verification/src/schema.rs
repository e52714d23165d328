//! The ledger contract, stated once.
//!
//! These types are what a `tasks.yaml` is. The value rules a single field can
//! be judged by — an id's shape, a plan that stays in the repository, a zone
//! written as an offset — are spec functions here, each with the executable
//! check that is proved to decide it. Rules that need more than one row to
//! decide live in [`crate::ledger`].

use crate::chars::{ends_with, find, find_from, has_suffix, is_digit, lemma_find, slice, to_chars};
use vstd::prelude::*;

verus! {

/// The one version of this shape a ledger may declare. 4 made `notes` a list
/// on every row.
pub const VERSION: u32 = 4;

/// One repository's work queue.
pub struct Ledger {
    /// Ledger schema version, the one this qctl writes and accepts.
    pub schema_version: u32,
    /// Stable id prefix for this repository. Never encodes priority.
    pub prefix: String,
    /// How this ledger is written.
    pub style: Style,
    /// The one task currently being executed, or none when work is paused.
    pub active: Option<String>,
    /// Pending work in priority order.
    pub queue: Vec<QueuedTask>,
    /// Completed or deliberately dropped work, newest first.
    pub archive: Vec<ArchivedTask>,
    /// Mapped work that is not on the short-term queue.
    pub horizon: Vec<HorizonTask>,
}

/// A task on the queue.
pub struct QueuedTask {
    pub id: String,
    pub title: String,
    pub scope: String,
    pub outcome: String,
    /// Ids that must ship first. Each has to sit earlier in this queue.
    pub blocked_by: Vec<String>,
    /// What has to be demonstrably true to close it.
    pub acceptance: Vec<String>,
    pub patch: Option<String>,
    pub plan: Option<String>,
    pub links: Vec<String>,
    pub notes: Vec<String>,
}

/// A task that has left the queue, either shipped or deliberately dropped.
pub struct ArchivedTask {
    pub id: String,
    pub title: String,
    pub scope: String,
    /// The moment it left the queue, as `YYYY-MM-DDThh:mm:ss`.
    pub completed: String,
    pub outcome: String,
    pub evidence: Vec<String>,
    pub disposition: Option<Disposition>,
    pub patch: Option<String>,
    pub plan: Option<String>,
    pub links: Vec<String>,
    pub notes: Vec<String>,
}

/// Work that is mapped but has no place on the queue yet.
pub struct HorizonTask {
    pub id: String,
    pub title: String,
    pub scope: String,
    pub outcome: String,
    /// Why it is not on the queue.
    pub kind: Kind,
    /// The missing start condition, or the question that keeps it off.
    pub open: String,
    pub patch: Option<String>,
    pub plan: Option<String>,
    pub links: Vec<String>,
    pub notes: Vec<String>,
}

/// How a ledger is written, declared by the ledger itself.
pub struct Style {
    /// The fixed offset `completed` is written in.
    pub timezone: String,
    /// The order the lists appear in the file: all three, once each.
    pub section_order: Vec<Section>,
    /// How far a row is indented under its list's key.
    pub indent: u8,
    /// Whether `fmt` sorts the archive newest-first or leaves it as written.
    pub archive_order: ArchiveOrder,
    /// Whether a verb normalizes the whole file on the way out.
    pub normalize_on_write: bool,
}

impl Style {
    /// The style of a file that declares none: the shape qctl already wrote.
    pub fn default_style() -> (style: Style)
        ensures
            style.timezone@ == "+00:00"@,
            style.section_order@ == seq![Section::Queue, Section::Archive, Section::Horizon],
            style.indent == 2,
            style.archive_order == ArchiveOrder::NewestFirst,
            !style.normalize_on_write,
    {
        let mut order: Vec<Section> = Vec::new();
        order.push(Section::Queue);
        order.push(Section::Archive);
        order.push(Section::Horizon);
        Style {
            timezone: String::from_str("+00:00"),
            section_order: order,
            indent: 2,
            archive_order: ArchiveOrder::NewestFirst,
            normalize_on_write: false,
        }
    }
}

/// One of a ledger's three lists.
#[derive(Clone, Copy, PartialEq, Eq, Structural, Debug)]
pub enum Section {
    Queue,
    Archive,
    Horizon,
}

/// The key a list is written under.
pub open spec fn section_key(section: Section) -> Seq<char> {
    match section {
        Section::Queue => "queue"@,
        Section::Archive => "archive"@,
        Section::Horizon => "horizon"@,
    }
}

impl Section {
    /// The key this list is written under.
    pub fn key(&self) -> (key: &'static str)
        ensures
            key@ == section_key(*self),
    {
        match self {
            Section::Queue => "queue",
            Section::Archive => "archive",
            Section::Horizon => "horizon",
        }
    }
}

/// What order the archive is kept in.
#[derive(Clone, Copy, PartialEq, Eq, Structural, Debug)]
pub enum ArchiveOrder {
    /// Most recently completed first, which is what `check` requires.
    NewestFirst,
    /// However the file has them. `fmt` will not reorder rows.
    AsWritten,
}

impl ArchiveOrder {
    /// The value this order is written as.
    pub fn key(&self) -> (key: &'static str)
        ensures
            key@ == (match *self {
                ArchiveOrder::NewestFirst => "newest_first"@,
                ArchiveOrder::AsWritten => "as_written"@,
            }),
    {
        match self {
            ArchiveOrder::NewestFirst => "newest_first",
            ArchiveOrder::AsWritten => "as_written",
        }
    }
}

/// How a task left the queue.
#[derive(Clone, Copy, PartialEq, Eq, Structural, Debug)]
pub enum Disposition {
    /// The outcome was reached.
    Completed,
    /// The task was abandoned on purpose, and the row says why.
    Dropped,
}

/// Why a task sits on the horizon instead of the queue.
#[derive(Clone, Copy, PartialEq, Eq, Structural, Debug)]
pub enum Kind {
    /// Facts are missing.
    Research,
    /// The options are known, but nothing says when to choose.
    Evaluation,
    /// The start condition is explicit and not met.
    Deferred,
}

/// The word a kind is written as.
pub open spec fn kind_word(kind: Kind) -> Seq<char> {
    match kind {
        Kind::Research => "research"@,
        Kind::Evaluation => "evaluation"@,
        Kind::Deferred => "deferred"@,
    }
}

impl Kind {
    /// The word this kind is written as.
    pub fn word(&self) -> (word: &'static str)
        ensures
            word@ == kind_word(*self),
    {
        match self {
            Kind::Research => "research",
            Kind::Evaluation => "evaluation",
            Kind::Deferred => "deferred",
        }
    }
}

/// `A`–`Z`.
pub open spec fn is_upper(c: char) -> bool {
    65 <= (c as u32) <= 90
}

/// `a`–`z`.
pub open spec fn is_lower(c: char) -> bool {
    97 <= (c as u32) <= 122
}

/// A repository's id prefix: `^[A-Z][A-Z0-9]{1,7}$`.
pub open spec fn is_prefix(s: Seq<char>) -> bool {
    &&& 2 <= s.len() <= 8
    &&& is_upper(s[0])
    &&& forall|k: int| 1 <= k < s.len() ==> is_upper(#[trigger] s[k]) || is_digit(s[k])
}

/// A task id: `^[A-Z][A-Z0-9]{1,7}-[0-9]{3,}$`.
pub open spec fn is_task_id(s: Seq<char>) -> bool {
    match find(s, '-') {
        Some(i) => {
            let rest = s.skip(i + 1);
            &&& is_prefix(s.take(i))
            &&& rest.len() >= 3
            &&& forall|k: int| 0 <= k < rest.len() ==> is_digit(#[trigger] rest[k])
        },
        None => false,
    }
}

/// A changeset name, which is a file stem on disk: `^[a-z][a-z0-9-]*$`.
pub open spec fn is_patch_name(s: Seq<char>) -> bool {
    &&& s.len() >= 1
    &&& is_lower(s[0])
    &&& forall|k: int| 1 <= k < s.len() ==> is_lower(#[trigger] s[k]) || is_digit(s[k]) || s[k] == '-'
}

/// Whether every character in `s[from..to]` is an ASCII digit.
pub open spec fn digits_between(s: Seq<char>, from: int, to: int) -> bool {
    forall|k: int| from <= k < to ==> is_digit(#[trigger] s[k])
}

/// A moment to the second, `YYYY-MM-DDThh:mm:ss`, written the one way a stamp
/// is written.
pub open spec fn is_instant_shape(s: Seq<char>) -> bool {
    &&& s.len() == 19
    &&& digits_between(s, 0, 4)
    &&& s[4] == '-'
    &&& digits_between(s, 5, 7)
    &&& s[7] == '-'
    &&& digits_between(s, 8, 10)
    &&& s[10] == 'T'
    &&& digits_between(s, 11, 13)
    &&& s[13] == ':'
    &&& digits_between(s, 14, 16)
    &&& s[16] == ':'
    &&& digits_between(s, 17, 19)
}

/// A fixed offset from UTC: `^[+-][0-9]{2}:[0-9]{2}$`.
pub open spec fn is_zone(s: Seq<char>) -> bool {
    &&& s.len() == 6
    &&& (s[0] == '+' || s[0] == '-')
    &&& digits_between(s, 1, 3)
    &&& s[3] == ':'
    &&& digits_between(s, 4, 6)
}

pub fn char_is_upper(c: char) -> (res: bool)
    ensures
        res == is_upper(c),
{
    let u = c as u32;
    65 <= u && u <= 90
}

pub fn char_is_lower(c: char) -> (res: bool)
    ensures
        res == is_lower(c),
{
    let u = c as u32;
    97 <= u && u <= 122
}

pub fn char_is_digit(c: char) -> (res: bool)
    ensures
        res == is_digit(c),
{
    let u = c as u32;
    48 <= u && u <= 57
}

/// Whether every character in `s[from..to]` is an ASCII digit.
pub fn all_digits(s: &[char], from: usize, to: usize) -> (res: bool)
    requires
        from <= to <= s@.len(),
    ensures
        res == digits_between(s@, from as int, to as int),
{
    let mut i = from;
    while i < to
        invariant
            from <= i <= to <= s@.len(),
            digits_between(s@, from as int, i as int),
        decreases to - i,
    {
        if !char_is_digit(s[i]) {
            return false;
        }
        i = i + 1;
    }
    true
}

/// Whether the text is a repository's id prefix.
pub fn prefix_is_valid(s: &[char]) -> (res: bool)
    ensures
        res == is_prefix(s@),
{
    if s.len() < 2 || s.len() > 8 || !char_is_upper(s[0]) {
        return false;
    }
    let mut i: usize = 1;
    while i < s.len()
        invariant
            1 <= i <= s@.len(),
            forall|k: int| 1 <= k < i ==> is_upper(#[trigger] s@[k]) || is_digit(s@[k]),
        decreases s@.len() - i,
    {
        if !(char_is_upper(s[i]) || char_is_digit(s[i])) {
            return false;
        }
        i = i + 1;
    }
    true
}

/// Whether the text is a task id.
pub fn task_id_is_valid(s: &[char]) -> (res: bool)
    ensures
        res == is_task_id(s@),
{
    proof {
        assert(s@.skip(0) == s@);
    }
    match find_from(s, 0, '-') {
        Some(i) => {
            let head = slice(s, 0, i);
            let ok = prefix_is_valid(head.as_slice()) && s.len() - (i + 1) >= 3 && all_digits(
                s,
                i + 1,
                s.len(),
            );
            proof {
                let rest = s@.skip(i + 1);
                assert(head@ == s@.take(i as int));
                assert(digits_between(s@, i + 1, s@.len() as int) <==> forall|k: int|
                    0 <= k < rest.len() ==> is_digit(#[trigger] rest[k])) by {
                    if digits_between(s@, i + 1, s@.len() as int) {
                        assert forall|k: int| 0 <= k < rest.len() implies is_digit(
                            #[trigger] rest[k],
                        ) by {
                            assert(rest[k] == s@[k + i + 1]);
                        }
                    }
                    if forall|k: int| 0 <= k < rest.len() ==> is_digit(#[trigger] rest[k]) {
                        assert forall|k: int| i + 1 <= k < s@.len() implies is_digit(
                            #[trigger] s@[k],
                        ) by {
                            assert(rest[k - i - 1] == s@[k]);
                        }
                    }
                }
            }
            ok
        },
        None => false,
    }
}

/// Whether the text is a changeset name.
pub fn patch_name_is_valid(s: &[char]) -> (res: bool)
    ensures
        res == is_patch_name(s@),
{
    if s.len() < 1 || !char_is_lower(s[0]) {
        return false;
    }
    let mut i: usize = 1;
    while i < s.len()
        invariant
            1 <= i <= s@.len(),
            forall|k: int|
                1 <= k < i ==> is_lower(#[trigger] s@[k]) || is_digit(s@[k]) || s@[k] == '-',
        decreases s@.len() - i,
    {
        if !(char_is_lower(s[i]) || char_is_digit(s[i]) || s[i] == '-') {
            return false;
        }
        i = i + 1;
    }
    true
}

/// Whether the text has the shape of a stamp.
pub fn instant_shape_is_valid(s: &[char]) -> (res: bool)
    ensures
        res == is_instant_shape(s@),
{
    s.len() == 19 && all_digits(s, 0, 4) && s[4] == '-' && all_digits(s, 5, 7) && s[7] == '-'
        && all_digits(s, 8, 10) && s[10] == 'T' && all_digits(s, 11, 13) && s[13] == ':'
        && all_digits(s, 14, 16) && s[16] == ':' && all_digits(s, 17, 19)
}

/// Whether the text is a fixed offset from UTC.
pub fn zone_is_valid(s: &[char]) -> (res: bool)
    ensures
        res == is_zone(s@),
{
    s.len() == 6 && (s[0] == '+' || s[0] == '-') && all_digits(s, 1, 3) && s[3] == ':'
        && all_digits(s, 4, 6)
}

/// The path split at `/`, as the segments between separators.
pub open spec fn segments(s: Seq<char>) -> Seq<Seq<char>>
    decreases s.len(),
{
    match find(s, '/') {
        Some(i) => {
            if 0 <= i < s.len() {
                seq![s.take(i)] + segments(s.skip(i + 1))
            } else {
                seq![s]
            }
        },
        None => seq![s],
    }
}

/// The last segment that names something: not empty and not `.`, which a
/// path's components skip.
pub open spec fn last_name(segs: Seq<Seq<char>>) -> Option<Seq<char>>
    decreases segs.len(),
{
    if segs.len() == 0 {
        None
    } else if segs.last().len() == 0 || segs.last() == seq!['.'] {
        last_name(segs.drop_last())
    } else {
        Some(segs.last())
    }
}

/// Whether a file name's extension, as `Path::extension` reads it, is `md`:
/// there is a non-empty stem before the final `.md`.
pub open spec fn has_md_extension(name: Seq<char>) -> bool {
    name.len() > 3 && ends_with(name, seq!['.', 'm', 'd']) && name != seq!['.', '.']
}

/// Somewhere this repository may point: relative, never upward out of the
/// tree, and a markdown document.
pub open spec fn is_inside_the_repo(path: Seq<char>) -> bool {
    &&& !(path.len() > 0 && path[0] == '/')
    &&& forall|k: int| 0 <= k < segments(path).len() ==> #[trigger] segments(path)[k] != seq!['.', '.']
    &&& match last_name(segments(path)) {
        Some(name) => has_md_extension(name),
        None => false,
    }
}

/// What is wrong with a plan path, if anything: `None` when the repository
/// may point there.
pub open spec fn plan_complaint(path: Seq<char>) -> Option<Seq<char>> {
    if (path.len() > 0 && path[0] == '/') || exists|k: int|
        0 <= k < segments(path).len() && #[trigger] segments(path)[k] == seq!['.', '.'] {
        Some("must stay inside the repository"@)
    } else if !is_inside_the_repo(path) {
        Some("must be a markdown document"@)
    } else {
        None
    }
}

/// The segments of a path between `/` separators.
pub fn split_segments(s: &[char]) -> (out: Vec<Vec<char>>)
    ensures
        out@.map_values(|v: Vec<char>| v@) == segments(s@),
{
    let mut out: Vec<Vec<char>> = Vec::new();
    let mut from: usize = 0;
    let n = s.len();
    assert(s@.skip(0) =~= s@);
    assert(out@.map_values(|v: Vec<char>| v@) =~= Seq::<Seq<char>>::empty());
    loop
        invariant
            from <= s@.len(),
            n == s@.len(),
            segments(s@) == out@.map_values(|v: Vec<char>| v@) + segments(s@.skip(from as int)),
        decreases s@.len() - from,
    {
        let ghost rest = s@.skip(from as int);
        proof {
            lemma_find(rest, '/');
        }
        let ghost before = out@;
        match find_from(s, from, '/') {
            Some(i) => {
                let part = slice(s, from, i);
                out.push(part);
                proof {
                    assert(rest.take(i - from) == part@);
                    assert(rest.skip(i - from + 1) == s@.skip(i + 1));
                    assert(out@.map_values(|v: Vec<char>| v@) == before.map_values(
                        |v: Vec<char>| v@,
                    ).push(part@));
                }
                from = i + 1;
            },
            None => {
                let part = slice(s, from, s.len());
                out.push(part);
                proof {
                    assert(part@ == rest);
                    assert(out@.map_values(|v: Vec<char>| v@) == before.map_values(
                        |v: Vec<char>| v@,
                    ).push(part@));
                    assert(out@.map_values(|v: Vec<char>| v@) =~= before.map_values(
                        |v: Vec<char>| v@,
                    ) + seq![rest]);
                }
                return out;
            },
        }
    }
}

/// Whether a segment is `..`.
fn is_parent(seg: &Vec<char>) -> (res: bool)
    ensures
        res == (seg@ == seq!['.', '.']),
{
    let res = seg.len() == 2 && seg[0] == '.' && seg[1] == '.';
    proof {
        if res {
            assert(seg@ =~= seq!['.', '.']);
        }
    }
    res
}

/// Whether a segment is skipped when naming a file: empty or `.`.
fn is_skipped(seg: &Vec<char>) -> (res: bool)
    ensures
        res == (seg@.len() == 0 || seg@ == seq!['.']),
{
    let res = seg.len() == 0 || (seg.len() == 1 && seg[0] == '.');
    proof {
        if seg.len() == 1 && seg[0] == '.' {
            assert(seg@ =~= seq!['.']);
        }
    }
    res
}

/// What is wrong with a plan path, if anything.
pub fn inside_the_repo(path: &str) -> (res: Option<String>)
    ensures
        match res {
            Some(m) => plan_complaint(path@) == Some(m@),
            None => plan_complaint(path@) is None,
        },
{
    let s = to_chars(path);
    let segs = split_segments(s.as_slice());
    let ghost views = segs@.map_values(|v: Vec<char>| v@);
    let mut upward = false;
    let mut i: usize = 0;
    while i < segs.len()
        invariant
            i <= segs@.len(),
            views == segs@.map_values(|v: Vec<char>| v@),
            views == segments(s@),
            upward == exists|k: int| 0 <= k < i && #[trigger] views[k] == seq!['.', '.'],
        decreases segs@.len() - i,
    {
        proof {
            assert(views[i as int] == segs@[i as int]@);
        }
        if is_parent(&segs[i]) {
            upward = true;
        }
        i = i + 1;
    }
    if (s.len() > 0 && s[0] == '/') || upward {
        return Some(String::from_str("must stay inside the repository"));
    }
    // The file name is the last segment that names something.
    let mut j: usize = segs.len();
    assert(views.take(segs@.len() as int) =~= views);
    while j > 0 && is_skipped(&segs[j - 1])
        invariant
            j <= segs@.len(),
            views == segs@.map_values(|v: Vec<char>| v@),
            last_name(views.take(j as int)) == last_name(views),
        decreases j,
    {
        proof {
            assert(views.take(j as int).drop_last() == views.take(j - 1));
            assert(views.take(j as int).last() == segs@[j - 1]@);
        }
        j = j - 1;
    }
    proof {
        assert(views.take(segs@.len() as int) == views);
    }
    if j == 0 {
        proof {
            assert(views.take(0) =~= Seq::<Seq<char>>::empty());
        }
        return Some(String::from_str("must be a markdown document"));
    }
    proof {
        assert(views.take(j as int).last() == segs@[j - 1]@);
    }
    let name = &segs[j - 1];
    let md: [char; 3] = ['.', 'm', 'd'];
    let ext = name.len() > 3 && has_suffix(name.as_slice(), md.as_slice());
    proof {
        assert(md@ =~= seq!['.', 'm', 'd']);
        if name@ == seq!['.', '.'] {
            assert(name@.len() == 2);
        }
    }
    if !ext {
        return Some(String::from_str("must be a markdown document"));
    }
    None
}

/// How a stamp is written: `time`'s format description for it.
pub const STAMP_FORMAT: &'static str = "[year]-[month]-[day]T[hour]:[minute]:[second]";

/// Whether the `time` crate reads this text, against this format
/// description, as a moment the calendar has.
pub uninterp spec fn calendar_moment(text: Seq<char>, description: Seq<char>) -> bool;

/// `time::PrimitiveDateTime::parse` against a format description: whether
/// the calendar has this moment. A description `time` cannot read gives
/// `false`. The claim is only that the answer is a function of the two
/// texts; which texts pass is the `time` crate's business.
#[verifier::external_body]
pub(crate) fn is_a_real_instant(value: &str, description: &str) -> (res: bool)
    ensures
        res == calendar_moment(value@, description@),
{
    match time::format_description::parse(description) {
        Ok(format) => time::PrimitiveDateTime::parse(value, &format).is_ok(),
        Err(_) => false,
    }
}

} // verus!
