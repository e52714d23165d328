//! What the YAML parser and the patcher report about a text, and how their
//! byte offsets become character offsets.
//!
//! The parser's answers are named, not restated: a route's span in a text is
//! whatever `yamlpath` says it is, and the same text and route always give the
//! same answer. Everything built on them is proved against these names.

use crate::chars::from_chars;
use vstd::prelude::*;
use yamlpatch::{apply_yaml_patches, Op, Patch};
use yamlpath::{Document as Parsed, Route};

verus! {

/// One step of a route into a YAML document: a mapping key or a list index.
pub enum Step {
    Key(String),
    Index(usize),
}

/// A route step as a value.
pub enum StepView {
    Key(Seq<char>),
    Index(nat),
}

impl View for Step {
    type V = StepView;

    open spec fn view(&self) -> StepView {
        match self {
            Step::Key(k) => StepView::Key(k@),
            Step::Index(i) => StepView::Index(*i as nat),
        }
    }
}

/// A route as values.
pub open spec fn route_view(route: Seq<Step>) -> Seq<StepView> {
    route.map_values(|s: Step| s@)
}

/// A scalar a patch writes.
pub enum Scalar {
    Null,
    Text(String),
    Number(u32),
}

/// A scalar as a value.
pub enum ScalarView {
    Null,
    Text(Seq<char>),
    Number(nat),
}

impl View for Scalar {
    type V = ScalarView;

    open spec fn view(&self) -> ScalarView {
        match self {
            Scalar::Null => ScalarView::Null,
            Scalar::Text(t) => ScalarView::Text(t@),
            Scalar::Number(n) => ScalarView::Number(*n as nat),
        }
    }
}

/// What a patch does at its route: write a scalar there, or drop the key.
pub enum Edit {
    Replace(Scalar),
    Remove,
}

/// A patch operation as a value.
pub enum EditView {
    Replace(ScalarView),
    Remove,
}

impl View for Edit {
    type V = EditView;

    open spec fn view(&self) -> EditView {
        match self {
            Edit::Replace(s) => EditView::Replace(s@),
            Edit::Remove => EditView::Remove,
        }
    }
}

/// Whether `yamlpath` accepts the text as YAML it can follow.
pub uninterp spec fn yaml_reads(source: Seq<char>) -> bool;

/// The byte span `yamlpath` reports for the exact value at a route: `Ok(None)`
/// when the route names a key with no value, `Err` when the text does not
/// parse or the route leads nowhere.
pub uninterp spec fn exact_span(source: Seq<char>, route: Seq<StepView>) -> Result<Option<(usize, usize)>, ()>;

/// The byte span `yamlpath` reports for the key at a route ending in a key.
pub uninterp spec fn key_span(source: Seq<char>, route: Seq<StepView>) -> Result<(usize, usize), ()>;

/// The text `yamlpatch` makes by applying one edit at a route.
pub uninterp spec fn patched(source: Seq<char>, route: Seq<StepView>, edit: EditView) -> Result<Seq<char>, ()>;

/// `yamlpath::Document::new`: whether the parser accepts the text.
#[verifier::external_body]
pub(crate) fn reads(source: &str) -> (res: bool)
    ensures
        res == yaml_reads(source@),
{
    Parsed::new(source).is_ok()
}

/// `yamlpath::Document::query_exact`, on the text as `Document::new` parses
/// it: the byte span of the value at the route. A text the parser refuses
/// answers `Err` to every route.
#[verifier::external_body]
pub(crate) fn query_exact(source: &str, route: &Vec<Step>) -> (res: Result<Option<(usize, usize)>, ()>)
    ensures
        res == exact_span(source@, route_view(route@)),
        !yaml_reads(source@) ==> res is Err,
{
    let parsed = Parsed::new(source).map_err(drop)?;
    let route: Vec<_> = route.iter().map(|s| match s { Step::Key(k) => k.as_str().into(), Step::Index(i) => (*i).into() }).collect();
    let found = parsed.query_exact(&Route::from(route)).map_err(drop)?;
    Ok(found.map(|feature| feature.location.byte_span))
}

/// `yamlpath::Document::query_key_only`, on the text as `Document::new`
/// parses it: the byte span of the key a route ends in. A text the parser
/// refuses answers `Err` to every route.
#[verifier::external_body]
pub(crate) fn query_key(source: &str, route: &Vec<Step>) -> (res: Result<(usize, usize), ()>)
    ensures
        res == key_span(source@, route_view(route@)),
        !yaml_reads(source@) ==> res is Err,
{
    let parsed = Parsed::new(source).map_err(drop)?;
    let route: Vec<_> = route.iter().map(|s| match s { Step::Key(k) => k.as_str().into(), Step::Index(i) => (*i).into() }).collect();
    let found = parsed.query_key_only(&Route::from(route)).map_err(drop)?;
    Ok(found.location.byte_span)
}

/// A text an outside call produced, or its failure, with the text taken as
/// characters.
pub open spec fn produced(res: Result<String, ()>) -> Result<Seq<char>, ()> {
    match res {
        Ok(t) => Ok(t@),
        Err(()) => Err(()),
    }
}

/// `yamlpatch::apply_yaml_patches` with one patch, on the text as
/// `yamlpath::Document::new` parses it: the edited text. A text the parser
/// refuses is not patched.
#[verifier::external_body]
pub(crate) fn apply_patch(source: &str, route: &Vec<Step>, edit: &Edit) -> (res: Result<String, ()>)
    ensures
        produced(res) == patched(source@, route_view(route@), edit@),
        !yaml_reads(source@) ==> res is Err,
{
    let operation = match edit {
        Edit::Remove => Op::Remove,
        Edit::Replace(v) => Op::Replace(match v { Scalar::Null => Default::default(), Scalar::Text(t) => t.as_str().into(), Scalar::Number(n) => (*n).into() }),
    };
    let route: Vec<_> = route.iter().map(|s| match s { Step::Key(k) => k.as_str().into(), Step::Index(i) => (*i).into() }).collect();
    let patch = Patch { route: Route::from(route), operation };
    let done = apply_yaml_patches(&Parsed::new(source).map_err(drop)?, &[patch]).map_err(drop)?;
    Ok(done.source().into())
}



/// How many bytes UTF-8 spends on a character.
pub open spec fn width(c: char) -> nat {
    if (c as u32) < 0x80 {
        1
    } else if (c as u32) < 0x800 {
        2
    } else if (c as u32) < 0x10000 {
        3
    } else {
        4
    }
}

/// How many bytes UTF-8 spends on a text.
pub open spec fn byte_len(s: Seq<char>) -> nat
    decreases s.len(),
{
    if s.len() == 0 {
        0
    } else {
        byte_len(s.drop_last()) + width(s.last())
    }
}

/// Each character more costs at least one byte.
pub proof fn lemma_byte_len_grows(s: Seq<char>, i: int, j: int)
    requires
        0 <= i < j <= s.len(),
    ensures
        byte_len(s.take(i)) < byte_len(s.take(j)),
    decreases j - i,
{
    assert(s.take(j).drop_last() == s.take(j - 1));
    if i < j - 1 {
        lemma_byte_len_grows(s, i, j - 1);
    }
}

/// The character offset at which `b` bytes of the text have gone by, if a
/// character starts there.
pub open spec fn char_index(s: Seq<char>, b: int) -> Option<int> {
    if exists|c: int| 0 <= c <= s.len() && byte_len(#[trigger] s.take(c)) == b {
        Some(choose|c: int| 0 <= c <= s.len() && byte_len(#[trigger] s.take(c)) == b)
    } else {
        None
    }
}

/// A character offset lies within the text.
pub proof fn lemma_char_index_bound(s: Seq<char>, b: int)
    ensures
        char_index(s, b) matches Some(c) ==> 0 <= c <= s.len() && byte_len(s.take(c)) == b,
{
}

/// At most one character offset has `b` bytes before it.
pub proof fn lemma_char_index(s: Seq<char>, b: int, c: int)
    requires
        0 <= c <= s.len(),
        byte_len(s.take(c)) == b,
    ensures
        char_index(s, b) == Some(c),
{
    let d = choose|d: int| 0 <= d <= s.len() && byte_len(#[trigger] s.take(d)) == b;
    if d < c {
        lemma_byte_len_grows(s, d, c);
    } else if c < d {
        lemma_byte_len_grows(s, c, d);
    }
}

/// How many bytes UTF-8 spends on a character.
fn char_width(c: char) -> (n: usize)
    ensures
        n == width(c),
{
    if (c as u32) < 0x80 {
        1
    } else if (c as u32) < 0x800 {
        2
    } else if (c as u32) < 0x10000 {
        3
    } else {
        4
    }
}

/// The character offset at which `b` bytes of the text have gone by.
pub fn char_offset(s: &[char], b: usize) -> (res: Option<usize>)
    ensures
        match res {
            Some(c) => char_index(s@, b as int) == Some(c as int),
            None => char_index(s@, b as int) is None,
        },
{
    let mut c: usize = 0;
    let mut bytes: usize = 0;
    loop
        invariant
            c <= s@.len(),
            bytes == byte_len(s@.take(c as int)),
            bytes <= b,
            forall|k: int| 0 <= k < c ==> byte_len(#[trigger] s@.take(k)) < b,
        decreases s@.len() - c,
    {
        if bytes == b {
            proof {
                lemma_char_index(s@, b as int, c as int);
            }
            return Some(c);
        }
        if c == s.len() {
            proof {
                assert forall|k: int| 0 <= k <= s@.len() implies byte_len(#[trigger] s@.take(k)) != b by {
                    if k == c {
                    } else {
                    }
                }
            }
            return None;
        }
        let w = char_width(s[c]);
        proof {
            assert(s@.take(c + 1).drop_last() == s@.take(c as int));
            assert(s@.take(c + 1).last() == s@[c as int]);
        }
        if w > b - bytes {
            proof {
                assert forall|k: int| 0 <= k <= s@.len() implies byte_len(#[trigger] s@.take(k)) != b by {
                    if k > c + 1 {
                        lemma_byte_len_grows(s@, c + 1, k);
                    }
                }
            }
            return None;
        }
        bytes = bytes + w;
        c = c + 1;
    }
}

/// A route's exact span in characters, as the parser reports it in bytes.
/// A span that does not fall on character boundaries is no span at all.
pub open spec fn exact_chars(s: Seq<char>, route: Seq<StepView>) -> Result<Option<(int, int)>, ()> {
    match exact_span(s, route) {
        Err(()) => Err(()),
        Ok(None) => Ok(None),
        Ok(Some((a, b))) => match (char_index(s, a as int), char_index(s, b as int)) {
            (Some(x), Some(y)) => if x <= y {
                Ok(Some((x, y)))
            } else {
                Err(())
            },
            _ => Err(()),
        },
    }
}

/// A key's span in characters, as the parser reports it in bytes.
pub open spec fn key_chars(s: Seq<char>, route: Seq<StepView>) -> Result<(int, int), ()> {
    match key_span(s, route) {
        Err(()) => Err(()),
        Ok((a, b)) => match (char_index(s, a as int), char_index(s, b as int)) {
            (Some(x), Some(y)) => if x <= y {
                Ok((x, y))
            } else {
                Err(())
            },
            _ => Err(()),
        },
    }
}

/// A byte span as a character span, when both ends fall on characters in
/// order.
fn to_chars_span(s: &[char], span: (usize, usize)) -> (res: Option<(usize, usize)>)
    ensures
        match res {
            Some((x, y)) => char_index(s@, span.0 as int) == Some(x as int) && char_index(s@, span.1 as int)
                == Some(y as int) && x <= y <= s@.len(),
            None => !(char_index(s@, span.0 as int) is Some && char_index(s@, span.1 as int) is Some
                && char_index(s@, span.0 as int)->0 <= char_index(s@, span.1 as int)->0),
        },
{
    proof {
        lemma_char_index_bound(s@, span.0 as int);
        lemma_char_index_bound(s@, span.1 as int);
    }
    match (char_offset(s, span.0), char_offset(s, span.1)) {
        (Some(x), Some(y)) => if x <= y {
            Some((x, y))
        } else {
            None
        },
        _ => None,
    }
}

/// The exact span of the value at a route, in characters.
pub fn exact(s: &Vec<char>, route: &Vec<Step>) -> (res: Result<Option<(usize, usize)>, ()>)
    ensures
        match res {
            Ok(Some((x, y))) => exact_chars(s@, route_view(route@)) == Ok::<Option<(int, int)>, ()>(
                Some((x as int, y as int)),
            ),
            Ok(None) => exact_chars(s@, route_view(route@)) == Ok::<Option<(int, int)>, ()>(None),
            Err(()) => exact_chars(s@, route_view(route@)) is Err,
        },
        !yaml_reads(s@) ==> res is Err,
        match res {
            Ok(Some((x, y))) => x <= y <= s@.len(),
            _ => true,
        },
{
    let text = from_chars(s.as_slice());
    match query_exact(text.as_str(), route) {
        Err(()) => Err(()),
        Ok(None) => Ok(None),
        Ok(Some(span)) => match to_chars_span(s.as_slice(), span) {
            Some(chars) => Ok(Some(chars)),
            None => Err(()),
        },
    }
}

/// The span of the key a route ends in, in characters.
pub fn key(s: &Vec<char>, route: &Vec<Step>) -> (res: Result<(usize, usize), ()>)
    ensures
        match res {
            Ok((x, y)) => key_chars(s@, route_view(route@)) == Ok::<(int, int), ()>((x as int, y as int))
                && x <= y <= s@.len(),
            Err(()) => key_chars(s@, route_view(route@)) is Err,
        },
        !yaml_reads(s@) ==> res is Err,
{
    let text = from_chars(s.as_slice());
    match query_key(text.as_str(), route) {
        Err(()) => Err(()),
        Ok(span) => match to_chars_span(s.as_slice(), span) {
            Some(chars) => Ok(chars),
            None => Err(()),
        },
    }
}

} // verus!
