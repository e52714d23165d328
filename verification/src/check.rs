//! What `check` reports: every problem the schema, the graph, and the commit
//! history show, in one pass.

use crate::chars::{extend, extend_str, from_chars, join, join_chars, texts, to_chars, views};
use crate::mutate::{closing, closing_ids, pair_views, queue_ids};
use crate::report::Report;
use crate::ledger::corpus::{claims, corpus_numbers, duplicated_ids};
use crate::ledger::{declared_version_of, graph, graph_errors, plans, stale_schema_for, stale_schema_spec, declared_version};
use crate::schema::Ledger;
use self::SchemaStage::{Compile, Convert, Instance, Schema};
use vstd::prelude::*;

verus! {

/// What scanning the commit history for trailers came to: it failed, it was
/// skipped because the ledger is not in the current repository, or it found
/// these closed ids with the commits that closed them.
pub enum TrailerScan {
    Failed(String),
    Skipped,
    Closed(Vec<(String, String)>),
}

/// The skip notice when the ledger is not in the repository being checked.
pub open spec fn SKIPPED() -> Seq<char> {
    "git trailer scan skipped: ledger is not in the current repository; pass --no-git"@
}

/// One queued id a commit already closed.
pub open spec fn still_queued(id: Seq<char>, sha: Seq<char>) -> Seq<char> {
    id + " is closed by "@ + sha + " but still queued; archive it (Closes/Completes trailer)"@
}

/// The trailer problems `check` reports: the scan's failure or skip, or each
/// queued id some commit closed, once, with the first commit that closed it.
pub open spec fn trailer_problems(l: Ledger, scan: TrailerScan) -> Seq<Seq<char>> {
    match scan {
        TrailerScan::Failed(e) => seq!["git trailer scan failed: "@ + e@],
        TrailerScan::Skipped => seq![SKIPPED()],
        TrailerScan::Closed(found) => closing(queue_ids(l), pair_views(found@)).map_values(
            |p: (Seq<char>, Seq<char>)| still_queued(p.0, p.1),
        ),
    }
}

/// The trailer problems `check` reports.
pub fn trailer_errors(l: &Ledger, scan: &TrailerScan) -> (out: Vec<String>)
    ensures
        views(out@) == trailer_problems(*l, *scan),
{
    match scan {
        TrailerScan::Failed(e) => {
            let mut m = to_chars("git trailer scan failed: ");
            extend_str(&mut m, e.as_str());
            let out = vec![from_chars(m.as_slice())];
            assert(views(out@) =~= trailer_problems(*l, *scan));
            out
        },
        TrailerScan::Skipped => {
            let out = vec![String::from_str(
                "git trailer scan skipped: ledger is not in the current repository; pass --no-git",
            )];
            assert(views(out@) =~= trailer_problems(*l, *scan));
            out
        },
        TrailerScan::Closed(found) => {
            let picked = closing_ids(l, found);
            let ghost pv = pair_views(picked@);
            let mut out: Vec<String> = Vec::new();
            let mut i: usize = 0;
            while i < picked.len()
                invariant
                    i <= picked@.len(),
                    pv == pair_views(picked@),
                    views(out@) == pv.map_values(|p: (Seq<char>, Seq<char>)| still_queued(p.0, p.1)).take(i as int),
                decreases picked@.len() - i,
            {
                let mut m = to_chars(picked[i].0.as_str());
                extend_str(&mut m, " is closed by ");
                extend_str(&mut m, picked[i].1.as_str());
                extend_str(&mut m, " but still queued; archive it (Closes/Completes trailer)");
                let ghost before = out@;
                out.push(from_chars(m.as_slice()));
                proof {
                    assert(views(out@) =~= views(before).push(still_queued(pv[i as int].0, pv[i as int].1)));
                    assert(pv.map_values(|p: (Seq<char>, Seq<char>)| still_queued(p.0, p.1)).take(i + 1) =~= pv.map_values(
                        |p: (Seq<char>, Seq<char>)| still_queued(p.0, p.1),
                    ).take(i as int).push(still_queued(pv[i as int].0, pv[i as int].1)));
                }
                i = i + 1;
            }
            assert(pv.map_values(|p: (Seq<char>, Seq<char>)| still_queued(p.0, p.1)).take(picked@.len() as int)
                == pv.map_values(|p: (Seq<char>, Seq<char>)| still_queued(p.0, p.1)));
            out
        },
    }
}

/// Where holding a text against a JSON Schema stopped: the text did not read
/// as YAML, it did not convert to JSON, the schema did not read as JSON, or
/// the schema did not compile.
#[derive(Clone, Copy, Debug, PartialEq, Eq, Structural)]
pub enum SchemaStage {
    Instance,
    Convert,
    Schema,
    Compile,
}

/// What `jsonschema` reports of a YAML text held against a JSON Schema text:
/// one finding per violation, its instance path and its message, or where
/// the check stopped and the outside error's message.
pub uninterp spec fn schema_findings(instance: Seq<char>, schema: Seq<char>) -> Result<Seq<(Seq<char>, Seq<char>)>, (SchemaStage, Seq<char>)>;

/// `serde_yml::from_str` of the instance, `serde_json::to_value` of it,
/// `serde_json::from_str` of the schema, then `jsonschema` with formats
/// checked: each violation as its instance path and its message.
#[verifier::external_body]
pub(crate) fn validate_against(instance: &str, schema: &str) -> (res: Result<Vec<(String, String)>, (SchemaStage, String)>)
    ensures
        match res {
            Ok(found) => schema_findings(instance@, schema@) == Ok::<Seq<(Seq<char>, Seq<char>)>, (SchemaStage, Seq<char>)>(pair_views(found@)),
            Err((stage, m)) => schema_findings(instance@, schema@) == Err::<Seq<(Seq<char>, Seq<char>)>, (SchemaStage, Seq<char>)>((stage, m@)),
        },
{
    let yaml: serde_yml::Value = serde_yml::from_str(instance).map_err(|e| (Instance, e.to_string()))?;
    let value = serde_json::to_value(yaml).map_err(|e| (Convert, e.to_string()))?;
    let schema: serde_json::Value = serde_json::from_str(schema).map_err(|e| (Schema, e.to_string()))?;
    let validator = jsonschema::options().should_validate_formats(true).build(&schema).map_err(|e| (Compile, e.to_string()))?;
    Ok(validator.iter_errors(&value).map(|e| (e.instance_path().to_string(), e.to_string())).collect())
}

/// Why `check` could not hold the ledger against the schema.
pub open spec fn stage_message(stage: SchemaStage, e: Seq<char>, path: Seq<char>) -> Seq<char> {
    match stage {
        SchemaStage::Instance => "parse "@ + path + ": "@ + e,
        SchemaStage::Convert => "convert ledger yaml to json: "@ + e,
        SchemaStage::Schema => "embedded tasks.schema.json: "@ + e,
        SchemaStage::Compile => e,
    }
}

/// Each violation the schema found, as `check` prints it.
pub open spec fn violation_lines(found: Seq<(Seq<char>, Seq<char>)>) -> Seq<Seq<char>> {
    found.map_values(|p: (Seq<char>, Seq<char>)| p.0 + ": "@ + p.1)
}

/// The message for where the schema check stopped.
fn stage_text(stage: SchemaStage, e: &str, path: &str) -> (out: String)
    ensures
        out@ == stage_message(stage, e@, path@),
{
    let mut m: Vec<char> = Vec::new();
    match stage {
        SchemaStage::Instance => {
            extend_str(&mut m, "parse ");
            extend_str(&mut m, path);
            extend_str(&mut m, ": ");
        },
        SchemaStage::Convert => {
            extend_str(&mut m, "convert ledger yaml to json: ");
        },
        SchemaStage::Schema => {
            extend_str(&mut m, "embedded tasks.schema.json: ");
        },
        SchemaStage::Compile => {},
    }
    extend_str(&mut m, e);
    proof {
        reveal_strlit("parse ");
        reveal_strlit(": ");
        reveal_strlit("convert ledger yaml to json: ");
        reveal_strlit("embedded tasks.schema.json: ");
    }
    from_chars(m.as_slice())
}

/// Each violation as a line of the report.
fn violation_texts(found: &Vec<(String, String)>) -> (out: Vec<String>)
    ensures
        views(out@) == violation_lines(pair_views(found@)),
{
    let mut out: Vec<String> = Vec::new();
    let mut i: usize = 0;
    while i < found.len()
        invariant
            i <= found@.len(),
            views(out@) == violation_lines(pair_views(found@)).take(i as int),
        decreases found@.len() - i,
    {
        let mut m = to_chars(found[i].0.as_str());
        extend_str(&mut m, ": ");
        extend_str(&mut m, found[i].1.as_str());
        let ghost before = out@;
        out.push(from_chars(m.as_slice()));
        proof {
            reveal_strlit(": ");
            assert(views(out@) =~= views(before).push(found@[i as int].0@ + ": "@ + found@[i as int].1@));
            assert(violation_lines(pair_views(found@)).take(i + 1) =~= violation_lines(pair_views(found@)).take(i as int).push(
                found@[i as int].0@ + ": "@ + found@[i as int].1@,
            ));
        }
        i = i + 1;
    }
    assert(violation_lines(pair_views(found@)).take(found@.len() as int) =~= violation_lines(pair_views(found@)));
    out
}

/// The version complaint `check` makes, if any.
pub open spec fn stale_problems(raw: Seq<char>, path: Seq<char>) -> Seq<Seq<char>> {
    match stale_schema_spec(declared_version(raw), path) {
        Some(m) => seq![m],
        None => Seq::empty(),
    }
}

/// Whether `g` is what the graph rules say of a ledger.
pub open spec fn graph_report(l: Ledger, present: Seq<bool>, g: Seq<Seq<char>>) -> bool {
    exists|dups: Seq<Seq<char>>, nums: Seq<u32>|
        #![trigger graph(l, present, dups, nums)]
        duplicated_ids(claims(l), dups) && corpus_numbers(claims(l), l.prefix@, nums) && g == graph(l, present, dups, nums)
}

/// Whether `g` is what `check` says of the rows: why they did not read, or
/// the graph rules' findings and, when the history was scanned, its findings.
pub open spec fn row_report(parsed: Result<Ledger, String>, present: Seq<bool>, scan: Option<TrailerScan>, g: Seq<Seq<char>>) -> bool {
    match parsed {
        Err(e) => g == seq![e@],
        Ok(l) => exists|gr: Seq<Seq<char>>|
            #![trigger graph_report(l, present, gr)]
            graph_report(l, present, gr) && g == gr + scan_problems(l, scan),
    }
}

/// What the history scan says, when there was one.
pub open spec fn scan_problems(l: Ledger, scan: Option<TrailerScan>) -> Seq<Seq<char>> {
    match scan {
        None => Seq::empty(),
        Some(sc) => trailer_problems(l, sc),
    }
}

/// Every problem `check` finds in a ledger's text, in one pass: the version
/// complaint, what the schema says of the values, then what the rows say.
/// When the schema check cannot run, its message names where it stopped,
/// and the file when the text is not YAML. The rows are the text read as a
/// ledger by the caller, or why they did not read; `present` says which
/// plans exist; `scan` is the history scan, `None` under `--no-git`.
pub fn findings(raw: &str, schema: &str, path: &str, parsed: Result<Ledger, String>, present: &Vec<bool>, scan: Option<TrailerScan>) -> (res: Result<Vec<String>, String>)
    requires
        parsed matches Ok(l) ==> present@.len() == plans(l).len(),
    ensures
        match res {
            Err(m) => schema_findings(raw@, schema@) matches Err((stage, e)) && m@ == stage_message(stage, e, path@),
            Ok(out) => schema_findings(raw@, schema@) matches Ok(f) && exists|g: Seq<Seq<char>>|
                #![trigger row_report(parsed, present@, scan, g)]
                row_report(parsed, present@, scan, g) && views(out@) == stale_problems(raw@, path@) + violation_lines(f) + g,
        },
{
    let found = match validate_against(raw, schema) {
        Ok(f) => violation_texts(&f),
        Err((stage, e)) => {
            return Err(stage_text(stage, e.as_str(), path));
        },
    };
    let mut out: Vec<String> = Vec::new();
    match stale_schema_for(declared_version_of(raw), path) {
        Some(m) => out.push(m),
        None => {},
    }
    assert(views(out@) =~= stale_problems(raw@, path@));
    let ghost head = views(out@) + views(found@);
    let mut more = found;
    out.append(&mut more);
    assert(views(out@) =~= head);
    let ghost mid = views(out@);
    let ghost pv = parsed;
    let ghost sv = scan;
    match parsed {
        Err(e) => {
            out.push(e);
            assert(views(out@) =~= mid + seq![pv->Err_0@]);
            assert(row_report(pv, present@, sv, seq![pv->Err_0@]));
        },
        Ok(l) => {
            let mut g = graph_errors(&l, present);
            let ghost gr = views(g@);
            assert(graph_report(l, present@, gr));
            let ghost tail = scan_problems(l, sv);
            let mut t = match &scan {
                None => Vec::new(),
                Some(sc) => trailer_errors(&l, sc),
            };
            assert(views(t@) == tail);
            out.append(&mut g);
            out.append(&mut t);
            assert(views(out@) =~= mid + (gr + tail));
            assert(row_report(pv, present@, sv, gr + tail));
        },
    }
    Ok(out)
}

/// How `check` ends: a report of no problems, or the count, the file, and
/// every problem joined.
pub open spec fn check_outcome(path: Seq<char>, problems: Seq<Seq<char>>) -> Option<Seq<char>> {
    if problems.len() == 0 {
        None
    } else {
        Some(crate::chars::decimal(problems.len()) + " problem(s) in "@ + path + ": "@ + join(problems, "; "@))
    }
}

/// How `check` ends, given every problem it found.
pub fn run(path: &str, problems: Vec<String>) -> (res: Result<Report, String>)
    ensures
        match res {
            Ok(r) => check_outcome(path@, views(problems@)) is None && r == (Report::Check {
                path: r->Check_path,
                problems: r->Check_problems,
            }) && r->Check_path@ == path@ && r->Check_problems@.len() == 0,
            Err(m) => check_outcome(path@, views(problems@)) == Some(m@),
        },
{
    if problems.len() == 0 {
        return Ok(Report::Check { path: String::from_str(path), problems });
    }
    let mut parts: Vec<Vec<char>> = Vec::new();
    let mut i: usize = 0;
    while i < problems.len()
        invariant
            i <= problems@.len(),
            texts(parts@) == views(problems@).take(i as int),
        decreases problems@.len() - i,
    {
        let ghost before = parts@;
        parts.push(to_chars(problems[i].as_str()));
        proof {
            assert(texts(parts@) =~= texts(before).push(problems@[i as int]@));
            assert(views(problems@).take(i + 1) =~= views(problems@).take(i as int).push(problems@[i as int]@));
        }
        i = i + 1;
    }
    assert(views(problems@).take(problems@.len() as int) == views(problems@));
    let sep = to_chars("; ");
    proof {
        assert(parts@.map_values(|v: Vec<char>| v@) =~= texts(parts@));
    }
    let joined = join_chars(&parts, sep.as_slice());
    let mut m = crate::chars::decimal_of(problems.len() as u64);
    extend_str(&mut m, " problem(s) in ");
    extend_str(&mut m, path);
    extend_str(&mut m, ": ");
    extend(&mut m, joined.as_slice());
    Err(from_chars(m.as_slice()))
}

} // verus!
