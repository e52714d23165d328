# qctl

A work-queue ledger for one repository: a `tasks.yaml` holding the queue in
priority order, the archive newest first, and the horizon of mapped work that
has no place on the queue yet. The verbs (`add`, `start`, `park`, `promote`,
`archive`, `edit`, `fmt`, `close-from-git`, `hook install`, `check`) edit the
file line by line, touching only the lines they must.

## Layout

- `src/` is the library, written in Verus. Every rule a ledger must keep and
  every edit a verb makes is an executable function with a contract over a
  mathematical model of the text (`Seq<char>`), proved by Verus.
  - `schema.rs`: the ledger types and the single-value rules (id shapes, plan
    paths, zones), each decided by a checked function.
  - `ledger.rs`, `ledger/`: rules across rows (ids, blockers, `active`, the
    archive's order, missing ids) and the next id.
  - `document.rs`, `document/`: the line-preserving text surgery: rows found,
    cut, pasted, moved, re-indented, and lists rewritten in the style they
    were written in. The YAML parser, patcher and serializers are called
    through trusted wrappers whose results are named, not restated.
  - `mutate.rs`, `edit.rs`, `edit/`: the verbs, as functions from the ledger
    and its text to the edited text or the refusal.
  - `format.rs`: `fmt`: a ledger rewritten in the style it declares, and the
    schema 3 to 4 upgrade.
  - `check.rs`, `trailers.rs`, `hooks.rs`: what `check` reports (the
    schema's findings, the stale-version notice and the rules across rows),
    commit trailers, and the pre-push hook.
  - `laws.rs`: properties that span functions, stated and proved.
- `tests/` runs the library on concrete ledgers.
- `app/` is the command line: argument parsing, files, the clock, git, the
  JSON Schema's generation from the ledger types, and printing. It hands the
  library plain values and writes back what the library returns.
