//! Git / Lefthook install for `close-from-git`.
//!
//! Lefthook has no API to add a command, no `extends`, and no merge of
//! foreign config, so this never edits `lefthook.yml`: when that file exists,
//! install hands back the snippet to add. Otherwise it writes a git `pre-push`.
//! Finding the repository and touching files is the caller's; what to write,
//! and whether to write at all, is decided here.

use crate::chars::{extend, extend_str, from_chars, same, split, split_at_char, texts, to_chars, join, join_chars, contains_char};
use crate::report::{HookOutcome, Report};
use vstd::prelude::*;

verus! {

/// The named components of a path: the pieces between `/` that are neither
/// empty nor `.`, as `Path::components` reads a path.
pub open spec fn named_parts(pieces: Seq<Seq<char>>) -> Seq<Seq<char>>
    decreases pieces.len(),
{
    if pieces.len() == 0 {
        Seq::empty()
    } else {
        let rest = named_parts(pieces.drop_last());
        let last = pieces.last();
        if last.len() == 0 || last == seq!['.'] {
            rest
        } else {
            rest.push(last)
        }
    }
}

/// Whether a path starts at the root.
pub open spec fn rooted(p: Seq<char>) -> bool {
    p.len() > 0 && p[0] == '/'
}

/// The components of a path below its root.
pub open spec fn parts(p: Seq<char>) -> Seq<Seq<char>> {
    named_parts(split(p, '/'))
}

/// `ledger` relative to `root`, when `root`'s components begin `ledger`'s.
pub open spec fn relative(ledger: Seq<char>, root: Seq<char>) -> Option<Seq<char>> {
    let l = parts(ledger);
    let r = parts(root);
    if rooted(ledger) == rooted(root) && r.len() <= l.len() && l.take(r.len() as int) == r {
        Some(join(l.skip(r.len() as int), seq!['/']))
    } else {
        None
    }
}

/// Every `\` written as `/`.
pub open spec fn forward_slashes(s: Seq<char>) -> Seq<char> {
    s.map_values(|c: char| if c == '\\' { '/' } else { c })
}

/// The ledger's path as the hook command names it, or why it cannot be named:
/// it lies outside the repository root, or it holds a single quote, which the
/// hook's quoting cannot carry.
pub open spec fn ledger_rel_spec(ledger: Seq<char>, root: Seq<char>) -> Result<Seq<char>, Seq<char>> {
    match relative(ledger, root) {
        None => Err(ledger + " is not inside "@ + root),
        Some(rel) => if rel.contains('\'') {
            Err("ledger path must not contain a single quote"@)
        } else {
            Ok(forward_slashes(rel))
        },
    }
}

/// The named components of a path.
fn path_parts(p: &[char]) -> (out: Vec<Vec<char>>)
    ensures
        texts(out@) == parts(p@),
{
    let pieces = split_at_char(p, '/');
    let mut out: Vec<Vec<char>> = Vec::new();
    let mut i: usize = 0;
    while i < pieces.len()
        invariant
            i <= pieces@.len(),
            texts(out@) == named_parts(texts(pieces@).take(i as int)),
        decreases pieces@.len() - i,
    {
        proof {
            assert(texts(pieces@).take(i + 1).drop_last() == texts(pieces@).take(i as int));
            assert(texts(pieces@).take(i + 1).last() == pieces@[i as int]@);
        }
        let piece = &pieces[i];
        let dot = ['.'];
        if !(piece.len() == 0 || same(piece.as_slice(), dot.as_slice())) {
            let ghost before = out@;
            out.push(piece.clone());
            proof {
                assert(texts(out@) =~= texts(before).push(pieces@[i as int]@));
            }
        }
        proof {
            assert(dot@ == seq!['.']);
        }
        i = i + 1;
    }
    assert(texts(pieces@).take(pieces@.len() as int) == texts(pieces@));
    out
}

/// Whether the first `n` components agree.
fn same_prefix(a: &Vec<Vec<char>>, b: &Vec<Vec<char>>) -> (res: bool)
    requires
        b@.len() <= a@.len(),
    ensures
        res == (texts(a@).take(b@.len() as int) == texts(b@)),
{
    let mut i: usize = 0;
    while i < b.len()
        invariant
            i <= b@.len() <= a@.len(),
            texts(a@).take(i as int) == texts(b@).take(i as int),
        decreases b@.len() - i,
    {
        if !same(a[i].as_slice(), b[i].as_slice()) {
            proof {
                assert(texts(a@).take(b@.len() as int)[i as int] != texts(b@)[i as int]);
            }
            return false;
        }
        proof {
            assert(texts(a@).take(i + 1) =~= texts(a@).take(i as int).push(a@[i as int]@));
            assert(texts(b@).take(i + 1) =~= texts(b@).take(i as int).push(b@[i as int]@));
        }
        i = i + 1;
    }
    assert(texts(b@).take(b@.len() as int) == texts(b@));
    true
}

/// The ledger's path relative to the repository root, as the hook names it.
/// Both paths arrive canonical, as the caller resolved them on disk.
pub fn ledger_rel(ledger: &str, root: &str) -> (res: Result<String, String>)
    ensures
        match res {
            Ok(rel) => ledger_rel_spec(ledger@, root@) == Ok::<Seq<char>, Seq<char>>(rel@),
            Err(m) => ledger_rel_spec(ledger@, root@) == Err::<Seq<char>, Seq<char>>(m@),
        },
{
    let l = to_chars(ledger);
    let r = to_chars(root);
    let lp = path_parts(l.as_slice());
    let rp = path_parts(r.as_slice());
    let l_rooted = l.len() > 0 && l[0] == '/';
    let r_rooted = r.len() > 0 && r[0] == '/';
    if l_rooted != r_rooted || rp.len() > lp.len() || !same_prefix(&lp, &rp) {
        let mut m = l.clone();
        extend_str(&mut m, " is not inside ");
        extend(&mut m, r.as_slice());
        return Err(from_chars(m.as_slice()));
    }
    let mut rest: Vec<Vec<char>> = Vec::new();
    let mut i: usize = rp.len();
    while i < lp.len()
        invariant
            rp@.len() <= i <= lp@.len(),
            texts(rest@) == texts(lp@).subrange(rp@.len() as int, i as int),
        decreases lp@.len() - i,
    {
        rest.push(lp[i].clone());
        proof {
            assert(texts(lp@).subrange(rp@.len() as int, i + 1) =~= texts(lp@).subrange(
                rp@.len() as int,
                i as int,
            ).push(lp@[i as int]@));
        }
        i = i + 1;
    }
    let slash = ['/'];
    let rel = join_chars(&rest, slash.as_slice());
    proof {
        assert(texts(lp@).skip(rp@.len() as int) =~= texts(lp@).subrange(rp@.len() as int, lp@.len() as int));
        assert(rest@.map_values(|v: Vec<char>| v@) =~= texts(rest@));
        assert(slash@ == seq!['/']);
    }
    if contains_char(rel.as_slice(), '\'') {
        return Err(String::from_str("ledger path must not contain a single quote"));
    }
    let mut out: Vec<char> = Vec::new();
    let mut k: usize = 0;
    while k < rel.len()
        invariant
            k <= rel@.len(),
            out@ == forward_slashes(rel@).take(k as int),
        decreases rel@.len() - k,
    {
        let c = rel[k];
        if c == '\\' {
            out.push('/');
        } else {
            out.push(c);
        }
        proof {
            assert(forward_slashes(rel@).take(k + 1) =~= forward_slashes(rel@).take(k as int).push(
                forward_slashes(rel@)[k as int],
            ));
        }
        k = k + 1;
    }
    assert(forward_slashes(rel@).take(rel@.len() as int) == forward_slashes(rel@));
    Ok(from_chars(out.as_slice()))
}

/// The Lefthook command to paste under `pre-push.commands`.
pub open spec fn lefthook_snippet_spec(rel: Seq<char>) -> Seq<char> {
    "# add under pre-push.commands in lefthook.yml\n    qctl-close:\n      run: mise run q close-from-git -f '"@
        + rel + "'\n"@
}

/// The git `pre-push` script.
pub open spec fn git_hook_body_spec(rel: Seq<char>) -> Seq<char> {
    "#!/bin/sh\nexec qctl close-from-git --pre-push -f '"@ + rel + "'\n"@
}

/// The Lefthook command to paste under `pre-push.commands`.
pub fn lefthook_snippet(rel: &str) -> (out: String)
    ensures
        out@ == lefthook_snippet_spec(rel@),
{
    let mut m = to_chars(
        "# add under pre-push.commands in lefthook.yml\n    qctl-close:\n      run: mise run q close-from-git -f '",
    );
    extend_str(&mut m, rel);
    extend_str(&mut m, "'\n");
    from_chars(m.as_slice())
}

/// The git `pre-push` script.
pub fn git_hook_body(rel: &str) -> (out: String)
    ensures
        out@ == git_hook_body_spec(rel@),
{
    let mut m = to_chars("#!/bin/sh\nexec qctl close-from-git --pre-push -f '");
    extend_str(&mut m, rel);
    extend_str(&mut m, "'\n");
    from_chars(m.as_slice())
}

/// Whether a text holds `needle` somewhere.
pub open spec fn holds(s: Seq<char>, needle: Seq<char>) -> bool {
    exists|k: int| 0 <= k && k + needle.len() <= s.len() && #[trigger] s.subrange(k, k + needle.len()) == needle
}

/// Whether a text holds `needle` somewhere.
pub fn contains_text(s: &[char], needle: &[char]) -> (res: bool)
    ensures
        res == holds(s@, needle@),
{
    let n = needle.len();
    let len = s.len();
    if n > len {
        return false;
    }
    if n == 0 {
        assert(s@.subrange(0, 0 + needle@.len() as int) =~= needle@);
        assert(holds(s@, needle@));
        return true;
    }
    let mut k: usize = 0;
    while k <= len - n
        invariant
            n == needle@.len(),
            len == s@.len(),
            1 <= n <= len,
            k <= len - n + 1,
            forall|j: int| 0 <= j < k ==> #[trigger] s@.subrange(j, j + n) != needle@,
        decreases len - k,
    {
        let mut i: usize = 0;
        let mut matched = true;
        assert(s@.subrange(k as int, k as int) =~= needle@.take(0));
        while i < n
            invariant
                n == needle@.len(),
                len == s@.len(),
                k + n <= len,
                i <= n,
                matched == (s@.subrange(k as int, k + i) == needle@.take(i as int)),
            decreases n - i,
        {
            if matched && s[k + i] != needle[i] {
                matched = false;
                proof {
                    assert(s@.subrange(k as int, k + i + 1)[i as int] != needle@.take(i + 1)[i as int]);
                }
            } else if matched {
                proof {
                    assert(s@.subrange(k as int, k + i + 1) =~= s@.subrange(k as int, k + i).push(s@[k + i]));
                    assert(needle@.take(i + 1) =~= needle@.take(i as int).push(needle@[i as int]));
                }
            } else {
                proof {
                    if s@.subrange(k as int, k + i + 1) == needle@.take(i + 1) {
                        assert(s@.subrange(k as int, k + i) =~= s@.subrange(k as int, k + i + 1).take(i as int));
                        assert(needle@.take(i as int) =~= needle@.take(i + 1).take(i as int));
                    }
                }
            }
            i = i + 1;
        }
        assert(needle@.take(n as int) == needle@);
        if matched {
            assert(s@.subrange(k as int, k + needle@.len()) == needle@);
            return true;
        }
        k = k + 1;
    }
    false
}

/// Whether `r` reports a hook install at `path` with this outcome and snippet.
pub open spec fn is_hook_report(r: Report, path: Seq<char>, outcome: HookOutcome, snippet: Option<Seq<char>>) -> bool {
    match r {
        Report::HookInstalled { path: p, outcome: o, snippet: s } => p@ == path && o == outcome && match s {
            Some(t) => snippet == Some(t@),
            None => snippet is None,
        },
        _ => false,
    }
}

/// Whether `res` is what `hook install` does when a Lefthook config exists at
/// `path` holding `source`: nothing when it already runs `close-from-git`;
/// otherwise it hands back the snippet to add and installs nothing, with a
/// word about `--force` when that was asked for.
pub open spec fn lefthook_outcome(res: Result<Report, (Report, String)>, path: Seq<char>, source: Seq<char>, rel: Seq<char>, force: bool) -> bool {
    if holds(source, "close-from-git"@) {
        res matches Ok(r) && is_hook_report(r, path, HookOutcome::AlreadyConfigured, None)
    } else if force {
        res matches Err((r, m)) && is_hook_report(r, path, HookOutcome::ForceNotApplicable, Some(lefthook_snippet_spec(rel)))
            && m@ == "--force does not apply when "@ + path + " exists; qctl does not edit Lefthook config"@
    } else {
        res matches Err((r, m)) && is_hook_report(r, path, HookOutcome::NeedsConfiguration, Some(lefthook_snippet_spec(rel)))
            && m@ == path + " present; hook not installed"@
    }
}

/// What `hook install` does when a Lefthook config exists at `path` holding
/// `source`: nothing when it already runs `close-from-git`; otherwise it hands
/// back the snippet to add, and refuses to install, with a word about
/// `--force` when that was asked for.
pub fn install_lefthook(path: &str, source: &str, rel: &str, force: bool) -> (res: Result<Report, (Report, String)>)
    ensures
        lefthook_outcome(res, path@, source@, rel@, force),
{
    let s = to_chars(source);
    let needle = to_chars("close-from-git");
    if contains_text(s.as_slice(), needle.as_slice()) {
        return Ok(Report::HookInstalled { path: String::from_str(path), outcome: HookOutcome::AlreadyConfigured, snippet: None });
    }
    let snippet = lefthook_snippet(rel);
    if force {
        let mut m = to_chars("--force does not apply when ");
        extend_str(&mut m, path);
        extend_str(&mut m, " exists; qctl does not edit Lefthook config");
        Err((
            Report::HookInstalled { path: String::from_str(path), outcome: HookOutcome::ForceNotApplicable, snippet: Some(snippet) },
            from_chars(m.as_slice()),
        ))
    } else {
        let mut m = to_chars(path);
        extend_str(&mut m, " present; hook not installed");
        Err((
            Report::HookInstalled { path: String::from_str(path), outcome: HookOutcome::NeedsConfiguration, snippet: Some(snippet) },
            from_chars(m.as_slice()),
        ))
    }
}

/// The git `pre-push` hook to write at `hook`, unless one is already there and
/// `--force` was not given.
pub fn install_git_hook(hook: &str, exists: bool, rel: &str, force: bool) -> (res: Result<(Report, String), String>)
    ensures
        match res {
            Ok((r, body)) => !(exists && !force) && body@ == git_hook_body_spec(rel@) && is_hook_report(
                r,
                hook@,
                HookOutcome::Installed,
                None,
            ),
            Err(m) => exists && !force && m@ == hook@ + " already exists (pass --force)"@,
        },
{
    if exists && !force {
        let mut m = to_chars(hook);
        extend_str(&mut m, " already exists (pass --force)");
        return Err(from_chars(m.as_slice()));
    }
    Ok((Report::HookInstalled { path: String::from_str(hook), outcome: HookOutcome::Installed, snippet: None }, git_hook_body(rel)))
}

/// What `hook install` does, given what the caller found on disk: the
/// Lefthook config's path and text, if one exists. `Ok(None)` means no
/// Lefthook config stands in the way and the git hook is to be written.
pub fn install(lefthook: Option<(&str, &str)>, rel: &str, force: bool) -> (res: Result<Option<Report>, (Report, String)>)
    ensures
        match lefthook {
            None => res == Ok::<Option<Report>, (Report, String)>(None),
            Some((path, source)) => match res {
                Ok(Some(r)) => lefthook_outcome(Ok(r), path@, source@, rel@, force),
                Ok(None) => false,
                Err(e) => lefthook_outcome(Err(e), path@, source@, rel@, force),
            },
        },
{
    match lefthook {
        None => Ok(None),
        Some((path, source)) => match install_lefthook(path, source, rel, force) {
            Ok(r) => Ok(Some(r)),
            Err(e) => Err(e),
        },
    }
}

} // verus!
