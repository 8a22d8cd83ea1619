//! The liveness heuristic: whether a process-table snapshot shows a bundle
//! running. A line counts only when, trimmed and lowercased, it contains the
//! bundle's internal executable directory and does not name the embedded
//! helper process.
use vstd::prelude::*;
use crate::text::{lower, trim, contains_seq, matches_at, trimmed, contains_ci};
use crate::paths::bundle_stem;
use vstd::string::StrSliceExecFns;
use vstd::string::StringExecFns;

verus! {

/// The token whose containment marks a process of the bundle: the path
/// segment through the bundle's internal executable directory.
pub open spec fn bundle_segment(bundle: Seq<char>) -> Seq<char> {
    "/"@ + bundle + ".app/contents/macos/"@
}

/// A single snapshot line shows the bundle running: trimmed it is
/// non-empty, contains the bundle segment case-insensitively, and does not
/// contain the embedded helper's name.
pub open spec fn line_matches(line: Seq<char>, bundle: Seq<char>) -> bool {
    let t = trim(line);
    t.len() > 0 && contains_seq(lower(t), lower(bundle_segment(bundle))) && !contains_seq(
        lower(t),
        lower("/backend-sidecar"@),
    )
}

/// The length of the prefix before the first newline.
pub open spec fn prefix_to_nl(s: Seq<char>) -> int
    decreases s.len(),
{
    if s.len() == 0 {
        0
    } else if s[0] == '\n' {
        0
    } else {
        1 + prefix_to_nl(s.drop_first())
    }
}

pub proof fn lemma_prefix_to_nl(s: Seq<char>)
    ensures
        0 <= prefix_to_nl(s) <= s.len(),
        forall|j: int| 0 <= j < prefix_to_nl(s) ==> s[j] != '\n',
        prefix_to_nl(s) < s.len() ==> s[prefix_to_nl(s)] == '\n',
    decreases s.len(),
{
    if s.len() > 0 && s[0] != '\n' {
        lemma_prefix_to_nl(s.drop_first());
        assert(forall|j: int| 1 <= j < prefix_to_nl(s) ==> s[j] == s.drop_first()[j - 1]);
    }
}

/// The snapshot split at newlines.
pub open spec fn split_lines(s: Seq<char>) -> Seq<Seq<char>>
    decreases s.len(),
    via split_lines_decreases
{
    if s.len() == 0 {
        seq![]
    } else {
        let k = prefix_to_nl(s);
        if k == s.len() {
            seq![s]
        } else {
            seq![s.take(k)] + split_lines(s.skip(k + 1))
        }
    }
}

#[via_fn]
proof fn split_lines_decreases(s: Seq<char>) {
    lemma_prefix_to_nl(s);
}

/// Some line of the snapshot shows the bundle running.
pub open spec fn any_line_matches(commands: Seq<char>, bundle: Seq<char>) -> bool {
    exists|i: int| 0 <= i < split_lines(commands).len() && line_matches(
        split_lines(commands)[i],
        bundle,
    )
}

pub proof fn lemma_prefix_to_nl_unique(s: Seq<char>, k: int)
    requires
        0 <= k <= s.len(),
        forall|j: int| 0 <= j < k ==> s[j] != '\n',
        k == s.len() || s[k] == '\n',
    ensures
        prefix_to_nl(s) == k,
    decreases k,
{
    if k == 0 {
    } else {
        assert(s[0] != '\n');
        assert(forall|j: int| 0 <= j < k - 1 ==> s.drop_first()[j] == s[j + 1]);
        if k < s.len() {
            assert(s.drop_first()[k - 1] == s[k as int]);
        }
        lemma_prefix_to_nl_unique(s.drop_first(), k - 1);
    }
}

/// Whether a single process command line counts as the named bundle's own
/// launchable process.
pub fn is_launchable_app_process_line(command_line: &str, bundle_name: &str) -> (r: bool)
    ensures
        r == line_matches(command_line@, bundle_name@),
{
    let t = trimmed(command_line);
    if t.unicode_len() == 0 {
        return false;
    }
    let mut seg = "/".to_owned();
    seg.append(bundle_name);
    seg.append(".app/contents/macos/");
    assert(seg@ =~= bundle_segment(bundle_name@));
    if !contains_ci(t, seg.as_str()) {
        return false;
    }
    !contains_ci(t, "/backend-sidecar")
}

/// Whether any line of the snapshot shows the named bundle running.
pub fn is_app_running_in_commands(bundle_name: &str, commands: &str) -> (r: bool)
    ensures
        r == any_line_matches(commands@, bundle_name@),
{
    let n: usize = commands.unicode_len();
    let ghost gl = split_lines(commands@);
    let mut pos: usize = 0;
    let ghost mut li: int = 0;
    proof {
        assert(commands@.skip(0) =~= commands@);
        assert(gl.skip(0) =~= gl);
    }
    while pos < n
        invariant
            0 <= pos <= n,
            0 <= li,
            n == commands@.len(),
            gl == split_lines(commands@),
            li <= gl.len(),
            split_lines(commands@.skip(pos as int)) == gl.skip(li),
            forall|l: int| 0 <= l < li ==> !line_matches(gl[l], bundle_name@),
        decreases n - pos,
    {
        let mut k: usize = pos;
        while k < n && commands.get_char(k) != '\n'
            invariant
                pos <= k <= n,
                n == commands@.len(),
                forall|j: int| pos <= j < k ==> commands@[j] != '\n',
            decreases n - k,
        {
            k = k + 1;
        }
        let ghost su = commands@.skip(pos as int);
        proof {
            assert(forall|j: int| 0 <= j < k - pos ==> su[j] == commands@[j + pos]);
            if k < n {
                assert(su[k - pos] == commands@[k as int]);
            }
            lemma_prefix_to_nl_unique(su, k - pos);
            assert(su.len() > 0);
        }
        let line = commands.substring_char(pos, k);
        proof {
            assert(line@ =~= su.take(k - pos));
            if k - pos == su.len() {
                assert(su.take(k - pos) =~= su);
                assert(split_lines(su) == seq![su]);
            }
            assert(split_lines(su).len() >= 1);
            assert(li < gl.len());
            assert(split_lines(su)[0] == su.take(k - pos));
            assert(gl.skip(li)[0] == gl[li]);
            assert(gl[li] == line@);
        }
        if is_launchable_app_process_line(line, bundle_name) {
            assert(line_matches(gl[li], bundle_name@));
            return true;
        }
        if k < n {
            pos = k + 1;
            proof {
                assert(su.skip(prefix_to_nl(su) + 1) =~= commands@.skip(pos as int));
                assert(split_lines(su) == seq![su.take(prefix_to_nl(su))] + split_lines(
                    commands@.skip(pos as int),
                ));
                assert(gl.skip(li).drop_first() =~= gl.skip(li + 1));
                assert(split_lines(commands@.skip(pos as int)) == gl.skip(li + 1));
            }
        } else {
            pos = n;
            proof {
                assert(split_lines(su) == seq![su]);
                assert(gl.skip(li).len() == 1);
                assert(commands@.skip(n as int).len() == 0);
                assert(split_lines(commands@.skip(pos as int)) =~= gl.skip(li + 1));
            }
        }
        proof {
            li = li + 1;
        }
    }
    proof {
        assert(commands@.skip(pos as int).len() == 0);
        assert(gl.skip(li).len() == 0);
        assert(li == gl.len());
    }
    false
}

/// A bundle's token is found wherever it stands in a line: any preceding
/// and any following text leaves the containment intact.
pub proof fn lemma_token_found_anywhere(before: Seq<char>, after: Seq<char>, bundle: Seq<char>)
    ensures
        contains_seq(
            lower(before + bundle_segment(bundle) + after),
            lower(bundle_segment(bundle)),
        ),
{
    let hay = lower(before + bundle_segment(bundle) + after);
    let needle = lower(bundle_segment(bundle));
    assert(hay.subrange(before.len() as int, before.len() + needle.len() as int) =~= needle);
    assert(matches_at(hay, needle, before.len() as int));
}

/// A line that names the embedded helper process never counts as the
/// application running, whatever bundle is asked about and whatever else
/// the line contains.
pub proof fn lemma_sidecar_never_matches(line: Seq<char>, bundle: Seq<char>)
    requires
        contains_seq(lower(trim(line)), lower("/backend-sidecar"@)),
    ensures
        !line_matches(line, bundle),
{
}

/// One registered path paired with whether its bundle shows as running.
pub struct RunningRegisteredApp {
    pub path: String,
    pub running: bool,
}

/// What liveness a registered path gets from a snapshot: its bundle
/// identity's match, or not running when the path has no bundle identity.
pub open spec fn path_running(path: Seq<char>, commands: Seq<char>) -> bool {
    match bundle_stem(path) {
        Some(b) => any_line_matches(commands, b),
        None => false,
    }
}

/// Annotates every registered path with its run state, all judged against
/// the one snapshot, so a batch reflects a single instant.
pub fn get_running_registered_apps(paths: Vec<String>, commands: &str) -> (r: Vec<
    RunningRegisteredApp,
>)
    ensures
        r@.len() == paths@.len(),
        forall|i: int|
            0 <= i < r@.len() ==> r@[i].path@ == paths@[i]@ && r@[i].running == path_running(
                paths@[i]@,
                commands@,
            ),
{
    let mut out: Vec<RunningRegisteredApp> = Vec::new();
    let mut i: usize = 0;
    while i < paths.len()
        invariant
            0 <= i <= paths.len(),
            out@.len() == i,
            forall|l: int|
                0 <= l < i ==> out@[l].path@ == paths@[l]@ && out@[l].running == path_running(
                    paths@[l]@,
                    commands@,
                ),
        decreases paths.len() - i,
    {
        let running = match crate::paths::bundle_name_from_app_path(paths[i].as_str()) {
            Some(bundle) => is_app_running_in_commands(bundle.as_str(), commands),
            None => false,
        };
        out.push(RunningRegisteredApp { path: paths[i].clone(), running });
        i = i + 1;
    }
    out
}

/// The run state of the three known applications, judged against one
/// snapshot.
pub struct RunningApps {
    pub companion: bool,
    pub dugout: bool,
    pub hmm: bool,
}

/// Reports the three known bundles' run state from a single snapshot.
pub fn get_running_apps(commands: &str) -> (r: RunningApps)
    ensures
        r.companion == any_line_matches(commands@, "Companion"@),
        r.dugout == any_line_matches(commands@, "Dugout"@),
        r.hmm == any_line_matches(commands@, "HM Admin Console"@),
{
    RunningApps {
        companion: is_app_running_in_commands("Companion", commands),
        dugout: is_app_running_in_commands("Dugout", commands),
        hmm: is_app_running_in_commands("HM Admin Console", commands),
    }
}

} // verus!
