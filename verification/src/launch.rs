//! Launch decisions: the allowlist mapping short names to bundle names, and
//! the messages reported when the host open mechanism fails.
use vstd::prelude::*;
use crate::text::{trim, trimmed, str_eq};
use vstd::string::StringExecFns;

verus! {

/// The fixed allowlist: which bundle a known short name launches.
pub open spec fn mapped_short_name(n: Seq<char>) -> Option<Seq<char>> {
    if n == "companion"@ {
        Some("Companion"@)
    } else if n == "dugout"@ {
        Some("Dugout"@)
    } else if n == "hmm"@ {
        Some("HM Admin Console"@)
    } else {
        None
    }
}

/// Resolves a short name through the allowlist, or reports it unsupported.
pub fn launch_app_target(app_name: &str) -> (r: Result<String, String>)
    ensures
        match mapped_short_name(app_name@) {
            Some(m) => (r matches Ok(t) && t@ == m),
            None => (r matches Err(e) && e@ == "Unsupported app name: "@ + app_name@),
        },
{
    if str_eq(app_name, "companion") {
        Ok("Companion".to_owned())
    } else if str_eq(app_name, "dugout") {
        Ok("Dugout".to_owned())
    } else if str_eq(app_name, "hmm") {
        Ok("HM Admin Console".to_owned())
    } else {
        let mut msg = "Unsupported app name: ".to_owned();
        msg.append(app_name);
        Err(msg)
    }
}

/// The message reported when launching a mapped bundle fails: the captured
/// error stream when it has content, otherwise where the bundle was
/// expected.
pub fn launch_failure_message(mapped_name: &str, stderr: &str) -> (r: String)
    ensures
        trim(stderr@).len() == 0 ==> r@ == "Failed to launch "@ + mapped_name@
            + ". Expected app at /Applications/"@ + mapped_name@ + ".app"@,
        trim(stderr@).len() > 0 ==> r@ == "Failed to launch "@ + mapped_name@ + ": "@ + trim(
            stderr@,
        ),
{
    let t = trimmed(stderr);
    if t.unicode_len() == 0 {
        let mut msg = "Failed to launch ".to_owned();
        msg.append(mapped_name);
        msg.append(". Expected app at /Applications/");
        msg.append(mapped_name);
        msg.append(".app");
        assert(msg@ =~= "Failed to launch "@ + mapped_name@ + ". Expected app at /Applications/"@
            + mapped_name@ + ".app"@);
        msg
    } else {
        let mut msg = "Failed to launch ".to_owned();
        msg.append(mapped_name);
        msg.append(": ");
        msg.append(t);
        assert(msg@ =~= "Failed to launch "@ + mapped_name@ + ": "@ + trim(stderr@));
        msg
    }
}

/// The message reported when launching a registered path fails.
pub fn launch_path_failure_message(path: &str, stderr: &str) -> (r: String)
    ensures
        trim(stderr@).len() == 0 ==> r@ == "Failed to launch app at "@ + path@,
        trim(stderr@).len() > 0 ==> r@ == "Failed to launch app at "@ + path@ + ": "@ + trim(
            stderr@,
        ),
{
    let t = trimmed(stderr);
    if t.unicode_len() == 0 {
        let mut msg = "Failed to launch app at ".to_owned();
        msg.append(path);
        assert(msg@ =~= "Failed to launch app at "@ + path@);
        msg
    } else {
        let mut msg = "Failed to launch app at ".to_owned();
        msg.append(path);
        msg.append(": ");
        msg.append(t);
        assert(msg@ =~= "Failed to launch app at "@ + path@ + ": "@ + trim(stderr@));
        msg
    }
}

} // verus!
