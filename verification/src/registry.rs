//! Registry operations: loading the persisted list, adding an application
//! under its normalized identity, removing by path, and collecting scan
//! candidates. Every result passes through the one normal form.
use vstd::prelude::*;
use crate::apps::{RegisteredApp, AppView, app_views, normalize, sort_and_dedupe_apps};
use crate::codec::{parse_registry_json, parse_registry_text};
use crate::paths::{
    CanonicalOutcome, normalize_app_path, bundle_name_from_app_path, bundle_stem,
    has_app_extension, valid_bundle_input, is_valid_app_bundle_path,
};
use crate::text::{trim, trimmed, lower, eq_ci};
use vstd::string::StrSliceExecFns;

verus! {

/// Turns the registry file's text into the normalized registry. An absent
/// file is an empty registry, not an error.
pub fn load_registry(contents: Option<&str>) -> (r: Result<Vec<RegisteredApp>, String>)
    ensures
        contents is None ==> (r matches Ok(v) && app_views(v@) == Seq::<AppView>::empty()),
        contents matches Some(s) ==> match parse_registry_text(s@) {
            Some(entries) => (r matches Ok(v) && app_views(v@) == normalize(entries)),
            None => (r matches Err(e) && e@
                == "Failed to parse app registry: the file is not a registry JSON array."@),
        },
{
    match contents {
        None => {
            let v: Vec<RegisteredApp> = Vec::new();
            assert(app_views(v@) =~= Seq::<AppView>::empty());
            Ok(v)
        },
        Some(s) => match parse_registry_json(s) {
            Some(apps) => Ok(sort_and_dedupe_apps(apps)),
            None => Err(
                "Failed to parse app registry: the file is not a registry JSON array.".to_owned(),
            ),
        },
    }
}

/// The identity an added path gets: the canonical form when resolution
/// gave one, the trimmed path otherwise.
pub open spec fn normalized_path_of(path: Seq<char>, canonical: CanonicalOutcome) -> Seq<char> {
    match canonical {
        CanonicalOutcome::Resolved(c) => c@,
        _ => trim(path),
    }
}

/// The display name an added entry gets: the given name, or the bundle
/// identity, either way trimmed.
pub open spec fn chosen_name(name: Option<String>, fallback: Seq<char>) -> Seq<char> {
    match name {
        Some(n) => trim(n@),
        None => trim(fallback),
    }
}

/// Adds (or renames) an application: the path is validated and normalized,
/// the name defaults to the bundle identity, and the result is the full
/// registry in normal form, where the new entry's path key holds the new
/// contents.
pub fn add_registered_app(
    path: &str,
    name: Option<String>,
    is_existing_dir: bool,
    canonical: CanonicalOutcome,
    current: Vec<RegisteredApp>,
) -> (r: Result<Vec<RegisteredApp>, String>)
    ensures
        trim(path@).len() == 0 ==> (r matches Err(e) && e@ == "App path is required."@),
        trim(path@).len() > 0 && !(has_app_extension(trim(path@)) && is_existing_dir) ==> (
        r matches Err(e) && e@ == "Invalid app bundle path: "@ + trim(path@)
            + ". Expected an existing .app directory."@),
        valid_bundle_input(path@, is_existing_dir) && canonical is NotUtf8 ==> (r matches Err(e)
            && e@ == "App path must be valid UTF-8."@),
        valid_bundle_input(path@, is_existing_dir) && !(canonical is NotUtf8) ==> match bundle_stem(
            normalized_path_of(path@, canonical),
        ) {
            None => (r matches Err(e) && e@ == "Failed to derive app name from path."@),
            Some(b) => {
                if chosen_name(name, b).len() == 0 {
                    r matches Err(e) && e@ == "App name cannot be empty."@
                } else {
                    r matches Ok(v) && app_views(v@) == normalize(
                        app_views(current@).push(
                            AppView {
                                name: chosen_name(name, b),
                                path: normalized_path_of(path@, canonical),
                            },
                        ),
                    )
                }
            },
        },
{
    let np = match normalize_app_path(path, is_existing_dir, canonical) {
        Ok(p) => p,
        Err(e) => {
            return Err(e);
        },
    };
    let fallback = match bundle_name_from_app_path(np.as_str()) {
        Some(b) => b,
        None => {
            return Err("Failed to derive app name from path.".to_owned());
        },
    };
    let nm = match name {
        Some(n) => trimmed(n.as_str()).to_owned(),
        None => trimmed(fallback.as_str()).to_owned(),
    };
    if nm.unicode_len() == 0 {
        return Err("App name cannot be empty.".to_owned());
    }
    let mut apps = current;
    let ghost before = app_views(apps@);
    let entry = RegisteredApp { name: nm, path: np };
    let ghost ev = entry@;
    apps.push(entry);
    proof {
        assert(app_views(apps@) =~= before.push(ev));
    }
    Ok(sort_and_dedupe_apps(apps))
}

/// The entries of `s` whose lowercased path differs from `k`, in order.
pub open spec fn without_path(s: Seq<AppView>, k: Seq<char>) -> Seq<AppView>
    decreases s.len(),
{
    if s.len() == 0 {
        Seq::empty()
    } else {
        let rest = without_path(s.drop_last(), k);
        if lower(s.last().path) != k {
            rest.push(s.last())
        } else {
            rest
        }
    }
}

/// Removes every entry whose path equals the trimmed input
/// case-insensitively — the entry need not exist on disk — and returns the
/// remaining registry in normal form.
pub fn remove_registered_app(path: &str, current: Vec<RegisteredApp>) -> (r: Result<
    Vec<RegisteredApp>,
    String,
>)
    ensures
        trim(path@).len() == 0 ==> (r matches Err(e) && e@ == "App path is required."@),
        trim(path@).len() > 0 ==> (r matches Ok(v) && app_views(v@) == normalize(
            without_path(app_views(current@), lower(trim(path@))),
        )),
{
    let t = trimmed(path);
    if t.unicode_len() == 0 {
        return Err("App path is required.".to_owned());
    }
    let ghost av = app_views(current@);
    let ghost k = lower(trim(path@));
    let mut retained: Vec<RegisteredApp> = Vec::new();
    let mut i: usize = 0;
    proof {
        assert(av.take(0) =~= Seq::<AppView>::empty());
        assert(app_views(retained@) =~= without_path(av.take(0), k));
    }
    while i < current.len()
        invariant
            0 <= i <= current.len(),
            av == app_views(current@),
            av.len() == current@.len(),
            t@ == trim(path@),
            k == lower(trim(path@)),
            app_views(retained@) == without_path(av.take(i as int), k),
        decreases current.len() - i,
    {
        let ghost before = app_views(retained@);
        if !eq_ci(current[i].path.as_str(), t) {
            retained.push(current[i].duplicate());
            proof {
                assert(app_views(retained@) =~= before.push(av[i as int]));
            }
        }
        proof {
            assert(av[i as int] == current@[i as int]@);
            let t1 = av.take(i + 1);
            assert(t1.drop_last() =~= av.take(i as int));
            assert(t1.last() == av[i as int]);
        }
        i = i + 1;
    }
    proof {
        assert(av.take(av.len() as int) =~= av);
    }
    Ok(sort_and_dedupe_apps(retained))
}

/// One candidate seen while scanning an installation directory: its path,
/// whether a directory stands at it, and what canonicalization yielded.
pub struct ScanEntry {
    pub path: String,
    pub is_dir: bool,
    pub canonical: CanonicalOutcome,
}

/// What one scanned candidate contributes: an entry named by its bundle
/// identity under its canonical path, or nothing when it is no valid
/// bundle or its path cannot be carried.
pub open spec fn scan_app(e: ScanEntry) -> Option<AppView> {
    if has_app_extension(e.path@) && e.is_dir {
        let p = match e.canonical {
            CanonicalOutcome::Resolved(c) => Some(c@),
            CanonicalOutcome::Unresolved => Some(e.path@),
            CanonicalOutcome::NotUtf8 => None,
        };
        match p {
            None => None,
            Some(pp) => match bundle_stem(pp) {
                None => None,
                Some(b) => Some(AppView { name: b, path: pp }),
            },
        }
    } else {
        None
    }
}

/// Every candidate's contribution, in scan order.
pub open spec fn collected(s: Seq<ScanEntry>) -> Seq<AppView>
    decreases s.len(),
{
    if s.len() == 0 {
        Seq::empty()
    } else {
        collected(s.drop_last()) + match scan_app(s.last()) {
            Some(a) => seq![a],
            None => Seq::empty(),
        }
    }
}

/// Collects the valid application bundles among scanned candidates,
/// best-effort: a candidate that fails any step is skipped, never fatal.
pub fn collect_apps_from_entries(entries: &Vec<ScanEntry>) -> (r: Vec<RegisteredApp>)
    ensures
        app_views(r@) == collected(entries@),
{
    let mut out: Vec<RegisteredApp> = Vec::new();
    let mut i: usize = 0;
    proof {
        assert(entries@.take(0) =~= Seq::<ScanEntry>::empty());
        assert(app_views(out@) =~= collected(entries@.take(0)));
    }
    while i < entries.len()
        invariant
            0 <= i <= entries.len(),
            app_views(out@) == collected(entries@.take(i as int)),
        decreases entries.len() - i,
    {
        let ghost before = app_views(out@);
        let e = &entries[i];
        if is_valid_app_bundle_path(e.path.as_str(), e.is_dir) {
            let pstr: Option<String> = match &e.canonical {
                CanonicalOutcome::Resolved(c) => Some(c.clone()),
                CanonicalOutcome::Unresolved => Some(e.path.clone()),
                CanonicalOutcome::NotUtf8 => None,
            };
            match pstr {
                Some(pp) => {
                    match bundle_name_from_app_path(pp.as_str()) {
                        Some(b) => {
                            out.push(RegisteredApp { name: b, path: pp });
                            proof {
                                assert(app_views(out@) =~= before.push(
                                    scan_app(entries@[i as int])->Some_0,
                                ));
                            }
                        },
                        None => {},
                    }
                },
                None => {},
            }
        }
        proof {
            assert(entries@.take(i + 1).drop_last() =~= entries@.take(i as int));
            assert(entries@.take(i + 1).last() == entries@[i as int]);
            match scan_app(entries@[i as int]) {
                Some(a) => {
                    assert(app_views(out@) =~= before + seq![a]);
                },
                None => {
                    assert(app_views(out@) =~= before + Seq::<AppView>::empty());
                },
            }
        }
        i = i + 1;
    }
    proof {
        assert(entries@.take(entries@.len() as int) =~= entries@);
    }
    out
}

/// The discovery list: every valid candidate from the installation
/// directories, deduplicated and sorted exactly as the registry is.
pub fn scan_installed_apps(entries: Vec<ScanEntry>) -> (r: Vec<RegisteredApp>)
    ensures
        app_views(r@) == normalize(collected(entries@)),
{
    let found = collect_apps_from_entries(&entries);
    sort_and_dedupe_apps(found)
}

} // verus!
