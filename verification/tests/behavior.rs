use launcher_core::apps::{sort_and_dedupe_apps, RegisteredApp};
use launcher_core::codec::{parse_registry_json, registry_to_json};
use launcher_core::launch::{launch_app_target, launch_failure_message, launch_path_failure_message};
use launcher_core::liveness::{get_running_apps, get_running_registered_apps};
use launcher_core::paths::{
    bundle_name_from_app_path, is_valid_app_bundle_path, normalize_app_path, CanonicalOutcome,
};
use launcher_core::registry::{
    add_registered_app, collect_apps_from_entries, load_registry, remove_registered_app,
    scan_installed_apps, ScanEntry,
};
use launcher_core::signals::{read_signals, signal_from_text};
use launcher_core::text::{contains_ci, trimmed};

fn app(name: &str, path: &str) -> RegisteredApp {
    RegisteredApp { name: name.to_string(), path: path.to_string() }
}

#[test]
fn dedupe_and_sort_is_idempotent() {
    let apps = vec![
        app("Dugout", "/Applications/Dugout.app"),
        app("Companion", "/Applications/companion.app"),
        app("Companion Updated", "/applications/Companion.app"),
        app("aardvark", "/Applications/Aardvark.app"),
    ];
    let once = sort_and_dedupe_apps(apps);
    let again: Vec<RegisteredApp> = once
        .iter()
        .map(|a| app(a.name.as_str(), a.path.as_str()))
        .collect();
    let twice = sort_and_dedupe_apps(again);
    assert_eq!(once.len(), twice.len());
    for i in 0..once.len() {
        assert_eq!(once[i].name, twice[i].name);
        assert_eq!(once[i].path, twice[i].path);
    }
}

#[test]
fn later_entry_wins_and_size_counts_distinct_paths() {
    let apps = vec![
        app("First", "/Applications/One.app"),
        app("Second", "/applications/ONE.APP"),
        app("Third", "/Applications/Two.app"),
    ];
    let result = sort_and_dedupe_apps(apps);
    assert_eq!(result.len(), 2);
    assert_eq!(result[0].name, "Second");
    assert_eq!(result[0].path, "/applications/ONE.APP");
    assert_eq!(result[1].name, "Third");
}

#[test]
fn sort_is_case_insensitive_with_path_tiebreak() {
    let apps = vec![
        app("beta", "/Applications/Beta.app"),
        app("Alpha", "/Applications/Zed.app"),
        app("alpha", "/Applications/Axe.app"),
    ];
    let result = sort_and_dedupe_apps(apps);
    assert_eq!(result.len(), 3);
    assert_eq!(result[0].path, "/Applications/Axe.app");
    assert_eq!(result[1].path, "/Applications/Zed.app");
    assert_eq!(result[2].name, "beta");
}

#[test]
fn registry_json_round_trips_byte_for_byte() {
    let apps = vec![
        app("Companion", "/Applications/Companion.app"),
        app("With \"quotes\" \\ and\ttabs", "/Applications/Odd\nName.app"),
    ];
    let saved = registry_to_json(&apps);
    let loaded = parse_registry_json(saved.as_str()).expect("emitted registry must parse");
    assert_eq!(loaded.len(), apps.len());
    for i in 0..apps.len() {
        assert_eq!(loaded[i].name, apps[i].name);
        assert_eq!(loaded[i].path, apps[i].path);
    }
    let saved_again = registry_to_json(&loaded);
    assert_eq!(saved, saved_again);
}

#[test]
fn emitted_registry_matches_pretty_json_form() {
    let apps = vec![app("Dugout", "/Applications/Dugout.app")];
    let saved = registry_to_json(&apps);
    assert_eq!(
        saved,
        "[\n  {\n    \"name\": \"Dugout\",\n    \"path\": \"/Applications/Dugout.app\"\n  }\n]"
    );
    let value: serde_json::Value = serde_json::from_str(saved.as_str()).unwrap();
    let reprinted = serde_json::to_string_pretty(&value).unwrap();
    assert_eq!(saved, reprinted);
    assert_eq!(registry_to_json(&Vec::new()), "[]");
}

#[test]
fn parser_accepts_whitespace_and_either_field_order() {
    let text = " [ {\n \"path\" : \"/Applications/A.app\" ,\n \"name\" : \"A\" } ] ";
    let parsed = parse_registry_json(text).expect("reordered fields parse");
    assert_eq!(parsed.len(), 1);
    assert_eq!(parsed[0].name, "A");
    assert_eq!(parsed[0].path, "/Applications/A.app");
    assert_eq!(parse_registry_json("[]").unwrap().len(), 0);
    assert_eq!(parse_registry_json("  [  ]  ").unwrap().len(), 0);
}

#[test]
fn parser_rejects_malformed_registries() {
    assert!(parse_registry_json("").is_none());
    assert!(parse_registry_json("{}").is_none());
    assert!(parse_registry_json("[{\"name\":\"A\"}]").is_none());
    assert!(parse_registry_json("[{\"name\":\"A\",\"path\":\"p\"}] trailing").is_none());
    assert!(parse_registry_json("[{\"name\":\"A\",\"other\":\"p\"}]").is_none());
    assert!(parse_registry_json("[{\"name\":\"A\",\"path\":\"p\"},]").is_none());
}

#[test]
fn absent_registry_file_loads_as_empty() {
    let loaded = load_registry(None).expect("absent file is not an error");
    assert!(loaded.is_empty());
}

#[test]
fn loaded_registry_is_normalized() {
    let text = "[{\"name\":\"B\",\"path\":\"/Applications/B.app\"},{\"name\":\"A\",\"path\":\"/applications/b.APP\"}]";
    let loaded = load_registry(Some(text)).unwrap();
    assert_eq!(loaded.len(), 1);
    assert_eq!(loaded[0].name, "A");
    let err = load_registry(Some("not json")).unwrap_err();
    assert_eq!(
        err,
        "Failed to parse app registry: the file is not a registry JSON array."
    );
}

#[test]
fn add_rejects_missing_bundle_directory() {
    let result = add_registered_app(
        "/Applications/Dugout.app",
        None,
        false,
        CanonicalOutcome::Unresolved,
        Vec::new(),
    );
    let err = result.unwrap_err();
    assert_eq!(
        err,
        "Invalid app bundle path: /Applications/Dugout.app. Expected an existing .app directory."
    );
}

#[test]
fn add_upserts_and_reports_the_sorted_registry() {
    let current = vec![app("Dugout", "/Applications/Dugout.app")];
    let result = add_registered_app(
        "/Applications/Companion.app",
        None,
        true,
        CanonicalOutcome::Unresolved,
        current,
    )
    .unwrap();
    assert_eq!(result.len(), 2);
    assert_eq!(result[0].name, "Companion");
    assert_eq!(result[1].name, "Dugout");

    let renamed = add_registered_app(
        " /Applications/Dugout.app ",
        Some("Dugout Renamed".to_string()),
        true,
        CanonicalOutcome::Unresolved,
        result,
    )
    .unwrap();
    assert_eq!(renamed.len(), 2);
    assert_eq!(renamed[1].name, "Dugout Renamed");
    assert_eq!(renamed[1].path, "/Applications/Dugout.app");
}

#[test]
fn add_error_cases_cover_path_and_name() {
    let empty = add_registered_app("   ", None, true, CanonicalOutcome::Unresolved, Vec::new());
    assert_eq!(empty.unwrap_err(), "App path is required.");

    let non_utf8 = add_registered_app(
        "/Applications/Dugout.app",
        None,
        true,
        CanonicalOutcome::NotUtf8,
        Vec::new(),
    );
    assert_eq!(non_utf8.unwrap_err(), "App path must be valid UTF-8.");

    let blank_name = add_registered_app(
        "/Applications/Dugout.app",
        Some("   ".to_string()),
        true,
        CanonicalOutcome::Unresolved,
        Vec::new(),
    );
    assert_eq!(blank_name.unwrap_err(), "App name cannot be empty.");

    let canonical = add_registered_app(
        "/Applications/Alias.app",
        None,
        true,
        CanonicalOutcome::Resolved("/Volumes/Real/Alias.app".to_string()),
        Vec::new(),
    )
    .unwrap();
    assert_eq!(canonical[0].path, "/Volumes/Real/Alias.app");
}

#[test]
fn remove_works_without_the_bundle_on_disk() {
    let current = vec![
        app("Dugout", "/Applications/Dugout.app"),
        app("Companion", "/Applications/Companion.app"),
    ];
    let result = remove_registered_app(" /applications/DUGOUT.APP ", current).unwrap();
    assert_eq!(result.len(), 1);
    assert_eq!(result[0].name, "Companion");

    let err = remove_registered_app("   ", Vec::new()).unwrap_err();
    assert_eq!(err, "App path is required.");
}

#[test]
fn scan_collects_valid_bundles_and_normalizes() {
    let entries = vec![
        ScanEntry {
            path: "/Applications/Zed.app".to_string(),
            is_dir: true,
            canonical: CanonicalOutcome::Unresolved,
        },
        ScanEntry {
            path: "/Applications/NotADir.app".to_string(),
            is_dir: false,
            canonical: CanonicalOutcome::Unresolved,
        },
        ScanEntry {
            path: "/Applications/ReadMe.txt".to_string(),
            is_dir: true,
            canonical: CanonicalOutcome::Unresolved,
        },
        ScanEntry {
            path: "/Applications/Alias.app".to_string(),
            is_dir: true,
            canonical: CanonicalOutcome::Resolved("/Applications/zed.APP".to_string()),
        },
    ];
    let collected = collect_apps_from_entries(&entries);
    assert_eq!(collected.len(), 2);
    let result = scan_installed_apps(entries);
    assert_eq!(result.len(), 1);
    assert_eq!(result[0].name, "zed");
    assert_eq!(result[0].path, "/Applications/zed.APP");
}

#[test]
fn signal_reader_takes_last_nonblank_line() {
    let text = "{\"value\":1,\"timestamp\":\"old\",\"label\":\"x\"}\n\n{\"value\":2,\"timestamp\":\"t\",\"label\":\"l\"}\n";
    let signal = signal_from_text(text).expect("last line parses");
    assert_eq!(signal.value_text, "2");
    assert_eq!(signal.timestamp, "t");
    assert_eq!(signal.label, "l");
}

#[test]
fn signal_reader_degrades_to_no_signal() {
    assert!(signal_from_text("").is_none());
    assert!(signal_from_text("\n  \n\t\n").is_none());
    assert!(signal_from_text("{\"value\":1,\"timestamp\":\"t\",\"label\":\"l\"}\nnot json\n").is_none());
    assert!(signal_from_text("{\"value\":\"text\",\"timestamp\":\"t\",\"label\":\"l\"}").is_none());
    assert!(signal_from_text("{\"timestamp\":\"t\",\"label\":\"l\"}").is_none());
}

#[test]
fn signals_report_is_per_file_independent() {
    let good = "{\"value\":3.5,\"timestamp\":\"now\",\"label\":\"cci\"}";
    let report = read_signals(Some(good), Some("garbage"), None);
    let companion = report.companion.expect("good file yields a signal");
    assert_eq!(companion.value_text, "3.5");
    assert_eq!(companion.timestamp, "now");
    assert!(report.dugout.is_none());
    assert!(report.hmm.is_none());
}

#[test]
fn bundle_name_edge_cases() {
    assert_eq!(bundle_name_from_app_path("/Applications/HM Admin Console.app"),
        Some("HM Admin Console".to_string()));
    assert_eq!(bundle_name_from_app_path("/Applications/Companion.app/"),
        Some("Companion".to_string()));
    assert_eq!(bundle_name_from_app_path("Companion"), Some("Companion".to_string()));
    assert_eq!(bundle_name_from_app_path("/a/b/.hidden"), Some(".hidden".to_string()));
    assert_eq!(bundle_name_from_app_path("/a/b/archive.tar.gz"),
        Some("archive.tar".to_string()));
    assert_eq!(bundle_name_from_app_path(""), None);
    assert_eq!(bundle_name_from_app_path("///"), None);
}

#[test]
fn bundle_name_follows_dot_components() {
    assert_eq!(bundle_name_from_app_path("/a/.."), None);
    assert_eq!(bundle_name_from_app_path(".."), None);
    assert_eq!(bundle_name_from_app_path("/a/."), Some("a".to_string()));
    assert_eq!(bundle_name_from_app_path("a/./."), Some("a".to_string()));
    assert_eq!(bundle_name_from_app_path("."), None);
    assert_eq!(bundle_name_from_app_path("./"), None);
    assert_eq!(bundle_name_from_app_path("/Applications/Dugout.app/."),
        Some("Dugout".to_string()));
    assert!(is_valid_app_bundle_path("/Applications/Dugout.app/.", true));
    assert!(!is_valid_app_bundle_path("/a/..", true));
}

#[test]
fn trimming_covers_unicode_whitespace() {
    assert_eq!(trimmed("\u{a0}hi\u{2003}"), "hi");
    let blank_name = add_registered_app(
        "/Applications/Dugout.app",
        Some("\u{a0}\u{a0}".to_string()),
        true,
        CanonicalOutcome::Unresolved,
        Vec::new(),
    );
    assert_eq!(blank_name.unwrap_err(), "App name cannot be empty.");
}

#[test]
fn parser_reads_basic_plane_hex_escapes() {
    let parsed = parse_registry_json("[{\"name\":\"\\u0041\\u00e9\",\"path\":\"p\"}]")
        .expect("hex escapes parse");
    assert_eq!(parsed[0].name, "A\u{e9}");
    assert!(parse_registry_json("[{\"name\":\"\\ud800\",\"path\":\"p\"}]").is_none());
    assert!(parse_registry_json("[{\"name\":\"\\u00zz\",\"path\":\"p\"}]").is_none());
}

#[test]
fn bundle_validity_requires_extension_and_directory() {
    assert!(is_valid_app_bundle_path("/Applications/Dugout.app", true));
    assert!(is_valid_app_bundle_path("/Applications/Dugout.APP", true));
    assert!(!is_valid_app_bundle_path("/Applications/Dugout.app", false));
    assert!(!is_valid_app_bundle_path("/Applications/Dugout", true));
    assert!(!is_valid_app_bundle_path("/Applications/Dugout.txt", true));
}

#[test]
fn normalize_path_validates_and_resolves() {
    let resolved = normalize_app_path(
        "  /Applications/Dugout.app  ",
        true,
        CanonicalOutcome::Resolved("/Volumes/X/Dugout.app".to_string()),
    );
    assert_eq!(resolved.unwrap(), "/Volumes/X/Dugout.app");
    let fallback = normalize_app_path("  /Applications/Dugout.app  ", true, CanonicalOutcome::Unresolved);
    assert_eq!(fallback.unwrap(), "/Applications/Dugout.app");
    let empty = normalize_app_path("   ", true, CanonicalOutcome::Unresolved);
    assert_eq!(empty.unwrap_err(), "App path is required.");
}

#[test]
fn launch_target_maps_known_short_names() {
    assert_eq!(launch_app_target("companion").unwrap(), "Companion");
    assert_eq!(launch_app_target("dugout").unwrap(), "Dugout");
    assert_eq!(launch_app_target("hmm").unwrap(), "HM Admin Console");
    assert_eq!(
        launch_app_target("finder").unwrap_err(),
        "Unsupported app name: finder"
    );
}

#[test]
fn launch_failure_messages_follow_stderr() {
    assert_eq!(
        launch_failure_message("Companion", "  \n"),
        "Failed to launch Companion. Expected app at /Applications/Companion.app"
    );
    assert_eq!(
        launch_failure_message("Companion", " boom "),
        "Failed to launch Companion: boom"
    );
    assert_eq!(
        launch_path_failure_message("/Applications/A.app", ""),
        "Failed to launch app at /Applications/A.app"
    );
    assert_eq!(
        launch_path_failure_message("/Applications/A.app", "denied\n"),
        "Failed to launch app at /Applications/A.app: denied"
    );
}

#[test]
fn batch_liveness_uses_one_snapshot() {
    let commands = "/Applications/Dugout.app/Contents/MacOS/app\n";
    let paths = vec![
        "/Applications/Dugout.app".to_string(),
        "/Applications/Companion.app".to_string(),
    ];
    let result = get_running_registered_apps(paths, commands);
    assert_eq!(result.len(), 2);
    assert_eq!(result[0].path, "/Applications/Dugout.app");
    assert!(result[0].running);
    assert!(!result[1].running);

    let fixed = get_running_apps(commands);
    assert!(fixed.dugout);
    assert!(!fixed.companion);
    assert!(!fixed.hmm);
}

#[test]
fn text_helpers_behave_case_insensitively() {
    assert_eq!(trimmed("  hi \n"), "hi");
    assert!(contains_ci("ABCDEF", "cde"));
    assert!(!contains_ci("ABCDEF", "gh"));
    assert!(contains_ci("anything", ""));
}
