use launcher_core::apps::{sort_and_dedupe_apps, RegisteredApp};
use launcher_core::liveness::{is_app_running_in_commands, is_launchable_app_process_line};
use launcher_core::paths::bundle_name_from_app_path;

#[test]
fn detects_app_process_from_any_location_case_insensitive() {
    let line = "/Users/jordanheckler/companion/src-tauri/target/release/bundle/macos/companion.app/Contents/MacOS/app";
    assert!(is_launchable_app_process_line(line, "Companion"));
}

#[test]
fn ignores_sidecar_processes() {
    let line = "/Applications/Dugout.app/Contents/MacOS/backend-sidecar";
    assert!(!is_launchable_app_process_line(line, "Dugout"));
}

#[test]
fn ignores_sidecar_processes_with_arguments() {
    let line = "/Applications/Dugout.app/Contents/MacOS/backend-sidecar --port 7001";
    assert!(!is_launchable_app_process_line(line, "Dugout"));
}

#[test]
fn does_not_cross_match_other_bundles() {
    let line = "/Applications/Dugout.app/Contents/MacOS/app";
    assert!(!is_launchable_app_process_line(line, "Companion"));
}

#[test]
fn running_state_uses_matching_non_sidecar_processes_only() {
    let commands = "\
/Applications/Dugout.app/Contents/MacOS/backend-sidecar
/Users/jordanheckler/companion/src-tauri/target/release/bundle/macos/companion.app/Contents/MacOS/app
";
    assert!(is_app_running_in_commands("Companion", commands));
    assert!(!is_app_running_in_commands("Dugout", commands));
}

#[test]
fn supports_bundle_names_with_spaces() {
    let commands = "/Applications/HM Admin Console.app/Contents/MacOS/app";
    assert!(is_app_running_in_commands("HM Admin Console", commands));
}

#[test]
fn derives_bundle_name_from_path() {
    let bundle_name = bundle_name_from_app_path("/Applications/Companion.app");
    assert_eq!(bundle_name, Some("Companion".to_string()));
}

#[test]
fn sort_and_dedupe_apps_dedupes_case_insensitive_paths() {
    let apps = vec![
        RegisteredApp {
            name: "Dugout".to_string(),
            path: "/Applications/Dugout.app".to_string(),
        },
        RegisteredApp {
            name: "Companion".to_string(),
            path: "/Applications/companion.app".to_string(),
        },
        RegisteredApp {
            name: "Companion Updated".to_string(),
            path: "/applications/Companion.app".to_string(),
        },
    ];

    let result = sort_and_dedupe_apps(apps);
    assert_eq!(result.len(), 2);
    assert_eq!(result[0].name, "Companion Updated");
    assert_eq!(result[1].name, "Dugout");
}
