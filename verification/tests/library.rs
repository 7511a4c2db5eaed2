use snipjar::timestamp::{instant_of_text, is_later};
use snipjar::launcher::{
    activation_script, current_frontmost_application_bundle_id, greet, is_launcher_window,
    other_application, script_outcome, toggle_launcher_action, tray_menu_action, LauncherToggle,
    TrayAction,
};
use snipjar::text::{bytes_contains, bytes_less, bytes_starts_with, chars_of, trim};
use snipjar::{
    check_rows_changed, copy_entry, get_entry, get_recent_entries, map_write_error,
    normalize_tags, paste_entry, prepare_create, prepare_update, search_entries, DataError,
    Entry, EntryInput, EntrySummary, NormalizedEntryInput, PasteMode,
};

fn strings(items: &[&str]) -> Vec<String> {
    items.iter().map(|s| s.to_string()).collect()
}

fn summary(id: &str, key: &str, tags: &[&str], updated_at: &str) -> EntrySummary {
    EntrySummary {
        id: id.to_string(),
        key: key.to_string(),
        tags: strings(tags),
        updated_at: updated_at.to_string(),
    }
}

fn entry(key: &str, value: &str) -> Entry {
    Entry {
        id: "id-1".to_string(),
        key: key.to_string(),
        value: value.to_string(),
        tags: vec![],
        created_at: "2026-01-01T00:00:00Z".to_string(),
        updated_at: "2026-01-01T00:00:00Z".to_string(),
    }
}

fn ids(list: &[EntrySummary]) -> Vec<String> {
    list.iter().map(|e| e.id.clone()).collect()
}

fn sql_error() -> rusqlite::Error {
    rusqlite::Error::QueryReturnedNoRows
}

// --- text helpers --------------------------------------------------------

#[test]
fn trim_removes_unicode_whitespace_at_both_ends_only() {
    assert_eq!(trim(" \t\u{3000}a b\u{85}\n"), "a b");
    assert_eq!(trim("   "), "");
    assert_eq!(trim(""), "");
    assert_eq!(trim("x\u{2003}y"), "x\u{2003}y");
}

#[test]
fn chars_of_lists_characters() {
    assert_eq!(chars_of("aé€"), vec!['a', 'é', '€']);
}

#[test]
fn byte_prefix_substring_and_order() {
    assert!(bytes_starts_with(b"email", b"em"));
    assert!(!bytes_starts_with(b"em", b"email"));
    assert!(bytes_contains(b"my-email-template", b"email"));
    assert!(bytes_contains(b"abc", b""));
    assert!(!bytes_contains(b"abc", b"abd"));
    assert!(bytes_less(b"abc", b"abd"));
    assert!(bytes_less(b"ab", b"abc"));
    assert!(!bytes_less(b"abc", b"abc"));
    assert!(!bytes_less(b"b", b"abc"));
}

// --- tags and validation --------------------------------------------------

#[test]
fn normalize_tags_trims_lowercases_drops_empty_and_dedups() {
    assert_eq!(normalize_tags(strings(&[" Work ", "WORK", ""])), strings(&["work"]));
    assert_eq!(
        normalize_tags(strings(&["Email", "team", "team"])),
        strings(&["email", "team"])
    );
    assert_eq!(normalize_tags(strings(&["  ", "\t"])), Vec::<String>::new());
    assert_eq!(normalize_tags(strings(&["b", "A", "a", "B"])), strings(&["b", "a"]));
}

#[test]
fn normalized_input_keeps_value_and_trims_key() {
    let n = NormalizedEntryInput::new(EntryInput {
        key: "  email ".to_string(),
        value: "  spaced value ".to_string(),
        tags: strings(&["X"]),
    })
    .expect("valid input");
    assert_eq!(n.key, "email");
    assert_eq!(n.value, "  spaced value ");
    assert_eq!(n.tags, strings(&["x"]));
}

#[test]
fn normalized_input_reports_key_before_value() {
    let err = NormalizedEntryInput::new(EntryInput {
        key: " ".to_string(),
        value: " ".to_string(),
        tags: vec![],
    })
    .unwrap_err();
    match err {
        DataError::Validation(m) => assert_eq!(m, "key must be non-empty"),
        other => panic!("unexpected {:?}", other),
    }
    let err = NormalizedEntryInput::new(EntryInput {
        key: "k".to_string(),
        value: "\n".to_string(),
        tags: vec![],
    })
    .unwrap_err();
    match err {
        DataError::Validation(m) => assert_eq!(m, "value must be non-empty"),
        other => panic!("unexpected {:?}", other),
    }
}

#[test]
fn prepare_create_draws_a_hyphenated_v4_id_and_a_utc_timestamp() {
    let a = prepare_create(EntryInput {
        key: "Key".to_string(),
        value: "v".to_string(),
        tags: strings(&["T"]),
    })
    .expect("valid");
    let b = prepare_create(EntryInput {
        key: "Key".to_string(),
        value: "v".to_string(),
        tags: vec![],
    })
    .expect("valid");
    assert_eq!(a.id.len(), 36);
    assert_eq!(a.id.chars().nth(14), Some('4'));
    assert_eq!(a.id.chars().filter(|c| *c == '-').count(), 4);
    assert_ne!(a.id, b.id);
    assert!(a.timestamp.ends_with('Z'));
    let stamp: Vec<char> = a.timestamp.chars().collect();
    assert!(stamp.len() >= 20);
    assert_eq!((stamp[4], stamp[7], stamp[10], stamp[13], stamp[16]), ('-', '-', 'T', ':', ':'));
    assert!([0, 1, 2, 3, 5, 6, 8, 9, 11, 12, 14, 15, 17, 18].iter().all(|i| stamp[*i].is_ascii_digit()));
    assert_eq!(a.input.key, "Key");
    assert_eq!(a.input.tags, strings(&["t"]));
}

#[test]
fn prepare_update_validates() {
    let p = prepare_update(EntryInput {
        key: " new ".to_string(),
        value: "v".to_string(),
        tags: vec![],
    })
    .expect("valid");
    assert_eq!(p.input.key, "new");
    assert!(!p.timestamp.is_empty());
    assert!(matches!(
        prepare_update(EntryInput { key: "".to_string(), value: "v".to_string(), tags: vec![] }),
        Err(DataError::Validation(_))
    ));
}

// --- search and recent order ---------------------------------------------

#[test]
fn recent_list_is_newest_first_and_stable() {
    let out = get_recent_entries(vec![
        summary("a", "a", &[], "2026-01-01T00:00:01Z"),
        summary("b", "b", &[], "2026-01-01T00:00:03Z"),
        summary("c", "c", &[], "2026-01-01T00:00:01Z"),
        summary("d", "d", &[], "2026-01-01T00:00:02Z"),
    ]);
    assert_eq!(ids(&out), strings(&["b", "d", "a", "c"]));
    assert!(get_recent_entries(vec![]).is_empty());
}

#[test]
fn blank_query_gives_the_recent_list() {
    let entries = || {
        vec![
            summary("a", "alpha", &[], "2026-01-01T00:00:01Z"),
            summary("b", "beta", &[], "2026-01-01T00:00:02Z"),
        ]
    };
    assert_eq!(ids(&search_entries(entries(), "")), strings(&["b", "a"]));
    assert_eq!(ids(&search_entries(entries(), " \t ")), strings(&["b", "a"]));
}

#[test]
fn search_ranks_prefix_then_substring_then_tag_and_drops_the_rest() {
    let out = search_entries(
        vec![
            summary("tag", "project", &["email"], "2026-01-01T00:00:09Z"),
            summary("none", "other", &["misc"], "2026-01-01T00:00:09Z"),
            summary("sub", "my-email-template", &["notes"], "2026-01-01T00:00:09Z"),
            summary("pre", "Email", &[], "2026-01-01T00:00:01Z"),
        ],
        "  EMAIL ",
    );
    assert_eq!(ids(&out), strings(&["pre", "sub", "tag"]));
}

#[test]
fn search_breaks_ties_by_recency_then_key_then_id() {
    let out = search_entries(
        vec![
            summary("2", "em-b", &[], "2026-01-01T00:00:01Z"),
            summary("1", "em-b", &[], "2026-01-01T00:00:01Z"),
            summary("3", "em-a", &[], "2026-01-01T00:00:01Z"),
            summary("4", "em-z", &[], "2026-01-01T00:00:05Z"),
        ],
        "em",
    );
    assert_eq!(ids(&out), strings(&["4", "3", "1", "2"]));
}

#[test]
fn search_compares_tags_as_stored() {
    let out = search_entries(
        vec![summary("x", "key", &["Work"], "2026-01-01T00:00:01Z")],
        "work",
    );
    assert!(out.is_empty());
}

#[test]
fn search_again_gives_the_same_result() {
    let make = || {
        vec![
            summary("1", "email", &["a"], "2026-01-01T00:00:01Z"),
            summary("2", "x", &["email"], "2026-01-01T00:00:03Z"),
            summary("3", "the-email", &[], "2026-01-01T00:00:02Z"),
        ]
    };
    let once = search_entries(make(), "email");
    let twice = search_entries(
        once.iter()
            .map(|e| summary(&e.id, &e.key, &e.tags.iter().map(|t| t.as_str()).collect::<Vec<_>>(), &e.updated_at))
            .collect(),
        "email",
    );
    assert_eq!(ids(&once), ids(&twice));
    assert_eq!(ids(&once), strings(&["1", "3", "2"]));
}

// --- store decisions ------------------------------------------------------

#[test]
fn get_entry_reports_missing_id() {
    let found = get_entry(Some(entry("k", "v")), "id-1").expect("present");
    assert_eq!(found.key, "k");
    match get_entry(None, "missing-id") {
        Err(DataError::NotFound(id)) => assert_eq!(id, "missing-id"),
        other => panic!("unexpected {:?}", other.map(|e| e.key)),
    }
}

#[test]
fn check_rows_changed_reports_missing_id() {
    assert!(check_rows_changed(1, "x").is_ok());
    match check_rows_changed(0, "gone") {
        Err(DataError::NotFound(id)) => assert_eq!(id, "gone"),
        other => panic!("unexpected {:?}", other),
    }
}

#[test]
fn map_write_error_detects_duplicate_keys() {
    assert!(matches!(
        map_write_error(Some("UNIQUE constraint failed: entries.key".to_string()), sql_error()),
        DataError::DuplicateKey
    ));
    assert!(matches!(
        map_write_error(Some("UNIQUE constraint failed: entry_tags.tag".to_string()), sql_error()),
        DataError::Sql(_)
    ));
    assert!(matches!(map_write_error(None, sql_error()), DataError::Sql(_)));
}

#[test]
fn error_messages() {
    assert_eq!(DataError::Validation("bad".to_string()).message(), "bad");
    assert_eq!(DataError::DuplicateKey.message(), "key must be unique");
    assert_eq!(DataError::NotFound("x1".to_string()).message(), "entry not found for id: x1");
    let sql = DataError::Sql(sql_error()).message();
    assert!(sql.starts_with("database operation failed: "));
    assert!(sql.len() > "database operation failed: ".len());
    let clip = DataError::Clipboard(arboard::Error::ContentNotAvailable).message();
    assert!(clip.starts_with("clipboard operation failed: "));
    assert!(clip.len() > "clipboard operation failed: ".len());
    let time_err = DataError::TimeFormatting(time::error::Format::InvalidComponent("year")).message();
    assert_eq!(
        time_err,
        "failed to format timestamp: The year component cannot be formatted into the requested format."
    );
}

#[test]
fn copy_and_paste_notices() {
    let e = entry("email", "alpha@example.com");
    let copied = copy_entry(&e);
    assert_eq!(copied.mode, PasteMode::CopiedOnly);
    assert_eq!(copied.message, "Copied \"email\" to clipboard.");
    let pasted = paste_entry(&e, Ok(()));
    assert_eq!(pasted.mode, PasteMode::Pasted);
    assert_eq!(pasted.message, "Pasted \"email\".");
    let fallback = paste_entry(&e, Err("no permission".to_string()));
    assert_eq!(fallback.mode, PasteMode::CopiedOnly);
    assert_eq!(
        fallback.message,
        "Copied \"email\" to clipboard. Auto-paste unavailable: no permission"
    );
}

// --- launcher decisions ---------------------------------------------------

#[test]
fn launcher_decisions() {
    assert_eq!(greet("Ada"), "Hello, Ada! You've been greeted from Rust!");
    assert_eq!(toggle_launcher_action(true, true), LauncherToggle::Hide);
    assert_eq!(toggle_launcher_action(true, false), LauncherToggle::Show);
    assert_eq!(toggle_launcher_action(false, true), LauncherToggle::Show);
    assert!(is_launcher_window("main"));
    assert!(!is_launcher_window("release-notes"));
    assert_eq!(tray_menu_action("tray-show"), Some(TrayAction::ShowLauncher));
    assert_eq!(tray_menu_action("tray-release-notes"), Some(TrayAction::OpenReleaseNotes));
    assert_eq!(tray_menu_action("tray-quit"), Some(TrayAction::Quit));
    assert_eq!(tray_menu_action("other"), None);
}

#[test]
fn previous_application_handling() {
    assert_eq!(
        other_application(Some("com.apple.Safari".to_string()), "com.snipjar.app"),
        Some("com.apple.Safari".to_string())
    );
    assert_eq!(other_application(Some("com.snipjar.app".to_string()), "com.snipjar.app"), None);
    assert_eq!(other_application(None, "com.snipjar.app"), None);
    assert_eq!(
        current_frontmost_application_bundle_id(Ok("com.apple.Notes".to_string())),
        Some("com.apple.Notes".to_string())
    );
    assert_eq!(current_frontmost_application_bundle_id(Ok(String::new())), None);
    assert_eq!(current_frontmost_application_bundle_id(Err("boom".to_string())), None);
    assert_eq!(
        activation_script("com.apple.Notes"),
        "tell application id \"com.apple.Notes\" to activate"
    );
}

#[test]
fn script_outcomes() {
    assert_eq!(script_outcome(true, "exit status: 0", " out \n", "warn"), Ok("out".to_string()));
    assert_eq!(
        script_outcome(false, "exit status: 1", "", "  denied \n"),
        Err("denied".to_string())
    );
    assert_eq!(
        script_outcome(false, "exit status: 1", "", "  "),
        Err("osascript failed with status exit status: 1".to_string())
    );
}

// --- update times ---------------------------------------------------------

#[test]
fn update_times_compare_by_the_instant_they_denote() {
    assert!(is_later("2026-01-01T00:00:05.12Z", "2026-01-01T00:00:05.1Z"));
    assert!(!is_later("2026-01-01T00:00:05.1Z", "2026-01-01T00:00:05.12Z"));
    assert!(is_later("2026-01-01T00:00:05.5Z", "2026-01-01T00:00:05Z"));
    assert!(is_later("2026-01-01T00:00:06Z", "2026-01-01T00:00:05.999999999Z"));
    assert_eq!(
        instant_of_text("2026-01-01T01:00:00+01:00"),
        instant_of_text("2026-01-01T00:00:00Z")
    );
    assert!(is_later("2026-01-01T00:30:00+01:00", "2025-12-31T23:00:00Z"));
    assert!(is_later("2025-12-31T20:00:00-05:00", "2026-01-01T00:30:00Z"));
    let leap_day = instant_of_text("2024-03-01T00:00:00Z").unwrap().0
        - instant_of_text("2024-02-28T00:00:00Z").unwrap().0;
    assert_eq!(leap_day, 2 * 86400);
    let plain_year = instant_of_text("2025-03-01T00:00:00Z").unwrap().0
        - instant_of_text("2025-02-28T00:00:00Z").unwrap().0;
    assert_eq!(plain_year, 86400);
    let year = instant_of_text("2027-01-01T00:00:00Z").unwrap().0
        - instant_of_text("2026-01-01T00:00:00Z").unwrap().0;
    assert_eq!(year, 365 * 86400);
    assert_eq!(instant_of_text("2026-01-01T00:00:05.25Z").unwrap().1, 250_000_000);
    assert_eq!(instant_of_text("not a time"), None);
    assert_eq!(instant_of_text("2026-01-01T00:00:05.Z"), None);
    assert_eq!(instant_of_text("2026-01-01T00:00:05.1234567890Z"), None);
    assert!(is_later("2026-01-01T00:00:00Z", "zzz"));
}

#[test]
fn recent_list_and_ranking_follow_the_instant() {
    let out = get_recent_entries(vec![
        summary("tenth", "a", &[], "2026-01-01T00:00:05.1Z"),
        summary("twelfth", "b", &[], "2026-01-01T00:00:05.12Z"),
        summary("whole", "c", &[], "2026-01-01T00:00:05Z"),
        summary("half", "d", &[], "2026-01-01T00:00:05.5Z"),
    ]);
    assert_eq!(ids(&out), strings(&["half", "twelfth", "tenth", "whole"]));
    let ranked = search_entries(
        vec![
            summary("tenth", "em-a", &[], "2026-01-01T00:00:05.1Z"),
            summary("twelfth", "em-b", &[], "2026-01-01T00:00:05.12Z"),
        ],
        "em",
    );
    assert_eq!(ids(&ranked), strings(&["twelfth", "tenth"]));
}
