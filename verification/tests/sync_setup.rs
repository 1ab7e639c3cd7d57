//! The shared folder as the setup page sees it: who is in it, which folder it is, and what a pass
//! reports.

use aw_combined::sync_setup::{
    age_secs, check_sync_dir, count_moved, default_sync_dir, failure_message, has_db_extension,
    peers, run_once, stored_sync_dir, stored_sync_enabled, summarise, sync_dir, sync_enabled,
    sync_folder, DirError, Folder, FoundFile, PassOutcome,
};
use aw_combined::Instant;

fn at(secs: i128) -> Instant {
    Instant::from_nanos(secs * 1_000_000_000).unwrap()
}

fn db_at(trail: &[&str], name: &str, secs: i128) -> FoundFile {
    FoundFile {
        trail: trail.iter().map(|s| s.to_string()).collect(),
        name: name.to_string(),
        last_modified: Some(at(secs)),
        size_bytes: 1,
    }
}

fn db(trail: &[&str]) -> FoundFile {
    db_at(trail, "test.db", 1_000)
}

#[test]
fn finds_a_desktop_and_a_phone_in_the_same_folder() {
    let found =
        peers(&vec![db(&["desktop-uuid"]), db(&["jude_s_s25_ultra", "phone-uuid"])], "nobody");
    let ids: Vec<&str> = found.iter().map(|p| p.device_id.as_str()).collect();
    assert!(ids.contains(&"desktop-uuid"), "{found:?}");
    assert!(ids.contains(&"phone-uuid"), "{found:?}");

    let phone = found.iter().find(|p| p.device_id == "phone-uuid").unwrap();
    assert_eq!(phone.hostname.as_deref(), Some("jude_s_s25_ultra"));
    let desktop = found.iter().find(|p| p.device_id == "desktop-uuid").unwrap();
    assert_eq!(desktop.hostname, None);
}

#[test]
fn one_device_is_one_row_however_many_copies_it_left() {
    let found = peers(
        &vec![
            db(&["me"]),
            db(&["Judes-Desktop", "me"]),
            db(&["jude_s_s25_ultra", "me"]),
            db(&["jude_s_tab_s10_fe", "me"]),
            db(&["jude_s_s25_ultra", "phone"]),
        ],
        "me",
    );
    assert_eq!(found.len(), 2, "one row per device, got {found:?}");
    assert!(found[0].is_own);
    assert_eq!(found[0].device_id, "me");
    assert_eq!(found[1].device_id, "phone");
}

#[test]
fn the_surviving_row_is_the_newest_write() {
    let day: i128 = 60 * 60 * 24;
    let found = peers(
        &vec![
            db_at(&["stale-host", "them"], "test.db", 10 * day),
            db_at(&["live-host", "them"], "test.db", 11 * day),
        ],
        "me",
    );
    assert_eq!(found.len(), 1);
    assert_eq!(found[0].hostname.as_deref(), Some("live-host"));
}

#[test]
fn this_device_is_marked_rather_than_hidden() {
    let found = peers(&vec![db(&["them"]), db(&["me"])], "me");
    assert_eq!(found.len(), 2);
    assert!(found[0].is_own, "own device should sort first: {found:?}");
    assert_eq!(found[0].device_id, "me");
    assert!(!found[1].is_own);
}

#[test]
fn syncthings_own_folders_are_not_devices() {
    let found = peers(
        &vec![
            db_at(&[".stfolder"], "marker.db", 1_000),
            db_at(&[".stfolder.removed-20260902"], "x.db", 1_000),
            db(&["them"]),
        ],
        "me",
    );
    assert_eq!(found.len(), 1, "{found:?}");
    assert_eq!(found[0].device_id, "them");
}

#[test]
fn a_database_loose_at_the_root_belongs_to_nobody() {
    assert!(peers(&vec![db_at(&[], "stray.db", 1_000)], "me").is_empty());
}

#[test]
fn a_folder_that_is_not_there_is_no_peers_rather_than_an_error() {
    assert!(peers(&vec![], "me").is_empty());
}

#[test]
fn a_file_that_is_no_database_is_no_peer() {
    assert!(peers(&vec![db_at(&["them"], "notes.txt", 1_000)], "me").is_empty());
    assert!(has_db_extension("test.db"));
    assert!(!has_db_extension("test.db-journal"));
    assert!(!has_db_extension(".db"), "a name that is all extension has none");
    assert!(!has_db_extension("db"));
}

#[test]
fn a_database_too_deep_is_no_peer() {
    assert!(peers(&vec![db(&["a", "b", "c"])], "me").is_empty());
}

#[test]
fn the_default_folder_is_not_the_top_of_the_home_directory() {
    let home = vec!["/".to_string(), "home".to_string(), "jude".to_string()];
    let dir = default_sync_dir(Some(home.clone()));
    assert_eq!(dir.last().unwrap(), "ActivityWatch-sync");
    assert_eq!(dir[dir.len() - 2], "Documents");
    assert_eq!(dir[..3], home[..]);
    assert_eq!(default_sync_dir(None)[0], ".");
}

#[test]
fn a_summary_counts_what_moved() {
    let log = "\
[INFO] Syncing bucket 'aw-watcher-window'
[INFO]   = Synced 184 new events
[INFO] Syncing bucket 'aw-watcher-afk'
[INFO]   = Synced 6 new events, tagged origin abc
[INFO] DB Worker thread finished";
    assert_eq!(summarise(log), "Synced 190 events across 2 buckets.");
    assert_eq!(count_moved(log), Some((190, 2)));
}

#[test]
fn a_pass_that_moved_nothing_says_so() {
    assert_eq!(summarise("[INFO] Pushing local data"), "Already up to date.");
    assert_eq!(summarise("   = Synced 0 new events"), "Already up to date.");
}

#[test]
fn one_event_is_not_pluralised() {
    assert_eq!(summarise("= Synced 1 new events"), "Synced 1 event across 1 bucket.");
}

#[test]
fn a_log_whose_counts_do_not_fit_is_not_counted() {
    let log = format!("Synced {} new events\nSynced 1 new events", u64::MAX);
    assert_eq!(count_moved(&log), None);
    assert_eq!(count_moved(&format!("Synced {}9 new events", u64::MAX)), Some((0, 0)));
}

#[test]
fn a_relative_folder_is_refused() {
    let err = check_sync_dir("ActivityWatch-sync", false).unwrap_err();
    assert!(err.message().contains("full path"), "{}", err.message());
    assert!(check_sync_dir("   ", false).is_err());
    assert_eq!(check_sync_dir("   ", false), Err(DirError::Empty));
    assert_eq!(DirError::Empty.message(), "A sync folder needs a path.");
    assert_eq!(check_sync_dir("x", false), Err(DirError::NotFull));
}

#[test]
fn a_chosen_folder_comes_back_as_chosen() {
    assert_eq!(check_sync_dir("  /srv/sync ", true), Ok("/srv/sync".to_string()));
    assert_eq!(stored_sync_dir("C:\\sync"), r#""C:\\sync""#);
    for dir in ["/srv/sync", "C:\\sync", "/srv/a \"folder\""] {
        assert_eq!(sync_dir(Some(&stored_sync_dir(dir))).as_deref(), Some(dir));
    }
    assert_eq!(sync_dir(Some(" /srv/sync\n")).as_deref(), Some("/srv/sync"));
    assert_eq!(sync_dir(Some("   ")), None);
}

#[test]
fn sync_is_off_until_somebody_turns_it_on() {
    assert!(!sync_enabled(None));
    assert!(sync_enabled(Some(stored_sync_enabled(true))));
    assert!(!sync_enabled(Some(stored_sync_enabled(false))));
    assert!(sync_enabled(Some("true")));
    assert!(!sync_enabled(Some("false")));
}

#[test]
fn an_unset_folder_is_the_default_one() {
    assert_eq!(sync_dir(None), None);
    let home = || Some(vec!["/home".to_string(), "jude".to_string()]);
    let expected = default_sync_dir(home());
    assert_eq!(expected, ["/home", "jude", "Documents", "ActivityWatch-sync"]);
    assert_eq!(sync_folder(None, home()), Folder::Default(expected));
    let nowhere = default_sync_dir(None);
    assert_eq!(nowhere, [".", "Documents", "ActivityWatch-sync"]);
    assert_eq!(sync_folder(Some("  "), None), Folder::Default(nowhere));
    assert_eq!(
        sync_folder(Some("\"/srv/sync\""), home()),
        Folder::Chosen("/srv/sync".to_string())
    );
}

#[test]
fn every_outcome_of_a_pass_is_reported() {
    let report = |outcome| {
        let run = run_once(outcome, at(5), true);
        assert_eq!(run.at, at(5));
        assert!(run.manual);
        (run.ok, run.message)
    };
    assert_eq!(
        report(PassOutcome::Finished("Synced 2 new events".to_string())),
        (true, "Synced 2 events across 1 bucket.".to_string())
    );
    let (ok, message) =
        report(PassOutcome::NoFolder("/srv/sync".to_string(), "denied".to_string()));
    assert!(!ok);
    assert_eq!(message, "Could not create /srv/sync: denied");
    let (ok, message) = report(PassOutcome::Failed("first\nlast words\n".to_string()));
    assert!(!ok);
    assert_eq!(message, "last words");
    assert_eq!(failure_message(" \n"), "aw-sync failed with no output");
    assert_eq!(
        report(PassOutcome::AlreadyRunning),
        (true, "A sync was already running; this request joined it.".to_string())
    );
    assert_eq!(
        report(PassOutcome::NotInstalled),
        (
            false,
            "aw-sync is not installed beside this server, so this build cannot sync.".to_string()
        )
    );
    assert_eq!(
        report(PassOutcome::NotStarted("no such file".to_string())),
        (false, "Could not start aw-sync: no such file".to_string())
    );
}

#[test]
fn an_age_is_whole_seconds_and_never_negative() {
    assert_eq!(age_secs(at(10), at(75)), 65);
    assert_eq!(age_secs(at(75), at(10)), 0);
}
