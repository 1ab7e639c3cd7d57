//! One pass over the shared folder, on the texts that are in it.

use aw_combined::records::{
    key_for, record_id, record_id_and_author, store_record, stored_lines, stored_records,
    RecordError, StoredValue, DECISION_KEY_PREFIX,
};
use aw_combined::report::{enter_imports, enter_published, enter_remembered, enter_settings};
use aw_combined::shared_pass::{decisions_to_import, device_meta, sync_settings, SettingsPass};
use aw_combined::shared_store::{
    check_folder, check_version, decisions_to_publish, read_applied, scan_decisions,
    write_applied, DecisionFile, FolderVersion, SharedSyncReport, SCHEMA_VERSION,
};
use aw_combined::text::frame;
use aw_combined::{SharedRecord, TextMap};

const NOW: &str = "2026-09-12T00:00:00Z";

fn stored(key: &str, value: &str) -> StoredValue {
    StoredValue { key: key.to_string(), value: value.to_string() }
}

// One pass over a peer's file and this device's own, with this device's own file after it.
fn pass(
    values: &[(&str, &str)],
    peer: &str,
    own_file: &str,
    agreed: Option<&str>,
    own: &str,
) -> (SettingsPass, String) {
    let held: Vec<StoredValue> = values.iter().map(|(k, v)| stored(k, v)).collect();
    let files = vec![peer.to_string(), own_file.to_string()];
    let report = sync_settings(&files, &held, agreed, NOW, own);
    let mut file = own_file.to_string();
    for line in &report.lines {
        file.push_str(line);
        file.push('\n');
    }
    (report, file)
}

fn decision(id: &str, author: &str) -> String {
    format!(
        "{{\"type\":\"decision\",\"id\":\"{id}\",\"created_at\":\"2026-09-11T00:00:00Z\",\
         \"created_by\":\"{author}\",\"window\":{{\"start\":\"2026-09-11T09:00:00Z\",\
         \"end\":\"2026-09-11T09:10:00Z\"}},\"signature\":{{\"participants\":[]}},\
         \"resolution\":{{\"outcome\":\"foreground\"}}}}"
    )
}

#[test]
fn a_peers_categories_arrive_in_the_datastore() {
    let line = "{\"type\":\"setting\",\"key\":\"classes\",\"value\":\"[1,2]\",\
                \"updated_at\":\"2026-09-11T00:00:00Z\",\"updated_by\":\"phone\"}\n";
    let (plan, _) = pass(&[], line, "", None, "desktop");
    assert_eq!(plan.writes.len(), 1, "{plan:?}");
    assert_eq!(plan.writes[0].key, "settings.classes");
    assert_eq!(plan.writes[0].value, "[1,2]");
    assert_eq!(plan.applied, r#"{"classes":"[1,2]"}"#);
}

#[test]
fn our_own_categories_reach_the_folder() {
    let (plan, body) =
        pass(&[("settings.classes", "[\"mine\"]")], "", "", None, "desktop");
    assert_eq!(plan.lines.len(), 1, "{plan:?}");
    assert!(body.contains("\"key\":\"classes\""), "{body}");
    assert!(body.contains("\"updated_by\":\"desktop\""), "{body}");
    assert_eq!(
        body,
        "{\"type\":\"setting\",\"key\":\"classes\",\"value\":\"[\\\"mine\\\"]\",\
         \"updated_at\":\"2026-09-12T00:00:00Z\",\"updated_by\":\"desktop\"}\n"
    );
}

#[test]
fn a_second_pass_with_no_edits_says_nothing_twice() {
    let values = [("settings.classes", "[\"mine\"]")];
    let (first, after_first) = pass(&values, "", "", None, "desktop");
    let (second, after_second) = pass(&values, "", &after_first, Some(&first.applied), "desktop");
    assert_eq!(second.lines.len(), 0, "{second:?}");
    assert_eq!(after_second, after_first);
}

#[test]
fn a_device_local_setting_is_left_where_it_is() {
    let (plan, body) =
        pass(&[("settings.theme", "\"dark\"")], "", "", None, "desktop");
    assert_eq!(plan.lines.len(), 0);
    assert!(!body.contains("theme"));
}

#[test]
fn a_decision_from_a_peer_is_imported_but_not_republished() {
    let line = decision("01ABCDEF", "phone");
    let scan = scan_decisions(&vec![DecisionFile { ours: false, text: format!("{line}\n") }]);
    assert_eq!(scan.peer_lines, vec![line.clone()]);
    assert_eq!(scan.shared_ids, vec!["01ABCDEF".to_string()]);

    let imports = decisions_to_import(&scan.peer_lines, &vec![]);
    assert_eq!(imports.records.len(), 1, "{imports:?}");
    assert!(imports.records[0].fresh, "nobody held it before");
    assert!(imports.problems.is_empty());
    let kept = &imports.records[0].record;
    assert_eq!(kept.key, format!("{DECISION_KEY_PREFIX}01ABCDEF"));
    let held = vec![stored(&kept.key, &kept.canonical)];
    assert!(decisions_to_publish(held, "desktop", &scan.shared_ids).is_empty());
    let held = vec![stored(&kept.key, &kept.canonical)];
    assert!(
        decisions_to_publish(held, "desktop", &vec![]).is_empty(),
        "somebody else's record is never ours to publish"
    );
    let again = decisions_to_import(&scan.peer_lines, &vec![stored(&kept.key, &kept.canonical)]);
    assert!(!again.records[0].fresh, "and nothing is imported twice: {again:?}");
}

#[test]
fn our_own_decision_is_published() {
    let kept = store_record(&decision("01OURS", "desktop")).unwrap();
    let held = || vec![stored(&kept.key, &kept.canonical)];
    let empty = scan_decisions(&vec![]);
    let published = decisions_to_publish(held(), "desktop", &empty.shared_ids);
    assert_eq!(published, vec![kept.canonical.clone()]);

    let ours = DecisionFile { ours: true, text: published.join("\n") };
    let after = scan_decisions(&vec![ours]);
    assert!(after.peer_lines.is_empty(), "our own file is not a peer's");
    assert!(decisions_to_publish(held(), "desktop", &after.shared_ids).is_empty());
}

#[test]
fn a_folder_that_is_not_there_is_an_error_not_a_panic() {
    let checked = check_folder("/nope/nope", "/nope/nope/VERSION", false, None);
    assert!(checked.is_err());
    assert_eq!(checked, Err("/nope/nope is not a folder".to_string()));
}

#[test]
fn a_newer_folder_is_refused_rather_than_appended_to() {
    let check = |raw| check_folder("/sync", "/sync/VERSION", true, raw);
    let err = check(Some("99\n")).unwrap_err();
    assert!(err.contains("version 99"), "{err}");
    assert_eq!(
        err,
        "This shared folder is version 99; this build speaks 1. \
         Update ActivityWatch on this computer before syncing."
    );
    assert_eq!(check(Some("x")), Err("/sync/VERSION is not a version number".to_string()));
    assert_eq!(check(Some("1")), Ok(false));
    assert_eq!(check(None), Ok(true));
    assert_eq!(check_version(Some("99\n")), FolderVersion::Newer(99));
    assert_eq!(check_version(Some("1\n")), FolderVersion::Known);
    assert_eq!(check_version(Some(" 0 ")), FolderVersion::Known);
    assert_eq!(check_version(Some("one")), FolderVersion::Unreadable);
    assert_eq!(check_version(Some("4294967296")), FolderVersion::Unreadable);
}

#[test]
fn an_unclaimed_folder_is_claimed() {
    assert_eq!(check_version(None), FolderVersion::Unclaimed);
    assert_eq!(check_version(Some(&SCHEMA_VERSION.to_string())), FolderVersion::Known);
}

#[test]
fn this_device_announces_itself() {
    let meta = device_meta("desktop-uuid", "Judes-Desktop", "linux", "v0.13.2", NOW);
    assert!(meta.contains("\"display_name\": \"Judes-Desktop\""), "{meta}");
    assert!(meta.contains("\"role\": \"desktop\""), "{meta}");
    assert_eq!(
        meta,
        "{\n  \"app_version\": \"v0.13.2\",\n  \"device_uuid\": \"desktop-uuid\",\n  \
         \"display_name\": \"Judes-Desktop\",\n  \"last_seen\": \"2026-09-12T00:00:00Z\",\n  \
         \"platform\": \"linux\",\n  \"role\": \"desktop\",\n  \"schema_version\": 1\n}"
    );
}

#[test]
fn a_line_that_cannot_be_stored_is_reported_and_the_rest_imported() {
    let lines = vec![decision("a", "phone"), decision("b b", "phone"), decision("c", "phone")];
    let imports = decisions_to_import(&lines, &vec![]);
    let ids: Vec<&str> = imports.records.iter().map(|r| r.record.id.as_str()).collect();
    assert_eq!(ids, vec!["a", "c"]);
    assert_eq!(
        imports.problems,
        vec!["`id` has characters that cannot be a key: b b".to_string()]
    );
}

#[test]
fn a_second_pass_imports_nothing() {
    let lines = vec![decision("a", "phone"), decision("b", "tablet"), decision("a", "phone")];
    let first = decisions_to_import(&lines, &vec![stored("combined.decision.b", "{}")]);
    let fresh: Vec<bool> = first.records.iter().map(|i| i.fresh).collect();
    assert_eq!(fresh, vec![true, false, false], "held already, and listed already");
    let held: Vec<StoredValue> =
        first.records.iter().map(|i| stored(&i.record.key, &i.record.canonical)).collect();
    let second = decisions_to_import(&lines, &held);
    assert!(second.records.iter().all(|i| !i.fresh), "{second:?}");
}

#[test]
fn a_joining_device_takes_what_the_folder_holds() {
    let peer = "{\"type\":\"setting\",\"key\":\"classes\",\"value\":\"[1]\",\
                \"updated_at\":\"2026-09-11T00:00:00Z\",\"updated_by\":\"phone\"}";
    let mine = [("settings.classes", "[2]"), ("settings.startOfDay", "\"04:00\"")];
    let (joined, file) = pass(&mine, peer, "", None, "desktop");
    assert_eq!(joined.writes.len(), 1, "the folder's categories are taken");
    assert_eq!(joined.lines.len(), 1, "and what only this device has is offered");
    assert!(joined.lines[0].contains("startOfDay"));
    let edited = [("settings.classes", "[3]"), ("settings.startOfDay", "\"04:00\"")];
    let (later, _) = pass(&edited, peer, &file, Some(&joined.applied), "desktop");
    assert_eq!(later.lines.len(), 1, "an edit after joining goes out");
    assert!(later.writes.is_empty());
}

#[test]
fn a_line_that_cannot_be_read_does_not_stop_the_others() {
    let peers = "not a line\n{\"type\":\"setting\",\"key\":\"classes\",\"value\":\"[3]\",\
                 \"updated_at\":\"2026-09-11T00:00:00Z\",\"updated_by\":\"good\"}\n";
    let (plan, _) = pass(&[], peers, "", None, "desktop");
    assert_eq!(plan.writes.len(), 1, "{plan:?}");
}

#[test]
fn what_was_agreed_is_read_back_as_it_was_written() {
    let mut agreed = TextMap::new();
    agreed.insert("startOfDay".to_string(), "\"04:00\"".to_string());
    agreed.insert("classes".to_string(), "[\"a\\b\"]".to_string());
    let text = write_applied(&agreed);
    assert_eq!(text, r#"{"classes":"[\"a\\b\"]","startOfDay":"\"04:00\""}"#);
    let back = read_applied(Some(&text));
    assert_eq!(back.keys(), vec!["classes".to_string(), "startOfDay".to_string()]);
    assert_eq!(back.get("startOfDay").unwrap(), "\"04:00\"");
    assert_eq!(back.get("classes").unwrap(), "[\"a\\b\"]");
}

#[test]
fn nothing_is_agreed_where_the_text_says_nothing() {
    assert_eq!(read_applied(None).len(), 0);
    assert_eq!(read_applied(Some("not json")).len(), 0);
    assert_eq!(read_applied(Some("[1]")).len(), 0);
    assert_eq!(read_applied(Some("{\"classes\":1}")).len(), 0);
}

#[test]
fn a_report_says_what_moved_and_nothing_else() {
    let mut report = SharedSyncReport::default();
    assert!(report.moved_nothing());
    assert_eq!(report.summary(), None);
    report.settings_applied = 2;
    report.decisions_published = 10;
    assert!(!report.moved_nothing());
    assert_eq!(
        report.summary().as_deref(),
        Some("took 2 setting(s) from peers, shared 10 decision(s)")
    );
    report.settings_published = 1;
    report.decisions_imported = 3;
    assert_eq!(
        report.summary().as_deref(),
        Some(
            "took 2 setting(s) from peers, shared 1 setting(s), imported 3 decision(s), \
             shared 10 decision(s)"
        )
    );
}

#[test]
fn a_record_is_stored_in_one_spelling() {
    let record = r#"{ "type" : "tombstone", "revokes":"d_1", "id":"t-1" }"#;
    let kept = store_record(record).unwrap();
    assert_eq!(kept.id, "t-1");
    assert_eq!(kept.key, "combined.decision.t-1");
    assert_eq!(kept.key, key_for("t-1"));
    assert_eq!(kept.canonical, r#"{"id":"t-1","revokes":"d_1","type":"tombstone"}"#);
    assert_eq!(store_record(&kept.canonical).unwrap().canonical, kept.canonical);
}

#[test]
fn what_is_no_record_is_refused() {
    for raw in ["not json", "{}", r#"{"type":"setting","id":"x"}"#, ""] {
        let err = store_record(raw).unwrap_err();
        assert!(matches!(err, RecordError::NotARecord), "{raw}: {err:?}");
        assert_eq!(err.message(), "not a decision or tombstone record");
    }
}

#[test]
fn an_id_that_cannot_be_a_key_is_refused() {
    let err = store_record(&decision("d%1", "a")).unwrap_err();
    assert!(matches!(&err, RecordError::BadId(id) if id == "d%1"), "{err:?}");
    assert_eq!(err.message(), "`id` has characters that cannot be a key: d%1");
}

#[test]
fn a_record_between_characters_that_are_no_json_is_refused() {
    // A no-break space is white space around a line, and nothing JSON knows of.
    let raw = format!("\u{a0}{}", decision("d_1", "a"));
    assert_eq!(record_id(&raw).as_deref(), Some("d_1"));
    let err = store_record(&raw).unwrap_err();
    assert!(matches!(&err, RecordError::NotJson(id, _) if id == "d_1"), "{err:?}");
    assert_eq!(err.message(), "d_1 is not JSON: expected value at line 1 column 1");
}

#[test]
fn stored_records_come_in_the_order_of_their_keys() {
    let values = || {
        vec![
            stored("combined.decision.b", &decision("b", "phone")),
            stored("combined.decision.a", &decision("a", "tablet")),
        ]
    };
    assert_eq!(stored_lines(values()), vec![decision("a", "tablet"), decision("b", "phone")]);
    let ids: Vec<String> = stored_records(values())
        .iter()
        .map(|r| match r {
            SharedRecord::Decision(d) => d.id.clone(),
            other => panic!("no decision: {other:?}"),
        })
        .collect();
    assert_eq!(ids, vec!["a".to_string(), "b".to_string()]);
}

#[test]
fn a_line_names_its_id_and_its_author() {
    assert_eq!(
        record_id_and_author(&decision("x", "phone")),
        Some(("x".to_string(), "phone".to_string()))
    );
    assert_eq!(record_id(&decision("x", "phone")).as_deref(), Some("x"));
    assert_eq!(record_id(r#"{"type":"prophecy","id":"p_1"}"#), None);
    assert_eq!(record_id_and_author("   "), None);
}

#[test]
fn what_could_not_be_published_is_not_agreed() {
    let held = [("settings.startOfDay", "\"04:00\""), ("settings.startOfWeek", "\"Monday\"")];
    let peer = "{\"type\":\"setting\",\"key\":\"classes\",\"value\":\"[3]\",\
                \"updated_at\":\"2026-09-11T00:00:00Z\",\"updated_by\":\"peer\"}\n";
    let (plan, _) = pass(&held, peer, "", Some("{\"classes\":\"[1]\"}"), "desktop");
    assert_eq!(plan.writes.len(), 1);
    assert_eq!(plan.lines.len(), 2);

    let mut report = SharedSyncReport::default();
    assert!(enter_settings(&mut report, &plan, &vec![None], None));
    assert_eq!((report.settings_applied, report.settings_published), (1, 2));
    enter_remembered(&mut report, None);
    assert!(report.problems.is_empty());
    enter_remembered(&mut report, Some("Locked"));
    assert_eq!(report.problems, ["Could not remember the settings state: Locked"]);

    let mut report = SharedSyncReport::default();
    let refused = vec![Some("Locked".to_string())];
    assert!(!enter_settings(&mut report, &plan, &refused, Some("Could not write x".to_string())));
    assert_eq!((report.settings_applied, report.settings_published), (0, 0));
    assert_eq!(report.problems, ["Could not apply setting classes: Locked", "Could not write x"]);
    assert!(report.moved_nothing());
}

#[test]
fn only_records_that_are_new_and_stored_count_as_imported() {
    let lines = vec![
        decision("d_1", "peer"),
        "nonsense".to_string(),
        decision("d_2", "peer"),
        decision("d_3", "peer"),
    ];
    let imports = decisions_to_import(&lines, &vec![stored(&key_for("d_1"), "{}")]);
    assert_eq!(imports.records.len(), 3);
    let mut report = SharedSyncReport::default();
    let failures = vec![None, None, Some("Locked".to_string())];
    enter_imports(&mut report, &imports, &failures);
    assert_eq!(report.decisions_imported, 1, "d_1 was held before and d_3 was not stored");
    assert_eq!(report.problems.len(), 2);
    assert_eq!(report.problems[1], "could not store d_3: Locked");

    enter_published(&mut report, &vec!["a".to_string(), "b".to_string()], None);
    assert_eq!(report.decisions_published, 2);
    enter_published(&mut report, &vec!["c".to_string()], Some("Could not open x".to_string()));
    assert_eq!(report.decisions_published, 2);
    assert_eq!(report.problems[2], "Could not open x");
}

#[test]
fn a_second_pass_moves_nothing() {
    let peer = decision("a", "phone") + "\n";
    let mine = decision("b", "desktop");
    let own = decision("z", "desktop") + "\n";
    let folder = |own: &str| {
        vec![
            DecisionFile { ours: false, text: peer.clone() },
            DecisionFile { ours: true, text: own.to_string() },
        ]
    };
    let mut held = vec![{
        let s = store_record(&format!("  {mine}\n")).unwrap();
        stored(&s.key, &s.canonical)
    }];
    let first = scan_decisions(&folder(&own));
    for import in decisions_to_import(&first.peer_lines, &held).records {
        assert!(import.fresh);
        held.push(stored(&import.record.key, &import.record.canonical));
    }
    let copy = |held: &Vec<StoredValue>| -> Vec<StoredValue> {
        held.iter().map(|v| stored(&v.key, &v.value)).collect()
    };
    let lines = decisions_to_publish(copy(&held), "desktop", &first.shared_ids);
    assert_eq!(lines.len(), 1);
    let own = own + &frame(&lines);

    let second = scan_decisions(&folder(&own));
    assert_eq!(second.peer_lines, first.peer_lines);
    let again = decisions_to_import(&second.peer_lines, &held);
    assert!(again.records.iter().all(|i| !i.fresh));
    assert!(decisions_to_publish(held, "desktop", &second.shared_ids).is_empty());
}
