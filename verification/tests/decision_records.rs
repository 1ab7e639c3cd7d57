//! Reading records and reducing them to the decisions that stand.

use aw_combined::decision::{Participant, Signature};
use aw_combined::{merge_decisions, parse_line, parse_records, SharedRecord};

fn line(id: &str, created_at: &str, created_by: &str, app: &str, scope: &str) -> String {
    format!(
        r#"{{"id":"{id}","type":"decision","created_at":"{created_at}","created_by":"{created_by}",
           "window":{{"start":"2026-09-10T10:00:00Z","end":"2026-09-10T10:30:00Z"}},
           "signature":{{"participants":[
             {{"device_role":"phone","device_uuid":"a","app":"YouTube","category":null}},
             {{"device_role":"tablet","device_uuid":"b","app":"Kindle","category":null}}]}},
           "resolution":{{"outcome":"foreground","foreground":{{"device_role":"tablet","device_uuid":"b","app":"{app}"}},
             "label":null,"deliberate_background":[]}},
           "scope":"{scope}"}}"#
    )
    .replace('\n', "")
}

#[test]
fn match_key_is_order_independent() {
    let a = Signature::of(vec![
        Participant { device_role: "phone".into(), device_uuid: "a".into(), app: "YT".into(), category: String::new() },
        Participant { device_role: "tablet".into(), device_uuid: "b".into(), app: "Kindle".into(), category: String::new() },
    ]);
    let b = Signature::of(vec![
        Participant { device_role: "tablet".into(), device_uuid: "z".into(), app: "Kindle".into(), category: String::new() },
        Participant { device_role: "phone".into(), device_uuid: "y".into(), app: "YT".into(), category: String::new() },
    ]);
    assert_eq!(a.match_key(), b.match_key(), "uuids are provenance, not key");
}

#[test]
fn null_category_reads_as_empty_string() {
    let r = parse_line(&line("d_1", "2026-09-10T11:00:00Z", "a", "Kindle", "once")).unwrap();
    match r {
        SharedRecord::Decision(d) => {
            assert!(d.signature.participants.iter().all(|p| p.category.is_empty()))
        }
        _ => panic!("expected a decision"),
    }
}

#[test]
fn newest_wins_then_lowest_author_then_lowest_id() {
    let recs: Vec<SharedRecord> = [
        line("d_2", "2026-09-10T11:00:00Z", "b", "Kindle", "once"),
        line("d_1", "2026-09-10T12:00:00Z", "z", "Kindle", "once"),
    ]
    .iter()
    .filter_map(|l| parse_line(l))
    .collect();
    let merged = merge_decisions(&recs);
    assert_eq!(merged.len(), 1, "same window and signature is one group");
    assert_eq!(merged[0].id, "d_1", "newest created_at wins");

    let recs: Vec<SharedRecord> = [
        line("d_2", "2026-09-10T11:00:00Z", "z", "Kindle", "once"),
        line("d_1", "2026-09-10T11:00:00Z", "b", "Kindle", "once"),
    ]
    .iter()
    .filter_map(|l| parse_line(l))
    .collect();
    assert_eq!(merge_decisions(&recs)[0].created_by, "b");
}

#[test]
fn merge_is_input_order_independent() {
    let mut recs: Vec<SharedRecord> = [
        line("d_2", "2026-09-10T11:00:00Z", "b", "Kindle", "once"),
        line("d_1", "2026-09-10T12:00:00Z", "z", "Kindle", "once"),
        line("d_3", "2026-09-10T09:00:00Z", "c", "Kindle", "once"),
    ]
    .iter()
    .filter_map(|l| parse_line(l))
    .collect();
    let forward = merge_decisions(&recs);
    recs.reverse();
    assert_eq!(forward, merge_decisions(&recs));
}

#[test]
fn a_duplicated_line_is_one_decision() {
    let dup = line("d_1", "2026-09-10T11:00:00Z", "a", "Kindle", "once");
    let recs: Vec<SharedRecord> = [dup.clone(), dup].iter().filter_map(|l| parse_line(l)).collect();
    assert_eq!(merge_decisions(&recs).len(), 1);
}

#[test]
fn a_tombstone_from_another_file_revokes() {
    let mut recs: Vec<SharedRecord> =
        vec![parse_line(&line("d_1", "2026-09-10T11:00:00Z", "a", "Kindle", "once")).unwrap()];
    recs.push(
        parse_line(
            r#"{"id":"t_1","type":"tombstone","created_at":"2026-09-10T12:00:00Z","created_by":"b","revokes":"d_1"}"#,
        )
        .unwrap(),
    );
    assert!(merge_decisions(&recs).is_empty());
}

#[test]
fn unparseable_created_at_loses_but_still_compares() {
    let good = parse_line(&line("d_1", "2026-09-10T11:00:00Z", "a", "Kindle", "once")).unwrap();
    let broken = parse_line(&line("d_2", "yesterday", "a", "Kindle", "once")).unwrap();
    let mut records = vec![broken, good];
    assert_eq!(merge_decisions(&records)[0].id, "d_1");
    records.reverse();
    assert_eq!(merge_decisions(&records)[0].id, "d_1");
}

#[test]
fn a_line_we_do_not_understand_is_kept_verbatim() {
    let raw = r#"{"type":"prophecy","id":"p_1"}"#;
    assert_eq!(parse_line(raw), Some(SharedRecord::Unknown(raw.to_string())));
    assert_eq!(parse_line("not json"), Some(SharedRecord::Unknown("not json".to_string())));
    assert_eq!(parse_line("   "), None);
}

#[test]
fn texts_joined_by_a_line_break_hold_the_records_of_both() {
    let one = line("d_1", "2026-09-10T11:00:00Z", "a", "Kindle", "once");
    let texts = [
        String::new(),
        "\n \n".to_string(),
        "half a li".to_string(),
        format!("{one}\r\nnot json\r"),
        format!("\n{one}\n"),
    ];
    for a in &texts {
        let filled = a.lines().filter(|l| !l.trim().is_empty()).count();
        assert_eq!(parse_records(a).len(), filled, "every filled line is a record: {a:?}");
        for b in &texts {
            let mut both = parse_records(a);
            both.extend(parse_records(b));
            assert_eq!(parse_records(&format!("{a}\n{b}")), both, "{a:?} and {b:?}");
        }
    }
}
