//! Copying buckets and events from one datastore to another.

use aw_combined::sync::{
    bucket_metadata_differs, checked_sync_bucket, get_or_create_sync_bucket, is_synced_bucket,
    resume_at, select_buckets, sync_bucket, sync_datastores, sync_one, sync_origin, tag_origin, Bucket,
    BucketAction, PageStep, SyncMode, SYNC_ORIGIN_KEY,
};
use aw_combined::time::MIN_NANOS;
use aw_combined::{Data, Duration, Event, Instant, EVENT_ORIGIN_KEY};

fn at(secs: i128) -> Instant {
    Instant::from_nanos(secs * 1_000_000_000).unwrap()
}

fn bucket(id: &str, hostname: &str, data: &str, end: Option<i128>) -> Bucket {
    Bucket {
        id: id.to_string(),
        bucket_type: "currentwindow".to_string(),
        client: "watcher".to_string(),
        hostname: hostname.to_string(),
        data: Data::parse(data).unwrap(),
        end: end.map(at),
    }
}

fn event(id: i64, secs: i128, data: &str) -> Event {
    Event {
        id: Some(id),
        timestamp: at(secs),
        duration: Duration::seconds(1),
        data: Data::parse(data).unwrap(),
    }
}

fn times(events: &[Event]) -> Vec<i128> {
    events.iter().map(|e| e.timestamp.nanos() / 1_000_000_000).collect()
}

#[test]
fn a_mode_says_which_way_events_move() {
    assert!(SyncMode::Pull.pulls() && !SyncMode::Pull.pushes());
    assert!(!SyncMode::Push.pulls() && SyncMode::Push.pushes());
    assert!(SyncMode::Both.pulls() && SyncMode::Both.pushes());
}

#[test]
fn a_copy_from_another_host_is_never_synced_on() {
    let all = vec![
        bucket("new", "desk", "{}", Some(20)),
        bucket("window-synced-from-phone", "phone", "{}", Some(1)),
        bucket("old", "unknown", "{}", Some(10)),
        bucket("empty", "desk", "{}", None),
    ];
    assert!(is_synced_bucket(&all[1]));
    let picked = select_buckets(&all, &None, None);
    let ids: Vec<&str> = picked.iter().map(|b| b.id.as_str()).collect();
    assert_eq!(ids, vec!["empty", "old", "new"], "those updated longest ago first");
    assert_eq!(picked[1].hostname, "unknown");

    let picked = select_buckets(&all, &Some(vec!["old".to_string()]), Some("uuid-9"));
    assert_eq!(picked.len(), 1);
    assert_eq!(picked[0].hostname, "uuid-9", "an unknown host is the device it was read from");
}

#[test]
fn an_imported_bucket_is_named_after_its_origin() {
    let b = bucket("window", "phone", r#"{"a":1}"#, None);
    assert_eq!(sync_origin(&b).as_deref(), Some("phone"));
    let want = sync_bucket(&b, false);
    assert_eq!(want.id, "window-synced-from-phone");
    assert_eq!(want.data.get(SYNC_ORIGIN_KEY).unwrap(), "phone");
    assert_eq!(want.data.text, r#"{"$aw.sync.origin":"phone","a":1}"#);

    let again = sync_bucket(&want, false);
    assert_eq!(again.id, "window-synced-from-phone", "the name is not stacked");
}

#[test]
fn a_staged_bucket_keeps_its_id_and_carries_no_origin() {
    let b = bucket("window", "phone", r#"{"$aw.sync.origin":"desk","a":1}"#, None);
    assert_eq!(sync_origin(&b).as_deref(), Some("desk"));
    let want = sync_bucket(&b, true);
    assert_eq!(want.id, "window");
    assert_eq!(want.data.text, r#"{"a":1}"#);
}

#[test]
fn an_origin_that_is_no_text_names_nothing() {
    let b = bucket("window", "phone", r#"{"$aw.sync.origin":7}"#, None);
    assert_eq!(sync_origin(&b), None);
    assert!(checked_sync_bucket(&b, false).is_none());
    assert_eq!(checked_sync_bucket(&b, true).unwrap().data.text, "{}");
}

#[test]
fn a_description_that_drifted_is_refreshed() {
    let want = bucket("window", "desk", r#"{"a":1,"b":2}"#, None);
    assert_eq!(get_or_create_sync_bucket(None, &want), BucketAction::Create);
    let mut have = bucket("window", "desk", r#"{ "b": 2, "a": 1 }"#, Some(5));
    assert_eq!(get_or_create_sync_bucket(Some(&have), &want), BucketAction::Keep);
    assert!(!bucket_metadata_differs(&have, &want));
    have.hostname = "unknown".to_string();
    assert_eq!(get_or_create_sync_bucket(Some(&have), &want), BucketAction::Refresh);
    have.hostname = "desk".to_string();
    have.data = Data::parse("{}").unwrap();
    assert!(bucket_metadata_differs(&have, &want));
}

#[test]
fn an_imported_event_remembers_where_it_was_collected() {
    let mut e = event(1, 0, r#"{"app":"A"}"#);
    tag_origin(&mut e, None);
    assert_eq!(e.data.get(EVENT_ORIGIN_KEY), None);
    tag_origin(&mut e, Some("uuid-1"));
    assert_eq!(e.data.get(EVENT_ORIGIN_KEY).unwrap(), "uuid-1");
    assert_eq!(e.data.get("app").unwrap(), "A");
    tag_origin(&mut e, Some("uuid-2"));
    assert_eq!(e.data.get(EVENT_ORIGIN_KEY).unwrap(), "uuid-1", "the first tag stands");
}

#[test]
fn a_sync_resumes_where_the_last_event_ends() {
    assert_eq!(resume_at(None, None), None);
    assert_eq!(resume_at(None, Some(at(3))), Some(at(3)));
    assert_eq!(resume_at(Some(&event(1, 10, "{}")), Some(at(3))), Some(at(11)));
}

#[test]
fn a_short_page_is_the_last_one() {
    let page = vec![event(2, 20, "{}"), event(1, 10, "{}")];
    match sync_one(page, 5, true, Some("uuid-1")) {
        PageStep::Last(Some(first), rest) => {
            assert_eq!(first.timestamp, at(10));
            assert_eq!(first.id, None, "an id means something only where it came from");
            assert_eq!(first.data.get(EVENT_ORIGIN_KEY).unwrap(), "uuid-1");
            assert_eq!(times(&rest), vec![20]);
        }
        other => panic!("{other:?}"),
    }
    let page = vec![event(2, 20, "{}"), event(1, 10, "{}")];
    match sync_one(page, 5, false, None) {
        PageStep::Last(None, rest) => assert_eq!(times(&rest), vec![10, 20]),
        other => panic!("{other:?}"),
    }
    assert!(matches!(sync_one(vec![], 5, true, None), PageStep::Done));
}

#[test]
fn every_event_is_copied_once_across_pages() {
    // Newest first; three events share second 20, and a page of three ends among them.
    let stored: Vec<i128> = vec![50, 40, 20, 20, 20, 10, 5];
    let mut copied: Vec<i128> = Vec::new();
    let mut end = at(1_000);
    let mut first_page = true;
    loop {
        let page: Vec<Event> = stored
            .iter()
            .filter(|s| at(**s) <= end)
            .take(4)
            .map(|s| event(1, *s, "{}"))
            .collect();
        match sync_one(page, 4, first_page, None) {
            PageStep::Done => break,
            PageStep::Insert(events, next) => {
                copied.extend(times(&events));
                assert!(next < end, "the next page lies further back");
                end = next;
                first_page = false;
            }
            PageStep::Last(first, rest) => {
                copied.extend(first.iter().map(|e| e.timestamp.nanos() / 1_000_000_000));
                copied.extend(times(&rest));
                break;
            }
        }
    }
    copied.sort();
    copied.reverse();
    assert_eq!(copied, stored);
}

#[test]
fn a_page_that_is_all_one_moment_is_taken_whole() {
    let page = vec![event(1, 20, "{}"), event(2, 20, "{}")];
    match sync_one(page, 2, true, None) {
        PageStep::Insert(events, next) => {
            assert_eq!(times(&events), vec![20, 20]);
            assert_eq!(next.nanos(), 20_000_000_000 - 1);
        }
        other => panic!("{other:?}"),
    }
}

#[test]
fn an_import_is_tagged_and_a_staging_copy_is_not() {
    let all = vec![
        bucket("window", "desk", "{}", Some(9)),
        bucket("afk", "desk", r#"{"$aw.sync.origin":7}"#, Some(5)),
        bucket("window-synced-from-phone", "phone", "{}", None),
    ];
    let pull = sync_datastores(&all, &None, false, Some("uuid-1"));
    assert_eq!(pull.origin.as_deref(), Some("uuid-1"));
    assert_eq!(pull.jobs.len(), 2);
    assert_eq!(pull.jobs[0].from.id, "afk");
    assert!(pull.jobs[0].into.is_none(), "an origin that is no text names nothing");
    assert_eq!(pull.jobs[1].into.as_ref().unwrap().id, "window-synced-from-desk");

    let push = sync_datastores(&all, &None, true, Some("uuid-1"));
    assert_eq!(push.origin, None);
    assert_eq!(push.jobs[1].into.as_ref().unwrap().id, "window");
}

#[test]
fn a_bucket_has_not_drifted_by_the_sign_of_a_zero() {
    let have = bucket("window", "desk", r#"{"offset":-0.0}"#, None);
    let want = bucket("window", "desk", r#"{"offset":0.0}"#, None);
    assert!(!bucket_metadata_differs(&have, &want));
    assert_eq!(get_or_create_sync_bucket(Some(&have), &want), BucketAction::Keep);
}

#[test]
fn a_page_may_end_at_the_beginning_of_time() {
    let earliest = Instant::from_nanos(MIN_NANOS).unwrap();
    let mut oldest = event(1, 0, "{}");
    oldest.timestamp = earliest;
    let page = vec![event(2, 5, "{}"), oldest];
    match sync_one(page, 2, true, None) {
        PageStep::Insert(events, next) => {
            assert_eq!(events.len(), 1, "the last run is fetched again, whole");
            assert_eq!(next, earliest);
        }
        other => panic!("{other:?}"),
    }
}
