//! Databases of peers, and how the local server is reached.

use aw_combined::remotes::{
    find_remotes_nonlocal, get_remotes, get_server_config, host_databases, host_for_url,
    is_loopback_host, origin_from_db_path, sync_run, HostAddress, PathEntry, Transfer,
};
use aw_combined::sync::SyncMode;

const ROOT: [&str; 2] = ["/", "sync"];

fn file(below: &[&str]) -> PathEntry {
    let parts: Vec<String> = ROOT.iter().chain(below).map(|s| s.to_string()).collect();
    PathEntry { path: format!("/sync/{}", below.join("/")), parts }
}

fn paths(found: &[PathEntry]) -> Vec<&str> {
    found.iter().map(|p| p.path.as_str()).collect()
}

fn address(host: &str) -> HostAddress {
    match host {
        "127.0.0.1" | "127.0.0.2" => HostAddress::V4 { loopback: true },
        "192.0.2.1" => HostAddress::V4 { loopback: false },
        "::1" => HostAddress::V6 { loopback: true },
        "2001:db8::1" => HostAddress::V6 { loopback: false },
        _ => HostAddress::Name,
    }
}

#[test]
fn finds_peers_at_both_depths() {
    let files = vec![
        file(&["desktop-uuid", "test.db"]),
        file(&["jude_s_s25_ultra", "phone-uuid", "test.db"]),
    ];
    let found = find_remotes_nonlocal(&files, 2, "nobody", None);
    assert!(found.contains(&files[0]), "desktop layout missed: {found:?}");
    assert!(found.contains(&files[1]), "android layout missed: {found:?}");
}

#[test]
fn leaves_out_this_device_at_either_depth() {
    let files = vec![
        file(&["me", "test.db"]),
        file(&["my-host", "me", "test.db"]),
        file(&["them", "test.db"]),
    ];
    let found = find_remotes_nonlocal(&files, 2, "me", None);
    assert_eq!(paths(&found), vec!["/sync/them/test.db"], "own remote came back: {found:?}");
}

#[test]
fn ignores_a_database_lying_loose_at_the_root() {
    let files = vec![file(&["stray.db"]), file(&["them", "test.db"])];
    let found = find_remotes_nonlocal(&files, 2, "me", None);
    assert_eq!(paths(&found), vec!["/sync/them/test.db"]);
}

#[test]
fn does_not_follow_a_shared_folder_all_the_way_down() {
    let found = find_remotes_nonlocal(&vec![file(&["a", "b", "c", "test.db"])], 2, "me", None);
    assert!(found.is_empty(), "followed too deep: {found:?}");
}

#[test]
fn peers_come_sorted_and_a_path_narrows_them() {
    let files = vec![file(&["b", "x.db"]), file(&["a", "y.db"]), file(&["a", "notes.txt"])];
    let found = find_remotes_nonlocal(&files, 2, "nobody", None);
    assert_eq!(paths(&found), vec!["/sync/a/y.db", "/sync/b/x.db"]);
    let under: Vec<String> = ["/", "sync", "b"].iter().map(|s| s.to_string()).collect();
    let found = find_remotes_nonlocal(&files, 2, "nobody", Some(&under));
    assert_eq!(paths(&found), vec!["/sync/b/x.db"]);
}

#[test]
fn a_host_with_a_database_below_a_device_is_a_remote() {
    let files = vec![
        file(&["desk", "uuid-1", "a.db"]),
        file(&["desk", "uuid-2", "b.db"]),
        file(&["flat-uuid", "c.db"]),
        file(&["phone", "uuid-3", "notes.txt"]),
    ];
    assert_eq!(get_remotes(&files, 2), vec!["desk".to_string()]);
}

#[test]
fn reads_port_and_api_key_from_config_override() {
    let config =
        get_server_config(Some("port = 5611\n[auth]\napi_key = \"custom-key\"\n"), false).unwrap();
    assert_eq!(config.port, 5611);
    assert_eq!(config.api_key.as_deref(), Some("custom-key"));
}

#[test]
fn missing_config_override_uses_defaults() {
    let production = get_server_config(None, false).unwrap();
    let testing = get_server_config(None, true).unwrap();

    assert_eq!(production.port, 5600);
    assert!(production.api_key.is_none());
    assert_eq!(testing.port, 5666);
    assert!(testing.api_key.is_none());
}

#[test]
fn commented_or_empty_api_key_is_absent() {
    let config = get_server_config(
        Some("port = 5600\n[auth]\n#api_key = \"secret\"\napi_key = \"\"\n"),
        false,
    )
    .unwrap();
    assert!(config.api_key.is_none());
}

#[test]
fn a_configuration_of_the_wrong_kinds_falls_back() {
    let text = "port = 70000\nauth = [1.5, true, 2026-09-09]\n";
    let config = get_server_config(Some(text), true).unwrap();
    assert_eq!(config.port, 5666, "no such port");
    assert!(config.api_key.is_none(), "an array has no entries");
    assert_eq!(get_server_config(Some("port = \"5611\""), false).unwrap().port, 5600);
    assert_eq!(get_server_config(Some("[auth]\napi_key = 7"), false).unwrap().api_key, None);
    assert!(get_server_config(Some("port = = 1"), false).is_err());
}

#[test]
fn recognizes_only_loopback_hosts() {
    for host in ["127.0.0.1", "127.0.0.2", "::1", "localhost", "LOCALHOST"] {
        assert!(is_loopback_host(host, address(host)));
    }
    for host in ["example.com", "192.0.2.1", "localhost.example.com"] {
        assert!(!is_loopback_host(host, address(host)));
    }
}

#[test]
fn brackets_bare_ipv6_hosts_for_urls() {
    assert_eq!(host_for_url("::1", address("::1")), "[::1]");
    assert_eq!(host_for_url("2001:db8::1", address("2001:db8::1")), "[2001:db8::1]");
    assert_eq!(host_for_url("127.0.0.1", address("127.0.0.1")), "127.0.0.1");
    assert_eq!(host_for_url("localhost", address("localhost")), "localhost");
}

#[test]
fn origin_is_the_directory_holding_the_db() {
    let path: Vec<String> = "/sync/jude_s_s25_ultra/9f0c-uuid/test.db"
        .split('/')
        .map(String::from)
        .collect();
    assert_eq!(origin_from_db_path(&path).as_deref(), Some("9f0c-uuid"));
}

#[test]
fn origin_is_none_when_there_is_no_containing_directory() {
    assert_eq!(origin_from_db_path(&vec!["test.db".to_string()]), None);
    assert_eq!(origin_from_db_path(&vec![String::new(), "test.db".to_string()]), None);
}

#[test]
fn every_database_of_a_host_is_pulled() {
    let files = vec![
        file(&["desk", "uuid-1", "a.db"]),
        file(&["phone", "uuid-3", "c.db"]),
        file(&["desk", "uuid-2", "b.db"]),
        file(&["desk", "loose.db"]),
    ];
    assert_eq!(
        paths(&host_databases(&files, 2, "desk")),
        vec!["/sync/desk/uuid-1/a.db", "/sync/desk/uuid-2/b.db"]
    );
    assert!(host_databases(&files, 2, "laptop").is_empty());
}

#[test]
fn a_pass_pulls_before_it_pushes() {
    let files = vec![
        file(&["uuid-2", "test.db"]),
        file(&["uuid-1", "test.db"]),
        file(&["me", "test.db"]),
    ];
    let legs = |mode| {
        sync_run(&files, 2, "me", None, mode)
            .into_iter()
            .map(|t| match t {
                Transfer::Pull(path, origin) => format!("{path} of {}", origin.unwrap()),
                Transfer::Push(device) => format!("push {device}"),
            })
            .collect::<Vec<String>>()
    };
    let (one, two) = ("/sync/uuid-1/test.db of uuid-1", "/sync/uuid-2/test.db of uuid-2");
    assert_eq!(legs(SyncMode::Both), vec![one, two, "push me"]);
    assert_eq!(legs(SyncMode::Pull), vec![one, two]);
    assert_eq!(legs(SyncMode::Push), vec!["push me"]);
}
