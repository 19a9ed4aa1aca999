use base64::Engine;
use dfsnode::central::{apply_remote_config, config_url, parse_central_url, refresh_backoff_seconds};
use dfsnode::config::{Config, OptimizedConfig, PathConfig, TorrentConfig};
use dfsnode::store::ConfigStore;

fn policy(expire: u32) -> PathConfig {
    PathConfig {
        autoindex: Some(true),
        signature: None,
        signature_expire_seconds: Some(expire),
    }
}

fn config_with_paths(version: u64, paths: Vec<(String, PathConfig)>) -> Config {
    Config {
        version: Some(version),
        paths,
        torrents: None,
        management_token: None,
    }
}

#[test]
fn longest_prefix_lookup() {
    let cfg = OptimizedConfig::from_config(config_with_paths(
        1,
        vec![
            ("/a".to_string(), policy(111)),
            ("/a/b".to_string(), policy(222)),
        ],
    ));
    // the deeper prefix wins
    let p = cfg.find_path_config("/a/b/c").expect("policy for /a/b/c");
    assert_eq!(p.signature_expire_seconds, Some(222));
    // the exact entry is the degenerate ancestor
    let p = cfg.find_path_config("/a/b").expect("policy for /a/b");
    assert_eq!(p.signature_expire_seconds, Some(222));
    // a sibling falls back to the shorter prefix
    let p = cfg.find_path_config("/a/x").expect("policy for /a/x");
    assert_eq!(p.signature_expire_seconds, Some(111));
    // an unrelated path has no policy
    assert!(cfg.find_path_config("/z").is_none());
}

#[test]
fn later_path_entry_replaces_earlier() {
    let cfg = OptimizedConfig::from_config(config_with_paths(
        1,
        vec![
            ("/a".to_string(), policy(111)),
            ("/a".to_string(), policy(333)),
        ],
    ));
    let p = cfg.find_path_config("/a").expect("policy for /a");
    assert_eq!(p.signature_expire_seconds, Some(333));
}

#[test]
fn default_snapshot_is_empty() {
    let cfg = OptimizedConfig::default();
    assert_eq!(cfg.get_version(), 0);
    assert!(cfg.find_path_config("/anything").is_none());
    assert!(cfg.torrents.is_empty());
    assert!(cfg.prometheus_auth_header.is_none());
}

#[test]
fn version_defaults_to_zero() {
    let cfg = OptimizedConfig::from_config(Config {
        version: None,
        paths: vec![],
        torrents: None,
        management_token: None,
    });
    assert_eq!(cfg.get_version(), 0);
}

#[test]
fn management_token_becomes_bearer_header() {
    let cfg = OptimizedConfig::from_config(Config {
        version: Some(3),
        paths: vec![],
        torrents: None,
        management_token: Some("tok123".to_string()),
    });
    assert_eq!(cfg.prometheus_auth_header.as_deref(), Some("Bearer tok123"));
}

#[test]
fn change_detection_by_equality() {
    let first = apply_remote_config(0, config_with_paths(5, vec![]));
    let first = first.expect("version 5 differs from 0");
    assert_eq!(first.get_version(), 5);
    // the same version again publishes nothing
    assert!(apply_remote_config(first.get_version(), config_with_paths(5, vec![])).is_none());
    // a smaller version still publishes
    let back = apply_remote_config(first.get_version(), config_with_paths(4, vec![]));
    assert_eq!(back.expect("version 4 differs from 5").get_version(), 4);
}

#[test]
fn config_url_forms() {
    assert_eq!(config_url("https://c.example", None), "https://c.example/config");
    assert_eq!(
        config_url("https://c.example", Some("node7")),
        "https://c.example/node7/config"
    );
}

#[test]
fn refresh_backoff() {
    assert_eq!(refresh_backoff_seconds(false), 0);
    assert_eq!(refresh_backoff_seconds(true), 60);
}

#[test]
fn central_url_with_userinfo() {
    let r = parse_central_url("https://node1:pw@central.example:8443/base").expect("valid URL");
    let (clean, header, sid) = r;
    assert_eq!(clean.as_deref(), Some("https://central.example:8443/base"));
    let expected = format!(
        "Basic {}",
        base64::engine::general_purpose::STANDARD.encode("node1:pw")
    );
    assert_eq!(header.as_deref(), Some(expected.as_str()));
    assert_eq!(header.as_deref(), Some("Basic bm9kZTE6cHc="));
    assert_eq!(sid.as_deref(), Some("node1"));
}

#[test]
fn central_url_userinfo_without_colon() {
    let r = parse_central_url("https://ab@host/c").expect("valid URL");
    let (clean, header, sid) = r;
    assert_eq!(clean.as_deref(), Some("https://host/c"));
    // two input bytes leave one padding digit
    assert_eq!(header.as_deref(), Some("Basic YWI="));
    // with no colon, the whole userinfo is the server id
    assert_eq!(sid.as_deref(), Some("ab"));
}

#[test]
fn central_url_without_userinfo() {
    let r = parse_central_url("http://central.example/x").expect("valid URL");
    let (clean, header, sid) = r;
    assert_eq!(clean.as_deref(), Some("http://central.example/x"));
    assert!(header.is_none());
    assert!(sid.is_none());
}

#[test]
fn central_url_invalid() {
    assert!(parse_central_url("http://[oops").is_err());
}

#[test]
fn store_publish_and_read_back() {
    let store = ConfigStore::new(OptimizedConfig::default());
    assert_eq!(store.current().get_version(), 0);
    store.publish(OptimizedConfig::from_config(config_with_paths(9, vec![])));
    assert_eq!(store.current().get_version(), 9);
}

fn tiny_torrent() -> Vec<u8> {
    // a minimal metainfo document: an info dict with a zero-length file
    let mut b = Vec::new();
    b.extend_from_slice(b"d4:infod6:lengthi0e4:name1:a12:piece lengthi16384e6:pieces0:ee");
    b
}

#[test]
fn torrent_descriptors_keyed_by_id() {
    let cfg = OptimizedConfig::from_config(Config {
        version: Some(1),
        paths: vec![],
        torrents: Some(vec![
            TorrentConfig {
                path: "/t/a".to_string(),
                torrent: tiny_torrent(),
                initial_peers: vec![],
            },
            TorrentConfig {
                path: "/t/bad".to_string(),
                torrent: b"not a torrent".to_vec(),
                initial_peers: vec![],
            },
        ]),
        management_token: None,
    });
    // the parseable item is declared under a 40-digit id, the other is dropped
    assert_eq!(cfg.torrents.len(), 1);
    let (id, tc) = &cfg.torrents[0];
    assert_eq!(id.len(), 40);
    assert!(id.chars().all(|c| c.is_ascii_hexdigit() && !c.is_ascii_uppercase()));
    assert_eq!(tc.path, "/t/a");
}

#[test]
fn duplicate_descriptor_keeps_last() {
    let cfg = OptimizedConfig::from_config(Config {
        version: Some(1),
        paths: vec![],
        torrents: Some(vec![
            TorrentConfig {
                path: "/first".to_string(),
                torrent: tiny_torrent(),
                initial_peers: vec![],
            },
            TorrentConfig {
                path: "/second".to_string(),
                torrent: tiny_torrent(),
                initial_peers: vec![],
            },
        ]),
        management_token: None,
    });
    assert_eq!(cfg.torrents.len(), 1);
    assert_eq!(cfg.torrents[0].1.path, "/second");
}
