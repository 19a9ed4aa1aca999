use dfsnode::cache::{status_from_stat, FileSystemStatus};
use dfsnode::config::{Config, OptimizedConfig, PathConfig};
use dfsnode::handler::{metrics_auth_ok, route_request, RequestDecision, RequestMethod};
use dfsnode::signature::{create_signature, signed_url_at};

fn snapshot(paths: Vec<(String, PathConfig)>) -> OptimizedConfig {
    OptimizedConfig::from_config(Config {
        version: Some(1),
        paths,
        torrents: None,
        management_token: None,
    })
}

const NOW: u64 = 1_700_000_000;

#[test]
fn metrics_path_wins_first() {
    let cfg = snapshot(vec![]);
    let d = route_request(
        &cfg,
        RequestMethod::Other,
        "/-/metrics",
        None,
        None,
        FileSystemStatus::NotExists,
        NOW,
    );
    assert!(matches!(d, RequestDecision::Metrics));
}

#[test]
fn non_get_head_is_refused() {
    let cfg = snapshot(vec![]);
    let d = route_request(
        &cfg,
        RequestMethod::Other,
        "/x",
        None,
        None,
        FileSystemStatus::File,
        NOW,
    );
    assert!(matches!(d, RequestDecision::MethodNotAllowed));
}

#[test]
fn missing_file_is_not_found() {
    let cfg = snapshot(vec![]);
    let d = route_request(
        &cfg,
        RequestMethod::Get,
        "/x",
        None,
        None,
        FileSystemStatus::NotExists,
        NOW,
    );
    assert!(matches!(d, RequestDecision::NotFound));
}

#[test]
fn plain_file_is_served() {
    let cfg = snapshot(vec![]);
    let d = route_request(
        &cfg,
        RequestMethod::Head,
        "/x",
        None,
        None,
        FileSystemStatus::File,
        NOW,
    );
    assert!(matches!(d, RequestDecision::ServeFile));
}

#[test]
fn directory_without_autoindex_is_not_found() {
    let cfg = snapshot(vec![(
        "/d".to_string(),
        PathConfig {
            autoindex: None,
            signature: None,
            signature_expire_seconds: None,
        },
    )]);
    let d = route_request(
        &cfg,
        RequestMethod::Get,
        "/d/sub",
        None,
        None,
        FileSystemStatus::Directory,
        NOW,
    );
    assert!(matches!(d, RequestDecision::NotFound));
}

#[test]
fn directory_with_autoindex_lists() {
    let cfg = snapshot(vec![(
        "/d".to_string(),
        PathConfig {
            autoindex: Some(true),
            signature: Some("s3cr3t".to_string()),
            signature_expire_seconds: Some(60),
        },
    )]);
    // the signature gate runs before the listing: unsigned is rejected
    let unsigned = route_request(
        &cfg,
        RequestMethod::Get,
        "/d",
        None,
        None,
        FileSystemStatus::Directory,
        NOW,
    );
    assert!(matches!(unsigned, RequestDecision::Reject(402)));
    let sig = create_signature("/d", (NOW + 60) as u32, "s3cr3t", None);
    let mut q = String::from("$=");
    q.push_str(&sig);
    let d = route_request(
        &cfg,
        RequestMethod::Get,
        "/d",
        Some(&q),
        None,
        FileSystemStatus::Directory,
        NOW,
    );
    match d {
        RequestDecision::Autoindex { signature_token, expire_seconds } => {
            assert_eq!(signature_token.as_deref(), Some("s3cr3t"));
            assert_eq!(expire_seconds, 60);
        }
        other => panic!("expected a listing, got {:?}", other),
    }
}

#[test]
fn autoindex_expiry_defaults_to_an_hour() {
    let cfg = snapshot(vec![(
        "/d".to_string(),
        PathConfig {
            autoindex: Some(true),
            signature: None,
            signature_expire_seconds: None,
        },
    )]);
    let d = route_request(
        &cfg,
        RequestMethod::Get,
        "/d",
        None,
        None,
        FileSystemStatus::Directory,
        NOW,
    );
    match d {
        RequestDecision::Autoindex { signature_token, expire_seconds } => {
            assert!(signature_token.is_none());
            assert_eq!(expire_seconds, 3600);
        }
        other => panic!("expected a listing, got {:?}", other),
    }
}

#[test]
fn protected_path_rejects_missing_token() {
    let cfg = snapshot(vec![(
        "/p".to_string(),
        PathConfig {
            autoindex: None,
            signature: Some("k".to_string()),
            signature_expire_seconds: None,
        },
    )]);
    let d = route_request(
        &cfg,
        RequestMethod::Get,
        "/p/file",
        None,
        None,
        FileSystemStatus::File,
        NOW,
    );
    match d {
        RequestDecision::Reject(status) => assert_eq!(status, 402),
        other => panic!("expected a rejection, got {:?}", other),
    }
}

#[test]
fn protected_path_serves_with_valid_token() {
    let cfg = snapshot(vec![(
        "/p".to_string(),
        PathConfig {
            autoindex: None,
            signature: Some("k".to_string()),
            signature_expire_seconds: None,
        },
    )]);
    let sig = create_signature("/p/file", (NOW + 60) as u32, "k", None);
    let mut q = String::from("$=");
    q.push_str(&sig);
    let d = route_request(
        &cfg,
        RequestMethod::Get,
        "/p/file",
        Some(&q),
        None,
        FileSystemStatus::File,
        NOW,
    );
    assert!(matches!(d, RequestDecision::ServeFile));
}

#[test]
fn deeper_policy_decides_protection() {
    // /a is open, /a/b is protected: the longest prefix decides
    let cfg = snapshot(vec![
        (
            "/a".to_string(),
            PathConfig {
                autoindex: None,
                signature: None,
                signature_expire_seconds: None,
            },
        ),
        (
            "/a/b".to_string(),
            PathConfig {
                autoindex: None,
                signature: Some("k".to_string()),
                signature_expire_seconds: None,
            },
        ),
    ]);
    let open = route_request(
        &cfg,
        RequestMethod::Get,
        "/a/x",
        None,
        None,
        FileSystemStatus::File,
        NOW,
    );
    assert!(matches!(open, RequestDecision::ServeFile));
    let gated = route_request(
        &cfg,
        RequestMethod::Get,
        "/a/b/x",
        None,
        None,
        FileSystemStatus::File,
        NOW,
    );
    assert!(matches!(gated, RequestDecision::Reject(402)));
}

#[test]
fn metrics_gate() {
    assert!(metrics_auth_ok(&None, None));
    assert!(metrics_auth_ok(&None, Some("anything")));
    let expected = Some("Bearer t".to_string());
    assert!(metrics_auth_ok(&expected, Some("Bearer t")));
    assert!(!metrics_auth_ok(&expected, Some("Bearer u")));
    assert!(!metrics_auth_ok(&expected, None));
}

#[test]
fn stat_outcomes_collapse() {
    assert_eq!(status_from_stat(false, false), FileSystemStatus::NotExists);
    assert_eq!(status_from_stat(false, true), FileSystemStatus::NotExists);
    assert_eq!(status_from_stat(true, false), FileSystemStatus::File);
    assert_eq!(status_from_stat(true, true), FileSystemStatus::Directory);
}

#[test]
fn signed_url_round_trips_through_routing() {
    let cfg = snapshot(vec![(
        "/p".to_string(),
        PathConfig {
            autoindex: Some(true),
            signature: Some("k".to_string()),
            signature_expire_seconds: Some(600),
        },
    )]);
    let url = signed_url_at("/p/file", "k", (NOW + 600) as u32);
    let (path, query) = url.split_once('?').expect("a query");
    let d = route_request(
        &cfg,
        RequestMethod::Get,
        path,
        Some(query),
        None,
        FileSystemStatus::File,
        NOW,
    );
    assert!(matches!(d, RequestDecision::ServeFile));
}
