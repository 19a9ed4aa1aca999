use dfsnode::config::TorrentConfig;
use dfsnode::provision::{plan_sync, torrent_output_rel_path};
use dfsnode::signature::generate_signed_url;

fn declared(id: &str, path: &str) -> (String, TorrentConfig) {
    (
        id.to_string(),
        TorrentConfig {
            path: path.to_string(),
            torrent: vec![],
            initial_peers: vec![],
        },
    )
}

fn id_a() -> String {
    "a".repeat(40)
}

fn id_b() -> String {
    "b".repeat(40)
}

fn id_c() -> String {
    "c".repeat(40)
}

#[test]
fn reconciliation_symmetric_difference() {
    // declared {A, B} against live {B, C}: exactly one add (A), exactly
    // one remove (C); B, present in both, is left alone
    let declared = vec![declared(&id_a(), "/a"), declared(&id_b(), "/b")];
    let live = vec![id_b(), id_c()];
    let plan = plan_sync(&declared, &live);
    assert_eq!(plan.adds, vec![0]);
    assert_eq!(plan.removes, vec![1]);
}

#[test]
fn reconciliation_empty_sets() {
    let plan = plan_sync(&vec![], &vec![]);
    assert!(plan.adds.is_empty());
    assert!(plan.removes.is_empty());
}

#[test]
fn reconciliation_identical_sets_is_a_no_op() {
    let declared = vec![declared(&id_a(), "/a"), declared(&id_b(), "/b")];
    let live = vec![id_a(), id_b()];
    let plan = plan_sync(&declared, &live);
    assert!(plan.adds.is_empty());
    assert!(plan.removes.is_empty());
}

#[test]
fn invalid_live_ids_are_never_removed() {
    let live = vec![
        "short".to_string(),
        "g".repeat(40),
        "".to_string(),
    ];
    let plan = plan_sync(&vec![], &live);
    assert!(plan.removes.is_empty());
}

#[test]
fn live_id_case_differs_from_declared() {
    // the add check compares ids letter for letter, the remove check
    // compares them as hex ids: an upper-case live copy of a declared id
    // is fetched again, but not removed
    let declared = vec![declared(&id_a(), "/a")];
    let live = vec!["A".repeat(40)];
    let plan = plan_sync(&declared, &live);
    assert_eq!(plan.adds, vec![0]);
    assert!(plan.removes.is_empty());
}

#[test]
fn output_path_stays_inside_the_root() {
    assert_eq!(torrent_output_rel_path("/x/y"), "./x/y");
    assert_eq!(torrent_output_rel_path("x/y"), "x/y");
    assert_eq!(torrent_output_rel_path(""), "");
}

#[test]
fn unsigned_listing_link_is_the_path() {
    let url = generate_signed_url("/d/file", None, 60);
    assert_eq!(url, "/d/file");
}

#[test]
fn signed_listing_link_carries_a_token() {
    let url = generate_signed_url("/d/file", Some("k"), 60);
    assert!(url.starts_with("/d/file?$="));
    assert_eq!(url.len(), "/d/file?$=".len() + 72);
}
