use std::collections::VecDeque;

use torrentoxide_core::engine::{limits_config, kbps_to_nz, percent_decode, source_label, source_label_safe};
use torrentoxide_core::paths::{
    confine_check, confine_target, is_within_root, normalize_lexical, valid_folder_name,
};
use torrentoxide_core::pending::{
    map_state, prefilled, push_capped, EngineState, PendingList, FAILED_TTL_MS, PENDING_ID_BASE,
};
use torrentoxide_core::types::TorrentState;

#[test]
fn rate_limits() {
    assert_eq!(kbps_to_nz(0), None);
    assert_eq!(kbps_to_nz(1), Some(1024));
    assert_eq!(kbps_to_nz(500), Some(512_000));
    assert_eq!(kbps_to_nz(u32::MAX), Some(u32::MAX));
    assert_eq!(kbps_to_nz(4_194_304), Some(u32::MAX));
    assert_eq!(kbps_to_nz(4_194_303), Some(4_294_966_272));
}

#[test]
fn percent_decoding() {
    assert_eq!(percent_decode("Big%20Buck+Bunny"), "Big Buck Bunny");
    assert_eq!(percent_decode("100%"), "100%");
    assert_eq!(percent_decode("%zz%41"), "%zzA");
    assert_eq!(percent_decode("caf%C3%A9"), "café");
    assert_eq!(percent_decode("%FF"), "\u{FFFD}");
    assert_eq!(percent_decode(""), "");
}

#[test]
fn labels_for_magnets() {
    assert_eq!(
        source_label("magnet:?xt=urn:btih:abcdef&dn=Big+Buck%20Bunny"),
        "Big Buck Bunny"
    );
    // a blank display name is skipped
    assert_eq!(
        source_label("magnet:?dn=%20%20&xt=urn:btih:0123456789abcdef0123"),
        "magnet 0123456789abcdef\u{2026}"
    );
    assert_eq!(source_label("magnet:?xt=urn:btih:short"), "magnet short\u{2026}");
    assert_eq!(source_label("magnet:?tr=udp://x"), "magnet link");
}

#[test]
fn labels_for_urls() {
    assert_eq!(source_label("https://example.com/files/ubuntu.torrent"), "ubuntu.torrent");
    assert_eq!(source_label("https://example.com/files/"), "files");
    assert_eq!(source_label("///"), "///");
    assert_eq!(source_label("plain"), "plain");
}

#[test]
fn lexical_normalization() {
    assert_eq!(normalize_lexical("/a/./b/../c"), "/a/c");
    assert_eq!(normalize_lexical("/../../x"), "/x");
    assert_eq!(normalize_lexical("/a//b/"), "/a/b");
    assert_eq!(normalize_lexical("a/../../b"), "b");
    assert_eq!(normalize_lexical("/"), "/");
    assert_eq!(normalize_lexical("/data/.."), "/");
}

#[test]
fn normalization_is_idempotent_on_examples() {
    for p in ["/a/./b/../c", "x/y/../z", "/../q", "/", "a//b"] {
        let once = normalize_lexical(p);
        assert_eq!(normalize_lexical(&once), once);
    }
}

#[test]
fn confinement_targets() {
    assert_eq!(confine_target("/data", "movies/new"), "/data/movies/new");
    assert_eq!(confine_target("/data", "../etc"), "/etc");
    assert_eq!(confine_target("/data", "/data/tv/../films"), "/data/films");
    assert_eq!(confine_target("/data", ""), "/data");
}

#[test]
fn confinement_checks() {
    assert!(is_within_root("/data/movies", "/data"));
    assert!(is_within_root("/data", "/data"));
    assert!(!is_within_root("/database", "/data"));
    assert!(!is_within_root("/etc", "/data"));
    assert_eq!(confine_check("/data/tv", "/data"), Ok("/data/tv".to_string()));
    assert_eq!(
        confine_check("/etc", "/data"),
        Err("path /etc is outside the allowed root /data".to_string())
    );
    let escaped = confine_target("/data", "../../etc/passwd");
    assert!(confine_check(&escaped, "/data").is_err());
}

#[test]
fn folder_names() {
    assert_eq!(valid_folder_name("  New Folder "), Ok("New Folder".to_string()));
    for bad in ["", "   ", "a/b", "a\\b", "..", ".", " .. "] {
        assert_eq!(valid_folder_name(bad), Err("invalid folder name".to_string()));
    }
    assert_eq!(valid_folder_name("...").as_deref(), Ok("..."));
}

#[test]
fn pending_ids_are_fresh_and_in_range() {
    let mut l = PendingList::new();
    let a = l.push("one".to_string(), "/d".to_string(), 10);
    let b = l.push("two".to_string(), "/d".to_string(), 20);
    assert_eq!(a, PENDING_ID_BASE);
    assert_eq!(b, PENDING_ID_BASE + 1);
    assert!(l.can_push());
    let rows = l.rows();
    assert_eq!(rows.len(), 2);
    assert_eq!(rows[0].name, "one");
    assert_eq!(rows[0].state, TorrentState::Initializing);
    assert_eq!(rows[0].error, None);
}

#[test]
fn pending_finish_ok_removes_and_err_marks() {
    let mut l = PendingList::new();
    let a = l.push("one".to_string(), "/d".to_string(), 10);
    let b = l.push("two".to_string(), "/e".to_string(), 20);
    l.finish(a, Ok(()), 30);
    let rows = l.rows();
    assert_eq!(rows.len(), 1);
    assert_eq!(rows[0].id, b);
    l.finish(b, Err("timed out fetching metadata from peers".to_string()), 40);
    let rows = l.rows();
    assert_eq!(rows[0].state, TorrentState::Error);
    assert_eq!(rows[0].error.as_deref(), Some("timed out fetching metadata from peers"));
    assert_eq!(rows[0].output_folder, "/e");
}

#[test]
fn pending_dismiss_and_expire() {
    let mut l = PendingList::new();
    let a = l.push("one".to_string(), "/d".to_string(), 0);
    let b = l.push("two".to_string(), "/d".to_string(), 0);
    l.finish(a, Err("bad".to_string()), 1_000);
    // not yet past the time limit
    l.expire(1_000 + FAILED_TTL_MS, FAILED_TTL_MS);
    assert_eq!(l.rows().len(), 2);
    // past it: only the failed one goes; a resolving one never expires
    l.expire(1_001 + FAILED_TTL_MS, FAILED_TTL_MS);
    let rows = l.rows();
    assert_eq!(rows.len(), 1);
    assert_eq!(rows[0].id, b);
    l.dismiss(b);
    assert!(l.rows().is_empty());
    // dismissing an unknown id changes nothing
    let c = l.push("three".to_string(), "/d".to_string(), 5);
    l.dismiss(c + 100);
    assert_eq!(l.rows().len(), 1);
}

#[test]
fn engine_states() {
    assert_eq!(map_state(EngineState::Paused, true), TorrentState::Paused);
    assert_eq!(map_state(EngineState::Error, true), TorrentState::Error);
    assert_eq!(map_state(EngineState::Live, true), TorrentState::Finished);
    assert_eq!(map_state(EngineState::Initializing, true), TorrentState::Finished);
    assert_eq!(map_state(EngineState::Live, false), TorrentState::Live);
    assert_eq!(map_state(EngineState::Initializing, false), TorrentState::Initializing);
}

#[test]
fn capped_history() {
    let mut h: VecDeque<u32> = prefilled(0, 3);
    assert_eq!(h, VecDeque::from(vec![0, 0, 0]));
    push_capped(&mut h, 7, 3);
    assert_eq!(h, VecDeque::from(vec![0, 0, 7]));
    push_capped(&mut h, 8, 2);
    assert_eq!(h, VecDeque::from(vec![7, 8]));
    let mut e: VecDeque<u32> = VecDeque::new();
    push_capped(&mut e, 1, 5);
    assert_eq!(e, VecDeque::from(vec![1]));
    for i in 0..100 {
        push_capped(&mut e, i, 5);
        assert!(e.len() <= 5);
        assert_eq!(*e.back().unwrap(), i);
    }
}

#[test]
fn labels_that_would_cut_a_character() {
    // byte 16 falls inside the two-byte `é`
    assert!(!source_label_safe("magnet:?xt=urn:btih:0123456789abcde\u{e9}0"));
    assert!(source_label_safe("magnet:?xt=urn:btih:0123456789abcd\u{e9}0"));
    assert_eq!(source_label("magnet:?xt=urn:btih:0123456789abcd\u{e9}0"), "magnet 0123456789abcd\u{e9}\u{2026}");
    assert!(source_label_safe("magnet:?xt=urn:btih:ab\u{e9}"));
    assert!(source_label_safe("magnet:?dn=x&xt=urn:btih:0123456789abcde\u{e9}0"));
    assert!(source_label_safe("https://host/\u{e9}"));
}

#[test]
fn engine_rate_caps() {
    let l = limits_config(0, 100);
    assert_eq!(l.download_bps, None);
    assert_eq!(l.upload_bps, Some(102_400));
}
