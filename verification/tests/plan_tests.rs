use std::collections::VecDeque;

use torrentoxide_core::pending::{record_row_sample, retain_live, snapshot_order};
use torrentoxide_core::forms::profile_summary;
use torrentoxide_core::pvr::{
    effective_tmdb_key, merge_results, poll_plan, tmdb_key_setting, try_best_acceptable,
    try_feed_item_decision, try_poll_plan,
};
use torrentoxide_core::types::{HdrPref, Library, QualityProfile, Release, Resolution, RssFeed};

fn qprofile(id: &str, upgrades: bool) -> QualityProfile {
    QualityProfile {
        id: id.to_string(),
        name: id.to_uppercase(),
        min_resolution: Resolution::R720,
        cutoff_resolution: Resolution::R1080,
        hdr: HdrPref::Prefer,
        languages: vec![],
        preferred_groups: vec![],
        blocked_groups: vec![],
        upgrade_allowed: upgrades,
    }
}

fn release(title: &str, url: &str, seeders: Option<u32>) -> Release {
    Release { title: title.to_string(), url: url.to_string(), size: 1, seeders, indexer: String::new() }
}

fn feed(name: &str, profile: &str, enabled: bool, auto: bool) -> RssFeed {
    RssFeed {
        id: name.to_lowercase(),
        name: name.to_string(),
        url: format!("http://{name}/rss"),
        category: "tv".to_string(),
        quality_profile: profile.to_string(),
        auto_download: auto,
        enabled,
    }
}

#[test]
fn profile_summaries() {
    assert_eq!(profile_summary(&qprofile("p", true)), "720p → 1080p · HDR prefer · upgrades");
    assert_eq!(profile_summary(&qprofile("p", false)), "720p → 1080p · HDR prefer");
}

#[test]
fn tmdb_key_is_stored_trimmed() {
    let stored = tmdb_key_setting("  abc123 \n");
    assert_eq!(stored, "abc123");
    assert_eq!(effective_tmdb_key(Some(stored), Some("env".into())), Some("abc123".to_string()));
    let blank = tmdb_key_setting("   ");
    assert_eq!(blank, "");
    assert_eq!(effective_tmdb_key(Some(blank), Some("env".into())), Some("env".to_string()));
}

#[test]
fn indexer_results_merge_by_seeders() {
    let a = vec![release("A1", "u1", Some(3)), release("A2", "u2", None)];
    let b = vec![release("B1", "u3", Some(7)), release("B2", "u4", Some(3))];
    let m = merge_results(vec![("alpha".to_string(), a), ("beta".to_string(), b)]);
    let got: Vec<(&str, &str)> = m.iter().map(|r| (r.title.as_str(), r.indexer.as_str())).collect();
    assert_eq!(got, vec![("B1", "beta"), ("A1", "alpha"), ("B2", "beta"), ("A2", "alpha")]);
    assert!(merge_results(vec![]).is_empty());
}

#[test]
fn try_variants_carry_the_decision() {
    let rs = vec![release("Movie.Title.2010.720p", "m1", Some(5)), release("Movie.Title.2010.1080p", "m2", Some(9))];
    let fz = vec![false, false];
    let picked = try_best_acceptable(&rs, &fz, None, "Movie Title", None, None).unwrap().unwrap();
    assert_eq!(picked.0.url, "m2");
    assert_eq!(picked.1, 9);
    assert!(matches!(try_best_acceptable(&rs, &fz, None, "Other", None, None), Some(None)));
    let bad = vec![release("Movie.12345678901.1080p", "m3", None)];
    assert!(try_best_acceptable(&bad, &vec![false], None, "Movie", None, None).is_none());

    let lib = Library::default();
    assert_eq!(try_feed_item_decision("Show.S01E02.1080p", false, &lib, None), Some(Some(0)));
    assert_eq!(try_feed_item_decision("Show.S01E02.1080p", true, &lib, None), Some(None));
    assert_eq!(try_feed_item_decision("Show.12345678901", false, &lib, None), None);
}

#[test]
fn one_feed_poll() {
    let items = vec![
        release("Show.S01E01.1080p", "u1", None),
        release("Show.S01E02.1080p", "u2", None),
        release("Show.S01E02.1080p.again", "u2", None),
        release("Show.S01E03.480p", "u3", None),
    ];
    let fetched = vec![
        (feed("One", "hd", true, true), items.clone()),
        (feed("Off", "", false, true), vec![release("Other.S01E01", "u9", None)]),
        (feed("Two", "", true, true), vec![release("Show.S01E01.720p", "u1", None), release("Else.S02E01", "u5", None)]),
    ];
    let profiles = vec![qprofile("hd", false)];
    let lib = Library::default();
    let history = vec!["u1".to_string()];
    let plan = poll_plan(&fetched, &profiles, &lib, &history);
    let got: Vec<(&str, &str)> = plan.iter().map(|g| (g.url.as_str(), g.source.as_str())).collect();
    assert_eq!(got, vec![("u2", "One"), ("u5", "Two")]);
    assert_eq!(plan[1].score, 0);
    assert_eq!(plan[0].category, "tv");
    let bad = vec![(feed("Bad", "", true, true), vec![release("X.12345678901", "z", None)])];
    assert!(try_poll_plan(&bad, &profiles, &lib, &history).is_none());
    let off = vec![(feed("Bad", "", false, true), vec![release("X.12345678901", "z", None)])];
    assert_eq!(try_poll_plan(&off, &profiles, &lib, &history).map(|v| v.len()), Some(0));
}

#[test]
fn snapshot_rows_and_histories() {
    let entries = vec![(Some(7), true), (None, true), (Some(2), true), (Some(5), false), (Some(2), true)];
    assert_eq!(snapshot_order(&entries), vec![(2, 2), (2, 4), (7, 0)]);

    let mut hist: Vec<(u64, VecDeque<u32>)> = Vec::new();
    record_row_sample(&mut hist, 7, 9, 0, 3);
    assert_eq!(hist.len(), 1);
    assert_eq!(hist[0].1, VecDeque::from(vec![0, 0, 9]));
    record_row_sample(&mut hist, 2, 4, 0, 3);
    record_row_sample(&mut hist, 7, 8, 0, 3);
    assert_eq!(hist[0].1, VecDeque::from(vec![0, 9, 8]));
    assert_eq!(hist[1].1, VecDeque::from(vec![0, 0, 4]));
    let kept = retain_live(hist, &vec![2, 11]);
    assert_eq!(kept.len(), 1);
    assert_eq!(kept[0].0, 2);
}
