use torrentoxide_core::engine::add_source;
use torrentoxide_core::forms::{
    category_draft, comma_list, feed_draft, hdr_at, indexer_draft, kind_at, max_active_input,
    poll_mins_input, poster_url, profile_draft, resolution_at, row_effect, RowEffect,
};
use torrentoxide_core::paths::parent_listing;
use torrentoxide_core::pending::{ratio_targets, RatioRow};
use torrentoxide_core::services::sort_dir_entries;
use torrentoxide_core::types::{DirEntry, HdrPref, MediaKind, Resolution, TorrentState};

#[test]
fn selectors() {
    assert_eq!(resolution_at("3"), Resolution::R1080);
    assert_eq!(resolution_at("99"), Resolution::R2160);
    assert_eq!(resolution_at("x"), Resolution::Unknown);
    assert_eq!(hdr_at("0"), HdrPref::Ignore);
    assert_eq!(hdr_at(""), HdrPref::Prefer);
    assert_eq!(hdr_at("7"), HdrPref::Require);
    assert_eq!(kind_at("1"), MediaKind::Tv);
    assert_eq!(kind_at("oops"), MediaKind::Other);
}

#[test]
fn numeric_fields() {
    assert_eq!(poll_mins_input(" 30 "), 30);
    assert_eq!(poll_mins_input("0"), 1);
    assert_eq!(poll_mins_input("soon"), 15);
    assert_eq!(max_active_input(""), 0);
    assert_eq!(max_active_input(" 4"), 4);
    assert_eq!(max_active_input("-1"), 0);
}

#[test]
fn drafts() {
    assert_eq!(comma_list(" en, ,de ,"), vec!["en".to_string(), "de".to_string()]);
    let p = profile_draft("  HD ", Resolution::R720, Resolution::R1080, HdrPref::Prefer, "English, german", true).unwrap();
    assert_eq!(p.name, "HD");
    assert!(p.id.is_empty());
    assert_eq!(p.languages, vec!["English".to_string(), "german".to_string()]);
    assert!(p.preferred_groups.is_empty());
    assert_eq!(profile_draft("  ", Resolution::R720, Resolution::R1080, HdrPref::Prefer, "", true).unwrap_err(), "Profile name is required.");
    let c = category_draft(" Films ", " Movies/HD ", MediaKind::Movie).unwrap();
    assert_eq!((c.name.as_str(), c.subdir.as_str()), ("Films", "Movies/HD"));
    assert_eq!(category_draft("", "x", MediaKind::Tv).unwrap_err(), "Category name is required.");
    let i = indexer_draft(" J ", " http://j/api ", " key ");
    assert_eq!((i.name.as_str(), i.torznab_url.as_str(), i.api_key.as_str(), i.enabled), ("J", "http://j/api", "key", true));
    let f = feed_draft(" F ", " http://f ", "tv".to_string(), "hd".to_string(), true);
    assert_eq!((f.name.as_str(), f.url.as_str(), f.category.as_str(), f.auto_download), ("F", "http://f", "tv", true));
}

#[test]
fn posters() {
    assert_eq!(poster_url(Some("/abc.jpg")).as_deref(), Some("https://image.tmdb.org/t/p/w92/abc.jpg"));
    assert_eq!(poster_url(Some("  ")), None);
    assert_eq!(poster_url(None), None);
}

#[test]
fn row_effects() {
    assert_eq!(row_effect(None, TorrentState::Live), RowEffect::Glitch);
    assert_eq!(row_effect(Some(TorrentState::Live), TorrentState::Finished), RowEffect::Burst);
    assert_eq!(row_effect(Some(TorrentState::Initializing), TorrentState::Finished), RowEffect::Burst);
    assert_eq!(row_effect(Some(TorrentState::Paused), TorrentState::Finished), RowEffect::Nothing);
    assert_eq!(row_effect(Some(TorrentState::Live), TorrentState::Error), RowEffect::Glitch);
    assert_eq!(row_effect(Some(TorrentState::Live), TorrentState::Live), RowEffect::Nothing);
    assert_eq!(row_effect(Some(TorrentState::Live), TorrentState::Paused), RowEffect::Nothing);
}

#[test]
fn url_sources() {
    assert_eq!(add_source("  magnet:?xt=urn:btih:x "), Ok("magnet:?xt=urn:btih:x".to_string()));
    assert_eq!(add_source("   "), Err("no magnet link or URL provided".to_string()));
}

#[test]
fn browser_parent_links() {
    assert_eq!(parent_listing("/data", "/data"), None);
    assert_eq!(parent_listing("/data/tv/show", "/data").as_deref(), Some("/data/tv"));
    assert_eq!(parent_listing("/data/", "/data"), None);
    assert_eq!(parent_listing("/data/./", "/data"), None);
    assert_eq!(parent_listing("/x", "/data").as_deref(), Some("/"));
    assert_eq!(parent_listing("/", "/data"), None);
}

#[test]
fn browser_entries_sorted() {
    let e = |n: &str| DirEntry { name: n.to_string(), path: format!("/d/{n}"), writable: true };
    let v = sort_dir_entries(vec![e("b"), e("A"), e("a"), e("C")]);
    let names: Vec<&str> = v.iter().map(|d| d.name.as_str()).collect();
    assert_eq!(names, vec!["A", "a", "b", "C"]);
}

fn ratio_row(id: u64, state: TorrentState, downloaded: u64, reached: bool) -> RatioRow {
    RatioRow { id, pending: false, state, downloaded, reached }
}

#[test]
fn seeding_goals_pause_once() {
    let rows = vec![
        ratio_row(1, TorrentState::Finished, 10, true),
        ratio_row(2, TorrentState::Finished, 10, false),
        ratio_row(3, TorrentState::Live, 10, true),
        ratio_row(4, TorrentState::Finished, 0, true),
        RatioRow { id: 5, pending: true, state: TorrentState::Finished, downloaded: 10, reached: true },
    ];
    let mut paused: Vec<u64> = vec![9];
    assert_eq!(ratio_targets(&mut paused, &rows, true), vec![1]);
    assert_eq!(paused, vec![1]);
    // already paused for its goal: not again
    assert_eq!(ratio_targets(&mut paused, &rows, true), Vec::<u64>::new());
    assert_eq!(paused, vec![1]);
    // goal switched off: nothing, bookkeeping still pruned to live torrents
    let mut p2: Vec<u64> = vec![1, 42];
    assert_eq!(ratio_targets(&mut p2, &rows, false), Vec::<u64>::new());
    assert_eq!(p2, vec![1]);
}
