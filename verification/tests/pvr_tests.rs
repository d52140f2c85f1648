use torrentoxide_core::pvr::{
    monitor_episode_key, monitor_movie_key, monitor_query, best_acceptable, category_rel_dir, category_subdir, effective_tmdb_key, feed_poll_mins,
    feed_poll_mins_setting, needs_search, prepare_category, prepare_feed, prepare_indexer,
    prepare_quality_profile, should_grab, slugify, sort_by_seeders, tag_indexer, title_matches,
};
use torrentoxide_core::quality::{cutoff_score, score, ParsedRelease};
use torrentoxide_core::types::{
    fmt_eta, norm_title, Category, HdrPref, Indexer, Library, LibraryEpisode, LibraryMovie,
    LibraryShow, MediaKind, QualityProfile, Release, Resolution, RssFeed, Source, TorrentState,
};

fn profile(hdr: HdrPref, upgrades: bool) -> QualityProfile {
    QualityProfile {
        id: "p".to_string(),
        name: "P".to_string(),
        min_resolution: Resolution::R720,
        cutoff_resolution: Resolution::R1080,
        hdr,
        languages: vec![],
        preferred_groups: vec!["NTb".to_string()],
        blocked_groups: vec!["YIFY".to_string()],
        upgrade_allowed: upgrades,
    }
}

fn parsed(res: Resolution, src: Source, hdr: bool, group: Option<&str>) -> ParsedRelease {
    ParsedRelease {
        title: "Show".to_string(),
        year: None,
        season: None,
        episode: None,
        resolution: res,
        source: src,
        hdr,
        dv: false,
        language: None,
        group: group.map(|g| g.to_string()),
        proper: false,
        repack: false,
        is_show: false,
    }
}

#[test]
fn slugs() {
    assert_eq!(slugify("  My Movies!! 2024 "), "my-movies-2024");
    assert_eq!(slugify("--TV / Anime--"), "tv-anime");
    assert_eq!(slugify("!!!"), "");
}

#[test]
fn category_preparation() {
    let c = Category { slug: String::new(), name: "  Kids Movies ".to_string(), subdir: "  ".to_string(), kind: MediaKind::Movie };
    let k = prepare_category(c).unwrap();
    assert_eq!(k.name, "Kids Movies");
    assert_eq!(k.slug, "kids-movies");
    assert_eq!(k.subdir, "Kids Movies");
    let c = Category { slug: String::new(), name: " ".to_string(), subdir: String::new(), kind: MediaKind::Tv };
    assert_eq!(prepare_category(c).unwrap_err(), "category name is required");
    let c = Category { slug: String::new(), name: "***".to_string(), subdir: String::new(), kind: MediaKind::Tv };
    assert_eq!(prepare_category(c).unwrap_err(), "category name must contain letters or digits");
}

#[test]
fn profile_indexer_feed_preparation() {
    let mut p = profile(HdrPref::Ignore, true);
    p.name = " HD Only ".to_string();
    let k = prepare_quality_profile(p).unwrap();
    assert_eq!((k.name.as_str(), k.id.as_str()), ("HD Only", "hd-only"));
    let mut p = profile(HdrPref::Ignore, true);
    p.name = "".to_string();
    assert_eq!(prepare_quality_profile(p).unwrap_err(), "profile name is required");

    let i = Indexer { id: String::new(), name: "Jackett".to_string(), torznab_url: " ".to_string(), api_key: "k".to_string(), enabled: true };
    assert_eq!(prepare_indexer(i).unwrap_err(), "Torznab URL is required");
    let i = Indexer { id: String::new(), name: " Jackett ".to_string(), torznab_url: "http://j".to_string(), api_key: "k".to_string(), enabled: true };
    assert_eq!(prepare_indexer(i).unwrap().id, "jackett");

    let f = RssFeed { id: String::new(), name: "Feed".to_string(), url: "".to_string(), category: String::new(), quality_profile: String::new(), auto_download: true, enabled: true };
    assert_eq!(prepare_feed(f).unwrap_err(), "feed URL is required");
    let f = RssFeed { id: String::new(), name: "?".to_string(), url: "http://f".to_string(), category: String::new(), quality_profile: String::new(), auto_download: true, enabled: true };
    assert_eq!(prepare_feed(f).unwrap_err(), "feed name must contain letters or digits");
}

#[test]
fn scoring_weights() {
    let prof = profile(HdrPref::Prefer, true);
    assert_eq!(score(&parsed(Resolution::R1080, Source::WebDl, false, None), &prof), Some(30_400));
    assert_eq!(score(&parsed(Resolution::R1080, Source::WebDl, true, None), &prof), Some(32_400));
    assert_eq!(score(&parsed(Resolution::R720, Source::Bluray, false, Some("ntb")), &prof), Some(20_800));
    assert_eq!(score(&parsed(Resolution::R480, Source::Bluray, false, None), &prof), None);
    assert_eq!(score(&parsed(Resolution::Unknown, Source::Unknown, false, None), &prof), Some(0));
    assert_eq!(score(&parsed(Resolution::R1080, Source::WebDl, false, Some("yify")), &prof), None);
    assert_eq!(score(&parsed(Resolution::R1080, Source::WebDl, false, Some(" yify ")), &prof), Some(30_400));
    let req = profile(HdrPref::Require, true);
    assert_eq!(score(&parsed(Resolution::R2160, Source::Remux, false, None), &req), None);
    assert_eq!(cutoff_score(&prof), 32_000);
    assert_eq!(cutoff_score(&profile(HdrPref::Ignore, true)), 30_000);
}

#[test]
fn resolution_dominates_on_examples() {
    let prof = profile(HdrPref::Prefer, true);
    let lo = score(&parsed(Resolution::R720, Source::Remux, true, Some("NTb")), &prof).unwrap();
    let hi = score(&parsed(Resolution::R1080, Source::Cam, false, None), &prof).unwrap();
    assert!(hi > lo);
}

#[test]
fn grab_decisions() {
    let prof = profile(HdrPref::Prefer, true);
    assert!(should_grab(None, 0, None));
    assert!(should_grab(Some(20_000), 30_000, Some(&prof)));
    assert!(!should_grab(Some(32_000), 40_000, Some(&prof)));
    assert!(!should_grab(Some(20_000), 20_000, Some(&prof)));
    assert!(!should_grab(Some(20_000), 30_000, None));
    assert!(!should_grab(Some(20_000), 30_000, Some(&profile(HdrPref::Prefer, false))));
    assert!(needs_search(false, None));
    assert!(!needs_search(true, None));
    assert!(needs_search(true, Some(5)));
}

#[test]
fn titles_match() {
    assert!(title_matches("The Office", "the.office", false));
    assert!(title_matches("The Office US", "The Office", false));
    assert!(!title_matches("Friends", "Seinfeld", false));
    assert!(title_matches("Friends", "Seinfeld", true));
    assert!(!title_matches("!!!", "Seinfeld", true));
}

fn rel(title: &str, seeders: Option<u32>) -> Release {
    Release { title: title.to_string(), url: format!("magnet:?{title}"), size: 1, seeders, indexer: String::new() }
}

#[test]
fn best_release_without_profile_uses_seeders() {
    let rs = vec![rel("Movie.Title.2010.720p", Some(5)), rel("Other.Film.2010.1080p", Some(50)), rel("Movie.Title.2010.1080p", Some(9))];
    let fz = vec![false, false, false];
    let (r, sc) = best_acceptable(&rs, &fz, None, "Movie Title", None, None).unwrap();
    assert_eq!(r.title, "Movie.Title.2010.1080p");
    assert_eq!(sc, 9);
    assert!(best_acceptable(&rs, &fz, None, "Nothing Like It", None, None).is_none());
}

#[test]
fn poll_cadence_and_keys() {
    assert_eq!(feed_poll_mins(None), 15);
    assert_eq!(feed_poll_mins(Some("30")), 30);
    assert_eq!(feed_poll_mins(Some("0")), 15);
    assert_eq!(feed_poll_mins(Some("abc")), 15);
    assert_eq!(feed_poll_mins_setting(0), "1");
    assert_eq!(feed_poll_mins_setting(45), "45");
    assert_eq!(effective_tmdb_key(Some("ui".into()), Some("env".into())).as_deref(), Some("ui"));
    assert_eq!(effective_tmdb_key(Some("  ".into()), Some("env".into())).as_deref(), Some("env"));
    assert_eq!(effective_tmdb_key(None, None), None);
}

#[test]
fn category_directories() {
    let cats = vec![
        Category { slug: "tv".into(), name: "TV".into(), subdir: "Shows/TV".into(), kind: MediaKind::Tv },
        Category { slug: "tv".into(), name: "TV2".into(), subdir: "Other".into(), kind: MediaKind::Tv },
    ];
    assert_eq!(category_subdir("tv", &cats).as_deref(), Some("Shows/TV"));
    assert_eq!(category_subdir("movies", &cats), None);
    assert_eq!(category_subdir("  ", &cats), None);
    assert_eq!(category_rel_dir("  //\\Movies/HD "), "Movies/HD");
}

#[test]
fn seeders_order_and_tagging() {
    let v = sort_by_seeders(vec![rel("a", Some(1)), rel("b", None), rel("c", Some(10)), rel("d", Some(1))]);
    let t: Vec<&str> = v.iter().map(|r| r.title.as_str()).collect();
    assert_eq!(t, vec!["c", "a", "d", "b"]);
    let v = tag_indexer(v, "Prowlarr");
    assert!(v.iter().all(|r| r.indexer == "Prowlarr"));
}

#[test]
fn titles_normalize() {
    assert_eq!(norm_title("The.Matrix (1999)"), "the matrix 1999");
    assert_eq!(norm_title("  Ça   va!  "), "ça va");
    assert_eq!(norm_title("!!!"), "");
}

#[test]
fn library_lookups() {
    let lib = Library {
        movies: vec![LibraryMovie { title: "The Matrix".into(), year: Some(1999), resolution: "1080p".into(), size: 1, path: "/m".into() }],
        shows: vec![LibraryShow {
            title: "Dark".into(),
            episodes: vec![LibraryEpisode { season: 1, episode: 2, resolution: "720p".into(), path: "/d".into() }],
        }],
        file_count: 2,
        scanned_at: 0,
    };
    assert!(lib.has_movie("the.matrix", Some(1999)));
    assert!(lib.has_movie("The Matrix", None));
    assert!(!lib.has_movie("The Matrix", Some(2003)));
    assert!(lib.has_episode("DARK", 1, 2));
    assert!(!lib.has_episode("Dark", 1, 3));
}

#[test]
fn labels_and_eta() {
    assert_eq!(TorrentState::Live.label(), "downloading");
    assert_eq!(Resolution::R2160.label(), "2160p");
    assert_eq!(Resolution::R1080.rank(), 3);
    assert_eq!(Source::Remux.rank(), 6);
    assert_eq!(HdrPref::Prefer.label(), "prefer");
    assert_eq!(MediaKind::Tv.label(), "tv");
    assert_eq!(fmt_eta(None), "\u{2014}");
    assert_eq!(fmt_eta(Some(3_725)), "1h 2m");
    assert_eq!(fmt_eta(Some(125)), "2m 5s");
    assert_eq!(fmt_eta(Some(9)), "9s");
}

#[test]
fn monitor_queries_and_keys() {
    assert_eq!(monitor_query("Dark", Some(2017), Some(1), Some(2)), "Dark S01E02");
    assert_eq!(monitor_query("Heat", Some(1995), None, None), "Heat 1995");
    assert_eq!(monitor_query("Heat", None, Some(3), None), "Heat");
    assert_eq!(monitor_query("Odd", None, Some(-1), Some(123)), format!("Odd S{:02}E{:02}", -1, 123));
    assert_eq!(monitor_movie_key("w1"), "monitor:w1:movie");
    assert_eq!(monitor_episode_key("w1", 2, 10), "monitor:w1:s2e10");
}
