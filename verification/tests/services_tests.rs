use torrentoxide_core::services::{
    sort_trackers,
    check_caps_body, extract_error, key_check, parse_only_files, search_results, sort_categories,
    sort_quality_profiles, validate_upload, KeyCheck, SearchItem, UploadCheck, MAX_TORRENT_BYTES,
};
use torrentoxide_core::types::{TrackerInfo, Category, HdrPref, MediaKind, QualityProfile, Resolution};

fn item(mt: Option<&str>, title: Option<&str>, name: Option<&str>, rd: Option<&str>, fad: Option<&str>) -> SearchItem {
    SearchItem {
        id: 42,
        media_type: mt.map(|s| s.to_string()),
        title: title.map(|s| s.to_string()),
        name: name.map(|s| s.to_string()),
        release_date: rd.map(|s| s.to_string()),
        first_air_date: fad.map(|s| s.to_string()),
        overview: "ov".to_string(),
        poster_path: Some("/p.jpg".to_string()),
    }
}

#[test]
fn tmdb_hits() {
    let m = item(Some("movie"), Some("Heat"), None, Some("1995-12-15"), None).into_meta().unwrap();
    assert_eq!(m.tmdb_id, 42);
    assert_eq!(m.title, "Heat");
    assert_eq!(m.year, Some(1995));
    assert!(!m.is_tv);
    assert_eq!(m.poster_path.as_deref(), Some("/p.jpg"));
    let t = item(Some("tv"), None, Some("Dark"), None, Some("2017-12-01")).into_meta().unwrap();
    assert!(t.is_tv);
    assert_eq!(t.title, "Dark");
    assert_eq!(t.year, Some(2017));
    assert!(item(Some("person"), Some("X"), None, None, None).into_meta().is_none());
    assert!(item(None, Some("X"), None, None, None).into_meta().is_none());
    assert!(item(Some("movie"), None, None, None, None).into_meta().is_none());
    let n = item(Some("movie"), Some("Y"), None, Some("19"), None).into_meta().unwrap();
    assert_eq!(n.year, None);
    let n = item(Some("movie"), Some("Y"), None, Some("abcd-01"), None).into_meta().unwrap();
    assert_eq!(n.year, None);
    let n = item(Some("movie"), Some("Y"), None, Some("20é1"), None).into_meta().unwrap();
    assert_eq!(n.year, None);
}

#[test]
fn tmdb_key_checks() {
    assert_eq!(key_check(200), KeyCheck::Valid);
    assert_eq!(key_check(204), KeyCheck::Valid);
    assert_eq!(key_check(401), KeyCheck::InvalidKey);
    assert_eq!(key_check(500), KeyCheck::Failed);
    assert_eq!(key_check(301), KeyCheck::Failed);
}

#[test]
fn torznab_errors() {
    assert_eq!(extract_error(r#"<error code="100" description="Invalid API Key"/>"#), "Invalid API Key");
    assert_eq!(extract_error("<error code=\"1\"/>"), "indexer error");
    assert_eq!(extract_error("description=\"unterminated"), "indexer error");
    assert_eq!(extract_error("description=\"\""), "");
}

#[test]
fn torznab_caps() {
    assert_eq!(check_caps_body("<caps><server/></caps>"), Ok(()));
    assert_eq!(
        check_caps_body(r#"<error code="100" description="bad key"/>"#),
        Err("bad key".to_string())
    );
    assert_eq!(
        check_caps_body("<html></html>"),
        Err("unexpected response (not a Torznab endpoint?)".to_string())
    );
}

#[test]
fn torznab_search_tags_indexer() {
    let body = r#"<rss><channel><item><title>Some.Show.S01E02.1080p</title><link>http://x/1</link><size>1000</size></item></channel></rss>"#;
    let v = search_results(body, "Jackett").unwrap();
    assert_eq!(v.len(), 1);
    assert_eq!(v[0].title, "Some.Show.S01E02.1080p");
    assert_eq!(v[0].indexer, "Jackett");
    let e = search_results(r#"<error code="1" description="down"/>"#, "J");
    assert_eq!(e.unwrap_err(), "down");
}

#[test]
fn upload_checks() {
    assert_eq!(validate_upload(0), UploadCheck::Empty);
    assert_eq!(validate_upload(1), UploadCheck::Accepted);
    assert_eq!(validate_upload(25 * 1024 * 1024), UploadCheck::Accepted);
    assert_eq!(validate_upload(25 * 1024 * 1024 + 1), UploadCheck::TooLarge);
    assert_eq!(MAX_TORRENT_BYTES, 25 * 1024 * 1024);
}

#[test]
fn only_files_lists() {
    assert_eq!(parse_only_files("0, 2,5"), Some(vec![0, 2, 5]));
    assert_eq!(parse_only_files("1,x,+3"), Some(vec![1, 3]));
    assert_eq!(parse_only_files(""), None);
    assert_eq!(parse_only_files(" , -1"), None);
}

fn svc_cat(name: &str) -> Category {
    Category { slug: name.to_lowercase(), name: name.to_string(), subdir: name.to_string(), kind: MediaKind::Other }
}

#[test]
fn categories_listed_by_lowercase_name() {
    let v = sort_categories(vec![svc_cat("tv"), svc_cat("Anime"), svc_cat("Movies"), svc_cat("anime")]);
    let names: Vec<&str> = v.iter().map(|c| c.name.as_str()).collect();
    assert_eq!(names, vec!["Anime", "anime", "Movies", "tv"]);
}

fn prof(name: &str) -> QualityProfile {
    QualityProfile {
        id: name.to_string(),
        name: name.to_string(),
        min_resolution: Resolution::Unknown,
        cutoff_resolution: Resolution::R1080,
        hdr: HdrPref::Prefer,
        languages: vec![],
        preferred_groups: vec![],
        blocked_groups: vec![],
        upgrade_allowed: true,
    }
}

#[test]
fn profiles_listed_by_lowercase_name() {
    let v = sort_quality_profiles(vec![prof("b"), prof("A"), prof("c")]);
    let names: Vec<&str> = v.iter().map(|p| p.name.as_str()).collect();
    assert_eq!(names, vec!["A", "b", "c"]);
}

#[test]
fn trackers_listed_by_url() {
    let t = |u: &str| TrackerInfo { url: u.to_string(), scheme: "UDP".to_string(), host: "h".to_string() };
    let v = sort_trackers(vec![t("udp://b"), t("http://z"), t("udp://a"), t("Http://y")]);
    let urls: Vec<&str> = v.iter().map(|x| x.url.as_str()).collect();
    assert_eq!(urls, vec!["Http://y", "http://z", "udp://a", "udp://b"]);
}
