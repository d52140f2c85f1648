use torrentoxide_core::quality::{parse_release, release_name_ok, try_parse_release};
use torrentoxide_core::scan::{
    category_match, clean_title, extract_se, is_season_folder, is_video, try_build_library,
    ScannedFile,
};
use torrentoxide_core::types::{Category, MediaKind, Resolution, Source};
use torrentoxide_core::xmlparse::{local_name, parse_items};

#[test]
fn video_extensions() {
    assert!(is_video("Movie.MKV"));
    assert!(is_video("clip.webm"));
    assert!(!is_video("notes.txt"));
    assert!(!is_video(".mkv"));
    assert!(!is_video("noext"));
}

#[test]
fn season_folders() {
    assert_eq!(is_season_folder("Season 02"), Some(2));
    assert_eq!(is_season_folder("SERIES 10"), Some(10));
    assert_eq!(is_season_folder("Staffel 3"), Some(3));
    assert_eq!(is_season_folder("Specials"), Some(0));
    assert_eq!(is_season_folder("Extras"), None);
}

#[test]
fn season_episode_fallbacks() {
    assert_eq!(extract_se("Show.S01E05.mkv"), (Some(1), Some(5)));
    assert_eq!(extract_se("show s2 m3"), (Some(2), Some(3)));
    assert_eq!(extract_se("show.2x07.avi"), (Some(2), Some(7)));
    assert_eq!(extract_se("Anime - 22 - Title.mkv"), (None, Some(22)));
    assert_eq!(extract_se("Plain Movie.mkv"), (None, None));
}

#[test]
fn release_names() {
    let p = parse_release("Some.Movie.2019.1080p.BluRay.x264-GROUP");
    assert_eq!(p.resolution, Resolution::R1080);
    assert_eq!(p.source, Source::Bluray);
    assert_eq!(p.year, Some(2019));
    assert!(!p.hdr);
    let h = parse_release("Show.S02E03.2160p.WEB-DL.HDR.DV.x265");
    assert_eq!(h.resolution, Resolution::R2160);
    assert!(h.hdr);
    assert!(h.dv);
    assert_eq!(h.season, Some(2));
    assert_eq!(h.episode, Some(3));
    assert!(h.is_show);
}

#[test]
fn release_names_the_parser_would_panic_on_are_refused() {
    assert!(release_name_ok("Movie.2019.1080p"));
    assert!(!release_name_ok("Movie.12345678901.1080p"));
    assert!(try_parse_release("Movie.12345678901.1080p").is_none());
    assert!(!release_name_ok("Movie.\u{0663}.1080p"));
    assert!(try_parse_release("Movie.2019.1080p").is_some());
    // numerals outside the decimal-digit category are no digits for `\d`
    assert!(release_name_ok("Movie.Part.\u{00BD}.1080p"));
    assert!(release_name_ok("Rocky.\u{2167}.1080p"));
    assert!(try_parse_release("Rocky.\u{2167}.1080p").is_some());
}

fn scan_cat(subdir: &str, kind: MediaKind) -> Category {
    Category { slug: subdir.to_lowercase(), name: subdir.to_string(), subdir: subdir.to_string(), kind }
}

#[test]
fn deepest_category_wins() {
    let cats = vec![scan_cat("TV", MediaKind::Tv), scan_cat("TV/Anime", MediaKind::Other), scan_cat("", MediaKind::Movie)];
    let dirs = vec!["tv".to_string(), "anime".to_string(), "Show".to_string()];
    assert_eq!(category_match(&dirs, &cats), Some((MediaKind::Other, 2)));
    let dirs = vec!["TV".to_string()];
    assert_eq!(category_match(&dirs, &cats), Some((MediaKind::Tv, 1)));
    assert_eq!(category_match(&vec![], &cats), None);
}

#[test]
fn folder_titles() {
    assert_eq!(clean_title("   "), "");
}

fn file(dirs: &[&str], name: &str) -> ScannedFile {
    ScannedFile {
        rel_dirs: dirs.iter().map(|d| d.to_string()).collect(),
        file_name: name.to_string(),
        path: format!("/dl/{}/{}", dirs.join("/"), name),
        size: 7,
    }
}

#[test]
fn library_groups_episodes_by_show_folder() {
    let cats = vec![scan_cat("TV", MediaKind::Tv), scan_cat("Movies", MediaKind::Movie)];
    let files = vec![
        file(&["TV", "Dark", "Season 1"], "Dark.S01E02.mkv"),
        file(&["TV", "Dark", "Season 1"], "Dark.S01E01.mkv"),
        file(&["Movies"], "Heat.1995.1080p.mkv"),
    ];
    let lib = try_build_library(&files, 99, &cats).unwrap();
    assert_eq!(lib.file_count, 3);
    assert_eq!(lib.scanned_at, 99);
    assert_eq!(lib.shows.len(), 1);
    assert_eq!(lib.shows[0].title, "Dark");
    let eps: Vec<(i32, i32)> = lib.shows[0].episodes.iter().map(|e| (e.season, e.episode)).collect();
    assert_eq!(eps, vec![(1, 1), (1, 2)]);
    assert_eq!(lib.movies.len(), 1);
    assert_eq!(lib.movies[0].year, Some(1995));
    assert_eq!(lib.movies[0].resolution, "1080p");
}

#[test]
fn rss_items() {
    let xml = r#"<?xml version="1.0"?>
<rss xmlns:torznab="http://torznab.com/schemas/2015/feed"><channel>
<item><title> First.Release.720p </title><link>http://x/dl/1</link><size>123</size>
<enclosure url="http://x/enc/1" length="123" type="application/x-bittorrent"/>
<torznab:attr name="seeders" value="17"/>
<torznab:attr name="magneturl" value="magnet:?xt=urn:btih:abc"/></item>
<item><title>No link</title></item>
<item><title>   </title><link>http://x/2</link></item>
<item><title>Second Last</title><link>http://x/3</link></item>
</channel></rss>"#;
    let v = parse_items(xml);
    assert_eq!(v.len(), 2);
    assert_eq!(v[0].title, "First.Release.720p");
    assert_eq!(v[0].url, "magnet:?xt=urn:btih:abc");
    assert_eq!(v[0].size, 123);
    assert_eq!(v[0].seeders, Some(17));
    assert_eq!(v[1].title, "Second Last");
    assert_eq!(v[1].url, "http://x/3");
    assert_eq!(v[1].seeders, None);
}

#[test]
fn blank_magnet_falls_back_to_link() {
    let xml = "<rss><channel><item><title>A</title><link>http://x/a.torrent</link><torznab:attr name='magneturl' value=''/></item></channel></rss>";
    let v = parse_items(xml);
    assert_eq!(v.len(), 1);
    assert_eq!(v[0].title, "A");
    assert_eq!(v[0].url, "http://x/a.torrent");
    assert_eq!(v[0].size, 0);
    assert_eq!(v[0].seeders, None);
    assert_eq!(v[0].indexer, "");
    let xml2 = "<rss><channel><item><title>B</title><link>http://x/b</link><enclosure url='  ' length='5'/></item></channel></rss>";
    let w = parse_items(xml2);
    assert_eq!(w.len(), 1);
    assert_eq!(w[0].url, "http://x/b");
    assert_eq!(w[0].size, 5);
}

#[test]
fn xml_local_names() {
    assert_eq!(local_name("torznab:Attr").into_iter().collect::<String>(), "attr");
    assert_eq!(local_name("ITEM").into_iter().collect::<String>(), "item");
}
