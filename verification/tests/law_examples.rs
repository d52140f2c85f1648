use std::collections::VecDeque;

use torrentoxide_core::engine::percent_decode;
use torrentoxide_core::fx::hash2;
use torrentoxide_core::logbuf::LogRing;
use torrentoxide_core::pending::{prefilled, push_capped, GLOBAL_HIST_LEN, ROW_HIST_LEN};
use torrentoxide_core::pvr::{feed_poll_mins, feed_poll_mins_setting, slugify};
use torrentoxide_core::types::norm_title;

#[test]
fn poll_minutes_read_back() {
    assert_eq!(feed_poll_mins(Some(&feed_poll_mins_setting(30))), 30);
    assert_eq!(feed_poll_mins(Some(&feed_poll_mins_setting(0))), 1);
    assert_eq!(feed_poll_mins(Some(&feed_poll_mins_setting(u32::MAX))), u32::MAX as u64);
    assert_eq!(feed_poll_mins(None), 15);
}

#[test]
fn histories_stay_full() {
    let mut global: VecDeque<(u64, u64)> = prefilled((0, 0), GLOBAL_HIST_LEN);
    let mut row: VecDeque<(u64, u64)> = prefilled((0, 0), ROW_HIST_LEN);
    for i in 1..=200u64 {
        push_capped(&mut global, (i, 2 * i), GLOBAL_HIST_LEN);
        push_capped(&mut row, (i, 2 * i), ROW_HIST_LEN);
        assert_eq!(global.len(), 120);
        assert_eq!(row.len(), 48);
        assert_eq!(global.back(), Some(&(i, 2 * i)));
        assert_eq!(row.back(), Some(&(i, 2 * i)));
    }
    assert_eq!(global.front(), Some(&(81, 162)));
    assert_eq!(row.front(), Some(&(153, 306)));
}

#[test]
fn log_ring_keeps_last_lines_numbered() {
    let mut r = LogRing::new(3);
    for i in 1..=5u64 {
        assert_eq!(r.push("t".into(), "INFO".into(), format!("m{}", i)), i);
    }
    let h = r.history();
    let ids: Vec<u64> = h.iter().map(|l| l.id).collect();
    assert_eq!(ids, vec![3, 4, 5]);
    let msgs: Vec<&str> = h.iter().map(|l| l.message.as_str()).collect();
    assert_eq!(msgs, vec!["m3", "m4", "m5"]);
}

#[test]
fn percent_encoding_decodes_back() {
    assert_eq!(percent_decode("%C3%A9t%C3%A9"), "été");
    assert_eq!(percent_decode("%41%42"), "AB");
    assert_eq!(percent_decode("%FF"), "\u{FFFD}");
    assert_eq!(percent_decode("plain-name.mkv"), "plain-name.mkv");
}

#[test]
fn hash2_keys_do_not_collide() {
    assert_ne!(hash2(7, 1), hash2(7, 2));
    assert_ne!(hash2(1, 7), hash2(2, 7));
    let keys: std::collections::HashSet<u64> = (0..1000u64).map(|b| hash2(42, b)).collect();
    assert_eq!(keys.len(), 1000);
}

#[test]
fn slugs_and_titles_are_fixed_points() {
    let s = slugify("  The Office (US) -- Season 2!! ");
    assert_eq!(s, "the-office-us-season-2");
    assert_eq!(slugify(&s), s);
    let t = norm_title("The.Office.US_2005  ");
    assert_eq!(t, "the office us 2005");
    assert_eq!(norm_title(&t), t);
}
