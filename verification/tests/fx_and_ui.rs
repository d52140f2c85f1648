use torrentoxide_core::fx::{fmt_hms, hash2, now_hms, rand_char, rand_index, rand_u64, today_ymd, RNG_SEED};
use torrentoxide_core::types::{HdrPref, MediaKind, Resolution, TorrentState};
use torrentoxide_core::ui::{
    day_key, days_in_month, fill_ranks, hdr_index, kind_class, month_grid, month_name, next_month,
    prev_month, res_index, row_visible, weekday, SortKey, StatusFilter, CELLS,
};

#[test]
fn xorshift_sequence_from_seed() {
    let mut s = RNG_SEED;
    assert_eq!(rand_u64(&mut s), 0x7f6c_280b_eaa8_e3e7);
    assert_eq!(s, 0x7f6c_280b_eaa8_e3e7);
    assert_eq!(rand_u64(&mut s), 0xe471_1987_1cf9_abe0);
}

#[test]
fn xorshift_never_reaches_zero_from_nonzero() {
    let mut s: u64 = 1;
    for _ in 0..1000 {
        assert_ne!(rand_u64(&mut s), 0);
    }
}

#[test]
fn rand_char_picks_char_by_draw() {
    let mut s = RNG_SEED;
    // first draw is odd, so index 1 of "ab"
    assert_eq!(rand_char(&mut s, "ab"), 'b');
    let mut t = RNG_SEED;
    assert_eq!(rand_char(&mut t, "0123456789"), '1');
    let mut u = RNG_SEED;
    assert_eq!(rand_char(&mut u, "é"), 'é');
    let mut w = RNG_SEED;
    assert_eq!(rand_char(&mut w, "éa"), 'a');
}

#[test]
fn rand_index_zero_draws_nothing() {
    let mut s = RNG_SEED;
    assert_eq!(rand_index(&mut s, 0), 0);
    assert_eq!(s, RNG_SEED);
    assert_eq!(rand_index(&mut s, 7), 6);
    assert_ne!(s, RNG_SEED);
}

#[test]
fn hash2_known_values() {
    assert_eq!(hash2(1, 2), 12466876120510848211);
    assert_eq!(hash2(0, 0), 7905728728188956330);
    assert_eq!(hash2(42, 7), 12330800038143608517);
}

#[test]
fn server_side_clock_placeholders() {
    assert_eq!(now_hms(), "00:00:00");
    assert_eq!(today_ymd(), (1970, 1, 1));
    assert_eq!(fmt_hms(7, 5, 0), "07:05:00");
    assert_eq!(fmt_hms(23, 59, 59), "23:59:59");
}

#[test]
fn fill_ranks_is_stable_hash_order() {
    assert_eq!(fill_ranks(7, 5), vec![2, 3, 0, 1, 4]);
    assert_eq!(fill_ranks(1, 8), vec![2, 0, 6, 3, 4, 1, 5, 7]);
    assert_eq!(fill_ranks(3, 0), Vec::<usize>::new());
}

#[test]
fn fill_ranks_is_a_permutation() {
    let r = fill_ranks(99, CELLS);
    let mut seen = vec![false; CELLS];
    for &k in &r {
        assert!(k < CELLS);
        assert!(!seen[k]);
        seen[k] = true;
    }
}

#[test]
fn status_filter_buckets() {
    assert!(StatusFilter::All.matches(TorrentState::Error));
    assert!(StatusFilter::Downloading.matches(TorrentState::Live));
    assert!(StatusFilter::Downloading.matches(TorrentState::Initializing));
    assert!(!StatusFilter::Downloading.matches(TorrentState::Finished));
    assert!(StatusFilter::Seeding.matches(TorrentState::Finished));
    assert!(StatusFilter::Paused.matches(TorrentState::Paused));
    assert!(StatusFilter::Error.matches(TorrentState::Error));
    assert!(!StatusFilter::Error.matches(TorrentState::Paused));
    assert_eq!(StatusFilter::Downloading.label(), "DOWNLOADING");
    assert_eq!(SortKey::Ratio.label(), "RATIO");
    assert_eq!(SortKey::Added.label(), "ADDED");
}

#[test]
fn each_state_in_exactly_one_bucket() {
    let states = [
        TorrentState::Initializing,
        TorrentState::Live,
        TorrentState::Paused,
        TorrentState::Finished,
        TorrentState::Error,
    ];
    let buckets = [
        StatusFilter::Downloading,
        StatusFilter::Seeding,
        StatusFilter::Paused,
        StatusFilter::Error,
    ];
    for s in states {
        let n = buckets.iter().filter(|b| b.matches(s)).count();
        assert_eq!(n, 1);
    }
}

#[test]
fn row_filter_by_query_and_state() {
    assert!(row_visible("Big.Buck.Bunny", TorrentState::Live, "  buck ", StatusFilter::All));
    assert!(!row_visible("Big.Buck.Bunny", TorrentState::Live, "sintel", StatusFilter::All));
    assert!(row_visible("anything", TorrentState::Paused, "   ", StatusFilter::Paused));
    assert!(!row_visible("anything", TorrentState::Paused, "", StatusFilter::Seeding));
}

#[test]
fn settings_lookups() {
    assert_eq!(kind_class(MediaKind::Movie), "k-movie");
    assert_eq!(kind_class(MediaKind::Tv), "k-tv");
    assert_eq!(kind_class(MediaKind::Other), "k-other");
    assert_eq!(res_index(Resolution::Unknown), 0);
    assert_eq!(res_index(Resolution::R1080), 3);
    assert_eq!(hdr_index(HdrPref::Ignore), 0);
    assert_eq!(hdr_index(HdrPref::Require), 2);
}

#[test]
fn calendar_weekdays() {
    assert_eq!(weekday(2024, 1, 1), 1);
    assert_eq!(weekday(2000, 1, 1), 6);
    assert_eq!(weekday(1970, 1, 1), 4);
    assert_eq!(weekday(1999, 12, 31), 5);
}

#[test]
fn calendar_month_lengths() {
    assert_eq!(days_in_month(2024, 2), 29);
    assert_eq!(days_in_month(1900, 2), 28);
    assert_eq!(days_in_month(2000, 2), 29);
    assert_eq!(days_in_month(2023, 4), 30);
    assert_eq!(days_in_month(2023, 12), 31);
    assert_eq!(days_in_month(2023, 13), 30);
    for m in 1..=12 {
        let d = days_in_month(2023, m);
        assert!((28..=31).contains(&d));
    }
}

#[test]
fn calendar_names_and_navigation() {
    assert_eq!(month_name(1), "January");
    assert_eq!(month_name(12), "December");
    assert_eq!(month_name(0), "");
    assert_eq!(month_name(13), "");
    assert_eq!(prev_month(2024, 1), (2023, 12));
    assert_eq!(prev_month(2024, 5), (2024, 4));
    assert_eq!(next_month(2024, 12), (2025, 1));
    assert_eq!(next_month(2024, 5), (2024, 6));
    let (y, m) = next_month(2024, 12);
    assert_eq!(prev_month(y, m), (2024, 12));
}

#[test]
fn calendar_grid_whole_weeks() {
    let g = month_grid(2024, 2);
    assert_eq!(g.leading, 4);
    assert_eq!(g.days, 29);
    assert_eq!(g.trailing, 2);
    let g = month_grid(2026, 2);
    assert_eq!((g.leading + g.days + g.trailing) % 7, 0);
}

#[test]
fn calendar_day_keys() {
    assert_eq!(day_key(2024, 3, 5), "2024-03-05");
    assert_eq!(day_key(987, 11, 30), "0987-11-30");
    assert_eq!(day_key(-5, 1, 2), "-005-01-02");
    assert_eq!(day_key(12345, 1, 2), format!("{:04}-{:02}-{:02}", 12345, 1, 2));
}
