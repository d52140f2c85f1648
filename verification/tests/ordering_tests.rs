use torrentoxide_core::engine::percent_decode;
use torrentoxide_core::forms::{can_add, selection_order};
use torrentoxide_core::services::{only_files_csv, parse_only_files};
use torrentoxide_core::sort::sort_by_num_key;
use torrentoxide_core::ui::{list_order, ListRow, SortKey};

fn list_row(id: u64, name: &str, size: u64) -> ListRow {
    ListRow { id, name: name.to_string(), total_bytes: size }
}

#[test]
fn torrent_list_orders() {
    let rows = vec![list_row(3, "beta", 10), list_row(1, "Alpha", 30), list_row(2, "alpha", 10)];
    assert_eq!(list_order(&rows, SortKey::Added, false), Some(vec![1, 2, 3]));
    assert_eq!(list_order(&rows, SortKey::Added, true), Some(vec![3, 2, 1]));
    assert_eq!(list_order(&rows, SortKey::Size, false), Some(vec![3, 2, 1]));
    assert_eq!(list_order(&rows, SortKey::Size, true), Some(vec![1, 3, 2]));
    assert_eq!(list_order(&rows, SortKey::Name, false), Some(vec![1, 2, 3]));
    assert_eq!(list_order(&rows, SortKey::Name, true), Some(vec![3, 1, 2]));
    assert_eq!(list_order(&rows, SortKey::Progress, false), None);
    assert_eq!(list_order(&rows, SortKey::Ratio, true), None);
}

#[test]
fn list_orders_match_std_stable_sort() {
    let rows = vec![list_row(5, "e", 2), list_row(4, "D", 2), list_row(9, "c", 1), list_row(1, "d", 7), list_row(2, "E", 2)];
    for desc in [false, true] {
        let mut v: Vec<&ListRow> = rows.iter().collect();
        v.sort_by(|a, b| {
            let o = a.name.to_lowercase().cmp(&b.name.to_lowercase());
            if desc { o.reverse() } else { o }
        });
        let want: Vec<u64> = v.iter().map(|r| r.id).collect();
        assert_eq!(list_order(&rows, SortKey::Name, desc), Some(want));
        let mut w: Vec<&ListRow> = rows.iter().collect();
        w.sort_by(|a, b| {
            let o = a.total_bytes.cmp(&b.total_bytes);
            if desc { o.reverse() } else { o }
        });
        let want: Vec<u64> = w.iter().map(|r| r.id).collect();
        assert_eq!(list_order(&rows, SortKey::Size, desc), Some(want));
    }
}

#[test]
fn numeric_sort_is_stable() {
    let v = vec![(2, 10), (1, 11), (2, 12), (0, 13)];
    assert_eq!(sort_by_num_key(v.clone(), false), vec![(0, 13), (1, 11), (2, 10), (2, 12)]);
    assert_eq!(sort_by_num_key(v, true), vec![(2, 10), (2, 12), (1, 11), (0, 13)]);
}

#[test]
fn file_selection_round_trip() {
    let sel = selection_order(vec![7, 0, 3, 12]);
    assert_eq!(sel, vec![0, 3, 7, 12]);
    let csv = only_files_csv(&sel);
    assert_eq!(csv, "0,3,7,12");
    assert_eq!(parse_only_files(&csv), Some(sel));
    assert_eq!(only_files_csv(&vec![]), "");
    assert_eq!(only_files_csv(&vec![42]), "42");
    assert_eq!(selection_order(vec![5, 1, 5, 1]), vec![1, 5]);
}

#[test]
fn add_button() {
    assert!(can_add(" magnet:?x ", false));
    assert!(!can_add("   ", false));
    assert!(can_add("", true));
}

#[test]
fn plain_text_decodes_to_itself() {
    for s in ["caf\u{e9} au lait", "", "a/b?c=d&e", "\u{1F600} smile"] {
        assert_eq!(percent_decode(s), s);
    }
}
