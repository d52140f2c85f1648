use torrentoxide_core::engine::{attach_progress, files_from_details};
use torrentoxide_core::tree::tree_rows;
use torrentoxide_core::types::FileEntry;

fn fe(index: usize, comps: &[&str]) -> FileEntry {
    FileEntry {
        index,
        components: comps.iter().map(|c| c.to_string()).collect(),
        length: 10,
        have_bytes: 0,
        included: true,
    }
}

fn shape(files: &Vec<FileEntry>) -> Vec<(usize, String)> {
    tree_rows(files)
        .into_iter()
        .map(|r| match (r.dir, r.file) {
            (Some(d), _) => (r.depth, format!("dir {d}")),
            (None, Some(f)) => (r.depth, format!("file {f}")),
            _ => (r.depth, String::new()),
        })
        .collect()
}

#[test]
fn tree_lists_dirs_by_name_then_files() {
    let files = vec![
        fe(0, &["Season 1", "e2.mkv"]),
        fe(1, &["b.nfo"]),
        fe(2, &["Season 1", "e1.mkv"]),
        fe(3, &["Extras", "x.mkv"]),
        fe(4, &[]),
        fe(5, &["a.txt"]),
        fe(6, &["Season 1", "Subs", "en.srt"]),
    ];
    let want: Vec<(usize, String)> = vec![
        (0, "dir Extras".into()),
        (1, "file 3".into()),
        (0, "dir Season 1".into()),
        (1, "dir Subs".into()),
        (2, "file 6".into()),
        (1, "file 0".into()),
        (1, "file 2".into()),
        (0, "file 1".into()),
        (0, "file 5".into()),
    ];
    assert_eq!(shape(&files), want);
}

#[test]
fn tree_of_nothing() {
    assert!(tree_rows(&vec![]).is_empty());
    assert!(tree_rows(&vec![fe(0, &[])]).is_empty());
}

#[test]
fn inspector_files_get_progress() {
    let files = vec![fe(9, &["a"]), fe(9, &["b"]), fe(9, &["c"])];
    let v = attach_progress(files, &vec![5, 7]);
    let got: Vec<(usize, u64)> = v.iter().map(|f| (f.index, f.have_bytes)).collect();
    assert_eq!(got, vec![(0, 5), (1, 7), (2, 0)]);
}

#[test]
fn listing_files_are_numbered_with_nothing_downloaded() {
    assert!(files_from_details(None).is_empty());
    let listed = vec![
        (vec!["Show".to_string(), "e01.mkv".to_string()], 700, true),
        (vec!["sample.txt".to_string()], 12, false),
    ];
    let v = files_from_details(Some(listed));
    assert_eq!(v.len(), 2);
    assert_eq!((v[0].index, v[0].length, v[0].have_bytes, v[0].included), (0, 700, 0, true));
    assert_eq!(v[0].components, vec!["Show".to_string(), "e01.mkv".to_string()]);
    assert_eq!((v[1].index, v[1].length, v[1].have_bytes, v[1].included), (1, 12, 0, false));
}
