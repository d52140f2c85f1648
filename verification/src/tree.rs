//! The file tree of a torrent as the inspector and the file picker show it:
//! files are grouped under their directories, each level lists its
//! sub-directories by name (byte order) and then its own files in list
//! order, and every row carries its depth.

use vstd::prelude::*;

use crate::engine::views;
use crate::sort::{lex_less, lex_lt};
use crate::text::{slice_range, str_chars, string_from_chars};
use crate::types::FileEntry;

verus! {

/// One entry while the tree is built: the path components still to place
/// (the last one is the file's name) and the file's position in the list.
pub type Entry = (Seq<Seq<char>>, usize);

/// A rendered row: a directory (by name) or a file (by list position).
pub struct TreeRow {
    pub depth: usize,
    pub dir: Option<String>,
    pub file: Option<usize>,
}

pub struct TreeRowView {
    pub depth: usize,
    pub dir: Option<Seq<char>>,
    pub file: Option<usize>,
}

impl View for TreeRow {
    type V = TreeRowView;

    open spec fn view(&self) -> TreeRowView {
        TreeRowView {
            depth: self.depth,
            dir: match self.dir {
                Some(d) => Some(d@),
                None => None,
            },
            file: self.file,
        }
    }
}

pub open spec fn row_views(s: Seq<TreeRow>) -> Seq<TreeRowView> {
    s.map_values(|r: TreeRow| r@)
}

/// The entry lies in a sub-directory of the current level.
pub open spec fn in_subdir(e: Entry) -> bool {
    e.0.len() >= 2
}

/// The smallest sub-directory name at this level, if any.
pub open spec fn min_dir(es: Seq<Entry>) -> Option<Seq<char>>
    decreases es.len(),
{
    if es.len() == 0 {
        None
    } else {
        let rest = min_dir(es.drop_first());
        if in_subdir(es[0]) {
            match rest {
                None => Some(es[0].0[0]),
                Some(r) => if lex_lt(r, es[0].0[0]) {
                    Some(r)
                } else {
                    Some(es[0].0[0])
                },
            }
        } else {
            rest
        }
    }
}

pub open spec fn in_group(e: Entry, n: Seq<char>) -> bool {
    in_subdir(e) && e.0[0] == n
}

/// The entries under sub-directory `n`, one level down, in list order.
pub open spec fn group(es: Seq<Entry>, n: Seq<char>) -> Seq<Entry>
    decreases es.len(),
{
    if es.len() == 0 {
        Seq::empty()
    } else if in_group(es[0], n) {
        seq![(es[0].0.drop_first(), es[0].1)] + group(es.drop_first(), n)
    } else {
        group(es.drop_first(), n)
    }
}

/// The entries not under sub-directory `n`, in list order.
pub open spec fn others(es: Seq<Entry>, n: Seq<char>) -> Seq<Entry>
    decreases es.len(),
{
    if es.len() == 0 {
        Seq::empty()
    } else if in_group(es[0], n) {
        others(es.drop_first(), n)
    } else {
        seq![es[0]] + others(es.drop_first(), n)
    }
}

/// The files at this level, as rows.
pub open spec fn file_rows(es: Seq<Entry>, depth: usize) -> Seq<TreeRowView>
    decreases es.len(),
{
    if es.len() == 0 {
        Seq::empty()
    } else if es[0].0.len() == 1 {
        seq![TreeRowView { depth, dir: None, file: Some(es[0].1) }] + file_rows(es.drop_first(), depth)
    } else {
        file_rows(es.drop_first(), depth)
    }
}

/// How many components remain to be placed.
pub open spec fn size(es: Seq<Entry>) -> nat
    decreases es.len(),
{
    if es.len() == 0 {
        0
    } else {
        es[0].0.len() + size(es.drop_first())
    }
}

pub proof fn lemma_split_sizes(es: Seq<Entry>, n: Seq<char>)
    ensures
        size(group(es, n)) <= size(es),
        size(others(es, n)) <= size(es),
        (exists|i: int| 0 <= i < es.len() && in_group(#[trigger] es[i], n)) ==> size(group(es, n))
            < size(es) && size(others(es, n)) < size(es),
    decreases es.len(),
{
    if es.len() > 0 {
        let t = es.drop_first();
        lemma_split_sizes(t, n);
        let g = group(t, n);
        let o = others(t, n);
        assert(size(es) == es[0].0.len() + size(t));
        if in_group(es[0], n) {
            let x = (es[0].0.drop_first(), es[0].1);
            assert(group(es, n) == seq![x] + g);
            assert((seq![x] + g).drop_first() =~= g);
            assert((seq![x] + g)[0] == x);
            assert(size(seq![x] + g) == x.0.len() + size(g));
            assert(others(es, n) == o);
        } else {
            assert(others(es, n) == seq![es[0]] + o);
            assert((seq![es[0]] + o).drop_first() =~= o);
            assert((seq![es[0]] + o)[0] == es[0]);
            assert(size(seq![es[0]] + o) == es[0].0.len() + size(o));
            assert(group(es, n) == g);
            if exists|i: int| 0 <= i < es.len() && in_group(#[trigger] es[i], n) {
                let i = choose|i: int| 0 <= i < es.len() && in_group(#[trigger] es[i], n);
                assert(t[i - 1] == es[i]);
            }
        }
    }
}

pub proof fn lemma_min_dir_exists(es: Seq<Entry>)
    ensures
        min_dir(es) matches Some(n) ==> exists|i: int| 0 <= i < es.len() && in_group(#[trigger] es[i], n),
    decreases es.len(),
{
    if es.len() > 0 {
        lemma_min_dir_exists(es.drop_first());
        if let Some(n) = min_dir(es) {
            if min_dir(es.drop_first()) == Some(n) && !(in_subdir(es[0]) && es[0].0[0] == n) {
                let i = choose|i: int|
                    0 <= i < es.drop_first().len() && in_group(#[trigger] es.drop_first()[i], n);
                assert(es[i + 1] == es.drop_first()[i]);
            } else {
                assert(in_group(es[0], n));
            }
        }
    }
}

/// The rows of one level: its sub-directories (each followed by its own
/// rows one level deeper), then its files.
pub open spec fn node_rows(es: Seq<Entry>, depth: usize) -> Seq<TreeRowView>
    decreases size(es), 1int,
{
    dir_rows(es, depth) + file_rows(es, depth)
}

/// The sub-directory rows of one level, smallest name first.
pub open spec fn dir_rows(es: Seq<Entry>, depth: usize) -> Seq<TreeRowView>
    decreases size(es), 0int,
{
    match min_dir(es) {
        None => Seq::empty(),
        Some(n) => {
            proof {
                lemma_min_dir_exists(es);
                lemma_split_sizes(es, n);
            }
            seq![TreeRowView { depth, dir: Some(n), file: None }] + node_rows(
                group(es, n),
                (depth + 1) as usize,
            ) + dir_rows(others(es, n), depth)
        },
    }
}

/// The entries of a file list: files without components are left out.
pub open spec fn entries_of(files: Seq<FileEntry>) -> Seq<Entry>
    decreases files.len(),
{
    if files.len() == 0 {
        Seq::empty()
    } else {
        let rest = entries_of(files.drop_last());
        if files.last().components@.len() == 0 {
            rest
        } else {
            rest.push((views_of_strings(files.last().components@), (files.len() - 1) as usize))
        }
    }
}

pub open spec fn views_of_strings(v: Seq<String>) -> Seq<Seq<char>> {
    v.map_values(|s: String| s@)
}

// ---------------------------------------------------------------------------
// every file is listed once
// ---------------------------------------------------------------------------

/// The file positions the rows list, in order.
pub open spec fn files_in(rows: Seq<TreeRowView>) -> Seq<usize>
    decreases rows.len(),
{
    if rows.len() == 0 {
        Seq::empty()
    } else {
        (match rows[0].file {
            Some(f) => seq![f],
            None => Seq::empty(),
        }) + files_in(rows.drop_first())
    }
}

/// The positions of all entries, in order.
pub open spec fn ids_all(es: Seq<Entry>) -> Seq<usize>
    decreases es.len(),
{
    if es.len() == 0 {
        Seq::empty()
    } else {
        seq![es[0].1] + ids_all(es.drop_first())
    }
}

/// The positions of the entries in sub-directories.
pub open spec fn ids_sub(es: Seq<Entry>) -> Seq<usize>
    decreases es.len(),
{
    if es.len() == 0 {
        Seq::empty()
    } else if in_subdir(es[0]) {
        seq![es[0].1] + ids_sub(es.drop_first())
    } else {
        ids_sub(es.drop_first())
    }
}

/// The positions of the files at this level.
pub open spec fn ids_leaf(es: Seq<Entry>) -> Seq<usize>
    decreases es.len(),
{
    if es.len() == 0 {
        Seq::empty()
    } else if es[0].0.len() == 1 {
        seq![es[0].1] + ids_leaf(es.drop_first())
    } else {
        ids_leaf(es.drop_first())
    }
}

pub open spec fn ids_grp(es: Seq<Entry>, n: Seq<char>) -> Seq<usize>
    decreases es.len(),
{
    if es.len() == 0 {
        Seq::empty()
    } else if in_group(es[0], n) {
        seq![es[0].1] + ids_grp(es.drop_first(), n)
    } else {
        ids_grp(es.drop_first(), n)
    }
}

pub open spec fn ids_sub_other(es: Seq<Entry>, n: Seq<char>) -> Seq<usize>
    decreases es.len(),
{
    if es.len() == 0 {
        Seq::empty()
    } else if in_subdir(es[0]) && !in_group(es[0], n) {
        seq![es[0].1] + ids_sub_other(es.drop_first(), n)
    } else {
        ids_sub_other(es.drop_first(), n)
    }
}

pub open spec fn all_placed(es: Seq<Entry>) -> bool {
    forall|i: int| 0 <= i < es.len() ==> (#[trigger] es[i]).0.len() >= 1
}

proof fn lemma_placed_tail(es: Seq<Entry>)
    requires
        all_placed(es),
        es.len() > 0,
    ensures
        all_placed(es.drop_first()),
        es[0].0.len() >= 1,
{
    let t = es.drop_first();
    assert forall|i: int| 0 <= i < t.len() implies (#[trigger] t[i]).0.len() >= 1 by {
        assert(t[i] == es[i + 1]);
    }
}

proof fn lemma_files_in_empty()
    ensures
        files_in(Seq::<TreeRowView>::empty()) == Seq::<usize>::empty(),
{
}

proof fn lemma_files_in_concat(a: Seq<TreeRowView>, b: Seq<TreeRowView>)
    ensures
        files_in(a + b) == files_in(a) + files_in(b),
    decreases a.len(),
{
    if a.len() == 0 {
        assert(a + b =~= b);
        assert(files_in(a) + files_in(b) =~= files_in(b));
    } else {
        assert((a + b).drop_first() =~= a.drop_first() + b);
        assert((a + b)[0] == a[0]);
        lemma_files_in_concat(a.drop_first(), b);
        let h = match a[0].file {
            Some(f) => seq![f],
            None => Seq::<usize>::empty(),
        };
        assert(h + (files_in(a.drop_first()) + files_in(b)) =~= (h + files_in(a.drop_first()))
            + files_in(b));
    }
}

proof fn lemma_file_rows_ids(es: Seq<Entry>, depth: usize)
    ensures
        files_in(file_rows(es, depth)) == ids_leaf(es),
    decreases es.len(),
{
    if es.len() > 0 {
        lemma_file_rows_ids(es.drop_first(), depth);
        let rest = file_rows(es.drop_first(), depth);
        if es[0].0.len() == 1 {
            let row = TreeRowView { depth, dir: None, file: Some(es[0].1) };
            assert((seq![row] + rest).drop_first() =~= rest);
            assert((seq![row] + rest)[0] == row);
        }
    } else {
        lemma_files_in_empty();
    }
}

proof fn lemma_group_ids(es: Seq<Entry>, n: Seq<char>)
    ensures
        ids_all(group(es, n)) == ids_grp(es, n),
        all_placed(group(es, n)),
    decreases es.len(),
{
    if es.len() > 0 {
        lemma_group_ids(es.drop_first(), n);
        let g = group(es.drop_first(), n);
        if in_group(es[0], n) {
            let x = (es[0].0.drop_first(), es[0].1);
            assert((seq![x] + g).drop_first() =~= g);
            assert((seq![x] + g)[0] == x);
            assert forall|i: int| 0 <= i < (seq![x] + g).len() implies (#[trigger] (seq![x]
                + g)[i]).0.len() >= 1 by {
                if i > 0 {
                    assert((seq![x] + g)[i] == g[i - 1]);
                }
            }
        }
    }
}

proof fn lemma_others_ids(es: Seq<Entry>, n: Seq<char>)
    requires
        all_placed(es),
    ensures
        ids_sub(others(es, n)) == ids_sub_other(es, n),
        all_placed(others(es, n)),
    decreases es.len(),
{
    if es.len() > 0 {
        lemma_placed_tail(es);
        let t = es.drop_first();
        lemma_others_ids(t, n);
        let o = others(t, n);
        if !in_group(es[0], n) {
            assert((seq![es[0]] + o).drop_first() =~= o);
            assert((seq![es[0]] + o)[0] == es[0]);
            assert forall|i: int| 0 <= i < (seq![es[0]] + o).len() implies (#[trigger] (seq![es[0]]
                + o)[i]).0.len() >= 1 by {
                if i > 0 {
                    assert((seq![es[0]] + o)[i] == o[i - 1]);
                }
            }
        }
    }
}

proof fn lemma_split_sub(es: Seq<Entry>, n: Seq<char>)
    ensures
        ids_sub(es).to_multiset() == ids_grp(es, n).to_multiset().add(
            ids_sub_other(es, n).to_multiset(),
        ),
    decreases es.len(),
{
    broadcast use vstd::seq_lib::group_to_multiset_ensures;

    if es.len() > 0 {
        let t = es.drop_first();
        lemma_split_sub(t, n);
        let x = es[0].1;
        vstd::seq_lib::lemma_multiset_commutative(seq![x], ids_sub(t));
        vstd::seq_lib::lemma_multiset_commutative(seq![x], ids_grp(t, n));
        vstd::seq_lib::lemma_multiset_commutative(seq![x], ids_sub_other(t, n));
        if in_group(es[0], n) {
            assert(ids_sub(es).to_multiset() =~= ids_grp(es, n).to_multiset().add(
                ids_sub_other(es, n).to_multiset(),
            ));
        } else if in_subdir(es[0]) {
            assert(ids_sub(es).to_multiset() =~= ids_grp(es, n).to_multiset().add(
                ids_sub_other(es, n).to_multiset(),
            ));
        }
    } else {
        assert(ids_sub(es).to_multiset() =~= ids_grp(es, n).to_multiset().add(
            ids_sub_other(es, n).to_multiset(),
        ));
    }
}

proof fn lemma_split_all(es: Seq<Entry>)
    requires
        all_placed(es),
    ensures
        ids_all(es).to_multiset() == ids_sub(es).to_multiset().add(ids_leaf(es).to_multiset()),
    decreases es.len(),
{
    broadcast use vstd::seq_lib::group_to_multiset_ensures;

    if es.len() > 0 {
        lemma_placed_tail(es);
        let t = es.drop_first();
        lemma_split_all(t);
        let x = es[0].1;
        vstd::seq_lib::lemma_multiset_commutative(seq![x], ids_all(t));
        vstd::seq_lib::lemma_multiset_commutative(seq![x], ids_sub(t));
        vstd::seq_lib::lemma_multiset_commutative(seq![x], ids_leaf(t));
        assert(ids_all(es).to_multiset() =~= ids_sub(es).to_multiset().add(
            ids_leaf(es).to_multiset(),
        ));
    } else {
        assert(ids_all(es).to_multiset() =~= ids_sub(es).to_multiset().add(
            ids_leaf(es).to_multiset(),
        ));
    }
}

proof fn lemma_no_subdir(es: Seq<Entry>)
    requires
        min_dir(es) is None,
    ensures
        ids_sub(es) == Seq::<usize>::empty(),
    decreases es.len(),
{
    if es.len() > 0 {
        lemma_no_subdir(es.drop_first());
    }
}

proof fn lemma_node_lists_all(es: Seq<Entry>, depth: usize)
    requires
        all_placed(es),
    ensures
        files_in(node_rows(es, depth)).to_multiset() == ids_all(es).to_multiset(),
    decreases size(es), 1int,
{
    broadcast use vstd::seq_lib::group_to_multiset_ensures;

    lemma_dir_lists_subdirs(es, depth);
    lemma_file_rows_ids(es, depth);
    lemma_files_in_concat(dir_rows(es, depth), file_rows(es, depth));
    vstd::seq_lib::lemma_multiset_commutative(
        files_in(dir_rows(es, depth)),
        files_in(file_rows(es, depth)),
    );
    lemma_split_all(es);
}

proof fn lemma_dir_lists_subdirs(es: Seq<Entry>, depth: usize)
    requires
        all_placed(es),
    ensures
        files_in(dir_rows(es, depth)).to_multiset() == ids_sub(es).to_multiset(),
    decreases size(es), 0int,
{
    broadcast use vstd::seq_lib::group_to_multiset_ensures;

    match min_dir(es) {
        None => {
            lemma_no_subdir(es);
            lemma_files_in_empty();
            assert(dir_rows(es, depth) == Seq::<TreeRowView>::empty());
        },
        Some(n) => {
            lemma_min_dir_exists(es);
            lemma_split_sizes(es, n);
            let g = group(es, n);
            let o = others(es, n);
            let d1 = (depth + 1) as usize;
            lemma_group_ids(es, n);
            lemma_others_ids(es, n);
            lemma_node_lists_all(g, d1);
            lemma_dir_lists_subdirs(o, depth);
            let row = TreeRowView { depth, dir: Some(n), file: None };
            let head = seq![row];
            lemma_files_in_empty();
            assert(head.drop_first() =~= Seq::<TreeRowView>::empty());
            assert(head[0] == row);
            assert(files_in(head) =~= Seq::<usize>::empty());
            assert(dir_rows(es, depth) == head + node_rows(g, d1) + dir_rows(o, depth));
            lemma_files_in_concat(head, node_rows(g, d1));
            lemma_files_in_concat(head + node_rows(g, d1), dir_rows(o, depth));
            assert(Seq::<usize>::empty() + files_in(node_rows(g, d1)) =~= files_in(node_rows(g, d1)));
            vstd::seq_lib::lemma_multiset_commutative(
                files_in(node_rows(g, d1)),
                files_in(dir_rows(o, depth)),
            );
            lemma_split_sub(es, n);
        },
    }
}

/// Every file of the list that has a path appears in the tree exactly once.
pub proof fn law_tree_lists_every_file_once(files: Seq<FileEntry>)
    ensures
        files_in(node_rows(entries_of(files), 0)).to_multiset() == ids_all(
            entries_of(files),
        ).to_multiset(),
{
    lemma_entries_placed(files);
    lemma_node_lists_all(entries_of(files), 0);
}

proof fn lemma_entries_placed(files: Seq<FileEntry>)
    ensures
        all_placed(entries_of(files)),
    decreases files.len(),
{
    if files.len() > 0 {
        lemma_entries_placed(files.drop_last());
        let rest = entries_of(files.drop_last());
        if files.last().components@.len() > 0 {
            let x = (views_of_strings(files.last().components@), (files.len() - 1) as usize);
            assert forall|i: int| 0 <= i < rest.push(x).len() implies (#[trigger] rest.push(x)[i]).0.len()
                >= 1 by {
                if i < rest.len() {
                    assert(rest.push(x)[i] == rest[i]);
                }
            }
        }
    }
}

// ---------------------------------------------------------------------------
// executable
// ---------------------------------------------------------------------------

type ExecEntry = (Vec<Vec<char>>, usize);

pub open spec fn entry_views(es: Seq<ExecEntry>) -> Seq<Entry> {
    es.map_values(|e: ExecEntry| (views(e.0@), e.1))
}

proof fn lemma_entry_views_drop(es: Seq<ExecEntry>)
    requires
        es.len() > 0,
    ensures
        entry_views(es).drop_first() == entry_views(es.drop_first()),
        entry_views(es)[0] == (views(es[0].0@), es[0].1),
{
    assert(entry_views(es).drop_first() =~= entry_views(es.drop_first()));
}

/// The index of the entry holding the smallest sub-directory name.
fn min_dir_index(es: &Vec<ExecEntry>) -> (r: Option<usize>)
    ensures
        match r {
            Some(k) => k < es@.len() && in_subdir(entry_views(es@)[k as int]) && min_dir(
                entry_views(es@),
            ) == Some(views(es@[k as int].0@)[0]),
            None => min_dir(entry_views(es@)) is None,
        },
{
    let mut best: Option<usize> = None;
    let mut i: usize = es.len();
    let ghost all = entry_views(es@);
    assert(all.subrange(es@.len() as int, es@.len() as int) =~= Seq::<Entry>::empty());
    while i > 0
        invariant
            i <= es@.len(),
            all == entry_views(es@),
            match best {
                Some(k) => i <= k < es@.len() && in_subdir(all[k as int]) && min_dir(
                    all.subrange(i as int, es@.len() as int),
                ) == Some(all[k as int].0[0]),
                None => min_dir(all.subrange(i as int, es@.len() as int)) is None,
            },
        decreases i,
    {
        let ghost tail = all.subrange(i as int, es@.len() as int);
        let ghost here = all.subrange(i - 1, es@.len() as int);
        assert(here.drop_first() =~= tail);
        assert(here[0] == all[i - 1]);
        assert(all[i - 1] == (views(es@[i - 1].0@), es@[i - 1].1));
        let e = &es[i - 1];
        if e.0.len() >= 2 {
            assert(views(e.0@)[0] == e.0@[0]@);
            match best {
                None => {
                    best = Some(i - 1);
                },
                Some(k) => {
                    assert(all[k as int] == (views(es@[k as int].0@), es@[k as int].1));
                    assert(views(es@[k as int].0@)[0] == es@[k as int].0@[0]@);
                    if !lex_less(es[k].0[0].as_slice(), e.0[0].as_slice()) {
                        best = Some(i - 1);
                    }
                },
            }
        }
        i -= 1;
    }
    assert(all.subrange(0, es@.len() as int) =~= all);
    best
}

/// Split the entries into those under sub-directory `n` (one level down)
/// and the rest, both in list order.
fn split_group(es: Vec<ExecEntry>, n: &Vec<char>) -> (r: (Vec<ExecEntry>, Vec<ExecEntry>))
    ensures
        entry_views(r.0@) == group(entry_views(es@), n@),
        entry_views(r.1@) == others(entry_views(es@), n@),
{
    let ghost all = entry_views(es@);
    let mut src = es;
    let mut g: Vec<ExecEntry> = Vec::new();
    let mut o: Vec<ExecEntry> = Vec::new();
    assert(entry_views(g@) =~= Seq::<Entry>::empty());
    assert(entry_views(o@) =~= Seq::<Entry>::empty());
    while src.len() > 0
        invariant
            group(all, n@) == entry_views(g@) + group(entry_views(src@), n@),
            others(all, n@) == entry_views(o@) + others(entry_views(src@), n@),
        decreases src@.len(),
    {
        let ghost before = src@;
        let ghost bv = entry_views(before);
        proof {
            lemma_entry_views_drop(before);
        }
        let e = src.remove(0);
        proof {
            assert(src@ =~= before.drop_first());
        }
        let is_g = e.0.len() >= 2 && crate::sort::seq_eq(e.0[0].as_slice(), n.as_slice());
        proof {
            if e.0.len() >= 2 {
                assert(views(e.0@)[0] == e.0@[0]@);
            }
            assert(is_g == in_group(bv[0], n@));
        }
        if is_g {
            let mut comps = e.0;
            let ghost cv = views(comps@);
            comps.remove(0);
            proof {
                assert(views(comps@) =~= cv.drop_first());
            }
            let ghost prev = entry_views(g@);
            g.push((comps, e.1));
            proof {
                assert(entry_views(g@) =~= prev.push((cv.drop_first(), e.1)));
                assert(group(bv, n@) == seq![(cv.drop_first(), e.1)] + group(bv.drop_first(), n@));
                assert(prev + group(bv, n@) =~= entry_views(g@) + group(entry_views(src@), n@));
                assert(others(bv, n@) == others(bv.drop_first(), n@));
            }
        } else {
            let ghost prev = entry_views(o@);
            o.push(e);
            proof {
                assert(entry_views(o@) =~= prev.push(bv[0]));
                assert(others(bv, n@) == seq![bv[0]] + others(bv.drop_first(), n@));
                assert(prev + others(bv, n@) =~= entry_views(o@) + others(entry_views(src@), n@));
                assert(group(bv, n@) == group(bv.drop_first(), n@));
            }
        }
    }
    proof {
        assert(entry_views(src@) =~= Seq::<Entry>::empty());
        assert(entry_views(g@) + Seq::<Entry>::empty() =~= entry_views(g@));
        assert(entry_views(o@) + Seq::<Entry>::empty() =~= entry_views(o@));
    }
    (g, o)
}

fn file_rows_exec(es: &Vec<ExecEntry>, depth: usize) -> (r: Vec<TreeRow>)
    ensures
        row_views(r@) == file_rows(entry_views(es@), depth),
{
    let mut out: Vec<TreeRow> = Vec::new();
    let mut i: usize = es.len();
    let ghost all = entry_views(es@);
    assert(all.subrange(es@.len() as int, es@.len() as int) =~= Seq::<Entry>::empty());
    assert(row_views(out@) =~= Seq::<TreeRowView>::empty());
    // Built from the back so that each step prepends one row; reversed after.
    while i > 0
        invariant
            i <= es@.len(),
            all == entry_views(es@),
            row_views(out@).reverse() == file_rows(all.subrange(i as int, es@.len() as int), depth),
        decreases i,
    {
        let ghost tail = all.subrange(i as int, es@.len() as int);
        let ghost here = all.subrange(i - 1, es@.len() as int);
        assert(here.drop_first() =~= tail);
        assert(here[0] == all[i - 1]);
        assert(all[i - 1] == (views(es@[i - 1].0@), es@[i - 1].1));
        if es[i - 1].0.len() == 1 {
            let row = TreeRow { depth, dir: None, file: Some(es[i - 1].1) };
            let ghost prev = row_views(out@);
            out.push(row);
            proof {
                assert(row_views(out@) =~= prev.push(row@));
                assert(row_views(out@).reverse() =~= seq![row@] + prev.reverse());
            }
        }
        i -= 1;
    }
    assert(all.subrange(0, es@.len() as int) =~= all);
    let mut r: Vec<TreeRow> = Vec::new();
    let ghost rev = row_views(out@);
    assert(row_views(r@) =~= Seq::<TreeRowView>::empty());
    while out.len() > 0
        invariant
            row_views(r@) + row_views(out@).reverse() == rev.reverse(),
        decreases out@.len(),
    {
        let ghost br = row_views(r@);
        let ghost bo = row_views(out@);
        let x = out.pop().unwrap();
        r.push(x);
        proof {
            assert(row_views(r@) =~= br.push(bo.last()));
            assert(row_views(out@) =~= bo.drop_last());
            assert(bo.reverse() =~= seq![bo.last()] + bo.drop_last().reverse());
            assert(row_views(r@) + row_views(out@).reverse() =~= br + bo.reverse());
        }
    }
    assert(row_views(out@).reverse() =~= Seq::<TreeRowView>::empty());
    assert(row_views(r@) + Seq::<TreeRowView>::empty() =~= row_views(r@));
    r
}

proof fn lemma_row_views_append(a: Seq<TreeRow>, b: Seq<TreeRow>)
    ensures
        row_views(a + b) == row_views(a) + row_views(b),
{
    assert(row_views(a + b) =~= row_views(a) + row_views(b));
}

fn node_rows_exec(es: Vec<ExecEntry>, depth: usize) -> (r: Vec<TreeRow>)
    requires
        depth + size(entry_views(es@)) <= usize::MAX,
    ensures
        row_views(r@) == node_rows(entry_views(es@), depth),
    decreases size(entry_views(es@)), 1int,
{
    let ghost ev = entry_views(es@);
    let mut files = file_rows_exec(&es, depth);
    let mut dirs = dir_rows_exec(es, depth);
    let ghost a = dirs@;
    let ghost b = files@;
    dirs.append(&mut files);
    proof {
        lemma_row_views_append(a, b);
    }
    dirs
}

fn dir_rows_exec(es: Vec<ExecEntry>, depth: usize) -> (r: Vec<TreeRow>)
    requires
        depth + size(entry_views(es@)) <= usize::MAX,
    ensures
        row_views(r@) == dir_rows(entry_views(es@), depth),
    decreases size(entry_views(es@)), 0int,
{
    let ghost ev = entry_views(es@);
    match min_dir_index(&es) {
        None => {
            let r: Vec<TreeRow> = Vec::new();
            assert(row_views(r@) =~= Seq::<TreeRowView>::empty());
            r
        },
        Some(k) => {
            let first = &es[k].0[0];
            let name = slice_range(first.as_slice(), 0, first.len());
            proof {
                assert(ev[k as int] == (views(es@[k as int].0@), es@[k as int].1));
                assert(views(es@[k as int].0@)[0] == es@[k as int].0@[0]@);
                assert(name@ =~= es@[k as int].0@[0]@);
                lemma_min_dir_exists(ev);
                lemma_split_sizes(ev, name@);
            }
            let label = string_from_chars(name.as_slice());
            let (g, o) = split_group(es, &name);
            let mut out: Vec<TreeRow> = Vec::new();
            out.push(TreeRow { depth, dir: Some(label), file: None });
            let ghost head = out@;
            let mut sub = node_rows_exec(g, depth + 1);
            let ghost sv = sub@;
            out.append(&mut sub);
            let ghost mid = out@;
            let mut rest = dir_rows_exec(o, depth);
            let ghost rv = rest@;
            out.append(&mut rest);
            proof {
                lemma_row_views_append(head, sv);
                lemma_row_views_append(mid, rv);
                assert(row_views(head) =~= seq![TreeRowView { depth, dir: Some(name@), file: None }]);
            }
            out
        },
    }
}

/// The entries of the list: each file's components as text, with its position.
fn entries(files: &Vec<FileEntry>) -> (r: Vec<ExecEntry>)
    ensures
        entry_views(r@) == entries_of(files@),
{
    let mut out: Vec<ExecEntry> = Vec::new();
    let mut i: usize = 0;
    assert(files@.subrange(0, 0) =~= Seq::<FileEntry>::empty());
    assert(entry_views(out@) =~= Seq::<Entry>::empty());
    while i < files.len()
        invariant
            i <= files@.len(),
            entry_views(out@) == entries_of(files@.subrange(0, i as int)),
        decreases files@.len() - i,
    {
        let ghost pre = files@.subrange(0, i + 1);
        assert(pre.drop_last() =~= files@.subrange(0, i as int));
        assert(pre.last() == files@[i as int]);
        let comps = &files[i].components;
        if comps.len() > 0 {
            let mut cv: Vec<Vec<char>> = Vec::new();
            let mut j: usize = 0;
            while j < comps.len()
                invariant
                    j <= comps@.len(),
                    views(cv@) == views_of_strings(comps@).subrange(0, j as int),
                decreases comps@.len() - j,
            {
                let ghost prev = views(cv@);
                let c = str_chars(comps[j].as_str());
                cv.push(c);
                assert(views(cv@) =~= prev.push(comps@[j as int]@));
                assert(views_of_strings(comps@).subrange(0, j + 1) =~= views_of_strings(
                    comps@,
                ).subrange(0, j as int).push(comps@[j as int]@));
                j += 1;
            }
            assert(views_of_strings(comps@).subrange(0, j as int) =~= views_of_strings(comps@));
            let ghost prev = entry_views(out@);
            out.push((cv, i));
            assert(entry_views(out@) =~= prev.push((views_of_strings(comps@), i)));
        }
        i += 1;
    }
    assert(files@.subrange(0, i as int) =~= files@);
    out
}

/// The file tree's rows for a torrent's file list.
pub fn tree_rows(files: &Vec<FileEntry>) -> (r: Vec<TreeRow>)
    requires
        size(entries_of(files@)) <= usize::MAX,
    ensures
        row_views(r@) == node_rows(entries_of(files@), 0),
{
    let es = entries(files);
    node_rows_exec(es, 0)
}

} // verus!
