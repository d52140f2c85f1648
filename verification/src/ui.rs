//! The decisions behind the web UI's views: the torrent list's filter and
//! sort labels, the settings page's small lookups, the bitfield's fill
//! order, and the release calendar's arithmetic.

use vstd::prelude::*;

use crate::fx::{hash2, hash2_spec};
use crate::text::{contains, contains_chars, str_chars, str_to_lowercase, trim, trim_chars,
    unicode_lowercase, string_from_chars, push_str, extend_chars};
use crate::sort::{pairs_view, sort_by_text_key, sorted_by_key, sorted_by_num};
use crate::types::{HdrPref, MediaKind, Resolution, TorrentState};

verus! {

// ---------------------------------------------------------------------------
// torrent list
// ---------------------------------------------------------------------------

/// Coarse status buckets for the list filter.
#[derive(Clone, Copy, Debug, PartialEq, Eq, Structural)]
pub enum StatusFilter {
    All,
    Downloading,
    Seeding,
    Paused,
    Error,
}

impl StatusFilter {
    pub open spec fn matches_spec(self, s: TorrentState) -> bool {
        match self {
            StatusFilter::All => true,
            StatusFilter::Downloading => s == TorrentState::Live || s == TorrentState::Initializing,
            StatusFilter::Seeding => s == TorrentState::Finished,
            StatusFilter::Paused => s == TorrentState::Paused,
            StatusFilter::Error => s == TorrentState::Error,
        }
    }

    pub fn matches(&self, s: TorrentState) -> (r: bool)
        ensures
            r == self.matches_spec(s),
    {
        match self {
            StatusFilter::All => true,
            StatusFilter::Downloading => matches!(s, TorrentState::Live | TorrentState::Initializing),
            StatusFilter::Seeding => matches!(s, TorrentState::Finished),
            StatusFilter::Paused => matches!(s, TorrentState::Paused),
            StatusFilter::Error => matches!(s, TorrentState::Error),
        }
    }

    pub open spec fn label_spec(self) -> Seq<char> {
        match self {
            StatusFilter::All => "ALL"@,
            StatusFilter::Downloading => "DOWNLOADING"@,
            StatusFilter::Seeding => "SEEDING"@,
            StatusFilter::Paused => "PAUSED"@,
            StatusFilter::Error => "ERROR"@,
        }
    }

    pub fn label(&self) -> (r: &'static str)
        ensures
            r@ == self.label_spec(),
    {
        match self {
            StatusFilter::All => "ALL",
            StatusFilter::Downloading => "DOWNLOADING",
            StatusFilter::Seeding => "SEEDING",
            StatusFilter::Paused => "PAUSED",
            StatusFilter::Error => "ERROR",
        }
    }
}

/// Every torrent state falls into exactly one bucket besides `All`.
pub proof fn law_status_buckets_partition(s: TorrentState)
    ensures
        StatusFilter::All.matches_spec(s),
        (StatusFilter::Downloading.matches_spec(s) as int) + (StatusFilter::Seeding.matches_spec(s)
            as int) + (StatusFilter::Paused.matches_spec(s) as int) + (
        StatusFilter::Error.matches_spec(s) as int) == 1,
{
}

/// Sort keys for the list.
#[derive(Clone, Copy, Debug, PartialEq, Eq, Structural)]
pub enum SortKey {
    Added,
    Name,
    Size,
    Progress,
    Down,
    Up,
    Ratio,
}

impl SortKey {
    pub open spec fn label_spec(self) -> Seq<char> {
        match self {
            SortKey::Added => "ADDED"@,
            SortKey::Name => "NAME"@,
            SortKey::Size => "SIZE"@,
            SortKey::Progress => "PROGRESS"@,
            SortKey::Down => "DOWN"@,
            SortKey::Up => "UP"@,
            SortKey::Ratio => "RATIO"@,
        }
    }

    pub fn label(&self) -> (r: &'static str)
        ensures
            r@ == self.label_spec(),
    {
        match self {
            SortKey::Added => "ADDED",
            SortKey::Name => "NAME",
            SortKey::Size => "SIZE",
            SortKey::Progress => "PROGRESS",
            SortKey::Down => "DOWN",
            SortKey::Up => "UP",
            SortKey::Ratio => "RATIO",
        }
    }
}

/// Whether a row stays in the list: its lower-cased name contains the
/// trimmed, lower-cased query (any name when the query is blank), and its
/// state is in the chosen bucket.
pub open spec fn row_visible_spec(
    name: Seq<char>,
    state: TorrentState,
    query: Seq<char>,
    filter: StatusFilter,
) -> bool {
    let q = unicode_lowercase(trim(query));
    (q.len() == 0 || contains(unicode_lowercase(name), q)) && filter.matches_spec(state)
}

pub fn row_visible(name: &str, state: TorrentState, query: &str, filter: StatusFilter) -> (r: bool)
    ensures
        r == row_visible_spec(name@, state, query@, filter),
{
    let t = string_from_chars(trim_chars(str_chars(query).as_slice()).as_slice());
    let q = str_chars(str_to_lowercase(t.as_str()).as_str());
    let text_ok = if q.len() == 0 {
        true
    } else {
        let n = str_chars(str_to_lowercase(name).as_str());
        contains_chars(n.as_slice(), q.as_slice())
    };
    text_ok && filter.matches(state)
}

/// What the list's integer and text sort keys read of a row.
pub struct ListRow {
    pub id: u64,
    pub name: String,
    pub total_bytes: u64,
}

/// Rows keyed by a number, with their ids.
pub open spec fn num_keyed(rows: Seq<ListRow>, key: SortKey) -> Seq<(u64, u64)> {
    rows.map_values(
        |r: ListRow|
            (
                if key == SortKey::Size {
                    r.total_bytes
                } else {
                    r.id
                },
                r.id,
            ),
    )
}

/// Rows keyed by their lower-cased name, with their ids.
pub open spec fn name_keyed(rows: Seq<ListRow>) -> Seq<(Seq<char>, u64)> {
    rows.map_values(|r: ListRow| (unicode_lowercase(r.name@), r.id))
}

pub open spec fn ids_of<K>(s: Seq<(K, u64)>) -> Seq<u64> {
    s.map_values(|p: (K, u64)| p.1)
}

/// The list's order for the keys that are not measured in floating point:
/// by id (ADDED), by size, or by lower-cased name, each stable, reversed
/// comparison when descending (a stable descending sort is the reverse of
/// the stable ascending sort of the reversed rows). `None` for the other keys.
pub open spec fn list_order_spec(rows: Seq<ListRow>, key: SortKey, desc: bool) -> Option<Seq<u64>> {
    if key == SortKey::Added || key == SortKey::Size {
        Some(ids_of(sorted_by_num(num_keyed(rows, key), desc)))
    } else if key == SortKey::Name {
        if desc {
            Some(ids_of(sorted_by_key(name_keyed(rows).reverse())).reverse())
        } else {
            Some(ids_of(sorted_by_key(name_keyed(rows))))
        }
    } else {
        None
    }
}

fn ids_exec<K>(v: &Vec<(K, u64)>) -> (r: Vec<u64>)
    ensures
        r@ == v@.map_values(|p: (K, u64)| p.1),
{
    let mut out: Vec<u64> = Vec::new();
    let mut i: usize = 0;
    while i < v.len()
        invariant
            i <= v@.len(),
            out@ == v@.subrange(0, i as int).map_values(|p: (K, u64)| p.1),
        decreases v@.len() - i,
    {
        out.push(v[i].1);
        i += 1;
        assert(out@ =~= v@.subrange(0, i as int).map_values(|p: (K, u64)| p.1));
    }
    assert(v@.subrange(0, i as int) =~= v@);
    out
}

fn reversed_ids(v: Vec<u64>) -> (r: Vec<u64>)
    ensures
        r@ == v@.reverse(),
{
    let mut out: Vec<u64> = Vec::new();
    let mut i: usize = v.len();
    while i > 0
        invariant
            i <= v@.len(),
            out@ == v@.subrange(i as int, v@.len() as int).reverse(),
        decreases i,
    {
        out.push(v[i - 1]);
        i -= 1;
        assert(out@ =~= v@.subrange(i as int, v@.len() as int).reverse());
    }
    assert(v@.subrange(0, v@.len() as int) =~= v@);
    out
}

pub fn list_order(rows: &Vec<ListRow>, key: SortKey, desc: bool) -> (r: Option<Vec<u64>>)
    ensures
        match r {
            Some(v) => list_order_spec(rows@, key, desc) == Some(v@),
            None => list_order_spec(rows@, key, desc) is None,
        },
{
    match key {
        SortKey::Added | SortKey::Size => {
            let mut keyed: Vec<(u64, u64)> = Vec::new();
            let mut i: usize = 0;
            while i < rows.len()
                invariant
                    i <= rows@.len(),
                    keyed@ == num_keyed(rows@.subrange(0, i as int), key),
                    key == SortKey::Added || key == SortKey::Size,
                decreases rows@.len() - i,
            {
                let k = match key {
                    SortKey::Size => rows[i].total_bytes,
                    _ => rows[i].id,
                };
                keyed.push((k, rows[i].id));
                i += 1;
                assert(keyed@ =~= num_keyed(rows@.subrange(0, i as int), key));
            }
            assert(rows@.subrange(0, i as int) =~= rows@);
            let sorted = crate::sort::sort_by_num_key(keyed, desc);
            Some(ids_exec(&sorted))
        },
        SortKey::Name => {
            let mut keyed: Vec<(Vec<char>, u64)> = Vec::new();
            let n = rows.len();
            let mut i: usize = 0;
            let ghost all = name_keyed(rows@);
            let ghost target = if desc {
                all.reverse()
            } else {
                all
            };
            while i < n
                invariant
                    i <= n == rows@.len(),
                    all == name_keyed(rows@),
                    target == (if desc {
                        all.reverse()
                    } else {
                        all
                    }),
                    pairs_view(keyed@) == target.subrange(0, i as int),
                decreases n - i,
            {
                let j = if desc {
                    n - 1 - i
                } else {
                    i
                };
                let key_chars = str_chars(str_to_lowercase(rows[j].name.as_str()).as_str());
                let ghost prev = pairs_view(keyed@);
                keyed.push((key_chars, rows[j].id));
                proof {
                    assert(target[i as int] == all[j as int]);
                    assert(pairs_view(keyed@) =~= prev.push(target[i as int]));
                    assert(target.subrange(0, i + 1) =~= target.subrange(0, i as int).push(
                        target[i as int],
                    ));
                }
                i += 1;
            }
            assert(target.subrange(0, i as int) =~= target);
            let sorted = sort_by_text_key(keyed);
            proof {
                assert(pairs_view(sorted@).map_values(|p: (Seq<char>, u64)| p.1) =~= sorted@.map_values(
                    |p: (Vec<char>, u64)| p.1,
                ));
            }
            let ids = ids_exec(&sorted);
            if desc {
                Some(reversed_ids(ids))
            } else {
                Some(ids)
            }
        },
        _ => None,
    }
}

// ---------------------------------------------------------------------------
// settings page lookups
// ---------------------------------------------------------------------------

pub open spec fn kind_class_spec(k: MediaKind) -> Seq<char> {
    match k {
        MediaKind::Movie => "k-movie"@,
        MediaKind::Tv => "k-tv"@,
        MediaKind::Other => "k-other"@,
    }
}

/// The CSS class of a category's kind badge.
pub fn kind_class(k: MediaKind) -> (r: &'static str)
    ensures
        r@ == kind_class_spec(k),
{
    match k {
        MediaKind::Movie => "k-movie",
        MediaKind::Tv => "k-tv",
        MediaKind::Other => "k-other",
    }
}

/// Position of a resolution in the selector (`Resolution::ALL` order).
pub fn res_index(r: Resolution) -> (i: usize)
    ensures
        i == r.rank_spec(),
{
    match r {
        Resolution::Unknown => 0,
        Resolution::R480 => 1,
        Resolution::R720 => 2,
        Resolution::R1080 => 3,
        Resolution::R2160 => 4,
    }
}

pub open spec fn hdr_index_spec(h: HdrPref) -> usize {
    match h {
        HdrPref::Ignore => 0,
        HdrPref::Prefer => 1,
        HdrPref::Require => 2,
    }
}

/// Position of an HDR preference in the selector (`HdrPref::ALL` order).
pub fn hdr_index(h: HdrPref) -> (i: usize)
    ensures
        i == hdr_index_spec(h),
{
    match h {
        HdrPref::Ignore => 0,
        HdrPref::Prefer => 1,
        HdrPref::Require => 2,
    }
}

// ---------------------------------------------------------------------------
// bitfield fill order
// ---------------------------------------------------------------------------

/// Cells in the progress bitfield.
pub const CELLS: usize = 96;

/// The stable hash of cell `i` of torrent `id`.
#[verifier::opaque]
pub open spec fn cell_hash(id: u64, i: int) -> u64 {
    hash2_spec(id, i as u64)
}

/// Cell `j` fills before cell `i`: a smaller stable hash, or an equal hash
/// and a smaller index (a stable sort by hash).
pub open spec fn fills_before(id: u64, j: int, i: int) -> bool {
    cell_hash(id, j) < cell_hash(id, i) || (cell_hash(id, j) == cell_hash(id, i) && j < i)
}

/// How many of the first `k` cells fill before cell `i`.
pub open spec fn count_before(id: u64, i: int, k: int) -> nat
    decreases k,
{
    if k <= 0 {
        0
    } else {
        count_before(id, i, k - 1) + if fills_before(id, k - 1, i) {
            1nat
        } else {
            0nat
        }
    }
}

/// The order in which the cells of a torrent's bitfield light up: cell `i`
/// gets rank `k` when it is the `k`-th in a stable sort of the cells by
/// `hash2(id, i)`, i.e. when `k` cells fill before it.
pub fn fill_ranks(id: u64, n: usize) -> (r: Vec<usize>)
    ensures
        r@.len() == n,
        forall|i: int| 0 <= i < n ==> #[trigger] r@[i] == count_before(id, i, n as int),
{
    let mut keys: Vec<u64> = Vec::new();
    let mut i: usize = 0;
    while i < n
        invariant
            i <= n,
            keys@.len() == i,
            forall|j: int| 0 <= j < i ==> #[trigger] keys@[j] == cell_hash(id, j),
        decreases n - i,
    {
        let h = hash2(id, i as u64);
        proof {
            reveal(cell_hash);
        }
        keys.push(h);
        i += 1;
    }
    let mut rank: Vec<usize> = Vec::new();
    let mut i: usize = 0;
    while i < n
        invariant
            i <= n,
            keys@.len() == n,
            forall|j: int| 0 <= j < n ==> #[trigger] keys@[j] == cell_hash(id, j),
            rank@.len() == i,
            forall|j: int| 0 <= j < i ==> #[trigger] rank@[j] == count_before(id, j, n as int),
        decreases n - i,
    {
        let mut c: usize = 0;
        let mut k: usize = 0;
        while k < n
            invariant
                i < n,
                k <= n,
                keys@.len() == n,
                forall|j: int| 0 <= j < n ==> #[trigger] keys@[j] == cell_hash(id, j),
                c == count_before(id, i as int, k as int),
                c <= k,
            decreases n - k,
        {
            let before = keys[k] < keys[i] || (keys[k] == keys[i] && k < i);
            if before {
                c += 1;
            }
            k += 1;
        }
        rank.push(c);
        i += 1;
    }
    rank
}

/// A cell never fills before itself, and the order is transitive.
proof fn lemma_fills_before_order(id: u64, a: int, b: int, c: int)
    ensures
        !fills_before(id, a, a),
        fills_before(id, a, b) && fills_before(id, b, c) ==> fills_before(id, a, c),
        a != b && 0 <= a && 0 <= b && a <= u64::MAX && b <= u64::MAX ==> fills_before(id, a, b)
            || fills_before(id, b, a),
{
    if a != b && 0 <= a && 0 <= b && a <= u64::MAX && b <= u64::MAX {
        assert(a as u64 != b as u64);
    }
}

/// When `j` fills before `i`, more of the first `k` cells fill before `i`
/// than before `j` (one more once `j` itself is among them).
proof fn lemma_count_monotone(id: u64, i: int, j: int, k: int)
    requires
        fills_before(id, j, i),
        0 <= k,
        0 <= j,
    ensures
        count_before(id, i, k) >= count_before(id, j, k) + (if j < k {
            1int
        } else {
            0
        }),
    decreases k,
{
    if k > 0 {
        lemma_count_monotone(id, i, j, k - 1);
        lemma_fills_before_order(id, k - 1, j, i);
        lemma_fills_before_order(id, j, j, j);
        let ci = count_before(id, i, k - 1);
        let cj = count_before(id, j, k - 1);
        assert(count_before(id, i, k) == ci + if fills_before(id, k - 1, i) {
            1nat
        } else {
            0nat
        });
        assert(count_before(id, j, k) == cj + if fills_before(id, k - 1, j) {
            1nat
        } else {
            0nat
        });
        assert(fills_before(id, k - 1, j) ==> fills_before(id, k - 1, i));
        if k - 1 == j {
            assert(fills_before(id, k - 1, i));
            assert(!fills_before(id, k - 1, j));
            assert(ci >= cj);
        } else if j < k - 1 {
            assert(ci >= cj + 1);
        } else {
            assert(ci >= cj);
        }
    }
}

proof fn lemma_count_bound(id: u64, i: int, k: int)
    requires
        0 <= i < k,
    ensures
        count_before(id, i, k) < k,
    decreases k,
{
    lemma_fills_before_order(id, i, i, i);
    if k - 1 > i {
        lemma_count_bound(id, i, k - 1);
    } else {
        lemma_count_le(id, i, k - 1);
    }
}

proof fn lemma_count_le(id: u64, i: int, k: int)
    requires
        0 <= k,
    ensures
        count_before(id, i, k) <= k,
    decreases k,
{
    if k > 0 {
        lemma_count_le(id, i, k - 1);
    }
}

/// The fill order is a permutation: every cell gets a distinct rank below
/// the number of cells.
pub proof fn law_fill_ranks_permutation(id: u64, n: nat)
    requires
        n <= u64::MAX,
    ensures
        forall|i: int| 0 <= i < n ==> #[trigger] count_before(id, i, n as int) < n,
        forall|i: int, j: int|
            0 <= i < n && 0 <= j < n && i != j ==> #[trigger] count_before(id, i, n as int)
                != #[trigger] count_before(id, j, n as int),
{
    assert forall|i: int| 0 <= i < n implies #[trigger] count_before(id, i, n as int) < n by {
        lemma_count_bound(id, i, n as int);
    }
    assert forall|i: int, j: int|
        0 <= i < n && 0 <= j < n && i != j implies #[trigger] count_before(id, i, n as int)
        != #[trigger] count_before(id, j, n as int) by {
        lemma_fills_before_order(id, i, j, i);
        if fills_before(id, j, i) {
            lemma_count_monotone(id, i, j, n as int);
        } else {
            lemma_count_monotone(id, j, i, n as int);
        }
    }
}

// ---------------------------------------------------------------------------
// release calendar
// ---------------------------------------------------------------------------

/// Whether `y` is a leap year in the Gregorian calendar.
pub open spec fn is_leap(y: int) -> bool {
    (y % 4 == 0 && y % 100 != 0) || y % 400 == 0
}

pub open spec fn days_in_month_spec(y: int, m: int) -> int {
    if m == 1 || m == 3 || m == 5 || m == 7 || m == 8 || m == 10 || m == 12 {
        31
    } else if m == 4 || m == 6 || m == 9 || m == 11 {
        30
    } else if m == 2 {
        if is_leap(y) {
            29
        } else {
            28
        }
    } else {
        30
    }
}

/// Days in month `m` of year `y` (30 for a month number out of range).
pub fn days_in_month(y: i32, m: u32) -> (r: u32)
    ensures
        r == days_in_month_spec(y as int, m as int),
{
    match m {
        1 | 3 | 5 | 7 | 8 | 10 | 12 => 31,
        4 | 6 | 9 | 11 => 30,
        2 => if (y % 4 == 0 && y % 100 != 0) || y % 400 == 0 {
            29
        } else {
            28
        },
        _ => 30,
    }
}

/// Sakamoto's month offsets.
pub open spec fn month_offset(m: int) -> int {
    if m == 1 {
        0
    } else if m == 2 {
        3
    } else if m == 3 {
        2
    } else if m == 4 {
        5
    } else if m == 5 {
        0
    } else if m == 6 {
        3
    } else if m == 7 {
        5
    } else if m == 8 {
        1
    } else if m == 9 {
        4
    } else if m == 10 {
        6
    } else if m == 11 {
        2
    } else {
        4
    }
}

/// Rust's `/` on integers: rounds toward zero.
pub open spec fn tdiv(a: int, b: int) -> int {
    if a >= 0 {
        a / b
    } else {
        -((-a) / b)
    }
}

/// Rust's `%` on integers: the remainder takes the sign of `a`.
pub open spec fn trem(a: int, b: int) -> int {
    a - b * tdiv(a, b)
}

pub open spec fn in_i32(v: int) -> bool {
    i32::MIN <= v <= i32::MAX
}

/// The year Sakamoto's method counts from: January and February belong to
/// the year before.
pub open spec fn sak_year(y: int, m: int) -> int {
    if m < 3 {
        y - 1
    } else {
        y
    }
}

/// The running sums of `y + y/4 - y/100 + y/400 + t[m-1] + d`, evaluated
/// left to right in `i32` as written (the day cast with `as i32`).
pub open spec fn sak_sums(y: int, m: int, d: u32) -> Seq<int> {
    let y1 = sak_year(y, m);
    let a = y1 + tdiv(y1, 4);
    let b = a - tdiv(y1, 100);
    let c = b + tdiv(y1, 400);
    let e = c + month_offset(m);
    let w = e + (d as i32) as int;
    seq![y1, a, b, c, e, w]
}

/// The dates for which none of those sums overflows `i32` (the month must
/// also index the offset table).
pub open spec fn weekday_fits(y: int, m: int, d: u32) -> bool {
    &&& 1 <= m <= 12
    &&& forall|k: int| 0 <= k < 6 ==> in_i32(#[trigger] sak_sums(y, m, d)[k])
}

/// Day of the week (0 = Sunday) by Sakamoto's method.
pub open spec fn weekday_spec(y: int, m: int, d: u32) -> int {
    let w = sak_sums(y, m, d)[5];
    trem(trem(w, 7) + 7, 7)
}

/// Day of the week (0 = Sunday) of a Gregorian date.
pub fn weekday(y: i32, m: u32, d: u32) -> (r: u32)
    requires
        weekday_fits(y as int, m as int, d),
    ensures
        r == weekday_spec(y as int, m as int, d),
        r < 7,
{
    let t: [i32; 12] = [0, 3, 2, 5, 0, 3, 5, 1, 4, 6, 2, 4];
    let ghost sums = sak_sums(y as int, m as int, d);
    assert(in_i32(sums[0]) && in_i32(sums[1]) && in_i32(sums[2]) && in_i32(sums[3]) && in_i32(
        sums[4],
    ) && in_i32(sums[5]));
    let y = if m < 3 {
        y - 1
    } else {
        y
    };
    let idx = (m - 1) as usize;
    assert(t@[idx as int] == month_offset(m as int));
    let a = y + y / 4;
    let b = a - y / 100;
    let c = b + y / 400;
    let e = c + t[idx];
    let w = e + d as i32;
    let r = ((w % 7) + 7) % 7;
    r as u32
}

pub open spec fn month_name_spec(m: int) -> Seq<char> {
    if m == 1 {
        "January"@
    } else if m == 2 {
        "February"@
    } else if m == 3 {
        "March"@
    } else if m == 4 {
        "April"@
    } else if m == 5 {
        "May"@
    } else if m == 6 {
        "June"@
    } else if m == 7 {
        "July"@
    } else if m == 8 {
        "August"@
    } else if m == 9 {
        "September"@
    } else if m == 10 {
        "October"@
    } else if m == 11 {
        "November"@
    } else if m == 12 {
        "December"@
    } else {
        ""@
    }
}

/// English month name; empty for a number out of range.
pub fn month_name(m: u32) -> (r: &'static str)
    ensures
        r@ == month_name_spec(m as int),
{
    match m {
        1 => "January",
        2 => "February",
        3 => "March",
        4 => "April",
        5 => "May",
        6 => "June",
        7 => "July",
        8 => "August",
        9 => "September",
        10 => "October",
        11 => "November",
        12 => "December",
        _ => "",
    }
}

/// The month before `(y, m)`, wrapping December back a year.
pub fn prev_month(y: i32, m: u32) -> (r: (i32, u32))
    requires
        1 <= m <= 12,
        y > i32::MIN,
    ensures
        m == 1 ==> r.0 == y - 1 && r.1 == 12,
        m > 1 ==> r.0 == y && r.1 == m - 1,
{
    if m == 1 {
        (y - 1, 12)
    } else {
        (y, m - 1)
    }
}

/// The month after `(y, m)`, wrapping into January of the next year.
pub fn next_month(y: i32, m: u32) -> (r: (i32, u32))
    requires
        1 <= m <= 12,
        y < i32::MAX,
    ensures
        m == 12 ==> r.0 == y + 1 && r.1 == 1,
        m < 12 ==> r.0 == y && r.1 == m + 1,
{
    if m == 12 {
        (y + 1, 1)
    } else {
        (y, m + 1)
    }
}

/// Going forward a month and back again returns to the same month.
pub proof fn law_next_then_prev(y: int, m: int)
    requires
        1 <= m <= 12,
    ensures
        ({
            let (y2, m2) = if m == 12 {
                (y + 1, 1int)
            } else {
                (y, m + 1)
            };
            let (y3, m3) = if m2 == 1 {
                (y2 - 1, 12int)
            } else {
                (y2, m2 - 1)
            };
            y3 == y && m3 == m
        }),
{
}

/// The calendar grid of a month: blank cells before the 1st (its weekday),
/// the days, and blank cells after them up to a whole number of weeks.
pub struct MonthGrid {
    pub leading: u32,
    pub days: u32,
    pub trailing: u32,
}

pub fn month_grid(y: i32, m: u32) -> (r: MonthGrid)
    requires
        weekday_fits(y as int, m as int, 1),
    ensures
        r.leading == weekday_spec(y as int, m as int, 1),
        r.days == days_in_month_spec(y as int, m as int),
        r.trailing < 7,
        (r.leading + r.days + r.trailing) % 7 == 0,
{
    let leading = weekday(y, m, 1);
    let days = days_in_month(y, m);
    let used = leading + days;
    let trailing = if used % 7 == 0 {
        0
    } else {
        7 - used % 7
    };
    MonthGrid { leading, days, trailing }
}

/// Every month of the Gregorian calendar has 28 to 31 days.
pub proof fn law_month_length(y: int, m: int)
    requires
        1 <= m <= 12,
    ensures
        28 <= days_in_month_spec(y, m) <= 31,
        days_in_month_spec(y, m) == 29 <==> (m == 2 && is_leap(y)),
{
}

/// Days in the years before `y`, counted from 1 January of year 1.
pub open spec fn days_before_year(y: int) -> int
    decreases y,
{
    if y <= 1 {
        0
    } else {
        days_before_year(y - 1) + 365 + if is_leap(y - 1) {
            1int
        } else {
            0int
        }
    }
}

/// Days in the months of year `y` before month `m`.
pub open spec fn days_before_month(y: int, m: int) -> int
    decreases m,
{
    if m <= 1 {
        0
    } else {
        days_before_month(y, m - 1) + days_in_month_spec(y, m - 1)
    }
}

/// The number of a date, 1 January of year 1 being day 1 (proleptic
/// Gregorian calendar).
pub open spec fn day_number(y: int, m: int, d: int) -> int {
    days_before_year(y) + days_before_month(y, m) + d
}

/// Leap years among years 1 to `n`.
pub open spec fn leaps(n: int) -> int {
    n / 4 - n / 100 + n / 400
}

proof fn lemma_leaps_step(n: int)
    requires
        n >= 1,
    ensures
        leaps(n) == leaps(n - 1) + if is_leap(n) {
            1int
        } else {
            0int
        },
{
    assert(n / 4 - (n - 1) / 4 == if n % 4 == 0 { 1int } else { 0int }) by (nonlinear_arith)
        requires
            n >= 1,
    ;
    assert(n / 100 - (n - 1) / 100 == if n % 100 == 0 { 1int } else { 0int }) by (nonlinear_arith)
        requires
            n >= 1,
    ;
    assert(n / 400 - (n - 1) / 400 == if n % 400 == 0 { 1int } else { 0int }) by (nonlinear_arith)
        requires
            n >= 1,
    ;
    assert(n % 100 == 0 ==> n % 4 == 0) by (nonlinear_arith)
        requires
            n >= 1,
    ;
    assert(n % 400 == 0 ==> n % 100 == 0) by (nonlinear_arith)
        requires
            n >= 1,
    ;
}

proof fn lemma_days_before_year(y: int)
    requires
        y >= 1,
    ensures
        days_before_year(y) == 365 * (y - 1) + leaps(y - 1),
    decreases y,
{
    if y > 1 {
        lemma_days_before_year(y - 1);
        lemma_leaps_step(y - 1);
    }
}

proof fn lemma_days_before_month(y: int, m: int)
    requires
        1 <= m <= 12,
    ensures
        days_before_month(y, m) == (if m == 1 {
            0int
        } else if m == 2 {
            31int
        } else if m == 3 {
            59int
        } else if m == 4 {
            90int
        } else if m == 5 {
            120int
        } else if m == 6 {
            151int
        } else if m == 7 {
            181int
        } else if m == 8 {
            212int
        } else if m == 9 {
            243int
        } else if m == 10 {
            273int
        } else if m == 11 {
            304int
        } else {
            334int
        }) + if m > 2 && is_leap(y) {
            1int
        } else {
            0int
        },
    decreases m,
{
    if m > 1 {
        lemma_days_before_month(y, m - 1);
    }
}

/// Sakamoto's sum from year 1 on: no rounding toward zero comes into it.
proof fn lemma_sak_sum(y: int, m: int, d: int)
    requires
        y >= 1,
        1 <= m <= 12,
        1 <= d <= 31,
    ensures
        sak_sums(y, m, d as u32)[5] == sak_year(y, m) + leaps(sak_year(y, m)) + month_offset(m) + d,
        sak_sums(y, m, d as u32)[5] >= 0,
{
    let y1 = sak_year(y, m);
    assert(y1 >= 0);
    assert((d as u32) as i32 as int == d);
    assert(tdiv(y1, 4) == y1 / 4);
    assert(tdiv(y1, 100) == y1 / 100);
    assert(tdiv(y1, 400) == y1 / 400);
    assert(y1 / 4 >= y1 / 100) by (nonlinear_arith)
        requires
            y1 >= 0,
    ;
}

/// Sakamoto's sum and the day number differ by a multiple of 7.
#[verifier::spinoff_prover]
proof fn lemma_sak_day_diff(y: int, m: int, d: int) -> (q: int)
    requires
        y >= 1,
        1 <= m <= 12,
        1 <= d <= 31,
    ensures
        sak_year(y, m) + leaps(sak_year(y, m)) + month_offset(m) + d - day_number(y, m, d) == 7 * q,
{
    lemma_days_before_month(y, m);
    lemma_days_before_year(y);
    let lp: int = if is_leap(y) {
        1
    } else {
        0
    };
    let base = days_before_month(y, m) - if m > 2 {
        lp
    } else {
        0
    };
    if m < 3 {
        let q = -52 * (y - 1) + if m == 2 {
            -4int
        } else {
            0int
        };
        assert(sak_year(y, m) + leaps(sak_year(y, m)) + month_offset(m) + d - day_number(y, m, d) == 7 * q);
        q
    } else {
        lemma_leaps_step(y);
        assert(leaps(y) == leaps(y - 1) + lp);
        let c = 1 + month_offset(m) - base;
        assert(c % 7 == 0);
        let q = -52 * (y - 1) + c / 7;
        assert(sak_year(y, m) + leaps(sak_year(y, m)) + month_offset(m) + d - day_number(y, m, d) == 7 * q);
        q
    }
}

/// The weekday counts days: for every date from year 1 on, the day of the
/// week is the day's number modulo 7 (day 1, 1 January of year 1, was a
/// Monday).
pub proof fn law_weekday_counts_days(y: int, m: int, d: int)
    requires
        y >= 1,
        1 <= m <= 12,
        1 <= d <= days_in_month_spec(y, m),
    ensures
        weekday_spec(y, m, d as u32) == day_number(y, m, d) % 7,
{
    lemma_sak_sum(y, m, d);
    let q = lemma_sak_day_diff(y, m, d);
    let w = sak_sums(y, m, d as u32)[5];
    let n = day_number(y, m, d);
    assert(w - n == 7 * q);
    assert(trem(w, 7) == w % 7);
    assert((w % 7 + 7) % 7 == w % 7);
    assert(w % 7 == n % 7) by (nonlinear_arith)
        requires
            w - n == 7 * q,
    ;
}

/// `n` zeros.
pub open spec fn zeros(n: nat) -> Seq<char> {
    Seq::new(n, |i: int| '0')
}

/// `v` formatted as `{:0w$}`: zero-padded to `w` characters, the sign
/// counted in the width.
pub open spec fn pad_signed(v: int, w: nat) -> Seq<char> {
    if v >= 0 {
        let d = crate::text::decimal(v as nat);
        if d.len() >= w {
            d
        } else {
            zeros((w - d.len()) as nat) + d
        }
    } else {
        let d = crate::text::decimal((-v) as nat);
        if d.len() + 1 >= w {
            seq!['-'] + d
        } else {
            seq!['-'] + zeros((w - d.len() - 1) as nat) + d
        }
    }
}

fn push_zeros(out: &mut Vec<char>, n: usize)
    ensures
        final(out)@ == old(out)@ + zeros(n as nat),
{
    let mut i: usize = 0;
    while i < n
        invariant
            i <= n,
            out@ == old(out)@ + zeros(i as nat),
        decreases n - i,
    {
        out.push('0');
        i += 1;
        assert(out@ =~= old(out)@ + zeros(i as nat));
    }
}

fn push_padded(out: &mut Vec<char>, v: i64, w: usize)
    requires
        v > i64::MIN,
        w < 100,
    ensures
        final(out)@ == old(out)@ + pad_signed(v as int, w as nat),
{
    if v >= 0 {
        let d = crate::text::fmt_u64(v as u64);
        if d.len() < w {
            push_zeros(out, w - d.len());
        }
        extend_chars(out, d.as_slice());
        assert(out@ =~= old(out)@ + pad_signed(v as int, w as nat));
    } else {
        let d = crate::text::fmt_u64((-v) as u64);
        out.push('-');
        if d.len() < w && w - d.len() > 1 {
            push_zeros(out, w - d.len() - 1);
        }
        extend_chars(out, d.as_slice());
        assert(out@ =~= old(out)@ + pad_signed(v as int, w as nat));
    }
}

/// The `YYYY-MM-DD` key that calendar entries are matched on.
pub open spec fn day_key_spec(y: int, m: int, d: int) -> Seq<char> {
    pad_signed(y, 4) + seq!['-'] + pad_signed(m, 2) + seq!['-'] + pad_signed(d, 2)
}

pub fn day_key(y: i32, m: u32, d: u32) -> (r: String)
    ensures
        r@ == day_key_spec(y as int, m as int, d as int),
{
    let mut out: Vec<char> = Vec::new();
    push_padded(&mut out, y as i64, 4);
    out.push('-');
    push_padded(&mut out, m as i64, 2);
    out.push('-');
    push_padded(&mut out, d as i64, 2);
    assert(out@ =~= day_key_spec(y as int, m as int, d as int));
    string_from_chars(out.as_slice())
}

} // verus!
