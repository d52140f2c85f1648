//! Library classification. Each video file becomes a movie or a show
//! episode using, in priority order: the containing category kind (Movies vs
//! TV), the folder structure (`TV Shows/<Show>/...`), then filename parsing.
//! Episodes are grouped by their show folder, so absolute-numbered anime and
//! release-named folders still collapse into a single show. Walking the disk
//! is the caller's part; this module takes the files it found.

use vstd::prelude::*;

use crate::ext::{regex_captures, regex_captures_spec, release_name_parsable};
use crate::quality::{parse_release, parse_release_spec, release_name_ok};
use crate::sort::{lex_lt, pairs_view, sort_by_text_key, sorted_by_key, strip_keys};
use crate::text::{
    eq_ignore_ascii_case, eq_ignore_case, parse_i32, parse_i32_spec, str_chars, str_to_lowercase,
    string_from_chars, trim, trim_chars, unicode_lowercase,
};
use crate::types::{
    norm_title, norm_title_spec, Category, EpisodeView, Library, LibraryEpisode, LibraryMovie,
    LibraryShow, MediaKind, MovieView, ShowView,
};
use vstd::string::StringExecFns;

verus! {

/// One regular file found under the library root.
pub struct ScannedFile {
    /// Directory components between the root and the file.
    pub rel_dirs: Vec<String>,
    pub file_name: String,
    /// Full path, as displayed.
    pub path: String,
    pub size: u64,
}

// ---------------------------------------------------------------------------
// file names
// ---------------------------------------------------------------------------

/// Index of the last `.` in `s`, if any.
pub open spec fn last_dot(s: Seq<char>) -> Option<int>
    decreases s.len(),
{
    if s.len() == 0 {
        None
    } else if s.last() == '.' {
        Some(s.len() - 1)
    } else {
        last_dot(s.drop_last())
    }
}

/// `Path::extension` of a file name: the text after the last `.`, unless
/// there is none or the only `.` leads the name.
pub open spec fn extension_spec(name: Seq<char>) -> Option<Seq<char>> {
    if name == ".."@ {
        None
    } else {
        match last_dot(name) {
            Some(i) => if i == 0 {
                None
            } else {
                Some(name.subrange(i + 1, name.len() as int))
            },
            None => None,
        }
    }
}

pub open spec fn video_ext(e: Seq<char>) -> bool {
    ||| e == "mkv"@
    ||| e == "mp4"@
    ||| e == "avi"@
    ||| e == "m4v"@
    ||| e == "mov"@
    ||| e == "ts"@
    ||| e == "webm"@
    ||| e == "mpg"@
    ||| e == "wmv"@
}

pub open spec fn is_video_spec(name: Seq<char>) -> bool {
    match extension_spec(name) {
        Some(e) => video_ext(unicode_lowercase(e)),
        None => false,
    }
}

proof fn lemma_last_dot(s: Seq<char>, k: int)
    requires
        0 <= k <= s.len(),
        forall|j: int| k <= j < s.len() ==> s[j] != '.',
    ensures
        last_dot(s) == last_dot(s.subrange(0, k)),
    decreases s.len() - k,
{
    if k < s.len() {
        assert(s.drop_last().subrange(0, k) =~= s.subrange(0, k));
        lemma_last_dot(s.drop_last(), k);
    } else {
        assert(s.subrange(0, k) =~= s);
    }
}

fn eq_lit(a: &Vec<char>, b: &str) -> (r: bool)
    ensures
        r == (a@ == b@),
{
    let bv = str_chars(b);
    if a.len() != bv.len() {
        return false;
    }
    let mut i: usize = 0;
    while i < a.len()
        invariant
            a.len() == bv.len(),
            bv@ == b@,
            i <= a.len(),
            forall|j: int| 0 <= j < i ==> a@[j] == bv@[j],
        decreases a.len() - i,
    {
        if a[i] != bv[i] {
            return false;
        }
        i += 1;
    }
    assert(a@ =~= bv@);
    true
}

fn extension(name: &Vec<char>) -> (r: Option<Vec<char>>)
    ensures
        match r {
            Some(e) => extension_spec(name@) == Some(e@),
            None => extension_spec(name@) is None,
        },
{
    if eq_lit(name, "..") {
        return None;
    }
    let mut k: usize = name.len();
    while k > 0 && name[k - 1] != '.'
        invariant
            k <= name.len(),
            forall|j: int| k <= j < name.len() ==> name@[j] != '.',
        decreases k,
    {
        k -= 1;
    }
    proof {
        lemma_last_dot(name@, k as int);
        if k > 0 {
            assert(name@.subrange(0, k as int).last() == '.');
        } else {
            assert(name@.subrange(0, 0) =~= Seq::<char>::empty());
        }
    }
    if k <= 1 {
        return None;
    }
    Some(crate::text::slice_range(name.as_slice(), k, name.len()))
}

/// Is this file name a video (by extension, case-insensitively)?
pub fn is_video(file_name: &str) -> (r: bool)
    ensures
        r == is_video_spec(file_name@),
{
    let v = str_chars(file_name);
    match extension(&v) {
        Some(e) => {
            let es = string_from_chars(e.as_slice());
            let low = str_to_lowercase(es.as_str());
            let l = str_chars(low.as_str());
            eq_lit(&l, "mkv") || eq_lit(&l, "mp4") || eq_lit(&l, "avi") || eq_lit(&l, "m4v")
                || eq_lit(&l, "mov") || eq_lit(&l, "ts") || eq_lit(&l, "webm") || eq_lit(&l, "mpg")
                || eq_lit(&l, "wmv")
        },
        None => false,
    }
}

// ---------------------------------------------------------------------------
// season / episode numbers
// ---------------------------------------------------------------------------

pub open spec fn season_folder_pattern() -> Seq<char> {
    "(?i)^(?:season|series|staffel)\\s*0*(\\d{1,3})"@
}

pub open spec fn sxxexx_pattern() -> Seq<char> {
    "(?i)s(\\d{1,3})[\\s._-]*e(\\d{1,4})"@
}

pub open spec fn sxxmxx_pattern() -> Seq<char> {
    "(?i)s(\\d{1,3})[\\s._-]*m(\\d{1,4})"@
}

pub open spec fn nxnn_pattern() -> Seq<char> {
    "(?i)(?:^|[^\\dx])(\\d{1,3})x(\\d{1,4})"@
}

pub open spec fn exx_pattern() -> Seq<char> {
    "(?i)(?:^|[\\s._\\[\\]-])e(\\d{1,4})(?:[\\s._\\[\\]-]|$)"@
}

/// Anime absolute number, e.g. `- 22 -` or `_-_22_-_`.
pub open spec fn abs_pattern() -> Seq<char> {
    "(?:^|[\\s._\\[\\]])-[\\s._]*(\\d{1,3})[\\s._]*-"@
}

pub open spec fn season_pattern() -> Seq<char> {
    "(?i)s(\\d{1,3})[\\s._-]*[em]\\d"@
}

pub open spec fn group_text(caps: Seq<Option<Seq<char>>>, g: int) -> Option<Seq<char>> {
    if 0 <= g < caps.len() {
        caps[g]
    } else {
        None
    }
}

pub open spec fn parse_opt(o: Option<Seq<char>>) -> Option<i32> {
    match o {
        Some(t) => match parse_i32_spec(t) {
            Some(v) => Some(v as i32),
            None => None,
        },
        None => None,
    }
}

/// Group `g` of the first match of `pattern` in `s`, as an `i32`.
pub open spec fn cap_i32_spec(pattern: Seq<char>, s: Seq<char>, g: int) -> Option<i32> {
    match regex_captures_spec(pattern, s) {
        Some(c) => parse_opt(group_text(c, g)),
        None => None,
    }
}

/// The season a folder name stands for: `Specials` is season 0, otherwise
/// `Season NN` / `Series NN` / `Staffel NN`.
pub open spec fn season_folder_spec(name: Seq<char>) -> Option<i32> {
    let l = unicode_lowercase(name);
    if l == "specials"@ {
        Some(0)
    } else {
        cap_i32_spec(season_folder_pattern(), l, 1)
    }
}

/// `(season, episode)` from a file name, trying `SxxEyy`, `SxxMyy`, `NxMM`,
/// a lone `Eyy` (with a season from `SxxE`/`SxxM` if any), then an anime
/// absolute number.
pub open spec fn extract_se_spec(name: Seq<char>) -> (Option<i32>, Option<i32>) {
    match regex_captures_spec(sxxexx_pattern(), name) {
        Some(c) => (parse_opt(group_text(c, 1)), parse_opt(group_text(c, 2))),
        None => match regex_captures_spec(sxxmxx_pattern(), name) {
            Some(c) => (parse_opt(group_text(c, 1)), parse_opt(group_text(c, 2))),
            None => match regex_captures_spec(nxnn_pattern(), name) {
                Some(c) => (parse_opt(group_text(c, 1)), parse_opt(group_text(c, 2))),
                None => match cap_i32_spec(exx_pattern(), name, 1) {
                    Some(e) => (cap_i32_spec(season_pattern(), name, 1), Some(e)),
                    None => match cap_i32_spec(abs_pattern(), name, 1) {
                        Some(e) => (None, Some(e)),
                        None => (None, None),
                    },
                },
            },
        },
    }
}

fn group_i32(caps: &Vec<Option<String>>, g: usize) -> (r: Option<i32>)
    ensures
        r == parse_opt(group_text(caps.deep_view(), g as int)),
{
    if g < caps.len() {
        match &caps[g] {
            Some(t) => {
                let v = str_chars(t.as_str());
                parse_i32(v.as_slice())
            },
            None => None,
        }
    } else {
        None
    }
}

fn cap_i32(pattern: &str, s: &str, g: usize) -> (r: Option<i32>)
    ensures
        r == cap_i32_spec(pattern@, s@, g as int),
{
    match regex_captures(pattern, s) {
        Some(c) => group_i32(&c, g),
        None => None,
    }
}

/// The season number a folder name denotes, if any.
pub fn is_season_folder(name: &str) -> (r: Option<i32>)
    ensures
        r == season_folder_spec(name@),
{
    let low = str_to_lowercase(name);
    let l = str_chars(low.as_str());
    if eq_lit(&l, "specials") {
        return Some(0);
    }
    cap_i32("(?i)^(?:season|series|staffel)\\s*0*(\\d{1,3})", low.as_str(), 1)
}

/// Extract (season, episode) from a filename with several fallbacks.
pub fn extract_se(name: &str) -> (r: (Option<i32>, Option<i32>))
    ensures
        r == extract_se_spec(name@),
{
    match regex_captures("(?i)s(\\d{1,3})[\\s._-]*e(\\d{1,4})", name) {
        Some(c) => {
            return (group_i32(&c, 1), group_i32(&c, 2));
        },
        None => {},
    }
    match regex_captures("(?i)s(\\d{1,3})[\\s._-]*m(\\d{1,4})", name) {
        Some(c) => {
            return (group_i32(&c, 1), group_i32(&c, 2));
        },
        None => {},
    }
    match regex_captures("(?i)(?:^|[^\\dx])(\\d{1,3})x(\\d{1,4})", name) {
        Some(c) => {
            return (group_i32(&c, 1), group_i32(&c, 2));
        },
        None => {},
    }
    match cap_i32("(?i)(?:^|[\\s._\\[\\]-])e(\\d{1,4})(?:[\\s._\\[\\]-]|$)", name, 1) {
        Some(e) => {
            return (cap_i32("(?i)s(\\d{1,3})[\\s._-]*[em]\\d", name, 1), Some(e));
        },
        None => {},
    }
    match cap_i32("(?:^|[\\s._\\[\\]])-[\\s._]*(\\d{1,3})[\\s._]*-", name, 1) {
        Some(e) => (None, Some(e)),
        None => (None, None),
    }
}

// ---------------------------------------------------------------------------
// categories
// ---------------------------------------------------------------------------

pub open spec fn is_sep(c: char) -> bool {
    c == '/' || c == '\\'
}

/// Split on `/` and `\`, dropping empty pieces; scanning from the left with
/// the pieces so far and the piece being read.
pub open spec fn parts_from(s: Seq<char>, acc: Seq<Seq<char>>, cur: Seq<char>) -> Seq<Seq<char>>
    decreases s.len(),
{
    if s.len() == 0 {
        if cur.len() > 0 {
            acc.push(cur)
        } else {
            acc
        }
    } else if is_sep(s[0]) {
        parts_from(s.drop_first(), if cur.len() > 0 { acc.push(cur) } else { acc }, Seq::empty())
    } else {
        parts_from(s.drop_first(), acc, cur.push(s[0]))
    }
}

pub open spec fn path_parts(s: Seq<char>) -> Seq<Seq<char>> {
    parts_from(s, Seq::empty(), Seq::empty())
}

spec fn views(v: Seq<Vec<char>>) -> Seq<Seq<char>> {
    v.map_values(|x: Vec<char>| x@)
}

fn split_path(s: &str) -> (r: Vec<Vec<char>>)
    ensures
        views(r@) == path_parts(s@),
{
    let v = str_chars(s);
    let mut acc: Vec<Vec<char>> = Vec::new();
    let mut cur: Vec<char> = Vec::new();
    let mut i: usize = 0;
    assert(v@.subrange(0, v.len() as int) =~= v@);
    assert(views(acc@) =~= Seq::<Seq<char>>::empty());
    while i < v.len()
        invariant
            i <= v.len(),
            v@ == s@,
            parts_from(v@.subrange(i as int, v.len() as int), views(acc@), cur@) == path_parts(
                s@,
            ),
        decreases v.len() - i,
    {
        let ghost rest = v@.subrange(i as int, v.len() as int);
        assert(rest.drop_first() =~= v@.subrange(i + 1, v.len() as int));
        let c = v[i];
        if c == '/' || c == '\\' {
            if cur.len() > 0 {
                let ghost before = views(acc@);
                let piece = cur;
                acc.push(piece);
                assert(views(acc@) =~= before.push(piece@));
                cur = Vec::new();
            } else {
                cur = Vec::new();
                assert(cur@ =~= Seq::<char>::empty());
            }
        } else {
            cur.push(c);
        }
        i += 1;
    }
    assert(v@.subrange(i as int, v.len() as int) =~= Seq::<char>::empty());
    if cur.len() > 0 {
        let ghost before = views(acc@);
        let piece = cur;
        acc.push(piece);
        assert(views(acc@) =~= before.push(piece@));
    }
    acc
}

/// `sub` is a non-empty prefix of `dirs`, compared ASCII case-insensitively.
pub open spec fn dirs_start_with(dirs: Seq<String>, sub: Seq<Seq<char>>) -> bool {
    sub.len() > 0 && dirs.len() >= sub.len() && forall|i: int|
        0 <= i < sub.len() ==> eq_ignore_case((#[trigger] dirs[i])@, sub[i])
}

/// The deepest category whose sub-folder prefixes `dirs` (the first one
/// found among equally deep ones), as `(kind, number of dirs it consumes)`.
pub open spec fn category_match_spec(dirs: Seq<String>, cats: Seq<Category>) -> Option<
    (MediaKind, int),
>
    decreases cats.len(),
{
    if cats.len() == 0 {
        None
    } else {
        let best = category_match_spec(dirs, cats.drop_last());
        let c = cats.last();
        let sub = path_parts(c.subdir@);
        if dirs_start_with(dirs, sub) && match best {
            Some(b) => sub.len() > b.1,
            None => true,
        } {
            Some((c.kind, sub.len() as int))
        } else {
            best
        }
    }
}

fn dirs_match(dirs: &Vec<String>, sub: &Vec<Vec<char>>) -> (r: bool)
    ensures
        r == dirs_start_with(dirs@, views(sub@)),
{
    if sub.len() == 0 || dirs.len() < sub.len() {
        return false;
    }
    let mut i: usize = 0;
    while i < sub.len()
        invariant
            i <= sub.len(),
            sub.len() <= dirs.len(),
            forall|j: int| 0 <= j < i ==> eq_ignore_case((#[trigger] dirs@[j])@, views(sub@)[j]),
        decreases sub.len() - i,
    {
        let d = str_chars(dirs[i].as_str());
        assert(views(sub@)[i as int] == sub@[i as int]@);
        if !eq_ignore_ascii_case(d.as_slice(), sub[i].as_slice()) {
            return false;
        }
        i += 1;
    }
    true
}

/// The deepest category whose sub-folder prefixes this file's directories,
/// as `(kind, prefix_len)`: `prefix_len` is how many leading dirs it consumes.
pub fn category_match(rel_dirs: &Vec<String>, categories: &Vec<Category>) -> (r: Option<
    (MediaKind, usize),
>)
    ensures
        match r {
            Some((k, n)) => category_match_spec(rel_dirs@, categories@) == Some((k, n as int)),
            None => category_match_spec(rel_dirs@, categories@) is None,
        },
{
    let mut best: Option<(MediaKind, usize)> = None;
    let mut i: usize = 0;
    while i < categories.len()
        invariant
            i <= categories.len(),
            match best {
                Some((k, n)) => category_match_spec(rel_dirs@, categories@.subrange(0, i as int))
                    == Some((k, n as int)),
                None => category_match_spec(rel_dirs@, categories@.subrange(0, i as int)) is None,
            },
        decreases categories.len() - i,
    {
        proof {
            assert(categories@.subrange(0, i + 1).drop_last() =~= categories@.subrange(0, i as int));
        }
        let c = &categories[i];
        let sub = split_path(c.subdir.as_str());
        let deeper = match best {
            Some((_, n)) => sub.len() > n,
            None => true,
        };
        if dirs_match(rel_dirs, &sub) && deeper {
            best = Some((c.kind, sub.len()));
        }
        i += 1;
    }
    assert(categories@.subrange(0, categories.len() as int) =~= categories@);
    best
}

// ---------------------------------------------------------------------------
// classification
// ---------------------------------------------------------------------------

/// Display title from a folder name (strips S01, year, resolution and the like).
pub open spec fn clean_title_spec(folder: Seq<char>) -> Seq<char> {
    let t = trim(parse_release_spec(folder).title);
    if t.len() == 0 {
        trim(folder)
    } else {
        t
    }
}

/// Clean a folder name into a display title.
pub fn clean_title(folder: &str) -> (r: String)
    requires
        release_name_parsable(folder@),
    ensures
        r@ == clean_title_spec(folder@),
{
    let p = parse_release(folder);
    let tv = str_chars(p.title.as_str());
    let t = trim_chars(tv.as_slice());
    if t.len() == 0 {
        let fv = str_chars(folder);
        let ft = trim_chars(fv.as_slice());
        string_from_chars(ft.as_slice())
    } else {
        string_from_chars(t.as_slice())
    }
}

/// Season from the innermost `Season NN` ancestor folder.
pub open spec fn folder_season_spec(dirs: Seq<String>) -> Option<i32>
    decreases dirs.len(),
{
    if dirs.len() == 0 {
        None
    } else {
        match season_folder_spec(dirs.last()@) {
            Some(n) => Some(n),
            None => folder_season_spec(dirs.drop_last()),
        }
    }
}

pub open spec fn or_opt(a: Option<i32>, b: Option<i32>) -> Option<i32> {
    match a {
        Some(x) => Some(x),
        None => b,
    }
}

/// `(season, episode)` of a file: the name parser's, completed by the
/// fallback extractors when it found no episode.
pub open spec fn file_se(name: Seq<char>) -> (Option<i32>, Option<i32>) {
    let p = parse_release_spec(name);
    if p.episode is None {
        let (s, e) = extract_se_spec(name);
        (or_opt(p.season, s), e)
    } else {
        (p.season, p.episode)
    }
}

/// Whether a file is grouped as a show episode.
pub open spec fn is_tv_spec(f: ScannedFile, cats: Seq<Category>) -> bool {
    match category_match_spec(f.rel_dirs@, cats) {
        Some((MediaKind::Tv, _)) => true,
        Some(_) => false,
        None => {
            let (s, e) = file_se(f.file_name@);
            s is Some || e is Some || folder_season_spec(f.rel_dirs@) is Some
        },
    }
}

/// The show folder: the directory just past the matched category (or the
/// top-level one when uncategorized), unless it is a season folder.
pub open spec fn show_folder_spec(f: ScannedFile, cats: Seq<Category>) -> Option<Seq<char>> {
    let n = match category_match_spec(f.rel_dirs@, cats) {
        Some((_, n)) => n,
        None => 0,
    };
    if n < f.rel_dirs@.len() && season_folder_spec(f.rel_dirs@[n]@) is None {
        Some(f.rel_dirs@[n]@)
    } else {
        None
    }
}

/// The show title of an episode file: its cleaned show folder, else the
/// parsed title, else the file name (so a category name never becomes a show).
pub open spec fn show_title_spec(f: ScannedFile, cats: Seq<Category>) -> Seq<char> {
    match show_folder_spec(f, cats) {
        Some(d) => clean_title_spec(d),
        None => {
            let t = trim(parse_release_spec(f.file_name@).title);
            if t.len() > 0 {
                t
            } else {
                f.file_name@
            }
        },
    }
}

pub open spec fn episode_of(f: ScannedFile) -> EpisodeView {
    let (s, e) = file_se(f.file_name@);
    EpisodeView {
        season: match or_opt(s, folder_season_spec(f.rel_dirs@)) {
            Some(x) => x,
            None => 1,
        },
        episode: match e {
            Some(x) => x,
            None => 0,
        },
        resolution: parse_release_spec(f.file_name@).resolution.label_spec(),
        path: f.path@,
    }
}

pub open spec fn movie_of(f: ScannedFile) -> MovieView {
    let p = parse_release_spec(f.file_name@);
    MovieView {
        title: if trim(p.title).len() == 0 {
            f.file_name@
        } else {
            p.title
        },
        year: p.year,
        resolution: p.resolution.label_spec(),
        size: f.size,
        path: f.path@,
    }
}

/// The names of a video file that the name parser reads are ones it accepts.
pub open spec fn file_parsable(f: ScannedFile, cats: Seq<Category>) -> bool {
    is_video_spec(f.file_name@) ==> release_name_parsable(f.file_name@) && (is_tv_spec(f, cats)
        ==> match show_folder_spec(f, cats) {
        Some(d) => release_name_parsable(d),
        None => true,
    })
}

/// Episodes gathered under one show (keyed by normalized title; the first
/// title seen is kept).
pub struct ShowGroup {
    pub key: Seq<char>,
    pub title: Seq<char>,
    pub eps: Seq<EpisodeView>,
}

/// Index of the group with this key, or the number of groups when none.
pub open spec fn group_index(gs: Seq<ShowGroup>, key: Seq<char>) -> int
    decreases gs.len(),
{
    if gs.len() == 0 {
        0
    } else if gs[0].key == key {
        0
    } else {
        1 + group_index(gs.drop_first(), key)
    }
}

pub open spec fn add_episode(
    gs: Seq<ShowGroup>,
    key: Seq<char>,
    title: Seq<char>,
    ep: EpisodeView,
) -> Seq<ShowGroup> {
    let i = group_index(gs, key);
    if i < gs.len() {
        gs.update(i, ShowGroup { key: gs[i].key, title: gs[i].title, eps: gs[i].eps.push(ep) })
    } else {
        gs.push(ShowGroup { key, title, eps: seq![ep] })
    }
}

/// Movies, show groups and video count after a prefix of the files.
pub struct ScanAcc {
    pub movies: Seq<MovieView>,
    pub groups: Seq<ShowGroup>,
    pub count: nat,
}

pub open spec fn scan_step(acc: ScanAcc, f: ScannedFile, cats: Seq<Category>) -> ScanAcc {
    if !is_video_spec(f.file_name@) {
        acc
    } else if is_tv_spec(f, cats) {
        let title = show_title_spec(f, cats);
        ScanAcc {
            movies: acc.movies,
            groups: add_episode(acc.groups, norm_title_spec(title), title, episode_of(f)),
            count: acc.count + 1,
        }
    } else {
        ScanAcc { movies: acc.movies.push(movie_of(f)), groups: acc.groups, count: acc.count + 1 }
    }
}

pub open spec fn scan_fold(files: Seq<ScannedFile>, cats: Seq<Category>) -> ScanAcc
    decreases files.len(),
{
    if files.len() == 0 {
        ScanAcc { movies: Seq::empty(), groups: Seq::empty(), count: 0 }
    } else {
        scan_step(scan_fold(files.drop_last(), cats), files.last(), cats)
    }
}

// ---------------------------------------------------------------------------
// episode ordering
// ---------------------------------------------------------------------------

pub open spec fn ep_lt(a: EpisodeView, b: EpisodeView) -> bool {
    a.season < b.season || (a.season == b.season && a.episode < b.episode)
}

pub open spec fn ep_insert_pos(s: Seq<EpisodeView>, e: EpisodeView) -> int
    decreases s.len(),
{
    if s.len() == 0 {
        0
    } else if ep_lt(e, s[0]) {
        0
    } else {
        1 + ep_insert_pos(s.drop_first(), e)
    }
}

/// Episodes stably ordered by `(season, episode)`.
pub open spec fn ep_sorted(s: Seq<EpisodeView>) -> Seq<EpisodeView>
    decreases s.len(),
{
    if s.len() == 0 {
        s
    } else {
        let prev = ep_sorted(s.drop_last());
        prev.insert(ep_insert_pos(prev, s.last()), s.last())
    }
}

proof fn lemma_ep_insert_pos(s: Seq<EpisodeView>, e: EpisodeView, p: int)
    requires
        0 <= p <= s.len(),
        forall|j: int| 0 <= j < p ==> !ep_lt(e, #[trigger] s[j]),
        p == s.len() || ep_lt(e, s[p]),
    ensures
        ep_insert_pos(s, e) == p,
    decreases p,
{
    if p > 0 {
        assert forall|j: int| 0 <= j < p - 1 implies !ep_lt(e, #[trigger] s.drop_first()[j]) by {
            assert(s.drop_first()[j] == s[j + 1]);
        }
        if p < s.len() {
            assert(s.drop_first()[p - 1] == s[p]);
        }
        lemma_ep_insert_pos(s.drop_first(), e, p - 1);
    }
}

proof fn lemma_ep_sorted_len(s: Seq<EpisodeView>)
    ensures
        ep_sorted(s).len() == s.len(),
        forall|e: EpisodeView| 0 <= #[trigger] ep_insert_pos(ep_sorted(s), e) <= ep_sorted(s).len(),
    decreases s.len(),
{
    if s.len() > 0 {
        lemma_ep_sorted_len(s.drop_last());
        lemma_ep_pos_bounds(ep_sorted(s.drop_last()), s.last());
    }
    assert forall|e: EpisodeView| 0 <= #[trigger] ep_insert_pos(ep_sorted(s), e) <= ep_sorted(
        s,
    ).len() by {
        lemma_ep_pos_bounds(ep_sorted(s), e);
    }
}

proof fn lemma_ep_pos_bounds(s: Seq<EpisodeView>, e: EpisodeView)
    ensures
        0 <= ep_insert_pos(s, e) <= s.len(),
    decreases s.len(),
{
    if s.len() > 0 {
        lemma_ep_pos_bounds(s.drop_first(), e);
    }
}

/// Episodes in non-decreasing `(season, episode)` order.
pub open spec fn eps_ordered(s: Seq<EpisodeView>) -> bool {
    forall|i: int, j: int| 0 <= i < j < s.len() ==> !ep_lt(#[trigger] s[j], #[trigger] s[i])
}

proof fn lemma_ep_before_pos(s: Seq<EpisodeView>, e: EpisodeView, i: int)
    requires
        0 <= i < ep_insert_pos(s, e),
    ensures
        !ep_lt(e, s[i]),
    decreases s.len(),
{
    lemma_ep_pos_bounds(s, e);
    if i > 0 {
        lemma_ep_before_pos(s.drop_first(), e, i - 1);
    }
}

proof fn lemma_ep_after_pos(s: Seq<EpisodeView>, e: EpisodeView, j: int)
    requires
        eps_ordered(s),
        ep_insert_pos(s, e) <= j < s.len(),
    ensures
        !ep_lt(s[j], e),
    decreases s.len(),
{
    if !ep_lt(e, s[0]) {
        let t = s.drop_first();
        lemma_ep_pos_bounds(t, e);
        assert forall|a: int, b: int| 0 <= a < b < t.len() implies !ep_lt(
            #[trigger] t[b],
            #[trigger] t[a],
        ) by {
            assert(t[a] == s[a + 1]);
            assert(t[b] == s[b + 1]);
        }
        assert(t[j - 1] == s[j]);
        lemma_ep_after_pos(t, e, j - 1);
    } else if j > 0 {
        assert(!ep_lt(s[j], s[0]));
    }
}

/// Every show's episodes come out in `(season, episode)` order.
pub proof fn law_episodes_ordered(s: Seq<EpisodeView>)
    ensures
        eps_ordered(ep_sorted(s)),
    decreases s.len(),
{
    if s.len() > 0 {
        law_episodes_ordered(s.drop_last());
        let prev = ep_sorted(s.drop_last());
        let e = s.last();
        lemma_ep_pos_bounds(prev, e);
        let p = ep_insert_pos(prev, e);
        let t = prev.insert(p, e);
        assert forall|i: int, j: int| 0 <= i < j < t.len() implies !ep_lt(
            #[trigger] t[j],
            #[trigger] t[i],
        ) by {
            if i == p {
                assert(t[j] == prev[j - 1]);
                lemma_ep_after_pos(prev, e, j - 1);
            } else if j == p {
                assert(t[i] == prev[i]);
                lemma_ep_before_pos(prev, e, i);
            } else {
                let a = if i < p {
                    i
                } else {
                    i - 1
                };
                let b = if j < p {
                    j
                } else {
                    j - 1
                };
                assert(t[i] == prev[a]);
                assert(t[j] == prev[b]);
            }
        }
    }
}

/// Order episodes by `(season, episode)`, keeping ties in their found order.
pub fn sort_episodes(v: Vec<LibraryEpisode>) -> (r: Vec<LibraryEpisode>)
    ensures
        r@.map_values(|e: LibraryEpisode| e@) == ep_sorted(v@.map_values(|e: LibraryEpisode| e@)),
{
    let mut out: Vec<LibraryEpisode> = Vec::new();
    let mut rest = v;
    let ghost orig = rest@.map_values(|e: LibraryEpisode| e@);
    let ghost mut taken: int = 0;
    assert(out@.map_values(|e: LibraryEpisode| e@) =~= ep_sorted(orig.subrange(0, 0)));
    while rest.len() > 0
        invariant
            0 <= taken <= orig.len(),
            rest@.map_values(|e: LibraryEpisode| e@) == orig.subrange(taken, orig.len() as int),
            out@.map_values(|e: LibraryEpisode| e@) == ep_sorted(orig.subrange(0, taken)),
        decreases rest.len(),
    {
        let ghost before = rest@;
        let x = rest.remove(0);
        proof {
            assert(before.map_values(|e: LibraryEpisode| e@).len() == before.len());
            assert(taken < orig.len());
            assert(orig.subrange(taken, orig.len() as int)[0] == orig[taken]);
            assert(before.map_values(|e: LibraryEpisode| e@)[0] == x@);
            assert(rest@.map_values(|e: LibraryEpisode| e@) =~= before.map_values(
                |e: LibraryEpisode| e@,
            ).drop_first());
            assert(rest@.map_values(|e: LibraryEpisode| e@) =~= orig.subrange(
                taken + 1,
                orig.len() as int,
            ));
            assert(orig.subrange(0, taken + 1).drop_last() =~= orig.subrange(0, taken));
            lemma_ep_sorted_len(orig.subrange(0, taken));
        }
        let mut p: usize = 0;
        while p < out.len() && !(x.season < out[p].season || (x.season == out[p].season
            && x.episode < out[p].episode))
            invariant
                p <= out.len(),
                forall|j: int|
                    0 <= j < p ==> !ep_lt(x@, (#[trigger] out@[j])@),
            decreases out.len() - p,
        {
            p += 1;
        }
        proof {
            let ov = out@.map_values(|e: LibraryEpisode| e@);
            assert forall|j: int| 0 <= j < p implies !ep_lt(x@, #[trigger] ov[j]) by {
                assert(ov[j] == out@[j]@);
            }
            if p < out.len() {
                assert(ov[p as int] == out@[p as int]@);
            }
            lemma_ep_insert_pos(ov, x@, p as int);
        }
        let ghost old_out = out@;
        out.insert(p, x);
        proof {
            assert(out@.map_values(|e: LibraryEpisode| e@) =~= old_out.map_values(
                |e: LibraryEpisode| e@,
            ).insert(p as int, x@));
            taken = taken + 1;
        }
    }
    proof {
        assert(orig.subrange(0, orig.len() as int) =~= orig);
    }
    out
}

// ---------------------------------------------------------------------------
// the library
// ---------------------------------------------------------------------------

pub open spec fn movie_key(m: MovieView) -> (Seq<char>, MovieView) {
    (unicode_lowercase(m.title), m)
}

pub open spec fn show_of(g: ShowGroup) -> ShowView {
    ShowView { title: g.title, episodes: ep_sorted(g.eps) }
}

pub open spec fn show_key(g: ShowGroup) -> (Seq<char>, ShowView) {
    (unicode_lowercase(g.title), show_of(g))
}

/// The library scanned from `files` at time `now`: movies and shows each
/// ordered by lower-cased title, episodes by `(season, episode)`.
pub open spec fn library_movies(files: Seq<ScannedFile>, cats: Seq<Category>) -> Seq<MovieView> {
    sorted_by_key(scan_fold(files, cats).movies.map_values(|m: MovieView| movie_key(m))).map_values(
        |p: (Seq<char>, MovieView)| p.1,
    )
}

pub open spec fn library_shows(files: Seq<ScannedFile>, cats: Seq<Category>) -> Seq<ShowView> {
    sorted_by_key(scan_fold(files, cats).groups.map_values(|g: ShowGroup| show_key(g))).map_values(
        |p: (Seq<char>, ShowView)| p.1,
    )
}

/// Episodes grouped under a show, in exec form: key, title, episodes.
struct GroupBuf {
    key: Vec<char>,
    title: String,
    eps: Vec<LibraryEpisode>,
}

impl GroupBuf {
    spec fn group(&self) -> ShowGroup {
        ShowGroup {
            key: self.key@,
            title: self.title@,
            eps: self.eps@.map_values(|e: LibraryEpisode| e@),
        }
    }
}

spec fn groups_view(gs: Seq<GroupBuf>) -> Seq<ShowGroup> {
    gs.map_values(|g: GroupBuf| g.group())
}

proof fn lemma_group_index(gs: Seq<ShowGroup>, key: Seq<char>, p: int)
    requires
        0 <= p <= gs.len(),
        forall|j: int| 0 <= j < p ==> (#[trigger] gs[j]).key != key,
        p == gs.len() || gs[p].key == key,
    ensures
        group_index(gs, key) == p,
    decreases p,
{
    if p > 0 {
        assert forall|j: int| 0 <= j < p - 1 implies (#[trigger] gs.drop_first()[j]).key != key by {
            assert(gs.drop_first()[j] == gs[j + 1]);
        }
        if p < gs.len() {
            assert(gs.drop_first()[p - 1] == gs[p]);
        }
        lemma_group_index(gs.drop_first(), key, p - 1);
    }
}

fn add_episode_exec(gs: &mut Vec<GroupBuf>, key: Vec<char>, title: String, ep: LibraryEpisode)
    ensures
        groups_view(final(gs)@) == add_episode(groups_view(old(gs)@), key@, title@, ep@),
{
    let ghost g0 = groups_view(gs@);
    let mut i: usize = 0;
    while i < gs.len() && !crate::sort::seq_eq(gs[i].key.as_slice(), key.as_slice())
        invariant
            i <= gs.len(),
            g0 == groups_view(gs@),
            forall|j: int| 0 <= j < i ==> (#[trigger] g0[j]).key != key@,
        decreases gs.len() - i,
    {
        i += 1;
    }
    proof {
        lemma_group_index(g0, key@, i as int);
    }
    if i < gs.len() {
        let mut g = gs.remove(i);
        let ghost gv = g.group();
        g.eps.push(ep);
        assert(g.group().eps =~= gv.eps.push(ep@));
        gs.insert(i, g);
        assert(groups_view(gs@) =~= g0.update(
            i as int,
            ShowGroup { key: g0[i as int].key, title: g0[i as int].title, eps: g0[i as int].eps.push(ep@) },
        ));
    } else {
        let mut eps: Vec<LibraryEpisode> = Vec::new();
        eps.push(ep);
        let g = GroupBuf { key, title, eps };
        assert(g.group().eps =~= seq![ep@]);
        gs.push(g);
        assert(groups_view(gs@) =~= g0.push(g.group()));
    }
}

/// One file's contribution, in exec form.
enum FileClass {
    NotVideo,
    Movie(LibraryMovie),
    Episode(Vec<char>, String, LibraryEpisode),
}

fn opt_or(a: Option<i32>, b: Option<i32>) -> (r: Option<i32>)
    ensures
        r == or_opt(a, b),
{
    match a {
        Some(x) => Some(x),
        None => b,
    }
}

fn folder_season(dirs: &Vec<String>) -> (r: Option<i32>)
    ensures
        r == folder_season_spec(dirs@),
{
    let mut k: usize = dirs.len();
    assert(dirs@.subrange(0, k as int) =~= dirs@);
    while k > 0
        invariant
            k <= dirs.len(),
            folder_season_spec(dirs@) == folder_season_spec(dirs@.subrange(0, k as int)),
        decreases k,
    {
        let ghost pre = dirs@.subrange(0, k as int);
        assert(pre.drop_last() =~= dirs@.subrange(0, k - 1));
        match is_season_folder(dirs[k - 1].as_str()) {
            Some(n) => {
                return Some(n);
            },
            None => {},
        }
        k -= 1;
    }
    None
}

fn classify(f: &ScannedFile, cats: &Vec<Category>) -> (r: FileClass)
    requires
        file_parsable(*f, cats@),
    ensures
        !is_video_spec(f.file_name@) ==> r is NotVideo,
        is_video_spec(f.file_name@) && is_tv_spec(*f, cats@) ==> (r matches FileClass::Episode(
            k,
            t,
            e,
        ) && t@ == show_title_spec(*f, cats@) && k@ == norm_title_spec(t@) && e@ == episode_of(
            *f,
        )),
        is_video_spec(f.file_name@) && !is_tv_spec(*f, cats@) ==> (r matches FileClass::Movie(m)
            && m@ == movie_of(*f)),
{
    if !is_video(f.file_name.as_str()) {
        return FileClass::NotVideo;
    }
    let fname = f.file_name.as_str();
    let parsed = parse_release(fname);
    let se = if parsed.episode.is_none() {
        let (s, e) = extract_se(fname);
        (opt_or(parsed.season, s), e)
    } else {
        (parsed.season, parsed.episode)
    };
    let (season, episode) = se;
    let fseason = folder_season(&f.rel_dirs);
    let cat = category_match(&f.rel_dirs, cats);
    let is_tv = match cat {
        Some((MediaKind::Tv, _)) => true,
        Some(_) => false,
        None => season.is_some() || episode.is_some() || fseason.is_some(),
    };
    let resolution = String::from_str(parsed.resolution.label());
    if is_tv {
        let n: usize = match cat {
            Some((_, n)) => n,
            None => 0,
        };
        let show_folder: Option<&String> = if n < f.rel_dirs.len() && is_season_folder(
            f.rel_dirs[n].as_str(),
        ).is_none() {
            Some(&f.rel_dirs[n])
        } else {
            None
        };
        let title = match show_folder {
            Some(d) => clean_title(d.as_str()),
            None => {
                let tv = str_chars(parsed.title.as_str());
                let t = trim_chars(tv.as_slice());
                if t.len() > 0 {
                    string_from_chars(t.as_slice())
                } else {
                    f.file_name.clone()
                }
            },
        };
        let key_s = norm_title(title.as_str());
        let key = str_chars(key_s.as_str());
        let ep = LibraryEpisode {
            season: match opt_or(season, fseason) {
                Some(x) => x,
                None => 1,
            },
            episode: match episode {
                Some(x) => x,
                None => 0,
            },
            resolution,
            path: f.path.clone(),
        };
        FileClass::Episode(key, title, ep)
    } else {
        let tv = str_chars(parsed.title.as_str());
        let t = trim_chars(tv.as_slice());
        let title = if t.len() == 0 {
            f.file_name.clone()
        } else {
            parsed.title
        };
        FileClass::Movie(
            LibraryMovie { title, year: parsed.year, resolution, size: f.size, path: f.path.clone() },
        )
    }
}

/// Build the library snapshot from the files found under the root.
pub fn build_library(files: &Vec<ScannedFile>, now: u64, categories: &Vec<Category>) -> (r:
    Library)
    requires
        forall|i: int| 0 <= i < files@.len() ==> file_parsable(#[trigger] files@[i], categories@),
    ensures
        r.movies@.map_values(|m: LibraryMovie| m@) == library_movies(files@, categories@),
        r.shows@.map_values(|s: LibraryShow| s@) == library_shows(files@, categories@),
        r.file_count == scan_fold(files@, categories@).count,
        r.scanned_at == now,
{
    let mut movies: Vec<(Vec<char>, LibraryMovie)> = Vec::new();
    let mut groups: Vec<GroupBuf> = Vec::new();
    let mut count: usize = 0;
    let mut i: usize = 0;
    while i < files.len()
        invariant
            i <= files.len(),
            forall|j: int| 0 <= j < files@.len() ==> file_parsable(#[trigger] files@[j], categories@),
            pairs_view(movies@) == scan_fold(files@.subrange(0, i as int), categories@).movies.map_values(
                |m: MovieView| movie_key(m),
            ),
            groups_view(groups@) == scan_fold(files@.subrange(0, i as int), categories@).groups,
            count == scan_fold(files@.subrange(0, i as int), categories@).count,
            count <= i,
        decreases files.len() - i,
    {
        proof {
            assert(files@.subrange(0, i + 1).drop_last() =~= files@.subrange(0, i as int));
            assert(files@.subrange(0, i + 1).last() == files@[i as int]);
        }
        let f = &files[i];
        match classify(f, categories) {
            FileClass::NotVideo => {},
            FileClass::Movie(m) => {
                let low = str_to_lowercase(m.title.as_str());
                let k = str_chars(low.as_str());
                let ghost before = pairs_view(movies@);
                let ghost mv = m@;
                movies.push((k, m));
                proof {
                    assert(pairs_view(movies@) =~= before.push(movie_key(mv)));
                }
                count += 1;
            },
            FileClass::Episode(key, title, ep) => {
                add_episode_exec(&mut groups, key, title, ep);
                count += 1;
            },
        }
        i += 1;
    }
    assert(files@.subrange(0, files.len() as int) =~= files@);
    // movies, ordered by lower-cased title
    let sorted_movies = sort_by_text_key(movies);
    let movie_list = strip_keys(sorted_movies);
    // shows: sort each show's episodes, then order shows by lower-cased title
    let mut keyed: Vec<(Vec<char>, LibraryShow)> = Vec::new();
    let ghost gv = groups_view(groups@);
    let ghost mut done: int = 0;
    while groups.len() > 0
        invariant
            0 <= done <= gv.len(),
            groups_view(groups@) == gv.subrange(done, gv.len() as int),
            pairs_view(keyed@) == gv.subrange(0, done).map_values(|g: ShowGroup| show_key(g)),
        decreases groups.len(),
    {
        let ghost before = groups@;
        let g = groups.remove(0);
        proof {
            assert(groups_view(before).len() == before.len());
            assert(gv.subrange(done, gv.len() as int)[0] == gv[done]);
            assert(groups_view(before)[0] == g.group());
            assert(groups_view(groups@) =~= groups_view(before).drop_first());
            assert(groups_view(groups@) =~= gv.subrange(done + 1, gv.len() as int));
        }
        let ghost gg = g.group();
        let low = str_to_lowercase(g.title.as_str());
        let k = str_chars(low.as_str());
        let eps = sort_episodes(g.eps);
        let show = LibraryShow { title: g.title, episodes: eps };
        let ghost kb = pairs_view(keyed@);
        keyed.push((k, show));
        proof {
            assert(show@ == show_of(gg));
            assert(pairs_view(keyed@) =~= kb.push(show_key(gg)));
            assert(gv.subrange(0, done + 1).map_values(|g: ShowGroup| show_key(g)) =~= gv.subrange(
                0,
                done,
            ).map_values(|g: ShowGroup| show_key(g)).push(show_key(gg)));
            done = done + 1;
        }
    }
    proof {
        assert(gv.subrange(0, gv.len() as int) =~= gv);
    }
    let sorted_shows = sort_by_text_key(keyed);
    let show_list = strip_keys(sorted_shows);
    Library { movies: movie_list, shows: show_list, file_count: count, scanned_at: now }
}

fn file_ok(f: &ScannedFile, cats: &Vec<Category>) -> (r: bool)
    ensures
        r == file_parsable(*f, cats@),
{
    if !is_video(f.file_name.as_str()) {
        return true;
    }
    let fname = f.file_name.as_str();
    if !release_name_ok(fname) {
        return false;
    }
    let parsed = parse_release(fname);
    let se = if parsed.episode.is_none() {
        let (s, e) = extract_se(fname);
        (opt_or(parsed.season, s), e)
    } else {
        (parsed.season, parsed.episode)
    };
    let (season, episode) = se;
    let fseason = folder_season(&f.rel_dirs);
    let cat = category_match(&f.rel_dirs, cats);
    let is_tv = match cat {
        Some((MediaKind::Tv, _)) => true,
        Some(_) => false,
        None => season.is_some() || episode.is_some() || fseason.is_some(),
    };
    if !is_tv {
        return true;
    }
    let n: usize = match cat {
        Some((_, n)) => n,
        None => 0,
    };
    if n < f.rel_dirs.len() && is_season_folder(f.rel_dirs[n].as_str()).is_none() {
        release_name_ok(f.rel_dirs[n].as_str())
    } else {
        true
    }
}

/// `build_library` for any set of files: `None` when a name it would read
/// is one the name parser panics on.
pub fn try_build_library(files: &Vec<ScannedFile>, now: u64, categories: &Vec<Category>) -> (r:
    Option<Library>)
    ensures
        r is Some <==> forall|i: int|
            0 <= i < files@.len() ==> file_parsable(#[trigger] files@[i], categories@),
        r matches Some(l) ==> l.movies@.map_values(|m: LibraryMovie| m@) == library_movies(
            files@,
            categories@,
        ) && l.shows@.map_values(|s: LibraryShow| s@) == library_shows(files@, categories@)
            && l.file_count == scan_fold(files@, categories@).count && l.scanned_at == now,
{
    let mut i: usize = 0;
    while i < files.len()
        invariant
            i <= files.len(),
            forall|j: int| 0 <= j < i ==> file_parsable(#[trigger] files@[j], categories@),
        decreases files.len() - i,
    {
        if !file_ok(&files[i], categories) {
            return None;
        }
        i += 1;
    }
    Some(build_library(files, now, categories))
}

} // verus!
