//! What the PVR makes of the answers it gets: TMDb search hits and key
//! checks, Torznab capability and search responses, uploaded `.torrent`
//! forms, and the order in which stored categories and quality profiles are
//! listed. The HTTP requests, the multipart reading and the database stay
//! with the server.

use vstd::prelude::*;

use crate::engine::{byte_prefix, join_with, law_split_undoes_join, prefix_bytes, split_chars, split_on, views};
use crate::ext::xml_token_stream;
use crate::pvr::tag_indexer;
use crate::sort::{pairs_view, sort_by_text_key, sorted_by_key, strip_keys};
use crate::text::{
    all_digits, decimal, digit_val, digits_value, extend_chars, fmt_u64, is_digit, is_ws, trim_end, trim_start,
    unsigned_body, contains, contains_chars, find, occurs_at, parse_i32, parse_i32_spec, parse_unsigned,
    parse_usize, slice_range, str_chars, str_to_lowercase, string_from_chars, trim, trim_chars,
    unicode_lowercase,
};
use crate::types::{TrackerInfo, TrackerInfoView, Category, CategoryView, DirEntry, DirEntryView, MediaSearchResult, QualityProfile, QualityProfileView,
    Release, ReleaseView};
use crate::xmlparse::{items_spec, parse_items};

verus! {

// ---------------------------------------------------------------------------
// TMDb
// ---------------------------------------------------------------------------

/// One entry of a TMDb multi-search answer, as decoded.
pub struct SearchItem {
    pub id: i64,
    pub media_type: Option<String>,
    pub title: Option<String>,
    pub name: Option<String>,
    pub release_date: Option<String>,
    pub first_air_date: Option<String>,
    pub overview: String,
    pub poster_path: Option<String>,
}

pub open spec fn opt_text(o: Option<String>) -> Option<Seq<char>> {
    match o {
        Some(s) => Some(s@),
        None => None,
    }
}

/// The year: the first four bytes of the date, when they are whole
/// characters and parse as an `i32`.
pub open spec fn year_of(date: Seq<char>) -> Option<int> {
    match byte_prefix(date, 4) {
        Some(p) => parse_i32_spec(p),
        None => None,
    }
}

/// Only movies and TV shows with a title are kept.
pub open spec fn kept(it: SearchItem) -> bool {
    let mt = match opt_text(it.media_type) {
        Some(m) => m,
        None => Seq::empty(),
    };
    (mt == "movie"@ || mt == "tv"@) && (it.title is Some || it.name is Some)
}

pub open spec fn opt_int(o: Option<i32>) -> Option<int> {
    match o {
        Some(v) => Some(v as int),
        None => None,
    }
}

/// The release date, else the first air date, else nothing.
pub open spec fn date_of(it: SearchItem) -> Seq<char> {
    match opt_text(it.release_date) {
        Some(d) => d,
        None => match opt_text(it.first_air_date) {
            Some(d) => d,
            None => Seq::empty(),
        },
    }
}

impl SearchItem {
    /// The search result for a movie or TV hit: its title (else its name),
    /// and the year of its release (else first air) date.
    pub fn into_meta(self) -> (r: Option<MediaSearchResult>)
        ensures
            r is Some <==> kept(self),
            r matches Some(m) ==> m.tmdb_id == self.id,
            r matches Some(m) ==> m.title@ == match opt_text(self.title) {
                Some(t) => t,
                None => opt_text(self.name).unwrap(),
            },
            r matches Some(m) ==> m.is_tv == (opt_text(self.media_type) == Some("tv"@)),
            r matches Some(m) ==> opt_int(m.year) == year_of(date_of(self)),
            r matches Some(m) ==> m.overview@ == self.overview@,
            r matches Some(m) ==> opt_text(m.poster_path) == opt_text(self.poster_path),
    {
        let movie = str_chars("movie");
        let tv = str_chars("tv");
        proof {
            reveal_strlit("movie");
            reveal_strlit("tv");
        }
        let mt = match &self.media_type {
            Some(m) => str_chars(m.as_str()),
            None => Vec::new(),
        };
        let is_movie = crate::sort::seq_eq(mt.as_slice(), movie.as_slice());
        let is_tv = crate::sort::seq_eq(mt.as_slice(), tv.as_slice());
        if !is_movie && !is_tv {
            return None;
        }
        let title = match self.title {
            Some(t) => t,
            None => match self.name {
                Some(n) => n,
                None => return None,
            },
        };
        let date = match self.release_date {
            Some(d) => str_chars(d.as_str()),
            None => match self.first_air_date {
                Some(d) => str_chars(d.as_str()),
                None => Vec::new(),
            },
        };
        let year = match prefix_bytes(date.as_slice(), 4) {
            Some(p) => parse_i32(p.as_slice()),
            None => None,
        };
        Some(
            MediaSearchResult {
                tmdb_id: self.id,
                title,
                year,
                overview: self.overview,
                poster_path: self.poster_path,
                is_tv,
            },
        )
    }
}

/// How a TMDb key check came back.
#[derive(Clone, Copy, Debug, PartialEq, Eq, Structural)]
pub enum KeyCheck {
    /// A success status: the key works.
    Valid,
    /// 401: `invalid TMDb API key`.
    InvalidKey,
    /// Anything else: `TMDb returned <status>`.
    Failed,
}

pub open spec fn key_check_spec(status: u16) -> KeyCheck {
    if 200 <= status <= 299 {
        KeyCheck::Valid
    } else if status == 401 {
        KeyCheck::InvalidKey
    } else {
        KeyCheck::Failed
    }
}

pub fn key_check(status: u16) -> (r: KeyCheck)
    ensures
        r == key_check_spec(status),
{
    if 200 <= status && status <= 299 {
        KeyCheck::Valid
    } else if status == 401 {
        KeyCheck::InvalidKey
    } else {
        KeyCheck::Failed
    }
}

// ---------------------------------------------------------------------------
// Torznab
// ---------------------------------------------------------------------------

/// The `description` of a Torznab `<error code=".." description=".."/>`:
/// the text after the first `description="` up to the next `"`; else
/// `indexer error`.
pub open spec fn error_text(body: Seq<char>) -> Seq<char> {
    let key = "description=\""@;
    if contains(body, key) {
        let i = first_at(body, key);
        let rest = body.subrange(i + key.len(), body.len() as int);
        if contains(rest, seq!['"']) {
            rest.subrange(0, first_at(rest, seq!['"']))
        } else {
            "indexer error"@
        }
    } else {
        "indexer error"@
    }
}

/// The first position where `needle` occurs in `hay`.
pub open spec fn first_at(hay: Seq<char>, needle: Seq<char>) -> int {
    choose|i: int|
        occurs_at(hay, needle, i) && forall|j: int| 0 <= j < i ==> !#[trigger] occurs_at(hay, needle, j)
}

proof fn lemma_first_at(hay: Seq<char>, needle: Seq<char>, i: int)
    requires
        occurs_at(hay, needle, i),
        forall|j: int| 0 <= j < i ==> !#[trigger] occurs_at(hay, needle, j),
    ensures
        first_at(hay, needle) == i,
{
    let k = first_at(hay, needle);
    assert(occurs_at(hay, needle, k) && forall|j: int|
        0 <= j < k ==> !#[trigger] occurs_at(hay, needle, j));
    if k < i {
        assert(!occurs_at(hay, needle, k));
    }
    if i < k {
        assert(!occurs_at(hay, needle, i));
    }
}

pub fn extract_error(body: &str) -> (r: String)
    ensures
        r@ == error_text(body@),
{
    let b = str_chars(body);
    let key = str_chars("description=\"");
    let quote = vec!['"'];
    let bs = b.as_slice();
    let ks = key.as_slice();
    match find(bs, ks) {
        Some(i) => {
            proof {
                lemma_first_at(b@, key@, i as int);
            }
            assert(occurs_at(bs@, ks@, i as int));
            assert(i + ks.len() <= bs.len());
            let rest = slice_range(b.as_slice(), i + key.len(), b.len());
            match find(rest.as_slice(), quote.as_slice()) {
                Some(j) => {
                    proof {
                        assert(quote@ =~= seq!['"']);
                        lemma_first_at(rest@, quote@, j as int);
                    }
                    string_from_chars(slice_range(rest.as_slice(), 0, j).as_slice())
                },
                None => {
                    assert(quote@ =~= seq!['"']);
                    string_from_chars(str_chars("indexer error").as_slice())
                },
            }
        },
        None => string_from_chars(str_chars("indexer error").as_slice()),
    }
}

/// A capabilities answer is accepted when it holds `<caps` and no `<error`.
pub open spec fn caps_result(body: Seq<char>) -> Result<(), Seq<char>> {
    if contains(body, "<error"@) {
        Err(error_text(body))
    } else if !contains(body, "<caps"@) {
        Err("unexpected response (not a Torznab endpoint?)"@)
    } else {
        Ok(())
    }
}

/// Check the body of a successful `t=caps` answer.
pub fn check_caps_body(body: &str) -> (r: Result<(), String>)
    ensures
        match (r, caps_result(body@)) {
            (Ok(_), Ok(_)) => true,
            (Err(m), Err(e)) => m@ == e,
            _ => false,
        },
{
    let b = str_chars(body);
    if contains_chars(b.as_slice(), str_chars("<error").as_slice()) {
        Err(extract_error(body))
    } else if !contains_chars(b.as_slice(), str_chars("<caps").as_slice()) {
        Err(string_from_chars(str_chars("unexpected response (not a Torznab endpoint?)").as_slice()))
    } else {
        Ok(())
    }
}

/// The releases of a search answer, each tagged with the indexer's name; an
/// answer holding `<error` is that error.
pub fn search_results(body: &str, indexer: &str) -> (r: Result<Vec<Release>, String>)
    ensures
        contains(body@, "<error"@) ==> (r matches Err(m) && m@ == error_text(body@)),
        !contains(body@, "<error"@) ==> (r matches Ok(v) && v@.len() == items_spec(
            xml_token_stream(body@),
        ).len() && forall|i: int|
            0 <= i < v@.len() ==> (#[trigger] v@[i])@ == (ReleaseView {
                indexer: indexer@,
                ..items_spec(xml_token_stream(body@))[i]
            })),
{
    let b = str_chars(body);
    if contains_chars(b.as_slice(), str_chars("<error").as_slice()) {
        return Err(extract_error(body));
    }
    let items = parse_items(body);
    proof {
        assert forall|i: int| 0 <= i < items@.len() implies items@[i]@ == items_spec(
            xml_token_stream(body@),
        )[i] by {
            assert(items@.map_values(|x: Release| x@)[i] == items@[i]@);
        }
    }
    Ok(tag_indexer(items, indexer))
}

// ---------------------------------------------------------------------------
// uploads
// ---------------------------------------------------------------------------

/// Largest `.torrent` file accepted, in bytes.
pub const MAX_TORRENT_BYTES: usize = 26_214_400;

/// What is wrong with an uploaded `.torrent`, if anything.
#[derive(Clone, Copy, Debug, PartialEq, Eq, Structural)]
pub enum UploadCheck {
    Accepted,
    /// 400 `empty file`.
    Empty,
    /// 413 `.torrent file too large`.
    TooLarge,
}

pub fn validate_upload(len: usize) -> (r: UploadCheck)
    ensures
        len == 0 ==> r == UploadCheck::Empty,
        len > MAX_TORRENT_BYTES ==> r == UploadCheck::TooLarge,
        0 < len <= MAX_TORRENT_BYTES ==> r == UploadCheck::Accepted,
{
    if len == 0 {
        UploadCheck::Empty
    } else if len > MAX_TORRENT_BYTES {
        UploadCheck::TooLarge
    } else {
        UploadCheck::Accepted
    }
}

/// The indices among comma-separated pieces that parse (after trimming)
/// as `usize`; the others are skipped.
pub open spec fn parsed_indices(pieces: Seq<Seq<char>>) -> Seq<usize>
    decreases pieces.len(),
{
    if pieces.len() == 0 {
        Seq::empty()
    } else {
        let rest = parsed_indices(pieces.drop_last());
        match parse_unsigned(trim(pieces.last()), usize::MAX as int) {
            Some(v) => rest.push(v as usize),
            None => rest,
        }
    }
}

/// A comma-separated list of file indices; `None` (all files) when none
/// of its pieces is an index.
pub open spec fn only_files_spec(s: Seq<char>) -> Option<Seq<usize>> {
    let v = parsed_indices(split_on(s, ','));
    if v.len() == 0 {
        None
    } else {
        Some(v)
    }
}

/// The indices written as the add panel sends them: decimal, comma-separated.
pub open spec fn csv_of(v: Seq<usize>) -> Seq<char> {
    join_with(v.map_values(|x: usize| decimal(x as nat)), ',')
}

pub fn only_files_csv(v: &Vec<usize>) -> (r: String)
    ensures
        r@ == csv_of(v@),
{
    let mut out: Vec<char> = Vec::new();
    let mut k: usize = v.len();
    // Built from the back: `out` is the join of the pieces from `k` on.
    let ghost pieces = v@.map_values(|x: usize| decimal(x as nat));
    assert(pieces.subrange(v@.len() as int, v@.len() as int) =~= Seq::<Seq<char>>::empty());
    while k > 0
        invariant
            k <= v@.len(),
            pieces == v@.map_values(|x: usize| decimal(x as nat)),
            out@ == join_with(pieces.subrange(k as int, v@.len() as int), ','),
        decreases k,
    {
        let ghost tail = pieces.subrange(k as int, v@.len() as int);
        let ghost here = pieces.subrange(k - 1, v@.len() as int);
        assert(here.drop_first() =~= tail);
        assert(here[0] == decimal(v@[k - 1] as nat));
        let mut next = fmt_u64(v[k - 1] as u64);
        if k < v.len() {
            next.push(',');
        }
        extend_chars(&mut next, out.as_slice());
        proof {
            if tail.len() == 0 {
                assert(next@ =~= here[0]);
            } else {
                assert(next@ =~= here[0] + seq![','] + join_with(tail, ','));
            }
        }
        out = next;
        k -= 1;
    }
    assert(pieces.subrange(0, v@.len() as int) =~= pieces);
    string_from_chars(out.as_slice())
}

proof fn lemma_decimal_digits(n: nat)
    ensures
        decimal(n).len() > 0,
        all_digits(decimal(n)),
        digits_value(decimal(n)) == n,
    decreases n,
{
    if n >= 10 {
        lemma_decimal_digits(n / 10);
        let d = decimal(n / 10);
        let c = (('0' as u32) + (n % 10)) as char;
        assert(decimal(n) == d.push(c));
        assert(decimal(n).drop_last() =~= d);
        assert forall|i: int| 0 <= i < decimal(n).len() implies is_digit(#[trigger] decimal(n)[i]) by {
            if i < d.len() {
                assert(decimal(n)[i] == d[i]);
            }
        }
        assert(decimal(n).last() == c);
        assert(digit_val(c) == n % 10);
        assert(digits_value(decimal(n)) == digits_value(d) * 10 + digit_val(c));
        assert((n / 10) * 10 + n % 10 == n) by (nonlinear_arith);
    } else {
        let c = (('0' as u32) + n) as char;
        assert(decimal(n) == seq![c]);
        assert(decimal(n).drop_last() =~= Seq::<char>::empty());
        assert(digits_value(Seq::<char>::empty()) == 0);
        assert(digit_val(c) == n);
    }
}

proof fn lemma_decimal_parses(n: nat, max: int)
    requires
        n <= max,
    ensures
        parse_unsigned(trim(decimal(n)), max) == Some(n as int),
{
    lemma_decimal_digits(n);
    let d = decimal(n);
    assert(!is_ws(d[0]));
    assert(trim_start(d) == d);
    assert(!is_ws(d.last()));
    assert(trim_end(d) == d);
    assert(d[0] != '+');
    assert(unsigned_body(d) == d);
}

proof fn lemma_parsed_decimals(v: Seq<usize>)
    ensures
        parsed_indices(v.map_values(|x: usize| decimal(x as nat))) == v,
    decreases v.len(),
{
    let p = v.map_values(|x: usize| decimal(x as nat));
    if v.len() > 0 {
        lemma_parsed_decimals(v.drop_last());
        assert(p.drop_last() =~= v.drop_last().map_values(|x: usize| decimal(x as nat)));
        assert(p.last() == decimal(v.last() as nat));
        lemma_decimal_parses(v.last() as nat, usize::MAX as int);
        assert(v.drop_last().push(v.last()) =~= v);
    } else {
        assert(p =~= Seq::<Seq<char>>::empty());
    }
}

/// The file selection the add panel sends is read back exactly by the
/// upload handler.
pub proof fn law_only_files_roundtrip(v: Seq<usize>)
    requires
        v.len() > 0,
    ensures
        only_files_spec(csv_of(v)) == Some(v),
{
    let p = v.map_values(|x: usize| decimal(x as nat));
    assert forall|k: int, i: int| 0 <= k < p.len() && 0 <= i < p[k].len() implies #[trigger] p[k][i] != ',' by {
        lemma_decimal_digits(v[k] as nat);
        assert(is_digit(p[k][i]));
    }
    law_split_undoes_join(p, ',');
    lemma_parsed_decimals(v);
}

pub fn parse_only_files(s: &str) -> (r: Option<Vec<usize>>)
    ensures
        match r {
            Some(v) => only_files_spec(s@) == Some(v@),
            None => only_files_spec(s@) is None,
        },
{
    let pieces = split_chars(str_chars(s).as_slice(), ',');
    let mut out: Vec<usize> = Vec::new();
    let mut k: usize = 0;
    assert(views(pieces@).subrange(0, 0) =~= Seq::<Seq<char>>::empty());
    while k < pieces.len()
        invariant
            k <= pieces.len(),
            views(pieces@) == split_on(s@, ','),
            out@ == parsed_indices(views(pieces@).subrange(0, k as int)),
        decreases pieces.len() - k,
    {
        let ghost pre = views(pieces@).subrange(0, k + 1);
        assert(pre.drop_last() =~= views(pieces@).subrange(0, k as int));
        assert(pre.last() == pieces@[k as int]@);
        let t = trim_chars(pieces[k].as_slice());
        match parse_usize(t.as_slice()) {
            Some(v) => out.push(v),
            None => {},
        }
        k += 1;
    }
    assert(views(pieces@).subrange(0, k as int) =~= views(pieces@));
    if out.len() == 0 {
        None
    } else {
        Some(out)
    }
}

// ---------------------------------------------------------------------------
// stored lists
// ---------------------------------------------------------------------------

pub open spec fn category_views(s: Seq<Category>) -> Seq<CategoryView> {
    s.map_values(|c: Category| c@)
}

/// Categories keyed by their lower-cased name.
pub open spec fn keyed_categories(s: Seq<Category>) -> Seq<(Seq<char>, CategoryView)> {
    s.map_values(|c: Category| (unicode_lowercase(c.name@), c@))
}

/// Categories as listed: stably sorted by lower-cased name.
pub fn sort_categories(v: Vec<Category>) -> (r: Vec<Category>)
    ensures
        category_views(r@) == sorted_by_key(keyed_categories(v@)).map_values(
            |p: (Seq<char>, CategoryView)| p.1,
        ),
{
    let ghost orig = v@;
    let mut keyed: Vec<(Vec<char>, Category)> = Vec::new();
    let mut src = v;
    let ghost mut taken: int = 0;
    while src.len() > 0
        invariant
            0 <= taken <= orig.len(),
            src@ == orig.subrange(taken, orig.len() as int),
            pairs_view(keyed@) == keyed_categories(orig.subrange(0, taken)),
        decreases src@.len(),
    {
        let c = src.remove(0);
        let key = str_chars(str_to_lowercase(c.name.as_str()).as_str());
        let ghost prev = pairs_view(keyed@);
        keyed.push((key, c));
        proof {
            assert(pairs_view(keyed@) =~= prev.push((unicode_lowercase(c.name@), c@)));
            assert(orig.subrange(0, taken + 1) =~= orig.subrange(0, taken).push(c));
            assert(keyed_categories(orig.subrange(0, taken + 1)) =~= keyed_categories(
                orig.subrange(0, taken),
            ).push((unicode_lowercase(c.name@), c@)));
            taken = taken + 1;
            assert(src@ =~= orig.subrange(taken, orig.len() as int));
        }
    }
    assert(orig.subrange(0, taken) =~= orig);
    let sorted = sort_by_text_key(keyed);
    let r = strip_keys(sorted);
    assert(category_views(r@) =~= r@.map_values(|t: Category| t@));
    r
}

pub open spec fn profile_views(s: Seq<QualityProfile>) -> Seq<QualityProfileView> {
    s.map_values(|p: QualityProfile| p@)
}

pub open spec fn keyed_profiles(s: Seq<QualityProfile>) -> Seq<(Seq<char>, QualityProfileView)> {
    s.map_values(|p: QualityProfile| (unicode_lowercase(p.name@), p@))
}

/// Quality profiles as listed: stably sorted by lower-cased name.
pub fn sort_quality_profiles(v: Vec<QualityProfile>) -> (r: Vec<QualityProfile>)
    ensures
        profile_views(r@) == sorted_by_key(keyed_profiles(v@)).map_values(
            |p: (Seq<char>, QualityProfileView)| p.1,
        ),
{
    let ghost orig = v@;
    let mut keyed: Vec<(Vec<char>, QualityProfile)> = Vec::new();
    let mut src = v;
    let ghost mut taken: int = 0;
    while src.len() > 0
        invariant
            0 <= taken <= orig.len(),
            src@ == orig.subrange(taken, orig.len() as int),
            pairs_view(keyed@) == keyed_profiles(orig.subrange(0, taken)),
        decreases src@.len(),
    {
        let p = src.remove(0);
        let key = str_chars(str_to_lowercase(p.name.as_str()).as_str());
        let ghost prev = pairs_view(keyed@);
        keyed.push((key, p));
        proof {
            assert(pairs_view(keyed@) =~= prev.push((unicode_lowercase(p.name@), p@)));
            assert(orig.subrange(0, taken + 1) =~= orig.subrange(0, taken).push(p));
            assert(keyed_profiles(orig.subrange(0, taken + 1)) =~= keyed_profiles(
                orig.subrange(0, taken),
            ).push((unicode_lowercase(p.name@), p@)));
            taken = taken + 1;
            assert(src@ =~= orig.subrange(taken, orig.len() as int));
        }
    }
    assert(orig.subrange(0, taken) =~= orig);
    let sorted = sort_by_text_key(keyed);
    let r = strip_keys(sorted);
    assert(profile_views(r@) =~= r@.map_values(|t: QualityProfile| t@));
    r
}

pub open spec fn entry_views(s: Seq<DirEntry>) -> Seq<DirEntryView> {
    s.map_values(|e: DirEntry| e@)
}

pub open spec fn keyed_entries(s: Seq<DirEntry>) -> Seq<(Seq<char>, DirEntryView)> {
    s.map_values(|e: DirEntry| (unicode_lowercase(e.name@), e@))
}

/// Sub-directories as listed by the browser: stably sorted by lower-cased name.
pub fn sort_dir_entries(v: Vec<DirEntry>) -> (r: Vec<DirEntry>)
    ensures
        entry_views(r@) == sorted_by_key(keyed_entries(v@)).map_values(
            |p: (Seq<char>, DirEntryView)| p.1,
        ),
{
    let ghost orig = v@;
    let mut keyed: Vec<(Vec<char>, DirEntry)> = Vec::new();
    let mut src = v;
    let ghost mut taken: int = 0;
    while src.len() > 0
        invariant
            0 <= taken <= orig.len(),
            src@ == orig.subrange(taken, orig.len() as int),
            pairs_view(keyed@) == keyed_entries(orig.subrange(0, taken)),
        decreases src@.len(),
    {
        let e = src.remove(0);
        let key = str_chars(str_to_lowercase(e.name.as_str()).as_str());
        let ghost prev = pairs_view(keyed@);
        keyed.push((key, e));
        proof {
            assert(pairs_view(keyed@) =~= prev.push((unicode_lowercase(e.name@), e@)));
            assert(orig.subrange(0, taken + 1) =~= orig.subrange(0, taken).push(e));
            assert(keyed_entries(orig.subrange(0, taken + 1)) =~= keyed_entries(
                orig.subrange(0, taken),
            ).push((unicode_lowercase(e.name@), e@)));
            taken = taken + 1;
            assert(src@ =~= orig.subrange(taken, orig.len() as int));
        }
    }
    assert(orig.subrange(0, taken) =~= orig);
    let sorted = sort_by_text_key(keyed);
    let r = strip_keys(sorted);
    assert(entry_views(r@) =~= r@.map_values(|t: DirEntry| t@));
    r
}

pub open spec fn keyed_trackers(s: Seq<TrackerInfo>) -> Seq<(Seq<char>, TrackerInfoView)> {
    s.map_values(|t: TrackerInfo| (t.url@, t@))
}

pub open spec fn tracker_views(s: Seq<TrackerInfo>) -> Seq<TrackerInfoView> {
    s.map_values(|t: TrackerInfo| t@)
}

/// A torrent's trackers as the inspector lists them: stably sorted by URL.
pub fn sort_trackers(v: Vec<TrackerInfo>) -> (r: Vec<TrackerInfo>)
    ensures
        tracker_views(r@) == sorted_by_key(keyed_trackers(v@)).map_values(
            |p: (Seq<char>, TrackerInfoView)| p.1,
        ),
{
    let ghost orig = v@;
    let mut keyed: Vec<(Vec<char>, TrackerInfo)> = Vec::new();
    let mut src = v;
    let ghost mut taken: int = 0;
    while src.len() > 0
        invariant
            0 <= taken <= orig.len(),
            src@ == orig.subrange(taken, orig.len() as int),
            pairs_view(keyed@) == keyed_trackers(orig.subrange(0, taken)),
        decreases src@.len(),
    {
        let t = src.remove(0);
        let key = str_chars(t.url.as_str());
        let ghost prev = pairs_view(keyed@);
        keyed.push((key, t));
        proof {
            assert(pairs_view(keyed@) =~= prev.push((t.url@, t@)));
            assert(orig.subrange(0, taken + 1) =~= orig.subrange(0, taken).push(t));
            assert(keyed_trackers(orig.subrange(0, taken + 1)) =~= keyed_trackers(
                orig.subrange(0, taken),
            ).push((t.url@, t@)));
            taken = taken + 1;
            assert(src@ =~= orig.subrange(taken, orig.len() as int));
        }
    }
    assert(orig.subrange(0, taken) =~= orig);
    let sorted = sort_by_text_key(keyed);
    let r = strip_keys(sorted);
    assert(tracker_views(r@) =~= r@.map_values(|t: TrackerInfo| t@));
    r
}

} // verus!
