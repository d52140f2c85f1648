//! Wire types shared by the server and the browser client, with their
//! mathematical views and the small pure helpers that belong to them.

use vstd::prelude::*;

use crate::text::{
    decimal, extend_chars, fmt_u64, is_whitespace, is_ws, str_chars, str_to_lowercase,
    string_from_chars, char_is_alphanumeric, unicode_alphanumeric, unicode_lowercase,
    is_ascii_seq, is_ascii_char, std_ascii_facts, lower_seq, lower_char, ascii_alnum,
};
use vstd::string::StringExecFns;

verus! {

/// High-level lifecycle state of a torrent, as surfaced to the UI.
#[derive(Clone, Copy, Debug, PartialEq, Eq, Structural)]
pub enum TorrentState {
    Initializing,
    Live,
    Paused,
    Finished,
    Error,
}

impl TorrentState {
    pub open spec fn label_spec(self) -> Seq<char> {
        match self {
            TorrentState::Initializing => "initializing"@,
            TorrentState::Live => "downloading"@,
            TorrentState::Paused => "paused"@,
            TorrentState::Finished => "finished"@,
            TorrentState::Error => "error"@,
        }
    }

    pub fn label(&self) -> (r: &'static str)
        ensures
            r@ == self.label_spec(),
    {
        match self {
            TorrentState::Initializing => "initializing",
            TorrentState::Live => "downloading",
            TorrentState::Paused => "paused",
            TorrentState::Finished => "finished",
            TorrentState::Error => "error",
        }
    }
}

/// What kind of media a category holds (drives library grouping).
#[derive(Clone, Copy, Debug, PartialEq, Eq, Structural)]
pub enum MediaKind {
    Movie,
    Tv,
    Other,
}

impl MediaKind {
    /// A category with no stated kind holds `Other` media.
    pub fn default() -> (r: MediaKind)
        ensures
            r == MediaKind::Other,
    {
        MediaKind::Other
    }

    pub open spec fn label_spec(self) -> Seq<char> {
        match self {
            MediaKind::Movie => "movie"@,
            MediaKind::Tv => "tv"@,
            MediaKind::Other => "other"@,
        }
    }

    pub fn label(&self) -> (r: &'static str)
        ensures
            r@ == self.label_spec(),
    {
        match self {
            MediaKind::Movie => "movie",
            MediaKind::Tv => "tv",
            MediaKind::Other => "other",
        }
    }
}

/// A user-defined category mapping to a sub-directory.
#[derive(Clone, Debug)]
pub struct Category {
    /// Stable key (server-derived from `name`).
    pub slug: String,
    pub name: String,
    /// Path relative to the library root (e.g. `Movies`, `TV/Anime`).
    pub subdir: String,
    pub kind: MediaKind,
}

pub struct CategoryView {
    pub slug: Seq<char>,
    pub name: Seq<char>,
    pub subdir: Seq<char>,
    pub kind: MediaKind,
}

impl View for Category {
    type V = CategoryView;

    open spec fn view(&self) -> CategoryView {
        CategoryView { slug: self.slug@, name: self.name@, subdir: self.subdir@, kind: self.kind }
    }
}

/// Video resolution tiers, ordered worst to best.
#[derive(Clone, Copy, Debug, PartialEq, Eq, Structural)]
pub enum Resolution {
    Unknown,
    R480,
    R720,
    R1080,
    R2160,
}

impl Resolution {
    pub open spec fn rank_spec(self) -> int {
        match self {
            Resolution::Unknown => 0,
            Resolution::R480 => 1,
            Resolution::R720 => 2,
            Resolution::R1080 => 3,
            Resolution::R2160 => 4,
        }
    }

    pub open spec fn label_spec(self) -> Seq<char> {
        match self {
            Resolution::Unknown => "any"@,
            Resolution::R480 => "480p"@,
            Resolution::R720 => "720p"@,
            Resolution::R1080 => "1080p"@,
            Resolution::R2160 => "2160p"@,
        }
    }

    pub fn label(&self) -> (r: &'static str)
        ensures
            r@ == self.label_spec(),
    {
        match self {
            Resolution::Unknown => "any",
            Resolution::R480 => "480p",
            Resolution::R720 => "720p",
            Resolution::R1080 => "1080p",
            Resolution::R2160 => "2160p",
        }
    }

    /// Position in the worst-to-best order.
    pub fn rank(&self) -> (r: i64)
        ensures
            r == self.rank_spec(),
    {
        match self {
            Resolution::Unknown => 0,
            Resolution::R480 => 1,
            Resolution::R720 => 2,
            Resolution::R1080 => 3,
            Resolution::R2160 => 4,
        }
    }
}

/// Release source tiers, ordered worst to best.
#[derive(Clone, Copy, Debug, PartialEq, Eq, Structural)]
pub enum Source {
    Unknown,
    Cam,
    Hdtv,
    WebRip,
    WebDl,
    Bluray,
    Remux,
}

impl Source {
    pub open spec fn rank_spec(self) -> int {
        match self {
            Source::Unknown => 0,
            Source::Cam => 1,
            Source::Hdtv => 2,
            Source::WebRip => 3,
            Source::WebDl => 4,
            Source::Bluray => 5,
            Source::Remux => 6,
        }
    }

    /// Position in the worst-to-best order.
    pub fn rank(&self) -> (r: i64)
        ensures
            r == self.rank_spec(),
    {
        match self {
            Source::Unknown => 0,
            Source::Cam => 1,
            Source::Hdtv => 2,
            Source::WebRip => 3,
            Source::WebDl => 4,
            Source::Bluray => 5,
            Source::Remux => 6,
        }
    }
}

/// How a quality profile treats HDR / Dolby Vision.
#[derive(Clone, Copy, Debug, PartialEq, Eq, Structural)]
pub enum HdrPref {
    /// Don't care.
    Ignore,
    /// Accept SDR, but rank HDR higher and treat it as an upgrade target.
    Prefer,
    /// Only accept HDR / DV releases.
    Require,
}

impl HdrPref {
    /// A profile with no stated preference prefers HDR.
    pub fn default() -> (r: HdrPref)
        ensures
            r == HdrPref::Prefer,
    {
        HdrPref::Prefer
    }

    pub open spec fn label_spec(self) -> Seq<char> {
        match self {
            HdrPref::Ignore => "ignore"@,
            HdrPref::Prefer => "prefer"@,
            HdrPref::Require => "require"@,
        }
    }

    pub fn label(&self) -> (r: &'static str)
        ensures
            r@ == self.label_spec(),
    {
        match self {
            HdrPref::Ignore => "ignore",
            HdrPref::Prefer => "prefer",
            HdrPref::Require => "require",
        }
    }
}

/// The value a missing `upgrade_allowed` / `enabled` flag takes.
pub fn default_true() -> (r: bool)
    ensures
        r,
{
    true
}

/// A quality profile: what releases are acceptable and how upgrades are chosen.
#[derive(Clone, Debug)]
pub struct QualityProfile {
    pub id: String,
    pub name: String,
    /// Minimum acceptable resolution (inclusive).
    pub min_resolution: Resolution,
    /// Stop upgrading once this resolution (and HDR pref, if any) is met.
    pub cutoff_resolution: Resolution,
    pub hdr: HdrPref,
    /// Required languages (a release must match one when non-empty; an
    /// untagged release is assumed to match).
    pub languages: Vec<String>,
    pub preferred_groups: Vec<String>,
    pub blocked_groups: Vec<String>,
    pub upgrade_allowed: bool,
}

/// The texts of a list of strings.
pub open spec fn strings_view(v: Seq<String>) -> Seq<Seq<char>> {
    v.map_values(|s: String| s@)
}

pub struct QualityProfileView {
    pub id: Seq<char>,
    pub name: Seq<char>,
    pub min_resolution: Resolution,
    pub cutoff_resolution: Resolution,
    pub hdr: HdrPref,
    pub languages: Seq<Seq<char>>,
    pub preferred_groups: Seq<Seq<char>>,
    pub blocked_groups: Seq<Seq<char>>,
    pub upgrade_allowed: bool,
}

impl View for QualityProfile {
    type V = QualityProfileView;

    open spec fn view(&self) -> QualityProfileView {
        QualityProfileView {
            id: self.id@,
            name: self.name@,
            min_resolution: self.min_resolution,
            cutoff_resolution: self.cutoff_resolution,
            hdr: self.hdr,
            languages: strings_view(self.languages@),
            preferred_groups: strings_view(self.preferred_groups@),
            blocked_groups: strings_view(self.blocked_groups@),
            upgrade_allowed: self.upgrade_allowed,
        }
    }
}

/// One TMDb search hit (movie or TV).
#[derive(Clone, Debug)]
pub struct MediaSearchResult {
    pub tmdb_id: i64,
    pub title: String,
    pub year: Option<i32>,
    pub overview: String,
    pub poster_path: Option<String>,
    pub is_tv: bool,
}

/// `c` itself when alphanumeric, a space otherwise.
pub open spec fn alnum_or_space(c: char) -> char {
    if unicode_alphanumeric(c) {
        c
    } else {
        ' '
    }
}

/// Split on whitespace and re-join the words with single spaces
/// (`split_whitespace().collect::<Vec<_>>().join(" ")`), scanning from the
/// left with the output so far and whether a separator is pending.
pub open spec fn squash_from(s: Seq<char>, out: Seq<char>, pending: bool) -> Seq<char>
    decreases s.len(),
{
    if s.len() == 0 {
        out
    } else if is_ws(s[0]) {
        squash_from(s.drop_first(), out, out.len() > 0)
    } else if pending {
        squash_from(s.drop_first(), out.push(' ').push(s[0]), false)
    } else {
        squash_from(s.drop_first(), out.push(s[0]), false)
    }
}

pub open spec fn squash_ws(s: Seq<char>) -> Seq<char> {
    squash_from(s, Seq::empty(), false)
}

/// Normalized media title: every non-alphanumeric character becomes a space,
/// the result is lower-cased, and its words are joined by single spaces.
pub open spec fn norm_title_spec(s: Seq<char>) -> Seq<char> {
    squash_ws(unicode_lowercase(s.map_values(|c: char| alnum_or_space(c))))
}

/// A character a normalized ASCII title can hold.
pub open spec fn is_title_char(c: char) -> bool {
    ('a' <= c && c <= 'z') || ('0' <= c && c <= '9') || c == ' '
}

/// Single spaces between words: no space at either end, none doubled.
pub open spec fn single_spaced(s: Seq<char>) -> bool {
    &&& (s.len() > 0 ==> s[0] != ' ' && s.last() != ' ')
    &&& forall|i: int| 0 <= i && i + 1 < s.len() ==> !(#[trigger] s[i] == ' ' && s[i + 1] == ' ')
}

/// What squashing builds from title characters stays single-spaced.
proof fn lemma_squash_shape(s: Seq<char>, out: Seq<char>, pending: bool)
    requires
        forall|i: int| 0 <= i < s.len() ==> is_title_char(#[trigger] s[i]),
        forall|i: int| 0 <= i < out.len() ==> is_title_char(#[trigger] out[i]),
        single_spaced(out),
        pending ==> out.len() > 0,
    ensures
        forall|i: int|
            0 <= i < squash_from(s, out, pending).len() ==> is_title_char(
                #[trigger] squash_from(s, out, pending)[i],
            ),
        single_spaced(squash_from(s, out, pending)),
    decreases s.len(),
{
    if s.len() > 0 {
        let c = s[0];
        let t = s.drop_first();
        assert forall|i: int| 0 <= i < t.len() implies is_title_char(#[trigger] t[i]) by {
            assert(t[i] == s[i + 1]);
        }
        assert(is_title_char(c));
        if is_ws(c) {
            lemma_squash_shape(t, out, out.len() > 0);
            assert(squash_from(s, out, pending) == squash_from(t, out, out.len() > 0));
        } else {
            assert(c != ' ');
            let o2 = if pending {
                out.push(' ').push(c)
            } else {
                out.push(c)
            };
            assert forall|i: int| 0 <= i < o2.len() implies is_title_char(#[trigger] o2[i]) by {
                if i < out.len() {
                    assert(o2[i] == out[i]);
                }
            }
            assert forall|i: int| 0 <= i && i + 1 < o2.len() implies !(#[trigger] o2[i] == ' ' && o2[i
                + 1] == ' ') by {
                if i + 1 < out.len() {
                    assert(o2[i] == out[i] && o2[i + 1] == out[i + 1]);
                } else if i + 1 == o2.len() - 1 {
                    assert(o2[i + 1] == c);
                } else {
                    assert(pending && i + 1 == out.len());
                    assert(o2[i] == out.last());
                }
            }
            if out.len() > 0 {
                assert(o2[0] == out[0]);
            }
            lemma_squash_shape(t, o2, false);
            assert(squash_from(s, out, pending) == squash_from(t, o2, false));
        }
    }
}

/// Squashing a single-spaced run of title characters changes nothing.
proof fn lemma_squash_fixed(t: Seq<char>, out: Seq<char>, pending: bool)
    requires
        forall|i: int| 0 <= i < t.len() ==> is_title_char(#[trigger] t[i]),
        forall|i: int| 0 <= i && i + 1 < t.len() ==> !(#[trigger] t[i] == ' ' && t[i + 1] == ' '),
        t.len() > 0 ==> t.last() != ' ',
        pending ==> t.len() > 0 && t[0] != ' ',
        t.len() > 0 && t[0] == ' ' ==> out.len() > 0 && !pending,
    ensures
        squash_from(t, out, pending) == (if pending {
            out.push(' ')
        } else {
            out
        }) + t,
    decreases t.len(),
{
    if t.len() > 0 {
        let c = t[0];
        let u = t.drop_first();
        assert forall|i: int| 0 <= i < u.len() implies is_title_char(#[trigger] u[i]) by {
            assert(u[i] == t[i + 1]);
        }
        assert forall|i: int| 0 <= i && i + 1 < u.len() implies !(#[trigger] u[i] == ' ' && u[i + 1]
            == ' ') by {
            assert(u[i] == t[i + 1] && u[i + 1] == t[i + 2]);
        }
        if u.len() > 0 {
            assert(u.last() == t.last());
        }
        if c == ' ' {
            assert(t.len() >= 2);
            assert(!(t[0] == ' ' && t[1] == ' '));
            assert(u[0] == t[1]);
            lemma_squash_fixed(u, out, true);
            assert(out.push(' ') + u =~= out + t);
        } else {
            assert(!is_ws(c));
            if pending {
                lemma_squash_fixed(u, out.push(' ').push(c), false);
                assert(out.push(' ').push(c) + u =~= out.push(' ') + t);
            } else {
                lemma_squash_fixed(u, out.push(c), false);
                assert(out.push(c) + u =~= out + t);
            }
        }
    } else {
        assert(out + t =~= out);
    }
}

/// Normalized titles of ASCII text are fixed points: they hold only
/// lower-case ASCII letters, digits and single spaces between words, and
/// normalizing one again gives it back. This rests on what std documents
/// of `char::is_alphanumeric` and `str::to_lowercase` on ASCII text.
pub proof fn law_norm_title_idempotent(s: Seq<char>)
    requires
        is_ascii_seq(s),
        std_ascii_facts(),
    ensures
        forall|i: int| 0 <= i < norm_title_spec(s).len() ==> is_title_char(#[trigger] norm_title_spec(s)[i]),
        single_spaced(norm_title_spec(s)),
        norm_title_spec(norm_title_spec(s)) == norm_title_spec(s),
{
    let m = s.map_values(|c: char| alnum_or_space(c));
    assert forall|i: int| 0 <= i < m.len() implies is_ascii_char(#[trigger] m[i]) && (m[i] == ' '
        || ascii_alnum(m[i])) by {
        assert(is_ascii_char(s[i]));
        assert(unicode_alphanumeric(s[i]) == ascii_alnum(s[i]));
    }
    assert(is_ascii_seq(m));
    assert(unicode_lowercase(m) == lower_seq(m));
    let low = lower_seq(m);
    assert forall|i: int| 0 <= i < low.len() implies is_title_char(#[trigger] low[i]) by {
        assert(low[i] == lower_char(m[i]));
        assert(m[i] == ' ' || ascii_alnum(m[i]));
    }
    assert(single_spaced(Seq::<char>::empty()));
    lemma_squash_shape(low, Seq::empty(), false);
    let r = squash_ws(low);
    assert(r == norm_title_spec(s));
    // normalizing `r` again
    let m2 = r.map_values(|c: char| alnum_or_space(c));
    assert(m2 =~= r) by {
        assert forall|i: int| 0 <= i < r.len() implies m2[i] == r[i] by {
            assert(is_title_char(r[i]));
            assert(is_ascii_char(r[i]));
            assert(unicode_alphanumeric(r[i]) == ascii_alnum(r[i]));
        }
    }
    assert forall|i: int| 0 <= i < r.len() implies is_ascii_char(#[trigger] r[i]) by {
        assert(is_title_char(r[i]));
    }
    assert(unicode_lowercase(r) == lower_seq(r));
    assert(lower_seq(r) =~= r) by {
        assert forall|i: int| 0 <= i < r.len() implies lower_seq(r)[i] == r[i] by {
            assert(is_title_char(r[i]));
        }
    }
    lemma_squash_fixed(r, Seq::empty(), false);
    assert(Seq::<char>::empty() + r =~= r);
}

pub fn squash_whitespace(s: &[char]) -> (r: Vec<char>)
    ensures
        r@ == squash_ws(s@),
{
    let mut out: Vec<char> = Vec::new();
    let mut pending = false;
    let mut i: usize = 0;
    assert(s@.subrange(0, s.len() as int) =~= s@);
    while i < s.len()
        invariant
            i <= s.len(),
            squash_from(s@.subrange(i as int, s.len() as int), out@, pending) == squash_ws(s@),
        decreases s.len() - i,
    {
        let ghost rest = s@.subrange(i as int, s.len() as int);
        assert(rest.drop_first() =~= s@.subrange(i + 1, s.len() as int));
        let c = s[i];
        if is_whitespace(c) {
            pending = out.len() > 0;
        } else {
            if pending {
                out.push(' ');
            }
            out.push(c);
            pending = false;
        }
        i += 1;
    }
    assert(s@.subrange(i as int, s.len() as int) =~= Seq::<char>::empty());
    out
}

/// Normalize a media title for fuzzy comparison: lowercase, alphanumerics
/// and single spaces only.
pub fn norm_title(s: &str) -> (r: String)
    ensures
        r@ == norm_title_spec(s@),
{
    let v = str_chars(s);
    let mut mapped: Vec<char> = Vec::new();
    let mut i: usize = 0;
    while i < v.len()
        invariant
            i <= v.len(),
            mapped@ == v@.subrange(0, i as int).map_values(|c: char| alnum_or_space(c)),
        decreases v.len() - i,
    {
        let c = v[i];
        let m = if char_is_alphanumeric(c) {
            c
        } else {
            ' '
        };
        mapped.push(m);
        i += 1;
        assert(mapped@ =~= v@.subrange(0, i as int).map_values(|c: char| alnum_or_space(c)));
    }
    assert(v@.subrange(0, v.len() as int) =~= v@);
    let cleaned = string_from_chars(mapped.as_slice());
    let lowered = str_to_lowercase(cleaned.as_str());
    let lv = str_chars(lowered.as_str());
    let sq = squash_whitespace(lv.as_slice());
    string_from_chars(sq.as_slice())
}

/// A downloaded movie found by the library scan.
#[derive(Clone, Debug)]
pub struct LibraryMovie {
    pub title: String,
    pub year: Option<i32>,
    pub resolution: String,
    pub size: u64,
    pub path: String,
}

/// One downloaded episode of a show.
#[derive(Clone, Debug)]
pub struct LibraryEpisode {
    pub season: i32,
    pub episode: i32,
    pub resolution: String,
    pub path: String,
}

/// A show with its downloaded episodes.
#[derive(Clone, Debug)]
pub struct LibraryShow {
    pub title: String,
    pub episodes: Vec<LibraryEpisode>,
}

/// The scanned media library (filename-based).
#[derive(Clone, Debug)]
pub struct Library {
    pub movies: Vec<LibraryMovie>,
    pub shows: Vec<LibraryShow>,
    pub file_count: usize,
    /// Unix seconds of the last scan (0 = never).
    pub scanned_at: u64,
}

pub struct MovieView {
    pub title: Seq<char>,
    pub year: Option<i32>,
    pub resolution: Seq<char>,
    pub size: u64,
    pub path: Seq<char>,
}

impl View for LibraryMovie {
    type V = MovieView;

    open spec fn view(&self) -> MovieView {
        MovieView {
            title: self.title@,
            year: self.year,
            resolution: self.resolution@,
            size: self.size,
            path: self.path@,
        }
    }
}

pub struct EpisodeView {
    pub season: i32,
    pub episode: i32,
    pub resolution: Seq<char>,
    pub path: Seq<char>,
}

impl View for LibraryEpisode {
    type V = EpisodeView;

    open spec fn view(&self) -> EpisodeView {
        EpisodeView {
            season: self.season,
            episode: self.episode,
            resolution: self.resolution@,
            path: self.path@,
        }
    }
}

pub struct ShowView {
    pub title: Seq<char>,
    pub episodes: Seq<EpisodeView>,
}

impl View for LibraryShow {
    type V = ShowView;

    open spec fn view(&self) -> ShowView {
        ShowView {
            title: self.title@,
            episodes: self.episodes@.map_values(|e: LibraryEpisode| e@),
        }
    }
}

/// The movie `m` stands for a title whose normalized form is `nt`, in `year`
/// when both years are known.
pub open spec fn movie_matches(m: LibraryMovie, nt: Seq<char>, year: Option<i32>) -> bool {
    norm_title_spec(m.title@) == nt && (year is None || m.year is None || m.year == year)
}

/// The show `s` stands for normalized title `nt` and holds that episode.
pub open spec fn show_has(s: LibraryShow, nt: Seq<char>, season: i32, episode: i32) -> bool {
    norm_title_spec(s.title@) == nt && exists|j: int|
        0 <= j < s.episodes@.len() && (#[trigger] s.episodes@[j]).season == season
            && s.episodes@[j].episode == episode
}

impl Library {
    /// An empty library that was never scanned.
    pub fn default() -> (r: Library)
        ensures
            r.movies@.len() == 0,
            r.shows@.len() == 0,
            r.file_count == 0,
            r.scanned_at == 0,
    {
        Library { movies: Vec::new(), shows: Vec::new(), file_count: 0, scanned_at: 0 }
    }

    /// Is a movie with this (normalized) title already on disk?
    pub fn has_movie(&self, title: &str, year: Option<i32>) -> (r: bool)
        ensures
            r == exists|i: int|
                0 <= i < self.movies@.len() && movie_matches(
                    #[trigger] self.movies@[i],
                    norm_title_spec(title@),
                    year,
                ),
    {
        let nt = norm_title(title);
        let mut i: usize = 0;
        while i < self.movies.len()
            invariant
                i <= self.movies.len(),
                nt@ == norm_title_spec(title@),
                forall|j: int|
                    0 <= j < i ==> !movie_matches(#[trigger] self.movies@[j], nt@, year),
            decreases self.movies.len() - i,
        {
            let m = &self.movies[i];
            let mt = norm_title(m.title.as_str());
            let year_ok = match year {
                None => true,
                Some(y) => match m.year {
                    None => true,
                    Some(my) => my == y,
                },
            };
            if mt == nt && year_ok {
                assert(movie_matches(self.movies@[i as int], nt@, year));
                return true;
            }
            i += 1;
        }
        false
    }

    /// Is this episode of this (normalized) show already on disk?
    pub fn has_episode(&self, title: &str, season: i32, episode: i32) -> (r: bool)
        ensures
            r == exists|i: int|
                0 <= i < self.shows@.len() && show_has(
                    #[trigger] self.shows@[i],
                    norm_title_spec(title@),
                    season,
                    episode,
                ),
    {
        let nt = norm_title(title);
        let mut i: usize = 0;
        while i < self.shows.len()
            invariant
                i <= self.shows.len(),
                nt@ == norm_title_spec(title@),
                forall|j: int|
                    0 <= j < i ==> !show_has(#[trigger] self.shows@[j], nt@, season, episode),
            decreases self.shows.len() - i,
        {
            let s = &self.shows[i];
            let st = norm_title(s.title.as_str());
            if st == nt {
                let mut k: usize = 0;
                #[verifier::loop_isolation(false)]
                while k < s.episodes.len()
                    invariant
                        k <= s.episodes.len(),
                        forall|j: int|
                            0 <= j < k ==> !((#[trigger] s.episodes@[j]).season == season
                                && s.episodes@[j].episode == episode),
                    decreases s.episodes.len() - k,
                {
                    if s.episodes[k].season == season && s.episodes[k].episode == episode {
                        assert(show_has(self.shows@[i as int], nt@, season, episode));
                        return true;
                    }
                    k += 1;
                }
            }
            i += 1;
        }
        false
    }
}

/// A configured Torznab indexer (e.g. a Jackett indexer endpoint).
#[derive(Clone, Debug)]
pub struct Indexer {
    pub id: String,
    pub name: String,
    /// Torznab base URL.
    pub torznab_url: String,
    pub api_key: String,
    pub enabled: bool,
}

/// A configured RSS feed for passive auto-download into a category.
#[derive(Clone, Debug)]
pub struct RssFeed {
    pub id: String,
    pub name: String,
    pub url: String,
    /// Category slug that grabs land in (empty = default download dir).
    pub category: String,
    /// Quality profile id used to filter/rank items (empty = accept everything).
    pub quality_profile: String,
    pub auto_download: bool,
    pub enabled: bool,
}

/// A candidate release from an indexer search or an RSS feed.
#[derive(Clone, Debug)]
pub struct Release {
    pub title: String,
    /// Download link (magnet or `.torrent` URL) handed to the engine.
    pub url: String,
    pub size: u64,
    pub seeders: Option<u32>,
    pub indexer: String,
}

/// The plain contents of a [`Release`].
pub struct ReleaseView {
    pub title: Seq<char>,
    pub url: Seq<char>,
    pub size: u64,
    pub seeders: Option<u32>,
    pub indexer: Seq<char>,
}

impl View for Release {
    type V = ReleaseView;

    open spec fn view(&self) -> ReleaseView {
        ReleaseView {
            title: self.title@,
            url: self.url@,
            size: self.size,
            seeders: self.seeders,
            indexer: self.indexer@,
        }
    }
}

impl Release {
    /// A field-by-field copy.
    pub fn duplicate(&self) -> (r: Release)
        ensures
            r@ == self@,
    {
        Release {
            title: self.title.clone(),
            url: self.url.clone(),
            size: self.size,
            seeders: self.seeders,
            indexer: self.indexer.clone(),
        }
    }
}

/// One grab recorded in history (for dedup, audit and upgrade tracking).
#[derive(Clone, Debug)]
pub struct GrabHistoryEntry {
    /// Dedup key (release download url).
    pub id: String,
    pub title: String,
    pub url: String,
    pub category: String,
    pub source: String,
    pub score: i64,
    /// Unix seconds when grabbed.
    pub grabbed_at: u64,
}

/// Provider status surfaced to the UI (never exposes the raw key).
#[derive(Clone, Debug)]
pub struct ProviderInfo {
    pub tmdb_key_set: bool,
    /// Result of the last connection test, if any.
    pub tmdb_status: Option<String>,
}

/// One entry (sub-directory) inside a directory listing.
#[derive(Clone, Debug)]
pub struct DirEntry {
    pub name: String,
    pub path: String,
    pub writable: bool,
}

pub struct DirEntryView {
    pub name: Seq<char>,
    pub path: Seq<char>,
    pub writable: bool,
}

impl View for DirEntry {
    type V = DirEntryView;

    open spec fn view(&self) -> DirEntryView {
        DirEntryView { name: self.name@, path: self.path@, writable: self.writable }
    }
}

/// A directory listing, confined to the configured browse root.
#[derive(Clone, Debug)]
pub struct DirListing {
    pub path: String,
    /// `None` when `path` is the browse root (can't go higher).
    pub parent: Option<String>,
    pub writable: bool,
    pub entries: Vec<DirEntry>,
}

/// A single file within a torrent, with its path components for tree building.
#[derive(Clone, Debug)]
pub struct FileEntry {
    pub index: usize,
    /// Path components, e.g. `["Season 1", "ep01.mkv"]`.
    pub components: Vec<String>,
    pub length: u64,
    pub have_bytes: u64,
    /// Whether this file is currently selected for download.
    pub included: bool,
}

pub struct FileEntryView {
    pub index: usize,
    pub components: Seq<Seq<char>>,
    pub length: u64,
    pub have_bytes: u64,
    pub included: bool,
}

impl View for FileEntry {
    type V = FileEntryView;

    open spec fn view(&self) -> FileEntryView {
        FileEntryView {
            index: self.index,
            components: strings_view(self.components@),
            length: self.length,
            have_bytes: self.have_bytes,
            included: self.included,
        }
    }
}

/// Aggregate peer-swarm counts.
#[derive(Clone, Debug)]
pub struct PeerCounts {
    pub live: u64,
    pub connecting: u64,
    pub queued: u64,
    pub seen: u64,
    pub dead: u64,
}

/// A tracker configured for a torrent.
#[derive(Clone, Debug)]
pub struct TrackerInfo {
    pub url: String,
    /// Protocol scheme (udp / http / https / wss), upper-cased for the badge.
    pub scheme: String,
    pub host: String,
}

pub struct TrackerInfoView {
    pub url: Seq<char>,
    pub scheme: Seq<char>,
    pub host: Seq<char>,
}

impl View for TrackerInfo {
    type V = TrackerInfoView;

    open spec fn view(&self) -> TrackerInfoView {
        TrackerInfoView { url: self.url@, scheme: self.scheme@, host: self.host@ }
    }
}

/// Default paths surfaced to the UI.
#[derive(Clone, Debug)]
pub struct Defaults {
    pub download_dir: String,
    pub browse_root: String,
    pub auth_enabled: bool,
}

/// Request payload for adding a torrent by magnet link or http(s) URL.
#[derive(Clone, Debug)]
pub struct AddRequest {
    pub source: String,
    pub output_dir: String,
    pub paused: bool,
    /// Indices of files to download; `None` = all files.
    pub only_files: Option<Vec<usize>>,
}

/// The compact ETA text for `secs` seconds: `{h}h {m}m` from an hour up,
/// `{m}m {s}s` from a minute up, `{s}s` below.
pub open spec fn eta_spec(secs: Option<u64>) -> Seq<char> {
    match secs {
        None => "\u{2014}"@,
        Some(s) => {
            let h = s / 3600;
            let m = (s % 3600) / 60;
            let sec = s % 60;
            if h > 0 {
                decimal(h as nat) + seq!['h', ' '] + decimal(m as nat) + seq!['m']
            } else if m > 0 {
                decimal(m as nat) + seq!['m', ' '] + decimal(sec as nat) + seq!['s']
            } else {
                decimal(sec as nat) + seq!['s']
            }
        },
    }
}

/// Format an ETA in seconds as a compact human string.
pub fn fmt_eta(secs: Option<u64>) -> (r: String)
    ensures
        r@ == eta_spec(secs),
{
    match secs {
        None => String::from_str("\u{2014}"),
        Some(s) => {
            let h = s / 3600;
            let m = (s % 3600) / 60;
            let sec = s % 60;
            let mut out: Vec<char> = Vec::new();
            if h > 0 {
                let a = fmt_u64(h);
                extend_chars(&mut out, a.as_slice());
                out.push('h');
                out.push(' ');
                let b = fmt_u64(m);
                extend_chars(&mut out, b.as_slice());
                out.push('m');
                assert(out@ =~= decimal(h as nat) + seq!['h', ' '] + decimal(m as nat) + seq![
                    'm',
                ]);
            } else if m > 0 {
                let a = fmt_u64(m);
                extend_chars(&mut out, a.as_slice());
                out.push('m');
                out.push(' ');
                let b = fmt_u64(sec);
                extend_chars(&mut out, b.as_slice());
                out.push('s');
                assert(out@ =~= decimal(m as nat) + seq!['m', ' '] + decimal(sec as nat) + seq![
                    's',
                ]);
            } else {
                let a = fmt_u64(sec);
                extend_chars(&mut out, a.as_slice());
                out.push('s');
                assert(out@ =~= decimal(sec as nat) + seq!['s']);
            }
            string_from_chars(out.as_slice())
        },
    }
}

} // verus!
