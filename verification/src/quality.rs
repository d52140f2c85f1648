//! Release-name parsing and quality-profile scoring: the core of the
//! auto-download and upgrade decision used by the feed poller and monitor.

use vstd::prelude::*;

use crate::ext::{
    non_ascii_digit_pattern, parse_release_metadata, regex_captures, regex_captures_spec,
    release_metadata, release_name_parsable, ReleaseMetadataView,
};
use crate::text::{
    all_digits, contains, contains_chars, occurs_at, eq_ignore_ascii_case, eq_ignore_case, is_digit,
    str_chars, str_to_lowercase, trim, trim_chars, unicode_lowercase,
};
use crate::types::{HdrPref, QualityProfile, Resolution, Source};
use vstd::string::StringExecFns;

verus! {

/// Case-insensitive HDR10+ / HDR10 / HDR tag.
pub open spec fn hdr_pattern() -> Seq<char> {
    "(?i)(hdr10\\+|hdr10|hdr)"@
}

/// Case-insensitive Dolby Vision tag (`dolby vision`, `dovi`, `dv`).
pub open spec fn dv_pattern() -> Seq<char> {
    "(?i)(dolby.?vision|\\bdovi\\b|\\bdv\\b)"@
}

/// Attributes extracted from a release name.
#[derive(Clone, Debug)]
pub struct ParsedRelease {
    pub title: String,
    pub year: Option<i32>,
    pub season: Option<i32>,
    pub episode: Option<i32>,
    pub resolution: Resolution,
    pub source: Source,
    pub hdr: bool,
    pub dv: bool,
    pub language: Option<String>,
    pub group: Option<String>,
    pub proper: bool,
    pub repack: bool,
    pub is_show: bool,
}

pub struct ParsedReleaseView {
    pub title: Seq<char>,
    pub year: Option<i32>,
    pub season: Option<i32>,
    pub episode: Option<i32>,
    pub resolution: Resolution,
    pub source: Source,
    pub hdr: bool,
    pub dv: bool,
    pub language: Option<Seq<char>>,
    pub group: Option<Seq<char>>,
    pub proper: bool,
    pub repack: bool,
    pub is_show: bool,
}

impl View for ParsedRelease {
    type V = ParsedReleaseView;

    open spec fn view(&self) -> ParsedReleaseView {
        ParsedReleaseView {
            title: self.title@,
            year: self.year,
            season: self.season,
            episode: self.episode,
            resolution: self.resolution,
            source: self.source,
            hdr: self.hdr,
            dv: self.dv,
            language: self.language.deep_view(),
            group: self.group.deep_view(),
            proper: self.proper,
            repack: self.repack,
            is_show: self.is_show,
        }
    }
}

/// Resolution tier named by a resolution tag (lower-cased first).
pub open spec fn map_resolution_spec(s: Option<Seq<char>>) -> Resolution {
    match s {
        None => Resolution::Unknown,
        Some(r0) => {
            let r = unicode_lowercase(r0);
            if contains(r, "2160"@) || contains(r, "4k"@) || contains(r, "uhd"@) {
                Resolution::R2160
            } else if contains(r, "1080"@) {
                Resolution::R1080
            } else if contains(r, "720"@) {
                Resolution::R720
            } else if contains(r, "480"@) || contains(r, "576"@) {
                Resolution::R480
            } else {
                Resolution::Unknown
            }
        },
    }
}

/// Source tier named by a quality tag (lower-cased first).
pub open spec fn map_source_spec(s: Option<Seq<char>>) -> Source {
    match s {
        None => Source::Unknown,
        Some(q0) => {
            let q = unicode_lowercase(q0);
            if contains(q, "remux"@) {
                Source::Remux
            } else if contains(q, "blu"@) {
                Source::Bluray
            } else if contains(q, "web-dl"@) || contains(q, "webdl"@) || contains(q, "web dl"@) {
                Source::WebDl
            } else if contains(q, "webrip"@) || contains(q, "web"@) {
                Source::WebRip
            } else if contains(q, "hdtv"@) || contains(q, "hdrip"@) {
                Source::Hdtv
            } else if contains(q, "cam"@) || contains(q, "telesync"@) || contains(q, " ts"@) {
                Source::Cam
            } else {
                Source::Unknown
            }
        },
    }
}

/// A quality tag naming WEB-DL gives the WEB-DL source, which ranks above
/// WEBRip: when the name parser reports a quality whose lower-cased text
/// contains `web-dl`, `webdl` or `web dl` (and neither `remux` nor `blu`),
/// the release's source is WEB-DL; one that contains `webrip` but none of
/// those gives WEBRip.
pub proof fn law_web_sources(name: Seq<char>, q: Seq<char>)
    requires
        release_metadata(name) is Some,
        release_metadata(name).unwrap().quality == Some(q),
    ensures
        ({
            let l = unicode_lowercase(q);
            (contains(l, "web-dl"@) || contains(l, "webdl"@) || contains(l, "web dl"@)) && !contains(
                l,
                "remux"@,
            ) && !contains(l, "blu"@)
        }) ==> parse_release_spec(name).source == Source::WebDl,
        ({
            let l = unicode_lowercase(q);
            contains(l, "webrip"@) && !contains(l, "web-dl"@) && !contains(l, "webdl"@) && !contains(
                l,
                "web dl"@,
            ) && !contains(l, "remux"@) && !contains(l, "blu"@)
        }) ==> parse_release_spec(name).source == Source::WebRip,
        Source::WebDl.rank_spec() > Source::WebRip.rank_spec(),
        contains(unicode_lowercase(q), "remux"@) ==> parse_release_spec(name).source == Source::Remux,
        contains(unicode_lowercase(q), "blu"@) && !contains(unicode_lowercase(q), "remux"@)
            ==> parse_release_spec(name).source == Source::Bluray,
{
}

/// Resolution tags name their tier: a lower-cased resolution tag holding
/// `2160`, `4k` or `uhd` is 2160p; otherwise one holding `1080` is 1080p,
/// then `720` is 720p, then `480` or `576` is 480p; no tag is unknown.
pub proof fn law_resolution_tags(name: Seq<char>)
    requires
        release_metadata(name) is Some,
    ensures
        ({
            let m = release_metadata(name).unwrap();
            match m.resolution {
                None => parse_release_spec(name).resolution == Resolution::Unknown,
                Some(t) => {
                    let l = unicode_lowercase(t);
                    &&& (contains(l, "2160"@) || contains(l, "4k"@) || contains(l, "uhd"@))
                        ==> parse_release_spec(name).resolution == Resolution::R2160
                    &&& !(contains(l, "2160"@) || contains(l, "4k"@) || contains(l, "uhd"@))
                        && contains(l, "1080"@) ==> parse_release_spec(name).resolution
                        == Resolution::R1080
                    &&& !(contains(l, "2160"@) || contains(l, "4k"@) || contains(l, "uhd"@))
                        && !contains(l, "1080"@) && contains(l, "720"@) ==> parse_release_spec(
                        name,
                    ).resolution == Resolution::R720
                },
            }
        }),
{
}

fn has(hay: &Vec<char>, needle: &str) -> (r: bool)
    ensures
        r == contains(hay@, needle@),
{
    let n = str_chars(needle);
    contains_chars(hay.as_slice(), n.as_slice())
}

fn map_resolution(s: Option<&str>) -> (r: Resolution)
    ensures
        r == map_resolution_spec(
            match s {
                Some(x) => Some(x@),
                None => None,
            },
        ),
{
    match s {
        None => Resolution::Unknown,
        Some(x) => {
            let low = str_to_lowercase(x);
            let r = str_chars(low.as_str());
            if has(&r, "2160") || has(&r, "4k") || has(&r, "uhd") {
                Resolution::R2160
            } else if has(&r, "1080") {
                Resolution::R1080
            } else if has(&r, "720") {
                Resolution::R720
            } else if has(&r, "480") || has(&r, "576") {
                Resolution::R480
            } else {
                Resolution::Unknown
            }
        },
    }
}

fn map_source(s: Option<&str>) -> (r: Source)
    ensures
        r == map_source_spec(
            match s {
                Some(x) => Some(x@),
                None => None,
            },
        ),
{
    match s {
        None => Source::Unknown,
        Some(x) => {
            let low = str_to_lowercase(x);
            let q = str_chars(low.as_str());
            if has(&q, "remux") {
                Source::Remux
            } else if has(&q, "blu") {
                Source::Bluray
            } else if has(&q, "web-dl") || has(&q, "webdl") || has(&q, "web dl") {
                Source::WebDl
            } else if has(&q, "webrip") || has(&q, "web") {
                Source::WebRip
            } else if has(&q, "hdtv") || has(&q, "hdrip") {
                Source::Hdtv
            } else if has(&q, "cam") || has(&q, "telesync") || has(&q, " ts") {
                Source::Cam
            } else {
                Source::Unknown
            }
        },
    }
}

/// Whether `pattern` matches somewhere in `text`.
pub open spec fn pattern_found(pattern: Seq<char>, text: Seq<char>) -> bool {
    regex_captures_spec(pattern, text) is Some
}

fn opt_lower(o: &Option<String>) -> (r: Option<String>)
    ensures
        r.deep_view() == match o.deep_view() {
            Some(x) => Some(unicode_lowercase(x)),
            None => None,
        },
{
    match o {
        Some(x) => Some(str_to_lowercase(x.as_str())),
        None => None,
    }
}

/// What `parse_release` returns for `name`, given what the name parser
/// extracted from it and whether the HDR and Dolby Vision tags occur.
pub open spec fn parsed_from(
    name: Seq<char>,
    meta: Option<ReleaseMetadataView>,
    hdr: bool,
    dv: bool,
) -> ParsedReleaseView {
    match meta {
        Some(m) => ParsedReleaseView {
            title: m.title,
            year: m.year,
            season: m.season,
            episode: m.episode,
            resolution: map_resolution_spec(m.resolution),
            source: map_source_spec(m.quality),
            hdr,
            dv,
            language: match m.language {
                Some(l) => Some(unicode_lowercase(l)),
                None => None,
            },
            group: m.group,
            proper: m.proper,
            repack: m.repack,
            is_show: m.is_show,
        },
        None => ParsedReleaseView {
            title: name,
            year: None,
            season: None,
            episode: None,
            resolution: Resolution::Unknown,
            source: Source::Unknown,
            hdr,
            dv,
            language: None,
            group: None,
            proper: false,
            repack: false,
            is_show: false,
        },
    }
}

/// The full reading of a release name.
pub open spec fn parse_release_spec(name: Seq<char>) -> ParsedReleaseView {
    parsed_from(
        name,
        release_metadata(name),
        pattern_found(hdr_pattern(), name),
        pattern_found(dv_pattern(), name),
    )
}

/// Parse a release name into its title, numbering and quality attributes.
pub fn parse_release(name: &str) -> (r: ParsedRelease)
    requires
        release_name_parsable(name@),
    ensures
        r@ == parse_release_spec(name@),
{
    let hdr = regex_captures("(?i)(hdr10\\+|hdr10|hdr)", name).is_some();
    let dv = regex_captures("(?i)(dolby.?vision|\\bdovi\\b|\\bdv\\b)", name).is_some();
    match parse_release_metadata(name) {
        Some(m) => {
            let resolution = map_resolution(
                match &m.resolution {
                    Some(x) => Some(x.as_str()),
                    None => None,
                },
            );
            let source = map_source(
                match &m.quality {
                    Some(x) => Some(x.as_str()),
                    None => None,
                },
            );
            let language = opt_lower(&m.language);
            ParsedRelease {
                title: m.title,
                year: m.year,
                season: m.season,
                episode: m.episode,
                resolution,
                source,
                hdr,
                dv,
                language,
                group: m.group,
                proper: m.proper,
                repack: m.repack,
                is_show: m.is_show,
            }
        },
        None => ParsedRelease {
            title: String::from_str(name),
            year: None,
            season: None,
            episode: None,
            resolution: map_resolution(None),
            source: map_source(None),
            hdr,
            dv,
            language: None,
            group: None,
            proper: false,
            repack: false,
            is_show: false,
        },
    }
}

/// Whether a release name is one the name parser accepts (see
/// `release_name_parsable`).
pub fn release_name_ok(name: &str) -> (r: bool)
    ensures
        r == release_name_parsable(name@),
{
    if regex_captures("[\\d&&[^0-9]]", name).is_some() {
        return false;
    }
    let v = str_chars(name);
    let mut i: usize = 0;
    let mut run: usize = 0;
    while i < v.len()
        invariant
            i <= v.len(),
            v@ == name@,
            regex_captures_spec(non_ascii_digit_pattern(), name@) is None,
            run <= i,
            run <= 9,
            forall|j: int| 0 <= j && j + 10 <= i ==> !all_digits(#[trigger] v@.subrange(j, j + 10)),
            all_digits(v@.subrange(i - run, i as int)),
            i - run > 0 ==> !is_digit(v@[i - run - 1]),
        decreases v.len() - i,
    {
        let c = v[i];
        if '0' <= c && c <= '9' {
            if run == 9 {
                let ghost j = i - 9;
                assert(all_digits(name@.subrange(j, j + 10))) by {
                    assert(v@.subrange(j, j + 10) =~= v@.subrange(i - 9, i + 1));
                    assert forall|k: int| 0 <= k < 10 implies is_digit(
                        #[trigger] v@.subrange(i - 9, i + 1)[k],
                    ) by {
                        if k < 9 {
                            assert(v@.subrange(i - 9, i + 1)[k] == v@.subrange(
                                i - run,
                                i as int,
                            )[k]);
                        }
                    }
                }
                return false;
            }
            proof {
                assert forall|k: int| 0 <= k < run + 1 implies is_digit(
                    #[trigger] v@.subrange(i - run, i + 1)[k],
                ) by {
                    if k < run {
                        assert(v@.subrange(i - run, i + 1)[k] == v@.subrange(i - run, i as int)[k]);
                    }
                }
                assert forall|j: int| 0 <= j && j + 10 <= i + 1 implies !all_digits(
                    #[trigger] v@.subrange(j, j + 10),
                ) by {
                    if j + 10 == i + 1 {
                        let w = v@.subrange(j, j + 10);
                        assert(j < i - run);
                        if i - run > 0 {
                            assert(w[i - run - 1 - j] == v@[i - run - 1]);
                        }
                    }
                }
            }
            run = run + 1;
        } else {
            proof {
                assert forall|j: int| 0 <= j && j + 10 <= i + 1 implies !all_digits(
                    #[trigger] v@.subrange(j, j + 10),
                ) by {
                    if j + 10 == i + 1 {
                        assert(v@.subrange(j, j + 10)[9] == c);
                    }
                }
                assert(v@.subrange(i + 1, i + 1) =~= Seq::<char>::empty());
            }
            run = 0;
        }
        i += 1;
    }
    true
}

/// `parse_release` for any name: `None` for a name the parser would panic on.
pub fn try_parse_release(name: &str) -> (r: Option<ParsedRelease>)
    ensures
        r is Some <==> release_name_parsable(name@),
        r matches Some(p) ==> p@ == parse_release_spec(name@),
{
    if release_name_ok(name) {
        Some(parse_release(name))
    } else {
        None
    }
}

// ---------------------------------------------------------------------------
// scoring
// ---------------------------------------------------------------------------

/// `g` is one of the listed groups (trimmed, ASCII case-insensitive).
pub open spec fn group_listed(list: Seq<String>, g: Seq<char>) -> bool {
    exists|i: int| 0 <= i < list.len() && eq_ignore_case(trim((#[trigger] list[i])@), g)
}

/// A required language `w` (trimmed, lower-cased) admits the release
/// language `lang` when one contains the other.
pub open spec fn language_admits(w: Seq<char>, lang: Seq<char>) -> bool {
    let w2 = unicode_lowercase(trim(w));
    w2.len() > 0 && (contains(lang, w2) || contains(w2, lang))
}

pub open spec fn language_ok(langs: Seq<String>, lang: Option<Seq<char>>) -> bool {
    langs.len() == 0 || match lang {
        None => true,
        Some(l) => exists|i: int| 0 <= i < langs.len() && language_admits((#[trigger] langs[i])@, l),
    }
}

/// The hard constraints of a profile: minimum resolution (an unknown
/// resolution passes), blocked groups, required languages, required HDR.
pub open spec fn acceptable(p: ParsedReleaseView, prof: QualityProfile) -> bool {
    &&& !(p.resolution != Resolution::Unknown && p.resolution.rank_spec()
        < prof.min_resolution.rank_spec())
    &&& !(p.group matches Some(g) && group_listed(prof.blocked_groups@, g))
    &&& language_ok(prof.languages@, p.language)
    &&& !(prof.hdr == HdrPref::Require && !p.hdr && !p.dv)
}

/// The weighted score: resolution dominates, HDR (when the profile cares)
/// is a strong secondary preference, then source, preferred group and
/// proper/repack.
pub open spec fn points(p: ParsedReleaseView, prof: QualityProfile) -> int {
    p.resolution.rank_spec() * 10_000 + p.source.rank_spec() * 100 + (if (p.hdr || p.dv)
        && prof.hdr != HdrPref::Ignore {
        2_000int
    } else {
        0
    }) + (if p.dv {
        50int
    } else {
        0
    }) + (if p.group matches Some(g) && group_listed(prof.preferred_groups@, g) {
        300int
    } else {
        0
    }) + (if p.proper {
        20int
    } else {
        0
    }) + (if p.repack {
        10int
    } else {
        0
    })
}

pub open spec fn score_spec(p: ParsedReleaseView, prof: QualityProfile) -> Option<int> {
    if acceptable(p, prof) {
        Some(points(p, prof))
    } else {
        None
    }
}

pub open spec fn cutoff_spec(prof: QualityProfile) -> int {
    prof.cutoff_resolution.rank_spec() * 10_000 + if prof.hdr != HdrPref::Ignore {
        2_000int
    } else {
        0
    }
}

fn in_group_list(list: &Vec<String>, g: &str) -> (r: bool)
    ensures
        r == group_listed(list@, g@),
{
    let gv = str_chars(g);
    let mut i: usize = 0;
    while i < list.len()
        invariant
            i <= list.len(),
            gv@ == g@,
            forall|j: int| 0 <= j < i ==> !eq_ignore_case(trim((#[trigger] list@[j])@), g@),
        decreases list.len() - i,
    {
        let b = str_chars(list[i].as_str());
        let t = trim_chars(b.as_slice());
        if eq_ignore_ascii_case(t.as_slice(), gv.as_slice()) {
            return true;
        }
        i += 1;
    }
    false
}

fn language_matches(langs: &Vec<String>, lang: &str) -> (r: bool)
    ensures
        r == exists|i: int| 0 <= i < langs@.len() && language_admits((#[trigger] langs@[i])@, lang@),
{
    let lv = str_chars(lang);
    let mut i: usize = 0;
    while i < langs.len()
        invariant
            i <= langs.len(),
            lv@ == lang@,
            forall|j: int| 0 <= j < i ==> !language_admits((#[trigger] langs@[j])@, lang@),
        decreases langs.len() - i,
    {
        let w = str_chars(langs[i].as_str());
        let t = trim_chars(w.as_slice());
        let ts = crate::text::string_from_chars(t.as_slice());
        let low = str_to_lowercase(ts.as_str());
        let w2 = str_chars(low.as_str());
        if w2.len() > 0 && (contains_chars(lv.as_slice(), w2.as_slice()) || contains_chars(
            w2.as_slice(),
            lv.as_slice(),
        )) {
            return true;
        }
        i += 1;
    }
    false
}

/// `s` occurs in itself.
proof fn lemma_contains_self(s: Seq<char>)
    ensures
        contains(s, s),
{
    assert(occurs_at(s, s, 0)) by {
        assert(s.subrange(0, s.len() as int) =~= s);
    }
}

/// Required languages ignore case and surrounding spaces: a release whose
/// language equals one of the profile's words, trimmed and lower-cased,
/// meets the language requirement, so it is scored whenever the profile's
/// other hard constraints (minimum resolution, blocked groups, required
/// HDR) are met.
pub proof fn law_language_ignores_case(p: ParsedReleaseView, prof: QualityProfile, i: int)
    requires
        0 <= i < prof.languages@.len(),
        p.language matches Some(l) && l.len() > 0 && unicode_lowercase(trim(prof.languages@[i]@)) == l,
    ensures
        (p.resolution == Resolution::Unknown || p.resolution.rank_spec()
            >= prof.min_resolution.rank_spec()) && !(p.group matches Some(g) && group_listed(
            prof.blocked_groups@,
            g,
        )) && !(prof.hdr == HdrPref::Require && !p.hdr && !p.dv) ==> score_spec(p, prof) is Some,
{
    let l = p.language.unwrap();
    lemma_contains_self(l);
    assert(language_admits(prof.languages@[i]@, l));
}

/// A required language admits a release whose language contains the
/// profile word (trimmed, lower-cased, non-empty) or is contained in it,
/// so such a release is scored whenever the profile's other hard
/// constraints are met.
pub proof fn law_language_word_admits(p: ParsedReleaseView, prof: QualityProfile, i: int)
    requires
        0 <= i < prof.languages@.len(),
        p.language is Some,
        ({
            let w = unicode_lowercase(trim(prof.languages@[i]@));
            w.len() > 0 && (contains(p.language.unwrap(), w) || contains(w, p.language.unwrap()))
        }),
    ensures
        (p.resolution == Resolution::Unknown || p.resolution.rank_spec()
            >= prof.min_resolution.rank_spec()) && !(p.group matches Some(g) && group_listed(
            prof.blocked_groups@,
            g,
        )) && !(prof.hdr == HdrPref::Require && !p.hdr && !p.dv) ==> score_spec(p, prof) is Some,
{
    assert(language_admits(prof.languages@[i]@, p.language.unwrap()));
}

/// A profile requiring languages rejects a release whose language neither
/// contains nor is contained in any of its words (trimmed, lower-cased and
/// non-empty).
pub proof fn law_language_rejects_others(p: ParsedReleaseView, prof: QualityProfile)
    requires
        prof.languages@.len() > 0,
        p.language is Some,
        forall|i: int|
            0 <= i < prof.languages@.len() ==> {
                let w = unicode_lowercase(trim((#[trigger] prof.languages@[i])@));
                w.len() == 0 || (!contains(p.language.unwrap(), w) && !contains(w, p.language.unwrap()))
            },
    ensures
        score_spec(p, prof) is None,
{
    assert(!language_ok(prof.languages@, p.language)) by {
        if language_ok(prof.languages@, p.language) {
            let i = choose|i: int| 0 <= i < prof.languages@.len() && language_admits((#[trigger] prof.languages@[i])@, p.language.unwrap());
            assert(language_admits(prof.languages@[i]@, p.language.unwrap()));
        }
    }
}

/// Score a release against a profile. `None` = unacceptable (fails a hard
/// constraint). Higher is better.
pub fn score(p: &ParsedRelease, prof: &QualityProfile) -> (r: Option<i64>)
    ensures
        match r {
            Some(s) => score_spec(p@, *prof) == Some(s as int),
            None => score_spec(p@, *prof) is None,
        },
{
    if p.resolution != Resolution::Unknown && p.resolution.rank() < prof.min_resolution.rank() {
        return None;
    }
    match &p.group {
        Some(g) => {
            if in_group_list(&prof.blocked_groups, g.as_str()) {
                return None;
            }
        },
        None => {},
    }
    if prof.languages.len() > 0 {
        match &p.language {
            Some(lang) => {
                if !language_matches(&prof.languages, lang.as_str()) {
                    return None;
                }
            },
            None => {},
        }
    }
    if prof.hdr == HdrPref::Require && !p.hdr && !p.dv {
        return None;
    }
    let mut s: i64 = p.resolution.rank() * 10_000 + p.source.rank() * 100;
    if (p.hdr || p.dv) && prof.hdr != HdrPref::Ignore {
        s += 2_000;
    }
    if p.dv {
        s += 50;
    }
    let preferred = match &p.group {
        Some(g) => in_group_list(&prof.preferred_groups, g.as_str()),
        None => false,
    };
    if preferred {
        s += 300;
    }
    if p.proper {
        s += 20;
    }
    if p.repack {
        s += 10;
    }
    Some(s)
}

/// Score at/above which a grabbed release is "good enough": no further
/// upgrade is sought. Mirrors `score`'s weighting for resolution and HDR.
pub fn cutoff_score(prof: &QualityProfile) -> (r: i64)
    ensures
        r == cutoff_spec(*prof),
{
    let mut s: i64 = prof.cutoff_resolution.rank() * 10_000;
    if prof.hdr != HdrPref::Ignore {
        s += 2_000;
    }
    s
}

// ---------------------------------------------------------------------------
// laws
// ---------------------------------------------------------------------------

proof fn lemma_points_bounds(p: ParsedReleaseView, prof: QualityProfile)
    ensures
        p.resolution.rank_spec() * 10_000 <= points(p, prof),
        points(p, prof) <= p.resolution.rank_spec() * 10_000 + 2_980,
{
}

/// Resolution dominates: between two acceptable releases, the one with the
/// higher resolution always scores higher.
pub proof fn law_resolution_dominates(a: ParsedReleaseView, b: ParsedReleaseView, prof: QualityProfile)
    requires
        score_spec(a, prof) is Some,
        score_spec(b, prof) is Some,
        a.resolution.rank_spec() > b.resolution.rank_spec(),
    ensures
        score_spec(a, prof).unwrap() > score_spec(b, prof).unwrap(),
{
    lemma_points_bounds(a, prof);
    lemma_points_bounds(b, prof);
}

/// HDR is a strong secondary preference: at equal resolution, when the
/// profile does not ignore HDR, an acceptable HDR/DV release beats an
/// acceptable SDR one whatever their source, group or proper/repack tags.
pub proof fn law_hdr_preferred(a: ParsedReleaseView, b: ParsedReleaseView, prof: QualityProfile)
    requires
        score_spec(a, prof) is Some,
        score_spec(b, prof) is Some,
        a.resolution == b.resolution,
        a.hdr || a.dv,
        !b.hdr && !b.dv,
        prof.hdr != HdrPref::Ignore,
    ensures
        score_spec(a, prof).unwrap() > score_spec(b, prof).unwrap(),
{
}

/// The cutoff mirrors the score: an acceptable release below the cutoff
/// resolution always scores under the cutoff, and one at or above it (with
/// HDR when the profile cares about HDR) always reaches it.
pub proof fn law_cutoff_mirrors_score(p: ParsedReleaseView, prof: QualityProfile)
    requires
        score_spec(p, prof) is Some,
    ensures
        p.resolution.rank_spec() < prof.cutoff_resolution.rank_spec() ==> score_spec(p, prof).unwrap()
            < cutoff_spec(prof),
        p.resolution.rank_spec() >= prof.cutoff_resolution.rank_spec() && (p.hdr || p.dv
            || prof.hdr == HdrPref::Ignore) ==> score_spec(p, prof).unwrap() >= cutoff_spec(prof),
{
    lemma_points_bounds(p, prof);
}

/// A profile that requires HDR rejects every release without HDR or DV.
pub proof fn law_require_hdr_rejects_sdr(p: ParsedReleaseView, prof: QualityProfile)
    requires
        prof.hdr == HdrPref::Require,
        !p.hdr,
        !p.dv,
    ensures
        score_spec(p, prof) is None,
{
}

} // verus!
