//! What the settings, feeds and wanted pages make of their form fields
//! before a request is sent, and the one-shot effects of a torrent row.

use vstd::prelude::*;

use crate::engine::{split_chars, split_on, views};
use crate::text::{
    parse_u32, parse_unsigned, parse_usize, push_str, str_chars, string_from_chars, trim,
    trim_chars,
};
use crate::types::{
    strings_view, Category, HdrPref, Indexer, MediaKind, QualityProfile, Resolution, RssFeed,
    TorrentState,
};

verus! {

// ---------------------------------------------------------------------------
// selector fields
// ---------------------------------------------------------------------------

/// A selector's index: the text parsed as `usize`, else `default`, then
/// clamped to the last option.
pub open spec fn option_index(text: Seq<char>, default: int, count: int) -> int {
    let i = match parse_unsigned(text, usize::MAX as int) {
        Some(v) => v,
        None => default,
    };
    if i < count - 1 {
        i
    } else {
        count - 1
    }
}

fn pick_index(text: &str, default: usize, count: usize) -> (r: usize)
    requires
        count >= 1,
    ensures
        r == option_index(text@, default as int, count as int),
{
    let i = match parse_usize(str_chars(text).as_slice()) {
        Some(v) => v,
        None => default,
    };
    if i < count - 1 {
        i
    } else {
        count - 1
    }
}

pub open spec fn resolution_of(i: int) -> Resolution {
    if i == 0 {
        Resolution::Unknown
    } else if i == 1 {
        Resolution::R480
    } else if i == 2 {
        Resolution::R720
    } else if i == 3 {
        Resolution::R1080
    } else {
        Resolution::R2160
    }
}

/// The resolution chosen in a resolution selector (unparsable: the first).
pub fn resolution_at(text: &str) -> (r: Resolution)
    ensures
        r == resolution_of(option_index(text@, 0, 5)),
{
    match pick_index(text, 0, 5) {
        0 => Resolution::Unknown,
        1 => Resolution::R480,
        2 => Resolution::R720,
        3 => Resolution::R1080,
        _ => Resolution::R2160,
    }
}

pub open spec fn hdr_of(i: int) -> HdrPref {
    if i == 0 {
        HdrPref::Ignore
    } else if i == 1 {
        HdrPref::Prefer
    } else {
        HdrPref::Require
    }
}

/// The HDR preference chosen in its selector (unparsable: `Prefer`).
pub fn hdr_at(text: &str) -> (r: HdrPref)
    ensures
        r == hdr_of(option_index(text@, 1, 3)),
{
    match pick_index(text, 1, 3) {
        0 => HdrPref::Ignore,
        1 => HdrPref::Prefer,
        _ => HdrPref::Require,
    }
}

pub open spec fn kind_of(i: int) -> MediaKind {
    if i == 0 {
        MediaKind::Movie
    } else if i == 1 {
        MediaKind::Tv
    } else {
        MediaKind::Other
    }
}

/// The media kind chosen in the category selector (unparsable: `Other`).
pub fn kind_at(text: &str) -> (r: MediaKind)
    ensures
        r == kind_of(option_index(text@, 2, 3)),
{
    match pick_index(text, 2, 3) {
        0 => MediaKind::Movie,
        1 => MediaKind::Tv,
        _ => MediaKind::Other,
    }
}

/// A numeric field: the trimmed text parsed as `u32`, else `default`.
pub open spec fn number_field(text: Seq<char>, default: int) -> int {
    match parse_unsigned(trim(text), u32::MAX as int) {
        Some(v) => v,
        None => default,
    }
}

/// The feed poll interval typed in: at least one minute, 15 when unparsable.
pub fn poll_mins_input(text: &str) -> (r: u32)
    ensures
        r == (if number_field(text@, 15) >= 1 {
            number_field(text@, 15)
        } else {
            1
        }),
{
    let m = match parse_u32(trim_chars(str_chars(text).as_slice()).as_slice()) {
        Some(v) => v,
        None => 15,
    };
    if m >= 1 {
        m
    } else {
        1
    }
}

/// The download queue limit typed in; empty or invalid means 0 (no limit).
pub fn max_active_input(text: &str) -> (r: u32)
    ensures
        r == number_field(text@, 0),
{
    match parse_u32(trim_chars(str_chars(text).as_slice()).as_slice()) {
        Some(v) => v,
        None => 0,
    }
}

// ---------------------------------------------------------------------------
// drafts
// ---------------------------------------------------------------------------

/// The non-blank trimmed pieces of a comma-separated list, in order.
pub open spec fn list_items(pieces: Seq<Seq<char>>) -> Seq<Seq<char>>
    decreases pieces.len(),
{
    if pieces.len() == 0 {
        Seq::empty()
    } else if trim(pieces.last()).len() > 0 {
        list_items(pieces.drop_last()).push(trim(pieces.last()))
    } else {
        list_items(pieces.drop_last())
    }
}

pub fn comma_list(text: &str) -> (r: Vec<String>)
    ensures
        strings_view(r@) == list_items(split_on(text@, ',')),
{
    let pieces = split_chars(str_chars(text).as_slice(), ',');
    let mut out: Vec<String> = Vec::new();
    let mut k: usize = 0;
    assert(views(pieces@).subrange(0, 0) =~= Seq::<Seq<char>>::empty());
    assert(strings_view(out@) =~= Seq::<Seq<char>>::empty());
    while k < pieces.len()
        invariant
            k <= pieces.len(),
            views(pieces@) == split_on(text@, ','),
            strings_view(out@) == list_items(views(pieces@).subrange(0, k as int)),
        decreases pieces.len() - k,
    {
        let ghost pre = views(pieces@).subrange(0, k + 1);
        assert(pre.drop_last() =~= views(pieces@).subrange(0, k as int));
        assert(pre.last() == pieces@[k as int]@);
        let t = trim_chars(pieces[k].as_slice());
        if t.len() > 0 {
            let ghost before = strings_view(out@);
            let s = string_from_chars(t.as_slice());
            out.push(s);
            assert(strings_view(out@) =~= before.push(t@));
        }
        k += 1;
    }
    assert(views(pieces@).subrange(0, k as int) =~= views(pieces@));
    out
}

fn trimmed(s: &str) -> (r: String)
    ensures
        r@ == trim(s@),
{
    string_from_chars(trim_chars(str_chars(s).as_slice()).as_slice())
}

fn text(lit: &str) -> (r: String)
    ensures
        r@ == lit@,
{
    string_from_chars(str_chars(lit).as_slice())
}

/// A new quality profile from the form: a name is required; languages are
/// the non-blank comma-separated entries; no group lists yet.
pub fn profile_draft(
    name: &str,
    min_resolution: Resolution,
    cutoff_resolution: Resolution,
    hdr: HdrPref,
    languages: &str,
    upgrade_allowed: bool,
) -> (r: Result<QualityProfile, String>)
    ensures
        trim(name@).len() == 0 <==> r is Err,
        r matches Err(m) ==> m@ == "Profile name is required."@,
        r matches Ok(p) ==> {
            &&& p.id@.len() == 0
            &&& p.name@ == trim(name@)
            &&& p.min_resolution == min_resolution
            &&& p.cutoff_resolution == cutoff_resolution
            &&& p.hdr == hdr
            &&& strings_view(p.languages@) == list_items(split_on(languages@, ','))
            &&& p.preferred_groups@.len() == 0
            &&& p.blocked_groups@.len() == 0
            &&& p.upgrade_allowed == upgrade_allowed
        },
{
    let n = trimmed(name);
    if n.as_str().is_empty() {
        return Err(text("Profile name is required."));
    }
    Ok(
        QualityProfile {
            id: String::new(),
            name: n,
            min_resolution,
            cutoff_resolution,
            hdr,
            languages: comma_list(languages),
            preferred_groups: Vec::new(),
            blocked_groups: Vec::new(),
            upgrade_allowed,
        },
    )
}

/// A new category from the form: a name is required; the sub-folder is
/// trimmed (the server defaults a blank one to the name).
pub fn category_draft(name: &str, subdir: &str, kind: MediaKind) -> (r: Result<Category, String>)
    ensures
        trim(name@).len() == 0 <==> r is Err,
        r matches Err(m) ==> m@ == "Category name is required."@,
        r matches Ok(c) ==> c.slug@.len() == 0 && c.name@ == trim(name@) && c.subdir@ == trim(
            subdir@,
        ) && c.kind == kind,
{
    let n = trimmed(name);
    if n.as_str().is_empty() {
        return Err(text("Category name is required."));
    }
    Ok(Category { slug: String::new(), name: n, subdir: trimmed(subdir), kind })
}

/// An indexer from the form, every field trimmed, enabled.
pub fn indexer_draft(name: &str, url: &str, api_key: &str) -> (r: Indexer)
    ensures
        r.id@.len() == 0,
        r.name@ == trim(name@),
        r.torznab_url@ == trim(url@),
        r.api_key@ == trim(api_key@),
        r.enabled,
{
    Indexer {
        id: String::new(),
        name: trimmed(name),
        torznab_url: trimmed(url),
        api_key: trimmed(api_key),
        enabled: true,
    }
}

/// A feed from the form: name and URL trimmed, the selections as chosen,
/// enabled.
pub fn feed_draft(name: &str, url: &str, category: String, profile: String, auto_download: bool) -> (r:
    RssFeed)
    ensures
        r.id@.len() == 0,
        r.name@ == trim(name@),
        r.url@ == trim(url@),
        r.category == category,
        r.quality_profile == profile,
        r.auto_download == auto_download,
        r.enabled,
{
    RssFeed {
        id: String::new(),
        name: trimmed(name),
        url: trimmed(url),
        category,
        quality_profile: profile,
        auto_download,
        enabled: true,
    }
}

/// The poster thumbnail's address, when the hit has a non-blank poster path.
pub fn poster_url(poster: Option<&str>) -> (r: Option<String>)
    ensures
        match poster {
            Some(p) => if trim(p@).len() > 0 {
                r matches Some(u) && u@ == "https://image.tmdb.org/t/p/w92"@ + p@
            } else {
                r is None
            },
            None => r is None,
        },
{
    match poster {
        Some(p) => {
            let t = trim_chars(str_chars(p).as_slice());
            if t.len() > 0 {
                let mut out: Vec<char> = Vec::new();
                push_str(&mut out, "https://image.tmdb.org/t/p/w92");
                push_str(&mut out, p);
                Some(string_from_chars(out.as_slice()))
            } else {
                None
            }
        },
        None => None,
    }
}

/// The one-line summary a quality profile is listed with:
/// `min → cutoff · HDR pref`, then ` · upgrades` when upgrades are allowed.
pub open spec fn profile_summary_spec(p: QualityProfile) -> Seq<char> {
    p.min_resolution.label_spec() + " → "@ + p.cutoff_resolution.label_spec() + " · HDR "@
        + p.hdr.label_spec() + if p.upgrade_allowed {
        " · upgrades"@
    } else {
        Seq::<char>::empty()
    }
}

pub fn profile_summary(p: &QualityProfile) -> (r: String)
    ensures
        r@ == profile_summary_spec(*p),
{
    let mut out: Vec<char> = Vec::new();
    push_str(&mut out, p.min_resolution.label());
    push_str(&mut out, " → ");
    push_str(&mut out, p.cutoff_resolution.label());
    push_str(&mut out, " · HDR ");
    push_str(&mut out, p.hdr.label());
    if p.upgrade_allowed {
        push_str(&mut out, " · upgrades");
    }
    proof {
        if !p.upgrade_allowed {
            assert(out@ =~= profile_summary_spec(*p));
        }
    }
    string_from_chars(out.as_slice())
}

// ---------------------------------------------------------------------------
// add panel
// ---------------------------------------------------------------------------

/// The add button works with a non-blank source or a chosen `.torrent`.
pub fn can_add(source: &str, has_file: bool) -> (r: bool)
    ensures
        r == (trim(source@).len() > 0 || has_file),
{
    trim_chars(str_chars(source).as_slice()).len() > 0 || has_file
}

/// The chosen file indices in ascending order. The selection is a set, so
/// an index chosen twice is listed once.
pub fn selection_order(v: Vec<usize>) -> (r: Vec<usize>)
    ensures
        forall|y: usize| r@.contains(y) <==> v@.contains(y),
        forall|i: int, j: int| 0 <= i < j < r@.len() ==> r@[i] < r@[j],
{
    let mut out: Vec<usize> = Vec::new();
    let mut i: usize = 0;
    while i < v.len()
        invariant
            i <= v@.len(),
            forall|y: usize| out@.contains(y) <==> v@.subrange(0, i as int).contains(y),
            forall|a: int, b: int| 0 <= a < b < out@.len() ==> out@[a] < out@[b],
        decreases v@.len() - i,
    {
        let x = v[i];
        let mut p: usize = 0;
        while p < out.len() && out[p] < x
            invariant
                p <= out@.len(),
                forall|a: int| 0 <= a < p ==> out@[a] < x,
            decreases out@.len() - p,
        {
            p += 1;
        }
        let ghost before = out@;
        let ghost seen = v@.subrange(0, i as int);
        proof {
            assert(v@.subrange(0, i + 1) =~= seen.push(x));
            assert forall|y: usize| seen.push(x).contains(y) <==> (seen.contains(y) || y == x) by {
                if seen.push(x).contains(y) {
                    let k = choose|k: int| 0 <= k < seen.push(x).len() && seen.push(x)[k] == y;
                    if k < seen.len() {
                        assert(seen[k] == y);
                    }
                }
                if seen.contains(y) {
                    let k = choose|k: int| 0 <= k < seen.len() && seen[k] == y;
                    assert(seen.push(x)[k] == y);
                }
                if y == x {
                    assert(seen.push(x)[seen.len() as int] == y);
                }
            }
        }
        if p < out.len() && out[p] == x {
            proof {
                assert(before[p as int] == x);
                assert(before.contains(x));
                assert forall|y: usize| out@.contains(y) <==> v@.subrange(0, i + 1).contains(y) by {
                    assert(out@.contains(y) <==> seen.contains(y));
                }
            }
        } else {
            out.insert(p, x);
            proof {
                assert(out@ == before.insert(p as int, x));
                assert forall|y: usize| out@.contains(y) <==> (before.contains(y) || y == x) by {
                    if out@.contains(y) {
                        let k = choose|k: int| 0 <= k < out@.len() && out@[k] == y;
                        if k < p {
                            assert(before[k] == y);
                        } else if k > p {
                            assert(before[k - 1] == y);
                        }
                    }
                    if before.contains(y) {
                        let k = choose|k: int| 0 <= k < before.len() && before[k] == y;
                        if k < p {
                            assert(out@[k] == y);
                        } else {
                            assert(out@[k + 1] == y);
                        }
                    }
                    if y == x {
                        assert(out@[p as int] == y);
                    }
                }
                assert forall|y: usize| out@.contains(y) <==> v@.subrange(0, i + 1).contains(y) by {
                    assert(before.contains(y) <==> seen.contains(y));
                }
                assert forall|a: int, b: int| 0 <= a < b < out@.len() implies out@[a] < out@[b] by {
                    if b < p {
                        assert(out@[a] == before[a] && out@[b] == before[b]);
                    } else if b == p {
                        assert(out@[a] == before[a]);
                    } else if a == p {
                        assert(out@[b] == before[b - 1]);
                        assert(before[p as int] != x && !(before[p as int] < x));
                        if b - 1 > p {
                            assert(before[p as int] < before[b - 1]);
                        }
                    } else if a < p {
                        assert(out@[a] == before[a] && out@[b] == before[b - 1]);
                    } else {
                        assert(out@[a] == before[a - 1] && out@[b] == before[b - 1]);
                    }
                }
            }
        }
        i += 1;
    }
    assert(v@.subrange(0, i as int) =~= v@);
    out
}

// ---------------------------------------------------------------------------
// torrent row effects
// ---------------------------------------------------------------------------

/// A one-shot effect of a torrent row.
#[derive(Clone, Copy, Debug, PartialEq, Eq, Structural)]
pub enum RowEffect {
    Nothing,
    /// The "materialize" glitch: on first appearance, and on an error.
    Glitch,
    /// The completion burst: only for a genuine completion.
    Burst,
}

pub open spec fn row_effect_spec(prev: Option<TorrentState>, cur: TorrentState) -> RowEffect {
    match prev {
        None => RowEffect::Glitch,
        Some(p) => if p != cur {
            if cur == TorrentState::Finished && (p == TorrentState::Live || p
                == TorrentState::Initializing) {
                RowEffect::Burst
            } else if cur == TorrentState::Error {
                RowEffect::Glitch
            } else {
                RowEffect::Nothing
            }
        } else {
            RowEffect::Nothing
        },
    }
}

/// The effect when a row's state goes from `prev` (none on first render)
/// to `cur`: a resume from paused into finished is no completion.
pub fn row_effect(prev: Option<TorrentState>, cur: TorrentState) -> (r: RowEffect)
    ensures
        r == row_effect_spec(prev, cur),
{
    match prev {
        None => RowEffect::Glitch,
        Some(p) => {
            if p != cur {
                match cur {
                    TorrentState::Finished => if matches!(p, TorrentState::Live | TorrentState::Initializing) {
                        RowEffect::Burst
                    } else {
                        RowEffect::Nothing
                    },
                    TorrentState::Error => RowEffect::Glitch,
                    _ => RowEffect::Nothing,
                }
            } else {
                RowEffect::Nothing
            }
        },
    }
}

/// A state that does not change never triggers an effect after the first render.
pub proof fn law_steady_state_is_quiet(s: TorrentState)
    ensures
        row_effect_spec(Some(s), s) == RowEffect::Nothing,
{
}

} // verus!
