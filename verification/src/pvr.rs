//! The decisions of the PVR layer: stable ids for user-defined records,
//! validation of categories / profiles / indexers / feeds, choosing the best
//! acceptable release for a wanted title, the grab / upgrade rule, and the
//! feed poller's per-item rule. Storage, network and the engine stay with
//! the caller, which hands in what they returned.

use vstd::prelude::*;

use crate::ext::release_name_parsable;
use crate::quality::{
    cutoff_score, cutoff_spec, parse_release, parse_release_spec, release_name_ok, score,
    score_spec,
};
use crate::scan::{extract_se, extract_se_spec, or_opt};
use crate::text::{
    occurs_at, contains, contains_chars, decimal, decimal_pad2, extend_chars, fmt_pad2, fmt_u64, parse_u64,
    parse_unsigned, str_chars, str_to_lowercase, string_from_chars, trim, trim_chars, trim_string,
    unicode_alphanumeric, unicode_lowercase, char_is_alphanumeric, is_ascii_seq, is_ascii_char,
    std_ascii_facts, lower_seq, lower_char, is_digit, ascii_alnum, is_ws,
};
use crate::types::{
    norm_title, norm_title_spec, show_has, strings_view, Category, Indexer, Library, QualityProfile, Release,
    ReleaseView, RssFeed,
};
use vstd::string::StringExecFns;

verus! {

// ---------------------------------------------------------------------------
// slugs
// ---------------------------------------------------------------------------

/// Keep alphanumerics, turn every run of anything else into one `-`;
/// scanning from the left with the output so far and whether it ends in `-`.
pub open spec fn slug_from(s: Seq<char>, out: Seq<char>, dash: bool) -> Seq<char>
    decreases s.len(),
{
    if s.len() == 0 {
        out
    } else if unicode_alphanumeric(s[0]) {
        slug_from(s.drop_first(), out.push(s[0]), false)
    } else if !dash {
        slug_from(s.drop_first(), out.push('-'), true)
    } else {
        slug_from(s.drop_first(), out, true)
    }
}

/// Drop leading `-`s.
pub open spec fn trim_dash_start(s: Seq<char>) -> Seq<char>
    decreases s.len(),
{
    if s.len() > 0 && s[0] == '-' {
        trim_dash_start(s.drop_first())
    } else {
        s
    }
}

/// Drop trailing `-`s.
pub open spec fn trim_dash_end(s: Seq<char>) -> Seq<char>
    decreases s.len(),
{
    if s.len() > 0 && s.last() == '-' {
        trim_dash_end(s.drop_last())
    } else {
        s
    }
}

/// Lowercase alphanumeric slug with single hyphen separators.
pub open spec fn slugify_spec(s: Seq<char>) -> Seq<char> {
    trim_dash_end(trim_dash_start(slug_from(unicode_lowercase(trim(s)), Seq::empty(), false)))
}

proof fn lemma_trim_dash_start_skip(s: Seq<char>, i: int)
    requires
        0 <= i <= s.len(),
        forall|j: int| 0 <= j < i ==> #[trigger] s[j] == '-',
    ensures
        trim_dash_start(s) == trim_dash_start(s.subrange(i, s.len() as int)),
    decreases i,
{
    if i > 0 {
        assert(s.drop_first().subrange(i - 1, s.drop_first().len() as int) =~= s.subrange(
            i,
            s.len() as int,
        ));
        lemma_trim_dash_start_skip(s.drop_first(), i - 1);
    } else {
        assert(s.subrange(0, s.len() as int) =~= s);
    }
}

proof fn lemma_trim_dash_end_skip(s: Seq<char>, k: int)
    requires
        0 <= k <= s.len(),
        forall|j: int| k <= j < s.len() ==> #[trigger] s[j] == '-',
    ensures
        trim_dash_end(s) == trim_dash_end(s.subrange(0, k)),
    decreases s.len() - k,
{
    if k < s.len() {
        assert(s.drop_last().subrange(0, k) =~= s.subrange(0, k));
        lemma_trim_dash_end_skip(s.drop_last(), k);
    } else {
        assert(s.subrange(0, k) =~= s);
    }
}

/// The characters of `s` without leading and trailing `-` (`trim_matches('-')`).
fn trim_dashes(s: &Vec<char>) -> (r: Vec<char>)
    ensures
        r@ == trim_dash_end(trim_dash_start(s@)),
{
    let mut i: usize = 0;
    while i < s.len() && s[i] == '-'
        invariant
            i <= s.len(),
            forall|j: int| 0 <= j < i ==> #[trigger] s@[j] == '-',
        decreases s.len() - i,
    {
        i += 1;
    }
    proof {
        lemma_trim_dash_start_skip(s@, i as int);
        let t = s@.subrange(i as int, s.len() as int);
        if t.len() > 0 {
            assert(t[0] == s@[i as int]);
        }
    }
    let mut k: usize = s.len();
    while k > i && s[k - 1] == '-'
        invariant
            i <= k <= s.len(),
            forall|j: int| k <= j < s.len() ==> #[trigger] s@[j] == '-',
        decreases k,
    {
        k -= 1;
    }
    proof {
        let t = s@.subrange(i as int, s.len() as int);
        assert forall|j: int| (k - i) <= j < t.len() implies #[trigger] t[j] == '-' by {
            assert(t[j] == s@[j + i]);
        }
        lemma_trim_dash_end_skip(t, k - i);
        let u = t.subrange(0, k - i);
        assert(u =~= s@.subrange(i as int, k as int));
        if u.len() > 0 {
            assert(u.last() == s@[k - 1]);
        }
    }
    crate::text::slice_range(s.as_slice(), i, k)
}

/// Lowercase alphanumeric slug with single hyphen separators.
pub fn slugify(s: &str) -> (r: String)
    ensures
        r@ == slugify_spec(s@),
{
    let t = trim_string(s);
    let low = str_to_lowercase(t.as_str());
    let v = str_chars(low.as_str());
    let mut out: Vec<char> = Vec::new();
    let mut dash = false;
    let mut i: usize = 0;
    assert(v@.subrange(0, v.len() as int) =~= v@);
    while i < v.len()
        invariant
            i <= v.len(),
            v@ == unicode_lowercase(trim(s@)),
            slug_from(v@.subrange(i as int, v.len() as int), out@, dash) == slug_from(
                v@,
                Seq::empty(),
                false,
            ),
        decreases v.len() - i,
    {
        let ghost rest = v@.subrange(i as int, v.len() as int);
        assert(rest.drop_first() =~= v@.subrange(i + 1, v.len() as int));
        let ch = v[i];
        if char_is_alphanumeric(ch) {
            out.push(ch);
            dash = false;
        } else if !dash {
            out.push('-');
            dash = true;
        }
        i += 1;
    }
    assert(v@.subrange(i as int, v.len() as int) =~= Seq::<char>::empty());
    let trimmed = trim_dashes(&out);
    string_from_chars(trimmed.as_slice())
}

/// Every character is alphanumeric or `-`, and no `-` leads or ends.
pub open spec fn is_slug_shaped(s: Seq<char>) -> bool {
    &&& forall|i: int| 0 <= i < s.len() ==> unicode_alphanumeric(#[trigger] s[i]) || s[i] == '-'
    &&& (s.len() > 0 ==> s[0] != '-' && s.last() != '-')
}

/// No two `-` are adjacent.
pub open spec fn no_double_dash(s: Seq<char>) -> bool {
    forall|i: int| 0 <= i && i + 1 < s.len() ==> !(#[trigger] s[i] == '-' && s[i + 1] == '-')
}

/// The invariant of `slug_from`'s accumulator. A `-` can only sit next to
/// another if `-` itself counted as alphanumeric.
spec fn slug_acc_ok(out: Seq<char>, dash: bool) -> bool {
    &&& forall|i: int| 0 <= i < out.len() ==> unicode_alphanumeric(#[trigger] out[i]) || out[i] == '-'
    &&& forall|i: int| 0 <= i && i + 1 < out.len() ==> (#[trigger] out[i] == '-' && out[i + 1] == '-'
        ==> unicode_alphanumeric('-'))
    &&& (dash ==> out.len() > 0 && out.last() == '-')
    &&& (!dash && out.len() > 0 && out.last() == '-' ==> unicode_alphanumeric('-'))
}

proof fn lemma_slug_from_shape(s: Seq<char>, out: Seq<char>, dash: bool)
    requires
        slug_acc_ok(out, dash),
    ensures
        slug_acc_ok(slug_from(s, out, dash), false) || slug_acc_ok(slug_from(s, out, dash), true),
    decreases s.len(),
{
    if s.len() == 0 {
    } else if unicode_alphanumeric(s[0]) {
        let o2 = out.push(s[0]);
        assert(slug_acc_ok(o2, false)) by {
            assert forall|i: int| 0 <= i && i + 1 < o2.len() implies (#[trigger] o2[i] == '-' && o2[i
                + 1] == '-' ==> unicode_alphanumeric('-')) by {
                if i + 1 == o2.len() - 1 {
                    assert(o2[i + 1] == s[0]);
                } else {
                    assert(o2[i] == out[i] && o2[i + 1] == out[i + 1]);
                }
            }
            assert forall|i: int| 0 <= i < o2.len() implies unicode_alphanumeric(#[trigger] o2[i])
                || o2[i] == '-' by {
                if i < out.len() {
                    assert(o2[i] == out[i]);
                }
            }
        }
        lemma_slug_from_shape(s.drop_first(), o2, false);
    } else if !dash {
        let o2 = out.push('-');
        assert(slug_acc_ok(o2, true)) by {
            assert forall|i: int| 0 <= i && i + 1 < o2.len() implies (#[trigger] o2[i] == '-' && o2[i
                + 1] == '-' ==> unicode_alphanumeric('-')) by {
                if i + 1 == o2.len() - 1 {
                    assert(o2[i] == out.last());
                } else {
                    assert(o2[i] == out[i] && o2[i + 1] == out[i + 1]);
                }
            }
            assert forall|i: int| 0 <= i < o2.len() implies unicode_alphanumeric(#[trigger] o2[i])
                || o2[i] == '-' by {
                if i < out.len() {
                    assert(o2[i] == out[i]);
                }
            }
        }
        lemma_slug_from_shape(s.drop_first(), o2, true);
    } else {
        lemma_slug_from_shape(s.drop_first(), out, true);
    }
}

proof fn lemma_trim_dash_start_sub(s: Seq<char>)
    ensures
        trim_dash_start(s).len() <= s.len(),
        trim_dash_start(s) == s.subrange(s.len() - trim_dash_start(s).len(), s.len() as int),
        trim_dash_start(s).len() > 0 ==> trim_dash_start(s)[0] != '-',
    decreases s.len(),
{
    if s.len() > 0 && s[0] == '-' {
        lemma_trim_dash_start_sub(s.drop_first());
        assert(s.drop_first().subrange(
            s.drop_first().len() - trim_dash_start(s).len(),
            s.drop_first().len() as int,
        ) =~= s.subrange(s.len() - trim_dash_start(s).len(), s.len() as int));
    } else {
        assert(s.subrange(0, s.len() as int) =~= s);
    }
}

proof fn lemma_trim_dash_end_sub(s: Seq<char>)
    ensures
        trim_dash_end(s).len() <= s.len(),
        trim_dash_end(s) == s.subrange(0, trim_dash_end(s).len() as int),
        trim_dash_end(s).len() > 0 ==> trim_dash_end(s).last() != '-',
    decreases s.len(),
{
    if s.len() > 0 && s.last() == '-' {
        lemma_trim_dash_end_sub(s.drop_last());
        assert(s.drop_last().subrange(0, trim_dash_end(s).len() as int) =~= s.subrange(
            0,
            trim_dash_end(s).len() as int,
        ));
    } else {
        assert(s.subrange(0, s.len() as int) =~= s);
    }
}

/// A slug is made of alphanumerics and hyphens, with no hyphen at either
/// end; since `-` is not alphanumeric, no two hyphens are adjacent either.
pub proof fn law_slug_shape(s: Seq<char>)
    ensures
        is_slug_shaped(slugify_spec(s)),
        !unicode_alphanumeric('-') ==> no_double_dash(slugify_spec(s)),
{
    let raw = slug_from(unicode_lowercase(trim(s)), Seq::empty(), false);
    lemma_slug_from_shape(unicode_lowercase(trim(s)), Seq::empty(), false);
    let a = trim_dash_start(raw);
    lemma_trim_dash_start_sub(raw);
    let b = trim_dash_end(a);
    lemma_trim_dash_end_sub(a);
    let off = raw.len() - a.len();
    assert forall|i: int| 0 <= i < b.len() implies unicode_alphanumeric(#[trigger] b[i]) || b[i]
        == '-' by {
        assert(b[i] == a[i]);
        assert(a[i] == raw[i + off]);
    }
    assert forall|i: int| 0 <= i && i + 1 < b.len() implies (#[trigger] b[i] == '-' && b[i + 1]
        == '-' ==> unicode_alphanumeric('-')) by {
        assert(b[i] == a[i] && b[i + 1] == a[i + 1]);
        assert(a[i] == raw[i + off]);
        assert(a[i + 1] == raw[i + 1 + off]);
    }
    if b.len() > 0 {
        assert(b[0] == a[0]);
    }
}

/// A character a slug of ASCII text can hold.
pub open spec fn is_slug_char(c: char) -> bool {
    ('a' <= c && c <= 'z') || is_digit(c) || c == '-'
}

/// Slug characters kept from `s` (those counted alphanumeric) together
/// with the accumulator's are all slug characters.
proof fn lemma_slug_from_chars(s: Seq<char>, out: Seq<char>, dash: bool)
    requires
        forall|i: int| 0 <= i < out.len() ==> is_slug_char(#[trigger] out[i]),
        forall|i: int| 0 <= i < s.len() && unicode_alphanumeric(#[trigger] s[i]) ==> is_slug_char(s[i]),
    ensures
        forall|i: int|
            0 <= i < slug_from(s, out, dash).len() ==> is_slug_char(#[trigger] slug_from(s, out, dash)[i]),
    decreases s.len(),
{
    if s.len() > 0 {
        let t = s.drop_first();
        assert forall|i: int| 0 <= i < t.len() && unicode_alphanumeric(#[trigger] t[i]) implies is_slug_char(t[i]) by {
            assert(t[i] == s[i + 1]);
        }
        if unicode_alphanumeric(s[0]) {
            let o2 = out.push(s[0]);
            assert forall|i: int| 0 <= i < o2.len() implies is_slug_char(#[trigger] o2[i]) by {
                if i < out.len() {
                    assert(o2[i] == out[i]);
                }
            }
            lemma_slug_from_chars(t, o2, false);
            assert(slug_from(s, out, dash) == slug_from(t, o2, false));
        } else if !dash {
            let o2 = out.push('-');
            assert forall|i: int| 0 <= i < o2.len() implies is_slug_char(#[trigger] o2[i]) by {
                if i < out.len() {
                    assert(o2[i] == out[i]);
                }
            }
            lemma_slug_from_chars(t, o2, true);
            assert(slug_from(s, out, dash) == slug_from(t, o2, true));
        } else {
            lemma_slug_from_chars(t, out, true);
            assert(slug_from(s, out, dash) == slug_from(t, out, true));
        }
    }
}

/// A run of slug characters with single separators passes through the
/// scan unchanged.
proof fn lemma_slug_from_fixed(t: Seq<char>, out: Seq<char>, dash: bool)
    requires
        std_ascii_facts(),
        forall|i: int| 0 <= i < t.len() ==> is_slug_char(#[trigger] t[i]),
        no_double_dash(t),
        dash && t.len() > 0 ==> t[0] != '-',
    ensures
        slug_from(t, out, dash) == out + t,
    decreases t.len(),
{
    if t.len() > 0 {
        let c = t[0];
        let u = t.drop_first();
        assert(is_slug_char(c));
        assert(is_ascii_char(c));
        assert(unicode_alphanumeric(c) == ascii_alnum(c));
        assert forall|i: int| 0 <= i < u.len() implies is_slug_char(#[trigger] u[i]) by {
            assert(u[i] == t[i + 1]);
        }
        assert forall|i: int| 0 <= i && i + 1 < u.len() implies !(#[trigger] u[i] == '-' && u[i + 1] == '-') by {
            assert(u[i] == t[i + 1] && u[i + 1] == t[i + 2]);
        }
        if c == '-' {
            if u.len() > 0 {
                assert(!(t[0] == '-' && t[1] == '-'));
                assert(u[0] == t[1]);
            }
            lemma_slug_from_fixed(u, out.push('-'), true);
        } else {
            lemma_slug_from_fixed(u, out.push(c), false);
        }
        assert(out.push(c) + u =~= out + t);
    } else {
        assert(out + t =~= out);
    }
}

/// Slugs of ASCII text are fixed points: they hold only lower-case ASCII
/// letters, digits and single `-` separators, never at either end, and
/// slugifying one gives it back. This rests on what std documents of
/// `char::is_alphanumeric` and `str::to_lowercase` on ASCII text.
pub proof fn law_slugify_idempotent(s: Seq<char>)
    requires
        is_ascii_seq(s),
        std_ascii_facts(),
    ensures
        forall|i: int| 0 <= i < slugify_spec(s).len() ==> is_slug_char(#[trigger] slugify_spec(s)[i]),
        no_double_dash(slugify_spec(s)),
        slugify_spec(s).len() > 0 ==> slugify_spec(s)[0] != '-' && slugify_spec(s).last() != '-',
        slugify_spec(slugify_spec(s)) == slugify_spec(s),
{
    let t = trim(s);
    crate::text::lemma_trim_ascii(s);
    assert(unicode_lowercase(t) == lower_seq(t));
    let low = lower_seq(t);
    assert forall|i: int| 0 <= i < low.len() && unicode_alphanumeric(#[trigger] low[i]) implies is_slug_char(low[i]) by {
        assert(low[i] == lower_char(t[i]));
        assert(is_ascii_char(t[i]));
        assert(is_ascii_char(low[i]));
        assert(unicode_alphanumeric(low[i]) == ascii_alnum(low[i]));
    }
    lemma_slug_from_chars(low, Seq::empty(), false);
    let raw = slug_from(low, Seq::empty(), false);
    let a = trim_dash_start(raw);
    lemma_trim_dash_start_sub(raw);
    let r = trim_dash_end(a);
    lemma_trim_dash_end_sub(a);
    assert(r == slugify_spec(s));
    let off = raw.len() - a.len();
    assert forall|i: int| 0 <= i < r.len() implies is_slug_char(#[trigger] r[i]) by {
        assert(r[i] == a[i]);
        assert(a[i] == raw[i + off]);
    }
    assert(is_ascii_char('-'));
    assert(!unicode_alphanumeric('-'));
    law_slug_shape(s);
    if r.len() > 0 {
        assert(r[0] == a[0]);
    }
    // slugifying `r` again
    assert forall|i: int| 0 <= i < r.len() implies is_ascii_char(#[trigger] r[i]) by {
        assert(is_slug_char(r[i]));
    }
    assert(is_ascii_seq(r));
    if r.len() > 0 {
        assert(is_slug_char(r[0]) && is_slug_char(r.last()));
    }
    crate::text::lemma_trim_noop(r);
    assert(unicode_lowercase(r) == lower_seq(r));
    assert(lower_seq(r) =~= r) by {
        assert forall|i: int| 0 <= i < r.len() implies lower_seq(r)[i] == r[i] by {
            assert(is_slug_char(r[i]));
        }
    }
    lemma_slug_from_fixed(r, Seq::empty(), false);
    assert(Seq::<char>::empty() + r =~= r);
    if r.len() > 0 {
        assert(trim_dash_start(r) == r);
        assert(trim_dash_end(r) == r);
    } else {
        assert(trim_dash_start(r) == r);
    }
}

// ---------------------------------------------------------------------------
// validation of user-defined records
// ---------------------------------------------------------------------------

/// Checked category: trimmed name, slug derived from it, sub-directory
/// defaulting to the name. The messages are the ones shown to the user.
pub open spec fn prepare_category_spec(c: Category) -> Result<(Seq<char>, Seq<char>, Seq<char>), Seq<char>> {
    let name = trim(c.name@);
    let slug = slugify_spec(name);
    let sub = trim(c.subdir@);
    if name.len() == 0 {
        Err("category name is required"@)
    } else if slug.len() == 0 {
        Err("category name must contain letters or digits"@)
    } else {
        Ok((name, slug, if sub.len() == 0 { name } else { sub }))
    }
}

/// Normalize a category before it is stored (its directory is made by the caller).
pub fn prepare_category(c: Category) -> (r: Result<Category, String>)
    ensures
        match r {
            Ok(k) => prepare_category_spec(c) == Ok::<_, Seq<char>>((k.name@, k.slug@, k.subdir@))
                && k.kind == c.kind,
            Err(m) => prepare_category_spec(c) == Err::<(Seq<char>, Seq<char>, Seq<char>), _>(m@),
        },
{
    let name = trim_string(c.name.as_str());
    if name.as_str().is_empty() {
        return Err(String::from_str("category name is required"));
    }
    let slug = slugify(name.as_str());
    if slug.as_str().is_empty() {
        return Err(String::from_str("category name must contain letters or digits"));
    }
    let sub = trim_string(c.subdir.as_str());
    let subdir = if sub.as_str().is_empty() {
        name.clone()
    } else {
        sub
    };
    Ok(Category { slug, name, subdir, kind: c.kind })
}

/// Checked quality profile: trimmed name and an id derived from it.
pub open spec fn prepare_profile_spec(p: QualityProfile) -> Result<(Seq<char>, Seq<char>), Seq<char>> {
    let name = trim(p.name@);
    let id = slugify_spec(name);
    if name.len() == 0 {
        Err("profile name is required"@)
    } else if id.len() == 0 {
        Err("profile name must contain letters or digits"@)
    } else {
        Ok((name, id))
    }
}

pub fn prepare_quality_profile(p: QualityProfile) -> (r: Result<QualityProfile, String>)
    ensures
        match r {
            Ok(k) => prepare_profile_spec(p) == Ok::<_, Seq<char>>((k.name@, k.id@))
                && k.min_resolution == p.min_resolution && k.cutoff_resolution
                == p.cutoff_resolution && k.hdr == p.hdr && k.languages == p.languages
                && k.preferred_groups == p.preferred_groups && k.blocked_groups
                == p.blocked_groups && k.upgrade_allowed == p.upgrade_allowed,
            Err(m) => prepare_profile_spec(p) == Err::<(Seq<char>, Seq<char>), _>(m@),
        },
{
    let name = trim_string(p.name.as_str());
    if name.as_str().is_empty() {
        return Err(String::from_str("profile name is required"));
    }
    let id = slugify(name.as_str());
    if id.as_str().is_empty() {
        return Err(String::from_str("profile name must contain letters or digits"));
    }
    Ok(QualityProfile { id, name, ..p })
}

/// Checked indexer: trimmed name, a Torznab URL, an id derived from the name.
pub open spec fn prepare_indexer_spec(i: Indexer) -> Result<(Seq<char>, Seq<char>), Seq<char>> {
    let name = trim(i.name@);
    let id = slugify_spec(name);
    if name.len() == 0 {
        Err("indexer name is required"@)
    } else if trim(i.torznab_url@).len() == 0 {
        Err("Torznab URL is required"@)
    } else if id.len() == 0 {
        Err("indexer name must contain letters or digits"@)
    } else {
        Ok((name, id))
    }
}

pub fn prepare_indexer(i: Indexer) -> (r: Result<Indexer, String>)
    ensures
        match r {
            Ok(k) => prepare_indexer_spec(i) == Ok::<_, Seq<char>>((k.name@, k.id@))
                && k.torznab_url == i.torznab_url && k.api_key == i.api_key && k.enabled
                == i.enabled,
            Err(m) => prepare_indexer_spec(i) == Err::<(Seq<char>, Seq<char>), _>(m@),
        },
{
    let name = trim_string(i.name.as_str());
    if name.as_str().is_empty() {
        return Err(String::from_str("indexer name is required"));
    }
    let url = trim_string(i.torznab_url.as_str());
    if url.as_str().is_empty() {
        return Err(String::from_str("Torznab URL is required"));
    }
    let id = slugify(name.as_str());
    if id.as_str().is_empty() {
        return Err(String::from_str("indexer name must contain letters or digits"));
    }
    Ok(Indexer { id, name, ..i })
}

/// Checked feed: trimmed name, a URL, an id derived from the name.
pub open spec fn prepare_feed_spec(f: RssFeed) -> Result<(Seq<char>, Seq<char>), Seq<char>> {
    let name = trim(f.name@);
    let id = slugify_spec(name);
    if name.len() == 0 {
        Err("feed name is required"@)
    } else if trim(f.url@).len() == 0 {
        Err("feed URL is required"@)
    } else if id.len() == 0 {
        Err("feed name must contain letters or digits"@)
    } else {
        Ok((name, id))
    }
}

pub fn prepare_feed(f: RssFeed) -> (r: Result<RssFeed, String>)
    ensures
        match r {
            Ok(k) => prepare_feed_spec(f) == Ok::<_, Seq<char>>((k.name@, k.id@)) && k.url == f.url
                && k.category == f.category && k.quality_profile == f.quality_profile
                && k.auto_download == f.auto_download && k.enabled == f.enabled,
            Err(m) => prepare_feed_spec(f) == Err::<(Seq<char>, Seq<char>), _>(m@),
        },
{
    let name = trim_string(f.name.as_str());
    if name.as_str().is_empty() {
        return Err(String::from_str("feed name is required"));
    }
    let url = trim_string(f.url.as_str());
    if url.as_str().is_empty() {
        return Err(String::from_str("feed URL is required"));
    }
    let id = slugify(name.as_str());
    if id.as_str().is_empty() {
        return Err(String::from_str("feed name must contain letters or digits"));
    }
    Ok(RssFeed { id, name, ..f })
}

// ---------------------------------------------------------------------------
// choosing a release for a wanted title
// ---------------------------------------------------------------------------

/// Does a parsed release title plausibly match the wanted title? Both must
/// normalize to something; then equal, one containing the other, or close
/// by the caller's fuzzy similarity verdict for the two normalized titles.
pub open spec fn title_match_spec(a: Seq<char>, b: Seq<char>, fuzzy: bool) -> bool {
    let na = norm_title_spec(a);
    let nb = norm_title_spec(b);
    na.len() > 0 && nb.len() > 0 && (na == nb || contains(na, nb) || contains(nb, na) || fuzzy)
}

pub fn title_matches(a: &str, b: &str, fuzzy: bool) -> (r: bool)
    ensures
        r == title_match_spec(a@, b@, fuzzy),
{
    let na_s = norm_title(a);
    let nb_s = norm_title(b);
    let na = str_chars(na_s.as_str());
    let nb = str_chars(nb_s.as_str());
    if na.len() == 0 || nb.len() == 0 {
        return false;
    }
    crate::sort::seq_eq(na.as_slice(), nb.as_slice()) || contains_chars(na.as_slice(), nb.as_slice())
        || contains_chars(nb.as_slice(), na.as_slice()) || fuzzy
}

/// The score a release earns as a candidate for a wanted title (and, for an
/// episode, that exact season/episode): the profile score, or its seeders
/// when no profile applies; `None` when it is not a candidate.
pub open spec fn candidate_spec(
    r: ReleaseView,
    fuzzy: bool,
    profile: Option<QualityProfile>,
    title: Seq<char>,
    season: Option<i32>,
    episode: Option<i32>,
) -> Option<int> {
    let p = parse_release_spec(r.title);
    if !title_match_spec(p.title, title, fuzzy) {
        None
    } else if season is Some && episode is Some && (p.season != season || p.episode != episode) {
        None
    } else {
        match profile {
            Some(prof) => score_spec(p, prof),
            None => Some(
                match r.seeders {
                    Some(n) => n as int,
                    None => 0,
                },
            ),
        }
    }
}

pub open spec fn cand_at(
    rs: Seq<Release>,
    fz: Seq<bool>,
    profile: Option<QualityProfile>,
    title: Seq<char>,
    season: Option<i32>,
    episode: Option<i32>,
    j: int,
) -> Option<int> {
    candidate_spec(rs[j]@, fz[j], profile, title, season, episode)
}

fn candidate(
    r: &Release,
    fuzzy: bool,
    profile: Option<&QualityProfile>,
    title: &str,
    season: Option<i32>,
    episode: Option<i32>,
) -> (c: Option<i64>)
    requires
        release_name_parsable(r.title@),
    ensures
        match c {
            Some(v) => candidate_spec(
                r@,
                fuzzy,
                match profile {
                    Some(p) => Some(*p),
                    None => None,
                },
                title@,
                season,
                episode,
            ) == Some(v as int),
            None => candidate_spec(
                r@,
                fuzzy,
                match profile {
                    Some(p) => Some(*p),
                    None => None,
                },
                title@,
                season,
                episode,
            ) is None,
        },
{
    let parsed = parse_release(r.title.as_str());
    if !title_matches(parsed.title.as_str(), title, fuzzy) {
        return None;
    }
    match (season, episode) {
        (Some(s), Some(e)) => {
            if parsed.season != Some(s) || parsed.episode != Some(e) {
                return None;
            }
        },
        _ => {},
    }
    match profile {
        Some(p) => score(&parsed, p),
        None => Some(
            match r.seeders {
                Some(n) => n as i64,
                None => 0,
            },
        ),
    }
}

/// Release `k` is the pick with score `sc`: a candidate with that score,
/// no candidate scores more, and none after it scores as much.
pub open spec fn picked(
    rs: Seq<Release>,
    fz: Seq<bool>,
    prof: Option<QualityProfile>,
    title: Seq<char>,
    season: Option<i32>,
    episode: Option<i32>,
    k: int,
    sc: int,
) -> bool {
    &&& 0 <= k < rs.len()
    &&& cand_at(rs, fz, prof, title, season, episode, k) == Some(sc)
    &&& forall|j: int|
        0 <= j < rs.len() && (#[trigger] cand_at(rs, fz, prof, title, season, episode, j)) is Some
            ==> cand_at(rs, fz, prof, title, season, episode, j).unwrap() <= sc
    &&& forall|j: int|
        k < j < rs.len() && (#[trigger] cand_at(rs, fz, prof, title, season, episode, j)) is Some
            ==> cand_at(rs, fz, prof, title, season, episode, j).unwrap() < sc
}

pub open spec fn opt_profile(profile: Option<&QualityProfile>) -> Option<QualityProfile> {
    match profile {
        Some(p) => Some(*p),
        None => None,
    }
}

/// Pick the highest-scoring acceptable release that matches the wanted title
/// (and, for episodes, the exact season/episode); among equal scores the
/// last one listed wins. `fuzzy[i]` is the caller's similarity verdict for
/// release `i`'s parsed title against the wanted one.
pub fn best_acceptable(
    releases: &Vec<Release>,
    fuzzy: &Vec<bool>,
    profile: Option<&QualityProfile>,
    title: &str,
    season: Option<i32>,
    episode: Option<i32>,
) -> (r: Option<(Release, i64)>)
    requires
        fuzzy@.len() == releases@.len(),
        forall|i: int| 0 <= i < releases@.len() ==> release_name_parsable((#[trigger] releases@[i]).title@),
    ensures
        r is None ==> forall|j: int|
            0 <= j < releases@.len() ==> #[trigger] cand_at(
                releases@,
                fuzzy@,
                opt_profile(profile),
                title@,
                season,
                episode,
                j,
            ) is None,
        r matches Some((rel, sc)) ==> exists|k: int|
            #[trigger] picked(releases@, fuzzy@, opt_profile(profile), title@, season, episode, k, sc as int)
                && rel@ == releases@[k]@,
        season is Some && episode is Some ==> (r matches Some((rel, sc)) ==> parse_release_spec(
            rel.title@,
        ).season == season && parse_release_spec(rel.title@).episode == episode),
{
    let ghost prof = match profile {
        Some(p) => Some(*p),
        None => None,
    };
    let mut best: Option<(Release, i64)> = None;
    let ghost mut bk: int = 0;
    let mut i: usize = 0;
    while i < releases.len()
        invariant
            i <= releases.len(),
            fuzzy@.len() == releases@.len(),
            prof == match profile {
                Some(p) => Some(*p),
                None => None,
            },
            forall|j: int| 0 <= j < releases@.len() ==> release_name_parsable((#[trigger] releases@[j]).title@),
            match best {
                None => forall|j: int|
                    0 <= j < i ==> #[trigger] cand_at(releases@, fuzzy@, prof, title@, season, episode, j)
                        is None,
                Some((rel, sc)) => 0 <= bk < i && rel@ == releases@[bk]@ && cand_at(
                    releases@,
                    fuzzy@,
                    prof,
                    title@,
                    season,
                    episode,
                    bk,
                ) == Some(sc as int) && (forall|j: int|
                    0 <= j < i && (#[trigger] cand_at(releases@, fuzzy@, prof, title@, season, episode, j))
                        is Some ==> cand_at(releases@, fuzzy@, prof, title@, season, episode, j).unwrap()
                        <= sc) && (forall|j: int|
                    bk < j < i && (#[trigger] cand_at(releases@, fuzzy@, prof, title@, season, episode, j))
                        is Some ==> cand_at(releases@, fuzzy@, prof, title@, season, episode, j).unwrap()
                        < sc),
            },
        decreases releases.len() - i,
    {
        let c = candidate(&releases[i], fuzzy[i], profile, title, season, episode);
        assert(c == match cand_at(releases@, fuzzy@, prof, title@, season, episode, i as int) {
            Some(v) => Some(v as i64),
            None => None::<i64>,
        });
        match c {
            Some(sc) => {
                let take = match &best {
                    Some((_, b)) => sc >= *b,
                    None => true,
                };
                if take {
                    best = Some((releases[i].duplicate(), sc));
                    proof {
                        bk = i as int;
                    }
                }
            },
            None => {},
        }
        i += 1;
    }
    proof {
        if best is Some {
            let rel = best.unwrap().0;
            let sc = best.unwrap().1;
            assert(rel@ == releases@[bk]@);
            assert(picked(releases@, fuzzy@, prof, title@, season, episode, bk, sc as int));
        }
    }
    best
}

/// Any name the name parser would panic on makes this `None`; otherwise
/// `Some` of what `best_acceptable` picks.
pub fn try_best_acceptable(
    releases: &Vec<Release>,
    fuzzy: &Vec<bool>,
    profile: Option<&QualityProfile>,
    title: &str,
    season: Option<i32>,
    episode: Option<i32>,
) -> (r: Option<Option<(Release, i64)>>)
    requires
        fuzzy@.len() == releases@.len(),
    ensures
        r is Some <==> forall|i: int|
            0 <= i < releases@.len() ==> release_name_parsable((#[trigger] releases@[i]).title@),
        r matches Some(inner) ==> (inner is None <==> forall|j: int|
            0 <= j < releases@.len() ==> #[trigger] cand_at(
                releases@,
                fuzzy@,
                opt_profile(profile),
                title@,
                season,
                episode,
                j,
            ) is None),
        r matches Some(inner) ==> (inner matches Some((rel, sc)) ==> exists|k: int|
            #[trigger] picked(releases@, fuzzy@, opt_profile(profile), title@, season, episode, k, sc as int)
                && rel@ == releases@[k]@),
{
    let mut i: usize = 0;
    while i < releases.len()
        invariant
            i <= releases.len(),
            forall|j: int| 0 <= j < i ==> release_name_parsable((#[trigger] releases@[j]).title@),
        decreases releases.len() - i,
    {
        if !release_name_ok(releases[i].title.as_str()) {
            return None;
        }
        i += 1;
    }
    Some(best_acceptable(releases, fuzzy, profile, title, season, episode))
}

// ---------------------------------------------------------------------------
// grab / upgrade rule
// ---------------------------------------------------------------------------

/// Whether the monitor searches at all: not when the item is on disk and was
/// never grabbed by the monitor (it is left alone).
pub fn needs_search(in_library: bool, current: Option<i64>) -> (r: bool)
    ensures
        r == !(in_library && current is None),
{
    !(in_library && current.is_none())
}

/// Whether to grab the best candidate (score `best`): always for a first
/// grab; an upgrade only when the profile allows upgrades, the current grab
/// is below the profile's cutoff and the candidate scores higher.
pub open spec fn should_grab_spec(current: Option<i64>, best: i64, profile: Option<QualityProfile>) -> bool {
    match current {
        None => true,
        Some(c) => match profile {
            Some(p) => p.upgrade_allowed && c < cutoff_spec(p) && best > c,
            None => false,
        },
    }
}

pub fn should_grab(current: Option<i64>, best: i64, profile: Option<&QualityProfile>) -> (r: bool)
    ensures
        r == should_grab_spec(
            current,
            best,
            match profile {
                Some(p) => Some(*p),
                None => None,
            },
        ),
{
    match current {
        None => true,
        Some(c) => {
            let allowed = match profile {
                Some(p) => p.upgrade_allowed,
                None => false,
            };
            let cutoff = match profile {
                Some(p) => cutoff_score(p),
                None => i64::MAX,
            };
            allowed && c < cutoff && best > c
        },
    }
}

/// Upgrades stop at the cutoff: once the current grab reaches the profile's
/// cutoff score, nothing is grabbed for it again; and an upgrade is only
/// ever to a strictly better score.
pub proof fn law_upgrade_stops_at_cutoff(current: i64, best: i64, profile: Option<QualityProfile>)
    ensures
        should_grab_spec(Some(current), best, profile) ==> best > current,
        (profile matches Some(p) && current >= cutoff_spec(p)) ==> !should_grab_spec(
            Some(current),
            best,
            profile,
        ),
        profile is None ==> !should_grab_spec(Some(current), best, profile),
{
}

// ---------------------------------------------------------------------------
// feed polling
// ---------------------------------------------------------------------------

/// Season and episode a feed item is about: the name parser's when it found
/// an episode, else completed by the fallback extractor.
pub open spec fn feed_se(title: Seq<char>) -> (Option<i32>, Option<i32>) {
    let p = parse_release_spec(title);
    if p.episode is Some {
        (p.season, p.episode)
    } else {
        let (s, e) = extract_se_spec(title);
        (or_opt(p.season, s), e)
    }
}

/// The feed poller's rule for one item: skip it when already grabbed, when
/// it is an episode already on disk, or when it fails the feed's profile;
/// otherwise grab it with its profile score (0 without a profile).
pub open spec fn feed_item_spec(
    title: Seq<char>,
    already_grabbed: bool,
    library: Library,
    profile: Option<QualityProfile>,
) -> Option<int> {
    let p = parse_release_spec(title);
    let (s, e) = feed_se(title);
    if already_grabbed {
        None
    } else if s is Some && e is Some && exists|i: int|
        0 <= i < library.shows@.len() && show_has(
            #[trigger] library.shows@[i],
            norm_title_spec(p.title),
            s.unwrap(),
            e.unwrap(),
        ) {
        None
    } else {
        match profile {
            Some(prof) => score_spec(p, prof),
            None => Some(0),
        }
    }
}

pub fn feed_item_decision(
    title: &str,
    already_grabbed: bool,
    library: &Library,
    profile: Option<&QualityProfile>,
) -> (r: Option<i64>)
    requires
        release_name_parsable(title@),
    ensures
        match r {
            Some(v) => feed_item_spec(
                title@,
                already_grabbed,
                *library,
                match profile {
                    Some(p) => Some(*p),
                    None => None,
                },
            ) == Some(v as int),
            None => feed_item_spec(
                title@,
                already_grabbed,
                *library,
                match profile {
                    Some(p) => Some(*p),
                    None => None,
                },
            ) is None,
        },
{
    if already_grabbed {
        return None;
    }
    let parsed = parse_release(title);
    let (season, episode) = if parsed.episode.is_some() {
        (parsed.season, parsed.episode)
    } else {
        let (s, e) = extract_se(title);
        (
            match parsed.season {
                Some(x) => Some(x),
                None => s,
            },
            e,
        )
    };
    match (season, episode) {
        (Some(s), Some(e)) => {
            if library.has_episode(parsed.title.as_str(), s, e) {
                return None;
            }
        },
        _ => {},
    }
    match profile {
        Some(prof) => score(&parsed, prof),
        None => Some(0),
    }
}

/// `feed_item_decision` for any title: `None` for a title the name parser
/// would panic on, else `Some` of the decision.
pub fn try_feed_item_decision(
    title: &str,
    already_grabbed: bool,
    library: &Library,
    profile: Option<&QualityProfile>,
) -> (r: Option<Option<i64>>)
    ensures
        r is Some <==> release_name_parsable(title@),
        r matches Some(d) ==> match d {
            Some(v) => feed_item_spec(title@, already_grabbed, *library, opt_profile(profile)) == Some(
                v as int,
            ),
            None => feed_item_spec(title@, already_grabbed, *library, opt_profile(profile)) is None,
        },
{
    if release_name_ok(title) {
        Some(feed_item_decision(title, already_grabbed, library, profile))
    } else {
        None
    }
}

/// When a season and an episode are both asked for, the release picked is
/// one the name parser reads as exactly that season and that episode.
pub proof fn law_pick_is_that_episode(
    rs: Seq<Release>,
    fz: Seq<bool>,
    prof: Option<QualityProfile>,
    title: Seq<char>,
    s: i32,
    e: i32,
    k: int,
    sc: int,
)
    requires
        picked(rs, fz, prof, title, Some(s), Some(e), k, sc),
    ensures
        parse_release_spec(rs[k].title@).season == Some(s),
        parse_release_spec(rs[k].title@).episode == Some(e),
{
}

/// The release picked matches the wanted title: both normalized titles are
/// non-empty and one contains the other, unless the similarity verdict for
/// it was given; its score is the profile's score of the parsed release, or
/// its seeders (0 when unknown) without a profile; and no release scored as
/// a candidate beats it.
pub proof fn law_pick_matches_title(
    rs: Seq<Release>,
    fz: Seq<bool>,
    prof: Option<QualityProfile>,
    title: Seq<char>,
    season: Option<i32>,
    episode: Option<i32>,
    k: int,
    sc: int,
)
    requires
        picked(rs, fz, prof, title, season, episode, k, sc),
    ensures
        ({
            let na = norm_title_spec(parse_release_spec(rs[k].title@).title);
            let nb = norm_title_spec(title);
            na.len() > 0 && nb.len() > 0 && (fz[k] || contains(na, nb) || contains(nb, na))
        }),
        prof matches Some(pr) ==> score_spec(parse_release_spec(rs[k].title@), pr) == Some(sc),
        prof is None ==> sc == match rs[k].seeders {
            Some(n) => n as int,
            None => 0int,
        },
{
    let na = norm_title_spec(parse_release_spec(rs[k].title@).title);
    let nb = norm_title_spec(title);
    if na == nb {
        assert(occurs_at(na, nb, 0)) by {
            assert(na.subrange(0, na.len() as int) =~= na);
        }
    }
}

/// An episode already on disk is not grabbed again from a feed: when the
/// name parser reads season `s` and episode `e` from an item's name and the
/// library has a show under the item's normalized title holding episode `e`
/// of season `s` (what `Library::has_episode(title, s, e)` looks for), the
/// item is skipped.
pub proof fn law_feed_skips_episode_on_disk(
    title: Seq<char>,
    already_grabbed: bool,
    library: Library,
    prof: Option<QualityProfile>,
    s: i32,
    e: i32,
    i: int,
    j: int,
)
    requires
        parse_release_spec(title).season == Some(s),
        parse_release_spec(title).episode == Some(e),
        0 <= i < library.shows@.len(),
        norm_title_spec(library.shows@[i].title@) == norm_title_spec(parse_release_spec(title).title),
        0 <= j < library.shows@[i].episodes@.len(),
        library.shows@[i].episodes@[j].season == s,
        library.shows@[i].episodes@[j].episode == e,
    ensures
        feed_item_spec(title, already_grabbed, library, prof) is None,
{
    let nt = norm_title_spec(parse_release_spec(title).title);
    assert(show_has(library.shows@[i], nt, s, e));
}

/// A feed item already grabbed is skipped; an item that is taken is scored
/// by the feed's profile (the profile's score of the parsed release, 0
/// without a profile), so an item failing the profile is never taken.
pub proof fn law_feed_item_outcome(
    title: Seq<char>,
    already_grabbed: bool,
    library: Library,
    prof: Option<QualityProfile>,
)
    ensures
        already_grabbed ==> feed_item_spec(title, already_grabbed, library, prof) is None,
        feed_item_spec(title, already_grabbed, library, prof) matches Some(v) ==> match prof {
            Some(pr) => score_spec(parse_release_spec(title), pr) == Some(v),
            None => v == 0,
        },
{
}

// ---------------------------------------------------------------------------
// one feed poll
// ---------------------------------------------------------------------------

/// A release a feed poll grabs, with where it came from and its score.
pub struct FeedGrab {
    pub url: String,
    pub title: String,
    pub category: String,
    pub source: String,
    pub score: i64,
}

pub struct FeedGrabView {
    pub url: Seq<char>,
    pub title: Seq<char>,
    pub category: Seq<char>,
    pub source: Seq<char>,
    pub score: int,
}

impl View for FeedGrab {
    type V = FeedGrabView;

    open spec fn view(&self) -> FeedGrabView {
        FeedGrabView {
            url: self.url@,
            title: self.title@,
            category: self.category@,
            source: self.source@,
            score: self.score as int,
        }
    }
}

pub open spec fn grab_views(s: Seq<FeedGrab>) -> Seq<FeedGrabView> {
    s.map_values(|g: FeedGrab| g@)
}

/// The first profile with this id.
pub open spec fn profile_by_id(profiles: Seq<QualityProfile>, id: Seq<char>) -> Option<QualityProfile>
    decreases profiles.len(),
{
    if profiles.len() == 0 {
        None
    } else if profiles[0].id@ == id {
        Some(profiles[0])
    } else {
        profile_by_id(profiles.drop_first(), id)
    }
}

/// A link counts as grabbed when the history holds it or this poll already
/// took it (a grab is recorded under its link).
pub open spec fn already_taken(url: Seq<char>, history: Seq<Seq<char>>, acc: Seq<FeedGrabView>) -> bool {
    history.contains(url) || exists|i: int| 0 <= i < acc.len() && (#[trigger] acc[i]).url == url
}

/// One feed item: grabbed into the feed's category when `feed_item_spec`
/// accepts it.
pub open spec fn poll_item(
    acc: Seq<FeedGrabView>,
    history: Seq<Seq<char>>,
    feed: RssFeed,
    prof: Option<QualityProfile>,
    library: Library,
    it: Release,
) -> Seq<FeedGrabView> {
    match feed_item_spec(it.title@, already_taken(it.url@, history, acc), library, prof) {
        Some(sc) => acc.push(
            FeedGrabView {
                url: it.url@,
                title: it.title@,
                category: feed.category@,
                source: feed.name@,
                score: sc,
            },
        ),
        None => acc,
    }
}

/// A feed's items in order.
pub open spec fn poll_items(
    acc: Seq<FeedGrabView>,
    history: Seq<Seq<char>>,
    feed: RssFeed,
    prof: Option<QualityProfile>,
    library: Library,
    items: Seq<Release>,
) -> Seq<FeedGrabView>
    decreases items.len(),
{
    if items.len() == 0 {
        acc
    } else {
        poll_item(
            poll_items(acc, history, feed, prof, library, items.drop_last()),
            history,
            feed,
            prof,
            library,
            items.last(),
        )
    }
}

/// Feeds that are polled: enabled and set to auto-download.
pub open spec fn feed_polled(f: RssFeed) -> bool {
    f.enabled && f.auto_download
}

/// What one poll grabs from the fetched feeds (a feed whose fetch failed is
/// simply absent), in feed and item order.
pub open spec fn poll_all(
    fetched: Seq<(RssFeed, Vec<Release>)>,
    profiles: Seq<QualityProfile>,
    library: Library,
    history: Seq<Seq<char>>,
) -> Seq<FeedGrabView>
    decreases fetched.len(),
{
    if fetched.len() == 0 {
        Seq::empty()
    } else {
        let acc = poll_all(fetched.drop_last(), profiles, library, history);
        let f = fetched.last().0;
        if feed_polled(f) {
            poll_items(
                acc,
                history,
                f,
                profile_by_id(profiles, f.quality_profile@),
                library,
                fetched.last().1@,
            )
        } else {
            acc
        }
    }
}

/// The release-name parser can read every item title of the polled feeds.
pub open spec fn poll_parsable(fetched: Seq<(RssFeed, Vec<Release>)>) -> bool {
    forall|i: int, j: int|
        0 <= i < fetched.len() && feed_polled(fetched[i].0) && 0 <= j < fetched[i].1@.len()
            ==> release_name_parsable((#[trigger] fetched[i].1@[j]).title@)
}

/// A grab that comes from an item of a polled feed: its link and title
/// are the item's, its category and source the feed's.
pub open spec fn from_polled_item(g: FeedGrabView, fetched: Seq<(RssFeed, Vec<Release>)>) -> bool {
    exists|i: int, j: int|
        0 <= i < fetched.len() && feed_polled(fetched[i].0) && 0 <= j < fetched[i].1@.len()
            && g.url == (#[trigger] fetched[i].1@[j]).url@ && g.title == fetched[i].1@[j].title@
            && g.category == fetched[i].0.category@ && g.source == fetched[i].0.name@
}

spec fn plan_ok(acc: Seq<FeedGrabView>, fetched: Seq<(RssFeed, Vec<Release>)>, history: Seq<Seq<char>>) -> bool {
    &&& forall|a: int| 0 <= a < acc.len() ==> !history.contains((#[trigger] acc[a]).url)
    &&& forall|a: int, b: int| 0 <= a < b < acc.len() ==> (#[trigger] acc[a]).url != (#[trigger] acc[b]).url
    &&& forall|a: int| 0 <= a < acc.len() ==> from_polled_item(#[trigger] acc[a], fetched)
}

proof fn lemma_poll_items_ok(
    acc: Seq<FeedGrabView>,
    history: Seq<Seq<char>>,
    prof: Option<QualityProfile>,
    library: Library,
    fetched: Seq<(RssFeed, Vec<Release>)>,
    i0: int,
    n: int,
)
    requires
        plan_ok(acc, fetched, history),
        0 <= i0 < fetched.len(),
        feed_polled(fetched[i0].0),
        0 <= n <= fetched[i0].1@.len(),
    ensures
        plan_ok(
            poll_items(acc, history, fetched[i0].0, prof, library, fetched[i0].1@.subrange(0, n)),
            fetched,
            history,
        ),
    decreases n,
{
    let items = fetched[i0].1@.subrange(0, n);
    if n > 0 {
        assert(items.drop_last() =~= fetched[i0].1@.subrange(0, n - 1));
        lemma_poll_items_ok(acc, history, prof, library, fetched, i0, n - 1);
        let prev = poll_items(acc, history, fetched[i0].0, prof, library, items.drop_last());
        let it = items.last();
        assert(it == fetched[i0].1@[n - 1]);
        let taken = already_taken(it.url@, history, prev);
        match feed_item_spec(it.title@, taken, library, prof) {
            Some(sc) => {
                assert(!taken);
                let g = FeedGrabView {
                    url: it.url@,
                    title: it.title@,
                    category: fetched[i0].0.category@,
                    source: fetched[i0].0.name@,
                    score: sc,
                };
                let next = prev.push(g);
                assert(poll_items(acc, history, fetched[i0].0, prof, library, items) == next);
                assert(from_polled_item(g, fetched)) by {
                    assert(g.url == fetched[i0].1@[n - 1].url@);
                }
                assert forall|a: int, b: int| 0 <= a < b < next.len() implies (#[trigger] next[a]).url
                    != (#[trigger] next[b]).url by {
                    if b == next.len() - 1 {
                        assert(next[a] == prev[a]);
                        assert(next[b] == g);
                    } else {
                        assert(next[a] == prev[a] && next[b] == prev[b]);
                    }
                }
                assert forall|a: int| 0 <= a < next.len() implies !history.contains(
                    (#[trigger] next[a]).url,
                ) by {
                    if a < prev.len() {
                        assert(next[a] == prev[a]);
                    }
                }
                assert forall|a: int| 0 <= a < next.len() implies from_polled_item(
                    #[trigger] next[a],
                    fetched,
                ) by {
                    if a < prev.len() {
                        assert(next[a] == prev[a]);
                    }
                }
            },
            None => {
                assert(poll_items(acc, history, fetched[i0].0, prof, library, items) == prev);
            },
        }
    } else {
        assert(items =~= Seq::<Release>::empty());
    }
}

proof fn lemma_poll_all_ok(
    fetched: Seq<(RssFeed, Vec<Release>)>,
    profiles: Seq<QualityProfile>,
    library: Library,
    history: Seq<Seq<char>>,
    n: int,
)
    requires
        0 <= n <= fetched.len(),
    ensures
        plan_ok(poll_all(fetched.subrange(0, n), profiles, library, history), fetched, history),
    decreases n,
{
    if n > 0 {
        let pre = fetched.subrange(0, n);
        assert(pre.drop_last() =~= fetched.subrange(0, n - 1));
        lemma_poll_all_ok(fetched, profiles, library, history, n - 1);
        let f = fetched[n - 1].0;
        assert(pre.last() == fetched[n - 1]);
        if feed_polled(f) {
            let acc = poll_all(fetched.subrange(0, n - 1), profiles, library, history);
            let prof = profile_by_id(profiles, f.quality_profile@);
            lemma_poll_items_ok(acc, history, prof, library, fetched, n - 1, fetched[n - 1].1@.len() as int);
            assert(fetched[n - 1].1@.subrange(0, fetched[n - 1].1@.len() as int) =~= fetched[n - 1].1@);
        }
    } else {
        assert(poll_all(fetched.subrange(0, 0), profiles, library, history) =~= Seq::<FeedGrabView>::empty());
    }
}

/// One poll never grabs a link the history already holds, never grabs the
/// same link twice, and grabs only items of polled feeds (enabled and set
/// to auto-download), into their feed's category and under its name.
pub proof fn law_poll_grabs_new_links_once(
    fetched: Seq<(RssFeed, Vec<Release>)>,
    profiles: Seq<QualityProfile>,
    library: Library,
    history: Seq<Seq<char>>,
)
    ensures
        forall|a: int|
            0 <= a < poll_all(fetched, profiles, library, history).len() ==> !history.contains(
                (#[trigger] poll_all(fetched, profiles, library, history)[a]).url,
            ),
        forall|a: int, b: int|
            0 <= a < b < poll_all(fetched, profiles, library, history).len() ==> (#[trigger] poll_all(
                fetched,
                profiles,
                library,
                history,
            )[a]).url != (#[trigger] poll_all(fetched, profiles, library, history)[b]).url,
        forall|a: int|
            0 <= a < poll_all(fetched, profiles, library, history).len() ==> from_polled_item(
                #[trigger] poll_all(fetched, profiles, library, history)[a],
                fetched,
            ),
{
    lemma_poll_all_ok(fetched, profiles, library, history, fetched.len() as int);
    assert(fetched.subrange(0, fetched.len() as int) =~= fetched);
}

fn find_profile<'a>(profiles: &'a Vec<QualityProfile>, id: &str) -> (r: Option<&'a QualityProfile>)
    ensures
        opt_profile(r) == profile_by_id(profiles@, id@),
{
    let idv = str_chars(id);
    let mut i: usize = 0;
    assert(profiles@.subrange(0, profiles.len() as int) =~= profiles@);
    while i < profiles.len()
        invariant
            i <= profiles.len(),
            idv@ == id@,
            profile_by_id(profiles@, id@) == profile_by_id(profiles@.subrange(i as int, profiles.len() as int), id@),
        decreases profiles.len() - i,
    {
        let ghost rest = profiles@.subrange(i as int, profiles.len() as int);
        assert(rest.drop_first() =~= profiles@.subrange(i + 1, profiles.len() as int));
        let pv = str_chars(profiles[i].id.as_str());
        if crate::sort::seq_eq(pv.as_slice(), idv.as_slice()) {
            return Some(&profiles[i]);
        }
        i += 1;
    }
    assert(profiles@.subrange(i as int, profiles.len() as int) =~= Seq::<QualityProfile>::empty());
    None
}

fn taken_exec(url: &str, history: &Vec<String>, acc: &Vec<FeedGrab>) -> (r: bool)
    ensures
        r == already_taken(url@, strings_view(history@), grab_views(acc@)),
{
    let u = str_chars(url);
    let mut i: usize = 0;
    while i < history.len()
        invariant
            i <= history.len(),
            u@ == url@,
            forall|j: int| 0 <= j < i ==> (#[trigger] history@[j])@ != url@,
        decreases history.len() - i,
    {
        let h = str_chars(history[i].as_str());
        if crate::sort::seq_eq(h.as_slice(), u.as_slice()) {
            assert(strings_view(history@)[i as int] == url@);
            return true;
        }
        i += 1;
    }
    assert(!strings_view(history@).contains(url@)) by {
        if strings_view(history@).contains(url@) {
            let k = choose|k: int| 0 <= k < strings_view(history@).len() && strings_view(history@)[k] == url@;
            assert(history@[k]@ == url@);
        }
    }
    let mut k: usize = 0;
    while k < acc.len()
        invariant
            k <= acc.len(),
            u@ == url@,
            forall|j: int| 0 <= j < k ==> (#[trigger] acc@[j]).url@ != url@,
        decreases acc.len() - k,
    {
        let a = str_chars(acc[k].url.as_str());
        if crate::sort::seq_eq(a.as_slice(), u.as_slice()) {
            assert(grab_views(acc@)[k as int].url == url@);
            return true;
        }
        k += 1;
    }
    assert forall|j: int| 0 <= j < grab_views(acc@).len() implies (#[trigger] grab_views(acc@)[j]).url != url@ by {
        assert(grab_views(acc@)[j] == acc@[j]@);
    }
    false
}

/// One feed poll over the fetched feeds: every item of a polled feed not
/// already grabbed (by the history or earlier in this poll), not already on
/// disk as an episode and acceptable to the feed's quality profile is
/// grabbed into the feed's category, with its score. A grab that fails to
/// start is not recorded by the caller, so this plan assumes each starts.
pub fn poll_plan(
    fetched: &Vec<(RssFeed, Vec<Release>)>,
    profiles: &Vec<QualityProfile>,
    library: &Library,
    history: &Vec<String>,
) -> (r: Vec<FeedGrab>)
    requires
        poll_parsable(fetched@),
    ensures
        grab_views(r@) == poll_all(fetched@, profiles@, *library, strings_view(history@)),
{
    let ghost hist = strings_view(history@);
    let mut out: Vec<FeedGrab> = Vec::new();
    let mut i: usize = 0;
    assert(grab_views(out@) =~= poll_all(fetched@.subrange(0, 0), profiles@, *library, hist));
    while i < fetched.len()
        invariant
            i <= fetched.len(),
            hist == strings_view(history@),
            poll_parsable(fetched@),
            grab_views(out@) == poll_all(fetched@.subrange(0, i as int), profiles@, *library, hist),
        decreases fetched.len() - i,
    {
        let ghost pre = fetched@.subrange(0, i + 1);
        assert(pre.drop_last() =~= fetched@.subrange(0, i as int));
        let f = &fetched[i].0;
        let items = &fetched[i].1;
        if f.enabled && f.auto_download {
            let prof = find_profile(profiles, f.quality_profile.as_str());
            let ghost start = grab_views(out@);
            let mut j: usize = 0;
            assert(items@.subrange(0, 0) =~= Seq::<Release>::empty());
            while j < items.len()
                invariant
                    j <= items.len(),
                    i < fetched.len(),
                    f == fetched@[i as int].0,
                    items == fetched@[i as int].1,
                    feed_polled(*f),
                    poll_parsable(fetched@),
                    hist == strings_view(history@),
                    opt_profile(prof) == profile_by_id(profiles@, f.quality_profile@),
                    grab_views(out@) == poll_items(
                        start,
                        hist,
                        *f,
                        opt_profile(prof),
                        *library,
                        items@.subrange(0, j as int),
                    ),
                decreases items.len() - j,
            {
                let it = &items[j];
                proof {
                    assert(items@.subrange(0, j + 1).drop_last() =~= items@.subrange(0, j as int));
                    assert(items@.subrange(0, j + 1).last() == items@[j as int]);
                    assert(release_name_parsable(fetched@[i as int].1@[j as int].title@));
                }
                let seen = taken_exec(it.url.as_str(), history, &out);
                let d = feed_item_decision(it.title.as_str(), seen, library, prof);
                match d {
                    Some(sc) => {
                        let g = FeedGrab {
                            url: it.url.clone(),
                            title: it.title.clone(),
                            category: f.category.clone(),
                            source: f.name.clone(),
                            score: sc,
                        };
                        let ghost prev = grab_views(out@);
                        out.push(g);
                        assert(grab_views(out@) =~= prev.push(g@));
                    },
                    None => {},
                }
                j += 1;
            }
            assert(items@.subrange(0, j as int) =~= items@);
        }
        i += 1;
    }
    assert(fetched@.subrange(0, i as int) =~= fetched@);
    out
}

/// `poll_plan` for any fetched feeds: `None` when an item title of a polled
/// feed is one the name parser would panic on, else `Some` of the plan.
pub fn try_poll_plan(
    fetched: &Vec<(RssFeed, Vec<Release>)>,
    profiles: &Vec<QualityProfile>,
    library: &Library,
    history: &Vec<String>,
) -> (r: Option<Vec<FeedGrab>>)
    ensures
        r is Some <==> poll_parsable(fetched@),
        r matches Some(v) ==> grab_views(v@) == poll_all(fetched@, profiles@, *library, strings_view(history@)),
{
    let mut i: usize = 0;
    while i < fetched.len()
        invariant
            i <= fetched.len(),
            forall|a: int, b: int|
                0 <= a < i && feed_polled(fetched@[a].0) && 0 <= b < fetched@[a].1@.len()
                    ==> release_name_parsable((#[trigger] fetched@[a].1@[b]).title@),
        decreases fetched.len() - i,
    {
        if fetched[i].0.enabled && fetched[i].0.auto_download {
            let items = &fetched[i].1;
            let mut j: usize = 0;
            while j < items.len()
                invariant
                    j <= items.len(),
                    i < fetched.len(),
                    items == fetched@[i as int].1,
                    feed_polled(fetched@[i as int].0),
                    forall|b: int| 0 <= b < j ==> release_name_parsable((#[trigger] items@[b]).title@),
                decreases items.len() - j,
            {
                if !release_name_ok(items[j].title.as_str()) {
                    proof {
                        assert(feed_polled(fetched@[i as int].0));
                        assert(fetched@[i as int].1@[j as int] == items@[j as int]);
                        assert(!release_name_parsable(fetched@[i as int].1@[j as int].title@));
                    }
                    return None;
                }
                j += 1;
            }
        }
        i += 1;
    }
    Some(poll_plan(fetched, profiles, library, history))
}

/// The default feed poll cadence, in minutes.
pub open spec fn default_feed_poll_mins() -> int {
    15
}

/// Configured feed poll cadence in minutes: the stored value when it is a
/// whole number of at least one, else the default of 15.
pub open spec fn feed_poll_mins_spec(stored: Option<Seq<char>>) -> int {
    match stored {
        Some(t) => match parse_unsigned(t, u64::MAX as int) {
            Some(v) => if v >= 1 {
                v
            } else {
                default_feed_poll_mins()
            },
            None => default_feed_poll_mins(),
        },
        None => default_feed_poll_mins(),
    }
}

pub fn feed_poll_mins(stored: Option<&str>) -> (r: u64)
    ensures
        r == feed_poll_mins_spec(
            match stored {
                Some(s) => Some(s@),
                None => None,
            },
        ),
        r >= 1,
{
    match stored {
        Some(s) => {
            let v = str_chars(s);
            match parse_u64(v.as_slice()) {
                Some(m) => if m >= 1 {
                    m
                } else {
                    15
                },
                None => 15,
            }
        },
        None => 15,
    }
}

/// The stored form of a poll cadence: at least one minute, in decimal.
pub fn feed_poll_mins_setting(mins: u32) -> (r: String)
    ensures
        r@ == decimal(if mins >= 1 { mins as nat } else { 1 }),
{
    let m: u64 = if mins >= 1 {
        mins as u64
    } else {
        1
    };
    let d = fmt_u64(m);
    string_from_chars(d.as_slice())
}

/// A poll cadence stored with `feed_poll_mins_setting` reads back with
/// `feed_poll_mins` as the minutes set (at least one); with nothing stored
/// the cadence is 15 minutes.
pub proof fn law_poll_mins_roundtrip(mins: u32)
    ensures
        feed_poll_mins_spec(Some(decimal(if mins >= 1 { mins as nat } else { 1 }))) == if mins
            >= 1 {
            mins as int
        } else {
            1
        },
        feed_poll_mins_spec(None) == 15,
{
    let m: nat = if mins >= 1 {
        mins as nat
    } else {
        1
    };
    crate::text::lemma_parse_decimal(m, u64::MAX as int);
}

/// The effective TMDb key, over texts: a stored non-blank value wins over
/// the environment's.
pub open spec fn effective_key_spec(stored: Option<Seq<char>>, env: Option<Seq<char>>) -> Option<
    Seq<char>,
> {
    match stored {
        Some(k) => if trim(k).len() > 0 {
            Some(k)
        } else {
            env
        },
        None => env,
    }
}

/// The effective TMDb key: a stored (UI-configured) non-blank value wins
/// over the environment's.
pub fn effective_tmdb_key(stored: Option<String>, env: Option<String>) -> (r: Option<String>)
    ensures
        r.deep_view() == effective_key_spec(stored.deep_view(), env.deep_view()),
        r == match stored {
            Some(k) => if trim(k@).len() > 0 {
                Some(k)
            } else {
                env
            },
            None => env,
        },
{
    match stored {
        Some(k) => {
            let t = trim_string(k.as_str());
            if t.as_str().is_empty() {
                env
            } else {
                Some(k)
            }
        },
        None => env,
    }
}

/// The form a TMDb key set in the UI is stored in: trimmed.
pub fn tmdb_key_setting(key: &str) -> (r: String)
    ensures
        r@ == trim(key@),
{
    trim_string(key)
}

/// A key stored with `tmdb_key_setting` reads back through
/// `effective_tmdb_key` as the trimmed key when it is not blank; a blank one
/// leaves the environment's key in force.
pub proof fn law_tmdb_key_roundtrip(key: Seq<char>, env: Option<Seq<char>>)
    ensures
        effective_key_spec(Some(trim(key)), env) == if trim(key).len() > 0 {
            Some(trim(key))
        } else {
            env
        },
        trim(trim(key)) == trim(key),
{
    crate::text::lemma_trim_start_props(key);
    crate::text::lemma_trim_end_props(crate::text::trim_start(key));
    let t = trim(key);
    if t.len() > 0 {
        assert(t[0] == crate::text::trim_start(key)[0]);
    }
    crate::text::lemma_trim_noop(t);
}

/// The sub-directory a category slug files grabs under; `None` for a blank
/// slug or an unknown one (grabs then land in the default directory).
pub fn category_subdir(slug: &str, categories: &Vec<Category>) -> (r: Option<String>)
    ensures
        trim(slug@).len() == 0 ==> r is None,
        trim(slug@).len() > 0 ==> match r {
            Some(sub) => exists|i: int|
                0 <= i < categories@.len() && (#[trigger] categories@[i]).slug@ == slug@
                    && sub@ == categories@[i].subdir@ && forall|j: int|
                    0 <= j < i ==> (#[trigger] categories@[j]).slug@ != slug@,
            None => forall|i: int| 0 <= i < categories@.len() ==> (#[trigger] categories@[i]).slug@ != slug@,
        },
{
    let t = trim_string(slug);
    if t.as_str().is_empty() {
        return None;
    }
    let sv = str_chars(slug);
    let mut i: usize = 0;
    while i < categories.len()
        invariant
            i <= categories.len(),
            sv@ == slug@,
            trim(slug@).len() > 0,
            forall|j: int| 0 <= j < i ==> (#[trigger] categories@[j]).slug@ != slug@,
        decreases categories.len() - i,
    {
        let cv = str_chars(categories[i].slug.as_str());
        if crate::sort::seq_eq(cv.as_slice(), sv.as_slice()) {
            return Some(categories[i].subdir.clone());
        }
        i += 1;
    }
    None
}

/// A category's sub-directory as a path relative to the download folder:
/// trimmed, without leading `/` or `\`.
pub open spec fn strip_leading_seps(s: Seq<char>) -> Seq<char>
    decreases s.len(),
{
    if s.len() > 0 && (s[0] == '/' || s[0] == '\\') {
        strip_leading_seps(s.drop_first())
    } else {
        s
    }
}

pub fn category_rel_dir(subdir: &str) -> (r: String)
    ensures
        r@ == strip_leading_seps(trim(subdir@)),
{
    let v = str_chars(subdir);
    let t = trim_chars(v.as_slice());
    let mut i: usize = 0;
    assert(t@.subrange(0, t.len() as int) =~= t@);
    while i < t.len() && (t[i] == '/' || t[i] == '\\')
        invariant
            i <= t.len(),
            strip_leading_seps(t@.subrange(i as int, t.len() as int)) == strip_leading_seps(t@),
        decreases t.len() - i,
    {
        assert(t@.subrange(i as int, t.len() as int).drop_first() =~= t@.subrange(
            i + 1,
            t.len() as int,
        ));
        i += 1;
    }
    let rest = crate::text::slice_range(t.as_slice(), i, t.len());
    string_from_chars(rest.as_slice())
}

// ---------------------------------------------------------------------------
// searches and monitor keys
// ---------------------------------------------------------------------------

pub open spec fn seeders_of(r: ReleaseView) -> int {
    match r.seeders {
        Some(n) => n as int,
        None => 0,
    }
}

pub open spec fn seed_insert_pos(s: Seq<ReleaseView>, x: ReleaseView) -> int
    decreases s.len(),
{
    if s.len() == 0 {
        0
    } else if seeders_of(x) > seeders_of(s[0]) {
        0
    } else {
        1 + seed_insert_pos(s.drop_first(), x)
    }
}

/// Releases stably ordered by seeders, most first (missing counts as 0).
pub open spec fn by_seeders(s: Seq<ReleaseView>) -> Seq<ReleaseView>
    decreases s.len(),
{
    if s.len() == 0 {
        s
    } else {
        let prev = by_seeders(s.drop_last());
        prev.insert(seed_insert_pos(prev, s.last()), s.last())
    }
}

proof fn lemma_seed_insert_pos(s: Seq<ReleaseView>, x: ReleaseView, p: int)
    requires
        0 <= p <= s.len(),
        forall|j: int| 0 <= j < p ==> !(seeders_of(x) > seeders_of(#[trigger] s[j])),
        p == s.len() || seeders_of(x) > seeders_of(s[p]),
    ensures
        seed_insert_pos(s, x) == p,
    decreases p,
{
    if p > 0 {
        assert forall|j: int| 0 <= j < p - 1 implies !(seeders_of(x) > seeders_of(
            #[trigger] s.drop_first()[j],
        )) by {
            assert(s.drop_first()[j] == s[j + 1]);
        }
        if p < s.len() {
            assert(s.drop_first()[p - 1] == s[p]);
        }
        lemma_seed_insert_pos(s.drop_first(), x, p - 1);
    }
}

proof fn lemma_seed_pos_bounds(s: Seq<ReleaseView>, x: ReleaseView)
    ensures
        0 <= seed_insert_pos(s, x) <= s.len(),
    decreases s.len(),
{
    if s.len() > 0 {
        lemma_seed_pos_bounds(s.drop_first(), x);
    }
}

proof fn lemma_by_seeders_len(s: Seq<ReleaseView>)
    ensures
        by_seeders(s).len() == s.len(),
    decreases s.len(),
{
    if s.len() > 0 {
        lemma_by_seeders_len(s.drop_last());
        lemma_seed_pos_bounds(by_seeders(s.drop_last()), s.last());
    }
}

fn seed_count(r: &Release) -> (n: u32)
    ensures
        n == seeders_of(r@),
{
    match r.seeders {
        Some(n) => n,
        None => 0,
    }
}

/// Order search results by seeders, most first, keeping ties in order.
pub fn sort_by_seeders(v: Vec<Release>) -> (r: Vec<Release>)
    ensures
        r@.map_values(|x: Release| x@) == by_seeders(v@.map_values(|x: Release| x@)),
{
    let mut out: Vec<Release> = Vec::new();
    let mut rest = v;
    let ghost orig = rest@.map_values(|x: Release| x@);
    let ghost mut taken: int = 0;
    assert(out@.map_values(|x: Release| x@) =~= by_seeders(orig.subrange(0, 0)));
    while rest.len() > 0
        invariant
            0 <= taken <= orig.len(),
            rest@.map_values(|x: Release| x@) == orig.subrange(taken, orig.len() as int),
            out@.map_values(|x: Release| x@) == by_seeders(orig.subrange(0, taken)),
        decreases rest.len(),
    {
        let ghost before = rest@;
        let x = rest.remove(0);
        proof {
            assert(before.map_values(|x: Release| x@).len() == before.len());
            assert(taken < orig.len());
            assert(orig.subrange(taken, orig.len() as int)[0] == orig[taken]);
            assert(before.map_values(|x: Release| x@)[0] == x@);
            assert(rest@.map_values(|x: Release| x@) =~= before.map_values(|x: Release| x@).drop_first());
            assert(rest@.map_values(|x: Release| x@) =~= orig.subrange(taken + 1, orig.len() as int));
            assert(orig.subrange(0, taken + 1).drop_last() =~= orig.subrange(0, taken));
            lemma_by_seeders_len(orig.subrange(0, taken));
        }
        let xs: u32 = seed_count(&x);
        let mut p: usize = 0;
        while p < out.len() && !(xs > seed_count(&out[p]))
            invariant
                p <= out.len(),
                xs == seeders_of(x@),
                forall|j: int| 0 <= j < p ==> !(seeders_of(x@) > seeders_of((#[trigger] out@[j])@)),
            decreases out.len() - p,
        {
            p += 1;
        }
        proof {
            let ov = out@.map_values(|x: Release| x@);
            assert forall|j: int| 0 <= j < p implies !(seeders_of(x@) > seeders_of(#[trigger] ov[j])) by {
                assert(ov[j] == out@[j]@);
            }
            if p < out.len() {
                assert(ov[p as int] == out@[p as int]@);
            }
            lemma_seed_insert_pos(ov, x@, p as int);
        }
        let ghost old_out = out@;
        out.insert(p, x);
        proof {
            assert(out@.map_values(|x: Release| x@) =~= old_out.map_values(|x: Release| x@).insert(
                p as int,
                x@,
            ));
            taken = taken + 1;
        }
    }
    proof {
        assert(orig.subrange(0, orig.len() as int) =~= orig);
    }
    out
}

/// Tag each search result with the indexer it came from.
pub fn tag_indexer(items: Vec<Release>, name: &str) -> (r: Vec<Release>)
    ensures
        r@.len() == items@.len(),
        forall|i: int|
            0 <= i < items@.len() ==> (#[trigger] r@[i])@ == (ReleaseView { indexer: name@, ..items@[i]@ }),
{
    let mut out: Vec<Release> = Vec::new();
    let mut rest = items;
    let ghost orig = rest@;
    let ghost mut taken: int = 0;
    while rest.len() > 0
        invariant
            0 <= taken <= orig.len(),
            rest@ == orig.subrange(taken, orig.len() as int),
            out@.len() == taken,
            forall|i: int| 0 <= i < taken ==> (#[trigger] out@[i])@ == (ReleaseView { indexer: name@, ..orig[i]@ }),
        decreases rest.len(),
    {
        let x = rest.remove(0);
        proof {
            assert(orig[taken] == x);
            assert(rest@ =~= orig.subrange(taken + 1, orig.len() as int));
        }
        let t = Release {
            title: x.title,
            url: x.url,
            size: x.size,
            seeders: x.seeders,
            indexer: String::from_str(name),
        };
        out.push(t);
        proof {
            taken = taken + 1;
        }
    }
    out
}

/// The results of one indexer, tagged with its name.
pub open spec fn tagged(items: Seq<Release>, name: Seq<char>) -> Seq<ReleaseView> {
    items.map_values(|x: Release| ReleaseView { indexer: name, ..x@ })
}

/// Each indexer's results, tagged with its name, one indexer after another.
pub open spec fn joined(groups: Seq<(String, Vec<Release>)>) -> Seq<ReleaseView>
    decreases groups.len(),
{
    if groups.len() == 0 {
        Seq::empty()
    } else {
        joined(groups.drop_last()) + tagged(groups.last().1@, groups.last().0@)
    }
}

/// The results of several indexers as one list: each tagged with its
/// indexer's name, in indexer order, then ordered by seeders (most first,
/// ties kept in order).
pub fn merge_results(groups: Vec<(String, Vec<Release>)>) -> (r: Vec<Release>)
    ensures
        r@.map_values(|x: Release| x@) == by_seeders(joined(groups@)),
{
    let ghost orig = groups@;
    let mut rest = groups;
    let mut all: Vec<Release> = Vec::new();
    let ghost mut taken: int = 0;
    while rest.len() > 0
        invariant
            0 <= taken <= orig.len(),
            rest@ == orig.subrange(taken, orig.len() as int),
            all@.map_values(|x: Release| x@) == joined(orig.subrange(0, taken)),
        decreases rest.len(),
    {
        let (name, items) = rest.remove(0);
        proof {
            assert(orig[taken] == (name, items));
            assert(rest@ =~= orig.subrange(taken + 1, orig.len() as int));
            assert(orig.subrange(0, taken + 1).drop_last() =~= orig.subrange(0, taken));
        }
        let ghost prev = all@;
        let mut t = tag_indexer(items, name.as_str());
        let ghost tv = t@;
        all.append(&mut t);
        proof {
            assert(tv.map_values(|x: Release| x@) =~= tagged(items@, name@));
            assert(all@ == prev + tv);
            assert(all@.map_values(|x: Release| x@) =~= prev.map_values(|x: Release| x@) + tv.map_values(
                |x: Release| x@,
            ));
            taken = taken + 1;
        }
    }
    assert(orig.subrange(0, taken) =~= orig);
    sort_by_seeders(all)
}

/// The indexer query for a wanted title: `Title SxxEyy` for an episode,
/// `Title Year` for a movie with a known year, else the title.
pub open spec fn monitor_query_spec(title: Seq<char>, year: Option<i32>, season: Option<i32>, episode: Option<i32>) -> Seq<char> {
    match (season, episode) {
        (Some(s), Some(e)) => title + seq![' ', 'S'] + crate::text::decimal_i32_pad2(s as int) + seq!['E']
            + crate::text::decimal_i32_pad2(e as int),
        _ => match year {
            Some(y) => title + seq![' '] + crate::text::decimal_i32(y as int),
            None => title,
        },
    }
}

pub fn monitor_query(title: &str, year: Option<i32>, season: Option<i32>, episode: Option<i32>) -> (r: String)
    ensures
        r@ == monitor_query_spec(title@, year, season, episode),
{
    let mut out = str_chars(title);
    match (season, episode) {
        (Some(s), Some(e)) => {
            out.push(' ');
            out.push('S');
            let a = crate::text::fmt_i32_pad2(s);
            extend_chars(&mut out, a.as_slice());
            out.push('E');
            let b = crate::text::fmt_i32_pad2(e);
            extend_chars(&mut out, b.as_slice());
            assert(out@ =~= monitor_query_spec(title@, year, season, episode));
        },
        _ => match year {
            Some(y) => {
                out.push(' ');
                let a = crate::text::fmt_i32(y);
                extend_chars(&mut out, a.as_slice());
                assert(out@ =~= monitor_query_spec(title@, year, season, episode));
            },
            None => {},
        },
    }
    string_from_chars(out.as_slice())
}

/// Grab-history key the monitor uses for a wanted movie.
pub fn monitor_movie_key(wanted_id: &str) -> (r: String)
    ensures
        r@ == "monitor:"@ + wanted_id@ + ":movie"@,
{
    let mut out = str_chars("monitor:");
    crate::text::push_str(&mut out, wanted_id);
    crate::text::push_str(&mut out, ":movie");
    string_from_chars(out.as_slice())
}

/// Grab-history key the monitor uses for one episode of a wanted series.
pub fn monitor_episode_key(wanted_id: &str, season: i32, episode: i32) -> (r: String)
    ensures
        r@ == "monitor:"@ + wanted_id@ + ":s"@ + crate::text::decimal_i32(season as int) + seq!['e']
            + crate::text::decimal_i32(episode as int),
{
    let mut out = str_chars("monitor:");
    crate::text::push_str(&mut out, wanted_id);
    crate::text::push_str(&mut out, ":s");
    let a = crate::text::fmt_i32(season);
    extend_chars(&mut out, a.as_slice());
    out.push('e');
    let b = crate::text::fmt_i32(episode);
    extend_chars(&mut out, b.as_slice());
    string_from_chars(out.as_slice())
}

} // verus!
