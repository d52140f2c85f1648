//! The calls this library makes into outside crates: `regex` for pattern
//! matching, `torrent-name-parser` for release-name metadata and `quick-xml`
//! for XML tokenization. Each wrapper converts the outside result into plain
//! values and names what the crate computes; the logic around the calls is
//! verified in the modules that use them.

use vstd::prelude::*;

use quick_xml::events::Event::{CData, Empty, End, Eof, Start, Text};
use quick_xml::XmlVersion::Implicit1_0;

use crate::text::all_digits;

verus! {

// ---------------------------------------------------------------------------
// regex
// ---------------------------------------------------------------------------

/// The capture groups (group 0 = the whole match) of the leftmost-first match
/// of `pattern` in `text`, as `regex::Regex::captures` reports them; `None`
/// when there is no match or when `pattern` does not compile.
pub uninterp spec fn regex_captures_spec(pattern: Seq<char>, text: Seq<char>) -> Option<
    Seq<Option<Seq<char>>>,
>;

/// Compiles `pattern` with `regex::Regex::new` and runs `Regex::captures` on
/// `text`, copying out each group's text. The contract names the result and
/// claims nothing about regular-expression semantics.
#[verifier::external_body]
pub(crate) fn regex_captures(pattern: &str, text: &str) -> (r: Option<Vec<Option<String>>>)
    ensures
        r.deep_view() == regex_captures_spec(pattern@, text@),
{
    regex::Regex::new(pattern).ok().and_then(|re| re.captures(text)).map(
        |c| c.iter().map(|m| m.map(|m| m.as_str().to_string())).collect(),
    )
}

// ---------------------------------------------------------------------------
// torrent-name-parser
// ---------------------------------------------------------------------------

/// The fields of `torrent_name_parser::Metadata` that release scoring reads.
pub struct ReleaseMetadata {
    pub title: String,
    pub year: Option<i32>,
    pub season: Option<i32>,
    pub episode: Option<i32>,
    pub resolution: Option<String>,
    pub quality: Option<String>,
    pub language: Option<String>,
    pub group: Option<String>,
    pub proper: bool,
    pub repack: bool,
    pub is_show: bool,
}

pub struct ReleaseMetadataView {
    pub title: Seq<char>,
    pub year: Option<i32>,
    pub season: Option<i32>,
    pub episode: Option<i32>,
    pub resolution: Option<Seq<char>>,
    pub quality: Option<Seq<char>>,
    pub language: Option<Seq<char>>,
    pub group: Option<Seq<char>>,
    pub proper: bool,
    pub repack: bool,
    pub is_show: bool,
}

impl View for ReleaseMetadata {
    type V = ReleaseMetadataView;

    open spec fn view(&self) -> ReleaseMetadataView {
        ReleaseMetadataView {
            title: self.title@,
            year: self.year,
            season: self.season,
            episode: self.episode,
            resolution: self.resolution.deep_view(),
            quality: self.quality.deep_view(),
            language: self.language.deep_view(),
            group: self.group.deep_view(),
            proper: self.proper,
            repack: self.repack,
            is_show: self.is_show,
        }
    }
}

/// What `torrent_name_parser::Metadata::from` extracts from a release name;
/// `None` when it reports that no title could be isolated.
pub uninterp spec fn release_metadata(name: Seq<char>) -> Option<ReleaseMetadataView>;

/// The regex class of the decimal digits (`\d`, Unicode category Nd) that
/// are not ASCII digits.
pub open spec fn non_ascii_digit_pattern() -> Seq<char> {
    "[\\d&&[^0-9]]"@
}

/// The names on which `Metadata::from` is known not to panic: it parses
/// every `\d+` capture with `unwrap` into an `i32`, so no decimal digit may
/// be a non-ASCII one and no run of ASCII digits may exceed nine. Which runs
/// its patterns capture depends on their match positions, so every run is
/// held to that bound.
pub open spec fn release_name_parsable(name: Seq<char>) -> bool {
    &&& regex_captures_spec(non_ascii_digit_pattern(), name) is None
    &&& forall|i: int| 0 <= i && i + 10 <= name.len() ==> !all_digits(#[trigger] name.subrange(i, i + 10))
}

/// Calls `torrent_name_parser::Metadata::from` and copies out the fields that
/// scoring reads. The extraction itself is named, not restated; the crate's
/// source shows that `is_show` is exactly "a season was found". Within
/// `release_name_parsable` the call does not panic; an episode range such as
/// `E01-E999999999` still makes it allocate one entry per episode, which is
/// left unsaid here.
#[verifier::external_body]
pub(crate) fn parse_release_metadata(name: &str) -> (r: Option<ReleaseMetadata>)
    requires
        release_name_parsable(name@),
    ensures
        r matches Some(m) ==> release_metadata(name@) == Some(m@) && m.is_show == m.season is Some,
        r is None ==> release_metadata(name@) is None,
{
    let s = |v: Option<&str>| v.map(|x| x.to_string());
    torrent_name_parser::Metadata::from(name).ok().map(|m| ReleaseMetadata {
        title: m.title().to_string(),
        year: m.year(),
        season: m.season(),
        episode: m.episode(),
        resolution: s(m.resolution()),
        quality: s(m.quality()),
        language: s(m.language()),
        group: s(m.group()),
        proper: m.proper(),
        repack: m.repack(),
        is_show: m.is_show(),
    })
}

// ---------------------------------------------------------------------------
// quick-xml
// ---------------------------------------------------------------------------

#[verifier::external_type_specification]
#[verifier::external_body]
#[verifier::reject_recursive_types(R)]
pub struct ExXmlReader<R>(quick_xml::reader::Reader<R>);

/// One event of the XML reader, reduced to plain values: element and attribute names as
/// written (prefix included), text with its line ends normalized, attribute values
/// normalized. `Finished` stands for the end of input and also for a syntax
/// error; quick-xml may hand out further events after an error, and the
/// library's parser stops at the first `Finished` it meets.
pub enum XmlToken {
    Start(String),
    Empty(String, Vec<(String, String)>),
    Text(String),
    CData(String),
    End(String),
    Other,
    Finished,
}

/// The events `quick_xml::reader::Reader::from_str` (with `trim_text(true)`)
/// yields for `xml`, one per call of `read_event`, in order, until the reader
/// is done (from then on it yields end-of-input on every call). An error
/// among them appears as a `Finished` event, and events may follow it.
pub uninterp spec fn xml_token_stream(xml: Seq<char>) -> Seq<XmlToken>;

/// The events a reader has yet to hand out.
pub uninterp spec fn xml_pending(r: quick_xml::reader::Reader<&[u8]>) -> Seq<XmlToken>;

/// Creates a `quick_xml` reader over `xml` with text trimming switched on;
/// it will hand out exactly the events of `xml_token_stream(xml)`.
#[verifier::external_body]
pub(crate) fn xml_reader(xml: &str) -> (r: quick_xml::reader::Reader<&[u8]>)
    ensures
        xml_pending(r) == xml_token_stream(xml@),
{
    let mut r = quick_xml::reader::Reader::from_str(xml);
    r.config_mut().trim_text(true);
    r
}

/// Calls `Reader::read_event` once and converts the event. It hands out the
/// next pending event; once none is pending it reports `Finished`.
#[verifier::external_body]
pub(crate) fn xml_next_token(r: &mut quick_xml::reader::Reader<&[u8]>) -> (t: XmlToken)
    ensures
        xml_pending(*old(r)).len() == 0 ==> t is Finished && xml_pending(*final(r)).len() == 0,
        xml_pending(*old(r)).len() > 0 ==> t == xml_pending(*old(r))[0] && xml_pending(*final(r))
            == xml_pending(*old(r)).drop_first(),
{
    match r.read_event() {
        Ok(Start(e)) => XmlToken::Start(e.name().0.to_string()),
        Ok(Empty(e)) => XmlToken::Empty(e.name().0.to_string(), e.attributes().flatten().map(
            |a| (a.key.0.to_string(), a.normalized_value(Implicit1_0).unwrap_or_default().into_owned()),
        ).collect()),
        Ok(Text(e)) => XmlToken::Text(e.xml_content(Implicit1_0).into_owned()),
        Ok(CData(e)) => XmlToken::CData(e.into_inner().into_owned()),
        Ok(End(e)) => XmlToken::End(e.name().0.to_string()),
        Ok(Eof) | Err(_) => XmlToken::Finished,
        _ => XmlToken::Other,
    }
}

} // verus!
