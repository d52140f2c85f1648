//! Minimal RSS 2.0 / Torznab item extraction. The XML is tokenized by
//! quick-xml; this module turns the token stream into releases: each item's
//! title, download URL (magnet preferred, else enclosure, else link), size
//! and seeders. Atom feeds are not handled.

use vstd::prelude::*;

use crate::ext::{xml_next_token, xml_pending, xml_reader, xml_token_stream, XmlToken};
use crate::text::{
    is_ws, lemma_trim_end_props, lemma_trim_start_props, trim_end, trim_start, lower_seq, parse_u32, parse_u64, parse_unsigned, starts_with, starts_with_chars, str_chars,
    string_from_chars, to_ascii_lower, trim, trim_chars,
};
use crate::types::{Release, ReleaseView};
use vstd::string::StringExecFns;

verus! {

/// The fields of one `<item>` collected so far.
pub struct ItemState {
    pub title: Option<Seq<char>>,
    pub link: Option<Seq<char>>,
    pub enclosure_url: Option<Seq<char>>,
    pub magnet: Option<Seq<char>>,
    pub size: Option<u64>,
    pub seeders: Option<u32>,
}

pub open spec fn empty_item() -> ItemState {
    ItemState {
        title: None,
        link: None,
        enclosure_url: None,
        magnet: None,
        size: None,
        seeders: None,
    }
}

/// Which child element's text is awaited.
#[derive(Clone, Copy, PartialEq, Eq, Structural)]
pub enum Field {
    Title,
    Link,
    Size,
}

/// Extraction state: releases found, the open item, the awaited field.
pub struct ScanState {
    pub out: Seq<ReleaseView>,
    pub cur: Option<ItemState>,
    pub field: Option<Field>,
}

/// The part after the last `:` (the whole name when there is none).
pub open spec fn after_last_colon(s: Seq<char>) -> Seq<char>
    decreases s.len(),
{
    if s.len() == 0 {
        s
    } else if s.last() == ':' {
        Seq::empty()
    } else {
        after_last_colon(s.drop_last()).push(s.last())
    }
}

/// Element or attribute name without its namespace prefix, lower-cased.
pub open spec fn local_name_spec(s: Seq<char>) -> Seq<char> {
    lower_seq(after_last_colon(s))
}

/// `slot` unless it is already filled (`Option::get_or_insert`).
pub open spec fn keep_first(slot: Option<Seq<char>>, v: Seq<char>) -> Option<Seq<char>> {
    match slot {
        Some(x) => Some(x),
        None => Some(v),
    }
}

pub open spec fn parsed_u64(s: Seq<char>) -> Option<u64> {
    match parse_unsigned(s, u64::MAX as int) {
        Some(v) => Some(v as u64),
        None => None,
    }
}

pub open spec fn parsed_u32(s: Seq<char>) -> Option<u32> {
    match parse_unsigned(s, u32::MAX as int) {
        Some(v) => Some(v as u32),
        None => None,
    }
}

pub open spec fn size_or(size: Option<u64>, s: Seq<char>) -> Option<u64> {
    match size {
        Some(x) => Some(x),
        None => parsed_u64(s),
    }
}

/// A URL goes to the magnet slot when it is a magnet link, else to `other`.
pub open spec fn put_url(it: ItemState, v: Seq<char>, enclosure: bool) -> ItemState {
    if starts_with(v, "magnet:"@) {
        ItemState { magnet: keep_first(it.magnet, v), ..it }
    } else if enclosure {
        ItemState { enclosure_url: keep_first(it.enclosure_url, v), ..it }
    } else {
        ItemState { link: keep_first(it.link, v), ..it }
    }
}

/// Text content of an awaited field (already trimmed).
pub open spec fn apply_text_spec(it: ItemState, f: Field, txt: Seq<char>) -> ItemState {
    if txt.len() == 0 {
        it
    } else {
        match f {
            Field::Title => ItemState { title: Some(txt), ..it },
            Field::Link => put_url(it, txt, false),
            Field::Size => ItemState { size: size_or(it.size, txt), ..it },
        }
    }
}

/// `<enclosure url=".." length=".."/>`, attribute by attribute.
pub open spec fn enclosure_spec(it: ItemState, attrs: Seq<(String, String)>) -> ItemState
    decreases attrs.len(),
{
    if attrs.len() == 0 {
        it
    } else {
        let prev = enclosure_spec(it, attrs.drop_last());
        let key = local_name_spec(attrs.last().0@);
        let val = attrs.last().1@;
        if key == "url"@ {
            put_url(prev, val, true)
        } else if key == "length"@ {
            ItemState { size: size_or(prev.size, val), ..prev }
        } else {
            prev
        }
    }
}

/// The `name` and `value` attributes of `<torznab:attr/>` (the last of each wins).
pub open spec fn attr_pair(attrs: Seq<(String, String)>) -> (Seq<char>, Seq<char>)
    decreases attrs.len(),
{
    if attrs.len() == 0 {
        (Seq::empty(), Seq::empty())
    } else {
        let prev = attr_pair(attrs.drop_last());
        let key = local_name_spec(attrs.last().0@);
        let val = attrs.last().1@;
        if key == "name"@ {
            (val, prev.1)
        } else if key == "value"@ {
            (prev.0, val)
        } else {
            prev
        }
    }
}

pub open spec fn torznab_spec(it: ItemState, attrs: Seq<(String, String)>) -> ItemState {
    let (name, value) = attr_pair(attrs);
    if name == "seeders"@ {
        ItemState { seeders: parsed_u32(value), ..it }
    } else if name == "size"@ {
        ItemState { size: size_or(it.size, value), ..it }
    } else if name == "magneturl"@ {
        ItemState { magnet: keep_first(it.magnet, value), ..it }
    } else {
        it
    }
}

/// A URL slot that counts: one holding something besides whitespace.
pub open spec fn usable(u: Option<Seq<char>>) -> Option<Seq<char>> {
    match u {
        Some(x) => if trim(x).len() > 0 {
            Some(x)
        } else {
            None
        },
        None => None,
    }
}

/// The release an item stands for: it needs a non-blank title and a
/// non-blank URL, the magnet link preferred, else the enclosure, else the
/// link (a blank slot counts as absent).
pub open spec fn item_release(it: ItemState) -> Option<ReleaseView> {
    let url = match usable(it.magnet) {
        Some(m) => Some(m),
        None => match usable(it.enclosure_url) {
            Some(e) => Some(e),
            None => usable(it.link),
        },
    };
    match (it.title, url) {
        (Some(t), Some(u)) => if trim(t).len() > 0 {
            Some(
                ReleaseView {
                    title: trim(t),
                    url: u,
                    size: match it.size {
                        Some(s) => s,
                        None => 0,
                    },
                    seeders: it.seeders,
                    indexer: Seq::empty(),
                },
            )
        } else {
            None
        },
        _ => None,
    }
}

/// A URL slot holding nothing but whitespace, or nothing at all.
pub open spec fn blank_slot(u: Option<Seq<char>>) -> bool {
    match u {
        Some(x) => trim(x).len() == 0,
        None => true,
    }
}

/// The download URL is the magnet link when there is one, else the
/// enclosure URL, else the item's link (a blank slot counts as none); an
/// item with a non-blank title and any non-blank URL gives a release, with
/// the title trimmed.
pub proof fn law_download_url_preference(it: ItemState)
    ensures
        !blank_slot(it.magnet) ==> (item_release(it) matches Some(r) ==> Some(r.url) == it.magnet),
        blank_slot(it.magnet) && !blank_slot(it.enclosure_url) ==> (item_release(it) matches Some(r)
            ==> Some(r.url) == it.enclosure_url),
        blank_slot(it.magnet) && blank_slot(it.enclosure_url) ==> (item_release(it) matches Some(r)
            ==> it.link == Some(r.url) && trim(r.url).len() > 0),
        it.title is Some && trim(it.title.unwrap()).len() > 0 && !(blank_slot(it.magnet) && blank_slot(
            it.enclosure_url,
        ) && blank_slot(it.link)) ==> (item_release(it) matches Some(r) && r.title == trim(
            it.title.unwrap(),
        )),
        item_release(it) is Some ==> it.title is Some && trim(it.title.unwrap()).len() > 0,
        item_release(it) matches Some(r) ==> r.size == (match it.size {
            Some(n) => n,
            None => 0u64,
        }) && r.seeders == it.seeders && r.indexer.len() == 0,
{
}

pub open spec fn field_of(name: Seq<char>) -> Option<Field> {
    if name == "title"@ {
        Some(Field::Title)
    } else if name == "link"@ {
        Some(Field::Link)
    } else if name == "size"@ {
        Some(Field::Size)
    } else {
        None
    }
}

/// One token's effect on the extraction state.
pub open spec fn step(st: ScanState, t: XmlToken) -> ScanState {
    match t {
        XmlToken::Start(n) => {
            let name = local_name_spec(n@);
            ScanState {
                out: st.out,
                cur: if name == "item"@ {
                    Some(empty_item())
                } else {
                    st.cur
                },
                field: field_of(name),
            }
        },
        XmlToken::Empty(n, attrs) => {
            let name = local_name_spec(n@);
            match st.cur {
                Some(it) => ScanState {
                    cur: Some(
                        if name == "enclosure"@ {
                            enclosure_spec(it, attrs@)
                        } else if name == "attr"@ {
                            torznab_spec(it, attrs@)
                        } else {
                            it
                        },
                    ),
                    ..st
                },
                None => st,
            }
        },
        XmlToken::Text(s) => ScanState {
            cur: match (st.cur, st.field) {
                (Some(it), Some(f)) => Some(apply_text_spec(it, f, trim(s@))),
                _ => st.cur,
            },
            field: None,
            ..st
        },
        XmlToken::CData(s) => ScanState {
            cur: match (st.cur, st.field) {
                (Some(it), Some(f)) => Some(apply_text_spec(it, f, trim(s@))),
                _ => st.cur,
            },
            field: None,
            ..st
        },
        XmlToken::End(n) => {
            if local_name_spec(n@) == "item"@ {
                ScanState {
                    out: match st.cur {
                        Some(it) => match item_release(it) {
                            Some(r) => st.out.push(r),
                            None => st.out,
                        },
                        None => st.out,
                    },
                    cur: None,
                    field: None,
                }
            } else {
                ScanState { field: None, ..st }
            }
        },
        XmlToken::Other => st,
        XmlToken::Finished => st,
    }
}

/// Feed tokens through `step` until the first `Finished`.
pub open spec fn run(toks: Seq<XmlToken>, st: ScanState) -> ScanState
    decreases toks.len(),
{
    if toks.len() == 0 {
        st
    } else if toks[0] is Finished {
        st
    } else {
        run(toks.drop_first(), step(st, toks[0]))
    }
}

pub open spec fn initial_state() -> ScanState {
    ScanState { out: Seq::empty(), cur: None, field: None }
}

/// The releases a token stream describes.
pub open spec fn items_spec(toks: Seq<XmlToken>) -> Seq<ReleaseView> {
    run(toks, initial_state()).out
}

/// A release as the feed parser yields it: a title without surrounding
/// whitespace, a URL that is not blank, and no indexer yet.
pub open spec fn release_well_formed(r: ReleaseView) -> bool {
    &&& r.title.len() > 0
    &&& !is_ws(r.title[0])
    &&& !is_ws(r.title.last())
    &&& trim(r.url).len() > 0
    &&& r.indexer.len() == 0
}

proof fn lemma_trim_ends(t: Seq<char>)
    requires
        trim(t).len() > 0,
    ensures
        !is_ws(trim(t)[0]),
        !is_ws(trim(t).last()),
{
    lemma_trim_start_props(t);
    lemma_trim_end_props(trim_start(t));
    assert(trim(t)[0] == trim_start(t)[0]);
}

proof fn lemma_item_release_ok(it: ItemState)
    ensures
        item_release(it) matches Some(r) ==> release_well_formed(r),
{
    match it.title {
        Some(t) => {
            if trim(t).len() > 0 {
                lemma_trim_ends(t);
            }
        },
        None => {},
    }
}

proof fn lemma_run_ok(toks: Seq<XmlToken>, st: ScanState)
    requires
        forall|i: int| 0 <= i < st.out.len() ==> release_well_formed(#[trigger] st.out[i]),
    ensures
        forall|i: int|
            0 <= i < run(toks, st).out.len() ==> release_well_formed(#[trigger] run(toks, st).out[i]),
    decreases toks.len(),
{
    if toks.len() > 0 && !(toks[0] is Finished) {
        let st2 = step(st, toks[0]);
        match toks[0] {
            XmlToken::End(n) => {
                match st.cur {
                    Some(it) => {
                        lemma_item_release_ok(it);
                        if local_name_spec(n@) == "item"@ {
                            match item_release(it) {
                                Some(r) => {
                                    assert forall|i: int| 0 <= i < st2.out.len() implies release_well_formed(
                                        #[trigger] st2.out[i],
                                    ) by {
                                        if i < st.out.len() {
                                            assert(st2.out[i] == st.out[i]);
                                        }
                                    }
                                },
                                None => {},
                            }
                        }
                    },
                    None => {},
                }
            },
            _ => {},
        }
        lemma_run_ok(toks.drop_first(), st2);
    }
}

/// Every release read from a feed has a title without surrounding
/// whitespace and a URL that is not blank.
pub proof fn law_feed_items_well_formed(toks: Seq<XmlToken>)
    ensures
        forall|i: int|
            0 <= i < items_spec(toks).len() ==> release_well_formed(#[trigger] items_spec(toks)[i]),
{
    lemma_run_ok(toks, initial_state());
}

// ---------------------------------------------------------------------------
// executable counterparts
// ---------------------------------------------------------------------------

struct Item {
    title: Option<String>,
    link: Option<String>,
    enclosure_url: Option<String>,
    magnet: Option<String>,
    size: Option<u64>,
    seeders: Option<u32>,
}

impl Item {
    spec fn state(&self) -> ItemState {
        ItemState {
            title: self.title.deep_view(),
            link: self.link.deep_view(),
            enclosure_url: self.enclosure_url.deep_view(),
            magnet: self.magnet.deep_view(),
            size: self.size,
            seeders: self.seeders,
        }
    }

    fn new() -> (r: Item)
        ensures
            r.state() == empty_item(),
    {
        Item {
            title: None,
            link: None,
            enclosure_url: None,
            magnet: None,
            size: None,
            seeders: None,
        }
    }

    /// The item's release, if it has a usable title and URL.
    fn into_release(self) -> (r: Option<Release>)
        ensures
            match r {
                Some(x) => item_release(self.state()) == Some(x@),
                None => item_release(self.state()) is None,
            },
    {
        let url = match usable_exec(self.magnet) {
            Some(m) => Some(m),
            None => match usable_exec(self.enclosure_url) {
                Some(e) => Some(e),
                None => usable_exec(self.link),
            },
        };
        let title = match self.title {
            Some(t) => t,
            None => {
                return None;
            },
        };
        let url = match url {
            Some(u) => u,
            None => {
                return None;
            },
        };
        let tv = str_chars(title.as_str());
        let tt = trim_chars(tv.as_slice());
        if tt.len() == 0 {
            return None;
        }
        Some(
            Release {
                title: string_from_chars(tt.as_slice()),
                url,
                size: match self.size {
                    Some(s) => s,
                    None => 0,
                },
                seeders: self.seeders,
                indexer: String::new(),
            },
        )
    }
}

fn usable_exec(u: Option<String>) -> (r: Option<String>)
    ensures
        r.deep_view() == usable(u.deep_view()),
{
    match u {
        Some(x) => {
            let v = str_chars(x.as_str());
            let t = trim_chars(v.as_slice());
            if t.len() > 0 {
                Some(x)
            } else {
                None
            }
        },
        None => None,
    }
}

/// Strip any namespace prefix (`torznab:attr` becomes `attr`) and lower-case.
pub fn local_name(raw: &str) -> (r: Vec<char>)
    ensures
        r@ == local_name_spec(raw@),
{
    let v = str_chars(raw);
    let mut k: usize = v.len();
    assert(v@.subrange(0, k as int) =~= v@);
    assert(v@.subrange(k as int, k as int) =~= Seq::<char>::empty());
    while k > 0 && v[k - 1] != ':'
        invariant
            k <= v.len(),
            forall|j: int| k <= j < v.len() ==> v@[j] != ':',
            after_last_colon(v@) == after_last_colon(v@.subrange(0, k as int)) + v@.subrange(
                k as int,
                v.len() as int,
            ),
        decreases k,
    {
        proof {
            let p = v@.subrange(0, k as int);
            assert(p.drop_last() =~= v@.subrange(0, k - 1));
            assert(p.last() == v@[k - 1]);
            assert(v@.subrange(k - 1, v.len() as int) =~= seq![v@[k - 1]] + v@.subrange(
                k as int,
                v.len() as int,
            ));
            assert(after_last_colon(v@.subrange(0, k - 1)).push(v@[k - 1]) + v@.subrange(
                k as int,
                v.len() as int,
            ) =~= after_last_colon(v@.subrange(0, k - 1)) + v@.subrange(k - 1, v.len() as int));
        }
        k -= 1;
    }
    proof {
        if k > 0 {
            let p = v@.subrange(0, k as int);
            assert(p.last() == ':');
            assert(after_last_colon(p) =~= Seq::<char>::empty());
        } else {
            assert(v@.subrange(0, 0) =~= Seq::<char>::empty());
        }
        assert(v@.subrange(0, v.len() as int) =~= v@);
    }
    let mut tail: Vec<char> = Vec::new();
    let mut i: usize = k;
    while i < v.len()
        invariant
            k <= i <= v.len(),
            tail@ == v@.subrange(k as int, i as int),
        decreases v.len() - i,
    {
        tail.push(v[i]);
        i += 1;
        assert(tail@ =~= v@.subrange(k as int, i as int));
    }
    proof {
        assert(after_last_colon(v@) =~= tail@);
    }
    to_ascii_lower(tail.as_slice())
}

fn eq_str(a: &Vec<char>, b: &str) -> (r: bool)
    ensures
        r == (a@ == b@),
{
    let bv = str_chars(b);
    if a.len() != bv.len() {
        return false;
    }
    let mut i: usize = 0;
    while i < a.len()
        invariant
            a.len() == bv.len(),
            bv@ == b@,
            i <= a.len(),
            forall|j: int| 0 <= j < i ==> a@[j] == bv@[j],
        decreases a.len() - i,
    {
        if a[i] != bv[i] {
            return false;
        }
        i += 1;
    }
    assert(a@ =~= bv@);
    true
}

fn keep_first_exec(slot: &mut Option<String>, v: String)
    ensures
        final(slot).deep_view() == keep_first(old(slot).deep_view(), v@),
{
    if slot.is_none() {
        *slot = Some(v);
    }
}

fn put_url_exec(it: &mut Item, v: String, enclosure: bool)
    ensures
        final(it).state() == put_url(old(it).state(), v@, enclosure),
{
    let vv = str_chars(v.as_str());
    let m = str_chars("magnet:");
    if starts_with_chars(vv.as_slice(), m.as_slice()) {
        keep_first_exec(&mut it.magnet, v);
    } else if enclosure {
        keep_first_exec(&mut it.enclosure_url, v);
    } else {
        keep_first_exec(&mut it.link, v);
    }
}

fn size_or_exec(size: Option<u64>, s: &str) -> (r: Option<u64>)
    ensures
        r == size_or(size, s@),
{
    match size {
        Some(x) => Some(x),
        None => {
            let v = str_chars(s);
            parse_u64(v.as_slice())
        },
    }
}

fn apply_text(it: &mut Item, f: Field, txt: String)
    ensures
        final(it).state() == apply_text_spec(old(it).state(), f, txt@),
{
    if txt.as_str().is_empty() {
        return;
    }
    match f {
        Field::Title => {
            it.title = Some(txt);
        },
        Field::Link => {
            put_url_exec(it, txt, false);
        },
        Field::Size => {
            it.size = size_or_exec(it.size, txt.as_str());
        },
    }
}

fn read_enclosure(attrs: &Vec<(String, String)>, it: &mut Item)
    ensures
        final(it).state() == enclosure_spec(old(it).state(), attrs@),
{
    let mut i: usize = 0;
    while i < attrs.len()
        invariant
            i <= attrs.len(),
            it.state() == enclosure_spec(old(it).state(), attrs@.subrange(0, i as int)),
        decreases attrs.len() - i,
    {
        proof {
            assert(attrs@.subrange(0, i + 1).drop_last() =~= attrs@.subrange(0, i as int));
        }
        let key = local_name(attrs[i].0.as_str());
        let val = attrs[i].1.clone();
        if eq_str(&key, "url") {
            put_url_exec(it, val, true);
        } else if eq_str(&key, "length") {
            it.size = size_or_exec(it.size, val.as_str());
        }
        i += 1;
    }
    assert(attrs@.subrange(0, attrs.len() as int) =~= attrs@);
}

fn read_torznab_attr(attrs: &Vec<(String, String)>, it: &mut Item)
    ensures
        final(it).state() == torznab_spec(old(it).state(), attrs@),
{
    let mut name = String::new();
    let mut value = String::new();
    let mut i: usize = 0;
    while i < attrs.len()
        invariant
            i <= attrs.len(),
            (name@, value@) == attr_pair(attrs@.subrange(0, i as int)),
        decreases attrs.len() - i,
    {
        proof {
            assert(attrs@.subrange(0, i + 1).drop_last() =~= attrs@.subrange(0, i as int));
        }
        let key = local_name(attrs[i].0.as_str());
        if eq_str(&key, "name") {
            name = attrs[i].1.clone();
        } else if eq_str(&key, "value") {
            value = attrs[i].1.clone();
        }
        i += 1;
    }
    assert(attrs@.subrange(0, attrs.len() as int) =~= attrs@);
    let nv = str_chars(name.as_str());
    if eq_str(&nv, "seeders") {
        let vv = str_chars(value.as_str());
        it.seeders = parse_u32(vv.as_slice());
    } else if eq_str(&nv, "size") {
        it.size = size_or_exec(it.size, value.as_str());
    } else if eq_str(&nv, "magneturl") {
        keep_first_exec(&mut it.magnet, value);
    }
}

fn trimmed(s: &String) -> (r: String)
    ensures
        r@ == trim(s@),
{
    let v = str_chars(s.as_str());
    let t = trim_chars(v.as_slice());
    string_from_chars(t.as_slice())
}

/// Apply one token to the extraction state.
fn step_exec(
    out: &mut Vec<Release>,
    cur: &mut Option<Item>,
    field: &mut Option<Field>,
    t: &XmlToken,
)
    ensures
        ({
            let before = ScanState {
                out: old(out)@.map_values(|r: Release| r@),
                cur: match *old(cur) {
                    Some(i) => Some(i.state()),
                    None => None,
                },
                field: *old(field),
            };
            let after = step(before, *t);
            &&& final(out)@.map_values(|r: Release| r@) == after.out
            &&& match *final(cur) {
                Some(i) => after.cur == Some(i.state()),
                None => after.cur is None,
            }
            &&& *final(field) == after.field
        }),
{
    match t {
        XmlToken::Start(n) => {
            let name = local_name(n.as_str());
            if eq_str(&name, "item") {
                *cur = Some(Item::new());
            }
            *field = if eq_str(&name, "title") {
                Some(Field::Title)
            } else if eq_str(&name, "link") {
                Some(Field::Link)
            } else if eq_str(&name, "size") {
                Some(Field::Size)
            } else {
                None
            };
        },
        XmlToken::Empty(n, attrs) => {
            let name = local_name(n.as_str());
            match cur {
                Some(it) => {
                    if eq_str(&name, "enclosure") {
                        read_enclosure(attrs, it);
                    } else if eq_str(&name, "attr") {
                        read_torznab_attr(attrs, it);
                    }
                },
                None => {},
            }
        },
        XmlToken::Text(s) => {
            match *field {
                Some(f) => match cur {
                    Some(it) => {
                        apply_text(it, f, trimmed(s));
                    },
                    None => {},
                },
                None => {},
            }
            *field = None;
        },
        XmlToken::CData(s) => {
            match *field {
                Some(f) => match cur {
                    Some(it) => {
                        apply_text(it, f, trimmed(s));
                    },
                    None => {},
                },
                None => {},
            }
            *field = None;
        },
        XmlToken::End(n) => {
            let name = local_name(n.as_str());
            if eq_str(&name, "item") {
                let taken = cur.take();
                match taken {
                    Some(it) => match it.into_release() {
                        Some(r) => {
                            let ghost before = out@.map_values(|r: Release| r@);
                            out.push(r);
                            assert(out@.map_values(|r: Release| r@) =~= before.push(r@));
                        },
                        None => {},
                    },
                    None => {},
                }
            }
            *field = None;
        },
        XmlToken::Other => {},
        XmlToken::Finished => {},
    }
}

proof fn lemma_run_append(a: Seq<XmlToken>, b: Seq<XmlToken>, st: ScanState)
    requires
        forall|i: int| 0 <= i < a.len() ==> !(#[trigger] a[i] is Finished),
    ensures
        run(a + b, st) == run(b, run(a, st)),
    decreases a.len(),
{
    if a.len() == 0 {
        assert(a + b =~= b);
    } else {
        assert((a + b).drop_first() =~= a.drop_first() + b);
        assert((a + b)[0] == a[0]);
        lemma_run_append(a.drop_first(), b, step(st, a[0]));
    }
}

/// The releases described by a token stream (up to its first `Finished`).
pub fn items_from_tokens(toks: &Vec<XmlToken>) -> (r: Vec<Release>)
    ensures
        r@.map_values(|x: Release| x@) == items_spec(toks@),
{
    let mut out: Vec<Release> = Vec::new();
    let mut cur: Option<Item> = None;
    let mut field: Option<Field> = None;
    let mut i: usize = 0;
    let mut done = false;
    assert(toks@.subrange(0, toks.len() as int) =~= toks@);
    assert(out@.map_values(|r: Release| r@) =~= Seq::<ReleaseView>::empty());
    while i < toks.len() && !done
        invariant
            i <= toks.len(),
            done ==> i < toks.len() && toks@[i as int] is Finished,
            run(
                toks@.subrange(i as int, toks.len() as int),
                ScanState {
                    out: out@.map_values(|r: Release| r@),
                    cur: match cur {
                        Some(it) => Some(it.state()),
                        None => None,
                    },
                    field,
                },
            ) == run(toks@, initial_state()),
        decreases toks.len() - i + (if done { 0int } else { 1int }),
    {
        let ghost rest = toks@.subrange(i as int, toks.len() as int);
        assert(rest[0] == toks@[i as int]);
        if let XmlToken::Finished = &toks[i] {
            done = true;
        } else {
            assert(rest.drop_first() =~= toks@.subrange(i + 1, toks.len() as int));
            step_exec(&mut out, &mut cur, &mut field, &toks[i]);
            i += 1;
        }
    }
    proof {
        if !done {
            assert(toks@.subrange(i as int, toks.len() as int) =~= Seq::<XmlToken>::empty());
        }
        assert(initial_state().out =~= Seq::<ReleaseView>::empty());
    }
    out
}

/// Extract the releases from an RSS / Torznab document.
pub fn parse_items(xml: &str) -> (r: Vec<Release>)
    ensures
        r@.map_values(|x: Release| x@) == items_spec(xml_token_stream(xml@)),
{
    let mut reader = xml_reader(xml);
    let mut toks: Vec<XmlToken> = Vec::new();
    loop
        invariant_except_break
            xml_token_stream(xml@) == toks@ + xml_pending(reader),
            forall|i: int| 0 <= i < toks@.len() ==> !(#[trigger] toks@[i] is Finished),
        ensures
            run(xml_token_stream(xml@), initial_state()) == run(toks@, initial_state()),
        decreases xml_pending(reader).len(),
    {
        let ghost before = xml_pending(reader);
        let t = xml_next_token(&mut reader);
        if let XmlToken::Finished = t {
            proof {
                lemma_run_append(toks@, before, initial_state());
                if before.len() == 0 {
                    assert(toks@ + before =~= toks@);
                }
            }
            break;
        }
        proof {
            assert(before[0] == t);
            assert(toks@.push(t) + before.drop_first() =~= toks@ + before);
        }
        toks.push(t);
    }
    items_from_tokens(&toks)
}

} // verus!
