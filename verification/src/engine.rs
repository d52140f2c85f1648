//! The torrent engine's own logic, apart from the BitTorrent session it
//! drives: rate-limit conversion, labels for pending adds, path confinement
//! to the browse root, the placeholder list of adds still resolving, the
//! torrent state shown to the UI and the capped traffic history.

use vstd::prelude::*;

use crate::text::{
    decimal, extend_chars, has_char_exec, push_str, slice_range, starts_with, starts_with_chars,
    str_chars, string_from_chars, trim, trim_chars, utf8_lossy, bytes_to_string_lossy,
};
use crate::types::{strings_view, FileEntry, FileEntryView, TorrentState};
use vstd::string::StringExecFns;
use vstd::utf8::encode_utf8;
use vstd::string::StringSliceAdditionalSpecFns;

verus! {

// ---------------------------------------------------------------------------
// rate limits
// ---------------------------------------------------------------------------

/// A KiB/s limit as a bytes-per-second cap: `None` (unlimited) for 0,
/// otherwise `kbps * 1024`, saturating at `u32::MAX`.
pub open spec fn kbps_spec(kbps: u32) -> Option<u32> {
    if kbps == 0 {
        None
    } else if kbps * 1024 > u32::MAX {
        Some(u32::MAX)
    } else {
        Some((kbps * 1024) as u32)
    }
}

pub fn kbps_to_nz(kbps: u32) -> (r: Option<u32>)
    ensures
        r == kbps_spec(kbps),
        r matches Some(v) ==> v != 0,
{
    if kbps == 0 {
        None
    } else if kbps > u32::MAX / 1024 {
        Some(u32::MAX)
    } else {
        Some(kbps * 1024)
    }
}

/// The engine's rate caps in bytes per second (`None` = unlimited).
pub struct RateLimits {
    pub download_bps: Option<u32>,
    pub upload_bps: Option<u32>,
}

/// The caps for the configured KiB/s limits.
pub fn limits_config(down_limit_kbps: u32, up_limit_kbps: u32) -> (r: RateLimits)
    ensures
        r.download_bps == kbps_spec(down_limit_kbps),
        r.upload_bps == kbps_spec(up_limit_kbps),
{
    RateLimits { download_bps: kbps_to_nz(down_limit_kbps), upload_bps: kbps_to_nz(up_limit_kbps) }
}

/// A torrent's files as the inspector shows them: numbered by position,
/// with the downloaded bytes of the same position (0 where none is known).
pub open spec fn with_progress(files: Seq<FileEntryView>, progress: Seq<u64>) -> Seq<FileEntryView> {
    Seq::new(
        files.len(),
        |i: int|
            FileEntryView {
                index: i as usize,
                have_bytes: if i < progress.len() {
                    progress[i]
                } else {
                    0
                },
                ..files[i]
            },
    )
}

pub open spec fn file_views(s: Seq<FileEntry>) -> Seq<FileEntryView> {
    s.map_values(|f: FileEntry| f@)
}

pub fn attach_progress(files: Vec<FileEntry>, progress: &Vec<u64>) -> (r: Vec<FileEntry>)
    ensures
        file_views(r@) == with_progress(file_views(files@), progress@),
{
    let ghost orig = file_views(files@);
    let mut src = files;
    let mut out: Vec<FileEntry> = Vec::new();
    let mut i: usize = 0;
    let n = src.len();
    while src.len() > 0
        invariant
            i + src@.len() == n == orig.len(),
            file_views(src@) == orig.subrange(i as int, n as int),
            file_views(out@) == with_progress(orig, progress@).subrange(0, i as int),
        decreases src@.len(),
    {
        let ghost before = src@;
        let f = src.remove(0);
        proof {
            assert(file_views(before)[0] == f@);
            assert(orig[i as int] == f@);
            assert(src@ =~= before.subrange(1, before.len() as int));
            assert(file_views(src@) =~= file_views(before).subrange(1, before.len() as int));
            assert(file_views(src@) =~= orig.subrange(i + 1, n as int));
        }
        let have = if i < progress.len() {
            progress[i]
        } else {
            0
        };
        let e = FileEntry {
            index: i,
            components: f.components,
            length: f.length,
            have_bytes: have,
            included: f.included,
        };
        let ghost prev = file_views(out@);
        out.push(e);
        proof {
            assert(file_views(out@) =~= prev.push(e@));
            assert(with_progress(orig, progress@).subrange(0, i + 1) =~= with_progress(
                orig,
                progress@,
            ).subrange(0, i as int).push(e@));
        }
        i += 1;
    }
    assert(with_progress(orig, progress@).subrange(0, i as int) =~= with_progress(orig, progress@));
    out
}

/// The file list of a metadata-only listing, each file given as its path
/// components, its length and whether it is selected: numbered by position,
/// with nothing downloaded yet.
pub open spec fn listed_files(files: Seq<(Vec<String>, u64, bool)>) -> Seq<FileEntryView> {
    Seq::new(
        files.len(),
        |i: int|
            FileEntryView {
                index: i as usize,
                components: strings_view(files[i].0@),
                length: files[i].1,
                have_bytes: 0,
                included: files[i].2,
            },
    )
}

/// Turns the files of a metadata-only listing into the inspector's entries;
/// a listing without files gives none.
pub fn files_from_details(files: Option<Vec<(Vec<String>, u64, bool)>>) -> (r: Vec<FileEntry>)
    ensures
        file_views(r@) == (match files {
            Some(v) => listed_files(v@),
            None => Seq::empty(),
        }),
{
    let mut src = match files {
        Some(v) => v,
        None => Vec::new(),
    };
    let ghost orig = src@;
    let n = src.len();
    let mut out: Vec<FileEntry> = Vec::new();
    let mut i: usize = 0;
    while src.len() > 0
        invariant
            i + src@.len() == n == orig.len(),
            src@ == orig.subrange(i as int, n as int),
            file_views(out@) == listed_files(orig).subrange(0, i as int),
        decreases src@.len(),
    {
        let ghost before = src@;
        let (components, length, included) = src.remove(0);
        proof {
            assert(src@ =~= orig.subrange(i + 1, n as int));
        }
        let e = FileEntry { index: i, components, length, have_bytes: 0, included };
        let ghost prev = file_views(out@);
        out.push(e);
        proof {
            assert(before[0] == orig[i as int]);
            assert(file_views(out@) =~= prev.push(e@));
            assert(listed_files(orig).subrange(0, i + 1) =~= listed_files(orig).subrange(
                0,
                i as int,
            ).push(e@));
        }
        i += 1;
    }
    assert(listed_files(orig).subrange(0, i as int) =~= listed_files(orig));
    out
}

// ---------------------------------------------------------------------------
// labels for pending adds
// ---------------------------------------------------------------------------

/// Value of an ASCII hex digit.
pub open spec fn hex_spec(b: u8) -> Option<u8> {
    if 0x30 <= b && b <= 0x39 {
        Some((b - 0x30) as u8)
    } else if 0x61 <= b && b <= 0x66 {
        Some((b - 0x61 + 10) as u8)
    } else if 0x41 <= b && b <= 0x46 {
        Some((b - 0x41 + 10) as u8)
    } else {
        None
    }
}

pub fn hex_val(b: u8) -> (r: Option<u8>)
    ensures
        r == hex_spec(b),
{
    if 0x30 <= b && b <= 0x39 {
        Some(b - 0x30)
    } else if 0x61 <= b && b <= 0x66 {
        Some(b - 0x61 + 10)
    } else if 0x41 <= b && b <= 0x46 {
        Some(b - 0x41 + 10)
    } else {
        None
    }
}

/// Form-urlencoded decoding of bytes: `%XY` with two hex digits becomes that
/// byte (only when both digits are present), `+` becomes a space.
pub open spec fn pct_from(b: Seq<u8>) -> Seq<u8>
    decreases b.len(),
{
    if b.len() == 0 {
        b
    } else if b[0] == 0x25 && 2 < b.len() && hex_spec(b[1]) is Some && hex_spec(b[2]) is Some {
        seq![(hex_spec(b[1]).unwrap() * 16 + hex_spec(b[2]).unwrap()) as u8] + pct_from(
            b.subrange(3, b.len() as int),
        )
    } else if b[0] == 0x2b {
        seq![0x20u8] + pct_from(b.drop_first())
    } else {
        seq![b[0]] + pct_from(b.drop_first())
    }
}

/// Minimal percent-decoder for display labels; invalid UTF-8 in the result
/// is replaced as `String::from_utf8_lossy` does.
pub open spec fn percent_decode_spec(bytes: Seq<u8>) -> Seq<char> {
    utf8_lossy(pct_from(bytes))
}

/// Text without `%` or `+` decodes to itself.
pub open spec fn plain_text(s: Seq<char>) -> bool {
    forall|i: int| 0 <= i < s.len() ==> #[trigger] s[i] != '%' && s[i] != '+'
}

pub fn percent_decode(s: &str) -> (r: String)
    ensures
        r@ == percent_decode_spec(encode_utf8(s@)),
        plain_text(s@) ==> r@ == s@,
{
    proof {
        if plain_text(s@) {
            lemma_encode_plain(s@);
            lemma_pct_identity(encode_utf8(s@));
            vstd::utf8::encode_utf8_valid_utf8(s@);
            vstd::utf8::encode_utf8_decode_utf8(s@);
        }
    }
    let bytes = s.as_bytes();
    let mut out: Vec<u8> = Vec::new();
    let mut i: usize = 0;
    assert(bytes@.subrange(0, bytes@.len() as int) =~= bytes@);
    while i < bytes.len()
        invariant
            i <= bytes@.len(),
            bytes@ == encode_utf8(s@),
            out@ + pct_from(bytes@.subrange(i as int, bytes@.len() as int)) == pct_from(bytes@),
        decreases bytes@.len() - i,
    {
        let ghost rest = bytes@.subrange(i as int, bytes@.len() as int);
        let b = bytes[i];
        let mut step: usize = 1;
        if b == 0x25 && bytes.len() - i > 2 {
            let h1 = hex_val(bytes[i + 1]);
            let h2 = hex_val(bytes[i + 2]);
            match (h1, h2) {
                (Some(x), Some(y)) => {
                    out.push(x * 16 + y);
                    step = 3;
                    proof {
                        assert(rest.subrange(3, rest.len() as int) =~= bytes@.subrange(
                            i + 3,
                            bytes@.len() as int,
                        ));
                    }
                },
                _ => {
                    out.push(b);
                },
            }
        } else if b == 0x2b {
            out.push(0x20);
        } else {
            out.push(b);
        }
        proof {
            if step == 1 {
                assert(rest.drop_first() =~= bytes@.subrange(i + 1, bytes@.len() as int));
            }
            assert(out@ + pct_from(bytes@.subrange(i + step, bytes@.len() as int)) =~= pct_from(
                bytes@,
            ));
        }
        i = i + step;
    }
    assert(bytes@.subrange(i as int, bytes@.len() as int) =~= Seq::<u8>::empty());
    assert(out@ + pct_from(Seq::<u8>::empty()) =~= out@);
    bytes_to_string_lossy(out.as_slice())
}

/// The upper-case hex digit of a value below 16.
pub open spec fn hex_upper(d: u8) -> u8 {
    if d < 10 {
        (0x30 + d) as u8
    } else {
        (0x41 + d - 10) as u8
    }
}

/// Percent-encoding of every byte: `%` and two upper-case hex digits each.
pub open spec fn pct_encode(b: Seq<u8>) -> Seq<u8>
    decreases b.len(),
{
    if b.len() == 0 {
        b
    } else {
        seq![0x25u8, hex_upper(b[0] / 16), hex_upper(b[0] % 16)] + pct_encode(b.drop_first())
    }
}

/// Decoding undoes percent-encoding: any bytes, each written as `%XY`,
/// decode to themselves, and the label is those bytes read as UTF-8 the way
/// `String::from_utf8_lossy` reads them.
pub proof fn law_percent_decode_roundtrip(b: Seq<u8>)
    ensures
        pct_from(pct_encode(b)) == b,
        percent_decode_spec(pct_encode(b)) == utf8_lossy(b),
    decreases b.len(),
{
    if b.len() > 0 {
        let x = b[0];
        let e = pct_encode(b);
        let rest = pct_encode(b.drop_first());
        law_percent_decode_roundtrip(b.drop_first());
        assert(e.subrange(3, e.len() as int) =~= rest);
        assert(hex_spec(hex_upper(x / 16)) == Some((x / 16) as u8));
        assert(hex_spec(hex_upper(x % 16)) == Some((x % 16) as u8));
        assert(e[0] == 0x25 && e[1] == hex_upper(x / 16) && e[2] == hex_upper(x % 16));
        assert(((x / 16) * 16 + x % 16) as u8 == x);
        assert(pct_from(e) =~= seq![x] + pct_from(rest));
        assert(seq![x] + b.drop_first() =~= b);
    }
}

/// Bytes other than `%` and `+` pass through the decoder unchanged.
proof fn lemma_pct_identity(b: Seq<u8>)
    requires
        forall|i: int| 0 <= i < b.len() ==> #[trigger] b[i] != 0x25 && b[i] != 0x2b,
    ensures
        pct_from(b) == b,
    decreases b.len(),
{
    if b.len() > 0 {
        let t = b.drop_first();
        assert forall|i: int| 0 <= i < t.len() implies #[trigger] t[i] != 0x25 && t[i] != 0x2b by {
            assert(t[i] == b[i + 1]);
        }
        lemma_pct_identity(t);
        assert(seq![b[0]] + t =~= b);
    }
}

/// The UTF-8 form of a character other than `%` and `+` holds neither byte.
proof fn lemma_scalar_plain(c: char)
    requires
        c != '%',
        c != '+',
    ensures
        forall|i: int|
            0 <= i < vstd::utf8::encode_scalar(c as u32).len() ==> #[trigger] vstd::utf8::encode_scalar(
                c as u32,
            )[i] != 0x25 && vstd::utf8::encode_scalar(c as u32)[i] != 0x2b,
{
    let v = c as u32;
    assert(v != 0x25 && v != 0x2b);
    assert(v <= 0x7F ==> (v & 0x7F) as u8 != 0x25 && (v & 0x7F) as u8 != 0x2b) by (bit_vector)
        requires
            v != 0x25 && v != 0x2b,
    ;
    assert(forall|x: u8| #![auto] (0xC0u8 | x) >= 0x80) by (bit_vector);
    assert(forall|x: u8| #![auto] (0xE0u8 | x) >= 0x80) by (bit_vector);
    assert(forall|x: u8| #![auto] (0xF0u8 | x) >= 0x80) by (bit_vector);
    assert(forall|x: u8| #![auto] (0x80u8 | x) >= 0x80) by (bit_vector);
}

proof fn lemma_encode_plain(s: Seq<char>)
    requires
        plain_text(s),
    ensures
        forall|i: int|
            0 <= i < encode_utf8(s).len() ==> #[trigger] encode_utf8(s)[i] != 0x25 && encode_utf8(
                s,
            )[i] != 0x2b,
    decreases s.len(),
{
    if s.len() > 0 {
        let t = s.drop_first();
        assert forall|i: int| 0 <= i < t.len() implies #[trigger] t[i] != '%' && t[i] != '+' by {
            assert(t[i] == s[i + 1]);
        }
        lemma_encode_plain(t);
        lemma_scalar_plain(s[0]);
        let a = vstd::utf8::encode_scalar(s[0] as u32);
        let b = encode_utf8(t);
        assert(encode_utf8(s) == a + b);
        assert forall|i: int| 0 <= i < encode_utf8(s).len() implies #[trigger] encode_utf8(s)[i]
            != 0x25 && encode_utf8(s)[i] != 0x2b by {
            if i < a.len() {
                assert(encode_utf8(s)[i] == a[i]);
            } else {
                assert(encode_utf8(s)[i] == b[i - a.len()]);
            }
        }
    }
}

/// Split on a character, keeping empty pieces (`str::split`).
pub open spec fn split_from(s: Seq<char>, sep: char, acc: Seq<Seq<char>>, cur: Seq<char>) -> Seq<
    Seq<char>,
>
    decreases s.len(),
{
    if s.len() == 0 {
        acc.push(cur)
    } else if s[0] == sep {
        split_from(s.drop_first(), sep, acc.push(cur), Seq::empty())
    } else {
        split_from(s.drop_first(), sep, acc, cur.push(s[0]))
    }
}

pub open spec fn split_on(s: Seq<char>, sep: char) -> Seq<Seq<char>> {
    split_from(s, sep, Seq::empty(), Seq::empty())
}

/// Pieces joined by a separator (`join`).
pub open spec fn join_with(parts: Seq<Seq<char>>, sep: char) -> Seq<char>
    decreases parts.len(),
{
    if parts.len() == 0 {
        Seq::empty()
    } else if parts.len() == 1 {
        parts[0]
    } else {
        parts[0] + seq![sep] + join_with(parts.drop_first(), sep)
    }
}

proof fn lemma_split_skip(x: Seq<char>, rest: Seq<char>, sep: char, acc: Seq<Seq<char>>, cur: Seq<char>)
    requires
        forall|i: int| 0 <= i < x.len() ==> #[trigger] x[i] != sep,
    ensures
        split_from(x + rest, sep, acc, cur) == split_from(rest, sep, acc, cur + x),
    decreases x.len(),
{
    if x.len() == 0 {
        assert(x + rest =~= rest);
        assert(cur + x =~= cur);
    } else {
        let y = x.drop_first();
        assert forall|i: int| 0 <= i < y.len() implies #[trigger] y[i] != sep by {
            assert(y[i] == x[i + 1]);
        }
        assert((x + rest)[0] == x[0]);
        assert((x + rest).drop_first() =~= y + rest);
        lemma_split_skip(y, rest, sep, acc, cur.push(x[0]));
        assert(cur.push(x[0]) + y =~= cur + x);
    }
}

/// Splitting what was joined gives the pieces back, when no piece holds
/// the separator.
pub proof fn law_split_undoes_join(parts: Seq<Seq<char>>, sep: char)
    requires
        parts.len() > 0,
        forall|k: int, i: int| 0 <= k < parts.len() && 0 <= i < parts[k].len() ==> #[trigger] parts[k][i] != sep,
    ensures
        split_on(join_with(parts, sep), sep) == parts,
{
    lemma_split_join_from(parts, sep, Seq::empty());
    assert(Seq::<Seq<char>>::empty() + parts =~= parts);
}

proof fn lemma_split_join_from(parts: Seq<Seq<char>>, sep: char, acc: Seq<Seq<char>>)
    requires
        parts.len() > 0,
        forall|k: int, i: int| 0 <= k < parts.len() && 0 <= i < parts[k].len() ==> #[trigger] parts[k][i] != sep,
    ensures
        split_from(join_with(parts, sep), sep, acc, Seq::empty()) == acc + parts,
    decreases parts.len(),
{
    let p0 = parts[0];
    assert forall|i: int| 0 <= i < p0.len() implies #[trigger] p0[i] != sep by {
        assert(parts[0][i] != sep);
    }
    if parts.len() == 1 {
        lemma_split_skip(p0, Seq::empty(), sep, acc, Seq::empty());
        assert(p0 + Seq::<char>::empty() =~= p0);
        assert(Seq::<char>::empty() + p0 =~= p0);
        assert(acc.push(p0) =~= acc + parts);
    } else {
        let rest = parts.drop_first();
        let j = join_with(rest, sep);
        assert(join_with(parts, sep) =~= p0 + (seq![sep] + j));
        lemma_split_skip(p0, seq![sep] + j, sep, acc, Seq::empty());
        assert(Seq::<char>::empty() + p0 =~= p0);
        assert((seq![sep] + j)[0] == sep);
        assert((seq![sep] + j).drop_first() =~= j);
        assert forall|k: int, i: int| 0 <= k < rest.len() && 0 <= i < rest[k].len() implies #[trigger] rest[k][i] != sep by {
            assert(rest[k] == parts[k + 1]);
        }
        lemma_split_join_from(rest, sep, acc.push(p0));
        assert(acc.push(p0) + rest =~= acc + parts);
    }
}

pub open spec fn views(v: Seq<Vec<char>>) -> Seq<Seq<char>> {
    v.map_values(|x: Vec<char>| x@)
}

pub fn split_chars(s: &[char], sep: char) -> (r: Vec<Vec<char>>)
    ensures
        views(r@) == split_on(s@, sep),
{
    let mut acc: Vec<Vec<char>> = Vec::new();
    let mut cur: Vec<char> = Vec::new();
    let mut i: usize = 0;
    assert(s@.subrange(0, s.len() as int) =~= s@);
    assert(views(acc@) =~= Seq::<Seq<char>>::empty());
    while i < s.len()
        invariant
            i <= s.len(),
            split_from(s@.subrange(i as int, s.len() as int), sep, views(acc@), cur@) == split_on(
                s@,
                sep,
            ),
        decreases s.len() - i,
    {
        let ghost rest = s@.subrange(i as int, s.len() as int);
        assert(rest.drop_first() =~= s@.subrange(i + 1, s.len() as int));
        if s[i] == sep {
            let ghost before = views(acc@);
            let piece = cur;
            acc.push(piece);
            assert(views(acc@) =~= before.push(piece@));
            cur = Vec::new();
            assert(cur@ =~= Seq::<char>::empty());
        } else {
            cur.push(s[i]);
        }
        i += 1;
    }
    assert(s@.subrange(i as int, s.len() as int) =~= Seq::<char>::empty());
    let ghost before = views(acc@);
    let piece = cur;
    acc.push(piece);
    assert(views(acc@) =~= before.push(piece@));
    acc
}

/// UTF-8 width of a character, in bytes.
pub open spec fn utf8_len(c: char) -> int {
    let u = c as u32;
    if u < 0x80 {
        1
    } else if u < 0x800 {
        2
    } else if u < 0x10000 {
        3
    } else {
        4
    }
}

/// Total UTF-8 width of a string, in bytes.
pub open spec fn utf8_width(s: Seq<char>) -> int
    decreases s.len(),
{
    if s.len() == 0 {
        0
    } else {
        utf8_len(s[0]) + utf8_width(s.drop_first())
    }
}

/// The characters occupying exactly the first `n` bytes; `None` when byte
/// `n` falls inside a character or past the end (`str::get(..n)`).
pub open spec fn byte_prefix(s: Seq<char>, n: int) -> Option<Seq<char>>
    decreases s.len(),
{
    if n == 0 {
        Some(Seq::empty())
    } else if s.len() == 0 || utf8_len(s[0]) > n {
        None
    } else {
        match byte_prefix(s.drop_first(), n - utf8_len(s[0])) {
            Some(p) => Some(seq![s[0]] + p),
            None => None,
        }
    }
}

pub fn char_utf8_len(c: char) -> (r: usize)
    ensures
        r == utf8_len(c),
{
    let u = c as u32;
    if u < 0x80 {
        1
    } else if u < 0x800 {
        2
    } else if u < 0x10000 {
        3
    } else {
        4
    }
}

/// The characters making up exactly the first `n` bytes, if they do.
pub fn prefix_bytes(s: &[char], n: usize) -> (r: Option<Vec<char>>)
    ensures
        match r {
            Some(p) => byte_prefix(s@, n as int) == Some(p@),
            None => byte_prefix(s@, n as int) is None,
        },
{
    let mut i: usize = 0;
    let mut rem: usize = n;
    assert(s@.subrange(0, s.len() as int) =~= s@);
    while i < s.len() && rem > 0 && char_utf8_len(s[i]) <= rem
        invariant
            i <= s.len(),
            rem <= n,
            match byte_prefix(s@.subrange(i as int, s.len() as int), rem as int) {
                Some(p) => byte_prefix(s@, n as int) == Some(s@.subrange(0, i as int) + p),
                None => byte_prefix(s@, n as int) is None,
            },
        decreases s.len() - i,
    {
        let ghost t = s@.subrange(i as int, s.len() as int);
        assert(t.drop_first() =~= s@.subrange(i + 1, s.len() as int));
        proof {
            match byte_prefix(t.drop_first(), rem - utf8_len(s@[i as int])) {
                Some(p) => {
                    assert(s@.subrange(0, i as int) + (seq![s@[i as int]] + p) =~= s@.subrange(
                        0,
                        i + 1,
                    ) + p);
                },
                None => {},
            }
        }
        rem = rem - char_utf8_len(s[i]);
        i += 1;
    }
    if rem == 0 {
        assert(s@.subrange(0, i as int) + Seq::<char>::empty() =~= s@.subrange(0, i as int));
        Some(slice_range(s, 0, i))
    } else {
        None
    }
}

/// The first `xt=urn:btih:` value among `&`-separated magnet parameters.
pub open spec fn first_btih(parts: Seq<Seq<char>>) -> Option<Seq<char>>
    decreases parts.len(),
{
    if parts.len() == 0 {
        None
    } else if starts_with(parts[0], "xt=urn:btih:"@) {
        Some(parts[0].subrange("xt=urn:btih:"@.len() as int, parts[0].len() as int))
    } else {
        first_btih(parts.drop_first())
    }
}


/// The decoded value of a `dn=` parameter.
pub open spec fn display_name_of(part: Seq<char>) -> Seq<char> {
    percent_decode_spec(encode_utf8(part.subrange("dn="@.len() as int, part.len() as int)))
}

/// The first `dn=` value whose decoded text is not blank.
pub open spec fn first_display_name(parts: Seq<Seq<char>>) -> Option<Seq<char>>
    decreases parts.len(),
{
    if parts.len() == 0 {
        None
    } else if starts_with(parts[0], "dn="@) && trim(display_name_of(parts[0])).len() > 0 {
        Some(display_name_of(parts[0]))
    } else {
        first_display_name(parts.drop_first())
    }
}

/// The last non-empty piece, if any.
pub open spec fn last_nonempty(parts: Seq<Seq<char>>) -> Option<Seq<char>>
    decreases parts.len(),
{
    if parts.len() == 0 {
        None
    } else if parts.last().len() > 0 {
        Some(parts.last())
    } else {
        last_nonempty(parts.drop_last())
    }
}

/// The last non-empty `/`-separated segment, or the whole text if none.
pub open spec fn last_segment(s: Seq<char>) -> Seq<char> {
    match last_nonempty(split_on(s, '/')) {
        Some(p) => p,
        None => s,
    }
}

/// The first 16 bytes of an info-hash (or all of it when shorter).
pub open spec fn short_hash(v: Seq<char>) -> Seq<char> {
    if utf8_width(v) <= 16 {
        v
    } else {
        byte_prefix(v, 16).unwrap()
    }
}

/// The `&`-separated parameters of a magnet link.
pub open spec fn magnet_params(source: Seq<char>) -> Seq<Seq<char>> {
    split_on(source.subrange("magnet:?"@.len() as int, source.len() as int), '&')
}

/// A friendly label for a pending add: a magnet's display name, else a
/// shortened info-hash, else `magnet link`; for a URL its last path segment.
pub open spec fn source_label_spec(source: Seq<char>) -> Seq<char> {
    if starts_with(source, "magnet:?"@) {
        match first_display_name(magnet_params(source)) {
            Some(n) => n,
            None => match first_btih(magnet_params(source)) {
                Some(v) => "magnet "@ + short_hash(v) + "\u{2026}"@,
                None => "magnet link"@,
            },
        }
    } else {
        last_segment(source)
    }
}

/// Cutting the info-hash after 16 bytes must land on a character boundary
/// (byte slicing a `str` elsewhere panics).
pub open spec fn source_label_ok(source: Seq<char>) -> bool {
    starts_with(source, "magnet:?"@) ==> (first_display_name(magnet_params(source)) is None ==> (
    match first_btih(magnet_params(source)) {
        Some(v) => utf8_width(v) <= 16 || byte_prefix(v, 16) is Some,
        None => true,
    }))
}

proof fn lemma_utf8_len_pos(c: char)
    ensures
        1 <= utf8_len(c) <= 4,
{
}

/// A byte prefix that exists ends inside the text and covers exactly `n` bytes.
proof fn lemma_byte_prefix_within(s: Seq<char>, n: int)
    requires
        byte_prefix(s, n) is Some,
    ensures
        n <= utf8_width(s),
    decreases s.len(),
{
    if n != 0 {
        lemma_utf8_len_pos(s[0]);
        lemma_byte_prefix_within(s.drop_first(), n - utf8_len(s[0]));
    } else {
        lemma_utf8_width_nonneg(s);
    }
}

proof fn lemma_utf8_width_nonneg(s: Seq<char>)
    ensures
        utf8_width(s) >= 0,
    decreases s.len(),
{
    if s.len() > 0 {
        lemma_utf8_len_pos(s[0]);
        lemma_utf8_width_nonneg(s.drop_first());
    }
}

/// The prefix covering every byte is the whole text.
proof fn lemma_byte_prefix_full(s: Seq<char>)
    ensures
        byte_prefix(s, utf8_width(s)) == Some(s),
    decreases s.len(),
{
    if s.len() > 0 {
        lemma_utf8_len_pos(s[0]);
        lemma_utf8_width_nonneg(s.drop_first());
        lemma_byte_prefix_full(s.drop_first());
        assert(seq![s[0]] + s.drop_first() =~= s);
    }
}

spec fn views_from(v: Seq<Vec<char>>, k: int) -> Seq<Seq<char>> {
    views(v).subrange(k, v.len() as int)
}

fn find_display_name(parts: &Vec<Vec<char>>) -> (r: Option<String>)
    ensures
        match r {
            Some(n) => first_display_name(views(parts@)) == Some(n@),
            None => first_display_name(views(parts@)) is None,
        },
{
    let dn = str_chars("dn=");
    let mut k: usize = 0;
    assert(views_from(parts@, 0) =~= views(parts@));
    while k < parts.len()
        invariant
            k <= parts.len(),
            dn@ == "dn="@,
            first_display_name(views_from(parts@, k as int)) == first_display_name(views(parts@)),
        decreases parts.len() - k,
    {
        let part = &parts[k];
        assert(views_from(parts@, k as int)[0] == part@);
        assert(views_from(parts@, k as int).drop_first() =~= views_from(parts@, k + 1));
        if starts_with_chars(part.as_slice(), dn.as_slice()) {
            let v = slice_range(part.as_slice(), dn.len(), part.len());
            let vs = string_from_chars(v.as_slice());
            let name = percent_decode(vs.as_str());
            let nc = str_chars(name.as_str());
            let t = trim_chars(nc.as_slice());
            if t.len() > 0 {
                return Some(name);
            }
        }
        k += 1;
    }
    assert(views_from(parts@, k as int) =~= Seq::<Seq<char>>::empty());
    None
}

fn find_btih(parts: &Vec<Vec<char>>) -> (r: Option<Vec<char>>)
    ensures
        match r {
            Some(v) => first_btih(views(parts@)) == Some(v@),
            None => first_btih(views(parts@)) is None,
        },
{
    let xt = str_chars("xt=urn:btih:");
    let mut k: usize = 0;
    assert(views_from(parts@, 0) =~= views(parts@));
    while k < parts.len()
        invariant
            k <= parts.len(),
            xt@ == "xt=urn:btih:"@,
            first_btih(views_from(parts@, k as int)) == first_btih(views(parts@)),
        decreases parts.len() - k,
    {
        let part = &parts[k];
        assert(views_from(parts@, k as int)[0] == part@);
        assert(views_from(parts@, k as int).drop_first() =~= views_from(parts@, k + 1));
        if starts_with_chars(part.as_slice(), xt.as_slice()) {
            return Some(slice_range(part.as_slice(), xt.len(), part.len()));
        }
        k += 1;
    }
    assert(views_from(parts@, k as int) =~= Seq::<Seq<char>>::empty());
    None
}

fn find_last_nonempty(parts: &Vec<Vec<char>>) -> (r: Option<usize>)
    ensures
        match r {
            Some(i) => i < parts.len() && last_nonempty(views(parts@)) == Some(parts@[i as int]@),
            None => last_nonempty(views(parts@)) is None,
        },
{
    let mut k: usize = parts.len();
    assert(views(parts@).subrange(0, parts.len() as int) =~= views(parts@));
    while k > 0
        invariant
            k <= parts.len(),
            last_nonempty(views(parts@).subrange(0, k as int)) == last_nonempty(views(parts@)),
        decreases k,
    {
        let ghost pre = views(parts@).subrange(0, k as int);
        assert(pre.last() == parts@[k - 1]@);
        if parts[k - 1].len() > 0 {
            return Some(k - 1);
        }
        assert(pre.drop_last() =~= views(parts@).subrange(0, k - 1));
        k -= 1;
    }
    None
}

/// Whether `source_label` can label this source: false only for a magnet
/// whose label would cut its info-hash inside a character.
pub fn source_label_safe(source: &str) -> (r: bool)
    ensures
        r == source_label_ok(source@),
{
    let chars = str_chars(source);
    let pfx = str_chars("magnet:?");
    if !starts_with_chars(chars.as_slice(), pfx.as_slice()) {
        return true;
    }
    let rest = slice_range(chars.as_slice(), pfx.len(), chars.len());
    let parts = split_chars(rest.as_slice(), '&');
    assert(views(parts@) == magnet_params(source@));
    if find_display_name(&parts).is_some() {
        return true;
    }
    match find_btih(&parts) {
        Some(v) => match prefix_bytes(v.as_slice(), 16) {
            Some(_) => true,
            None => {
                let mut w: usize = 0;
                let mut i: usize = 0;
                // The width only matters up to 17 bytes.
                while i < v.len() && w <= 16
                    invariant
                        i <= v.len(),
                        w == utf8_width(v@.subrange(0, i as int)),
                        w <= 20,
                    decreases v.len() - i,
                {
                    proof {
                        lemma_utf8_width_push(v@.subrange(0, i as int), v@[i as int]);
                        assert(v@.subrange(0, i + 1) =~= v@.subrange(0, i as int).push(
                            v@[i as int],
                        ));
                    }
                    w = w + char_utf8_len(v[i]);
                    i += 1;
                }
                proof {
                    lemma_utf8_width_prefix_le(v@, i as int);
                    if i == v.len() {
                        assert(v@.subrange(0, i as int) =~= v@);
                    }
                }
                w <= 16 && i == v.len()
            },
        },
        None => true,
    }
}

proof fn lemma_utf8_width_push(s: Seq<char>, c: char)
    ensures
        utf8_width(s.push(c)) == utf8_width(s) + utf8_len(c),
    decreases s.len(),
{
    if s.len() == 0 {
        assert(s.push(c).drop_first() =~= Seq::<char>::empty());
        assert(utf8_width(Seq::<char>::empty()) == 0);
        assert(s.push(c)[0] == c);
        assert(utf8_width(s) == 0);
    } else {
        assert(s.push(c).drop_first() =~= s.drop_first().push(c));
        assert(s.push(c)[0] == s[0]);
        lemma_utf8_width_push(s.drop_first(), c);
    }
}

/// A prefix is never wider than the whole text.
proof fn lemma_utf8_width_prefix_le(s: Seq<char>, i: int)
    requires
        0 <= i <= s.len(),
    ensures
        utf8_width(s.subrange(0, i)) <= utf8_width(s),
    decreases s.len(),
{
    if i < s.len() {
        let t = s.drop_last();
        assert(t.subrange(0, i) =~= s.subrange(0, i));
        lemma_utf8_width_prefix_le(t, i);
        assert(t.push(s.last()) =~= s);
        lemma_utf8_width_push(t, s.last());
        lemma_utf8_len_pos(s.last());
    } else {
        assert(s.subrange(0, i) =~= s);
    }
}

/// A friendly label for a pending add.
pub fn source_label(source: &str) -> (r: String)
    requires
        source_label_ok(source@),
    ensures
        r@ == source_label_spec(source@),
{
    let chars = str_chars(source);
    let pfx = str_chars("magnet:?");
    if starts_with_chars(chars.as_slice(), pfx.as_slice()) {
        let rest = slice_range(chars.as_slice(), pfx.len(), chars.len());
        let parts = split_chars(rest.as_slice(), '&');
        assert(views(parts@) == magnet_params(source@));
        if let Some(name) = find_display_name(&parts) {
            return name;
        }
        match find_btih(&parts) {
            Some(v) => {
                let short = match prefix_bytes(v.as_slice(), 16) {
                    Some(p) => {
                        proof {
                            lemma_byte_prefix_within(v@, 16);
                            if utf8_width(v@) <= 16 {
                                lemma_byte_prefix_full(v@);
                            }
                        }
                        p
                    },
                    None => v,
                };
                let mut out: Vec<char> = Vec::new();
                push_str(&mut out, "magnet ");
                extend_chars(&mut out, short.as_slice());
                push_str(&mut out, "\u{2026}");
                string_from_chars(out.as_slice())
            },
            None => String::from_str("magnet link"),
        }
    } else {
        let parts = split_chars(chars.as_slice(), '/');
        match find_last_nonempty(&parts) {
            Some(i) => string_from_chars(parts[i].as_slice()),
            None => string_from_chars(chars.as_slice()),
        }
    }
}

/// The source of a URL add: trimmed, and required.
pub fn add_source(source: &str) -> (r: Result<String, String>)
    ensures
        trim(source@).len() == 0 <==> r is Err,
        r matches Ok(s) ==> s@ == trim(source@),
        r matches Err(m) ==> m@ == "no magnet link or URL provided"@,
{
    let t = trim_chars(str_chars(source).as_slice());
    if t.len() == 0 {
        Err(string_from_chars(str_chars("no magnet link or URL provided").as_slice()))
    } else {
        Ok(string_from_chars(t.as_slice()))
    }
}

} // verus!
