//! Stable ordering by text keys. Keys are compared character by character,
//! which is the order `str`'s `Ord` gives (UTF-8 byte order follows code
//! point order).

use vstd::prelude::*;

verus! {

/// Strict lexicographic order on character sequences.
pub open spec fn lex_lt(a: Seq<char>, b: Seq<char>) -> bool
    decreases a.len(),
{
    if a.len() == 0 {
        b.len() > 0
    } else if b.len() == 0 {
        false
    } else if a[0] != b[0] {
        a[0] < b[0]
    } else {
        lex_lt(a.drop_first(), b.drop_first())
    }
}

pub proof fn lemma_lex_irreflexive(a: Seq<char>)
    ensures
        !lex_lt(a, a),
    decreases a.len(),
{
    if a.len() > 0 {
        lemma_lex_irreflexive(a.drop_first());
    }
}

pub proof fn lemma_lex_transitive(a: Seq<char>, b: Seq<char>, c: Seq<char>)
    requires
        lex_lt(a, b),
        lex_lt(b, c),
    ensures
        lex_lt(a, c),
    decreases a.len(),
{
    if a.len() > 0 && b.len() > 0 && c.len() > 0 {
        if a[0] == b[0] && b[0] == c[0] {
            lemma_lex_transitive(a.drop_first(), b.drop_first(), c.drop_first());
        }
    }
}

pub proof fn lemma_lex_total(a: Seq<char>, b: Seq<char>)
    ensures
        lex_lt(a, b) || lex_lt(b, a) || a == b,
    decreases a.len(),
{
    if a.len() > 0 && b.len() > 0 {
        if a[0] == b[0] {
            lemma_lex_total(a.drop_first(), b.drop_first());
            if a.drop_first() == b.drop_first() {
                assert(a =~= seq![a[0]] + a.drop_first());
                assert(b =~= seq![b[0]] + b.drop_first());
            }
        }
    } else if a.len() == 0 && b.len() == 0 {
        assert(a =~= b);
    }
}

pub fn lex_less(a: &[char], b: &[char]) -> (r: bool)
    ensures
        r == lex_lt(a@, b@),
{
    let mut i: usize = 0;
    assert(a@.subrange(0, a.len() as int) =~= a@);
    assert(b@.subrange(0, b.len() as int) =~= b@);
    while i < a.len() && i < b.len() && a[i] == b[i]
        invariant
            i <= a.len(),
            i <= b.len(),
            lex_lt(a@, b@) == lex_lt(a@.subrange(i as int, a.len() as int), b@.subrange(
                i as int,
                b.len() as int,
            )),
        decreases a.len() - i,
    {
        let ghost sa = a@.subrange(i as int, a.len() as int);
        let ghost sb = b@.subrange(i as int, b.len() as int);
        assert(sa.drop_first() =~= a@.subrange(i + 1, a.len() as int));
        assert(sb.drop_first() =~= b@.subrange(i + 1, b.len() as int));
        i += 1;
    }
    proof {
        assert(a@.subrange(0, a.len() as int) =~= a@);
        assert(b@.subrange(0, b.len() as int) =~= b@);
    }
    if i == a.len() {
        i < b.len()
    } else if i == b.len() {
        false
    } else {
        a[i] < b[i]
    }
}

/// Character-by-character equality.
pub fn seq_eq(a: &[char], b: &[char]) -> (r: bool)
    ensures
        r == (a@ == b@),
{
    if a.len() != b.len() {
        return false;
    }
    let mut i: usize = 0;
    while i < a.len()
        invariant
            a.len() == b.len(),
            i <= a.len(),
            forall|j: int| 0 <= j < i ==> a@[j] == b@[j],
        decreases a.len() - i,
    {
        if a[i] != b[i] {
            return false;
        }
        i += 1;
    }
    assert(a@ =~= b@);
    true
}

/// Where a stable insertion places key `k`: before the first element whose
/// key is strictly greater.
pub open spec fn insert_pos<V>(s: Seq<(Seq<char>, V)>, k: Seq<char>) -> int
    decreases s.len(),
{
    if s.len() == 0 {
        0
    } else if lex_lt(k, s[0].0) {
        0
    } else {
        1 + insert_pos(s.drop_first(), k)
    }
}

/// Stable insertion sort by key (what `sort_by` with that key computes).
pub open spec fn sorted_by_key<V>(s: Seq<(Seq<char>, V)>) -> Seq<(Seq<char>, V)>
    decreases s.len(),
{
    if s.len() == 0 {
        s
    } else {
        let prev = sorted_by_key(s.drop_last());
        prev.insert(insert_pos(prev, s.last().0), s.last())
    }
}

/// Keys and items by their views.
pub open spec fn pairs_view<T: View>(s: Seq<(Vec<char>, T)>) -> Seq<(Seq<char>, T::V)> {
    s.map_values(|p: (Vec<char>, T)| (p.0@, p.1@))
}

proof fn lemma_insert_pos<V>(s: Seq<(Seq<char>, V)>, k: Seq<char>, p: int)
    requires
        0 <= p <= s.len(),
        forall|j: int| 0 <= j < p ==> !lex_lt(k, (#[trigger] s[j]).0),
        p == s.len() || lex_lt(k, s[p].0),
    ensures
        insert_pos(s, k) == p,
    decreases p,
{
    if p > 0 {
        assert(!lex_lt(k, s[0].0));
        assert forall|j: int| 0 <= j < p - 1 implies !lex_lt(k, (#[trigger] s.drop_first()[j]).0) by {
            assert(s.drop_first()[j] == s[j + 1]);
        }
        if p < s.len() {
            assert(s.drop_first()[p - 1] == s[p]);
        }
        lemma_insert_pos(s.drop_first(), k, p - 1);
    }
}

proof fn lemma_insert_pos_bounds<V>(s: Seq<(Seq<char>, V)>, k: Seq<char>)
    ensures
        0 <= insert_pos(s, k) <= s.len(),
    decreases s.len(),
{
    if s.len() > 0 {
        lemma_insert_pos_bounds(s.drop_first(), k);
    }
}

proof fn lemma_sorted_len<V>(s: Seq<(Seq<char>, V)>)
    ensures
        sorted_by_key(s).len() == s.len(),
    decreases s.len(),
{
    if s.len() > 0 {
        lemma_sorted_len(s.drop_last());
        lemma_insert_pos_bounds(sorted_by_key(s.drop_last()), s.last().0);
    }
}

/// Sort `(key, item)` pairs stably by key.
pub fn sort_by_text_key<T: View>(items: Vec<(Vec<char>, T)>) -> (r: Vec<(Vec<char>, T)>)
    ensures
        pairs_view(r@) == sorted_by_key(pairs_view(items@)),
{
    let mut out: Vec<(Vec<char>, T)> = Vec::new();
    let mut rest = items;
    let ghost orig = pairs_view(rest@);
    let ghost mut taken: int = 0;
    assert(pairs_view(out@) =~= sorted_by_key(orig.subrange(0, 0)));
    while rest.len() > 0
        invariant
            0 <= taken <= orig.len(),
            pairs_view(rest@) == orig.subrange(taken, orig.len() as int),
            pairs_view(out@) == sorted_by_key(orig.subrange(0, taken)),
        decreases rest.len(),
    {
        let ghost before = rest@;
        let x = rest.remove(0);
        proof {
            assert(pairs_view(before).len() == before.len());
            assert(taken < orig.len());
            assert(pairs_view(before)[0] == (x.0@, x.1@));
            assert(orig.subrange(taken, orig.len() as int)[0] == orig[taken]);
            assert(orig[taken] == (x.0@, x.1@));
            assert(pairs_view(rest@) =~= pairs_view(before).drop_first());
            assert(pairs_view(rest@) =~= orig.subrange(taken + 1, orig.len() as int));
            assert(orig.subrange(0, taken + 1).drop_last() =~= orig.subrange(0, taken));
            lemma_sorted_len(orig.subrange(0, taken));
        }
        let mut p: usize = 0;
        while p < out.len() && !lex_less(x.0.as_slice(), out[p].0.as_slice())
            invariant
                p <= out.len(),
                forall|j: int| 0 <= j < p ==> !lex_lt(x.0@, (#[trigger] pairs_view(out@)[j]).0),
            decreases out.len() - p,
        {
            assert(pairs_view(out@)[p as int].0 == out@[p as int].0@);
            p += 1;
        }
        proof {
            if p < out.len() {
                assert(pairs_view(out@)[p as int].0 == out@[p as int].0@);
            }
            lemma_insert_pos(pairs_view(out@), x.0@, p as int);
        }
        let ghost old_out = out@;
        out.insert(p, x);
        proof {
            assert(pairs_view(out@) =~= pairs_view(old_out).insert(p as int, (x.0@, x.1@)));
            taken = taken + 1;
        }
    }
    proof {
        assert(orig.subrange(0, orig.len() as int) =~= orig);
    }
    out
}

/// Drop the keys, keeping the items in order.
pub fn strip_keys<T: View>(v: Vec<(Vec<char>, T)>) -> (r: Vec<T>)
    ensures
        r@.map_values(|t: T| t@) == pairs_view(v@).map_values(|p: (Seq<char>, T::V)| p.1),
{
    let mut src = v;
    let ghost orig = src@;
    let ghost mut taken: int = 0;
    let mut out: Vec<T> = Vec::new();
    while src.len() > 0
        invariant
            0 <= taken <= orig.len(),
            src@ == orig.subrange(taken, orig.len() as int),
            out@ == orig.subrange(0, taken).map_values(|p: (Vec<char>, T)| p.1),
        decreases src.len(),
    {
        let x = src.remove(0);
        proof {
            assert(orig[taken] == x);
            assert(src@ =~= orig.subrange(taken + 1, orig.len() as int));
            assert(orig.subrange(0, taken + 1).map_values(|p: (Vec<char>, T)| p.1) =~= orig.subrange(
                0,
                taken,
            ).map_values(|p: (Vec<char>, T)| p.1).push(x.1));
            taken = taken + 1;
        }
        out.push(x.1);
    }
    proof {
        assert(orig.subrange(0, orig.len() as int) =~= orig);
        assert(out@.map_values(|t: T| t@) =~= pairs_view(orig).map_values(
            |p: (Seq<char>, T::V)| p.1,
        ));
    }
    out
}

// ---------------------------------------------------------------------------
// numeric keys
// ---------------------------------------------------------------------------

/// Key `a` goes strictly before key `b`: smaller first, or larger first
/// when descending.
pub open spec fn num_before(a: u64, b: u64, desc: bool) -> bool {
    if desc {
        a > b
    } else {
        a < b
    }
}

/// Where a stable insertion places key `k`: before the first element that
/// `k` goes strictly before.
pub open spec fn num_insert_pos(s: Seq<(u64, u64)>, k: u64, desc: bool) -> int
    decreases s.len(),
{
    if s.len() == 0 {
        0
    } else if num_before(k, s[0].0, desc) {
        0
    } else {
        1 + num_insert_pos(s.drop_first(), k, desc)
    }
}

/// Stable sort of `(key, item)` pairs by key (what `sort_by` computes with
/// the key comparison, reversed when descending).
pub open spec fn sorted_by_num(s: Seq<(u64, u64)>, desc: bool) -> Seq<(u64, u64)>
    decreases s.len(),
{
    if s.len() == 0 {
        s
    } else {
        let prev = sorted_by_num(s.drop_last(), desc);
        prev.insert(num_insert_pos(prev, s.last().0, desc), s.last())
    }
}

proof fn lemma_num_insert_pos(s: Seq<(u64, u64)>, k: u64, desc: bool, p: int)
    requires
        0 <= p <= s.len(),
        forall|j: int| 0 <= j < p ==> !num_before(k, (#[trigger] s[j]).0, desc),
        p == s.len() || num_before(k, s[p].0, desc),
    ensures
        num_insert_pos(s, k, desc) == p,
    decreases p,
{
    if p > 0 {
        assert(!num_before(k, s[0].0, desc));
        assert forall|j: int| 0 <= j < p - 1 implies !num_before(
            k,
            (#[trigger] s.drop_first()[j]).0,
            desc,
        ) by {
            assert(s.drop_first()[j] == s[j + 1]);
        }
        if p < s.len() {
            assert(s.drop_first()[p - 1] == s[p]);
        }
        lemma_num_insert_pos(s.drop_first(), k, desc, p - 1);
    }
}

proof fn lemma_num_pos_bounds(s: Seq<(u64, u64)>, k: u64, desc: bool)
    ensures
        0 <= num_insert_pos(s, k, desc) <= s.len(),
    decreases s.len(),
{
    if s.len() > 0 {
        lemma_num_pos_bounds(s.drop_first(), k, desc);
    }
}

proof fn lemma_num_sorted_len(s: Seq<(u64, u64)>, desc: bool)
    ensures
        sorted_by_num(s, desc).len() == s.len(),
    decreases s.len(),
{
    if s.len() > 0 {
        lemma_num_sorted_len(s.drop_last(), desc);
        lemma_num_pos_bounds(sorted_by_num(s.drop_last(), desc), s.last().0, desc);
    }
}

fn goes_before(a: u64, b: u64, desc: bool) -> (r: bool)
    ensures
        r == num_before(a, b, desc),
{
    if desc {
        a > b
    } else {
        a < b
    }
}

/// Sort `(key, item)` pairs stably by key, ascending or descending.
pub fn sort_by_num_key(items: Vec<(u64, u64)>, desc: bool) -> (r: Vec<(u64, u64)>)
    ensures
        r@ == sorted_by_num(items@, desc),
{
    let mut out: Vec<(u64, u64)> = Vec::new();
    let mut i: usize = 0;
    assert(items@.subrange(0, 0) =~= Seq::<(u64, u64)>::empty());
    while i < items.len()
        invariant
            i <= items@.len(),
            out@ == sorted_by_num(items@.subrange(0, i as int), desc),
        decreases items@.len() - i,
    {
        let x = items[i];
        proof {
            assert(items@.subrange(0, i + 1).drop_last() =~= items@.subrange(0, i as int));
            lemma_num_sorted_len(items@.subrange(0, i as int), desc);
        }
        let mut p: usize = 0;
        while p < out.len() && !goes_before(x.0, out[p].0, desc)
            invariant
                p <= out.len(),
                forall|j: int| 0 <= j < p ==> !num_before(x.0, (#[trigger] out@[j]).0, desc),
            decreases out.len() - p,
        {
            p += 1;
        }
        proof {
            lemma_num_insert_pos(out@, x.0, desc, p as int);
        }
        out.insert(p, x);
        i += 1;
    }
    assert(items@.subrange(0, i as int) =~= items@);
    out
}

// ---------------------------------------------------------------------------
// laws
// ---------------------------------------------------------------------------

/// Keys in non-decreasing order.
pub open spec fn keys_sorted<V>(s: Seq<(Seq<char>, V)>) -> bool {
    forall|i: int, j: int| 0 <= i < j < s.len() ==> !lex_lt((#[trigger] s[j]).0, (#[trigger] s[i]).0)
}

proof fn lemma_insert_keeps_sorted<V>(s: Seq<(Seq<char>, V)>, x: (Seq<char>, V))
    requires
        keys_sorted(s),
    ensures
        keys_sorted(s.insert(insert_pos(s, x.0), x)),
    decreases s.len(),
{
    lemma_insert_pos_bounds(s, x.0);
    let p = insert_pos(s, x.0);
    let t = s.insert(p, x);
    assert forall|i: int, j: int| 0 <= i < j < t.len() implies !lex_lt(
        (#[trigger] t[j]).0,
        (#[trigger] t[i]).0,
    ) by {
        if i == p {
            lemma_after_pos(s, x.0, j - 1);
        } else if j == p {
            lemma_before_pos(s, x.0, i);
        }
    }
}

/// Every element before the insertion point has a key not greater than `k`.
proof fn lemma_before_pos<V>(s: Seq<(Seq<char>, V)>, k: Seq<char>, i: int)
    requires
        0 <= i < insert_pos(s, k),
    ensures
        !lex_lt(k, s[i].0),
    decreases s.len(),
{
    lemma_insert_pos_bounds(s, k);
    if i > 0 {
        lemma_before_pos(s.drop_first(), k, i - 1);
    }
}

/// In a sorted sequence, every element from the insertion point on has a key
/// strictly greater than `k`.
proof fn lemma_after_pos<V>(s: Seq<(Seq<char>, V)>, k: Seq<char>, j: int)
    requires
        keys_sorted(s),
        insert_pos(s, k) <= j < s.len(),
    ensures
        !lex_lt(s[j].0, k),
    decreases s.len(),
{
    if lex_lt(k, s[0].0) {
        if j == 0 {
            if lex_lt(s[0].0, k) {
                lemma_lex_transitive(k, s[0].0, k);
                lemma_lex_irreflexive(k);
            }
        } else {
            assert(!lex_lt(s[j].0, s[0].0));
            if lex_lt(s[j].0, k) {
                lemma_lex_transitive(s[j].0, k, s[0].0);
            }
        }
    } else {
        let t = s.drop_first();
        lemma_insert_pos_bounds(t, k);
        assert forall|a: int, b: int| 0 <= a < b < t.len() implies !lex_lt(
            (#[trigger] t[b]).0,
            (#[trigger] t[a]).0,
        ) by {
            assert(t[a] == s[a + 1]);
            assert(t[b] == s[b + 1]);
            assert(!lex_lt(s[b + 1].0, s[a + 1].0));
        }
        assert(t[j - 1] == s[j]);
        lemma_after_pos(t, k, j - 1);
    }
}

/// The stable sort orders its output by key.
pub proof fn law_sorted_by_key_is_ordered<V>(s: Seq<(Seq<char>, V)>)
    ensures
        keys_sorted(sorted_by_key(s)),
    decreases s.len(),
{
    if s.len() > 0 {
        law_sorted_by_key_is_ordered(s.drop_last());
        lemma_insert_keeps_sorted(sorted_by_key(s.drop_last()), s.last());
    }
}

} // verus!

