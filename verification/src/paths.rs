//! Path handling for the directory browser: lexical normalisation of `.` and
//! `..`, the component-wise "lies under the root" test that keeps every
//! browse and download inside the browse root, and new folder names.
//!
//! Paths are `/`-separated text. What touches the filesystem (which prefix
//! exists, resolving symlinks on it) happens between `confine_target` and
//! `confine_check`, outside this module.

use vstd::prelude::*;

use crate::engine::{split_chars, split_on, views};
use crate::sort::seq_eq;
use crate::text::{
    extend_chars, has_char, has_char_exec, push_str, str_chars, string_from_chars, trim, trim_chars,
};

verus! {

/// A path is absolute when it starts at the root.
pub open spec fn is_absolute(p: Seq<char>) -> bool {
    p.len() > 0 && p[0] == '/'
}

/// A piece that names nothing: empty (from `//` or a trailing `/`) or `.`.
pub open spec fn is_skip(piece: Seq<char>) -> bool {
    piece.len() == 0 || piece == seq!['.']
}

pub open spec fn is_parent(piece: Seq<char>) -> bool {
    piece == seq!['.', '.']
}

/// The components of a path, as `Path::components` yields them after the
/// root: empty pieces and `.` are dropped, `..` is kept.
pub open spec fn keep_components(pieces: Seq<Seq<char>>) -> Seq<Seq<char>>
    decreases pieces.len(),
{
    if pieces.len() == 0 {
        Seq::empty()
    } else if is_skip(pieces[0]) {
        keep_components(pieces.drop_first())
    } else {
        seq![pieces[0]] + keep_components(pieces.drop_first())
    }
}

pub open spec fn components(p: Seq<char>) -> Seq<Seq<char>> {
    keep_components(split_on(p, '/'))
}

/// Lexical resolution: `..` removes the component before it (nothing at
/// the root), every other component is appended.
pub open spec fn resolve(comps: Seq<Seq<char>>, stack: Seq<Seq<char>>) -> Seq<Seq<char>>
    decreases comps.len(),
{
    if comps.len() == 0 {
        stack
    } else if is_parent(comps[0]) {
        resolve(
            comps.drop_first(),
            if stack.len() > 0 {
                stack.drop_last()
            } else {
                stack
            },
        )
    } else {
        resolve(comps.drop_first(), stack.push(comps[0]))
    }
}

/// The components left after resolving `.` and `..`.
pub open spec fn normal_components(p: Seq<char>) -> Seq<Seq<char>> {
    resolve(components(p), Seq::empty())
}

/// Components joined by `/`.
pub open spec fn join_slash(parts: Seq<Seq<char>>) -> Seq<char>
    decreases parts.len(),
{
    if parts.len() == 0 {
        Seq::empty()
    } else if parts.len() == 1 {
        parts[0]
    } else {
        parts[0] + seq!['/'] + join_slash(parts.drop_first())
    }
}

/// The lexically normalised path as text.
pub open spec fn normalize_spec(p: Seq<char>) -> Seq<char> {
    (if is_absolute(p) {
        seq!['/']
    } else {
        Seq::empty()
    }) + join_slash(normal_components(p))
}

/// `base.join(req)`: an absolute request replaces the base.
pub open spec fn join_spec(base: Seq<char>, req: Seq<char>) -> Seq<char> {
    if is_absolute(req) {
        req
    } else {
        base + seq!['/'] + req
    }
}

/// `Path::starts_with`: both at the root or both relative, and the root's
/// components are a prefix of the path's.
pub open spec fn within_root(p: Seq<char>, root: Seq<char>) -> bool {
    &&& is_absolute(p) == is_absolute(root)
    &&& components(root).len() <= components(p).len()
    &&& components(p).subrange(0, components(root).len() as int) == components(root)
}

spec fn views_from(v: Seq<Vec<char>>, k: int) -> Seq<Seq<char>> {
    views(v).subrange(k, v.len() as int)
}

fn is_skip_exec(piece: &[char]) -> (r: bool)
    ensures
        r == is_skip(piece@),
{
    let r = piece.len() == 0 || (piece.len() == 1 && piece[0] == '.');
    proof {
        if piece.len() == 1 && piece[0] == '.' {
            assert(piece@ =~= seq!['.']);
        }
    }
    r
}

fn is_parent_exec(piece: &[char]) -> (r: bool)
    ensures
        r == is_parent(piece@),
{
    let r = piece.len() == 2 && piece[0] == '.' && piece[1] == '.';
    proof {
        if piece.len() == 2 && piece[0] == '.' && piece[1] == '.' {
            assert(piece@ =~= seq!['.', '.']);
        }
    }
    r
}

/// The path's components.
pub fn path_components(p: &[char]) -> (r: Vec<Vec<char>>)
    ensures
        views(r@) == components(p@),
{
    let pieces = split_chars(p, '/');
    let mut out: Vec<Vec<char>> = Vec::new();
    let mut k: usize = pieces.len();
    assert(views_from(pieces@, pieces.len() as int) =~= Seq::<Seq<char>>::empty());
    assert(views(out@) =~= Seq::<Seq<char>>::empty());
    // Built back to front so that each step prepends one component.
    while k > 0
        invariant
            k <= pieces.len(),
            views(out@).reverse() == keep_components(views_from(pieces@, k as int)),
        decreases k,
    {
        let ghost tail = views_from(pieces@, k as int);
        let ghost here = views_from(pieces@, k - 1);
        assert(here[0] == pieces@[k - 1]@);
        assert(here.drop_first() =~= tail);
        if !is_skip_exec(pieces[k - 1].as_slice()) {
            let ghost before = views(out@);
            out.push(slice_all(pieces[k - 1].as_slice()));
            assert(views(out@) =~= before.push(pieces@[k - 1]@));
            assert(views(out@).reverse() =~= seq![pieces@[k - 1]@] + before.reverse());
        }
        k -= 1;
    }
    assert(views_from(pieces@, 0) =~= views(pieces@));
    let r = reversed(out);
    r
}

fn slice_all(s: &[char]) -> (r: Vec<char>)
    ensures
        r@ == s@,
{
    let mut r: Vec<char> = Vec::new();
    let mut i: usize = 0;
    while i < s.len()
        invariant
            i <= s.len(),
            r@ == s@.subrange(0, i as int),
        decreases s.len() - i,
    {
        r.push(s[i]);
        i += 1;
    }
    assert(s@.subrange(0, i as int) =~= s@);
    r
}

fn reversed(v: Vec<Vec<char>>) -> (r: Vec<Vec<char>>)
    ensures
        views(r@) == views(v@).reverse(),
{
    let mut v = v;
    let mut r: Vec<Vec<char>> = Vec::new();
    let ghost orig = views(v@);
    while v.len() > 0
        invariant
            views(r@) + views(v@).reverse() == orig.reverse(),
        decreases v.len(),
    {
        let ghost before_r = views(r@);
        let ghost before_v = views(v@);
        let x = v.pop().unwrap();
        r.push(x);
        assert(views(r@) =~= before_r.push(before_v.last()));
        assert(views(v@) =~= before_v.drop_last());
        assert(before_v.reverse() =~= seq![before_v.last()] + before_v.drop_last().reverse());
        assert(views(r@) + views(v@).reverse() =~= before_r + before_v.reverse());
    }
    assert(views(v@).reverse() =~= Seq::<Seq<char>>::empty());
    assert(views(r@) + Seq::<Seq<char>>::empty() =~= views(r@));
    r
}

fn join_components(parts: &Vec<Vec<char>>, out: &mut Vec<char>)
    ensures
        final(out)@ == old(out)@ + join_slash(views(parts@)),
{
    let mut k: usize = parts.len();
    let mut acc: Vec<char> = Vec::new();
    // join_slash(views_from(parts, k)) is built from the back.
    assert(views_from(parts@, parts.len() as int) =~= Seq::<Seq<char>>::empty());
    while k > 0
        invariant
            k <= parts.len(),
            acc@ == join_slash(views_from(parts@, k as int)),
        decreases k,
    {
        let ghost tail = views_from(parts@, k as int);
        let ghost here = views_from(parts@, k - 1);
        assert(here[0] == parts@[k - 1]@);
        assert(here.drop_first() =~= tail);
        let mut next: Vec<char> = slice_all(parts[k - 1].as_slice());
        if k < parts.len() {
            next.push('/');
        }
        extend_chars(&mut next, acc.as_slice());
        proof {
            if tail.len() == 0 {
                assert(next@ =~= parts@[k - 1]@);
            }
        }
        acc = next;
        k -= 1;
    }
    assert(views_from(parts@, 0) =~= views(parts@));
    extend_chars(out, acc.as_slice());
}

/// Lexically resolve `.` and `..` without touching the filesystem.
pub fn normalize_lexical(p: &str) -> (r: String)
    ensures
        r@ == normalize_spec(p@),
{
    let chars = str_chars(p);
    let comps = path_components(chars.as_slice());
    let mut stack: Vec<Vec<char>> = Vec::new();
    let mut k: usize = 0;
    assert(views_from(comps@, 0) =~= views(comps@));
    assert(views(stack@) =~= Seq::<Seq<char>>::empty());
    while k < comps.len()
        invariant
            k <= comps.len(),
            views(comps@) == components(p@),
            resolve(views_from(comps@, k as int), views(stack@)) == normal_components(p@),
        decreases comps.len() - k,
    {
        let ghost here = views_from(comps@, k as int);
        assert(here[0] == comps@[k as int]@);
        assert(here.drop_first() =~= views_from(comps@, k + 1));
        let ghost before = views(stack@);
        if is_parent_exec(comps[k].as_slice()) {
            if stack.len() > 0 {
                stack.pop();
                assert(views(stack@) =~= before.drop_last());
            }
        } else {
            stack.push(slice_all(comps[k].as_slice()));
            assert(views(stack@) =~= before.push(comps@[k as int]@));
        }
        k += 1;
    }
    assert(views_from(comps@, k as int) =~= Seq::<Seq<char>>::empty());
    let mut out: Vec<char> = Vec::new();
    if chars.len() > 0 && chars[0] == '/' {
        out.push('/');
    }
    assert(out@ == (if is_absolute(p@) {
        seq!['/']
    } else {
        Seq::<char>::empty()
    }));
    join_components(&stack, &mut out);
    string_from_chars(out.as_slice())
}

/// The lexically normalised form of `requested` resolved against `root`:
/// the path that is then checked against the root.
pub fn confine_target(root: &str, requested: &str) -> (r: String)
    ensures
        r@ == normalize_spec(join_spec(root@, requested@)),
{
    let req = str_chars(requested);
    if req.len() > 0 && req[0] == '/' {
        normalize_lexical(requested)
    } else {
        let mut joined = str_chars(root);
        joined.push('/');
        extend_chars(&mut joined, req.as_slice());
        assert(joined@ =~= root@ + seq!['/'] + requested@);
        let j = string_from_chars(joined.as_slice());
        normalize_lexical(j.as_str())
    }
}

/// Whether `p` lies under `root`, comparing whole components.
pub fn is_within_root(p: &str, root: &str) -> (r: bool)
    ensures
        r == within_root(p@, root@),
{
    let pc = str_chars(p);
    let rc = str_chars(root);
    let pabs = pc.len() > 0 && pc[0] == '/';
    let rabs = rc.len() > 0 && rc[0] == '/';
    if pabs != rabs {
        return false;
    }
    let a = path_components(pc.as_slice());
    let b = path_components(rc.as_slice());
    if b.len() > a.len() {
        return false;
    }
    let mut i: usize = 0;
    while i < b.len()
        invariant
            i <= b.len() <= a.len(),
            views(a@) == components(p@),
            views(b@) == components(root@),
            forall|j: int| 0 <= j < i ==> views(a@)[j] == views(b@)[j],
        decreases b.len() - i,
    {
        assert(views(a@)[i as int] == a@[i as int]@);
        assert(views(b@)[i as int] == b@[i as int]@);
        if !seq_eq(a[i].as_slice(), b[i].as_slice()) {
            return false;
        }
        i += 1;
    }
    assert(views(a@).subrange(0, b.len() as int) =~= views(b@));
    true
}

/// The message for a path that leaves the root.
pub open spec fn outside_root_message(p: Seq<char>, root: Seq<char>) -> Seq<char> {
    "path "@ + p + " is outside the allowed root "@ + root
}

/// Accept a resolved path only when it lies under the browse root.
pub fn confine_check(full: &str, root: &str) -> (r: Result<String, String>)
    ensures
        r is Ok <==> within_root(full@, root@),
        r matches Ok(s) ==> s@ == full@,
        r matches Err(m) ==> m@ == outside_root_message(full@, root@),
{
    if is_within_root(full, root) {
        Ok(string_from_chars(str_chars(full).as_slice()))
    } else {
        let mut m: Vec<char> = Vec::new();
        push_str(&mut m, "path ");
        push_str(&mut m, full);
        push_str(&mut m, " is outside the allowed root ");
        push_str(&mut m, root);
        Err(string_from_chars(m.as_slice()))
    }
}

/// A new folder's name must be a single component: not blank, no
/// separators, not `.` or `..`.
pub open spec fn folder_name_ok(t: Seq<char>) -> bool {
    &&& t.len() > 0
    &&& !has_char(t, '/')
    &&& !has_char(t, '\\')
    &&& !is_parent(t)
    &&& t != seq!['.']
}

/// The trimmed folder name, or `invalid folder name`.
pub fn valid_folder_name(name: &str) -> (r: Result<String, String>)
    ensures
        r is Ok <==> folder_name_ok(trim(name@)),
        r matches Ok(s) ==> s@ == trim(name@),
        r matches Err(m) ==> m@ == "invalid folder name"@,
{
    let t = trim_chars(str_chars(name).as_slice());
    let dot = t.len() == 1 && t[0] == '.';
    proof {
        if t.len() == 1 && t[0] == '.' {
            assert(t@ =~= seq!['.']);
        }
    }
    if t.len() == 0 || has_char_exec(t.as_slice(), '/') || has_char_exec(t.as_slice(), '\\')
        || is_parent_exec(t.as_slice()) || dot {
        let mut m: Vec<char> = Vec::new();
        push_str(&mut m, "invalid folder name");
        Err(string_from_chars(m.as_slice()))
    } else {
        Ok(string_from_chars(t.as_slice()))
    }
}

/// Every component that lexical resolution leaves is a real name: no
/// empty piece, no `.` and no `..`.
pub proof fn law_normalized_components_are_names(p: Seq<char>)
    ensures
        forall|i: int|
            0 <= i < normal_components(p).len() ==> !is_skip(#[trigger] normal_components(p)[i])
                && !is_parent(normal_components(p)[i]),
{
    lemma_keep_components_names(split_on(p, '/'));
    lemma_resolve_names(components(p), Seq::empty());
}

proof fn lemma_keep_components_names(pieces: Seq<Seq<char>>)
    ensures
        forall|i: int|
            0 <= i < keep_components(pieces).len() ==> !is_skip(
                #[trigger] keep_components(pieces)[i],
            ),
    decreases pieces.len(),
{
    if pieces.len() > 0 {
        lemma_keep_components_names(pieces.drop_first());
        let rest = keep_components(pieces.drop_first());
        if !is_skip(pieces[0]) {
            assert forall|i: int| 0 <= i < keep_components(pieces).len() implies !is_skip(
                #[trigger] keep_components(pieces)[i],
            ) by {
                if i > 0 {
                    assert(keep_components(pieces)[i] == rest[i - 1]);
                }
            }
        }
    }
}

proof fn lemma_resolve_names(comps: Seq<Seq<char>>, stack: Seq<Seq<char>>)
    requires
        forall|i: int| 0 <= i < comps.len() ==> !is_skip(#[trigger] comps[i]),
        forall|i: int|
            0 <= i < stack.len() ==> !is_skip(#[trigger] stack[i]) && !is_parent(stack[i]),
    ensures
        forall|i: int|
            0 <= i < resolve(comps, stack).len() ==> !is_skip(#[trigger] resolve(comps, stack)[i])
                && !is_parent(resolve(comps, stack)[i]),
    decreases comps.len(),
{
    if comps.len() > 0 {
        let rest = comps.drop_first();
        assert forall|i: int| 0 <= i < rest.len() implies !is_skip(#[trigger] rest[i]) by {
            assert(rest[i] == comps[i + 1]);
        }
        if is_parent(comps[0]) {
            let s2 = if stack.len() > 0 {
                stack.drop_last()
            } else {
                stack
            };
            assert forall|i: int| 0 <= i < s2.len() implies !is_skip(#[trigger] s2[i])
                && !is_parent(s2[i]) by {
                assert(s2[i] == stack[i]);
            }
            lemma_resolve_names(rest, s2);
            assert(resolve(comps, stack) == resolve(rest, s2));
        } else {
            let s2 = stack.push(comps[0]);
            assert(!is_skip(comps[0]));
            assert forall|i: int| 0 <= i < s2.len() implies !is_skip(#[trigger] s2[i])
                && !is_parent(s2[i]) by {
                if i < stack.len() {
                    assert(s2[i] == stack[i]);
                }
            }
            lemma_resolve_names(rest, s2);
            assert(resolve(comps, stack) == resolve(rest, s2));
        }
    }
}

/// The path without its last component (`Path::parent`); `None` at the
/// root or for an empty path.
pub open spec fn parent_spec(p: Seq<char>) -> Option<Seq<char>> {
    let c = components(p);
    if c.len() == 0 {
        None
    } else {
        Some(
            (if is_absolute(p) {
                seq!['/']
            } else {
                Seq::empty()
            }) + join_slash(c.drop_last()),
        )
    }
}

/// Two paths are the same path: both at the root or both relative, with the
/// same components (`Path`'s `==`).
pub open spec fn same_path(a: Seq<char>, b: Seq<char>) -> bool {
    is_absolute(a) == is_absolute(b) && components(a) == components(b)
}

/// The listing's parent for the browser's "up" link: none at the root.
pub fn parent_listing(dir: &str, root: &str) -> (r: Option<String>)
    ensures
        same_path(dir@, root@) ==> r is None,
        !same_path(dir@, root@) ==> match r {
            Some(s) => parent_spec(dir@) == Some(s@),
            None => parent_spec(dir@) is None,
        },
{
    let d = str_chars(dir);
    proof {
        if same_path(dir@, root@) {
            assert(components(dir@).subrange(0, components(root@).len() as int) =~= components(
                root@,
            ));
            assert(components(root@).subrange(0, components(dir@).len() as int) =~= components(
                dir@,
            ));
        }
    }
    if is_within_root(dir, root) && is_within_root(root, dir) {
        proof {
            assert(components(dir@) =~= components(root@));
        }
        return None;
    }
    let comps = path_components(d.as_slice());
    if comps.len() == 0 {
        return None;
    }
    let mut up = comps;
    let ghost all = views(up@);
    up.pop();
    assert(views(up@) =~= all.drop_last());
    let mut out: Vec<char> = Vec::new();
    if d.len() > 0 && d[0] == '/' {
        out.push('/');
    }
    assert(out@ == (if is_absolute(dir@) {
        seq!['/']
    } else {
        Seq::<char>::empty()
    }));
    join_components(&up, &mut out);
    Some(string_from_chars(out.as_slice()))
}

} // verus!
