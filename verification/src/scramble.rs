//! The "decrypt" text effect: on every frame the characters not yet
//! revealed are replaced by random glyphs, and the revealed prefix grows by
//! a fixed step until the whole text shows.

use vstd::prelude::*;

use crate::fx::{rand_char, xorshift};
use vstd::string::StringSliceAdditionalSpecFns;

verus! {

/// Glyphs for decoding text.
pub const GLYPHS: &'static str = "ABCDEF0123456789<>[]{}#%$&*+=/\\|!?~^";

/// Glyphs for rolling counters.
pub const DIGITS: &'static str = "0123456789";

#[derive(Clone, Copy, Debug, PartialEq, Eq, Structural)]
pub enum ScrambleMode {
    /// Reveal left to right from random glyphs (names).
    Decode,
    /// Scramble only the digits, briefly (numeric counters).
    Roll,
}

pub open spec fn charset_spec(mode: ScrambleMode) -> Seq<char> {
    match mode {
        ScrambleMode::Decode => GLYPHS@,
        ScrambleMode::Roll => DIGITS@,
    }
}

pub fn charset(mode: ScrambleMode) -> (r: &'static str)
    ensures
        r@ == charset_spec(mode),
        r@.len() > 0,
{
    proof {
        reveal_strlit("ABCDEF0123456789<>[]{}#%$&*+=/\\|!?~^");
        reveal_strlit("0123456789");
    }
    match mode {
        ScrambleMode::Decode => GLYPHS,
        ScrambleMode::Roll => DIGITS,
    }
}

/// Frames an animation lasts: 22 for decoding, 4 for rolling (short enough
/// to settle between the 4 Hz updates).
pub open spec fn ticks_spec(mode: ScrambleMode) -> nat {
    match mode {
        ScrambleMode::Decode => 22,
        ScrambleMode::Roll => 4,
    }
}

/// Characters revealed per frame: the length (at least 1) divided by the
/// frame count, rounded up.
pub open spec fn step_spec(len: nat, mode: ScrambleMode) -> nat {
    let l = if len >= 1 {
        len
    } else {
        1
    };
    ((l + ticks_spec(mode) - 1) / (ticks_spec(mode) as int)) as nat
}

pub fn scramble_step(len: usize, mode: ScrambleMode) -> (r: usize)
    ensures
        r == step_spec(len as nat, mode),
        r >= 1,
{
    let t: usize = match mode {
        ScrambleMode::Decode => 22,
        ScrambleMode::Roll => 4,
    };
    let l: usize = if len >= 1 {
        len
    } else {
        1
    };
    let q = l / t;
    if l % t == 0 {
        assert((l + t - 1) / (t as int) == q) by (nonlinear_arith)
            requires
                l % t == 0,
                q == l / t,
                t >= 1,
        ;
        q
    } else {
        assert((l + t - 1) / (t as int) == q + 1) by (nonlinear_arith)
            requires
                l % t != 0,
                q == l / t,
                t >= 1,
        ;
        q + 1
    }
}

/// Whether a character takes part: anything but a space when decoding,
/// only ASCII digits when rolling.
pub open spec fn scrambleable(c: char, mode: ScrambleMode) -> bool {
    match mode {
        ScrambleMode::Decode => c != ' ',
        ScrambleMode::Roll => '0' <= c && c <= '9',
    }
}

/// A random glyph drawn from state `s`: the next state, modulo the number
/// of characters, picks a character of the charset.
pub open spec fn glyph(mode: ScrambleMode, s: u64) -> char {
    let cs = charset_spec(mode);
    cs[(xorshift(s) as usize) as int % (cs.len() as int)]
}

/// One frame for the characters from `i` on, with generator state `s`:
/// the frame's text and the state after it.
pub open spec fn frame_from(t: Seq<char>, i: int, done: int, mode: ScrambleMode, s: u64) -> (Seq<char>, u64)
    decreases t.len() - i,
{
    if i >= t.len() || i < 0 {
        (Seq::empty(), s)
    } else if i < done || !scrambleable(t[i], mode) {
        let (rest, s2) = frame_from(t, i + 1, done, mode, s);
        (seq![t[i]] + rest, s2)
    } else {
        let (rest, s2) = frame_from(t, i + 1, done, mode, xorshift(s));
        (seq![glyph(mode, s)] + rest, s2)
    }
}

/// The text of a frame from position `i` on.
pub open spec fn frame_text(t: Seq<char>, i: int, done: int, mode: ScrambleMode, s: u64) -> Seq<char> {
    frame_from(t, i, done, mode, s).0
}

/// The text shown on a frame when `done` characters are revealed; the
/// generator advances once per random glyph.
pub fn scramble_frame(target: &[char], done: usize, mode: ScrambleMode, rng: &mut u64) -> (r: Vec<
    char,
>)
    ensures
        r@ == frame_from(target@, 0, done as int, mode, *old(rng)).0,
        *final(rng) == frame_from(target@, 0, done as int, mode, *old(rng)).1,
{
    let set = charset(mode);
    let mut out: Vec<char> = Vec::new();
    let mut i: usize = 0;
    while i < target.len()
        invariant
            i <= target.len(),
            set@ == charset_spec(mode),
            set@.len() > 0,
            frame_from(target@, 0, done as int, mode, *old(rng)) == ({
                let (rest, s2) = frame_from(target@, i as int, done as int, mode, *rng);
                (out@ + rest, s2)
            }),
        decreases target.len() - i,
    {
        let c = target[i];
        let keep = match mode {
            ScrambleMode::Decode => c == ' ',
            ScrambleMode::Roll => !('0' <= c && c <= '9'),
        };
        let ghost before = *rng;
        let ghost prev = out@;
        if i < done || keep {
            out.push(c);
            proof {
                let (rest, s2) = frame_from(target@, i + 1, done as int, mode, *rng);
                assert(prev + (seq![c] + rest) =~= out@ + rest);
            }
        } else {
            let g = rand_char(rng, set);
            out.push(g);
            proof {
                assert(g == glyph(mode, before));
                let (rest, s2) = frame_from(target@, i + 1, done as int, mode, *rng);
                assert(prev + (seq![g] + rest) =~= out@ + rest);
            }
        }
        i += 1;
    }
    proof {
        assert(out@ + Seq::<char>::empty() =~= out@);
    }
    out
}

/// The revealed count after a frame: one step further, never past the end.
pub fn advance_revealed(done: usize, step: usize, len: usize) -> (r: usize)
    ensures
        r == if done + step < len {
            done + step
        } else {
            len as int
        },
{
    if done < len && step < len - done {
        done + step
    } else {
        len
    }
}

/// Once everything is revealed a frame is the text itself and draws no
/// random glyphs.
pub proof fn law_revealed_frame_is_text(t: Seq<char>, i: int, done: int, mode: ScrambleMode, s: u64)
    requires
        0 <= i <= t.len(),
        done >= t.len(),
    ensures
        frame_from(t, i, done, mode, s).0 == t.subrange(i, t.len() as int),
        frame_from(t, i, done, mode, s).1 == s,
    decreases t.len() - i,
{
    if i < t.len() {
        law_revealed_frame_is_text(t, i + 1, done, mode, s);
        assert(seq![t[i]] + t.subrange(i + 1, t.len() as int) =~= t.subrange(i, t.len() as int));
    } else {
        assert(t.subrange(i, t.len() as int) =~= Seq::<char>::empty());
    }
}

/// Characters outside the effect (spaces when decoding, non-digits when
/// rolling) are shown as they are on every frame.
pub proof fn law_frame_keeps_fixed_chars(t: Seq<char>, i: int, done: int, mode: ScrambleMode, s: u64)
    requires
        0 <= i <= t.len(),
    ensures
        frame_text(t, i, done, mode, s).len() == t.len() - i,
        forall|k: int|
            i <= k < t.len() && (k < done || !scrambleable(t[k], mode)) ==> #[trigger] frame_text(t, i, done, mode, s)[k - i] == t[k],
    decreases t.len() - i,
{
    if i < t.len() {
        let s1 = if i < done || !scrambleable(t[i], mode) {
            s
        } else {
            xorshift(s)
        };
        law_frame_keeps_fixed_chars(t, i + 1, done, mode, s1);
        let rest = frame_from(t, i + 1, done, mode, s1).0;
        let first = if i < done || !scrambleable(t[i], mode) {
            t[i]
        } else {
            glyph(mode, s)
        };
        assert(frame_text(t, i, done, mode, s) == seq![first] + rest);
        assert forall|k: int|
            i <= k < t.len() && (k < done || !scrambleable(t[k], mode)) implies #[trigger] frame_text(t, i, done, mode, s)[k - i] == t[k] by {
            if k > i {
                assert(frame_text(t, i, done, mode, s)[k - i] == rest[k - i - 1]);
                assert(rest == frame_text(t, i + 1, done, mode, s1));
                assert(frame_text(t, i + 1, done, mode, s1)[k - (i + 1)] == t[k]);
            }
        }
    }
}

} // verus!
