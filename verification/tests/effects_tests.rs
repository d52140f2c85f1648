use std::collections::VecDeque;

use torrentoxide_core::fx::RNG_SEED;
use torrentoxide_core::pending::{push_front_capped, TICKER_LINES};
use torrentoxide_core::scramble::{
    advance_revealed, charset, scramble_frame, scramble_step, ScrambleMode, DIGITS, GLYPHS,
};

#[test]
fn scramble_steps() {
    assert_eq!(scramble_step(0, ScrambleMode::Decode), 1);
    assert_eq!(scramble_step(22, ScrambleMode::Decode), 1);
    assert_eq!(scramble_step(23, ScrambleMode::Decode), 2);
    assert_eq!(scramble_step(45, ScrambleMode::Decode), 3);
    assert_eq!(scramble_step(9, ScrambleMode::Roll), 3);
    assert_eq!(scramble_step(8, ScrambleMode::Roll), 2);
    assert_eq!(charset(ScrambleMode::Decode), GLYPHS);
    assert_eq!(charset(ScrambleMode::Roll), DIGITS);
}

#[test]
fn scramble_frames_keep_revealed_and_fixed_chars() {
    let text: Vec<char> = "ab c1".chars().collect();
    let mut rng = RNG_SEED;
    let f = scramble_frame(&text, 1, ScrambleMode::Decode, &mut rng);
    assert_eq!(f.len(), 5);
    assert_eq!(f[0], 'a');
    assert_eq!(f[2], ' ');
    assert!(GLYPHS.contains(f[1]) && GLYPHS.contains(f[3]) && GLYPHS.contains(f[4]));
    assert_ne!(rng, RNG_SEED);
    // fully revealed: the text itself, no draws
    let mut rng2 = 5;
    assert_eq!(scramble_frame(&text, 5, ScrambleMode::Decode, &mut rng2), text);
    assert_eq!(rng2, 5);
    // rolling touches only digits
    let mut rng3 = RNG_SEED;
    let r = scramble_frame(&text, 0, ScrambleMode::Roll, &mut rng3);
    assert_eq!(&r[..4], &['a', 'b', ' ', 'c']);
    assert!(r[4].is_ascii_digit());
}

#[test]
fn revealed_count_advances_to_the_end() {
    assert_eq!(advance_revealed(0, 3, 10), 3);
    assert_eq!(advance_revealed(9, 3, 10), 10);
    assert_eq!(advance_revealed(10, 3, 10), 10);
    let mut done = 0;
    let step = scramble_step(50, ScrambleMode::Decode);
    for _ in 0..22 {
        done = advance_revealed(done, step, 50);
    }
    assert_eq!(done, 50);
}

#[test]
fn ticker_keeps_newest_first() {
    let mut q: VecDeque<u32> = VecDeque::new();
    for i in 0..150 {
        push_front_capped(&mut q, i, TICKER_LINES);
    }
    assert_eq!(q.len(), 100);
    assert_eq!(q[0], 149);
    assert_eq!(q[99], 50);
    let mut z: VecDeque<u32> = VecDeque::from(vec![1, 2]);
    push_front_capped(&mut z, 0, 0);
    assert!(z.is_empty());
}
