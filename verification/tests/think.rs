use cable_bench::think::{chars_to_tokens, estimate_think, split_think};

#[test]
fn split_think_without_tags_returns_whole_reply() {
    let raw = "plain answer";
    assert_eq!(split_think(raw), (0, raw.len(), raw));
}

#[test]
fn split_think_measures_think_block_and_trims_answer() {
    let raw = "<think>abcd</think>  \n answer";
    let (think, len, after) = split_think(raw);
    assert_eq!(think, 4);
    assert_eq!(after, "answer");
    assert_eq!(len, 6);
}

#[test]
fn split_think_counts_bytes_not_chars() {
    let raw = "é<think>héllo</think>réponse";
    let (think, len, after) = split_think(raw);
    assert_eq!(think, "héllo".len());
    assert_eq!(after, "réponse");
    assert_eq!(len, "réponse".len());
}

#[test]
fn split_think_close_before_open_counts_zero() {
    let raw = "</think> x <think>";
    let (think, _, after) = split_think(raw);
    assert_eq!(think, 0);
    assert_eq!(after, "x <think>");
}

#[test]
fn split_think_only_open_tag_is_no_block() {
    let raw = "<think>never closed";
    assert_eq!(split_think(raw), (0, raw.len(), raw));
}

#[test]
fn split_think_trims_unicode_whitespace() {
    let raw = "<think>t</think>\u{3000}\u{a0}\tans";
    let (_, _, after) = split_think(raw);
    assert_eq!(after, "ans");
}

#[test]
fn chars_to_tokens_rounds_half_up() {
    assert_eq!(chars_to_tokens(0), 0);
    assert_eq!(chars_to_tokens(1), 0);
    assert_eq!(chars_to_tokens(2), 1);
    assert_eq!(chars_to_tokens(3), 1);
    assert_eq!(chars_to_tokens(6), 2);
    assert_eq!(chars_to_tokens(400), 100);
}

#[test]
fn chars_to_tokens_matches_float_rounding_on_small_inputs() {
    for c in 0usize..5000 {
        assert_eq!(chars_to_tokens(c), (c as f64 / 4.0).round() as u64);
    }
}

#[test]
fn estimate_think_cases() {
    let reply = "<think>12345678</think>ok";
    assert_eq!(estimate_think(false, Some(9), reply), None);
    assert_eq!(estimate_think(true, Some(9), reply), Some(9));
    assert_eq!(estimate_think(true, None, reply), Some(2));
    assert_eq!(estimate_think(true, None, "no block"), Some(0));
}

#[test]
fn chars_to_tokens_matches_float_rounding_on_large_inputs() {
    let samples: [usize; 12] = [
        (1 << 53) - 1,
        1 << 53,
        (1 << 53) + 1,
        (1 << 53) + 2,
        (1 << 53) + 3,
        (1 << 54) + 5,
        (1 << 54) + 6,
        (1 << 60) + 12345,
        usize::MAX,
        usize::MAX - 1024,
        usize::MAX - 1025,
        0x1234_5678_9abc_def1,
    ];
    for c in samples {
        assert_eq!(chars_to_tokens(c), (c as f64 / 4.0).round() as u64, "c = {}", c);
    }
}

#[test]
fn chars_to_tokens_is_monotone_on_samples() {
    let mut prev = 0;
    for c in (0usize..10_000).chain([(1usize << 53) - 3, (1 << 53) - 1, 1 << 53, (1 << 53) + 1, (1 << 53) + 3, usize::MAX - 1, usize::MAX]) {
        let t = chars_to_tokens(c);
        assert!(t >= prev);
        prev = t;
    }
}
