use measured_forgetting::influence::{half_influence_key, kth_smallest, sorted_keys};
use measured_forgetting::text::{
    chars_of, contains_str, count_uppercase, find_chars, line_spans, push_decimal, str_equal,
    trim_bounds, white_space, word_spans,
};
use measured_forgetting::forgetting::score_dimensions;
use measured_forgetting::think::strip_think;
use measured_forgetting::Message;

const SAMPLES: &[&str] = &[
    "",
    "a",
    "\n",
    "a\n",
    "a\nb",
    "a\r\nb\r\n",
    "a\r",
    "\r\n\r\n",
    "  two  words\there ",
    "x\u{a0}y\u{3000}z\u{85}w\u{2028}v",
    "\u{180e}not space",
    "line one\n\n  line three  \nlast",
    "héllo wörld\u{2009}ok",
];

fn seg(chars: &[char], a: usize, b: usize) -> String {
    chars[a..b].iter().collect()
}

#[test]
fn lines_match_std() {
    for s in SAMPLES {
        let c = chars_of(s);
        let spans = line_spans(&c);
        let ours: Vec<String> = spans.iter().map(|&(a, b)| seg(&c, a, b)).collect();
        let theirs: Vec<String> = s.lines().map(|l| l.to_string()).collect();
        assert_eq!(ours, theirs, "lines of {:?}", s);
    }
}

#[test]
fn words_match_std() {
    for s in SAMPLES {
        let c = chars_of(s);
        let spans = word_spans(&c);
        let ours: Vec<String> = spans.iter().map(|&(a, b)| seg(&c, a, b)).collect();
        let theirs: Vec<String> = s.split_whitespace().map(|w| w.to_string()).collect();
        assert_eq!(ours, theirs, "words of {:?}", s);
    }
}

#[test]
fn trim_matches_std() {
    for s in SAMPLES {
        let c = chars_of(s);
        let (a, b) = trim_bounds(&c, 0, c.len());
        assert_eq!(seg(&c, a, b), s.trim(), "trim of {:?}", s);
    }
}

#[test]
fn white_space_matches_std() {
    for code in 0u32..0x3100 {
        if let Some(ch) = char::from_u32(code) {
            assert_eq!(white_space(ch), ch.is_whitespace(), "{:?}", ch);
        }
    }
}

#[test]
fn search_matches_std() {
    let hay = chars_of("the cat sat on the mat");
    for pat in ["the", "mat", "at s", "", "dog", "the mat!"] {
        let p = chars_of(pat);
        assert_eq!(contains_str(&hay, pat), "the cat sat on the mat".contains(pat));
        let expected = "the cat sat on the mat".find(pat);
        assert_eq!(find_chars(&hay, &p), expected);
    }
}

#[test]
fn equality_and_decimals() {
    assert!(str_equal("assistant", "assistant"));
    assert!(!str_equal("assistant", "assistants"));
    assert!(!str_equal("user", "used"));
    for n in [0usize, 7, 10, 99, 100, 4096, usize::MAX] {
        let mut s = String::from("n=");
        push_decimal(&mut s, n);
        assert_eq!(s, format!("n={}", n));
    }
}

#[test]
fn outside_character_functions() {
    let m = Message { role: "assistant".to_string(), content: "ÀBC Σ".to_string() };
    let s = score_dimensions(&m, "àbc");
    assert_eq!(s.question_words, 1);
    assert_eq!(s.matching_words, 1);
    let c = chars_of("ABcΔé");
    assert_eq!(count_uppercase(&c), 3);
}

/// The influence key of a number (not NaN): its bit pattern moved so that
/// keys order as the numbers do, both zeros at 2^63.
fn key(x: f64) -> u64 {
    let b = x.to_bits();
    if b >> 63 == 0 {
        (1u64 << 63) + b
    } else {
        0u64.wrapping_sub(b)
    }
}

#[test]
fn half_key_matches_float_halving() {
    let mut values: Vec<f64> = vec![
        0.0,
        1.0,
        0.7,
        3.0,
        1e-300,
        f64::MIN_POSITIVE,
        f64::MIN_POSITIVE * 1.5,
        f64::MAX,
        f64::INFINITY,
        2.2250738585072014e-308 * 0.75,
    ];
    for bits in [1u64, 2, 3, 5, 7, 0x000f_ffff_ffff_ffff, 0x0010_0000_0000_0001, 0x0010_0000_0000_0003, 0x001f_ffff_ffff_ffff] {
        values.push(f64::from_bits(bits));
    }
    let mut x = 12345.678f64;
    for _ in 0..200 {
        values.push(x);
        x *= 0.31;
    }
    let negatives: Vec<f64> = values.iter().map(|v| -v).collect();
    values.extend(negatives);
    for v in values {
        assert_eq!(half_influence_key(key(v)), key(v * 0.5), "half of {:e}", v);
    }
}

#[test]
fn half_keys_keep_order() {
    let keys: Vec<u64> =
        [f64::MIN, -9.0, -0.25, -1e-320, -0.0, 0.0, 1e-320, 1e-310, 0.25, 1.0, 9.0, f64::MAX]
            .iter()
            .map(|x| key(*x))
            .collect();
    for w in keys.windows(2) {
        assert!(half_influence_key(w[0]) <= half_influence_key(w[1]));
    }
    for k in keys {
        let h = half_influence_key(k);
        if k >= 1u64 << 63 {
            assert!(h <= k);
        } else {
            assert!(h >= k);
        }
    }
}

#[test]
fn keys_order_like_floats() {
    let xs = [
        f64::NEG_INFINITY,
        -1e10,
        -0.7,
        -1e-310,
        -0.0,
        0.0,
        1e-310,
        1e-5,
        0.5,
        0.7,
        1.0,
        2.83,
        1e10,
        f64::INFINITY,
    ];
    for a in xs {
        for b in xs {
            assert_eq!(a < b, key(a) < key(b), "{} < {}", a, b);
            assert_eq!(a == b, key(a) == key(b), "{} == {}", a, b);
        }
    }
}

#[test]
fn order_statistics() {
    let keys = vec![5u64, 1, 9, 1, 7, 3];
    let mut expected = keys.clone();
    expected.sort();
    assert_eq!(sorted_keys(&keys), expected);
    for k in 0..keys.len() {
        assert_eq!(kth_smallest(&keys, k), expected[k]);
    }
}

#[test]
fn strip_think_blocks() {
    assert_eq!(strip_think("<think>hmm</think> Answer: 4 "), "Answer: 4");
    assert_eq!(strip_think("a<think>x</think>b<think>y</think>c"), "abc");
    assert_eq!(strip_think("keep <think>never closed"), "keep");
    assert_eq!(strip_think("  plain  "), "plain");
    for t in ["<think>a</think><think>b</think>ok", "x<think>y", "<think></think>"] {
        assert!(!strip_think(t).contains("<think>"));
    }
}

#[test]
fn strip_think_with_stray_closing_tags() {
    // A closing tag before the first opening tag stays; the block after it goes.
    assert_eq!(strip_think("</think><think>"), "</think>");
    assert_eq!(strip_think("a</think>b<think>c"), "a</think>b");
    assert_eq!(strip_think("a</think>b<think>c</think>d"), "a</think>bd");
    assert_eq!(strip_think("<think>a</think>b</think>c<think>"), "b</think>c");
    for t in ["</think><think>", "x</think><think>y</think><think>z", "</think>"] {
        assert!(!strip_think(t).contains("<think>"));
    }
}

#[test]
fn strip_think_removes_exactly_the_blocks() {
    // No opening tag: the text comes back, trimmed.
    assert_eq!(strip_think("  a </think> b "), "a </think> b");
    // A block is cut out and the two sides join.
    assert_eq!(strip_think("x <think>why</think> y"), "x  y");
    // Joined sides are stripped in turn.
    assert_eq!(strip_think("<thi<think>.</think>nk>z</think>w"), "w");
}
