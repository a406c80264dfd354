use rope::text::{MeasuredString, Rope, StringMeasure, CHUNK_SIZE};

fn rope(s: &str) -> Rope {
    Rope::from(String::from(s))
}

fn chunk_strings(r: Rope) -> Vec<String> {
    r.0.iter().into_iter().map(|c| c.string).collect()
}

#[test]
fn new_is_empty() {
    let r = Rope::new();
    assert_eq!(r.to_string(), "");
    assert_eq!(r.measure(), StringMeasure { len: 0, char_count: 0, newline_count: 0 });
}

#[test]
fn from_empty_string() {
    let r = rope("");
    assert_eq!(r.to_string(), "");
    assert!(r.0.is_empty());
}

#[test]
fn from_counts_chars_and_newlines() {
    let r = rope("a\nbc\n");
    let m = r.measure();
    assert_eq!(m.len, 5);
    assert_eq!(m.char_count, 5);
    assert_eq!(m.newline_count, 2);
}

#[test]
fn from_counts_multibyte() {
    let r = rope("h\u{e9}llo");
    let m = r.measure();
    assert_eq!(m.len, 6);
    assert_eq!(m.char_count, 5);
    assert_eq!(m.newline_count, 0);
}

#[test]
fn measured_string_from_counts() {
    let c = MeasuredString::from(String::from("a\nb"));
    assert_eq!(c.char_count, 3);
    assert_eq!(c.newline_count, 1);
    let m = StringMeasure::from(&c);
    assert_eq!(m, StringMeasure { len: 3, char_count: 3, newline_count: 1 });
}

#[test]
fn zero_measure_is_zero() {
    assert!(StringMeasure { len: 0, char_count: 0, newline_count: 0 }.is_zero());
    assert!(!StringMeasure { len: 1, char_count: 1, newline_count: 0 }.is_zero());
}

#[test]
fn concatenate_with_empty() {
    let r = Rope::new().concatenate(rope("abc"));
    assert_eq!(r.to_string(), "abc");
    let r = rope("abc").concatenate(Rope::new());
    assert_eq!(r.to_string(), "abc");
}

#[test]
fn small_chunks_merge_at_junction() {
    let r = rope("abc").concatenate(rope("def"));
    assert_eq!(r.to_string(), "abcdef");
    assert_eq!(chunk_strings(r), vec!["abcdef"]);
}

#[test]
fn merge_at_exact_threshold() {
    let left = "a".repeat(CHUNK_SIZE / 2);
    let right = "b".repeat(CHUNK_SIZE - CHUNK_SIZE / 2);
    let r = Rope::from(left.clone()).concatenate(Rope::from(right.clone()));
    let chunks = chunk_strings(r);
    assert_eq!(chunks.len(), 1);
    assert_eq!(chunks[0], left + &right);
}

#[test]
fn large_chunks_stay_apart() {
    let left = "a".repeat(CHUNK_SIZE / 2);
    let right = "b".repeat(CHUNK_SIZE / 2 + 1);
    let r = Rope::from(left.clone()).concatenate(Rope::from(right.clone()));
    let chunks = chunk_strings(r);
    assert_eq!(chunks, vec![left, right]);
}

#[test]
fn merge_touches_only_the_junction() {
    let big = "x".repeat(CHUNK_SIZE);
    let r1 = Rope::from(big.clone()).concatenate(rope("aa"));
    let r2 = rope("bb").concatenate(Rope::from(big.clone()));
    let r = r1.concatenate(r2);
    assert_eq!(chunk_strings(r), vec![big.clone(), String::from("aabb"), big]);
}

#[test]
fn scenario_hello_world_rope() {
    let r = rope("Hello").concatenate(rope(", world!!"));
    assert_eq!(r.to_string(), "Hello, world!!");
    let m = r.measure();
    assert_eq!(m.len, 14);
    assert_eq!(m.char_count, 14);
    assert_eq!(m.newline_count, 0);
}

#[test]
fn repeated_appends_stay_one_chunk() {
    let mut r = Rope::new();
    for _ in 0..10 {
        r = r.concatenate(rope("ab"));
    }
    assert_eq!(r.to_string(), "ab".repeat(10));
    assert_eq!(chunk_strings(r).len(), 1);
}
