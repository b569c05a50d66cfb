//! Tokens of names and patterns.

use bulwark::filter::token::{fast_hash, tokenize_pattern_safe, tokenize_query};

fn hash(s: &str) -> u32 {
    fast_hash(&s.chars().collect::<Vec<char>>())
}

#[test]
fn query_tokens() {
    let t = tokenize_query("ad.doubleclick.net");
    assert!(t.contains(&hash("doubleclick")));
    assert!(t.contains(&hash("net")));
    assert!(!t.contains(&hash("ad")));
}

#[test]
fn interior_tokens_only() {
    let t = tokenize_pattern_safe("*.doubleclick.net");
    assert_eq!(t, vec![hash("doubleclick")]);
}

#[test]
fn star_adjacent_excluded() {
    assert!(tokenize_pattern_safe("*track*").is_empty());
}

#[test]
fn case_insensitive() {
    assert_eq!(tokenize_query("EXAMPLE.com"), tokenize_query("example.COM"));
}
