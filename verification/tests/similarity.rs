use snaffler_cluster::similarity::{is_similar, levenshtein};

#[test]
fn distance_exact_values() {
    assert_eq!(levenshtein("kitten", "sitting"), 3);
    assert_eq!(levenshtein("", "abc"), 3);
    assert_eq!(levenshtein("abc", ""), 3);
    assert_eq!(levenshtein("", ""), 0);
    assert_eq!(levenshtein("same", "same"), 0);
    assert_eq!(levenshtein("flaw", "lawn"), 2);
    assert_eq!(levenshtein("password=123", "password=124"), 1);
}

#[test]
fn identical_strings_are_similar() {
    assert!(is_similar("", ""));
    assert!(is_similar("a", "a"));
    assert!(is_similar("password=123", "password=123"));
}

#[test]
fn similarity_is_symmetric_on_samples() {
    let pairs = [
        ("password=123", "password=124"),
        ("kitten", "sitting"),
        ("", "abc"),
        ("aaaaaaaaaa", "aaaaaabbbb"),
        ("totally different text", "password=123"),
    ];
    for (a, b) in pairs {
        assert_eq!(is_similar(a, b), is_similar(b, a));
    }
}

#[test]
fn threshold_is_strict() {
    // distance 4 over length 10 gives similarity exactly 6/10: not similar
    assert!(!is_similar("aaaaaaaaaa", "aaaaaabbbb"));
    // distance 3 over length 10 gives similarity 7/10: similar
    assert!(is_similar("aaaaaaaaaa", "aaaaaaabbb"));
}

#[test]
fn near_duplicate_contexts_are_similar() {
    assert!(is_similar("password=123", "password=124"));
    assert!(!is_similar("password=123", "totally different text"));
}
