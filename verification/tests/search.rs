use epicode::search::{
    flush_cjk, has_exact_keyword_match, hash_content, hash_string, is_cjk, is_noise_content,
    is_noise_label, tokenize, SearchScoreNotes,
};

fn strings(v: &[&str]) -> Vec<String> {
    v.iter().map(|s| s.to_string()).collect()
}

#[test]
fn tokenize_lowercases_words() {
    assert_eq!(tokenize("Hello World"), strings(&["hello", "world"]));
    assert_eq!(tokenize("hello,world!"), strings(&["hello", "world"]));
    assert_eq!(tokenize("a-b_c.d/e:f"), strings(&["a-b_c.d/e:f"]));
    assert!(tokenize("").is_empty());
    assert!(tokenize("  ,;  ").is_empty());
}

#[test]
fn tokenize_pairs_cjk_runs() {
    assert_eq!(tokenize("中"), strings(&["中"]));
    assert_eq!(tokenize("中文"), strings(&["中文", "中文"]));
    assert_eq!(tokenize("中文测试"), strings(&["中文", "文测", "测试"]));
    assert_eq!(tokenize("rust中文"), strings(&["rust", "中文", "中文"]));
    assert_eq!(tokenize("中a"), strings(&["中", "a"]));
}

#[test]
fn flush_cjk_emits_pairs_and_short_runs() {
    let mut tokens = Vec::new();
    flush_cjk("中文测", &mut tokens);
    assert_eq!(tokens, strings(&["中文", "文测", "中文测"]));
    let mut none = vec!["x".to_string()];
    flush_cjk("", &mut none);
    assert_eq!(none, strings(&["x"]));
}

#[test]
fn cjk_ranges() {
    assert!(is_cjk('中'));
    assert!(is_cjk('の'));
    assert!(is_cjk('한'));
    assert!(is_cjk('。'));
    assert!(!is_cjk('a'));
    assert!(!is_cjk('é'));
}

#[test]
fn content_hash_is_fnv1a() {
    assert_eq!(hash_content(""), 14695981039346656037);
    assert_eq!(hash_content("a"), 0xaf63dc4c8601ec8c);
    assert_eq!(hash_string("a"), hash_content("a"));
    assert_ne!(hash_content("a"), hash_content("b"));
}

#[test]
fn noise_labels() {
    assert!(is_noise_label(&strings(&["rust", "TEST"])));
    assert!(is_noise_label(&strings(&["Tmp"])));
    assert!(!is_noise_label(&strings(&["rust", "testing-plan"])));
    assert!(!is_noise_label(&[]));
}

#[test]
fn noise_content() {
    assert!(is_noise_content("short"));
    assert!(is_noise_content("Hello World"));
    assert!(is_noise_content("  TESTING 123  "));
    assert!(is_noise_content("[session] x | accomplished: test run"));
    assert!(is_noise_content("[finding] something | test"));
    assert!(!is_noise_content("This is a real memory about Rust"));
}

#[test]
fn exact_keyword_match_needs_more_than_half() {
    let none: Vec<String> = Vec::new();
    assert!(!has_exact_keyword_match("rust memory", "Rust is a language", &none, &none));
    assert!(has_exact_keyword_match(
        "rust memory",
        "Rust is a language",
        &none,
        &strings(&["Memory"])
    ));
    assert!(has_exact_keyword_match("rust", "x", &strings(&["RUSTY"]), &none));
    assert!(!has_exact_keyword_match("", "anything", &none, &none));
}

#[test]
fn empty_score_notes() {
    let n = SearchScoreNotes::empty();
    assert!(n.cluster_boosted.is_empty());
    assert!(n.matched_by_map.is_empty());
}

#[test]
fn ascii_text_tokens_are_its_lowercase_words() {
    let text = "Rust TRAIT\tobjects: a/b.c  x_y-z\n";
    let expected: Vec<String> = text.to_lowercase().split_whitespace().map(String::from).collect();
    assert_eq!(tokenize(text), expected);
    for t in tokenize("Mixed 中文 Text") {
        assert!("mixed 中文 text".contains(t.as_str()));
    }
}

#[test]
fn ascii_punctuation_separates_tokens() {
    assert_eq!(
        tokenize("Hello, World! path/to/file.rs:42 (x_y)"),
        vec!["hello", "world", "path/to/file.rs:42", "x_y"]
    );
    assert!(tokenize("").is_empty());
    assert!(tokenize(" ,;!? ").is_empty());
}

#[test]
fn hashing_one_more_character_continues_the_hash() {
    for (s, c) in [("memory", 'x'), ("", 'é'), ("abc", '中')] {
        let whole = format!("{}{}", s, c);
        let continued = c
            .to_string()
            .bytes()
            .fold(hash_content(s), |h, b| (h ^ b as u64).wrapping_mul(1099511628211));
        assert_eq!(hash_content(&whole), continued);
    }
}
