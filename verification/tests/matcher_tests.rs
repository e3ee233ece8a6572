use word_chain::SuffixMatcher;

#[test]
fn suffix_matching_test() {
    {
        let matcher = SuffixMatcher::new("");
        assert!(matcher.try_match(""));
        assert!(matcher.try_match("a"));
        assert!(matcher.try_match("aa"));
        assert!(matcher.try_match("aaa"));
    }

    {
        let matcher = SuffixMatcher::new("abc");
        assert!(!matcher.try_match(""));
        assert!(matcher.try_match("a"));
        assert!(matcher.try_match("ab"));
        assert!(matcher.try_match("abc"));
        assert!(matcher.try_match("abcab"));
        assert!(!matcher.try_match("bb"));
    }

    {
        let matcher = SuffixMatcher::new("aaa");
        assert!(!matcher.try_match(""));
        assert!(matcher.try_match("a"));
        assert!(matcher.try_match("aa"));
        assert!(matcher.try_match("aaa"));
        assert!(matcher.try_match("aaaa"));
        assert!(matcher.try_match("baaa"));
        assert!(matcher.try_match("baaa"));
        assert!(matcher.try_match("ba"));
        assert!(!matcher.try_match("b"));
    }
}

#[test]
fn word_continues_from_itself() {
    for word in ["a", "ab", "tiger", "cat", "aaa", "abab"] {
        let matcher = SuffixMatcher::new(word);
        assert!(matcher.try_match(word));
    }
}

#[test]
fn empty_query_matches_only_empty_target() {
    assert!(SuffixMatcher::new("").try_match(""));
    assert!(!SuffixMatcher::new("a").try_match(""));
    assert!(!SuffixMatcher::new("tiger").try_match(""));
}

#[test]
fn single_character_target_matches_anywhere() {
    let matcher = SuffixMatcher::new("a");
    assert!(matcher.try_match("a"));
    assert!(matcher.try_match("bca"));
    assert!(matcher.try_match("abc"));
    assert!(matcher.try_match("bac"));
    assert!(!matcher.try_match("bc"));
}

#[test]
fn short_query_can_end_mid_automaton() {
    let matcher = SuffixMatcher::new("tiger");
    assert!(matcher.try_match("ti"));
    assert!(matcher.try_match("xxtig"));
    assert!(!matcher.try_match("xx"));
}

#[test]
fn containment_accepts_even_with_cold_tail() {
    let matcher = SuffixMatcher::new("aba");
    assert!(matcher.try_match("xabay"));
    assert!(!matcher.try_match("xay"));
}
