use minspan::span;

#[test]
fn test_minimal_match() {
    let wrapper = |needle: &str, haystack: &str| match span(
        &needle.chars().collect(),
        &haystack.chars().collect(),
    ) {
        Some((from, to)) => Some(1 + to - from),
        None => None,
    };

    assert_eq!(wrapper("ab", "ab").unwrap(), 2);
    assert_eq!(wrapper("a", "ab").unwrap(), 1);
    assert_eq!(wrapper("ab", "abc").unwrap(), 2);
    assert_eq!(wrapper("abc", "abcd").unwrap(), 3);
    assert_eq!(wrapper("curl", "curly").unwrap(), 4);
    assert_eq!(wrapper("curl", "acccccurlycurrelly").unwrap(), 4);
    assert_eq!(wrapper("z", "acccccurlycurrelly"), None);
    assert_eq!(wrapper("ssh", "testssh"), Some(3));

    assert_eq!(wrapper("", "abc"), Some(1));

    // Test for empty `haystack`
    assert_eq!(wrapper("abc", ""), None);

    // Test for both `needle` and `haystack` being empty
    assert_eq!(wrapper("", ""), Some(1));

    // Test for a single character match
    assert_eq!(wrapper("a", "a"), Some(1));

    // Test where `needle` is longer than `haystack`
    assert_eq!(wrapper("abc", "a"), None);

    // Test where `needle` is not found in `haystack`
    assert_eq!(wrapper("xyz", "abcdefgh"), None);

    // Test for `needle` appearing multiple times in `haystack`
    assert_eq!(wrapper("ab", "ababc"), Some(2)); // Shortest match
    assert_eq!(wrapper("aba", "abababa"), Some(3)); // Overlapping match

    // Test for `needle` appearing in reversed order in `haystack`
    assert_eq!(wrapper("abc", "cbadefg"), None);

    // Test for non-contiguous matches
    assert_eq!(wrapper("ace", "abcde"), Some(5)); // `ace` appears non-contiguously
    assert_eq!(wrapper("ace", "axxxxxcxxxxxexxxxxx"), Some(13)); // Long gap between matches

    // Test for duplicate characters in `needle`
    assert_eq!(wrapper("aaa", "aaaaaa"), Some(3)); // Shortest span with three consecutive 'a'

    // Test with special characters
    assert_eq!(wrapper("a!b", "a!bc"), Some(3)); // Matches including special characters
    assert_eq!(wrapper("!?*", "abc!?*xyz"), Some(3)); // Special characters match in sequence

    // Test case sensitivity
    assert_eq!(wrapper("abc", "ABC"), None); // Case-sensitive mismatch
    assert_eq!(wrapper("abc", "aBc"), None); // Mixed case-sensitive mismatch

    // Test where `haystack` is very large
    let large_haystack = "a".repeat(1_000_000) + "b";
    assert_eq!(wrapper("ab", &large_haystack), Some(2)); // Match at the end

    // Test with Unicode characters
    assert_eq!(wrapper("こんにちは", "これはこんにちは世界"), Some(5)); // Matches the Japanese substring
    assert_eq!(wrapper("你好", "你好吗"), Some(2)); // Chinese characters match
    assert_eq!(wrapper("😊", "abc😊def"), Some(1)); // Matches emoji
}

fn chars(s: &str) -> Vec<char> {
    s.chars().collect()
}

#[test]
fn test_exact_spans() {
    assert_eq!(span(&chars("ab"), &chars("ab")), Some((0, 1)));
    assert_eq!(span(&chars("a"), &chars("ab")), Some((0, 0)));
    assert_eq!(span(&chars("curl"), &chars("curly")), Some((0, 3)));
    assert_eq!(span(&chars("curl"), &chars("acccccurlycurrelly")), Some((5, 8)));
    assert_eq!(span(&chars("z"), &chars("acccccurlycurrelly")), None);
    assert_eq!(span(&chars("abc"), &chars("cbadefg")), None);
}

#[test]
fn test_empty_query_convention() {
    // An empty query always yields the degenerate window (0, 0), whatever
    // the reference holds — even when the reference is empty too.
    assert_eq!(span(&chars(""), &chars("")), Some((0, 0)));
    assert_eq!(span(&chars(""), &chars("abc")), Some((0, 0)));
    assert_eq!(span::<u32>(&vec![], &vec![7, 8, 9]), Some((0, 0)));
}

#[test]
fn test_empty_reference() {
    // A non-empty query can never be found in an empty reference.
    assert_eq!(span(&chars("abc"), &chars("")), None);
    assert_eq!(span(&chars("a"), &chars("")), None);
    assert_eq!(span::<u64>(&vec![1], &vec![]), None);
}

#[test]
fn test_window_endpoints_match() {
    // The returned window starts at an element equal to the first query
    // element and ends at one equal to the last, with start <= end.
    let cases = [
        ("ab", "ababc"),
        ("ace", "abcde"),
        ("curl", "acccccurlycurrelly"),
        ("aba", "abababa"),
        ("aaa", "aaaaaa"),
    ];
    for (needle, haystack) in cases {
        let q = chars(needle);
        let h = chars(haystack);
        let (s, e) = span(&q, &h).unwrap();
        assert!(s <= e);
        assert!(e < h.len());
        assert_eq!(h[s], q[0]);
        assert_eq!(h[e], q[q.len() - 1]);
        assert!(e - s + 1 >= q.len());
    }
}

#[test]
fn test_appending_never_worsens() {
    // Growing the reference on the right never makes the best span longer.
    let q = chars("ab");
    let mut h: Vec<char> = Vec::new();
    let mut best_len: Option<usize> = None;
    for c in "xaxxbxabx".chars() {
        h.push(c);
        let found = span(&q, &h).map(|(s, e)| e - s + 1);
        match (best_len, found) {
            (Some(old), Some(new)) => assert!(new <= old),
            (Some(_), None) => panic!("a span was lost by appending"),
            _ => {}
        }
        if found.is_some() {
            best_len = found;
        }
    }
    assert_eq!(best_len, Some(2));
}

#[test]
fn test_deterministic() {
    // The same inputs give the same answer, call after call.
    let q = chars("aba");
    let h = chars("abababa");
    let first = span(&q, &h);
    for _ in 0..3 {
        assert_eq!(span(&q, &h), first);
    }
}

#[test]
fn test_duplicate_elements_same_position() {
    // One reference element must not both start a chain and extend it in
    // the same scan step: "aa" needs two distinct positions.
    assert_eq!(span(&chars("aa"), &chars("a")), None);
    assert_eq!(span(&chars("aa"), &chars("aa")), Some((0, 1)));
    assert_eq!(span(&chars("aa"), &chars("axa")), Some((0, 2)));
    assert_eq!(span(&chars("aa"), &chars("axaa")), Some((2, 3)));
}

#[test]
fn test_integer_elements() {
    // Elements only need equality; integers work the same as characters.
    assert_eq!(span(&vec![1u64, 2, 3], &vec![1, 9, 2, 3]), Some((0, 3)));
    assert_eq!(span(&vec![2i32, 2], &vec![2, 1, 2, 2]), Some((2, 3)));
    assert_eq!(span(&vec![5u8], &vec![9, 5, 9]), Some((1, 1)));
    assert_eq!(span(&vec![4u8, 2], &vec![2, 4]), None);
}

#[test]
fn test_later_shorter_span_wins() {
    // A shorter window found later in the scan supersedes an earlier,
    // longer one.
    assert_eq!(span(&chars("ab"), &chars("axxxbab")), Some((5, 6)));
    assert_eq!(span(&chars("ssh"), &chars("testssh")), Some((4, 6)));
}
