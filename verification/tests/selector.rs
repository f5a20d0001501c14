use kfm_tool::regex_or::collect_matching_ids;
use kfm_tool::regex_or::Pattern;
use kfm_tool::regex_or::RegexOr;

#[test]
fn test_pattern_new_accepts_valid() {
    assert!(Pattern::new(".*".to_string()).is_some());
}

#[test]
fn test_pattern_new_rejects_invalid() {
    assert!(Pattern::new("(".to_string()).is_none());
}

#[test]
fn test_literal_selector() {
    let ids = vec![0u32, 1, 2, 10];
    let sel: RegexOr<u32> = RegexOr::Other(2);
    assert_eq!(collect_matching_ids(&ids, &sel), vec![2]);
    let sel_missing: RegexOr<u32> = RegexOr::Other(9);
    assert_eq!(collect_matching_ids(&ids, &sel_missing), Vec::<u32>::new());
}

#[test]
fn test_regex_selector_unanchored() {
    // pattern "1" matches any id whose decimal text contains the digit 1
    let ids = vec![0u32, 1, 2, 10, 21, 33];
    let sel = RegexOr::Regex(Pattern::new("1".to_string()).unwrap());
    assert_eq!(collect_matching_ids(&ids, &sel), vec![1, 10, 21]);
}

#[test]
fn test_regex_selector_anchored() {
    let ids = vec![0u32, 1, 10, 21];
    let sel = RegexOr::Regex(Pattern::new("^1$".to_string()).unwrap());
    assert_eq!(collect_matching_ids(&ids, &sel), vec![1]);
}

#[test]
fn test_regex_selector_all() {
    let ids = vec![3u32, 7, 11];
    let sel = RegexOr::Regex(Pattern::new(".*".to_string()).unwrap());
    assert_eq!(collect_matching_ids(&ids, &sel), vec![3, 7, 11]);
}
