use regex_core::prefix;

fn strings(list: &[&str]) -> Vec<String> {
    list.iter().map(|s| s.to_string()).collect()
}

#[test]
fn find_any() {
    let needles = strings(&["abaa", "abbaa", "abbbaa", "abbbbaa"]);
    let haystack = b"ababbabbbabbbabbbbabbbbaa";
    assert_eq!(prefix::find_any(&needles, haystack), Some(18));
}

#[test]
fn find_one_match() {
    let needle = b"abc";
    let haystack = b"zzzzzzzzzzabc";
    assert_eq!(prefix::find_one(needle, haystack), Some(10));
}

#[test]
fn find_one_no_match() {
    let needle = b"abcz";
    let haystack = b"zzzzzzzzzzabc";
    assert_eq!(prefix::find_one(needle, haystack), None);
}

#[test]
fn find_one_byte() {
    let needle = b"a";
    let haystack = b"zzzzzzzzzza";
    assert_eq!(prefix::find_one(needle, haystack), Some(10));
}

#[test]
fn find_one_byte_no_match() {
    let needle = b"y";
    let haystack = b"zzzzzzzzzzabc";
    assert_eq!(prefix::find_one(needle, haystack), None);
}

#[test]
fn memchr_finds_the_first() {
    assert_eq!(prefix::memchr(b'b', b"aabab"), Some(2));
    assert_eq!(prefix::memchr(b'a', b"aabab"), Some(0));
    assert_eq!(prefix::memchr(b'x', b"aabab"), None);
    assert_eq!(prefix::memchr(b'x', b""), None);
}

#[test]
fn find_one_empty_needle_is_never_found() {
    assert_eq!(prefix::find_one(b"", b"abc"), None);
    assert_eq!(prefix::find_one(b"", b""), None);
}

#[test]
fn find_one_needle_as_long_as_haystack() {
    assert_eq!(prefix::find_one(b"abc", b"abc"), Some(0));
    assert_eq!(prefix::find_one(b"abd", b"abc"), None);
    assert_eq!(prefix::find_one(b"abcd", b"abc"), None);
}

#[test]
fn find_one_restarts_after_a_false_start() {
    assert_eq!(prefix::find_one(b"ab", b"aaab"), Some(2));
    assert_eq!(prefix::find_one(b"aab", b"aaaab"), Some(2));
    assert_eq!(prefix::find_one(b"ab", b"aaaa"), None);
    assert_eq!(prefix::find_one(b"ab", b"bbba"), None);
}

#[test]
fn find_any_skips_empty_needles() {
    let needles = strings(&["", "b"]);
    assert_eq!(prefix::find_any(&needles, b"aab"), Some(2));
    let only_empty = strings(&[""]);
    assert_eq!(prefix::find_any(&only_empty, b"aab"), None);
    assert_eq!(prefix::find_any(&[], b"aab"), None);
}

#[test]
fn find_any_needle_at_the_end() {
    let needles = strings(&["bc", "abcd"]);
    assert_eq!(prefix::find_any(&needles, b"aabc"), Some(2));
    assert_eq!(prefix::find_any(&needles, b"aab"), None);
}
