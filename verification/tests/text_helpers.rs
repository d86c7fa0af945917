use kmeans_parallel::text::{copy_range, find_byte, has_prefix, split_separated, trim_colons_end};

fn b(s: &str) -> Vec<u8> {
    s.as_bytes().to_vec()
}

#[test]
fn bytes_are_found_first_first() {
    let s = b("a b c");
    assert_eq!(find_byte(&s, 0, s.len(), b' '), Some(1));
    assert_eq!(find_byte(&s, 2, s.len(), b' '), Some(3));
    assert_eq!(find_byte(&s, 4, s.len(), b' '), None);
    assert_eq!(find_byte(&s, 0, 1, b' '), None);
}

#[test]
fn ranges_are_copied() {
    let s = b("hello world");
    assert_eq!(copy_range(&s, 6, 11), b("world"));
    assert!(copy_range(&s, 3, 3).is_empty());
}

#[test]
fn prefixes_are_recognised() {
    assert!(has_prefix(&b("ITERATION 3:"), &b("ITERATION")));
    assert!(!has_prefix(&b("ITER"), &b("ITERATION")));
    assert!(!has_prefix(&b("Center 0"), &b("ITERATION")));
    assert!(has_prefix(&b("abc"), &Vec::new()));
}

#[test]
fn trailing_colons_are_dropped() {
    let s = b("x12:::");
    assert_eq!(trim_colons_end(&s, 1, s.len()), 3);
    let t = b(":::");
    assert_eq!(trim_colons_end(&t, 0, t.len()), 0);
    let u = b("a:b");
    assert_eq!(trim_colons_end(&u, 0, u.len()), 3);
}

#[test]
fn pieces_split_like_str_split() {
    for text in ["1, 2, 3", "", "a", ", ", "a,b, c", "x, , y", "a,, b", "1.5, -2.25"] {
        let s = b(text);
        let pieces = split_separated(&s, 0, s.len());
        let expected: Vec<Vec<u8>> = text.split(", ").map(|p| b(p)).collect();
        assert_eq!(pieces, expected, "{:?}", text);
    }
}
