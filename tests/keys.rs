use lockfree::keys::compare_keys;
use std::cmp::Ordering;

#[test]
fn compares_bytes_lexicographically() {
    assert_eq!(compare_keys(b"abc", b"abd"), Ordering::Less);
    assert_eq!(compare_keys(b"abd", b"abc"), Ordering::Greater);
    assert_eq!(compare_keys(b"ab", b"abc"), Ordering::Less);
    assert_eq!(compare_keys(b"abc", b"ab"), Ordering::Greater);
    assert_eq!(compare_keys(b"abc", b"abc"), Ordering::Equal);
    assert_eq!(compare_keys(b"", b""), Ordering::Equal);
    assert_eq!(compare_keys(b"", b"a"), Ordering::Less);
    assert_eq!(compare_keys(b"b", b"ab"), Ordering::Greater);
}
