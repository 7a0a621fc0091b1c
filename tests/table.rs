use lockfree::bucket::Pair;
use lockfree::table::{Node, Table};

fn pair(key: &str, val: i32) -> Pair<i32> {
    Pair { key: key.to_owned(), val }
}

#[test]
fn hashes_sharing_low_bits_split_and_stay_findable() {
    let mut t = Table::empty();
    let h1: u64 = 0x0105;
    let h2: u64 = 0x0205;
    assert!(t.insert(0, h1, pair("a", 1)).is_none());
    assert!(matches!(t.nodes[5], Some(Node::Leaf(_))));
    assert!(t.insert(0, h2, pair("b", 2)).is_none());
    assert!(matches!(t.nodes[5], Some(Node::Branch(_))));
    assert_eq!(t.get(0, h1, b"a").map(|p| p.val), Some(1));
    assert_eq!(t.get(0, h2, b"b").map(|p| p.val), Some(2));
    assert!(t.get(0, h1, b"b").is_none());

    assert_eq!(t.remove(0, h1, b"a").map(|p| p.val), Some(1));
    assert!(t.get(0, h1, b"a").is_none());
    assert_eq!(t.get(0, h2, b"b").map(|p| p.val), Some(2));
    match &t.nodes[5] {
        Some(Node::Branch(sub)) => {
            assert!(sub.nodes[1].is_none());
            assert!(matches!(sub.nodes[2], Some(Node::Leaf(_))));
        },
        _ => panic!("expected a branch"),
    }
}

#[test]
fn equal_hashes_share_an_ordered_bucket() {
    let mut t = Table::empty();
    let h: u64 = 0xdead_beef;
    t.insert(0, h, pair("c", 3));
    t.insert(0, h, pair("a", 1));
    t.insert(0, h, pair("b", 2));
    match &t.nodes[0xef] {
        Some(Node::Leaf(bucket)) => {
            let keys: Vec<&str> = bucket.list.iter().map(|p| p.key.as_str()).collect();
            assert_eq!(keys, vec!["a", "b", "c"]);
            assert_eq!(bucket.hash, h);
        },
        _ => panic!("expected a leaf"),
    }
    assert_eq!(t.get(0, h, b"b").map(|p| p.val), Some(2));
    assert_eq!(t.remove(0, h, b"b").map(|p| p.val), Some(2));
    assert!(t.get(0, h, b"b").is_none());
    assert_eq!(t.get(0, h, b"c").map(|p| p.val), Some(3));
}

#[test]
fn emptied_leaf_is_unlinked() {
    let mut t = Table::empty();
    t.insert(0, 7, pair("x", 1));
    assert!(t.nodes[7].is_some());
    assert!(t.remove(0, 7, b"x").is_some());
    assert!(t.nodes[7].is_none());
    assert!(t.remove(0, 7, b"x").is_none());
}

#[test]
fn hashes_equal_below_the_top_byte_split_deep() {
    let mut t = Table::empty();
    let h1: u64 = 0x0100_0000_0000_0000;
    let h2: u64 = 0x0200_0000_0000_0000;
    t.insert(0, h1, pair("p", 1));
    t.insert(0, h2, pair("q", 2));
    assert_eq!(t.get(0, h1, b"p").map(|p| p.val), Some(1));
    assert_eq!(t.get(0, h2, b"q").map(|p| p.val), Some(2));
}
