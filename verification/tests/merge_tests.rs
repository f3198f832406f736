use asset_client::node::{AssetData, AssetNode};
use asset_client::path::AssetPath;
use asset_client::path::{back_path, bgm_path, map_path, obj_path, tile_path};
use asset_client::tree::AssetTree;

fn path(segments: &[&str]) -> AssetPath {
    let segs: Vec<String> = segments.iter().map(|s| s.to_string()).collect();
    AssetPath::from_segments(segs).expect("well-formed path")
}

fn text_node(s: &str) -> AssetNode {
    AssetNode::new(AssetData::Text(s.to_string()))
}

fn node_with_child(name: &str, child: AssetNode) -> AssetNode {
    let mut n = AssetNode::new(AssetData::Unresolved);
    n.set_child(name, child);
    n
}

fn leaf_text(tree: &AssetTree, p: &AssetPath) -> Option<String> {
    match tree.lookup(p) {
        Some(n) => match n.data() {
            AssetData::Text(s) => Some(s.clone()),
            _ => None,
        },
        None => None,
    }
}

#[test]
fn merge_creates_spine() {
    let mut tree = AssetTree::new();
    let p = path(&["X.nx", "A", "a.img"]);
    assert!(tree.lookup(&p).is_none());
    tree.merge(&p, text_node("hello"));
    assert_eq!(leaf_text(&tree, &p).as_deref(), Some("hello"));
    // The intermediate nodes exist and carry no payload.
    let mid = path(&["X.nx", "A"]);
    let mid_node = tree.lookup(&mid).expect("spine node exists");
    assert!(matches!(mid_node.data(), AssetData::Unresolved));
}

#[test]
fn merge_idempotent() {
    // Merging the same payload at the same path twice leaves the same
    // tree as merging it once.
    let p = path(&["X.nx", "A", "a.img"]);
    let mut once = AssetTree::new();
    once.merge(&p, node_with_child("c", text_node("v")));
    let mut twice = AssetTree::new();
    twice.merge(&p, node_with_child("c", text_node("v")));
    twice.merge(&p, node_with_child("c", text_node("v")));
    let child_path = path(&["X.nx", "A", "a.img", "c"]);
    assert_eq!(leaf_text(&once, &child_path), leaf_text(&twice, &child_path));
    let n_once = once.lookup(&p).expect("present");
    let n_twice = twice.lookup(&p).expect("present");
    assert_eq!(n_once.child_count(), n_twice.child_count());
}

#[test]
fn merge_preserves_disjoint_sibling() {
    // Merging a second, disjoint path preserves the first subtree.
    let mut tree = AssetTree::new();
    let pa = path(&["X.nx", "A", "a.img"]);
    let pb = path(&["X.nx", "A", "b.img"]);
    tree.merge(&pa, text_node("first"));
    tree.merge(&pb, text_node("second"));
    assert_eq!(leaf_text(&tree, &pa).as_deref(), Some("first"));
    assert_eq!(leaf_text(&tree, &pb).as_deref(), Some("second"));
}

#[test]
fn remerge_overwrites_only_target_payload() {
    // Scenario: two sequential fetches of the same path with different
    // payloads leave the second payload at the node, prior unrelated
    // siblings intact.
    let mut tree = AssetTree::new();
    let pa = path(&["X.nx", "A", "a.img"]);
    let pb = path(&["X.nx", "A", "b.img"]);
    tree.merge(&pa, text_node("payload-one"));
    tree.merge(&pb, text_node("sibling"));
    tree.merge(&pa, text_node("payload-two"));
    assert_eq!(leaf_text(&tree, &pa).as_deref(), Some("payload-two"));
    assert_eq!(leaf_text(&tree, &pb).as_deref(), Some("sibling"));
}

#[test]
fn remerge_keeps_children_the_new_node_does_not_supply() {
    // The overwrite at the target is shallow: children of the old node
    // that the new node does not supply survive; supplied ones win.
    let mut tree = AssetTree::new();
    let p = path(&["X.nx", "A", "a.img"]);
    let mut first = AssetNode::new(AssetData::Text("one".to_string()));
    first.set_child("keep", text_node("kept"));
    first.set_child("replace", text_node("old"));
    tree.merge(&p, first);
    let mut second = AssetNode::new(AssetData::Text("two".to_string()));
    second.set_child("replace", text_node("new"));
    tree.merge(&p, second);
    assert_eq!(leaf_text(&tree, &p).as_deref(), Some("two"));
    let keep = path(&["X.nx", "A", "a.img", "keep"]);
    let replace = path(&["X.nx", "A", "a.img", "replace"]);
    assert_eq!(leaf_text(&tree, &keep).as_deref(), Some("kept"));
    assert_eq!(leaf_text(&tree, &replace).as_deref(), Some("new"));
}

#[test]
fn contains_prefix_follows_merges() {
    let mut tree = AssetTree::new();
    let p = path(&["X.nx", "A", "a.img"]);
    assert!(!tree.contains_prefix(&p));
    // A deeper path sharing the three-segment prefix marks it present.
    let deep = path(&["X.nx", "A", "a.img", "origin"]);
    tree.merge(&deep, AssetNode::new(AssetData::Vector(3, -4)));
    assert!(tree.contains_prefix(&p));
    assert!(tree.contains_prefix(&deep));
    let other = path(&["X.nx", "A", "b.img"]);
    assert!(!tree.contains_prefix(&other));
}

#[test]
fn from_segments_refuses_bad_paths() {
    assert!(AssetPath::from_segments(Vec::new()).is_none());
    assert!(AssetPath::from_segments(vec!["".to_string()]).is_none());
    assert!(AssetPath::from_segments(vec!["a/b".to_string()]).is_none());
    assert!(AssetPath::from_segments(vec!["a\"b".to_string()]).is_none());
    assert!(AssetPath::from_segments(vec!["ok".to_string(), "also ok".to_string()]).is_some());
}

#[test]
fn path_eq_compares_segments() {
    let a = path(&["X.nx", "A", "a.img"]);
    let b = path(&["X.nx", "A", "a.img"]);
    let c = path(&["X.nx", "A", "b.img"]);
    assert!(a.path_eq(&b));
    assert!(!a.path_eq(&c));
    assert_eq!(a.len(), 3);
    assert_eq!(a.segment(2).as_str(), "a.img");
}

#[test]
fn named_constructors_build_the_documented_paths() {
    assert_eq!(back_path("town1").segments().join("/"), "Map.nx/Back/town1.img");
    assert_eq!(obj_path("house").segments().join("/"), "Map.nx/Obj/house.img");
    assert_eq!(tile_path("grass").segments().join("/"), "Map.nx/Tile/grass.img");
    assert_eq!(
        bgm_path("Bgm00", "GoPicnic").segments().join("/"),
        "Sound.nx/Bgm00.img/GoPicnic"
    );
    assert_eq!(map_path("000010000").segments().join("/"), "Map.nx/Map/Map0/000010000.img");
}

#[test]
fn bitmap_payload_round_trip() {
    let mut tree = AssetTree::new();
    let p = path(&["X.nx", "A", "a.img"]);
    let bitmap = AssetData::Bitmap { compressed: vec![1, 2, 3], width: 16, height: 9 };
    tree.merge(&p, AssetNode::new(bitmap));
    match tree.lookup(&p).expect("present").data() {
        AssetData::Bitmap { compressed, width, height } => {
            assert_eq!(compressed, &vec![1u8, 2, 3]);
            assert_eq!(*width, 16);
            assert_eq!(*height, 9);
        },
        _ => panic!("expected a bitmap payload"),
    }
}
