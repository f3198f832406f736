use asset_client::errors::FetchError;
use asset_client::node::{AssetData, AssetNode};
use asset_client::path::AssetPath;
use asset_client::scan::scan_dependencies;

fn text_node(s: &str) -> AssetNode {
    AssetNode::new(AssetData::Text(s.to_string()))
}

fn blank() -> AssetNode {
    AssetNode::new(AssetData::Unresolved)
}

fn joined(p: &AssetPath) -> String {
    p.segments().join("/")
}

fn sorted_paths(v: &[AssetPath]) -> Vec<String> {
    let mut out: Vec<String> = v.iter().map(joined).collect();
    out.sort();
    out
}

/// A layer holding `bS` = `name`.
fn back_layer(name: &str) -> AssetNode {
    let mut layer = blank();
    layer.set_child("bS", text_node(name));
    layer
}

#[test]
fn fixed_node_yields_exact_dependency_set() {
    // A synthetic node with known back, obj, info.tS and info.bgm
    // children yields exactly the rule-derived set, without duplicates.
    let mut node = blank();

    let mut back = blank();
    back.set_child("0", back_layer("town1"));
    back.set_child("1", back_layer(""));
    back.set_child("legend", back_layer("ignored"));
    node.set_child("back", back);

    let mut obj = blank();
    let mut entry0 = blank();
    entry0.set_child("oS", text_node("house"));
    obj.set_child("0", entry0);
    let mut entry1 = blank();
    entry1.set_child("oS", text_node("tree"));
    obj.set_child("1", entry1);
    let mut layer0 = blank();
    layer0.set_child("obj", obj);
    let mut layer_info = blank();
    layer_info.set_child("tS", text_node("grass"));
    layer0.set_child("info", layer_info);
    node.set_child("0", layer0);

    let mut info = blank();
    info.set_child("bgm", text_node("Bgm00/GoPicnic"));
    node.set_child("info", info);

    let deps = scan_dependencies(&node).expect("clean shape");
    assert_eq!(
        sorted_paths(&deps),
        vec![
            "Map.nx/Back/town1.img".to_string(),
            "Map.nx/Obj/house.img".to_string(),
            "Map.nx/Obj/tree.img".to_string(),
            "Map.nx/Tile/grass.img".to_string(),
            "Sound.nx/Bgm00.img/GoPicnic".to_string(),
        ]
    );
}

#[test]
fn scan_of_plain_node_finds_nothing() {
    let node = text_node("just text");
    let deps = scan_dependencies(&node).expect("clean shape");
    assert!(deps.is_empty());
}

#[test]
fn empty_back_name_is_skipped() {
    let mut node = blank();
    let mut back = blank();
    back.set_child("7", back_layer(""));
    node.set_child("back", back);
    let deps = scan_dependencies(&node).expect("clean shape");
    assert!(deps.is_empty());
}

#[test]
fn duplicate_names_are_reported_once() {
    let mut node = blank();
    let mut back = blank();
    back.set_child("0", back_layer("town1"));
    back.set_child("1", back_layer("town1"));
    node.set_child("back", back);
    let deps = scan_dependencies(&node).expect("clean shape");
    assert_eq!(sorted_paths(&deps), vec!["Map.nx/Back/town1.img".to_string()]);
}

#[test]
fn non_numeric_layers_are_ignored() {
    let mut node = blank();
    let mut back = blank();
    back.set_child("credits", back_layer("nope"));
    node.set_child("back", back);
    // A non-numeric key under the node itself is no layer either.
    let mut obj = blank();
    let mut entry = blank();
    entry.set_child("oS", text_node("thing"));
    obj.set_child("0", entry);
    let mut pseudo_layer = blank();
    pseudo_layer.set_child("obj", obj);
    node.set_child("title", pseudo_layer);
    let deps = scan_dependencies(&node).expect("clean shape");
    assert!(deps.is_empty());
}

#[test]
fn plus_prefixed_layer_index_counts() {
    let mut node = blank();
    let mut back = blank();
    back.set_child("+3", back_layer("sky"));
    node.set_child("back", back);
    let deps = scan_dependencies(&node).expect("clean shape");
    assert_eq!(sorted_paths(&deps), vec!["Map.nx/Back/sky.img".to_string()]);
}

#[test]
fn oversized_layer_index_is_ignored() {
    let mut node = blank();
    let mut back = blank();
    back.set_child("65536", back_layer("beyond"));
    back.set_child("65535", back_layer("edge"));
    node.set_child("back", back);
    let deps = scan_dependencies(&node).expect("clean shape");
    assert_eq!(sorted_paths(&deps), vec!["Map.nx/Back/edge.img".to_string()]);
}

#[test]
fn non_text_back_name_is_a_shape_violation() {
    let mut node = blank();
    let mut back = blank();
    let mut layer = blank();
    layer.set_child("bS", AssetNode::new(AssetData::Vector(1, 2)));
    back.set_child("0", layer);
    node.set_child("back", back);
    assert_eq!(scan_dependencies(&node), Err(FetchError::DataShape));
}

#[test]
fn missing_object_name_is_a_shape_violation() {
    let mut node = blank();
    let mut obj = blank();
    obj.set_child("0", blank());
    let mut layer = blank();
    layer.set_child("obj", obj);
    node.set_child("4", layer);
    assert_eq!(scan_dependencies(&node), Err(FetchError::DataShape));
}

#[test]
fn non_text_tile_name_is_a_shape_violation() {
    let mut node = blank();
    let mut layer_info = blank();
    layer_info.set_child("tS", AssetNode::new(AssetData::Bitmap {
        compressed: Vec::new(),
        width: 0,
        height: 0,
    }));
    let mut layer = blank();
    layer.set_child("info", layer_info);
    node.set_child("0", layer);
    assert_eq!(scan_dependencies(&node), Err(FetchError::DataShape));
}

#[test]
fn bgm_without_slash_is_a_shape_violation() {
    let mut node = blank();
    let mut info = blank();
    info.set_child("bgm", text_node("NoSlashHere"));
    node.set_child("info", info);
    assert_eq!(scan_dependencies(&node), Err(FetchError::DataShape));
}

#[test]
fn bgm_file_keeps_only_its_own_segment() {
    let mut node = blank();
    let mut info = blank();
    info.set_child("bgm", text_node("Bgm00/GoPicnic/extra"));
    node.set_child("info", info);
    let deps = scan_dependencies(&node).expect("clean shape");
    assert_eq!(sorted_paths(&deps), vec!["Sound.nx/Bgm00.img/GoPicnic".to_string()]);
}

#[test]
fn tile_name_may_be_empty() {
    let mut node = blank();
    let mut layer_info = blank();
    layer_info.set_child("tS", text_node(""));
    let mut layer = blank();
    layer.set_child("info", layer_info);
    node.set_child("0", layer);
    let deps = scan_dependencies(&node).expect("clean shape");
    assert_eq!(sorted_paths(&deps), vec!["Map.nx/Tile/.img".to_string()]);
}
