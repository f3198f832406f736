//! Dependency discovery: scanning a merged node for references to
//! further assets that must be fetched in turn.
//!
//! The rules are content-specific but load-bearing. For a fetched map
//! node they read, where present:
//!
//! * under the `back` child, every layer (numerically named child) may
//!   name a background image in a non-empty `bS` text entry;
//! * every layer of the node itself may hold an `obj` child whose
//!   numerically named entries each name an object image in an `oS`
//!   text entry;
//! * every layer may hold an `info` child whose `tS` text entry names a
//!   tile-set image;
//! * the node's own `info` child may hold a `bgm` text entry of the
//!   shape `<folder>/<file>` naming a sound asset.
//!
//! A payload that a rule reaches but cannot read — a non-text entry, a
//! missing `oS`, a `bgm` without `/`, or a name that cannot stand in a
//! path — is a data-shape violation and fails the scan.

use vstd::prelude::*;
use vstd::string::StrSliceExecFns;

use crate::errors::FetchError;
use crate::model::{DataModel, NodeModel};
use crate::node::{AssetData, AssetNode};
use crate::path::{
    back_path, back_path_spec, bgm_path, bgm_path_spec, name_check, name_ok, obj_path,
    obj_path_spec, seg_check, seg_ok, tile_path, tile_path_spec, AssetPath,
};
use crate::text::{find_slash, first_slash, is_uint_string, parse_uint};

verus! {

/// A name that parses as a 16-bit layer index.
pub open spec fn is_layer_name(s: Seq<char>) -> bool {
    is_uint_string(s, 65535)
}

// ---- the back rule ----

/// What one layer under `back` is allowed to hold at `bS`.
pub open spec fn back_layer_ok(layer: NodeModel) -> bool {
    match layer.child("bS"@) {
        Some(c) => match c.data {
            DataModel::Text(s) => s.len() == 0 || name_ok(s),
            _ => false,
        },
        None => true,
    }
}

/// The background dependency one layer under `back` contributes.
pub open spec fn back_layer_dep(layer: NodeModel) -> Option<Seq<Seq<char>>> {
    match layer.child("bS"@) {
        Some(c) => match c.data {
            DataModel::Text(s) => if s.len() > 0 {
                Some(back_path_spec(s))
            } else {
                None
            },
            _ => None,
        },
        None => None,
    }
}

/// Every layer under the `back` node is readable by the back rule.
pub open spec fn back_shape_ok(back: NodeModel) -> bool {
    forall|k: Seq<char>|
        #[trigger] back.children.dom().contains(k) && is_layer_name(k) ==> back_layer_ok(
            back.children[k],
        )
}

/// All background dependencies contributed under the `back` node.
pub open spec fn back_node_deps(back: NodeModel) -> Set<Seq<Seq<char>>> {
    Set::new(
        |p: Seq<Seq<char>>|
            exists|k: Seq<char>|
                #[trigger] back.children.dom().contains(k) && is_layer_name(k) && back_layer_dep(
                    back.children[k],
                ) == Some(p),
    )
}

/// All background dependencies of the node.
pub open spec fn back_deps(m: NodeModel) -> Set<Seq<Seq<char>>> {
    match m.child("back"@) {
        Some(back) => back_node_deps(back),
        None => Set::empty(),
    }
}

// ---- the obj and tile rules ----

/// An entry under `obj` must name an object image in an `oS` text child.
pub open spec fn obj_entry_ok(entry: NodeModel) -> bool {
    match entry.child("oS"@) {
        Some(c) => match c.data {
            DataModel::Text(s) => name_ok(s),
            _ => false,
        },
        None => false,
    }
}

/// The object image an entry under `obj` names.
pub open spec fn obj_entry_name(entry: NodeModel) -> Seq<char> {
    match entry.child("oS"@) {
        Some(c) => match c.data {
            DataModel::Text(s) => s,
            _ => Seq::empty(),
        },
        None => Seq::empty(),
    }
}

/// Every numerically named entry of an `obj` node is readable.
pub open spec fn obj_node_ok(o: NodeModel) -> bool {
    forall|g: Seq<char>|
        #[trigger] o.children.dom().contains(g) && is_layer_name(g) ==> obj_entry_ok(o.children[g])
}

/// The object dependencies contributed by an `obj` node.
pub open spec fn obj_node_deps(o: NodeModel) -> Set<Seq<Seq<char>>> {
    Set::new(
        |p: Seq<Seq<char>>|
            exists|g: Seq<char>|
                #[trigger] o.children.dom().contains(g) && is_layer_name(g) && obj_entry_ok(
                    o.children[g],
                ) && p == obj_path_spec(obj_entry_name(o.children[g])),
    )
}

/// A layer's `obj` child, if present, is readable.
pub open spec fn layer_obj_ok(layer: NodeModel) -> bool {
    match layer.child("obj"@) {
        Some(o) => obj_node_ok(o),
        None => true,
    }
}

/// The object dependencies one layer contributes.
pub open spec fn layer_obj_deps(layer: NodeModel) -> Set<Seq<Seq<char>>> {
    match layer.child("obj"@) {
        Some(o) => obj_node_deps(o),
        None => Set::empty(),
    }
}

/// A layer's `info/tS` entry, if present, is readable.
pub open spec fn layer_tile_ok(layer: NodeModel) -> bool {
    match layer.child("info"@) {
        Some(info) => match info.child("tS"@) {
            Some(c) => match c.data {
                DataModel::Text(s) => name_ok(s),
                _ => false,
            },
            None => true,
        },
        None => true,
    }
}

/// The tile-set dependency one layer contributes.
pub open spec fn layer_tile_dep(layer: NodeModel) -> Option<Seq<Seq<char>>> {
    match layer.child("info"@) {
        Some(info) => match info.child("tS"@) {
            Some(c) => match c.data {
                DataModel::Text(s) => Some(tile_path_spec(s)),
                _ => None,
            },
            None => None,
        },
        None => None,
    }
}

/// Both per-layer rules can read this layer.
pub open spec fn layer_ok(layer: NodeModel) -> bool {
    layer_obj_ok(layer) && layer_tile_ok(layer)
}

/// Every layer of the node is readable by the per-layer rules.
pub open spec fn layers_ok(m: NodeModel) -> bool {
    forall|k: Seq<char>|
        #[trigger] m.children.dom().contains(k) && is_layer_name(k) ==> layer_ok(m.children[k])
}

/// All object dependencies of the node.
pub open spec fn obj_deps(m: NodeModel) -> Set<Seq<Seq<char>>> {
    Set::new(
        |p: Seq<Seq<char>>|
            exists|k: Seq<char>|
                #[trigger] m.children.dom().contains(k) && is_layer_name(k) && layer_obj_deps(
                    m.children[k],
                ).contains(p),
    )
}

/// All tile-set dependencies of the node.
pub open spec fn tile_deps(m: NodeModel) -> Set<Seq<Seq<char>>> {
    Set::new(
        |p: Seq<Seq<char>>|
            exists|k: Seq<char>|
                #[trigger] m.children.dom().contains(k) && is_layer_name(k) && layer_tile_dep(
                    m.children[k],
                ) == Some(p),
    )
}

// ---- the bgm rule ----

/// The folder part of a `bgm` entry: what stands before the first `/`.
pub open spec fn bgm_folder(s: Seq<char>) -> Seq<char> {
    s.take(first_slash(s))
}

/// The file part of a `bgm` entry: what stands between the first `/`
/// and the next one, or the rest if there is no other.
pub open spec fn bgm_file(s: Seq<char>) -> Seq<char> {
    let r = s.skip(first_slash(s) + 1);
    r.take(first_slash(r))
}

/// A `bgm` entry names a sound asset: it holds a `/`, and both parts
/// can stand in a path.
pub open spec fn bgm_text_ok(s: Seq<char>) -> bool {
    first_slash(s) < s.len() && name_ok(bgm_folder(s)) && seg_ok(bgm_file(s))
}

/// The node's `info/bgm` entry, if present, is readable.
pub open spec fn bgm_ok(m: NodeModel) -> bool {
    match m.child("info"@) {
        Some(info) => match info.child("bgm"@) {
            Some(c) => match c.data {
                DataModel::Text(s) => bgm_text_ok(s),
                _ => false,
            },
            None => true,
        },
        None => true,
    }
}

/// The sound dependency the node's `info/bgm` entry contributes.
pub open spec fn bgm_dep(m: NodeModel) -> Option<Seq<Seq<char>>> {
    match m.child("info"@) {
        Some(info) => match info.child("bgm"@) {
            Some(c) => match c.data {
                DataModel::Text(s) => if bgm_text_ok(s) {
                    Some(bgm_path_spec(bgm_folder(s), bgm_file(s)))
                } else {
                    None
                },
                _ => None,
            },
            None => None,
        },
        None => None,
    }
}

// ---- the whole scan ----

/// Every dependency rule can read the node.
pub open spec fn shape_ok(m: NodeModel) -> bool {
    &&& match m.child("back"@) {
        Some(b) => back_shape_ok(b),
        None => true,
    }
    &&& layers_ok(m)
    &&& bgm_ok(m)
}

/// An optional dependency as a set.
pub open spec fn opt_dep_set(o: Option<Seq<Seq<char>>>) -> Set<Seq<Seq<char>>> {
    match o {
        Some(p) => Set::empty().insert(p),
        None => Set::empty(),
    }
}

/// Every dependency the rules discover in the node.
pub open spec fn deps_of(m: NodeModel) -> Set<Seq<Seq<char>>> {
    back_deps(m).union(obj_deps(m)).union(tile_deps(m)).union(opt_dep_set(bgm_dep(m)))
}

// ---- collections of paths ----

/// The set of addresses held in a vector of paths.
pub open spec fn path_views(v: Seq<AssetPath>) -> Set<Seq<Seq<char>>> {
    Set::new(|p: Seq<Seq<char>>| exists|i: int| 0 <= i < v.len() && v[i]@ == p)
}

/// No address occurs twice.
pub open spec fn paths_distinct(v: Seq<AssetPath>) -> bool {
    forall|i: int, j: int| 0 <= i < j < v.len() ==> v[i]@ != v[j]@
}

/// Every path is well-formed.
pub open spec fn paths_wf(v: Seq<AssetPath>) -> bool {
    forall|i: int| 0 <= i < v.len() ==> (#[trigger] v[i]).wf()
}

/// Appends `p` unless an equal path is already present.
fn push_unique(out: &mut Vec<AssetPath>, p: AssetPath)
    requires
        paths_distinct(old(out)@),
        paths_wf(old(out)@),
        p.wf(),
    ensures
        paths_distinct(final(out)@),
        paths_wf(final(out)@),
        path_views(final(out)@) == path_views(old(out)@).insert(p@),
{
    let n: usize = out.len();
    let mut i: usize = 0;
    while i < n
        invariant
            i <= n,
            n == out@.len(),
            out@ == old(out)@,
            p.wf(),
            paths_distinct(out@),
            paths_wf(out@),
            forall|j: int| 0 <= j < i ==> out@[j]@ != p@,
        decreases n - i,
    {
        if out[i].path_eq(&p) {
            proof {
                assert(path_views(out@).contains(p@));
                assert(path_views(out@) =~= path_views(out@).insert(p@));
            }
            return ;
        }
        i += 1;
    }
    let ghost s = out@;
    out.push(p);
    proof {
        assert forall|q: Seq<Seq<char>>| path_views(out@).contains(q) implies path_views(
            s,
        ).insert(p@).contains(q) by {
            let t = choose|t: int| 0 <= t < out@.len() && out@[t]@ == q;
            if t < s.len() {
                assert(s[t]@ == q);
            }
        }
        assert forall|q: Seq<Seq<char>>|
            path_views(s).insert(p@).contains(q) implies path_views(out@).contains(q) by {
            if q == p@ {
                assert(out@[s.len() as int]@ == q);
            } else {
                let t = choose|t: int| 0 <= t < s.len() && s[t]@ == q;
                assert(out@[t]@ == q);
            }
        }
        assert(path_views(out@) =~= path_views(s).insert(p@));
        assert forall|a: int, b: int| 0 <= a < b < out@.len() implies out@[a]@ != out@[b]@ by {
            if b < s.len() {
                assert(out@[a]@ == s[a]@ && out@[b]@ == s[b]@);
            } else {
                assert(out@[b]@ == p@ && out@[a]@ == s[a]@);
            }
        }
    }
}

/// The back-rule dependencies contributed by the first `i` layers of
/// the `back` node, in child order.
spec fn back_deps_upto(back: AssetNode, i: int) -> Set<Seq<Seq<char>>> {
    Set::new(
        |p: Seq<Seq<char>>|
            exists|t: int|
                0 <= t < i && is_layer_name(#[trigger] back.keys()[t]) && back_layer_dep(
                    back@.children[back.keys()[t]],
                ) == Some(p),
    )
}

/// Scans the `back` node's layers; pushes every background dependency
/// onto `out`. Returns false on a data-shape violation.
fn scan_back(back: &AssetNode, out: &mut Vec<AssetPath>) -> (r: bool)
    requires
        back.wf(),
        paths_distinct(old(out)@),
        paths_wf(old(out)@),
    ensures
        paths_distinct(final(out)@),
        paths_wf(final(out)@),
        r ==> back_shape_ok(back@) && path_views(final(out)@) == path_views(old(out)@).union(
            back_node_deps(back@),
        ),
        !r ==> !back_shape_ok(back@),
{
    let ghost base = path_views(out@);
    let n: usize = back.child_count();
    let mut i: usize = 0;
    proof {
        assert(base.union(back_deps_upto(*back, 0)) =~= base);
    }
    while i < n
        invariant
            i <= n,
            n == back.keys().len(),
            back.wf(),
            paths_distinct(out@),
            paths_wf(out@),
            path_views(out@) == base.union(back_deps_upto(*back, i as int)),
            forall|t: int|
                0 <= t < i && is_layer_name(#[trigger] back.keys()[t]) ==> back_layer_ok(
                    back@.children[back.keys()[t]],
                ),
        decreases n - i,
    {
        let (k, layer) = back.child_at(i);
        let ghost before = path_views(out@);
        let ghost kv = back.keys()[i as int];
        if parse_uint(k.as_str(), 65535).is_some() {
            match layer.child("bS") {
                Some(bs) => {
                    match bs.data() {
                        AssetData::Text(s) => {
                            if s.unicode_len() > 0 {
                                if !name_check(s.as_str()) {
                                    proof {
                                        assert(!back_layer_ok(back@.children[kv]));
                                        back.lemma_keys_dom();
                                        assert(!back_shape_ok(back@));
                                    }
                                    return false;
                                }
                                let p = back_path(s.as_str());
                                proof {
                                    assert(back_layer_dep(back@.children[kv]) == Some(p@));
                                }
                                push_unique(out, p);
                            }
                        },
                        _ => {
                            proof {
                                assert(!back_layer_ok(back@.children[kv]));
                                back.lemma_keys_dom();
                                assert(!back_shape_ok(back@));
                            }
                            return false;
                        },
                    }
                },
                None => {},
            }
        }
        proof {
            assert(path_views(out@) =~= base.union(back_deps_upto(*back, i + 1))) by {
                assert forall|p: Seq<Seq<char>>|
                    back_deps_upto(*back, i + 1).contains(p) implies path_views(out@).contains(
                    p,
                ) by {
                    let t = choose|t: int|
                        0 <= t < i + 1 && is_layer_name(#[trigger] back.keys()[t])
                            && back_layer_dep(back@.children[back.keys()[t]]) == Some(p);
                    if t < i {
                        assert(back_deps_upto(*back, i as int).contains(p));
                        assert(before.contains(p));
                    }
                }
                assert forall|p: Seq<Seq<char>>|
                    path_views(out@).contains(p) && !before.contains(p) implies back_deps_upto(
                    *back,
                    i + 1,
                ).contains(p) by {
                    assert(is_layer_name(kv) && back_layer_dep(back@.children[kv]) == Some(p));
                }
                assert forall|p: Seq<Seq<char>>|
                    before.contains(p) implies base.contains(p) || back_deps_upto(
                    *back,
                    i + 1,
                ).contains(p) by {
                    if back_deps_upto(*back, i as int).contains(p) {
                        let t = choose|t: int|
                            0 <= t < i && is_layer_name(#[trigger] back.keys()[t])
                                && back_layer_dep(back@.children[back.keys()[t]]) == Some(p);
                        assert(back_deps_upto(*back, i + 1).contains(p));
                    }
                }
            }
        }
        i += 1;
    }
    proof {
        back.lemma_keys_dom();
        assert(back_shape_ok(back@)) by {
            assert forall|k: Seq<char>|
                #[trigger] back@.children.dom().contains(k) && is_layer_name(k) implies
                back_layer_ok(back@.children[k]) by {
                let t = choose|t: int| 0 <= t < back.keys().len() && back.keys()[t] == k;
                assert(is_layer_name(back.keys()[t]));
            }
        }
        assert(back_deps_upto(*back, n as int) =~= back_node_deps(back@)) by {
            assert forall|p: Seq<Seq<char>>|
                back_deps_upto(*back, n as int).contains(p) implies back_node_deps(
                back@,
            ).contains(p) by {
                let t = choose|t: int|
                    0 <= t < n && is_layer_name(#[trigger] back.keys()[t]) && back_layer_dep(
                        back@.children[back.keys()[t]],
                    ) == Some(p);
                assert(back@.children.dom().contains(back.keys()[t]));
            }
            assert forall|p: Seq<Seq<char>>|
                back_node_deps(back@).contains(p) implies back_deps_upto(
                *back,
                n as int,
            ).contains(p) by {
                let k = choose|k: Seq<char>|
                    #[trigger] back@.children.dom().contains(k) && is_layer_name(k)
                        && back_layer_dep(back@.children[k]) == Some(p);
                let t = choose|t: int| 0 <= t < back.keys().len() && back.keys()[t] == k;
                assert(is_layer_name(back.keys()[t]) && back_layer_dep(
                    back@.children[back.keys()[t]],
                ) == Some(p));
            }
        }
    }
    true
}

/// The object dependencies contributed by the first `i` entries of an
/// `obj` node, in child order.
spec fn obj_deps_upto(o: AssetNode, i: int) -> Set<Seq<Seq<char>>> {
    Set::new(
        |p: Seq<Seq<char>>|
            exists|t: int|
                0 <= t < i && is_layer_name(#[trigger] o.keys()[t]) && obj_entry_ok(
                    o@.children[o.keys()[t]],
                ) && p == obj_path_spec(obj_entry_name(o@.children[o.keys()[t]])),
    )
}

/// Scans an `obj` node's entries; pushes every object dependency onto
/// `out`. Returns false on a data-shape violation.
fn scan_obj(o: &AssetNode, out: &mut Vec<AssetPath>) -> (r: bool)
    requires
        o.wf(),
        paths_distinct(old(out)@),
        paths_wf(old(out)@),
    ensures
        paths_distinct(final(out)@),
        paths_wf(final(out)@),
        r ==> obj_node_ok(o@) && path_views(final(out)@) == path_views(old(out)@).union(
            obj_node_deps(o@),
        ),
        !r ==> !obj_node_ok(o@),
{
    let ghost base = path_views(out@);
    let n: usize = o.child_count();
    let mut i: usize = 0;
    proof {
        assert(base.union(obj_deps_upto(*o, 0)) =~= base);
    }
    while i < n
        invariant
            i <= n,
            n == o.keys().len(),
            o.wf(),
            paths_distinct(out@),
            paths_wf(out@),
            path_views(out@) == base.union(obj_deps_upto(*o, i as int)),
            forall|t: int|
                0 <= t < i && is_layer_name(#[trigger] o.keys()[t]) ==> obj_entry_ok(
                    o@.children[o.keys()[t]],
                ),
        decreases n - i,
    {
        let (g, entry) = o.child_at(i);
        let ghost before = path_views(out@);
        let ghost gv = o.keys()[i as int];
        if parse_uint(g.as_str(), 65535).is_some() {
            match entry.child("oS") {
                Some(osn) => {
                    match osn.data() {
                        AssetData::Text(s) => {
                            if !name_check(s.as_str()) {
                                proof {
                                    assert(!obj_entry_ok(o@.children[gv]));
                                    o.lemma_keys_dom();
                                    assert(!obj_node_ok(o@));
                                }
                                return false;
                            }
                            let p = obj_path(s.as_str());
                            proof {
                                assert(obj_entry_ok(o@.children[gv]));
                                assert(p@ == obj_path_spec(obj_entry_name(o@.children[gv])));
                            }
                            push_unique(out, p);
                        },
                        _ => {
                            proof {
                                assert(!obj_entry_ok(o@.children[gv]));
                                o.lemma_keys_dom();
                                assert(!obj_node_ok(o@));
                            }
                            return false;
                        },
                    }
                },
                None => {
                    proof {
                        assert(!obj_entry_ok(o@.children[gv]));
                        o.lemma_keys_dom();
                        assert(!obj_node_ok(o@));
                    }
                    return false;
                },
            }
        }
        proof {
            assert(path_views(out@) =~= base.union(obj_deps_upto(*o, i + 1))) by {
                assert forall|p: Seq<Seq<char>>|
                    obj_deps_upto(*o, i + 1).contains(p) implies path_views(out@).contains(p) by {
                    let t = choose|t: int|
                        0 <= t < i + 1 && is_layer_name(#[trigger] o.keys()[t]) && obj_entry_ok(
                            o@.children[o.keys()[t]],
                        ) && p == obj_path_spec(obj_entry_name(o@.children[o.keys()[t]]));
                    if t < i {
                        assert(obj_deps_upto(*o, i as int).contains(p));
                        assert(before.contains(p));
                    }
                }
                assert forall|p: Seq<Seq<char>>|
                    path_views(out@).contains(p) && !before.contains(p) implies obj_deps_upto(
                    *o,
                    i + 1,
                ).contains(p) by {
                    assert(is_layer_name(gv) && obj_entry_ok(o@.children[gv]) && p == obj_path_spec(
                        obj_entry_name(o@.children[gv]),
                    ));
                }
                assert forall|p: Seq<Seq<char>>|
                    before.contains(p) implies base.contains(p) || obj_deps_upto(
                    *o,
                    i + 1,
                ).contains(p) by {
                    if obj_deps_upto(*o, i as int).contains(p) {
                        let t = choose|t: int|
                            0 <= t < i && is_layer_name(#[trigger] o.keys()[t]) && obj_entry_ok(
                                o@.children[o.keys()[t]],
                            ) && p == obj_path_spec(obj_entry_name(o@.children[o.keys()[t]]));
                        assert(obj_deps_upto(*o, i + 1).contains(p));
                    }
                }
            }
        }
        i += 1;
    }
    proof {
        o.lemma_keys_dom();
        assert(obj_node_ok(o@)) by {
            assert forall|g: Seq<char>|
                #[trigger] o@.children.dom().contains(g) && is_layer_name(g) implies obj_entry_ok(
                o@.children[g],
            ) by {
                let t = choose|t: int| 0 <= t < o.keys().len() && o.keys()[t] == g;
                assert(is_layer_name(o.keys()[t]));
            }
        }
        assert(obj_deps_upto(*o, n as int) =~= obj_node_deps(o@)) by {
            assert forall|p: Seq<Seq<char>>|
                obj_deps_upto(*o, n as int).contains(p) implies obj_node_deps(o@).contains(p) by {
                let t = choose|t: int|
                    0 <= t < n && is_layer_name(#[trigger] o.keys()[t]) && obj_entry_ok(
                        o@.children[o.keys()[t]],
                    ) && p == obj_path_spec(obj_entry_name(o@.children[o.keys()[t]]));
                assert(o@.children.dom().contains(o.keys()[t]));
            }
            assert forall|p: Seq<Seq<char>>|
                obj_node_deps(o@).contains(p) implies obj_deps_upto(*o, n as int).contains(p) by {
                let g = choose|g: Seq<char>|
                    #[trigger] o@.children.dom().contains(g) && is_layer_name(g) && obj_entry_ok(
                        o@.children[g],
                    ) && p == obj_path_spec(obj_entry_name(o@.children[g]));
                let t = choose|t: int| 0 <= t < o.keys().len() && o.keys()[t] == g;
                assert(is_layer_name(o.keys()[t]) && obj_entry_ok(o@.children[o.keys()[t]]) && p
                    == obj_path_spec(obj_entry_name(o@.children[o.keys()[t]])));
            }
        }
    }
    true
}

/// Scans one layer for its `obj` and `info/tS` dependencies. Returns
/// false on a data-shape violation.
fn scan_layer(layer: &AssetNode, out: &mut Vec<AssetPath>) -> (r: bool)
    requires
        layer.wf(),
        paths_distinct(old(out)@),
        paths_wf(old(out)@),
    ensures
        paths_distinct(final(out)@),
        paths_wf(final(out)@),
        r ==> layer_ok(layer@) && path_views(final(out)@) == path_views(old(out)@).union(
            layer_obj_deps(layer@),
        ).union(opt_dep_set(layer_tile_dep(layer@))),
        !r ==> !layer_ok(layer@),
{
    let ghost base = path_views(out@);
    match layer.child("obj") {
        Some(o) => {
            if !scan_obj(o, out) {
                return false;
            }
        },
        None => {
            proof {
                assert(base.union(layer_obj_deps(layer@)) =~= base);
            }
        },
    }
    let ghost after_obj = path_views(out@);
    proof {
        assert(after_obj == base.union(layer_obj_deps(layer@)));
    }
    match layer.child("info") {
        Some(info) => {
            match info.child("tS") {
                Some(ts) => {
                    match ts.data() {
                        AssetData::Text(s) => {
                            if !name_check(s.as_str()) {
                                return false;
                            }
                            let p = tile_path(s.as_str());
                            push_unique(out, p);
                            proof {
                                assert(path_views(out@) =~= after_obj.union(
                                    opt_dep_set(layer_tile_dep(layer@)),
                                ));
                            }
                        },
                        _ => {
                            return false;
                        },
                    }
                },
                None => {
                    proof {
                        assert(path_views(out@) =~= after_obj.union(
                            opt_dep_set(layer_tile_dep(layer@)),
                        ));
                    }
                },
            }
        },
        None => {
            proof {
                assert(path_views(out@) =~= after_obj.union(opt_dep_set(layer_tile_dep(layer@))));
            }
        },
    }
    true
}

/// The per-layer dependencies contributed by the first `i` children of
/// the node, in child order.
spec fn layer_deps_upto(node: AssetNode, i: int) -> Set<Seq<Seq<char>>> {
    Set::new(
        |p: Seq<Seq<char>>|
            exists|t: int|
                0 <= t < i && is_layer_name(#[trigger] node.keys()[t]) && (layer_obj_deps(
                    node@.children[node.keys()[t]],
                ).contains(p) || layer_tile_dep(node@.children[node.keys()[t]]) == Some(p)),
    )
}

/// Scans a fetched (and merged) node for the assets it references.
/// On success the returned paths are exactly the discovered dependency
/// set, without duplicates, each path well-formed. The scan fails with
/// [`FetchError::DataShape`], and only then, when a rule reaches a
/// payload it cannot read.
pub fn scan_dependencies(node: &AssetNode) -> (r: Result<Vec<AssetPath>, FetchError>)
    requires
        node.wf(),
    ensures
        match r {
            Ok(v) => shape_ok(node@) && paths_distinct(v@) && paths_wf(v@) && path_views(v@)
                == deps_of(node@),
            Err(e) => !shape_ok(node@) && e == FetchError::DataShape,
        },
{
    let mut out: Vec<AssetPath> = Vec::new();
    proof {
        assert(path_views(out@) =~= Set::<Seq<Seq<char>>>::empty());
    }
    // The back rule.
    match node.child("back") {
        Some(back) => {
            if !scan_back(back, &mut out) {
                return Err(FetchError::DataShape);
            }
            proof {
                assert(path_views(out@) =~= back_deps(node@)) by {
                    assert(Set::<Seq<Seq<char>>>::empty().union(back_node_deps(back@))
                        =~= back_node_deps(back@));
                }
            }
        },
        None => {
            proof {
                assert(path_views(out@) =~= back_deps(node@));
            }
        },
    }
    let ghost after_back = path_views(out@);
    // The per-layer rules.
    let n: usize = node.child_count();
    let mut i: usize = 0;
    proof {
        assert(after_back.union(layer_deps_upto(*node, 0)) =~= after_back);
    }
    while i < n
        invariant
            i <= n,
            n == node.keys().len(),
            node.wf(),
            paths_distinct(out@),
            paths_wf(out@),
            after_back == back_deps(node@),
            path_views(out@) == after_back.union(layer_deps_upto(*node, i as int)),
            forall|t: int|
                0 <= t < i && is_layer_name(#[trigger] node.keys()[t]) ==> layer_ok(
                    node@.children[node.keys()[t]],
                ),
        decreases n - i,
    {
        let (k, layer) = node.child_at(i);
        let ghost before = path_views(out@);
        let ghost kv = node.keys()[i as int];
        if parse_uint(k.as_str(), 65535).is_some() {
            if !scan_layer(layer, &mut out) {
                proof {
                    node.lemma_keys_dom();
                    assert(!layers_ok(node@));
                }
                return Err(FetchError::DataShape);
            }
        }
        proof {
            assert(path_views(out@) =~= after_back.union(layer_deps_upto(*node, i + 1))) by {
                assert forall|p: Seq<Seq<char>>|
                    layer_deps_upto(*node, i + 1).contains(p) implies path_views(out@).contains(
                    p,
                ) by {
                    let t = choose|t: int|
                        0 <= t < i + 1 && is_layer_name(#[trigger] node.keys()[t]) && (
                        layer_obj_deps(node@.children[node.keys()[t]]).contains(p)
                            || layer_tile_dep(node@.children[node.keys()[t]]) == Some(p));
                    if t < i {
                        assert(layer_deps_upto(*node, i as int).contains(p));
                        assert(before.contains(p));
                    } else {
                        assert(is_layer_name(kv));
                    }
                }
                assert forall|p: Seq<Seq<char>>|
                    path_views(out@).contains(p) && !before.contains(p) implies layer_deps_upto(
                    *node,
                    i + 1,
                ).contains(p) by {
                    assert(is_layer_name(kv) && (layer_obj_deps(node@.children[kv]).contains(p)
                        || layer_tile_dep(node@.children[kv]) == Some(p)));
                }
                assert forall|p: Seq<Seq<char>>|
                    before.contains(p) implies after_back.contains(p) || layer_deps_upto(
                    *node,
                    i + 1,
                ).contains(p) by {
                    if layer_deps_upto(*node, i as int).contains(p) {
                        let t = choose|t: int|
                            0 <= t < i && is_layer_name(#[trigger] node.keys()[t]) && (
                            layer_obj_deps(node@.children[node.keys()[t]]).contains(p)
                                || layer_tile_dep(node@.children[node.keys()[t]]) == Some(p));
                        assert(layer_deps_upto(*node, i + 1).contains(p));
                    }
                }
            }
        }
        i += 1;
    }
    proof {
        node.lemma_keys_dom();
        assert(layers_ok(node@)) by {
            assert forall|k: Seq<char>|
                #[trigger] node@.children.dom().contains(k) && is_layer_name(k) implies layer_ok(
                node@.children[k],
            ) by {
                let t = choose|t: int| 0 <= t < node.keys().len() && node.keys()[t] == k;
                assert(is_layer_name(node.keys()[t]));
            }
        }
        assert(layer_deps_upto(*node, n as int) =~= obj_deps(node@).union(tile_deps(node@))) by {
            assert forall|p: Seq<Seq<char>>|
                layer_deps_upto(*node, n as int).contains(p) implies obj_deps(node@).union(
                tile_deps(node@),
            ).contains(p) by {
                let t = choose|t: int|
                    0 <= t < n && is_layer_name(#[trigger] node.keys()[t]) && (layer_obj_deps(
                        node@.children[node.keys()[t]],
                    ).contains(p) || layer_tile_dep(node@.children[node.keys()[t]]) == Some(p));
                assert(node@.children.dom().contains(node.keys()[t]));
            }
            assert forall|p: Seq<Seq<char>>|
                obj_deps(node@).union(tile_deps(node@)).contains(p) implies layer_deps_upto(
                *node,
                n as int,
            ).contains(p) by {
                if obj_deps(node@).contains(p) {
                    let k = choose|k: Seq<char>|
                        #[trigger] node@.children.dom().contains(k) && is_layer_name(k)
                            && layer_obj_deps(node@.children[k]).contains(p);
                    let t = choose|t: int| 0 <= t < node.keys().len() && node.keys()[t] == k;
                    assert(is_layer_name(node.keys()[t]) && layer_obj_deps(
                        node@.children[node.keys()[t]],
                    ).contains(p));
                } else {
                    let k = choose|k: Seq<char>|
                        #[trigger] node@.children.dom().contains(k) && is_layer_name(k)
                            && layer_tile_dep(node@.children[k]) == Some(p);
                    let t = choose|t: int| 0 <= t < node.keys().len() && node.keys()[t] == k;
                    assert(is_layer_name(node.keys()[t]) && layer_tile_dep(
                        node@.children[node.keys()[t]],
                    ) == Some(p));
                }
            }
        }
    }
    let ghost after_layers = path_views(out@);
    // The bgm rule.
    match node.child("info") {
        Some(info) => {
            match info.child("bgm") {
                Some(b) => {
                    match b.data() {
                        AssetData::Text(s) => {
                            let cut = find_slash(s.as_str());
                            proof {
                                crate::text::lemma_first_slash(s@);
                            }
                            if cut == s.unicode_len() {
                                return Err(FetchError::DataShape);
                            }
                            let folder = s.as_str().substring_char(0, cut);
                            let rest = s.as_str().substring_char(cut + 1, s.unicode_len());
                            let cut2 = find_slash(rest);
                            proof {
                                crate::text::lemma_first_slash(rest@);
                            }
                            let file = rest.substring_char(0, cut2);
                            proof {
                                assert(folder@ == bgm_folder(s@));
                                assert(rest@ == s@.skip(first_slash(s@) + 1));
                                assert(file@ == bgm_file(s@));
                            }
                            if !name_check(folder) || !seg_check(file) {
                                return Err(FetchError::DataShape);
                            }
                            let p = bgm_path(folder, file);
                            push_unique(&mut out, p);
                            proof {
                                assert(path_views(out@) =~= after_layers.union(
                                    opt_dep_set(bgm_dep(node@)),
                                ));
                            }
                        },
                        _ => {
                            return Err(FetchError::DataShape);
                        },
                    }
                },
                None => {
                    proof {
                        assert(path_views(out@) =~= after_layers.union(
                            opt_dep_set(bgm_dep(node@)),
                        ));
                    }
                },
            }
        },
        None => {
            proof {
                assert(path_views(out@) =~= after_layers.union(opt_dep_set(bgm_dep(node@))));
            }
        },
    }
    proof {
        assert(path_views(out@) =~= deps_of(node@));
    }
    Ok(out)
}

} // verus!
