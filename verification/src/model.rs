//! The mathematical model of the cached asset hierarchy.
//!
//! Executable nodes are interpreted as [`NodeModel`] values: a payload
//! plus a map from child name to child model. The merge operation that
//! the cache performs is specified here as [`merged`], and the laws it
//! obeys (idempotence, preservation of disjoint paths) are proved at
//! this level once and for all.

use vstd::prelude::*;

verus! {

/// Mathematical image of a node payload.
#[verifier::ext_equal]
pub ghost enum DataModel {
    /// Structural node with no resolved payload.
    Unresolved,
    /// Compressed raster asset and its pixel dimensions.
    Bitmap { bytes: Seq<u8>, width: u16, height: u16 },
    /// Scalar text payload.
    Text(Seq<char>),
    /// Two-dimensional integer vector payload.
    Vector(i32, i32),
}

/// Mathematical image of one node of the cached hierarchy.
#[verifier::ext_equal]
pub ghost struct NodeModel {
    pub data: DataModel,
    pub children: Map<Seq<char>, NodeModel>,
}

impl NodeModel {
    /// A childless node with no resolved payload, as created along the
    /// spine of a deep insertion.
    pub open spec fn blank() -> NodeModel {
        NodeModel { data: DataModel::Unresolved, children: Map::empty() }
    }

    /// The child of this node under `name`, if any.
    pub open spec fn child(self, name: Seq<char>) -> Option<NodeModel> {
        if self.children.dom().contains(name) {
            Some(self.children[name])
        } else {
            None
        }
    }
}

/// The child of `m` under `name`, or a blank node if there is none:
/// the starting point for merging below `m`.
pub open spec fn child_or_blank(m: NodeModel, name: Seq<char>) -> NodeModel {
    if m.children.dom().contains(name) {
        m.children[name]
    } else {
        NodeModel::blank()
    }
}

/// The node that stands at `name` under `m` after a fetched node `n`
/// is placed there: `n`'s payload and direct children win, but children
/// of the previous occupant that `n` does not supply survive.
pub open spec fn placed(m: NodeModel, name: Seq<char>, n: NodeModel) -> NodeModel {
    if m.children.dom().contains(name) {
        NodeModel { data: n.data, children: m.children[name].children.union_prefer_right(n.children) }
    } else {
        n
    }
}

/// The tree `m` after the fetched node `n` is merged in at `path`:
/// blank nodes are created along the spine where missing, siblings are
/// untouched, and at the target `n` is placed as [`placed`] describes.
/// Meaningful for `path.len() >= 1`.
pub open spec fn merged(m: NodeModel, path: Seq<Seq<char>>, n: NodeModel) -> NodeModel
    decreases path.len(),
{
    if path.len() <= 1 {
        NodeModel { data: m.data, children: m.children.insert(path[0], placed(m, path[0], n)) }
    } else {
        NodeModel {
            data: m.data,
            children: m.children.insert(
                path[0],
                merged(child_or_blank(m, path[0]), path.drop_first(), n),
            ),
        }
    }
}

/// The node reached from `m` by following `path`, if every step exists.
pub open spec fn sub_node(m: NodeModel, path: Seq<Seq<char>>) -> Option<NodeModel>
    decreases path.len(),
{
    if path.len() == 0 {
        Some(m)
    } else if m.children.dom().contains(path[0]) {
        sub_node(m.children[path[0]], path.drop_first())
    } else {
        None
    }
}

/// `p` addresses `q` itself or a node on the way down to `q`.
pub open spec fn is_path_prefix(p: Seq<Seq<char>>, q: Seq<Seq<char>>) -> bool {
    p.len() <= q.len() && p == q.take(p.len() as int)
}

/// A prefix agrees with the longer path element by element.
pub proof fn lemma_prefix_index(p: Seq<Seq<char>>, q: Seq<Seq<char>>)
    requires
        is_path_prefix(p, q),
    ensures
        forall|i: int| 0 <= i < p.len() ==> p[i] == q[i],
{
    assert forall|i: int| 0 <= i < p.len() implies p[i] == q[i] by {
        assert(p[i] == q.take(p.len() as int)[i]);
    }
}

/// A path whose head and tail agree with a prefix of another path is a
/// prefix of that path.
proof fn lemma_tail_prefix(p: Seq<Seq<char>>, q: Seq<Seq<char>>)
    requires
        1 <= p.len() <= q.len(),
        p[0] == q[0],
        is_path_prefix(p.drop_first(), q.drop_first()),
    ensures
        is_path_prefix(p, q),
{
    let pt = p.drop_first();
    let qt = q.drop_first();
    lemma_prefix_index(pt, qt);
    assert forall|i: int| 0 <= i < p.len() implies p[i] == q.take(p.len() as int)[i] by {
        if i >= 1 {
            assert(p[i] == pt[i - 1]);
            assert(qt[i - 1] == q[i]);
        }
        assert(q.take(p.len() as int)[i] == q[i]);
    }
    assert(p =~= q.take(p.len() as int));
}

/// Merging the same node at the same path twice leaves the same tree
/// as merging it once.
pub proof fn lemma_merge_idempotent(m: NodeModel, path: Seq<Seq<char>>, n: NodeModel)
    requires
        path.len() >= 1,
    ensures
        merged(merged(m, path, n), path, n) == merged(m, path, n),
    decreases path.len(),
{
    let t1 = merged(m, path, n);
    let k = path[0];
    if path.len() <= 1 {
        let c1 = placed(m, k, n);
        let c2 = placed(t1, k, n);
        if m.children.dom().contains(k) {
            assert(c2.children =~= c1.children);
        } else {
            assert(c2.children =~= n.children);
            assert(c2 =~= c1);
        }
        assert(c2 == c1);
        assert(merged(t1, path, n).children =~= t1.children);
        assert(merged(t1, path, n) =~= t1);
    } else {
        lemma_merge_idempotent(child_or_blank(m, k), path.drop_first(), n);
        assert(child_or_blank(t1, k) == merged(child_or_blank(m, k), path.drop_first(), n));
        assert(merged(t1, path, n).children =~= t1.children);
        assert(merged(t1, path, n) =~= t1);
    }
}

/// Merging at `path_b` does not change what is found at a path `path_a`
/// that neither contains nor is contained in `path_b`.
pub proof fn lemma_merge_preserves_disjoint(
    m: NodeModel,
    path_a: Seq<Seq<char>>,
    path_b: Seq<Seq<char>>,
    n: NodeModel,
)
    requires
        path_a.len() >= 1,
        path_b.len() >= 1,
        !is_path_prefix(path_a, path_b),
        !is_path_prefix(path_b, path_a),
    ensures
        sub_node(merged(m, path_b, n), path_a) == sub_node(m, path_a),
    decreases path_b.len(),
{
    let t = merged(m, path_b, n);
    let ka = path_a[0];
    let kb = path_b[0];
    if ka != kb {
        assert(t.children.dom().contains(ka) == m.children.dom().contains(ka));
        if m.children.dom().contains(ka) {
            assert(t.children[ka] == m.children[ka]);
        }
    } else {
        // Neither path is a prefix of the other, so with equal heads
        // both tails are non-empty and again mutually non-prefix.
        let pa = path_a.drop_first();
        let pb = path_b.drop_first();
        assert(path_a.len() >= 2 && path_b.len() >= 2) by {
            if path_a.len() == 1 {
                assert(path_a =~= path_b.take(1int));
            }
            if path_b.len() == 1 {
                assert(path_b =~= path_a.take(1int));
            }
        }
        assert(!is_path_prefix(pa, pb)) by {
            if is_path_prefix(pa, pb) {
                lemma_tail_prefix(path_a, path_b);
            }
        }
        assert(!is_path_prefix(pb, pa)) by {
            if is_path_prefix(pb, pa) {
                lemma_tail_prefix(path_b, path_a);
            }
        }
        lemma_merge_preserves_disjoint(child_or_blank(m, kb), pa, pb, n);
        assert(t.children[ka] == merged(child_or_blank(m, kb), pb, n));
        if m.children.dom().contains(ka) {
            assert(sub_node(t, path_a) == sub_node(m, path_a));
        } else {
            assert(sub_node(child_or_blank(m, kb), pa) is None);
            assert(sub_node(m, path_a) is None);
        }
    }
}

/// Merging at a second path, disjoint from a first, preserves the
/// subtree that merging at the first path inserted.
pub proof fn lemma_merge_non_destructive(
    t: NodeModel,
    path_a: Seq<Seq<char>>,
    n_a: NodeModel,
    path_b: Seq<Seq<char>>,
    n_b: NodeModel,
)
    requires
        path_a.len() >= 1,
        path_b.len() >= 1,
        !is_path_prefix(path_a, path_b),
        !is_path_prefix(path_b, path_a),
    ensures
        sub_node(merged(merged(t, path_a, n_a), path_b, n_b), path_a) == sub_node(
            merged(t, path_a, n_a),
            path_a,
        ),
{
    lemma_merge_preserves_disjoint(merged(t, path_a, n_a), path_a, path_b, n_b);
}

/// After a merge at `path`, a node stands at every prefix of `path`.
pub proof fn lemma_merge_places(m: NodeModel, path: Seq<Seq<char>>, n: NodeModel, q: Seq<Seq<char>>)
    requires
        path.len() >= 1,
        is_path_prefix(q, path),
    ensures
        sub_node(merged(m, path, n), q) is Some,
    decreases path.len(),
{
    let t = merged(m, path, n);
    if q.len() == 0 {
    } else {
        lemma_prefix_index(q, path);
        let k = path[0];
        assert(q[0] == k);
        assert(t.children.dom().contains(k));
        if path.len() <= 1 {
            assert(q.len() == 1);
            assert(q.drop_first().len() == 0);
            assert(sub_node(t, q) == sub_node(t.children[k], q.drop_first()));
            assert(sub_node(t.children[k], q.drop_first()) == Some(t.children[k]));
        } else {
            let qt = q.drop_first();
            let pt = path.drop_first();
            assert(is_path_prefix(qt, pt)) by {
                assert forall|i: int| 0 <= i < qt.len() implies qt[i] == pt.take(
                    qt.len() as int,
                )[i] by {
                    assert(qt[i] == q[i + 1]);
                    assert(pt[i] == path[i + 1]);
                    assert(pt.take(qt.len() as int)[i] == pt[i]);
                }
                assert(qt =~= pt.take(qt.len() as int));
            }
            lemma_merge_places(child_or_blank(m, k), pt, n, qt);
            assert(sub_node(t, q) == sub_node(t.children[k], qt));
        }
    }
}

} // verus!
