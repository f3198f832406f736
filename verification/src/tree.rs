//! The shared asset cache: a single tree of nodes, populated by merges
//! and read by everyone else.

use vstd::prelude::*;

use crate::model::{merged, sub_node, NodeModel};
use crate::node::{AssetData, AssetNode};
use crate::path::AssetPath;

verus! {

/// The cached part of the remote asset hierarchy. Created once, then
/// grown by [`AssetTree::merge`]; nothing is ever removed.
#[derive(Debug)]
pub struct AssetTree {
    root: AssetNode,
}

impl View for AssetTree {
    type V = NodeModel;

    closed spec fn view(&self) -> NodeModel {
        self.root@
    }
}

impl AssetTree {
    /// Child names are unique everywhere in the tree.
    pub closed spec fn wf(&self) -> bool {
        self.root.wf()
    }

    /// An empty cache.
    pub fn new() -> (r: AssetTree)
        ensures
            r.wf(),
            r@ == NodeModel::blank(),
    {
        let r = AssetTree { root: AssetNode::new(AssetData::Unresolved) };
        proof {
            assert(r@ =~= NodeModel::blank());
        }
        r
    }

    /// Inserts `node` at `path`, creating blank intermediate nodes along
    /// the way. Only the target node's payload and the children the new
    /// node itself supplies are overwritten; everything else survives,
    /// as [`merged`] states.
    pub fn merge(&mut self, path: &AssetPath, node: AssetNode)
        requires
            old(self).wf(),
            node.wf(),
            path@.len() >= 1,
        ensures
            final(self).wf(),
            final(self)@ == merged(old(self)@, path@, node@),
    {
        let segs = path.segments();
        proof {
            assert(segs.deep_view().skip(0) =~= path@);
        }
        self.root.merge_into(segs, 0, node);
    }

    /// The node at `path`, if each step of the path exists.
    pub fn lookup<'a>(&'a self, path: &AssetPath) -> (r: Option<&'a AssetNode>)
        requires
            self.wf(),
        ensures
            match r {
                Some(n) => sub_node(self@, path@) == Some(n@) && n.wf(),
                None => sub_node(self@, path@) is None,
            },
    {
        let n: usize = path.len();
        let mut cur: &AssetNode = &self.root;
        let mut i: usize = 0;
        proof {
            assert(path@.skip(0) =~= path@);
        }
        while i < n
            invariant
                i <= n,
                n == path@.len(),
                cur.wf(),
                sub_node(self@, path@) == sub_node(cur@, path@.skip(i as int)),
            decreases n - i,
        {
            let seg = path.segment(i);
            proof {
                assert(path@.skip(i as int)[0] == path@[i as int]);
                assert(path@.skip(i as int).drop_first() =~= path@.skip(i as int + 1));
            }
            match cur.child(seg.as_str()) {
                Some(c) => {
                    cur = c;
                },
                None => {
                    return None;
                },
            }
            i += 1;
        }
        proof {
            assert(path@.skip(n as int).len() == 0);
        }
        Some(cur)
    }

    /// Whether a node already stands at the three-segment prefix of
    /// `path` that names an asset's image file: fetched assets are
    /// addressed three segments deep, so a hit means the asset was
    /// already downloaded.
    pub fn contains_prefix(&self, path: &AssetPath) -> (r: bool)
        requires
            self.wf(),
            path@.len() >= 3,
        ensures
            r == (sub_node(self@, path@.take(3)) is Some),
    {
        let ghost p3 = path@.take(3);
        let mut cur: &AssetNode = &self.root;
        let mut i: usize = 0;
        proof {
            assert(p3.skip(0) =~= p3);
        }
        while i < 3
            invariant
                i <= 3,
                path@.len() >= 3,
                p3 == path@.take(3),
                cur.wf(),
                sub_node(self@, p3) == sub_node(cur@, p3.skip(i as int)),
            decreases 3 - i,
        {
            let seg = path.segment(i);
            proof {
                assert(p3.skip(i as int)[0] == p3[i as int]);
                assert(p3[i as int] == path@[i as int]);
                assert(p3.skip(i as int).drop_first() =~= p3.skip(i as int + 1));
            }
            match cur.child(seg.as_str()) {
                Some(c) => {
                    cur = c;
                },
                None => {
                    return false;
                },
            }
            i += 1;
        }
        proof {
            assert(p3.skip(3).len() == 0);
        }
        true
    }
}

} // verus!
