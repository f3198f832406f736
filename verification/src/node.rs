//! Executable asset nodes: a typed payload plus named children, held as
//! a vector of key/node pairs with unique keys. A node is interpreted
//! as a [`NodeModel`] for specification purposes.

use vstd::prelude::*;

use crate::model::{child_or_blank, merged, placed, DataModel, NodeModel};
use crate::text::str_eq;

verus! {

/// Payload of one asset node.
#[derive(Debug, Clone, PartialEq, Eq)]
pub enum AssetData {
    /// The node exists structurally but carries no resolved payload.
    Unresolved,
    /// A raster asset, compressed; decompression happens outside this crate.
    Bitmap { compressed: Vec<u8>, width: u16, height: u16 },
    /// A scalar text payload, also used as a dependency pointer.
    Text(String),
    /// A two-dimensional integer vector payload.
    Vector(i32, i32),
}

impl AssetData {
    /// Mathematical image of this payload.
    pub open spec fn model(self) -> DataModel {
        match self {
            AssetData::Unresolved => DataModel::Unresolved,
            AssetData::Bitmap { compressed, width, height } => DataModel::Bitmap {
                bytes: compressed@,
                width: width,
                height: height,
            },
            AssetData::Text(s) => DataModel::Text(s@),
            AssetData::Vector(x, y) => DataModel::Vector(x, y),
        }
    }
}

impl View for AssetData {
    type V = DataModel;

    open spec fn view(&self) -> DataModel {
        self.model()
    }
}

/// One node of the cached asset hierarchy.
#[derive(Debug, PartialEq, Eq)]
pub struct AssetNode {
    data: AssetData,
    children: Vec<(String, AssetNode)>,
}

spec fn has_key(s: Seq<(String, AssetNode)>, k: Seq<char>) -> bool {
    exists|i: int| 0 <= i < s.len() && s[i].0@ == k
}

spec fn idx_of(s: Seq<(String, AssetNode)>, k: Seq<char>) -> int {
    choose|i: int| 0 <= i < s.len() && s[i].0@ == k
}

spec fn unique_keys(s: Seq<(String, AssetNode)>) -> bool {
    forall|i: int, j: int| 0 <= i < j < s.len() ==> s[i].0@ != s[j].0@
}

/// The children of a node as a map from name to child model.
spec fn kids(s: Seq<(String, AssetNode)>) -> Map<Seq<char>, NodeModel>
    decreases s,
{
    Map::new(
        |k: Seq<char>| has_key(s, k),
        |k: Seq<char>|
            if has_key(s, k) {
                s[idx_of(s, k)].1.model()
            } else {
                NodeModel::blank()
            },
    )
}

impl AssetNode {
    /// Mathematical image of this node and everything below it.
    pub closed spec fn model(self) -> NodeModel
        decreases self,
    {
        NodeModel { data: self.data.model(), children: kids(self.children@) }
    }

    /// Child names are unique at this node and at every node below it.
    pub closed spec fn wf(self) -> bool
        decreases self,
    {
        &&& unique_keys(self.children@)
        &&& forall|i: int|
            0 <= i < self.children@.len() ==> (#[trigger] self.children@[i]).1.wf()
    }

    /// The child names of this node, in their storage order.
    pub closed spec fn keys(self) -> Seq<Seq<char>> {
        Seq::new(self.children@.len(), |i: int| self.children@[i].0@)
    }
}

impl View for AssetNode {
    type V = NodeModel;

    open spec fn view(&self) -> NodeModel {
        self.model()
    }
}

proof fn lemma_unique_idx(s: Seq<(String, AssetNode)>, i: int)
    requires
        unique_keys(s),
        0 <= i < s.len(),
    ensures
        has_key(s, s[i].0@),
        idx_of(s, s[i].0@) == i,
{
    assert(has_key(s, s[i].0@));
    let j = idx_of(s, s[i].0@);
    assert(0 <= j < s.len() && s[j].0@ == s[i].0@);
    if j < i {
        assert(s[j].0@ != s[i].0@);
    } else if j > i {
        assert(s[i].0@ != s[j].0@);
    }
}

proof fn lemma_kids_update(s: Seq<(String, AssetNode)>, i: int, p: (String, AssetNode))
    requires
        unique_keys(s),
        0 <= i < s.len(),
        s[i].0@ == p.0@,
    ensures
        unique_keys(s.update(i, p)),
        kids(s.update(i, p)) == kids(s).insert(p.0@, p.1.model()),
{
    let s2 = s.update(i, p);
    assert(unique_keys(s2)) by {
        assert forall|a: int, b: int| 0 <= a < b < s2.len() implies s2[a].0@ != s2[b].0@ by {
            assert(s2[a].0@ == s[a].0@ && s2[b].0@ == s[b].0@);
        }
    }
    assert forall|k: Seq<char>| has_key(s2, k) == has_key(s, k) by {
        if has_key(s2, k) {
            let j = choose|j: int| 0 <= j < s2.len() && s2[j].0@ == k;
            assert(s[j].0@ == s2[j].0@);
        }
        if has_key(s, k) {
            let j = choose|j: int| 0 <= j < s.len() && s[j].0@ == k;
            assert(s2[j].0@ == s[j].0@);
        }
    }
    assert forall|k: Seq<char>| #[trigger] has_key(s2, k) implies kids(s2)[k] == kids(s).insert(
        p.0@,
        p.1.model(),
    )[k] by {
        let j = idx_of(s2, k);
        lemma_unique_idx(s2, j);
        if k == p.0@ {
            lemma_unique_idx(s2, i);
            assert(j == i);
        } else {
            assert(j != i);
            assert(s[j] == s2[j]);
            lemma_unique_idx(s, j);
        }
    }
    assert(kids(s2) =~= kids(s).insert(p.0@, p.1.model()));
}

proof fn lemma_kids_push(s: Seq<(String, AssetNode)>, p: (String, AssetNode))
    requires
        unique_keys(s),
        !has_key(s, p.0@),
    ensures
        unique_keys(s.push(p)),
        kids(s.push(p)) == kids(s).insert(p.0@, p.1.model()),
{
    let s2 = s.push(p);
    assert(unique_keys(s2)) by {
        assert forall|a: int, b: int| 0 <= a < b < s2.len() implies s2[a].0@ != s2[b].0@ by {
            if b < s.len() {
                assert(s2[a].0@ == s[a].0@ && s2[b].0@ == s[b].0@);
            } else {
                assert(s2[a].0@ == s[a].0@ && s2[b].0@ == p.0@);
                assert(has_key(s, s[a].0@) && idx_of(s, s[a].0@) == a) by {
                    lemma_unique_idx(s, a);
                }
            }
        }
    }
    assert forall|k: Seq<char>| has_key(s2, k) == (has_key(s, k) || k == p.0@) by {
        if has_key(s2, k) {
            let j = choose|j: int| 0 <= j < s2.len() && s2[j].0@ == k;
            if j < s.len() {
                assert(s[j].0@ == k);
            }
        }
        if has_key(s, k) {
            let j = choose|j: int| 0 <= j < s.len() && s[j].0@ == k;
            assert(s2[j].0@ == k);
        }
        assert(s2[s.len() as int].0@ == p.0@);
    }
    assert forall|k: Seq<char>| #[trigger] has_key(s2, k) implies kids(s2)[k] == kids(s).insert(
        p.0@,
        p.1.model(),
    )[k] by {
        let j = idx_of(s2, k);
        lemma_unique_idx(s2, j);
        if k == p.0@ {
            lemma_unique_idx(s2, s.len() as int);
            assert(j == s.len());
        } else {
            assert(j < s.len());
            assert(s[j] == s2[j]);
            lemma_unique_idx(s, j);
        }
    }
    assert(kids(s2) =~= kids(s).insert(p.0@, p.1.model()));
}

impl AssetNode {
    /// A childless node holding `data`.
    pub fn new(data: AssetData) -> (r: AssetNode)
        ensures
            r.wf(),
            r@ == (NodeModel { data: data@, children: Map::<Seq<char>, NodeModel>::empty() }),
    {
        let r = AssetNode { data, children: Vec::new() };
        proof {
            assert(kids(r.children@) =~= Map::<Seq<char>, NodeModel>::empty());
        }
        r
    }

    /// The payload of this node.
    pub fn data(&self) -> (r: &AssetData)
        ensures
            r@ == self@.data,
    {
        &self.data
    }

    /// The position of the child named `name`, if any.
    fn find_idx(&self, name: &str) -> (r: Option<usize>)
        ensures
            match r {
                Some(i) => i < self.children@.len() && self.children@[i as int].0@ == name@,
                None => !has_key(self.children@, name@),
            },
    {
        let n: usize = self.children.len();
        let mut i: usize = 0;
        while i < n
            invariant
                i <= n,
                n == self.children@.len(),
                forall|j: int| 0 <= j < i ==> self.children@[j].0@ != name@,
            decreases n - i,
        {
            if str_eq(self.children[i].0.as_str(), name) {
                return Some(i);
            }
            i += 1;
        }
        None
    }

    /// The child of this node named `name`, if any.
    pub fn child<'a>(&'a self, name: &str) -> (r: Option<&'a AssetNode>)
        requires
            self.wf(),
        ensures
            match r {
                Some(c) => self@.child(name@) == Some(c@) && c.wf(),
                None => self@.child(name@) is None,
            },
    {
        match self.find_idx(name) {
            Some(i) => {
                proof {
                    lemma_unique_idx(self.children@, i as int);
                }
                Some(&self.children[i].1)
            },
            None => None,
        }
    }

    /// How many children this node has.
    pub fn child_count(&self) -> (r: usize)
        ensures
            r == self.keys().len(),
    {
        self.children.len()
    }

    /// The name and node of the child at position `i`.
    pub fn child_at<'a>(&'a self, i: usize) -> (r: (&'a String, &'a AssetNode))
        requires
            self.wf(),
            i < self.keys().len(),
        ensures
            r.0@ == self.keys()[i as int],
            self@.child(r.0@) == Some(r.1@),
            r.1.wf(),
    {
        proof {
            lemma_unique_idx(self.children@, i as int);
        }
        let p = &self.children[i];
        (&p.0, &p.1)
    }

    /// The child names enumerate the domain of the model's child map,
    /// without repetition.
    pub proof fn lemma_keys_dom(self)
        requires
            self.wf(),
        ensures
            forall|i: int, j: int|
                0 <= i < j < self.keys().len() ==> self.keys()[i] != self.keys()[j],
            forall|i: int|
                0 <= i < self.keys().len() ==> self@.children.dom().contains(
                    #[trigger] self.keys()[i],
                ),
            forall|k: Seq<char>|
                #[trigger] self@.children.dom().contains(k) ==> exists|i: int|
                    0 <= i < self.keys().len() && self.keys()[i] == k,
    {
        assert forall|k: Seq<char>| #[trigger] self@.children.dom().contains(k) implies exists|
            i: int,
        |
            0 <= i < self.keys().len() && self.keys()[i] == k by {
            let j = idx_of(self.children@, k);
            assert(0 <= j < self.children@.len() && self.children@[j].0@ == k);
            assert(self.keys()[j] == k);
        }
    }

    /// Puts `child` under `name`, replacing any previous child of that name.
    pub fn set_child(&mut self, name: &str, child: AssetNode)
        requires
            old(self).wf(),
            child.wf(),
        ensures
            final(self).wf(),
            final(self)@ == (NodeModel {
                data: old(self)@.data,
                children: old(self)@.children.insert(name@, child@),
            }),
    {
        let ghost s = self.children@;
        let ghost cm = child.model();
        match self.find_idx(name) {
            Some(i) => {
                let prev = self.children.remove(i);
                let pair = (prev.0, child);
                self.children.insert(i, pair);
                proof {
                    assert(self.children@ =~= s.update(i as int, (pair.0, pair.1)));
                    assert(pair.0@ == name@);
                    lemma_kids_update(s, i as int, (pair.0, pair.1));
                    assert forall|j: int|
                        0 <= j < self.children@.len() implies (#[trigger] self.children@[j]).1.wf() by {
                        if j != i {
                            assert(self.children@[j] == s[j]);
                        }
                    }
                }
            },
            None => {
                let pair = (name.to_owned(), child);
                self.children.push(pair);
                proof {
                    lemma_kids_push(s, self.children@.last());
                    assert(self.children@ == s.push(self.children@.last()));
                    assert forall|j: int|
                        0 <= j < self.children@.len() implies (#[trigger] self.children@[j]).1.wf() by {
                        if j < s.len() {
                            assert(self.children@[j] == s[j]);
                        }
                    }
                }
            },
        }
    }

    /// Places a fetched node onto `base`: the fetched payload and
    /// children win, children of `base` that the fetched node does not
    /// supply survive.
    fn place_onto(base: AssetNode, new: AssetNode) -> (r: AssetNode)
        requires
            base.wf(),
            new.wf(),
        ensures
            r.wf(),
            r@ == (NodeModel {
                data: new@.data,
                children: base@.children.union_prefer_right(new@.children),
            }),
    {
        let ghost ndata = new@.data;
        let ghost ns = new.children@;
        let ghost basekids = base@.children;
        proof {
            assert(unique_keys(ns) && forall|t: int|
                0 <= t < ns.len() ==> (#[trigger] ns[t]).1.wf());
            assert(new@.children == kids(ns));
        }
        let AssetNode { data: new_data, children: new_children } = new;
        let mut out = base;
        out.data = new_data;
        proof {
            assert(out@.data == ndata);
            assert(kids(ns.take(0)) =~= Map::<Seq<char>, NodeModel>::empty());
            assert(out@.children =~= basekids.union_prefer_right(kids(ns.take(0))));
        }
        let mut rest = new_children;
        let ghost j: int = 0;
        while rest.len() > 0
            invariant
                out.wf(),
                0 <= j <= ns.len(),
                rest@ == ns.skip(j),
                unique_keys(ns),
                forall|t: int| 0 <= t < ns.len() ==> (#[trigger] ns[t]).1.wf(),
                out@.data == ndata,
                out@.children == basekids.union_prefer_right(kids(ns.take(j))),
            decreases rest@.len(),
        {
            let p = rest.remove(0);
            proof {
                assert(p == ns[j]);
                assert(rest@ =~= ns.skip(j + 1));
                assert(ns[j].1.wf());
            }
            let ghost before = out@.children;
            let (pname, pchild) = p;
            out.set_child(pname.as_str(), pchild);
            proof {
                assert(ns.take(j).push(ns[j]) =~= ns.take(j + 1));
                assert(unique_keys(ns.take(j))) by {
                    assert forall|a: int, b: int|
                        0 <= a < b < ns.take(j).len() implies ns.take(j)[a].0@ != ns.take(
                        j,
                    )[b].0@ by {
                        assert(ns.take(j)[a] == ns[a] && ns.take(j)[b] == ns[b]);
                    }
                }
                assert(!has_key(ns.take(j), ns[j].0@)) by {
                    if has_key(ns.take(j), ns[j].0@) {
                        let t = choose|t: int|
                            0 <= t < ns.take(j).len() && ns.take(j)[t].0@ == ns[j].0@;
                        assert(ns[t].0@ == ns[j].0@);
                    }
                }
                lemma_kids_push(ns.take(j), ns[j]);
                assert(out@.children =~= basekids.union_prefer_right(kids(ns.take(j + 1)))) by {
                    assert(out@.children == before.insert(ns[j].0@, ns[j].1.model()));
                }
                j = j + 1;
            }
        }
        proof {
            assert(j == ns.len());
            assert(ns.take(j) =~= ns);
        }
        out
    }

    /// Merges `node` into this subtree at the path given by the
    /// segments of `segs` from position `i` on, creating blank
    /// intermediate nodes where the spine is missing.
    pub(crate) fn merge_into(&mut self, segs: &Vec<String>, i: usize, node: AssetNode)
        requires
            old(self).wf(),
            node.wf(),
            i < segs@.len(),
        ensures
            final(self).wf(),
            final(self)@ == merged(old(self)@, segs.deep_view().skip(i as int), node@),
        decreases segs@.len() - i,
    {
        let ghost path = segs.deep_view().skip(i as int);
        let ghost s = self.children@;
        let ghost old_model = self.model();
        let ghost nm = node@;
        proof {
            assert(path[0] == segs.deep_view()[i as int]);
            assert(segs.deep_view()[i as int] == segs@[i as int]@);
            assert(path.drop_first() =~= segs.deep_view().skip(i as int + 1));
        }
        let name: &String = &segs[i];
        let last = segs.len() - i == 1;
        proof {
            assert(last == (path.len() <= 1));
        }
        match self.find_idx(name.as_str()) {
            Some(j) => {
                proof {
                    lemma_unique_idx(s, j as int);
                    assert(old_model.children.dom().contains(name@));
                    assert(old_model.children[name@] == s[j as int].1.model());
                }
                let prev = self.children.remove(j);
                let new_child = if last {
                    Self::place_onto(prev.1, node)
                } else {
                    let mut child = prev.1;
                    child.merge_into(segs, i + 1, node);
                    child
                };
                proof {
                    if last {
                        assert(new_child@ == placed(old_model, name@, nm));
                    } else {
                        assert(s[j as int].1.model() == child_or_blank(old_model, name@));
                        assert(new_child@ == merged(child_or_blank(old_model, name@),
                            path.drop_first(), nm));
                    }
                }
                let pair = (prev.0, new_child);
                self.children.insert(j, pair);
                proof {
                    assert(self.children@ =~= s.update(j as int, (pair.0, pair.1)));
                    lemma_kids_update(s, j as int, (pair.0, pair.1));
                    assert forall|t: int|
                        0 <= t < self.children@.len() implies (#[trigger] self.children@[t]).1.wf() by {
                        if t != j {
                            assert(self.children@[t] == s[t]);
                        }
                    }
                    assert(self@.children =~= merged(old_model, path, nm).children);
                    assert(self@ =~= merged(old_model, path, nm));
                }
            },
            None => {
                proof {
                    assert(!old_model.children.dom().contains(name@));
                }
                let new_child = if last {
                    node
                } else {
                    let mut child = AssetNode::new(AssetData::Unresolved);
                    proof {
                        assert(child@ =~= NodeModel::blank());
                    }
                    child.merge_into(segs, i + 1, node);
                    child
                };
                proof {
                    if last {
                        assert(new_child@ == placed(old_model, name@, nm));
                    } else {
                        assert(child_or_blank(old_model, name@) == NodeModel::blank());
                        assert(new_child@ == merged(child_or_blank(old_model, name@),
                            path.drop_first(), nm));
                    }
                }
                let pair = (name.clone(), new_child);
                self.children.push(pair);
                proof {
                    lemma_kids_push(s, self.children@.last());
                    assert(self.children@ == s.push(self.children@.last()));
                    assert forall|t: int|
                        0 <= t < self.children@.len() implies (#[trigger] self.children@[t]).1.wf() by {
                        if t < s.len() {
                            assert(self.children@[t] == s[t]);
                        }
                    }
                    assert(self@.children =~= merged(old_model, path, nm).children);
                    assert(self@ =~= merged(old_model, path, nm));
                }
            },
        }
    }
}

} // verus!
