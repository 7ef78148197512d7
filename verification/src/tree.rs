//! The block tree of a chain: every block is a node under its parent, with
//! its height and the greatest height found in its subtree.

use vstd::prelude::*;
use crate::hash::H256;

verus! {

/// What a node of the block tree holds, with its whole subtree.
pub struct NodeModel {
    pub val: H256,
    pub children: Seq<NodeModel>,
    pub height: nat,
    pub longest_height: nat,
}

/// A node of the block tree.
#[derive(Debug)]
pub struct Node {
    pub val: H256,
    pub children: Vec<Box<Node>>,
    pub height: usize,
    pub longest_height: usize,
}

impl Node {
    /// The subtree rooted at this node.
    pub open spec fn model(&self) -> NodeModel
        decreases self,
    {
        NodeModel {
            val: self.val,
            children: Seq::new(
                self.children@.len(),
                |i: int|
                    if 0 <= i < self.children@.len() {
                        self.children@[i].model()
                    } else {
                        arbitrary()
                    },
            ),
            height: self.height as nat,
            longest_height: self.longest_height as nat,
        }
    }
}

/// Models of a list of boxed nodes.
pub open spec fn models(v: Seq<Box<Node>>) -> Seq<NodeModel> {
    v.map_values(|b: Box<Node>| b.model())
}

pub proof fn lemma_model_children(n: &Node)
    ensures
        n.model().children == models(n.children@),
{
    assert(n.model().children =~= models(n.children@));
}

// ----- hash lists -----

/// The values of a subtree in pre-order: the node, then each child's subtree.
pub open spec fn preorder(m: NodeModel) -> Seq<H256>
    decreases m,
{
    seq![m.val] + preorder_forest(m.children)
}

/// The values of a list of subtrees in pre-order, one after another.
pub open spec fn preorder_forest(f: Seq<NodeModel>) -> Seq<H256>
    decreases f,
{
    if f.len() == 0 {
        Seq::empty()
    } else {
        preorder_forest(f.subrange(0, f.len() - 1)) + preorder(f[f.len() - 1])
    }
}

/// The values of the leaves of a subtree, left to right.
pub open spec fn leaves(m: NodeModel) -> Seq<H256>
    decreases m,
{
    if m.children.len() == 0 {
        seq![m.val]
    } else {
        leaves_forest(m.children)
    }
}

/// The leaves of a list of subtrees, one after another.
pub open spec fn leaves_forest(f: Seq<NodeModel>) -> Seq<H256>
    decreases f,
{
    if f.len() == 0 {
        Seq::empty()
    } else {
        leaves_forest(f.subrange(0, f.len() - 1)) + leaves(f[f.len() - 1])
    }
}

/// The greatest height stored in a subtree.
pub open spec fn max_height(m: NodeModel) -> nat
    decreases m,
{
    let c = max_height_forest(m.children);
    if c > m.height { c } else { m.height }
}

/// The greatest height stored in a list of subtrees (0 for none).
pub open spec fn max_height_forest(f: Seq<NodeModel>) -> nat
    decreases f,
{
    if f.len() == 0 {
        0
    } else {
        let a = max_height(f[0]);
        let b = max_height_forest(f.subrange(1, f.len() as int));
        if a > b { a } else { b }
    }
}

// ----- searches -----

/// The path of values from the node down to the first node, in pre-order,
/// that holds `h`.
pub open spec fn path(m: NodeModel, h: H256) -> Option<Seq<H256>>
    decreases m,
{
    if m.val == h {
        Some(seq![h])
    } else {
        match path_forest(m.children, h) {
            Some(p) => Some(seq![m.val] + p),
            None => None,
        }
    }
}

/// The path inside the first subtree of the list that holds `h`.
pub open spec fn path_forest(f: Seq<NodeModel>, h: H256) -> Option<Seq<H256>>
    decreases f,
{
    if f.len() == 0 {
        None
    } else {
        match path(f[0], h) {
            Some(p) => Some(p),
            None => path_forest(f.subrange(1, f.len() as int), h),
        }
    }
}

/// The first subtree, in pre-order, whose root holds `h`.
pub open spec fn find(m: NodeModel, h: H256) -> Option<NodeModel>
    decreases m,
{
    if m.val == h {
        Some(m)
    } else {
        find_forest(m.children, h)
    }
}

/// The first subtree holding `h` within a list of subtrees.
pub open spec fn find_forest(f: Seq<NodeModel>, h: H256) -> Option<NodeModel>
    decreases f,
{
    if f.len() == 0 {
        None
    } else {
        match find(f[0], h) {
            Some(n) => Some(n),
            None => find_forest(f.subrange(1, f.len() as int), h),
        }
    }
}

// ----- well-formedness -----

/// Children are one level below their parent, and every node's longest
/// height is the greatest height in its subtree.
pub open spec fn wf(m: NodeModel) -> bool
    decreases m,
{
    &&& m.longest_height == max_height(m)
    &&& wf_forest(m.children, m.height + 1)
}

/// Every subtree of the list is well formed and has its root at `height`.
pub open spec fn wf_forest(f: Seq<NodeModel>, height: nat) -> bool
    decreases f,
{
    if f.len() == 0 {
        true
    } else {
        &&& f[0].height == height
        &&& wf(f[0])
        &&& wf_forest(f.subrange(1, f.len() as int), height)
    }
}

// ----- insertion -----

/// A leaf holding `h` at height `height`.
pub open spec fn leaf(h: H256, height: nat) -> NodeModel {
    NodeModel { val: h, children: Seq::empty(), height, longest_height: height }
}

/// Index of the first child holding `h`, if any.
pub open spec fn child_index(f: Seq<NodeModel>, h: H256) -> Option<int>
    decreases f.len(),
{
    if f.len() == 0 {
        None
    } else if f[f.len() - 1].val == h && child_index(f.subrange(0, f.len() - 1), h) is None {
        Some(f.len() - 1)
    } else {
        child_index(f.subrange(0, f.len() - 1), h)
    }
}

/// The tree after inserting `h` under the first node holding `parent`, with
/// the node that holds `h` there. A child already holding `h` is kept.
pub open spec fn ins(m: NodeModel, parent: H256, h: H256) -> (NodeModel, Option<NodeModel>)
    decreases m,
{
    if m.val == parent {
        match child_index(m.children, h) {
            Some(i) => (m, Some(m.children[i])),
            None => {
                let l = leaf(h, m.height + 1);
                let lh = if l.longest_height > m.longest_height { l.longest_height } else { m.longest_height };
                (NodeModel { children: m.children.push(l), longest_height: lh, ..m }, Some(l))
            },
        }
    } else {
        let (f, r) = ins_forest(m.children, parent, h);
        match r {
            Some(n) => {
                let lh = if n.longest_height > m.longest_height { n.longest_height } else { m.longest_height };
                (NodeModel { children: f, longest_height: lh, ..m }, r)
            },
            None => (m, None),
        }
    }
}

/// Insertion into the first subtree of the list where it succeeds.
pub open spec fn ins_forest(f: Seq<NodeModel>, parent: H256, h: H256) -> (Seq<NodeModel>, Option<NodeModel>)
    decreases f,
{
    if f.len() == 0 {
        (f, None)
    } else {
        let (c, r) = ins(f[0], parent, h);
        match r {
            Some(_) => (seq![c] + f.subrange(1, f.len() as int), r),
            None => {
                let (rest, r2) = ins_forest(f.subrange(1, f.len() as int), parent, h);
                (seq![f[0]] + rest, r2)
            },
        }
    }
}

/// The model of an optional node.
pub open spec fn opt_model(r: Option<Box<Node>>) -> Option<NodeModel> {
    match r {
        Some(n) => Some(n.model()),
        None => None,
    }
}

/// An insertion that finds no parent leaves the tree as it was.
proof fn lemma_ins_none(m: NodeModel, parent: H256, h: H256)
    ensures
        ins(m, parent, h).1 is None ==> ins(m, parent, h).0 == m,
    decreases m,
{
    if m.val != parent {
        lemma_ins_forest_none(m.children, parent, h);
    }
}

proof fn lemma_ins_forest_none(f: Seq<NodeModel>, parent: H256, h: H256)
    ensures
        ins_forest(f, parent, h).1 is None ==> ins_forest(f, parent, h).0 == f,
    decreases f,
{
    if f.len() > 0 {
        lemma_ins_none(f[0], parent, h);
        lemma_ins_forest_none(f.subrange(1, f.len() as int), parent, h);
        assert(seq![f[0]] + f.subrange(1, f.len() as int) =~= f);
    }
}

/// A first match on a prefix is the first match on the whole list.
proof fn lemma_child_index_extend(f: Seq<NodeModel>, h: H256, j: int, k: int)
    requires
        0 <= j <= f.len(),
        child_index(f.subrange(0, j), h) == Some(k),
    ensures
        child_index(f, h) == Some(k),
    decreases f.len() - j,
{
    if j < f.len() {
        let g = f.subrange(0, j + 1);
        assert(g.subrange(0, g.len() - 1) =~= f.subrange(0, j));
        lemma_child_index_extend(f, h, j + 1, k);
    } else {
        assert(f.subrange(0, j) =~= f);
    }
}

/// A subtree's greatest height is at most the list's.
proof fn lemma_max_forest_ge(f: Seq<NodeModel>, i: int)
    requires
        0 <= i < f.len(),
    ensures
        max_height(f[i]) <= max_height_forest(f),
    decreases f.len(),
{
    if i > 0 {
        let g = f.subrange(1, f.len() as int);
        assert(g[i - 1] == f[i]);
        lemma_max_forest_ge(g, i - 1);
    }
}

/// The list without the subtrees whose root holds `h`.
pub open spec fn without(f: Seq<NodeModel>, h: H256) -> Seq<NodeModel>
    decreases f.len(),
{
    if f.len() == 0 {
        Seq::empty()
    } else {
        let p = without(f.subrange(0, f.len() - 1), h);
        if f[f.len() - 1].val == h {
            p
        } else {
            p.push(f[f.len() - 1])
        }
    }
}

/// The node with its longest height recomputed from its subtree.
pub open spec fn refresh(m: NodeModel) -> NodeModel {
    NodeModel { longest_height: max_height(m), ..m }
}

/// The tree after cutting off the subtrees holding `h` under the first
/// node, in pre-order, that has such a child, with the values cut off (those
/// of the first such subtree, in pre-order).
pub open spec fn pruned(m: NodeModel, h: H256) -> (NodeModel, Option<Seq<H256>>)
    decreases m,
{
    if m.children.len() == 0 {
        (m, None)
    } else {
        match child_index(m.children, h) {
            Some(i) => (
                refresh(NodeModel { children: without(m.children, h), ..m }),
                Some(preorder(m.children[i])),
            ),
            None => {
                let (f, r) = pruned_forest(m.children, h);
                match r {
                    Some(_) => (refresh(NodeModel { children: f, ..m }), r),
                    None => (m, None),
                }
            },
        }
    }
}

/// Pruning in the first subtree of the list where it succeeds.
pub open spec fn pruned_forest(f: Seq<NodeModel>, h: H256) -> (Seq<NodeModel>, Option<Seq<H256>>)
    decreases f,
{
    if f.len() == 0 {
        (f, None)
    } else {
        let (c, r) = pruned(f[0], h);
        match r {
            Some(_) => (seq![c] + f.subrange(1, f.len() as int), r),
            None => {
                let (rest, r2) = pruned_forest(f.subrange(1, f.len() as int), h);
                (seq![f[0]] + rest, r2)
            },
        }
    }
}

/// The view of an optional list of hashes.
pub open spec fn opt_hashes(r: Option<Vec<H256>>) -> Option<Seq<H256>> {
    match r {
        Some(v) => Some(v@),
        None => None,
    }
}

/// A prune that cuts nothing leaves the tree as it was.
proof fn lemma_pruned_none(m: NodeModel, h: H256)
    ensures
        pruned(m, h).1 is None ==> pruned(m, h).0 == m,
    decreases m,
{
    if m.children.len() > 0 {
        lemma_pruned_forest_none(m.children, h);
    }
}

proof fn lemma_pruned_forest_none(f: Seq<NodeModel>, h: H256)
    ensures
        pruned_forest(f, h).1 is None ==> pruned_forest(f, h).0 == f,
    decreases f,
{
    if f.len() > 0 {
        lemma_pruned_none(f[0], h);
        lemma_pruned_forest_none(f.subrange(1, f.len() as int), h);
        assert(seq![f[0]] + f.subrange(1, f.len() as int) =~= f);
    }
}

// ----- facts about searches and insertion -----

/// A subtree of the list that holds `x` makes the list hold it.
proof fn lemma_find_forest_some(f: Seq<NodeModel>, x: H256, i: int)
    requires
        0 <= i < f.len(),
        find(f[i], x) is Some,
    ensures
        find_forest(f, x) is Some,
    decreases f.len(),
{
    if i > 0 && find(f[0], x) is None {
        let g = f.subrange(1, f.len() as int);
        assert(g[i - 1] == f[i]);
        lemma_find_forest_some(g, x, i - 1);
    }
}

/// The index that `child_index` gives holds `h`.
proof fn lemma_child_index_valid(f: Seq<NodeModel>, h: H256)
    ensures
        child_index(f, h) matches Some(i) ==> 0 <= i < f.len() && f[i].val == h,
    decreases f.len(),
{
    if f.len() > 0 {
        let g = f.subrange(0, f.len() - 1);
        lemma_child_index_valid(g, h);
        match child_index(g, h) {
            Some(i) => {
                assert(g[i] == f[i]);
            },
            None => {},
        }
    }
}

proof fn lemma_max_forest_push(f: Seq<NodeModel>, l: NodeModel)
    ensures
        max_height_forest(f.push(l)) == (if max_height_forest(f) > max_height(l) {
            max_height_forest(f)
        } else {
            max_height(l)
        }),
    decreases f.len(),
{
    let g = f.push(l);
    if f.len() == 0 {
        assert(g.subrange(1, g.len() as int) =~= Seq::<NodeModel>::empty());
        assert(max_height_forest(g.subrange(1, g.len() as int)) == 0);
        assert(g[0] == l);
    } else {
        assert(g[0] == f[0]);
        assert(g.subrange(1, g.len() as int) =~= f.subrange(1, f.len() as int).push(l));
        lemma_max_forest_push(f.subrange(1, f.len() as int), l);
    }
}

proof fn lemma_wf_forest_push(f: Seq<NodeModel>, l: NodeModel, height: nat)
    requires
        wf_forest(f, height),
        l.height == height,
        wf(l),
    ensures
        wf_forest(f.push(l), height),
    decreases f.len(),
{
    let g = f.push(l);
    if f.len() == 0 {
        assert(g.subrange(1, g.len() as int) =~= Seq::<NodeModel>::empty());
        assert(wf_forest(g.subrange(1, g.len() as int), height));
        assert(g[0] == l);
    } else {
        assert(g[0] == f[0]);
        assert(g.subrange(1, g.len() as int) =~= f.subrange(1, f.len() as int).push(l));
        lemma_wf_forest_push(f.subrange(1, f.len() as int), l, height);
    }
}

proof fn lemma_find_forest_push(f: Seq<NodeModel>, l: NodeModel, x: H256)
    ensures
        find_forest(f.push(l), x) == (match find_forest(f, x) {
            Some(n) => Some(n),
            None => find(l, x),
        }),
    decreases f.len(),
{
    let g = f.push(l);
    if f.len() == 0 {
        assert(g.subrange(1, g.len() as int) =~= Seq::<NodeModel>::empty());
        assert(find_forest(g.subrange(1, g.len() as int), x) is None);
        assert(g[0] == l);
    } else {
        assert(g[0] == f[0]);
        assert(g.subrange(1, g.len() as int) =~= f.subrange(1, f.len() as int).push(l));
        lemma_find_forest_push(f.subrange(1, f.len() as int), l, x);
    }
}

/// Inserting a hash that the tree does not hold yet, under a parent that
/// it holds: the tree stays well formed; the new node is a leaf holding the
/// hash, at most one level below the greatest height; the greatest height
/// becomes the larger of the old one and the new node's; the tree then holds
/// exactly what it held and the new hash, each old value found at the same
/// height as before, and the new hash found at the new node.
pub proof fn lemma_insert_new_hash(m: NodeModel, parent: H256, h: H256, x: H256)
    requires
        wf(m),
        find(m, h) is None,
        ins(m, parent, h).1 is Some,
    ensures
        ({
            let (n, r) = ins(m, parent, h);
            let l = r.unwrap();
            &&& wf(n)
            &&& n.val == m.val
            &&& n.height == m.height
            &&& l == leaf(h, l.height)
            &&& l.height <= max_height(m) + 1
            &&& max_height(n) == (if max_height(m) > l.height { max_height(m) } else { l.height })
            &&& (find(n, x) is Some) == (find(m, x) is Some || x == h)
            &&& (x != h && find(m, x) is Some) ==> (find(n, x) is Some && find(n, x).unwrap().height
                == find(m, x).unwrap().height)
            &&& find(n, h) == Some(l)
        }),
    decreases m,
{
    let f = m.children;
    if m.val == parent {
        lemma_child_index_valid(f, h);
        if let Some(i) = child_index(f, h) {
            assert(find(f[i], h) is Some);
            lemma_find_forest_some(f, h, i);
            assert(false);
        }
        let l = leaf(h, m.height + 1);
        lemma_max_forest_push(f, l);
        assert(l.children =~= Seq::<NodeModel>::empty());
        lemma_wf_forest_push(f, l, m.height + 1);
        lemma_find_forest_push(f, l, x);
        lemma_find_forest_push(f, l, h);
    } else {
        lemma_insert_new_hash_forest(f, parent, h, x, m.height + 1);
    }
}

proof fn lemma_insert_new_hash_forest(f: Seq<NodeModel>, parent: H256, h: H256, x: H256, height: nat)
    requires
        wf_forest(f, height),
        find_forest(f, h) is None,
        ins_forest(f, parent, h).1 is Some,
    ensures
        ({
            let (g, r) = ins_forest(f, parent, h);
            let l = r.unwrap();
            &&& wf_forest(g, height)
            &&& l == leaf(h, l.height)
            &&& l.height <= max_height_forest(f) + 1
            &&& max_height_forest(g) == (if max_height_forest(f) > l.height { max_height_forest(f) } else { l.height })
            &&& (find_forest(g, x) is Some) == (find_forest(f, x) is Some || x == h)
            &&& (x != h && find_forest(f, x) is Some) ==> (find_forest(g, x) is Some && find_forest(g, x).unwrap().height
                == find_forest(f, x).unwrap().height)
            &&& find_forest(g, h) == Some(l)
        }),
    decreases f,
{
    let rest = f.subrange(1, f.len() as int);
    let (c, r0) = ins(f[0], parent, h);
    if r0 is Some {
        lemma_insert_new_hash(f[0], parent, h, x);
        let g = seq![c] + rest;
        assert(g[0] == c);
        assert(g.subrange(1, g.len() as int) =~= rest);
    } else {
        lemma_ins_none(f[0], parent, h);
        lemma_insert_new_hash_forest(rest, parent, h, x, height);
        let g = seq![f[0]] + ins_forest(rest, parent, h).0;
        assert(g[0] == f[0]);
        assert(g.subrange(1, g.len() as int) =~= ins_forest(rest, parent, h).0);
    }
}

/// The path to a value exists exactly when the tree holds the value; it
/// starts at the root and ends at the value.
pub proof fn lemma_path_found(m: NodeModel, x: H256)
    ensures
        (path(m, x) is Some) == (find(m, x) is Some),
        path(m, x) matches Some(p) ==> p.len() > 0 && p[0] == m.val && p[p.len() - 1] == x,
    decreases m,
{
    if m.val != x {
        lemma_path_found_forest(m.children, x);
    }
}

proof fn lemma_path_found_forest(f: Seq<NodeModel>, x: H256)
    ensures
        (path_forest(f, x) is Some) == (find_forest(f, x) is Some),
        path_forest(f, x) matches Some(p) ==> p.len() > 0 && p[p.len() - 1] == x,
    decreases f,
{
    if f.len() > 0 {
        lemma_path_found(f[0], x);
        lemma_path_found_forest(f.subrange(1, f.len() as int), x);
    }
}

/// A well-formed tree has every node found in it well formed.
pub proof fn lemma_found_wf(m: NodeModel, x: H256)
    requires
        wf(m),
    ensures
        find(m, x) matches Some(n) ==> wf(n) && n.height <= n.longest_height,
    decreases m,
{
    if m.val != x {
        lemma_found_wf_forest(m.children, x, m.height + 1);
    }
}

proof fn lemma_found_wf_forest(f: Seq<NodeModel>, x: H256, height: nat)
    requires
        wf_forest(f, height),
    ensures
        find_forest(f, x) matches Some(n) ==> wf(n) && n.height <= n.longest_height,
    decreases f,
{
    if f.len() > 0 {
        lemma_found_wf(f[0], x);
        lemma_found_wf_forest(f.subrange(1, f.len() as int), x, height);
    }
}

/// Every node found in a tree is no higher than the tree's greatest height.
pub proof fn lemma_found_height(m: NodeModel, x: H256)
    ensures
        find(m, x) matches Some(n) ==> n.height <= max_height(m),
    decreases m,
{
    if m.val != x {
        lemma_found_height_forest(m.children, x);
    }
}

proof fn lemma_found_height_forest(f: Seq<NodeModel>, x: H256)
    ensures
        find_forest(f, x) matches Some(n) ==> n.height <= max_height_forest(f),
    decreases f,
{
    if f.len() > 0 {
        lemma_found_height(f[0], x);
        lemma_found_height_forest(f.subrange(1, f.len() as int), x);
    }
}

/// Insertion under a parent that the tree holds succeeds.
pub proof fn lemma_insert_under_found(m: NodeModel, parent: H256, h: H256)
    requires
        find(m, parent) is Some,
    ensures
        ins(m, parent, h).1 is Some,
    decreases m,
{
    if m.val != parent {
        lemma_insert_under_found_forest(m.children, parent, h);
    }
}

proof fn lemma_insert_under_found_forest(f: Seq<NodeModel>, parent: H256, h: H256)
    requires
        find_forest(f, parent) is Some,
    ensures
        ins_forest(f, parent, h).1 is Some,
    decreases f,
{
    if f.len() > 0 {
        if find(f[0], parent) is Some {
            lemma_insert_under_found(f[0], parent, h);
        } else {
            lemma_insert_under_found_forest(f.subrange(1, f.len() as int), parent, h);
        }
    }
}

/// In a well-formed tree the path to a node has one value per level, from
/// the root's down to the node's.
pub proof fn lemma_path_len(m: NodeModel, x: H256)
    requires
        wf(m),
        find(m, x) is Some,
    ensures
        path(m, x) matches Some(p) && p.len() == find(m, x).unwrap().height - m.height + 1,
    decreases m,
{
    if m.val != x {
        lemma_path_len_forest(m.children, x, m.height + 1);
    }
}

proof fn lemma_path_len_forest(f: Seq<NodeModel>, x: H256, height: nat)
    requires
        wf_forest(f, height),
        find_forest(f, x) is Some,
    ensures
        path_forest(f, x) matches Some(p) && p.len() == find_forest(f, x).unwrap().height - height + 1,
    decreases f,
{
    if f.len() > 0 {
        if find(f[0], x) is Some {
            lemma_path_len(f[0], x);
        } else {
            lemma_path_found(f[0], x);
            lemma_path_len_forest(f.subrange(1, f.len() as int), x, height);
        }
    }
}

/// Every value on the path to a node is held in the tree.
pub proof fn lemma_path_elements_found(m: NodeModel, x: H256)
    ensures
        path(m, x) matches Some(p) ==> forall|i: int| 0 <= i < p.len() ==> #[trigger] find(m, p[i]) is Some,
    decreases m,
{
    if m.val != x {
        lemma_path_elements_found_forest(m.children, x);
        match path_forest(m.children, x) {
            Some(q) => {
                let p = seq![m.val] + q;
                assert forall|i: int| 0 <= i < p.len() implies #[trigger] find(m, p[i]) is Some by {
                    if i > 0 && m.val != p[i] {
                        assert(p[i] == q[i - 1]);
                        assert(find_forest(m.children, q[i - 1]) is Some);
                    }
                }
            },
            None => {},
        }
    }
}

proof fn lemma_path_elements_found_forest(f: Seq<NodeModel>, x: H256)
    ensures
        path_forest(f, x) matches Some(p) ==> forall|i: int| 0 <= i < p.len() ==> #[trigger] find_forest(f, p[i]) is Some,
    decreases f,
{
    if f.len() > 0 {
        lemma_path_elements_found(f[0], x);
        lemma_path_elements_found_forest(f.subrange(1, f.len() as int), x);
        match path(f[0], x) {
            Some(p) => {
                assert forall|i: int| 0 <= i < p.len() implies #[trigger] find_forest(f, p[i]) is Some by {
                    assert(find(f[0], p[i]) is Some);
                }
            },
            None => {
                match path_forest(f.subrange(1, f.len() as int), x) {
                    Some(p) => {
                        assert forall|i: int| 0 <= i < p.len() implies #[trigger] find_forest(f, p[i]) is Some by {
                            assert(find_forest(f.subrange(1, f.len() as int), p[i]) is Some);
                        }
                    },
                    None => {},
                }
            },
        }
    }
}

fn append_hashes(res: &mut Vec<H256>, t: &Vec<H256>)
    ensures
        final(res)@ == old(res)@ + t@,
{
    let mut j: usize = 0;
    let ghost start = res@;
    while j < t.len()
        invariant
            j <= t@.len(),
            res@ == start + t@.subrange(0, j as int),
        decreases t@.len() - j,
    {
        res.push(t[j]);
        j = j + 1;
        assert(res@ =~= start + t@.subrange(0, j as int));
    }
    assert(t@.subrange(0, j as int) =~= t@);
}

impl Node {
    /// All values of the subtree in pre-order.
    pub fn pre_traverse(root: &Box<Node>) -> (r: Vec<H256>)
        ensures
            r@ == preorder(root.model()),
        decreases root,
    {
        proof {
            lemma_model_children(root);
        }
        let ghost f = models(root.children@);
        let mut res: Vec<H256> = Vec::new();
        res.push(root.val);
        let mut i: usize = 0;
        while i < root.children.len()
            invariant
                i <= root.children@.len(),
                f == models(root.children@),
                res@ == seq![root.val] + preorder_forest(f.subrange(0, i as int)),
            decreases root.children@.len() - i,
        {
            let t = Self::pre_traverse(&root.children[i]);
            append_hashes(&mut res, &t);
            assert(f.subrange(0, i + 1).subrange(0, i as int) =~= f.subrange(0, i as int));
            i = i + 1;
        }
        assert(f.subrange(0, i as int) =~= f);
        res
    }

    /// Values of the leaves of the subtree, left to right.
    pub fn get_leaves(root: &Box<Node>) -> (r: Vec<H256>)
        ensures
            r@ == leaves(root.model()),
        decreases root,
    {
        proof {
            lemma_model_children(root);
        }
        if root.children.len() == 0 {
            let mut res: Vec<H256> = Vec::new();
            res.push(root.val);
            assert(res@ =~= seq![root.val]);
            res
        } else {
            let ghost f = models(root.children@);
            let mut res: Vec<H256> = Vec::new();
            let mut i: usize = 0;
            while i < root.children.len()
                invariant
                    i <= root.children@.len(),
                    f == models(root.children@),
                    res@ == leaves_forest(f.subrange(0, i as int)),
                decreases root.children@.len() - i,
            {
                let t = Self::get_leaves(&root.children[i]);
                append_hashes(&mut res, &t);
                assert(f.subrange(0, i + 1).subrange(0, i as int) =~= f.subrange(0, i as int));
                i = i + 1;
            }
            assert(f.subrange(0, i as int) =~= f);
            res
        }
    }

    /// The greatest height stored in the subtree.
    pub fn get_longest_height(root: &Box<Node>) -> (r: usize)
        ensures
            r == max_height(root.model()),
        decreases root,
    {
        proof {
            lemma_model_children(root);
        }
        let ghost f = models(root.children@);
        let mut longest: usize = 0;
        let mut i: usize = 0;
        assert(f.subrange(0, f.len() as int) =~= f);
        while i < root.children.len()
            invariant
                i <= root.children@.len(),
                f == models(root.children@),
                max_height_forest(f) == (if longest > max_height_forest(f.subrange(i as int, f.len() as int)) {
                    longest as nat
                } else {
                    max_height_forest(f.subrange(i as int, f.len() as int))
                }),
            decreases root.children@.len() - i,
        {
            let ghost rest = f.subrange(i as int, f.len() as int);
            assert(rest[0] == f[i as int]);
            assert(rest.subrange(1, rest.len() as int) =~= f.subrange(i + 1, f.len() as int));
            let c = Self::get_longest_height(&root.children[i]);
            if c > longest {
                longest = c;
            }
            i = i + 1;
        }
        assert(f.subrange(i as int, f.len() as int) =~= Seq::<NodeModel>::empty());
        if longest > root.height {
            longest
        } else {
            root.height
        }
    }

    /// The path of values from the root down to the first node holding `hash`.
    pub fn get_path(root: &Box<Node>, hash: &H256) -> (r: Option<Vec<H256>>)
        ensures
            r matches Some(v) ==> path(root.model(), *hash) == Some(v@),
            r is None ==> path(root.model(), *hash) is None,
        decreases root,
    {
        proof {
            lemma_model_children(root);
            crate::hash::lemma_h256_view_eq(root.val, *hash);
        }
        if root.val.equals(hash) {
            let mut res: Vec<H256> = Vec::new();
            res.push(*hash);
            assert(res@ =~= seq![*hash]);
            return Some(res);
        }
        let ghost f = models(root.children@);
        let mut i: usize = 0;
        assert(f.subrange(0, f.len() as int) =~= f);
        while i < root.children.len()
            invariant
                i <= root.children@.len(),
                f == models(root.children@),
                root.model().children == f,
                root.val != *hash,
                path_forest(f, *hash) == path_forest(f.subrange(i as int, f.len() as int), *hash),
            decreases root.children@.len() - i,
        {
            let ghost rest = f.subrange(i as int, f.len() as int);
            match Self::get_path(&root.children[i], hash) {
                Some(ret) => {
                    let mut res: Vec<H256> = Vec::new();
                    res.push(root.val);
                    append_hashes(&mut res, &ret);
                    assert(rest[0] == f[i as int]);
                    assert(f[i as int] == root.children@[i as int].model());
                    assert(path_forest(rest, *hash) == Some(ret@));
                    assert(res@ =~= seq![root.val] + ret@);
                    return Some(res);
                }
                None => {
                    assert(rest[0] == f[i as int]);
                    assert(rest.subrange(1, rest.len() as int) =~= f.subrange(i + 1, f.len() as int));
                }
            }
            i = i + 1;
        }
        assert(f.subrange(i as int, f.len() as int) =~= Seq::<NodeModel>::empty());
        None
    }

    /// A copy of the subtree.
    pub fn duplicate(root: &Box<Node>) -> (r: Box<Node>)
        ensures
            r.model() == root.model(),
        decreases root,
    {
        proof {
            lemma_model_children(root);
        }
        let mut children: Vec<Box<Node>> = Vec::new();
        let mut i: usize = 0;
        while i < root.children.len()
            invariant
                i <= root.children@.len(),
                children@.len() == i,
                forall|k: int| 0 <= k < i ==> #[trigger] children@[k].model() == root.children@[k].model(),
            decreases root.children@.len() - i,
        {
            children.push(Self::duplicate(&root.children[i]));
            i = i + 1;
        }
        let r = Box::new(Node { val: root.val, children, height: root.height, longest_height: root.longest_height });
        proof {
            lemma_model_children(&*r);
        }
        assert(models(r.children@) =~= models(root.children@));
        r
    }

    /// A copy of the first subtree, in pre-order, whose root holds `hash`.
    pub fn get_node_by_hash(root: &Box<Node>, hash: &H256) -> (r: Option<Box<Node>>)
        ensures
            r matches Some(n) ==> find(root.model(), *hash) == Some(n.model()),
            r is None ==> find(root.model(), *hash) is None,
        decreases root,
    {
        proof {
            lemma_model_children(root);
            crate::hash::lemma_h256_view_eq(root.val, *hash);
        }
        if root.val.equals(hash) {
            return Some(Self::duplicate(root));
        }
        let ghost f = models(root.children@);
        let mut i: usize = 0;
        assert(f.subrange(0, f.len() as int) =~= f);
        while i < root.children.len()
            invariant
                i <= root.children@.len(),
                f == models(root.children@),
                root.model().children == f,
                root.val != *hash,
                find_forest(f, *hash) == find_forest(f.subrange(i as int, f.len() as int), *hash),
            decreases root.children@.len() - i,
        {
            let ghost rest = f.subrange(i as int, f.len() as int);
            assert(rest[0] == f[i as int]);
            match Self::get_node_by_hash(&root.children[i], hash) {
                Some(node) => {
                    assert(f[i as int] == root.children@[i as int].model());
                    return Some(node);
                }
                None => {
                    assert(rest.subrange(1, rest.len() as int) =~= f.subrange(i + 1, f.len() as int));
                }
            }
            i = i + 1;
        }
        assert(f.subrange(i as int, f.len() as int) =~= Seq::<NodeModel>::empty());
        None
    }

    /// The leaves under the first node, in pre-order, holding `hash`.
    pub fn get_leaves_start_from(root: &Box<Node>, hash: &H256) -> (r: Option<Vec<H256>>)
        ensures
            r matches Some(v) ==> (find(root.model(), *hash) matches Some(n) && v@ == leaves(n)),
            r is None ==> find(root.model(), *hash) is None,
        decreases root,
    {
        proof {
            lemma_model_children(root);
            crate::hash::lemma_h256_view_eq(root.val, *hash);
        }
        if root.val.equals(hash) {
            return Some(Self::get_leaves(root));
        }
        let ghost f = models(root.children@);
        let mut i: usize = 0;
        assert(f.subrange(0, f.len() as int) =~= f);
        while i < root.children.len()
            invariant
                i <= root.children@.len(),
                f == models(root.children@),
                root.model().children == f,
                root.val != *hash,
                find_forest(f, *hash) == find_forest(f.subrange(i as int, f.len() as int), *hash),
            decreases root.children@.len() - i,
        {
            let ghost rest = f.subrange(i as int, f.len() as int);
            assert(rest[0] == f[i as int]);
            match Self::get_leaves_start_from(&root.children[i], hash) {
                Some(l) => {
                    assert(f[i as int] == root.children@[i as int].model());
                    return Some(l);
                }
                None => {
                    assert(rest.subrange(1, rest.len() as int) =~= f.subrange(i + 1, f.len() as int));
                }
            }
            i = i + 1;
        }
        assert(f.subrange(i as int, f.len() as int) =~= Seq::<NodeModel>::empty());
        None
    }

    /// Inserts `hash` as a child of the first node, in pre-order, holding
    /// `parent`, and returns the node that holds `hash` there; a child that
    /// already holds `hash` is returned as it is. `None` when no node holds
    /// `parent`.
    pub fn insert(root: &mut Box<Node>, parent: &H256, hash: H256, k: usize) -> (r: Option<Box<Node>>)
        requires
            max_height(old(root).model()) < usize::MAX,
        ensures
            ins(old(root).model(), *parent, hash) == (final(root).model(), opt_model(r)),
        decreases old(root).model(),
    {
        proof {
            lemma_model_children(root);
        }
        let ghost m0 = root.model();
        let ghost f = models(root.children@);
        if root.val.equals(parent) {
            let mut i: usize = 0;
            while i < root.children.len()
                invariant
                    i <= root.children@.len(),
                    f == models(root.children@),
                    m0.children == f,
                    m0 == old(root).model(),
                    root.model() == m0,
                    m0.val == *parent,
                    child_index(f.subrange(0, i as int), hash) is None,
                decreases root.children@.len() - i,
            {
                let ghost g = f.subrange(0, i + 1);
                assert(g.subrange(0, g.len() - 1) =~= f.subrange(0, i as int));
                if root.children[i].val.equals(&hash) {
                    proof {
                        lemma_child_index_extend(f, hash, i + 1, i as int);
                    }
                    return Some(Self::duplicate(&root.children[i]));
                }
                i = i + 1;
            }
            assert(f.subrange(0, i as int) =~= f);
            let height = root.height + 1;
            let new_node = Box::new(Node { val: hash, children: Vec::new(), height, longest_height: height });
            let copy = Self::duplicate(&new_node);
            root.children.push(copy);
            if new_node.longest_height > root.longest_height {
                root.longest_height = new_node.longest_height;
            }
            proof {
                lemma_model_children(root);
                lemma_model_children(&*new_node);
                assert(new_node.model().children =~= Seq::<NodeModel>::empty());
                assert(new_node.model() == leaf(hash, m0.height + 1));
                assert(models(root.children@) =~= f.push(leaf(hash, m0.height + 1)));
            }
            Some(new_node)
        } else {
            let mut i: usize = 0;
            assert(f.subrange(0, 0) + f.subrange(0, f.len() as int) =~= f);
            while i < root.children.len()
                invariant
                    i <= root.children@.len(),
                    f == models(root.children@),
                    m0 == old(root).model(),
                    m0.children == f,
                    m0.val != *parent,
                    max_height(m0) < usize::MAX,
                    root.val == m0.val,
                    root.height == m0.height,
                    root.longest_height == m0.longest_height,
                    ins_forest(f, *parent, hash) == (
                        f.subrange(0, i as int) + ins_forest(f.subrange(i as int, f.len() as int), *parent, hash).0,
                        ins_forest(f.subrange(i as int, f.len() as int), *parent, hash).1,
                    ),
                decreases root.children@.len() - i,
            {
                let ghost rest = f.subrange(i as int, f.len() as int);
                let ghost before = root.children@;
                let mut c = root.children.remove(i);
                proof {
                    assert(c == before[i as int]);
                    assert(c.model() == f[i as int]);
                    lemma_max_forest_ge(f, i as int);
                    assert(decreases_to!(m0 => m0.children[i as int]));
                    assert(rest[0] == f[i as int]);
                    assert(rest.subrange(1, rest.len() as int) =~= f.subrange(i + 1, f.len() as int));
                }
                let r = Self::insert(&mut c, parent, hash, k);
                root.children.insert(i, c);
                match r {
                    Some(n) => {
                        if n.longest_height > root.longest_height {
                            root.longest_height = n.longest_height;
                        }
                        proof {
                            lemma_model_children(root);
                            assert(models(root.children@) =~= f.subrange(0, i as int) + (seq![c.model()]
                                + f.subrange(i + 1, f.len() as int)));
                        }
                        return Some(n);
                    }
                    None => {
                        proof {
                            lemma_ins_none(f[i as int], *parent, hash);
                            assert(models(root.children@) =~= f);
                            assert(f.subrange(0, i as int) + (seq![f[i as int]] + ins_forest(
                                f.subrange(i + 1, f.len() as int), *parent, hash).0) =~= f.subrange(0, i + 1)
                                + ins_forest(f.subrange(i + 1, f.len() as int), *parent, hash).0);
                        }
                    }
                }
                i = i + 1;
            }
            proof {
                assert(f.subrange(i as int, f.len() as int) =~= Seq::<NodeModel>::empty());
                assert(f.subrange(0, i as int) + Seq::<NodeModel>::empty() =~= f);
                lemma_model_children(root);
            }
            None
        }
    }


    /// Index of the first child holding `hash`.
    fn first_child_with(children: &Vec<Box<Node>>, hash: &H256) -> (r: Option<usize>)
        ensures
            r matches Some(i) ==> child_index(models(children@), *hash) == Some(i as int) && i < children@.len(),
            r is None ==> child_index(models(children@), *hash) is None,
    {
        let ghost f = models(children@);
        let mut i: usize = 0;
        while i < children.len()
            invariant
                i <= children@.len(),
                f == models(children@),
                child_index(f.subrange(0, i as int), *hash) is None,
            decreases children@.len() - i,
        {
            let ghost g = f.subrange(0, i + 1);
            assert(g.subrange(0, g.len() - 1) =~= f.subrange(0, i as int));
            if children[i].val.equals(hash) {
                proof {
                    lemma_child_index_extend(f, *hash, i + 1, i as int);
                }
                return Some(i);
            }
            i = i + 1;
        }
        assert(f.subrange(0, i as int) =~= f);
        None
    }

    /// The children that do not hold `hash`, in order.
    fn remove_children_with(children: Vec<Box<Node>>, hash: &H256) -> (r: Vec<Box<Node>>)
        ensures
            models(r@) == without(models(children@), *hash),
    {
        let ghost f = models(children@);
        let ghost n = children@.len();
        let mut rest = children;
        let mut kept: Vec<Box<Node>> = Vec::new();
        assert(f.subrange(0, 0) =~= Seq::<NodeModel>::empty());
        assert(f.subrange(0, n as int) =~= f);
        while rest.len() > 0
            invariant
                rest@.len() <= n,
                models(rest@) == f.subrange(n - rest@.len(), n as int),
                models(kept@) == without(f.subrange(0, n - rest@.len()), *hash),
                f.len() == n,
            decreases rest@.len(),
        {
            let ghost j = n - rest@.len();
            let ghost before = rest@;
            let c = rest.remove(0);
            proof {
                assert(c == before[0]);
                assert(models(before)[0] == f[j]);
                assert forall|k: int| 0 <= k < rest@.len() implies #[trigger] models(rest@)[k] == f[j + 1 + k] by {
                    assert(rest@[k] == before[k + 1]);
                    assert(models(before)[k + 1] == f.subrange(j, n as int)[k + 1]);
                }
                assert(models(rest@) =~= f.subrange(j + 1, n as int));
                let g = f.subrange(0, j + 1);
                assert(g.subrange(0, g.len() - 1) =~= f.subrange(0, j));
            }
            if !c.val.equals(hash) {
                kept.push(c);
                proof {
                    assert(models(kept@) =~= without(f.subrange(0, j), *hash).push(f[j]));
                }
            }
        }
        kept
    }

    /// Cuts off the subtrees holding `hash` under the first node, in
    /// pre-order, that has such a child, and returns the values of the first
    /// subtree cut off. `None` when no node has such a child.
    pub fn prune(root: &mut Box<Node>, hash: &H256) -> (r: Option<Vec<H256>>)
        ensures
            pruned(old(root).model(), *hash) == (final(root).model(), opt_hashes(r)),
        decreases old(root).model(),
    {
        proof {
            lemma_model_children(root);
        }
        let ghost m0 = root.model();
        let ghost f = models(root.children@);
        if root.children.len() == 0 {
            return None;
        }
        match Self::first_child_with(&root.children, hash) {
            Some(i) => {
                let deleted = Self::pre_traverse(&root.children[i]);
                let mut children: Vec<Box<Node>> = Vec::new();
                std::mem::swap(&mut children, &mut root.children);
                root.children = Self::remove_children_with(children, hash);
                let lh = Self::get_longest_height(&*root);
                root.longest_height = lh;
                proof {
                    lemma_model_children(root);
                }
                Some(deleted)
            }
            None => {
                let mut i: usize = 0;
                assert(f.subrange(0, 0) + f.subrange(0, f.len() as int) =~= f);
                while i < root.children.len()
                    invariant
                        i <= root.children@.len(),
                        f == models(root.children@),
                        m0 == old(root).model(),
                        m0.children == f,
                        f.len() > 0,
                        child_index(f, *hash) is None,
                        root.val == m0.val,
                        root.height == m0.height,
                        root.longest_height == m0.longest_height,
                        pruned_forest(f, *hash) == (
                            f.subrange(0, i as int) + pruned_forest(f.subrange(i as int, f.len() as int), *hash).0,
                            pruned_forest(f.subrange(i as int, f.len() as int), *hash).1,
                        ),
                    decreases root.children@.len() - i,
                {
                    let ghost rest = f.subrange(i as int, f.len() as int);
                    let ghost before = root.children@;
                    let mut c = root.children.remove(i);
                    proof {
                        assert(c == before[i as int]);
                        assert(c.model() == f[i as int]);
                        assert(decreases_to!(m0 => m0.children[i as int]));
                        assert(rest[0] == f[i as int]);
                        assert(rest.subrange(1, rest.len() as int) =~= f.subrange(i + 1, f.len() as int));
                    }
                    let r = Self::prune(&mut c, hash);
                    root.children.insert(i, c);
                    match r {
                        Some(v) => {
                            let lh = Self::get_longest_height(&*root);
                            root.longest_height = lh;
                            proof {
                                lemma_model_children(root);
                                assert(models(root.children@) =~= f.subrange(0, i as int) + (seq![c.model()]
                                    + f.subrange(i + 1, f.len() as int)));
                            }
                            return Some(v);
                        }
                        None => {
                            proof {
                                lemma_pruned_none(f[i as int], *hash);
                                assert(models(root.children@) =~= f);
                                assert(f.subrange(0, i as int) + (seq![f[i as int]] + pruned_forest(
                                    f.subrange(i + 1, f.len() as int), *hash).0) =~= f.subrange(0, i + 1)
                                    + pruned_forest(f.subrange(i + 1, f.len() as int), *hash).0);
                            }
                        }
                    }
                    i = i + 1;
                }
                proof {
                    assert(f.subrange(i as int, f.len() as int) =~= Seq::<NodeModel>::empty());
                    assert(f.subrange(0, i as int) + Seq::<NodeModel>::empty() =~= f);
                    lemma_model_children(root);
                }
                None
            }
        }
    }

}

} // verus!
