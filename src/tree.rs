use vstd::prelude::*;
use vstd::set_lib::{lemma_int_range, lemma_set_subset_finite, set_int_range};

use crate::node::{strictly_sorted, BTreeNode};

verus! {

/// A minimum degree that the tree cannot be built with: below two, or so
/// large that a node's capacity `2t - 1` would not fit in a `usize`.
pub struct DegreeError {
    pub t: usize,
}

/// A B-tree of distinct `i32` keys. Inserting a key that is already present
/// leaves the tree unchanged.
pub struct BTree {
    root: Option<Box<BTreeNode>>,
    t: usize,
}

/// A read-only copy of one node's shape, for display.
pub struct NodeSnapshot {
    pub keys: Vec<i32>,
    pub children: Vec<NodeSnapshot>,
    pub is_leaf: bool,
}

impl NodeSnapshot {
    /// The snapshot has the keys, leaf flag and (recursively) children of `node`.
    pub open spec fn mirrors(self, node: BTreeNode) -> bool
        decreases self, self.children@.len() + 1,
    {
        &&& self.keys@ == node.key_seq()
        &&& self.is_leaf == node.is_leaf()
        &&& self.children@.len() == node.child_seq().len()
        &&& self.mirrors_from(node, 0)
    }

    /// Children `i` onwards of the snapshot mirror those of `node`.
    pub open spec fn mirrors_from(self, node: BTreeNode, i: nat) -> bool
        decreases self, self.children@.len() - i,
    {
        if i < self.children@.len() && i < node.child_seq().len() {
            self.children@[i as int].mirrors(*node.child_seq()[i as int]) && self.mirrors_from(node, i + 1)
        } else {
            true
        }
    }

    proof fn lemma_mirrors_from(self, node: BTreeNode, i: nat)
        requires
            self.children@.len() == node.child_seq().len(),
            forall|j: int| i <= j < self.children@.len() ==> #[trigger] self.children@[j].mirrors(*node.child_seq()[j]),
        ensures
            self.mirrors_from(node, i),
        decreases self.children@.len() - i,
    {
        if i < self.children@.len() {
            self.lemma_mirrors_from(node, i + 1);
            assert(self.mirrors_from(node, i) == (self.children@[i as int].mirrors(*node.child_seq()[i as int])
                && self.mirrors_from(node, i + 1)));
        }
    }
}

/// The keys stored under an optional root.
pub open spec fn keys_of(root: Option<Box<BTreeNode>>) -> Set<i32> {
    match root {
        None => Set::empty(),
        Some(r) => Set::new(|x: i32| r.has(x as int)),
    }
}

/// The height of the tree under an optional root; zero when there is none.
pub open spec fn height_of(root: Option<Box<BTreeNode>>) -> nat {
    match root {
        None => 0,
        Some(r) => r.height(),
    }
}

/// A root is either absent, or a well-formed node of degree `t` with at least one key.
pub open spec fn root_wf(root: Option<Box<BTreeNode>>, t: nat) -> bool {
    match root {
        None => true,
        Some(r) => r.wf() && r.degree() == t && r.key_seq().len() >= 1,
    }
}

/// Every set of `i32` keys is finite.
pub proof fn lemma_i32_set_finite(s: Set<i32>)
    ensures
        s.finite(),
{
    let range = set_int_range(i32::MIN as int, i32::MAX as int + 1);
    lemma_int_range(i32::MIN as int, i32::MAX as int + 1);
    let all = range.map(|x: int| x as i32);
    range.lemma_map_finite(|x: int| x as i32);
    assert forall|x: i32| s.contains(x) implies all.contains(x) by {
        assert(range.contains(x as int));
        assert((x as int) as i32 == x);
    }
    lemma_set_subset_finite(all, s);
}

impl View for BTree {
    type V = Set<i32>;

    closed spec fn view(&self) -> Set<i32> {
        keys_of(self.root)
    }
}

impl BTree {
    /// The minimum degree the tree was built with.
    pub closed spec fn degree(self) -> nat {
        self.t as nat
    }

    /// Levels from the root to the leaves; zero for an empty tree.
    pub closed spec fn height(self) -> nat {
        height_of(self.root)
    }

    /// The root node, absent for an empty tree.
    pub closed spec fn root_node(self) -> Option<Box<BTreeNode>> {
        self.root
    }

    /// The tree invariant: a valid degree and a well-formed root.
    pub closed spec fn wf(self) -> bool {
        &&& 2 <= self.t <= usize::MAX / 2
        &&& root_wf(self.root, self.t as nat)
    }

    /// An empty tree of minimum degree `t`.
    pub fn new(t: usize) -> (r: Self)
        requires
            2 <= t <= usize::MAX / 2,
        ensures
            r.wf(),
            r.degree() == t,
            r@ == Set::<i32>::empty(),
            r.root_node() is None,
    {
        BTree { root: None, t }
    }

    /// An empty tree of minimum degree `t`, or an error when `t` is unusable.
    pub fn try_new(t: usize) -> (r: Result<Self, DegreeError>)
        ensures
            r is Ok <==> 2 <= t <= usize::MAX / 2,
            r matches Ok(tree) ==> tree.wf() && tree.degree() == t && tree@ == Set::<i32>::empty(),
            r matches Err(e) ==> e.t == t,
    {
        if t < 2 || t > usize::MAX / 2 {
            Err(DegreeError { t })
        } else {
            Ok(BTree::new(t))
        }
    }

    /// Whether the root holds the most keys a node may hold, `2t - 1`.
    pub closed spec fn root_full(self) -> bool {
        match self.root {
            Some(r) => r.key_seq().len() == 2 * self.t - 1,
            None => false,
        }
    }

    /// A well-formed tree holds finitely many keys, has a root exactly when
    /// it holds one, and has height zero exactly when it has no root.
    pub proof fn lemma_view(self)
        requires
            self.wf(),
        ensures
            self@.finite(),
            self.root_node() is None <==> self@ == Set::<i32>::empty(),
            self.root_node() is None <==> self.height() == 0,
            self.root_node() matches Some(r) ==> forall|x: i32| #[trigger] self@.contains(x) == r.has(x as int),
            self.root_node() matches Some(r) ==> self.height() == r.height(),
            self.root_node() matches Some(r) ==> self.root_full() == (r.key_seq().len() == 2 * self.degree() - 1),
    {
        lemma_i32_set_finite(self@);
        if let Some(r) = self.root {
            r.lemma_wf();
        }
        if let Some(r) = self.root {
            r.lemma_key_in_tree(0);
            assert(self@.contains(r.key_seq()[0]));
        } else {
            assert(self@ =~= Set::<i32>::empty());
        }
    }
}

impl BTree {
    /// The keys in increasing order.
    pub fn traverse(&self) -> (r: Vec<i32>)
        requires
            self.wf(),
        ensures
            strictly_sorted(r@),
            r@.to_set() == self@,
    {
        match &self.root {
            Some(root) => {
                let r = root.traverse();
                assert(r@.to_set() =~= self@);
                r
            },
            None => {
                let r: Vec<i32> = Vec::new();
                assert(r@.to_set() =~= self@);
                r
            },
        }
    }

    /// Whether `k` is in the tree.
    pub fn search(&self, k: i32) -> (r: bool)
        requires
            self.wf(),
        ensures
            r == self@.contains(k),
    {
        match &self.root {
            Some(root) => root.search(k).is_some(),
            None => false,
        }
    }

    /// Adds `k` to the tree, splitting full nodes on the way down. A key
    /// that is already present is not added again.
    pub fn insert(&mut self, k: i32)
        requires
            old(self).wf(),
        ensures
            final(self).wf(),
            final(self).degree() == old(self).degree(),
            final(self)@ == old(self)@.insert(k),
            old(self)@.contains(k) ==> *final(self) == *old(self),
            !old(self)@.contains(k) ==> final(self).height() == if old(self).height() == 0 {
                1
            } else if old(self).root_full() {
                old(self).height() + 1
            } else {
                old(self).height()
            },
            !old(self)@.contains(k) && old(self).height() == 0 ==> final(self).root_node() is Some
                && final(self).root_node().unwrap().key_seq() == seq![k],
            !old(self)@.contains(k) && old(self).root_full() ==> final(self).root_node() is Some
                && final(self).root_node().unwrap().key_seq() == seq![
                old(self).root_node().unwrap().key_seq()[old(self).degree() - 1]],
    {
        if self.search(k) {
            proof {
                assert(self@.insert(k) =~= self@);
            }
            return;
        }
        match self.root.take() {
            None => {
                let mut new_root = BTreeNode::new(self.t, true);
                proof {
                    new_root.lemma_wf();
                    assert(new_root.in_range(0, k as int));
                }
                new_root.insert_not_full(k);
                self.root = Some(Box::new(new_root));
                proof {
                    assert(self@ =~= old(self)@.insert(k));
                }
            },
            Some(root) => {
                let root = *root;
                proof {
                    root.lemma_wf();
                    old(self).lemma_view();
                    assert(!root.has(k as int));
                }
                if root.is_full() {
                    let mut s = BTreeNode::new(self.t, false);
                    s.add_child(Box::new(root));
                    s.split_child(0);
                    let ghost mid = s;
                    proof {
                        mid.lemma_wf();
                        assert(mid.key_seq() =~= seq![root.key_seq()[self.t - 1]]);
                        mid.lemma_wf_child(0);
                        mid.lemma_wf_child(1);
                        if k < mid.key_seq()[0] {
                            assert(mid.in_range(0, k as int));
                        } else {
                            assert(k != mid.key_seq()[0]) by {
                                mid.lemma_key_in_tree(0);
                            }
                            assert(mid.in_range(1, k as int));
                        }
                    }
                    s.insert_not_full(k);
                    self.root = Some(Box::new(s));
                } else {
                    let mut root = root;
                    root.insert_not_full(k);
                    self.root = Some(Box::new(root));
                }
                proof {
                    assert(self@ =~= old(self)@.insert(k));
                }
            },
        }
    }

    /// Removes `k` from the tree, rebalancing on the way down, and reports
    /// whether it was there. A tree without `k` is left exactly as it was.
    pub fn delete(&mut self, k: i32) -> (r: bool)
        requires
            old(self).wf(),
        ensures
            final(self).wf(),
            final(self).degree() == old(self).degree(),
            r == old(self)@.contains(k),
            final(self)@ == old(self)@.remove(k),
            !r ==> *final(self) == *old(self),
            final(self).height() <= old(self).height(),
            final(self).height() + 1 >= old(self).height(),
            final(self)@ == Set::<i32>::empty() ==> final(self).height() == 0 && final(self).root_node() is None,
    {
        if !self.search(k) {
            proof {
                assert(self@.remove(k) =~= self@);
                self.lemma_view();
            }
            return false;
        }
        match self.root.take() {
            None => false,
            Some(root) => {
                let mut root = *root;
                let ghost before = root;
                proof {
                    before.lemma_wf();
                }
                let r = root.delete(k);
                if root.keys_len() == 0 {
                    proof {
                        root.lemma_no_keys();
                    }
                    if root.leaf() {
                        self.root = None;
                        proof {
                            assert forall|x: i32| !#[trigger] old(self)@.remove(k).contains(x) by {
                                assert(!root.has(x as int));
                            }
                            assert(self@ =~= old(self)@.remove(k));
                        }
                    } else {
                        proof {
                            root.lemma_wf_child(0);
                        }
                        let ghost child = *root.child_seq()[0];
                        let mut children = root.into_children();
                        self.root = children.pop();
                        proof {
                            assert(self.root == Some(Box::new(child)));
                            assert forall|x: i32| #[trigger] self@.contains(x) == old(self)@.remove(k).contains(x) by {
                                assert(root.has(x as int) == child.has(x as int));
                            }
                            assert(self@ =~= old(self)@.remove(k));
                        }
                    }
                } else {
                    self.root = Some(Box::new(root));
                    proof {
                        assert(self@ =~= old(self)@.remove(k));
                    }
                }
                proof {
                    self.lemma_view();
                    before.lemma_wf();
                }
                r
            },
        }
    }

    /// The number of keys under `node`.
    fn count_keys(&self, node: &Option<Box<BTreeNode>>) -> (r: usize)
        requires
            root_wf(*node, self.t as nat),
        ensures
            r == keys_of(*node).len(),
    {
        match node {
            Some(n) => {
                let all = n.traverse();
                proof {
                    assert(all@.to_set() =~= keys_of(*node));
                    assert(all@.no_duplicates()) by {
                        assert forall|a: int, b: int| 0 <= a < all@.len() && 0 <= b < all@.len() && a != b
                            implies all@[a] != all@[b] by {
                            if a < b {
                                assert(all@[a] < all@[b]);
                            } else {
                                assert(all@[b] < all@[a]);
                            }
                        }
                    }
                    all@.unique_seq_to_set();
                }
                all.len()
            },
            None => {
                proof {
                    assert(keys_of(*node) =~= Set::<i32>::empty());
                }
                0
            },
        }
    }

    /// The total number of keys in the tree.
    pub fn get_total_keys(&self) -> (r: usize)
        requires
            self.wf(),
        ensures
            r == self@.len(),
    {
        self.count_keys(&self.root)
    }

    /// Levels from `node` down to its leaves; zero when there is no node.
    fn get_node_height(&self, node: &Option<Box<BTreeNode>>) -> (r: usize)
        requires
            root_wf(*node, self.t as nat),
        ensures
            r == height_of(*node),
    {
        match node {
            Some(n) => {
                proof {
                    n.lemma_wf();
                    n.lemma_height_bound();
                }
                let mut cur: &BTreeNode = n;
                let mut h: usize = 1;
                while !cur.leaf()
                    invariant
                        cur.wf(),
                        h + cur.height() == n.height() + 1,
                        n.height() <= u32::MAX,
                    decreases cur.height(),
                {
                    proof {
                        cur.lemma_wf();
                        cur.lemma_wf_child(0);
                    }
                    cur = &cur.children()[0];
                    h += 1;
                }
                proof {
                    cur.lemma_wf();
                }
                h
            },
            None => 0,
        }
    }

    /// Levels from the root to the leaves; zero for an empty tree.
    pub fn get_height(&self) -> (r: usize)
        requires
            self.wf(),
        ensures
            r == self.height(),
    {
        self.get_node_height(&self.root)
    }

    /// A snapshot of `node` and everything below it.
    fn node_to_snapshot(&self, node: &BTreeNode) -> (r: NodeSnapshot)
        requires
            node.wf(),
        ensures
            r.mirrors(*node),
        decreases node.height(),
    {
        proof {
            node.lemma_wf();
        }
        let kids = node.children();
        let mut children: Vec<NodeSnapshot> = Vec::new();
        let mut i: usize = 0;
        while i < kids.len()
            invariant
                node.wf(),
                kids@ == node.child_seq(),
                i <= kids@.len(),
                children@.len() == i,
                forall|j: int| 0 <= j < i ==> #[trigger] children@[j].mirrors(*node.child_seq()[j]),
            decreases kids@.len() - i,
        {
            proof {
                node.lemma_wf_child(i as int);
            }
            let c = self.node_to_snapshot(&kids[i]);
            children.push(c);
            i += 1;
        }
        let r = NodeSnapshot { keys: node.keys(), children, is_leaf: node.leaf() };
        proof {
            r.lemma_mirrors_from(*node, 0);
        }
        r
    }

    /// A snapshot of the whole tree's shape, or `None` for an empty tree.
    pub fn get_structure(&self) -> (r: Option<NodeSnapshot>)
        requires
            self.wf(),
        ensures
            self.root_node() is None ==> r is None,
            self.root_node() matches Some(n) ==> r matches Some(s) && s.mirrors(*n),
    {
        match &self.root {
            Some(root) => Some(self.node_to_snapshot(root)),
            None => None,
        }
    }
}

} // verus!
