use vstd::prelude::*;

verus! {

broadcast use vstd::std_specs::vec::group_vec_axioms;

/// The sequence is strictly increasing.
pub open spec fn strictly_sorted(s: Seq<i32>) -> bool {
    forall|a: int, b: int| 0 <= a < b < s.len() ==> s[a] < s[b]
}

/// One node of a B-tree: an ordered run of keys and, for an internal node,
/// one more child than it has keys.
pub struct BTreeNode {
    keys: Vec<i32>,
    children: Vec<Box<BTreeNode>>,
    t: usize,
    leaf: bool,
}

impl BTreeNode {
    /// The keys stored in this node itself, in order.
    pub closed spec fn key_seq(self) -> Seq<i32> {
        self.keys@
    }

    /// The children of this node, in order; empty for a leaf.
    pub closed spec fn child_seq(self) -> Seq<Box<BTreeNode>> {
        self.children@
    }

    /// The minimum degree `t`: non-root nodes hold `t - 1` to `2t - 1` keys.
    pub closed spec fn degree(self) -> nat {
        self.t as nat
    }

    /// Whether this node has no children.
    pub closed spec fn is_leaf(self) -> bool {
        self.leaf
    }

    /// Whether `k` is stored in this node or anywhere below it.
    pub closed spec fn has(self, k: int) -> bool
        decreases self, self.child_seq().len() + 1,
    {
        self.keys@.contains(k as i32) && i32::MIN <= k <= i32::MAX || self.has_below(0, k)
    }

    /// Whether `k` is stored under one of the children from index `i` on.
    closed spec fn has_below(self, i: nat, k: int) -> bool
        decreases self, self.child_seq().len() - i,
    {
        if i < self.children@.len() {
            self.children@[i as int].has(k) || self.has_below(i + 1, k)
        } else {
            false
        }
    }

    /// Number of levels from this node down to a leaf, this node included.
    pub closed spec fn height(self) -> nat
        decreases self,
    {
        if self.children@.len() == 0 {
            1
        } else {
            1 + self.children@[0].height()
        }
    }

    /// The B-tree invariants for the subtree rooted at this node. Every node
    /// below this one holds at least `t - 1` keys; this node itself may hold
    /// fewer (it may be a root).
    #[verifier::opaque]
    pub closed spec fn wf(self) -> bool
        decreases self,
    {
        &&& 2 <= self.t <= usize::MAX / 2
        &&& self.keys@.len() <= 2 * self.t - 1
        &&& strictly_sorted(self.keys@)
        &&& self.leaf == (self.children@.len() == 0)
        &&& !self.leaf ==> self.children@.len() == self.keys@.len() + 1
        &&& forall|i: int|
            0 <= i < self.children@.len() ==> {
                &&& (#[trigger] self.children@[i]).wf()
                &&& self.children@[i].t == self.t
                &&& self.children@[i].keys@.len() >= self.t - 1
                &&& self.children@[i].height() + 1 == self.height()
            }
        &&& forall|i: int, k: int|
            0 <= i < self.children@.len() && #[trigger] self.children@[i].has(k) ==> {
                &&& i < self.keys@.len() ==> k < self.keys@[i]
                &&& i > 0 ==> self.keys@[i - 1] < k
            }
    }
}

impl BTreeNode {
    proof fn lemma_has_below(self, i: nat, k: int)
        ensures
            self.has_below(i, k) <==> exists|j: int|
                i <= j < self.children@.len() && #[trigger] self.children@[j].has(k),
        decreases self.children@.len() - i,
    {
        if i < self.children@.len() {
            assert(self.has_below(i, k) == (self.children@[i as int].has(k) || self.has_below(i + 1, k)));
            self.lemma_has_below(i + 1, k);
            if self.has_below(i + 1, k) {
                let j = choose|j: int| i + 1 <= j < self.children@.len() && #[trigger] self.children@[j].has(k);
                assert(i <= j < self.children@.len() && self.children@[j].has(k));
            }
            if exists|j: int| i <= j < self.children@.len() && #[trigger] self.children@[j].has(k) {
                let j = choose|j: int| i <= j < self.children@.len() && #[trigger] self.children@[j].has(k);
                if j > i {
                    assert(i + 1 <= j < self.children@.len() && self.children@[j].has(k));
                }
            }
        }
    }

    /// `has`, spelled out over keys and children.
    broadcast proof fn lemma_has(self, k: int)
        ensures
            #[trigger] self.has(k) <==> (exists|j: int|
                0 <= j < self.keys@.len() && self.keys@[j] == k) || (exists|j: int|
                0 <= j < self.children@.len() && #[trigger] self.children@[j].has(k)),
    {
        self.lemma_has_below(0, k);
        if exists|j: int| 0 <= j < self.keys@.len() && self.keys@[j] == k {
            let j = choose|j: int| 0 <= j < self.keys@.len() && self.keys@[j] == k;
            assert(self.keys@.contains(self.keys@[j]));
        }
    }

    /// The node-local facts of well-formedness.
    pub proof fn lemma_wf(self)
        requires
            self.wf(),
        ensures
            2 <= self.degree() <= usize::MAX / 2,
            self.key_seq().len() <= 2 * self.degree() - 1,
            strictly_sorted(self.key_seq()),
            self.is_leaf() == (self.child_seq().len() == 0),
            !self.is_leaf() ==> self.child_seq().len() == self.key_seq().len() + 1,
            self.is_leaf() ==> self.height() == 1,
            !self.is_leaf() ==> self.height() > 1,
    {
        reveal_with_fuel(BTreeNode::wf, 1);
    }

    /// What well-formedness says of child `i`.
    pub proof fn lemma_wf_child(self, i: int)
        requires
            self.wf(),
            0 <= i < self.child_seq().len(),
        ensures
            self.child_seq()[i].wf(),
            self.child_seq()[i].degree() == self.degree(),
            self.child_seq()[i].key_seq().len() >= self.degree() - 1,
            self.child_seq()[i].height() + 1 == self.height(),
            forall|x: int| #[trigger] self.child_seq()[i].has(x) ==> self.in_range(i, x),
    {
        reveal_with_fuel(BTreeNode::wf, 1);
    }

    /// A key strictly between the separators around child `i` lies in the
    /// subtree exactly when it lies in child `i`.
    proof fn lemma_descend(self, i: int, k: int)
        requires
            self.wf(),
            !self.leaf,
            0 <= i <= self.keys@.len(),
            i < self.keys@.len() ==> k < self.keys@[i],
            i > 0 ==> self.keys@[i - 1] < k,
        ensures
            self.has(k) <==> self.children@[i].has(k),
    {
        reveal_with_fuel(BTreeNode::wf, 1);
        broadcast use BTreeNode::lemma_has;
        if self.has(k) && !self.children@[i].has(k) {
            assert(self.has(k) == ((exists|j: int| 0 <= j < self.keys@.len() && self.keys@[j] == k)
                || (exists|j: int| 0 <= j < self.children@.len() && #[trigger] self.children@[j].has(k))));
            if exists|j: int| 0 <= j < self.keys@.len() && self.keys@[j] == k {
                let j = choose|j: int| 0 <= j < self.keys@.len() && self.keys@[j] == k;
                if j < i {
                    assert(j == i - 1 || self.keys@[j] < self.keys@[i - 1]);
                } else {
                    assert(j == i || self.keys@[j] > self.keys@[i]);
                }
            } else {
                let j = choose|j: int| 0 <= j < self.children@.len() && #[trigger] self.children@[j].has(k);
                if j < i {
                    assert(k < self.keys@[j]);
                    assert(j == i - 1 || self.keys@[j] < self.keys@[i - 1]);
                } else {
                    assert(self.keys@[j - 1] < k);
                    assert(j - 1 == i || self.keys@[j - 1] > self.keys@[i]);
                }
            }
        }
    }

    /// Index of the first key that is not below `k`.
    fn find_key_index(&self, k: i32) -> (r: usize)
        ensures
            r <= self.keys@.len(),
            forall|j: int| 0 <= j < r ==> self.keys@[j] < k,
            r < self.keys@.len() ==> self.keys@[r as int] >= k,
    {
        let mut i: usize = 0;
        while i < self.keys.len() && k > self.keys[i]
            invariant
                i <= self.keys@.len(),
                forall|j: int| 0 <= j < i ==> self.keys@[j] < k,
            decreases self.keys@.len() - i,
        {
            i += 1;
        }
        i
    }

    /// Finds the node that stores `k`, looking in this subtree.
    pub fn search(&self, k: i32) -> (r: Option<&BTreeNode>)
        requires
            self.wf(),
        ensures
            r.is_some() == self.has(k as int),
            r matches Some(n) ==> n.key_seq().contains(k),
        decreases self,
    {
        proof {
            self.lemma_wf();
        }
        let i = self.find_key_index(k);
        if i < self.keys.len() && self.keys[i] == k {
            assert(self.keys@[i as int] == k);
            return Some(self);
        }
        if self.leaf {
            proof {
                broadcast use BTreeNode::lemma_has;
            }
            return None;
        }
        proof {
            self.lemma_descend(i as int, k as int);
        }
        proof {
            self.lemma_wf_child(i as int);
        }
        self.children[i].search(k)
    }
}

impl BTreeNode {
    /// `j` is `y` and `z` joined around the key `m`.
    pub open spec fn joins(j: BTreeNode, y: BTreeNode, m: i32, z: BTreeNode) -> bool {
        &&& j.key_seq() == y.key_seq() + seq![m] + z.key_seq()
        &&& j.child_seq() == y.child_seq() + z.child_seq()
        &&& j.degree() == y.degree() && y.degree() == z.degree()
        &&& j.is_leaf() == y.is_leaf() && y.is_leaf() == z.is_leaf()
        &&& y.child_seq().len() == (if y.is_leaf() { 0 } else { y.key_seq().len() + 1 })
        &&& z.child_seq().len() == (if z.is_leaf() { 0 } else { z.key_seq().len() + 1 })
    }

    /// Everything in `y` lies below `m`, everything in `z` above it.
    pub open spec fn separated(y: BTreeNode, m: i32, z: BTreeNode) -> bool {
        &&& forall|x: int| #[trigger] y.has(x) ==> x < m
        &&& forall|x: int| #[trigger] z.has(x) ==> x > m
    }

    proof fn lemma_join_has(j: BTreeNode, y: BTreeNode, m: i32, z: BTreeNode)
        requires
            Self::joins(j, y, m, z),
        ensures
            forall|x: int| #[trigger] j.has(x) <==> (y.has(x) || x == m || z.has(x)),
    {
        broadcast use BTreeNode::lemma_has;
        let yk = y.keys@;
        let zk = z.keys@;
        let yc = y.children@;
        let zc = z.children@;
        let jk = j.keys@;
        let jc = j.children@;
        assert forall|x: int| #[trigger] j.has(x) <==> (y.has(x) || x == m || z.has(x)) by {
            if j.has(x) {
                if exists|q: int| 0 <= q < jc.len() && #[trigger] jc[q].has(x) {
                    let q = choose|q: int| 0 <= q < jc.len() && #[trigger] jc[q].has(x);
                    if q < yc.len() {
                        assert(yc[q] == jc[q]);
                    } else {
                        assert(zc[q - yc.len()] == jc[q]);
                    }
                } else {
                    let q = choose|q: int| 0 <= q < jk.len() && jk[q] == x;
                    if q < yk.len() {
                        assert(yk[q] == jk[q]);
                    } else if q > yk.len() {
                        assert(zk[q - yk.len() - 1] == jk[q]);
                    }
                }
            }
            if y.has(x) {
                if exists|q: int| 0 <= q < yc.len() && #[trigger] yc[q].has(x) {
                    let q = choose|q: int| 0 <= q < yc.len() && #[trigger] yc[q].has(x);
                    assert(yc[q] == jc[q]);
                } else {
                    let q = choose|q: int| 0 <= q < yk.len() && yk[q] == x;
                    assert(yk[q] == jk[q]);
                }
            }
            if z.has(x) {
                if exists|q: int| 0 <= q < zc.len() && #[trigger] zc[q].has(x) {
                    let q = choose|q: int| 0 <= q < zc.len() && #[trigger] zc[q].has(x);
                    assert(zc[q] == jc[q + yc.len()]);
                } else {
                    let q = choose|q: int| 0 <= q < zk.len() && zk[q] == x;
                    assert(zk[q] == jk[q + yk.len() + 1]);
                }
            }
            if x == m {
                assert(jk[yk.len() as int] == m);
            }
        }
    }

    /// A joined node is well formed exactly when its two halves are, with
    /// the same height, separated by the middle key, and not over capacity.
    proof fn lemma_join_wf(j: BTreeNode, y: BTreeNode, m: i32, z: BTreeNode)
        requires
            Self::joins(j, y, m, z),
        ensures
            j.wf() ==> y.wf() && z.wf() && Self::separated(y, m, z) && y.height() == j.height()
                && z.height() == j.height(),
            y.wf() && z.wf() && Self::separated(y, m, z) && y.height() == z.height()
                && j.keys@.len() <= 2 * j.t - 1 ==> j.wf() && j.height() == y.height(),
    {
        reveal_with_fuel(BTreeNode::wf, 1);
        broadcast use BTreeNode::lemma_has;
        Self::lemma_join_has(j, y, m, z);
        let yk = y.keys@;
        let zk = z.keys@;
        let yc = y.children@;
        let zc = z.children@;
        let jk = j.keys@;
        let jc = j.children@;
        let ny = yk.len() as int;
        let t = j.t;
        assert forall|q: int| 0 <= q < yc.len() implies jc[q] == #[trigger] yc[q] by {}
        assert forall|q: int| 0 <= q < zc.len() implies jc[q + yc.len()] == #[trigger] zc[q] by {}
        assert forall|q: int| 0 <= q < yk.len() implies jk[q] == #[trigger] yk[q] by {}
        assert forall|q: int| 0 <= q < zk.len() implies jk[q + ny + 1] == #[trigger] zk[q] by {}
        assert(jk[ny] == m);
        if !j.leaf {
            assert(jc[0] == yc[0]);
            assert(jc[yc.len() as int] == zc[0]);
        }
        if j.wf() {
            assert(y.height() == j.height());
            assert(z.height() == j.height());
            assert forall|x: int| #[trigger] y.has(x) implies x < m by {
                if exists|q: int| 0 <= q < yc.len() && #[trigger] yc[q].has(x) {
                    let q = choose|q: int| 0 <= q < yc.len() && #[trigger] yc[q].has(x);
                    assert(jc[q].has(x));
                    assert(q == ny || jk[q] < jk[ny]);
                } else {
                    let q = choose|q: int| 0 <= q < yk.len() && yk[q] == x;
                    assert(jk[q] < jk[ny]);
                }
            }
            assert forall|x: int| #[trigger] z.has(x) implies x > m by {
                if exists|q: int| 0 <= q < zc.len() && #[trigger] zc[q].has(x) {
                    let q = choose|q: int| 0 <= q < zc.len() && #[trigger] zc[q].has(x);
                    assert(jc[q + yc.len()].has(x));
                    assert(q == 0 || jk[q + ny] > jk[ny]);
                } else {
                    let q = choose|q: int| 0 <= q < zk.len() && zk[q] == x;
                    assert(jk[q + ny + 1] > jk[ny]);
                }
            }
            assert forall|q: int, x: int| 0 <= q < zc.len() && #[trigger] zc[q].has(x) implies {
                &&& q < zk.len() ==> x < zk[q]
                &&& q > 0 ==> zk[q - 1] < x
            } by {
                assert(jc[q + yc.len()].has(x));
            }
            assert forall|q: int, x: int| 0 <= q < yc.len() && #[trigger] yc[q].has(x) implies {
                &&& q < yk.len() ==> x < yk[q]
                &&& q > 0 ==> yk[q - 1] < x
            } by {
                assert(jc[q].has(x));
            }
            assert forall|q: int| 0 <= q < zc.len() implies {
                &&& (#[trigger] zc[q]).wf()
                &&& zc[q].t == z.t
                &&& zc[q].keys@.len() >= z.t - 1
                &&& zc[q].height() + 1 == z.height()
            } by {
                assert(jc[q + yc.len()] == zc[q]);
            }
            assert forall|q: int| 0 <= q < yc.len() implies {
                &&& (#[trigger] yc[q]).wf()
                &&& yc[q].t == y.t
                &&& yc[q].keys@.len() >= y.t - 1
                &&& yc[q].height() + 1 == y.height()
            } by {
                assert(jc[q] == yc[q]);
            }
            assert(strictly_sorted(zk)) by {
                assert forall|a: int, b: int| 0 <= a < b < zk.len() implies zk[a] < zk[b] by {
                    assert(jk[a + ny + 1] < jk[b + ny + 1]);
                }
            }
            assert(y.wf());
            assert(z.wf());
        }
        if y.wf() && z.wf() && Self::separated(y, m, z) && y.height() == z.height() && jk.len()
            <= 2 * t - 1 {
            assert(j.height() == y.height());
            assert forall|q: int| 0 <= q < jc.len() implies {
                &&& (#[trigger] jc[q]).wf()
                &&& jc[q].t == j.t
                &&& jc[q].keys@.len() >= j.t - 1
                &&& jc[q].height() + 1 == j.height()
            } by {
                if q < yc.len() {
                    assert(jc[q] == yc[q]);
                } else {
                    assert(jc[q] == zc[q - yc.len()]);
                }
            }
            assert forall|q: int, x: int| 0 <= q < jc.len() && #[trigger] jc[q].has(x) implies {
                &&& q < jk.len() ==> x < jk[q]
                &&& q > 0 ==> jk[q - 1] < x
            } by {
                if q < yc.len() {
                    assert(jc[q] == yc[q]);
                    assert(y.has(x));
                } else {
                    assert(jc[q] == zc[q - yc.len()]);
                    assert(z.has(x));
                }
            }
            assert(strictly_sorted(jk)) by {
                assert forall|a: int, b: int| 0 <= a < b < jk.len() implies jk[a] < jk[b] by {
                    if a < ny {
                        assert(y.has(jk[a] as int));
                    }
                    if b > ny {
                        assert(z.has(jk[b] as int));
                    }
                }
            }
        }
    }
}

impl BTreeNode {
    /// `x` lies strictly between the separators around child `i`.
    pub open spec fn in_range(self, i: int, x: int) -> bool {
        &&& i < self.key_seq().len() ==> x < self.key_seq()[i]
        &&& i > 0 ==> self.key_seq()[i - 1] < x
    }

    /// `w` is `n` with its child `i` replaced by `y` and `z` around the new
    /// key `m`.
    pub open spec fn widens(w: BTreeNode, n: BTreeNode, i: int, y: BTreeNode, m: i32, z: BTreeNode) -> bool {
        &&& 0 <= i < n.child_seq().len()
        &&& w.degree() == n.degree()
        &&& !w.is_leaf() && !n.is_leaf()
        &&& n.child_seq().len() == n.key_seq().len() + 1
        &&& w.key_seq() == n.key_seq().insert(i, m)
        &&& w.child_seq().len() == n.child_seq().len() + 1
        &&& forall|q: int| 0 <= q < i ==> #[trigger] w.child_seq()[q] == n.child_seq()[q]
        &&& forall|q: int| i + 1 < q < w.child_seq().len() ==> #[trigger] w.child_seq()[q] == n.child_seq()[q - 1]
        &&& *w.child_seq()[i] == y
        &&& *w.child_seq()[i + 1] == z
        &&& forall|x: int| #[trigger] n.child_seq()[i].has(x) <==> (y.has(x) || x == m || z.has(x))
        &&& y.height() == n.child_seq()[i].height()
        &&& z.height() == n.child_seq()[i].height()
    }

    #[verifier::spinoff_prover]
    #[verifier::rlimit(40)]
    proof fn lemma_widen(w: BTreeNode, n: BTreeNode, i: int, y: BTreeNode, m: i32, z: BTreeNode)
        requires
            Self::widens(w, n, i, y, m, z),
        ensures
            forall|x: int| #[trigger] w.has(x) == n.has(x),
            w.height() == n.height(),
    {
        broadcast use BTreeNode::lemma_has;
        let nk = n.keys@;
        let nc = n.children@;
        let wk = w.keys@;
        let wc = w.children@;
        assert(wk[i] == m);
        assert forall|q: int| 0 <= q < i implies wk[q] == #[trigger] nk[q] by {}
        assert forall|q: int| i <= q < nk.len() implies wk[q + 1] == #[trigger] nk[q] by {}
        assert(w.height() == n.height()) by {
            if i == 0 {
                assert(wc[0] == y);
            } else {
                assert(wc[0] == nc[0]);
            }
        }
        assert forall|x: int| #[trigger] w.has(x) == n.has(x) by {
            if n.has(x) {
                if exists|q: int| 0 <= q < nc.len() && #[trigger] nc[q].has(x) {
                    let q = choose|q: int| 0 <= q < nc.len() && #[trigger] nc[q].has(x);
                    if q < i {
                        assert(wc[q] == nc[q]);
                    } else if q > i {
                        assert(wc[q + 1] == nc[q]);
                    } else if y.has(x) {
                        assert(wc[q].has(x));
                    } else if z.has(x) {
                        assert(wc[q + 1].has(x));
                    }
                } else {
                    let q = choose|q: int| 0 <= q < nk.len() && nk[q] == x;
                    if q < i {
                        assert(wk[q] == x);
                    } else {
                        assert(wk[q + 1] == x);
                    }
                }
            }
            if w.has(x) {
                if exists|q: int| 0 <= q < wc.len() && #[trigger] wc[q].has(x) {
                    let q = choose|q: int| 0 <= q < wc.len() && #[trigger] wc[q].has(x);
                    if q < i {
                        assert(wc[q] == nc[q]);
                    } else if q > i + 1 {
                        assert(wc[q] == nc[q - 1]);
                    } else {
                        assert(nc[i].has(x));
                    }
                } else {
                    let q = choose|q: int| 0 <= q < wk.len() && wk[q] == x;
                    if q < i {
                        assert(nk[q] == x);
                    } else if q > i {
                        assert(nk[q - 1] == x);
                    } else {
                        assert(nc[i].has(x));
                    }
                }
            }
        }
    }

    proof fn lemma_widen_wf(w: BTreeNode, n: BTreeNode, i: int, y: BTreeNode, m: i32, z: BTreeNode)
        requires
            Self::widens(w, n, i, y, m, z),
            n.wf(),
            w.keys@.len() <= 2 * w.t - 1,
            y.wf() && z.wf() && y.t == w.t && z.t == w.t,
            y.keys@.len() >= w.t - 1 && z.keys@.len() >= w.t - 1,
            Self::separated(y, m, z),
        ensures
            w.wf(),
    {
        reveal_with_fuel(BTreeNode::wf, 1);
        broadcast use BTreeNode::lemma_has;
        Self::lemma_widen(w, n, i, y, m, z);
        let nk = n.keys@;
        let nc = n.children@;
        let wk = w.keys@;
        let wc = w.children@;
        assert(wk[i] == m);
        assert forall|q: int| 0 <= q < i implies wk[q] == #[trigger] nk[q] by {}
        assert forall|q: int| i <= q < nk.len() implies wk[q + 1] == #[trigger] nk[q] by {}
        assert(nc[i].has(m as int));
        assert forall|q: int| 0 <= q < wc.len() implies {
            &&& (#[trigger] wc[q]).wf()
            &&& wc[q].t == w.t
            &&& wc[q].keys@.len() >= w.t - 1
            &&& wc[q].height() + 1 == w.height()
        } by {
            if q < i {
                assert(wc[q] == nc[q]);
            } else if q > i + 1 {
                assert(wc[q] == nc[q - 1]);
            }
        }
        assert forall|q: int, x: int| 0 <= q < wc.len() && #[trigger] wc[q].has(x) implies {
            &&& q < wk.len() ==> x < wk[q]
            &&& q > 0 ==> wk[q - 1] < x
        } by {
            if q < i {
                assert(wc[q] == nc[q]);
            } else if q > i + 1 {
                assert(wc[q] == nc[q - 1]);
            } else {
                assert(nc[i].has(x));
            }
        }
        assert(strictly_sorted(wk)) by {
            assert forall|a: int, b: int| 0 <= a < b < wk.len() implies wk[a] < wk[b] by {
                if b == i {
                    assert(nk[a] == wk[a]);
                } else if a == i {
                    assert(nk[b - 1] == wk[b]);
                } else if a < i && b > i {
                    assert(nk[a] == wk[a] && nk[b - 1] == wk[b]);
                }
            }
        }
    }

    proof fn lemma_narrow_wf(w: BTreeNode, n: BTreeNode, i: int, y: BTreeNode, m: i32, z: BTreeNode)
        requires
            Self::widens(w, n, i, y, m, z),
            w.wf(),
            n.child_seq()[i].wf(),
            n.child_seq()[i].degree() == n.degree(),
            n.child_seq()[i].key_seq().len() >= n.degree() - 1,
        ensures
            n.wf(),
    {
        reveal_with_fuel(BTreeNode::wf, 1);
        broadcast use BTreeNode::lemma_has;
        Self::lemma_widen(w, n, i, y, m, z);
        let nk = n.keys@;
        let nc = n.children@;
        let wk = w.keys@;
        let wc = w.children@;
        let j = *nc[i];
        let t = n.t;
        assert(wk[i] == m);
        assert forall|q: int| 0 <= q < i implies wk[q] == #[trigger] nk[q] by {}
        assert forall|q: int| i <= q < nk.len() implies wk[q + 1] == #[trigger] nk[q] by {}
        assert(y.has(y.keys@[0] as int) || y.keys@.len() == 0);
        assert forall|q: int| 0 <= q < nc.len() implies {
            &&& (#[trigger] nc[q]).wf()
            &&& nc[q].t == n.t
            &&& nc[q].keys@.len() >= n.t - 1
            &&& nc[q].height() + 1 == n.height()
        } by {
            if q < i {
                assert(wc[q] == nc[q]);
            } else if q > i {
                assert(wc[q + 1] == nc[q]);
            } else {
                assert(wc[q] == y);
            }
        }
        assert forall|q: int, x: int| 0 <= q < nc.len() && #[trigger] nc[q].has(x) implies {
            &&& q < nk.len() ==> x < nk[q]
            &&& q > 0 ==> nk[q - 1] < x
        } by {
            if q < i {
                assert(wc[q] == nc[q]);
            } else if q > i {
                assert(wc[q + 1] == nc[q]);
            } else {
                if y.has(x) {
                    assert(wc[q].has(x));
                } else if z.has(x) {
                    assert(wc[q + 1].has(x));
                } else {
                    assert(wk[q] == x);
                }
            }
        }
        assert(strictly_sorted(nk)) by {
            assert forall|a: int, b: int| 0 <= a < b < nk.len() implies nk[a] < nk[b] by {
                if a < i && b >= i {
                    assert(wk[a] == nk[a] && wk[b + 1] == nk[b]);
                } else if a >= i {
                    assert(wk[a + 1] == nk[a] && wk[b + 1] == nk[b]);
                }
            }
        }
    }
}

impl BTreeNode {
    /// Splits the full child `i` around its median key, which moves up into
    /// this node between the two halves.
    pub fn split_child(&mut self, i: usize)
        requires
            old(self).wf(),
            !old(self).is_leaf(),
            i < old(self).child_seq().len(),
            old(self).child_seq()[i as int].key_seq().len() == 2 * old(self).degree() - 1,
            old(self).key_seq().len() < 2 * old(self).degree() - 1,
        ensures
            final(self).wf(),
            final(self).degree() == old(self).degree(),
            final(self).is_leaf() == old(self).is_leaf(),
            final(self).height() == old(self).height(),
            forall|x: int| #[trigger] final(self).has(x) == old(self).has(x),
            final(self).key_seq() == old(self).key_seq().insert(i as int, final(self).key_seq()[i as int]),
            final(self).child_seq().len() == old(self).child_seq().len() + 1,
            final(self).child_seq()[i as int].key_seq().len() == old(self).degree() - 1,
            final(self).child_seq()[i as int + 1].key_seq().len() == old(self).degree() - 1,
            ({
                let y = *old(self).child_seq()[i as int];
                let t = old(self).degree() as int;
                &&& final(self).key_seq() == old(self).key_seq().insert(i as int, y.key_seq()[t - 1])
                &&& final(self).child_seq()[i as int].key_seq() == y.key_seq().subrange(0, t - 1)
                &&& final(self).child_seq()[i as int + 1].key_seq() == y.key_seq().subrange(t, 2 * t - 1)
                &&& final(self).child_seq()[i as int].is_leaf() == y.is_leaf()
                &&& final(self).child_seq()[i as int + 1].is_leaf() == y.is_leaf()
                &&& final(self).child_seq()[i as int].degree() == y.degree()
                &&& final(self).child_seq()[i as int + 1].degree() == y.degree()
                &&& !y.is_leaf() ==> final(self).child_seq()[i as int].child_seq() == y.child_seq().subrange(0, t)
                &&& !y.is_leaf() ==> final(self).child_seq()[i as int + 1].child_seq() == y.child_seq().subrange(t, 2 * t)
            }),
            forall|q: int| 0 <= q < i ==> #[trigger] final(self).child_seq()[q] == old(self).child_seq()[q],
            forall|q: int| i + 1 < q < final(self).child_seq().len() ==> #[trigger] final(self).child_seq()[q]
                == old(self).child_seq()[q - 1],
    {
        let ghost n = *self;
        let t = self.t;
        let ghost yy = *self.children@[i as int];
        proof {
            n.lemma_wf();
            n.lemma_wf_child(i as int);
            yy.lemma_wf();
        }
        let mut y = *self.children.remove(i);
        let z_keys = y.keys.split_off(t);
        let z_children = if !y.leaf {
            y.children.split_off(t)
        } else {
            Vec::new()
        };
        let middle = y.keys.pop().unwrap();
        let z = BTreeNode { keys: z_keys, children: z_children, t, leaf: y.leaf };
        proof {
            assert(y.keys@ =~= yy.keys@.subrange(0, t - 1));
            assert(z.keys@ =~= yy.keys@.subrange(t as int, 2 * t - 1));
            assert(yy.keys@ =~= y.keys@ + seq![middle] + z.keys@);
            assert(yy.children@ =~= y.children@ + z.children@);
            Self::lemma_join_has(yy, y, middle, z);
            Self::lemma_join_wf(yy, y, middle, z);
        }
        self.children.insert(i, Box::new(y));
        self.children.insert(i + 1, Box::new(z));
        self.keys.insert(i, middle);
        proof {
            assert(Self::widens(*self, n, i as int, y, middle, z));
            Self::lemma_widen(*self, n, i as int, y, middle, z);
            Self::lemma_widen_wf(*self, n, i as int, y, middle, z);
        }
    }
}

impl BTreeNode {
    /// `p` is `o` with child `i` replaced by `c`.
    pub open spec fn replaces_child(p: BTreeNode, o: BTreeNode, i: int, c: BTreeNode) -> bool {
        &&& 0 <= i < o.child_seq().len()
        &&& p.key_seq() == o.key_seq()
        &&& p.degree() == o.degree()
        &&& p.is_leaf() == o.is_leaf()
        &&& p.child_seq() == o.child_seq().update(i, Box::new(c))
    }

    proof fn lemma_replace_child(p: BTreeNode, o: BTreeNode, i: int, c: BTreeNode)
        requires
            Self::replaces_child(p, o, i, c),
            o.wf(),
            c.wf(),
            c.t == o.t,
            c.keys@.len() >= o.t - 1,
            c.height() == o.children@[i].height(),
            forall|x: int| #[trigger] c.has(x) ==> o.in_range(i, x),
        ensures
            p.wf(),
            p.height() == o.height(),
            forall|x: int| #[trigger] p.has(x) == if o.in_range(i, x) { c.has(x) } else { o.has(x) },
    {
        reveal_with_fuel(BTreeNode::wf, 1);
        broadcast use BTreeNode::lemma_has;
        let pc = p.children@;
        let oc = o.children@;
        assert(p.height() == o.height()) by {
            if i == 0 {
                assert(pc[0] == c);
            } else {
                assert(pc[0] == oc[0]);
            }
        }
        assert forall|q: int| 0 <= q < pc.len() implies {
            &&& (#[trigger] pc[q]).wf()
            &&& pc[q].t == p.t
            &&& pc[q].keys@.len() >= p.t - 1
            &&& pc[q].height() + 1 == p.height()
        } by {
            if q != i {
                assert(pc[q] == oc[q]);
            }
        }
        assert forall|q: int, x: int| 0 <= q < pc.len() && #[trigger] pc[q].has(x) implies {
            &&& q < p.keys@.len() ==> x < p.keys@[q]
            &&& q > 0 ==> p.keys@[q - 1] < x
        } by {
            if q != i {
                assert(pc[q] == oc[q]);
            }
        }
        assert(p.wf());
        assert forall|x: int| #[trigger] p.has(x) == if o.in_range(i, x) { c.has(x) } else { o.has(x) } by {
            if o.in_range(i, x) {
                p.lemma_descend(i, x);
            } else {
                assert(!oc[i].has(x));
                assert(!pc[i].has(x));
                if p.has(x) {
                    if exists|q: int| 0 <= q < pc.len() && #[trigger] pc[q].has(x) {
                        let q = choose|q: int| 0 <= q < pc.len() && #[trigger] pc[q].has(x);
                        assert(oc[q] == pc[q]);
                    }
                }
                if o.has(x) {
                    if exists|q: int| 0 <= q < oc.len() && #[trigger] oc[q].has(x) {
                        let q = choose|q: int| 0 <= q < oc.len() && #[trigger] oc[q].has(x);
                        assert(oc[q] == pc[q]);
                    }
                }
            }
        }
    }

    proof fn lemma_leaf_insert(o: BTreeNode, n: BTreeNode, i: int, k: i32)
        requires
            o.wf(),
            o.leaf,
            n.leaf,
            n.t == o.t,
            n.children@ == o.children@,
            0 <= i <= o.keys@.len(),
            forall|j: int| 0 <= j < i ==> o.keys@[j] < k,
            i < o.keys@.len() ==> o.keys@[i] > k,
            n.keys@ == o.keys@.insert(i, k),
            n.keys@.len() <= 2 * n.t - 1,
        ensures
            n.wf(),
            n.height() == o.height(),
            forall|x: int| #[trigger] n.has(x) == (o.has(x) || x == k),
    {
        reveal_with_fuel(BTreeNode::wf, 1);
        broadcast use BTreeNode::lemma_has;
                let nk = n.keys@;
            assert forall|a: int, b: int| 0 <= a < b < nk.len() implies nk[a] < nk[b] by {
                if a < i && b > i {
                    assert(nk[a] == o.keys@[a] && nk[b] == o.keys@[b - 1]);
                }
            }
            assert forall|x: int| #[trigger] n.has(x) == (o.has(x) || x == k) by {
                if n.has(x) {
                    let q = choose|q: int| 0 <= q < nk.len() && nk[q] == x;
                    if q < i {
                        assert(o.keys@[q] == x);
                    } else if q > i {
                        assert(o.keys@[q - 1] == x);
                    }
                }
                if o.has(x) {
                    let q = choose|q: int| 0 <= q < o.keys@.len() && o.keys@[q] == x;
                    if q < i {
                        assert(nk[q] == x);
                    } else {
                        assert(nk[q + 1] == x);
                    }
                }
                if x == k {
                    assert(nk[i as int] == k);
                }
            }
    }

    proof fn lemma_key_has(self, i: int)
        requires
            0 <= i < self.keys@.len(),
        ensures
            self.has(self.keys@[i] as int),
    {
        broadcast use BTreeNode::lemma_has;
    }

    proof fn lemma_child_has(self, i: int, x: int)
        requires
            0 <= i < self.children@.len(),
            self.children@[i].has(x),
        ensures
            self.has(x),
    {
        broadcast use BTreeNode::lemma_has;
    }

    /// Inserts `k` into the subtree rooted at this node, which has room for
    /// one more key.
    pub fn insert_not_full(&mut self, k: i32)
        requires
            old(self).wf(),
            old(self).key_seq().len() < 2 * old(self).degree() - 1,
            !old(self).has(k as int),
        ensures
            final(self).wf(),
            final(self).degree() == old(self).degree(),
            final(self).is_leaf() == old(self).is_leaf(),
            final(self).height() == old(self).height(),
            final(self).key_seq().len() >= old(self).key_seq().len(),
            old(self).is_leaf() ==> final(self).key_seq().len() == old(self).key_seq().len() + 1,
            forall|x: int| #[trigger] final(self).has(x) == (old(self).has(x) || x == k),
            forall|j: int| 0 <= j <= old(self).key_seq().len() && #[trigger] old(self).in_range(j, k as int) ==> {
                &&& old(self).is_leaf() ==> final(self).key_seq() == old(self).key_seq().insert(j, k)
                &&& !old(self).is_leaf() && old(self).child_seq()[j].key_seq().len() == 2 * old(self).degree() - 1
                    ==> final(self).key_seq() == old(self).key_seq().insert(j,
                    old(self).child_seq()[j].key_seq()[old(self).degree() - 1])
                &&& !old(self).is_leaf() && old(self).child_seq()[j].key_seq().len() < 2 * old(self).degree() - 1
                    ==> final(self).key_seq() == old(self).key_seq()
            },
        decreases old(self).height(),
    {
        let ghost o = *self;
        proof {
            o.lemma_wf();
        }
        let i = self.find_key_index(k);
        if i < self.keys.len() {
            proof {
                o.lemma_key_has(i as int);
            }
        }
        proof {
            assert forall|j: int| 0 <= j <= o.keys@.len() && #[trigger] o.in_range(j, k as int) implies j == i by {
                if j < i {
                    assert(o.keys@[j] < k);
                } else if j > i {
                    assert(o.keys@[j - 1] < k);
                    assert(j - 1 == i || o.keys@[i as int] < o.keys@[j - 1]);
                }
            }
        }
        if self.leaf {
            self.keys.insert(i, k);
            proof {
                Self::lemma_leaf_insert(o, *self, i as int, k);
            }
        } else {
            let mut ci = i;
            assert(o.in_range(i as int, k as int));
            proof {
                o.lemma_wf_child(i as int);
            }
            proof {
                o.children@[i as int].lemma_wf();
            }
            if self.children[i].keys.len() == 2 * self.t - 1 {
                self.split_child(i);
                proof {
                    self.lemma_key_has(i as int);
                }
                if self.keys[i] < k {
                    ci = i + 1;
                }
            }
            let ghost mid = *self;
            assert(mid.in_range(ci as int, k as int));
            proof {
                mid.lemma_wf();
                mid.lemma_wf_child(ci as int);
                mid.children@[ci as int].lemma_wf();
            }
            proof {
                mid.lemma_descend(ci as int, k as int);
            }
            let mut c = *self.children.remove(ci);
            c.insert_not_full(k);
            self.children.insert(ci, Box::new(c));
            proof {
                assert(self.children@ =~= mid.children@.update(ci as int, Box::new(c)));
                Self::lemma_replace_child(*self, mid, ci as int, c);
                assert forall|x: int| #[trigger] self.has(x) == (o.has(x) || x == k) by {
                    if mid.in_range(ci as int, x) {
                        mid.lemma_descend(ci as int, x);
                    }
                }
            }
        }
    }
}

impl BTreeNode {
    /// `b` is `a` with the key `m` added in front and, when internal, the
    /// child `g` before it.
    pub open spec fn front_extends(b: BTreeNode, a: BTreeNode, m: i32, g: BTreeNode) -> bool {
        &&& b.degree() == a.degree()
        &&& b.is_leaf() == a.is_leaf()
        &&& b.key_seq() == seq![m] + a.key_seq()
        &&& a.child_seq().len() == (if a.is_leaf() { 0 } else { a.key_seq().len() + 1 })
        &&& b.child_seq() == if a.is_leaf() { a.child_seq() } else { seq![Box::new(g)] + a.child_seq() }
    }

    /// `b` is `a` with the key `m` added at the back and, when internal, the
    /// child `g` after it.
    pub open spec fn back_extends(b: BTreeNode, a: BTreeNode, m: i32, g: BTreeNode) -> bool {
        &&& b.degree() == a.degree()
        &&& b.is_leaf() == a.is_leaf()
        &&& b.key_seq() == a.key_seq().push(m)
        &&& a.child_seq().len() == (if a.is_leaf() { 0 } else { a.key_seq().len() + 1 })
        &&& b.child_seq() == if a.is_leaf() { a.child_seq() } else { a.child_seq().push(Box::new(g)) }
    }

    /// `g` fits as an outer child of a node whose children sit one level below `h`.
    pub open spec fn fits_below(g: BTreeNode, t: nat, h: nat) -> bool {
        &&& g.wf()
        &&& g.degree() == t
        &&& g.key_seq().len() >= t - 1
        &&& g.height() + 1 == h
    }

    proof fn lemma_front_has(b: BTreeNode, a: BTreeNode, m: i32, g: BTreeNode)
        requires
            Self::front_extends(b, a, m, g),
        ensures
            forall|x: int| #[trigger] b.has(x) <==> (a.has(x) || x == m || (!a.leaf && g.has(x))),
    {
        broadcast use BTreeNode::lemma_has;
        let ak = a.keys@;
        let bk = b.keys@;
        let ac = a.children@;
        let bc = b.children@;
        let d: int = if a.leaf { 0 } else { 1 };
        assert forall|q: int| 0 <= q < ac.len() implies bc[q + d] == #[trigger] ac[q] by {}
        assert forall|q: int| 0 <= q < ak.len() implies bk[q + 1] == #[trigger] ak[q] by {}
        assert forall|x: int| #[trigger] b.has(x) <==> (a.has(x) || x == m || (!a.leaf && g.has(x))) by {
            if b.has(x) {
                if exists|q: int| 0 <= q < bc.len() && #[trigger] bc[q].has(x) {
                    let q = choose|q: int| 0 <= q < bc.len() && #[trigger] bc[q].has(x);
                    if q >= d {
                        assert(bc[q] == ac[q - d]);
                    }
                } else {
                    let q = choose|q: int| 0 <= q < bk.len() && bk[q] == x;
                    if q > 0 {
                        assert(bk[q] == ak[q - 1]);
                    }
                }
            }
            if a.has(x) {
                if exists|q: int| 0 <= q < ac.len() && #[trigger] ac[q].has(x) {
                    let q = choose|q: int| 0 <= q < ac.len() && #[trigger] ac[q].has(x);
                    assert(bc[q + d].has(x));
                } else {
                    let q = choose|q: int| 0 <= q < ak.len() && ak[q] == x;
                    assert(bk[q + 1] == x);
                }
            }
            if x == m {
                assert(bk[0] == m);
            }
            if !a.leaf && g.has(x) {
                assert(bc[0].has(x));
            }
        }
    }

    proof fn lemma_back_has(b: BTreeNode, a: BTreeNode, m: i32, g: BTreeNode)
        requires
            Self::back_extends(b, a, m, g),
        ensures
            forall|x: int| #[trigger] b.has(x) <==> (a.has(x) || x == m || (!a.leaf && g.has(x))),
    {
        broadcast use BTreeNode::lemma_has;
        let ak = a.keys@;
        let bk = b.keys@;
        let ac = a.children@;
        let bc = b.children@;
        assert forall|q: int| 0 <= q < ac.len() implies bc[q] == #[trigger] ac[q] by {}
        assert forall|q: int| 0 <= q < ak.len() implies bk[q] == #[trigger] ak[q] by {}
        assert forall|x: int| #[trigger] b.has(x) <==> (a.has(x) || x == m || (!a.leaf && g.has(x))) by {
            if b.has(x) {
                if exists|q: int| 0 <= q < bc.len() && #[trigger] bc[q].has(x) {
                    let q = choose|q: int| 0 <= q < bc.len() && #[trigger] bc[q].has(x);
                    if q < ac.len() {
                        assert(bc[q] == ac[q]);
                    }
                } else {
                    let q = choose|q: int| 0 <= q < bk.len() && bk[q] == x;
                    if q < ak.len() {
                        assert(bk[q] == ak[q]);
                    }
                }
            }
            if a.has(x) {
                if exists|q: int| 0 <= q < ac.len() && #[trigger] ac[q].has(x) {
                    let q = choose|q: int| 0 <= q < ac.len() && #[trigger] ac[q].has(x);
                    assert(bc[q].has(x));
                } else {
                    let q = choose|q: int| 0 <= q < ak.len() && ak[q] == x;
                    assert(bk[q] == x);
                }
            }
            if x == m {
                assert(bk[ak.len() as int] == m);
            }
            if !a.leaf && g.has(x) {
                assert(bc[ac.len() as int].has(x));
            }
        }
    }
}

impl BTreeNode {
    proof fn lemma_front_wf_up(b: BTreeNode, a: BTreeNode, m: i32, g: BTreeNode)
        requires
            Self::front_extends(b, a, m, g),
            a.wf(),
            b.keys@.len() <= 2 * b.t - 1,
            forall|x: int| #[trigger] a.has(x) ==> m < x,
            !a.leaf ==> Self::fits_below(g, a.t as nat, a.height()),
            !a.leaf ==> forall|x: int| #[trigger] g.has(x) ==> x < m,
        ensures
            b.wf(),
            b.height() == a.height(),
    {
        reveal_with_fuel(BTreeNode::wf, 1);
        broadcast use BTreeNode::lemma_has;
        Self::lemma_front_has(b, a, m, g);
        let ak = a.keys@;
        let bk = b.keys@;
        let ac = a.children@;
        let bc = b.children@;
        let d: int = if a.leaf { 0 } else { 1 };
        assert forall|q: int| 0 <= q < ac.len() implies bc[q + d] == #[trigger] ac[q] by {}
        assert forall|q: int| 0 <= q < ak.len() implies bk[q + 1] == #[trigger] ak[q] by {}
        assert(bk[0] == m);
        if !a.leaf {
            assert(bc[0] == g);
            assert(b.height() == 1 + bc[0].height());
            assert(a.height() == 1 + ac[0].height());
        }
        assert forall|q: int| 0 <= q < bc.len() implies {
            &&& (#[trigger] bc[q]).wf()
            &&& bc[q].t == b.t
            &&& bc[q].keys@.len() >= b.t - 1
            &&& bc[q].height() + 1 == b.height()
        } by {
            if q - d >= 0 && q - d < ac.len() {
                assert(bc[q] == ac[q - d]);
            }
        }
        assert forall|q: int, x: int| 0 <= q < bc.len() && #[trigger] bc[q].has(x) implies {
            &&& q < bk.len() ==> x < bk[q]
            &&& q > 0 ==> bk[q - 1] < x
        } by {
            if q - d >= 0 && q - d < ac.len() {
                assert(bc[q] == ac[q - d]);
                assert(a.has(x));
            }
        }
        assert(strictly_sorted(bk)) by {
            assert forall|i: int, j: int| 0 <= i < j < bk.len() implies bk[i] < bk[j] by {
                if i - 1 >= 0 && j - 1 < ak.len() {
                    assert(bk[i] == ak[i - 1] && bk[j] == ak[j - 1]);
                } else if i == 0 {
                    assert(a.has(bk[j] as int));
                }
            }
        }
    }

    proof fn lemma_front_wf_down(b: BTreeNode, a: BTreeNode, m: i32, g: BTreeNode)
        requires
            Self::front_extends(b, a, m, g),
            b.wf(),
        ensures
            a.wf(),
            a.height() == b.height(),
            forall|x: int| #[trigger] a.has(x) ==> m < x,
            !a.leaf ==> Self::fits_below(g, a.t as nat, a.height()),
            !a.leaf ==> forall|x: int| #[trigger] g.has(x) ==> x < m,
    {
        reveal_with_fuel(BTreeNode::wf, 1);
        broadcast use BTreeNode::lemma_has;
        Self::lemma_front_has(b, a, m, g);
        let ak = a.keys@;
        let bk = b.keys@;
        let ac = a.children@;
        let bc = b.children@;
        let d: int = if a.leaf { 0 } else { 1 };
        assert forall|q: int| 0 <= q < ac.len() implies bc[q + d] == #[trigger] ac[q] by {}
        assert forall|q: int| 0 <= q < ak.len() implies bk[q + 1] == #[trigger] ak[q] by {}
        assert(bk[0] == m);
        if !a.leaf {
            assert(bc[0] == g);
            assert(b.height() == 1 + bc[0].height());
            assert(a.height() == 1 + ac[0].height());
        }
        assert forall|q: int| 0 <= q < ac.len() implies {
            &&& (#[trigger] ac[q]).wf()
            &&& ac[q].t == a.t
            &&& ac[q].keys@.len() >= a.t - 1
            &&& ac[q].height() + 1 == a.height()
        } by {
            assert(bc[q + d] == ac[q]);
        }
        assert forall|q: int, x: int| 0 <= q < ac.len() && #[trigger] ac[q].has(x) implies {
            &&& q < ak.len() ==> x < ak[q]
            &&& q > 0 ==> ak[q - 1] < x
        } by {
            assert(bc[q + d].has(x));
        }
        assert(strictly_sorted(ak)) by {
            assert forall|i: int, j: int| 0 <= i < j < ak.len() implies ak[i] < ak[j] by {
                assert(bk[i + 1] < bk[j + 1]);
            }
        }
        assert forall|x: int| #[trigger] a.has(x) implies m < x by {
            if exists|q: int| 0 <= q < ac.len() && #[trigger] ac[q].has(x) {
                let q = choose|q: int| 0 <= q < ac.len() && #[trigger] ac[q].has(x);
                assert(bc[q + d].has(x));
                assert(q == 0 || bk[q] > bk[0]);
            } else {
                let q = choose|q: int| 0 <= q < ak.len() && ak[q] == x;
                assert(bk[q + 1] == x);
            }
        }
        if !a.leaf {
            assert forall|x: int| #[trigger] g.has(x) implies x < m by {
                assert(bc[0].has(x));
            }
        }
    }

    proof fn lemma_back_wf_up(b: BTreeNode, a: BTreeNode, m: i32, g: BTreeNode)
        requires
            Self::back_extends(b, a, m, g),
            a.wf(),
            b.keys@.len() <= 2 * b.t - 1,
            forall|x: int| #[trigger] a.has(x) ==> x < m,
            !a.leaf ==> Self::fits_below(g, a.t as nat, a.height()),
            !a.leaf ==> forall|x: int| #[trigger] g.has(x) ==> m < x,
        ensures
            b.wf(),
            b.height() == a.height(),
    {
        reveal_with_fuel(BTreeNode::wf, 1);
        broadcast use BTreeNode::lemma_has;
        Self::lemma_back_has(b, a, m, g);
        let ak = a.keys@;
        let bk = b.keys@;
        let ac = a.children@;
        let bc = b.children@;
        let d: int = if a.leaf { 0 } else { 1 };
        assert forall|q: int| 0 <= q < ac.len() implies bc[q + 0] == #[trigger] ac[q] by {}
        assert forall|q: int| 0 <= q < ak.len() implies bk[q + 0] == #[trigger] ak[q] by {}
        assert(bk[ak.len() as int] == m);
        if !a.leaf {
            assert(bc[ac.len() as int] == g);
            assert(b.height() == 1 + bc[0].height());
            assert(a.height() == 1 + ac[0].height());
        }
        assert forall|q: int| 0 <= q < bc.len() implies {
            &&& (#[trigger] bc[q]).wf()
            &&& bc[q].t == b.t
            &&& bc[q].keys@.len() >= b.t - 1
            &&& bc[q].height() + 1 == b.height()
        } by {
            if q - 0 >= 0 && q - 0 < ac.len() {
                assert(bc[q] == ac[q - 0]);
            }
        }
        assert forall|q: int, x: int| 0 <= q < bc.len() && #[trigger] bc[q].has(x) implies {
            &&& q < bk.len() ==> x < bk[q]
            &&& q > 0 ==> bk[q - 1] < x
        } by {
            if q - 0 >= 0 && q - 0 < ac.len() {
                assert(bc[q] == ac[q - 0]);
                assert(a.has(x));
            }
        }
        assert(strictly_sorted(bk)) by {
            assert forall|i: int, j: int| 0 <= i < j < bk.len() implies bk[i] < bk[j] by {
                if i - 0 >= 0 && j - 0 < ak.len() {
                    assert(bk[i] == ak[i - 0] && bk[j] == ak[j - 0]);
                } else if j == ak.len() {
                    assert(a.has(bk[i] as int));
                }
            }
        }
    }

    proof fn lemma_back_wf_down(b: BTreeNode, a: BTreeNode, m: i32, g: BTreeNode)
        requires
            Self::back_extends(b, a, m, g),
            b.wf(),
        ensures
            a.wf(),
            a.height() == b.height(),
            forall|x: int| #[trigger] a.has(x) ==> x < m,
            !a.leaf ==> Self::fits_below(g, a.t as nat, a.height()),
            !a.leaf ==> forall|x: int| #[trigger] g.has(x) ==> m < x,
    {
        reveal_with_fuel(BTreeNode::wf, 1);
        broadcast use BTreeNode::lemma_has;
        Self::lemma_back_has(b, a, m, g);
        let ak = a.keys@;
        let bk = b.keys@;
        let ac = a.children@;
        let bc = b.children@;
        let d: int = if a.leaf { 0 } else { 1 };
        assert forall|q: int| 0 <= q < ac.len() implies bc[q + 0] == #[trigger] ac[q] by {}
        assert forall|q: int| 0 <= q < ak.len() implies bk[q + 0] == #[trigger] ak[q] by {}
        assert(bk[ak.len() as int] == m);
        if !a.leaf {
            assert(bc[ac.len() as int] == g);
            assert(b.height() == 1 + bc[0].height());
            assert(a.height() == 1 + ac[0].height());
        }
        assert forall|q: int| 0 <= q < ac.len() implies {
            &&& (#[trigger] ac[q]).wf()
            &&& ac[q].t == a.t
            &&& ac[q].keys@.len() >= a.t - 1
            &&& ac[q].height() + 1 == a.height()
        } by {
            assert(bc[q + 0] == ac[q]);
        }
        assert forall|q: int, x: int| 0 <= q < ac.len() && #[trigger] ac[q].has(x) implies {
            &&& q < ak.len() ==> x < ak[q]
            &&& q > 0 ==> ak[q - 1] < x
        } by {
            assert(bc[q + 0].has(x));
        }
        assert(strictly_sorted(ak)) by {
            assert forall|i: int, j: int| 0 <= i < j < ak.len() implies ak[i] < ak[j] by {
                assert(bk[i + 0] < bk[j + 0]);
            }
        }
        assert forall|x: int| #[trigger] a.has(x) implies x < m by {
            if exists|q: int| 0 <= q < ac.len() && #[trigger] ac[q].has(x) {
                let q = choose|q: int| 0 <= q < ac.len() && #[trigger] ac[q].has(x);
                assert(bc[q + 0].has(x));
                assert(q == ak.len() || bk[q] < bk[ak.len() as int]);
            } else {
                let q = choose|q: int| 0 <= q < ak.len() && ak[q] == x;
                assert(bk[q + 0] == x);
            }
        }
        if !a.leaf {
            assert forall|x: int| #[trigger] g.has(x) implies m < x by {
                assert(bc[ac.len() as int].has(x));
            }
        }
    }
}

impl BTreeNode {
    /// `x` is under child `i` or `i + 1` of `o`, or is the key between them.
    pub open spec fn in_pair(o: BTreeNode, i: int, x: int) -> bool {
        o.child_seq()[i].has(x) || x == o.key_seq()[i] || o.child_seq()[i + 1].has(x)
    }

    /// `p` is `o` with children `i` and `i + 1` and the key between them
    /// replaced by `s2`, `m2` and `c2`, which hold some of the same keys.
    pub open spec fn rotates(p: BTreeNode, o: BTreeNode, i: int, s2: BTreeNode, m2: i32, c2: BTreeNode) -> bool {
        &&& 0 <= i && i + 1 < o.child_seq().len()
        &&& p.degree() == o.degree()
        &&& !o.is_leaf() && !p.is_leaf()
        &&& p.key_seq() == o.key_seq().update(i, m2)
        &&& p.child_seq() == o.child_seq().update(i, Box::new(s2)).update(i + 1, Box::new(c2))
        &&& Self::in_pair(o, i, m2 as int)
        &&& forall|x: int| #[trigger] s2.has(x) ==> Self::in_pair(o, i, x)
        &&& forall|x: int| #[trigger] c2.has(x) ==> Self::in_pair(o, i, x)
    }

    #[verifier::spinoff_prover]
    proof fn lemma_rotate(p: BTreeNode, o: BTreeNode, i: int, s2: BTreeNode, m2: i32, c2: BTreeNode)
        requires
            Self::rotates(p, o, i, s2, m2, c2),
            o.wf(),
            Self::fits_below(s2, o.t as nat, o.height()),
            Self::fits_below(c2, o.t as nat, o.height()),
            Self::separated(s2, m2, c2),
        ensures
            p.wf(),
            p.height() == o.height(),
            forall|x: int| #[trigger] p.has(x) == if (o.children@[i].has(x) || x == o.keys@[i]
                || o.children@[i + 1].has(x)) {
                s2.has(x) || x == m2 || c2.has(x)
            } else {
                o.has(x)
            },
    {
        reveal_with_fuel(BTreeNode::wf, 1);
        broadcast use BTreeNode::lemma_has;
        let ok = o.keys@;
        let pk = p.keys@;
        let oc = o.children@;
        let pc = p.children@;
        let s = *oc[i];
        let c = *oc[i + 1];
        let mo = ok[i];
        assert forall|x: int| #![trigger s.has(x)] #![trigger c.has(x)] #![trigger s2.has(x)] #![trigger c2.has(x)]
            (s.has(x) || x == mo || c.has(x)) implies (i > 0 ==> ok[i - 1] < x) && (i + 1 < ok.len() ==> x < ok[i + 1]) by {
            if s.has(x) {
                assert(oc[i].has(x));
            }
            if c.has(x) {
                assert(oc[i + 1].has(x));
            }
        }
        let mi = m2 as int;
        assert(s.has(m2 as int) || m2 == mo || c.has(m2 as int));
        assert(p.height() == o.height()) by {
            if i == 0 {
                assert(pc[0] == s2);
            } else {
                assert(pc[0] == oc[0]);
            }
        }
        assert forall|q: int| 0 <= q < pc.len() implies {
            &&& (#[trigger] pc[q]).wf()
            &&& pc[q].t == p.t
            &&& pc[q].keys@.len() >= p.t - 1
            &&& pc[q].height() + 1 == p.height()
        } by {
            if q != i && q != i + 1 {
                assert(pc[q] == oc[q]);
            }
        }
        assert forall|q: int, x: int| 0 <= q < pc.len() && #[trigger] pc[q].has(x) implies {
            &&& q < pk.len() ==> x < pk[q]
            &&& q > 0 ==> pk[q - 1] < x
        } by {
            if q != i && q != i + 1 {
                assert(pc[q] == oc[q]);
            } else if q == i {
                assert(s2.has(x));
            } else {
                assert(c2.has(x));
            }
        }
        assert(strictly_sorted(pk)) by {
            assert forall|a: int, b: int| 0 <= a < b < pk.len() implies pk[a] < pk[b] by {
                if a != i && b != i {
                    assert(pk[a] == ok[a] && pk[b] == ok[b]);
                } else if a == i {
                    assert(ok[i] < ok[b] || b == i + 1 || ok[i + 1] <= ok[b]);
                } else {
                    assert(ok[a] <= ok[i - 1] || a == i - 1);
                }
            }
        }
        assert(p.wf());
        assert forall|x: int| #[trigger] p.has(x) == if (s.has(x) || x == mo || c.has(x)) {
            s2.has(x) || x == m2 || c2.has(x)
        } else {
            o.has(x)
        } by {
            let u = s.has(x) || x == mo || c.has(x);
            let u2 = s2.has(x) || x == m2 || c2.has(x);
            if u {
                if s.has(x) {
                    assert(oc[i].has(x));
                } else if c.has(x) {
                    assert(oc[i + 1].has(x));
                } else {
                    assert(ok[i] == x);
                }
            }
            if u2 {
                if s2.has(x) {
                    assert(pc[i].has(x));
                } else if c2.has(x) {
                    assert(pc[i + 1].has(x));
                } else {
                    assert(pk[i] == x);
                }
            }
            if p.has(x) && !u2 {
                if exists|q: int| 0 <= q < pc.len() && #[trigger] pc[q].has(x) {
                    let q = choose|q: int| 0 <= q < pc.len() && #[trigger] pc[q].has(x);
                    assert(oc[q] == pc[q]);
                } else {
                    let q = choose|q: int| 0 <= q < pk.len() && pk[q] == x;
                    assert(ok[q] == x);
                }
            }
            if o.has(x) && !u {
                if exists|q: int| 0 <= q < oc.len() && #[trigger] oc[q].has(x) {
                    let q = choose|q: int| 0 <= q < oc.len() && #[trigger] oc[q].has(x);
                    assert(oc[q] == pc[q]);
                } else {
                    let q = choose|q: int| 0 <= q < ok.len() && ok[q] == x;
                    assert(pk[q] == x);
                }
            }
        }
    }
}

impl BTreeNode {
    /// `p` is `o` after the last key of child `idx - 1` moved up into the
    /// parent, the parent key between them moved to the front of child
    /// `idx`, and (for internal children) the last child of `idx - 1` moved
    /// to the front of child `idx`.
    pub open spec fn took_from_prev(p: BTreeNode, o: BTreeNode, idx: int) -> bool {
        let s = *o.child_seq()[idx - 1];
        let c = *o.child_seq()[idx];
        let g = *s.child_seq().last();
        &&& p.key_seq() == o.key_seq().update(idx - 1, s.key_seq().last())
        &&& p.child_seq() == o.child_seq().update(idx - 1, p.child_seq()[idx - 1]).update(idx, p.child_seq()[idx])
        &&& Self::back_extends(s, *p.child_seq()[idx - 1], s.key_seq().last(), g)
        &&& Self::front_extends(*p.child_seq()[idx], c, o.key_seq()[idx - 1], g)
    }

    /// `p` is `o` after the first key of child `idx + 1` moved up into the
    /// parent, the parent key between them moved to the back of child `idx`,
    /// and (for internal children) the first child of `idx + 1` moved to the
    /// back of child `idx`.
    pub open spec fn took_from_next(p: BTreeNode, o: BTreeNode, idx: int) -> bool {
        let s = *o.child_seq()[idx + 1];
        let c = *o.child_seq()[idx];
        let g = *s.child_seq()[0];
        &&& p.key_seq() == o.key_seq().update(idx, s.key_seq()[0])
        &&& p.child_seq() == o.child_seq().update(idx, p.child_seq()[idx]).update(idx + 1, p.child_seq()[idx + 1])
        &&& Self::back_extends(*p.child_seq()[idx], c, o.key_seq()[idx], g)
        &&& Self::front_extends(s, *p.child_seq()[idx + 1], s.key_seq()[0], g)
    }

    /// `p` is `o` with children `idx` and `idx + 1` and the key between them
    /// joined into one child; the other children are unchanged.
    pub open spec fn merged(p: BTreeNode, o: BTreeNode, idx: int) -> bool {
        &&& p.key_seq() == o.key_seq().remove(idx)
        &&& p.child_seq().len() == o.child_seq().len() - 1
        &&& forall|q: int| 0 <= q < idx ==> #[trigger] p.child_seq()[q] == o.child_seq()[q]
        &&& forall|q: int| idx < q < p.child_seq().len() ==> #[trigger] p.child_seq()[q] == o.child_seq()[q + 1]
        &&& Self::joins(*p.child_seq()[idx], *o.child_seq()[idx], o.key_seq()[idx], *o.child_seq()[idx + 1])
    }

    /// Joins children `idx` and `idx + 1` around the key between them into
    /// one child.
    fn merge_children(&mut self, idx: usize)
        requires
            old(self).wf(),
            !old(self).is_leaf(),
            idx < old(self).key_seq().len(),
            old(self).child_seq()[idx as int].key_seq().len() < old(self).degree(),
            old(self).child_seq()[idx + 1].key_seq().len() < old(self).degree(),
        ensures
            final(self).wf(),
            final(self).degree() == old(self).degree(),
            final(self).is_leaf() == old(self).is_leaf(),
            final(self).height() == old(self).height(),
            forall|x: int| #[trigger] final(self).has(x) == old(self).has(x),
            final(self).key_seq() == old(self).key_seq().remove(idx as int),
            final(self).child_seq().len() == old(self).child_seq().len() - 1,
            final(self).child_seq()[idx as int].key_seq().len() == old(self).child_seq()[idx as int].key_seq().len()
                + old(self).child_seq()[idx + 1].key_seq().len() + 1,
            Self::merged(*final(self), *old(self), idx as int),
    {
        let ghost o = *self;
        proof {
            o.lemma_wf();
            o.lemma_wf_child(idx as int);
            o.lemma_wf_child(idx + 1);
            o.children@[idx as int].lemma_wf();
            o.children@[idx + 1].lemma_wf();
        }
        let mut child = *self.children.remove(idx);
        let sibling = *self.children.remove(idx);
        let ghost c1 = child;
        let ghost c2 = sibling;
        let key = self.keys.remove(idx);
        let BTreeNode { keys: mut sibling_keys, children: mut sibling_children, .. } = sibling;
        child.keys.push(key);
        child.keys.append(&mut sibling_keys);
        if !child.leaf {
            child.children.append(&mut sibling_children);
        }
        proof {
            assert(child.keys@ =~= c1.keys@ + seq![key] + c2.keys@);
            assert(child.children@ =~= c1.children@ + c2.children@);
            Self::lemma_join_has(child, c1, key, c2);
            assert forall|x: int| #[trigger] c1.has(x) implies x < key by {
                assert(o.in_range(idx as int, x));
            }
            assert forall|x: int| #[trigger] c2.has(x) implies x > key by {
                assert(o.in_range(idx + 1, x));
            }
            Self::lemma_join_wf(child, c1, key, c2);
        }
        self.children.insert(idx, Box::new(child));
        proof {
            assert(o.keys@ =~= self.keys@.insert(idx as int, key));
            assert forall|q: int| idx + 1 < q < o.children@.len() implies #[trigger] o.children@[q] == self.children@[q - 1] by {}
            assert(Self::widens(o, *self, idx as int, c1, key, c2));
            Self::lemma_widen(o, *self, idx as int, c1, key, c2);
            Self::lemma_narrow_wf(o, *self, idx as int, c1, key, c2);
            assert forall|q: int| idx < q < self.children@.len() implies #[trigger] self.children@[q] == o.children@[q + 1] by {
                assert(o.children@[q + 1] == self.children@[q + 1 - 1]);
            }
        }
    }

    /// Moves one key from child `idx - 1` through the parent into child `idx`.
    fn borrow_from_prev(&mut self, idx: usize)
        requires
            old(self).wf(),
            !old(self).is_leaf(),
            1 <= idx < old(self).child_seq().len(),
            old(self).child_seq()[idx - 1].key_seq().len() >= old(self).degree(),
            old(self).child_seq()[idx as int].key_seq().len() < old(self).degree(),
        ensures
            final(self).wf(),
            final(self).degree() == old(self).degree(),
            final(self).is_leaf() == old(self).is_leaf(),
            final(self).height() == old(self).height(),
            forall|x: int| #[trigger] final(self).has(x) == old(self).has(x),
            final(self).key_seq().len() == old(self).key_seq().len(),
            final(self).child_seq().len() == old(self).child_seq().len(),
            final(self).child_seq()[idx as int].key_seq().len() == old(self).child_seq()[idx as int].key_seq().len() + 1,
            forall|x: int| old(self).in_range(idx as int, x) ==> #[trigger] final(self).in_range(idx as int, x),
            Self::took_from_prev(*final(self), *old(self), idx as int),
    {
        let ghost o = *self;
        proof {
            o.lemma_wf();
            o.lemma_wf_child(idx - 1);
            o.lemma_wf_child(idx as int);
            o.children@[idx - 1].lemma_wf();
            o.children@[idx as int].lemma_wf();
        }
        let mut child = *self.children.remove(idx);
        let mut sibling = *self.children.remove(idx - 1);
        let ghost c = child;
        let ghost s = sibling;
        let ghost g: BTreeNode = if c.leaf { c } else { *s.children@.last() };
        let parent_key = self.keys[idx - 1];
        child.keys.insert(0, parent_key);
        if !child.leaf {
            let last = sibling.children.pop().unwrap();
            child.children.insert(0, last);
        }
        let sibling_key = sibling.keys.pop().unwrap();
        self.keys.set(idx - 1, sibling_key);
        proof {
            let s2 = sibling;
            let c2 = child;
            assert(s.keys@ =~= s2.keys@.push(sibling_key));
            assert(s.children@ =~= if s2.leaf { s2.children@ } else { s2.children@.push(Box::new(g)) });
            assert(c2.keys@ =~= seq![parent_key] + c.keys@);
            assert(c2.children@ =~= if c.leaf { c.children@ } else { seq![Box::new(g)] + c.children@ });
            Self::lemma_back_has(s, s2, sibling_key, g);
            Self::lemma_back_wf_down(s, s2, sibling_key, g);
            Self::lemma_front_has(c2, c, parent_key, g);
            assert forall|x: int| #[trigger] c.has(x) implies parent_key < x by {
                assert(o.in_range(idx as int, x));
            }
            assert(s.has(sibling_key as int));
            if !c.leaf {
                assert forall|x: int| #[trigger] g.has(x) implies x < parent_key by {
                    assert(s.has(x));
                    assert(o.in_range(idx - 1, x));
                }
            }
            Self::lemma_front_wf_up(c2, c, parent_key, g);
        }
        self.children.insert(idx - 1, Box::new(sibling));
        self.children.insert(idx, Box::new(child));
        proof {
            assert(self.children@ =~= o.children@.update(idx - 1, Box::new(sibling)).update(idx as int, Box::new(child)));
            assert(Self::rotates(*self, o, idx - 1, sibling, sibling_key, child));
            Self::lemma_rotate(*self, o, idx - 1, sibling, sibling_key, child);
            assert forall|x: int| #[trigger] self.has(x) == o.has(x) by {
                if o.children@[idx - 1].has(x) {
                    o.lemma_child_has(idx - 1, x);
                }
                if o.children@[idx as int].has(x) {
                    o.lemma_child_has(idx as int, x);
                }
                if x == o.keys@[idx - 1] {
                    o.lemma_key_has(idx - 1);
                }
            }
        }
    }

    /// Moves one key from child `idx + 1` through the parent into child `idx`.
    fn borrow_from_next(&mut self, idx: usize)
        requires
            old(self).wf(),
            !old(self).is_leaf(),
            idx + 1 < old(self).child_seq().len(),
            old(self).child_seq()[idx + 1].key_seq().len() >= old(self).degree(),
            old(self).child_seq()[idx as int].key_seq().len() < old(self).degree(),
        ensures
            final(self).wf(),
            final(self).degree() == old(self).degree(),
            final(self).is_leaf() == old(self).is_leaf(),
            final(self).height() == old(self).height(),
            forall|x: int| #[trigger] final(self).has(x) == old(self).has(x),
            final(self).key_seq().len() == old(self).key_seq().len(),
            final(self).child_seq().len() == old(self).child_seq().len(),
            final(self).child_seq()[idx as int].key_seq().len() == old(self).child_seq()[idx as int].key_seq().len() + 1,
            forall|x: int| old(self).in_range(idx as int, x) ==> #[trigger] final(self).in_range(idx as int, x),
            Self::took_from_next(*final(self), *old(self), idx as int),
    {
        let ghost o = *self;
        proof {
            o.lemma_wf();
            o.lemma_wf_child(idx + 1);
            o.lemma_wf_child(idx as int);
            o.children@[idx + 1].lemma_wf();
            o.children@[idx as int].lemma_wf();
        }
        let mut sibling = *self.children.remove(idx + 1);
        let mut child = *self.children.remove(idx);
        let ghost c = child;
        let ghost s = sibling;
        let ghost g: BTreeNode = if c.leaf { c } else { *s.children@[0] };
        let parent_key = self.keys[idx];
        child.keys.push(parent_key);
        if !child.leaf {
            let first = sibling.children.remove(0);
            child.children.push(first);
        }
        let sibling_key = sibling.keys.remove(0);
        self.keys.set(idx, sibling_key);
        proof {
            let s2 = sibling;
            let c2 = child;
            assert(s.keys@ =~= seq![sibling_key] + s2.keys@);
            assert(s.children@ =~= if s2.leaf { s2.children@ } else { seq![Box::new(g)] + s2.children@ });
            assert(c2.keys@ =~= c.keys@.push(parent_key));
            assert(c2.children@ =~= if c.leaf { c.children@ } else { c.children@.push(Box::new(g)) });
            Self::lemma_front_has(s, s2, sibling_key, g);
            Self::lemma_front_wf_down(s, s2, sibling_key, g);
            Self::lemma_back_has(c2, c, parent_key, g);
            assert forall|x: int| #[trigger] c.has(x) implies x < parent_key by {
                assert(o.in_range(idx as int, x));
            }
            assert(s.has(sibling_key as int));
            if !c.leaf {
                assert forall|x: int| #[trigger] g.has(x) implies parent_key < x by {
                    assert(s.has(x));
                    assert(o.in_range(idx + 1, x));
                }
            }
            Self::lemma_back_wf_up(c2, c, parent_key, g);
        }
        self.children.insert(idx, Box::new(child));
        self.children.insert(idx + 1, Box::new(sibling));
        proof {
            assert(self.children@ =~= o.children@.update(idx as int, Box::new(child)).update(idx + 1, Box::new(sibling)));
            assert(Self::rotates(*self, o, idx as int, child, sibling_key, sibling));
            Self::lemma_rotate(*self, o, idx as int, child, sibling_key, sibling);
            assert forall|x: int| #[trigger] self.has(x) == o.has(x) by {
                if o.children@[idx + 1].has(x) {
                    o.lemma_child_has(idx + 1, x);
                }
                if o.children@[idx as int].has(x) {
                    o.lemma_child_has(idx as int, x);
                }
                if x == o.keys@[idx as int] {
                    o.lemma_key_has(idx as int);
                }
            }
        }
    }
}

impl BTreeNode {
    /// Brings child `idx`, which holds fewer than `t` keys, up to at least
    /// `t` keys by borrowing from a sibling or merging with one. Returns the
    /// index of the child that now covers the keys child `idx` covered.
    fn fill_child(&mut self, idx: usize) -> (r: usize)
        requires
            old(self).wf(),
            !old(self).is_leaf(),
            old(self).key_seq().len() >= 1,
            idx < old(self).child_seq().len(),
            old(self).child_seq()[idx as int].key_seq().len() < old(self).degree(),
        ensures
            final(self).wf(),
            final(self).degree() == old(self).degree(),
            final(self).is_leaf() == old(self).is_leaf(),
            final(self).height() == old(self).height(),
            forall|x: int| #[trigger] final(self).has(x) == old(self).has(x),
            final(self).key_seq().len() + 1 >= old(self).key_seq().len(),
            r < final(self).child_seq().len(),
            final(self).child_seq()[r as int].key_seq().len() >= final(self).degree(),
            forall|x: int| old(self).in_range(idx as int, x) ==> #[trigger] final(self).in_range(r as int, x),
            idx > 0 && old(self).child_seq()[idx - 1].key_seq().len() >= old(self).degree() ==> {
                &&& r == idx
                &&& Self::took_from_prev(*final(self), *old(self), idx as int)
            },
            !(idx > 0 && old(self).child_seq()[idx - 1].key_seq().len() >= old(self).degree())
                && idx + 1 < old(self).child_seq().len()
                && old(self).child_seq()[idx + 1].key_seq().len() >= old(self).degree() ==> {
                &&& r == idx
                &&& Self::took_from_next(*final(self), *old(self), idx as int)
            },
            !(idx > 0 && old(self).child_seq()[idx - 1].key_seq().len() >= old(self).degree())
                && !(idx + 1 < old(self).child_seq().len()
                && old(self).child_seq()[idx + 1].key_seq().len() >= old(self).degree()) ==> {
                &&& r == if idx + 1 == old(self).child_seq().len() { idx - 1 } else { idx as int }
                &&& Self::merged(*final(self), *old(self), r as int)
            },
    {
        let ghost o = *self;
        proof {
            o.lemma_wf();
            o.lemma_wf_child(idx as int);
        }
        if idx != 0 && self.children[idx - 1].keys.len() >= self.t {
            self.borrow_from_prev(idx);
            idx
        } else if idx < self.children.len() - 1 && self.children[idx + 1].keys.len() >= self.t {
            self.borrow_from_next(idx);
            idx
        } else if idx != self.children.len() - 1 {
            proof {
                o.lemma_wf_child(idx as int);
                o.lemma_wf_child(idx + 1);
            }
            self.merge_children(idx);
            idx
        } else {
            proof {
                o.lemma_wf_child(idx as int);
                o.lemma_wf_child(idx - 1);
            }
            self.merge_children(idx - 1);
            idx - 1
        }
    }

    proof fn lemma_outer_child(self, last: bool, x: int, y: int)
        requires
            self.wf(),
            !self.leaf,
            self.has(x),
            self.children@[if last { self.keys@.len() as int } else { 0 }].has(y),
            !self.children@[if last { self.keys@.len() as int } else { 0 }].has(x),
        ensures
            if last { x < y } else { y < x },
    {
        reveal_with_fuel(BTreeNode::wf, 1);
        broadcast use BTreeNode::lemma_has;
        let n = self.keys@.len() as int;
        let e: int = if last { n } else { 0 };
        assert(self.children@[e].has(y));
        if exists|q: int| 0 <= q < self.children@.len() && #[trigger] self.children@[q].has(x) {
            let q = choose|q: int| 0 <= q < self.children@.len() && #[trigger] self.children@[q].has(x);
            if last {
                assert(q == n - 1 || self.keys@[q] < self.keys@[n - 1]);
            } else {
                assert(q == 1 || self.keys@[q - 1] > self.keys@[0]);
            }
        } else {
            let q = choose|q: int| 0 <= q < self.keys@.len() && self.keys@[q] == x;
            if last {
                assert(q == n - 1 || self.keys@[q] < self.keys@[n - 1]);
            } else {
                assert(q == 0 || self.keys@[q] > self.keys@[0]);
            }
        }
    }

    proof fn lemma_leaf_keys(self, x: int)
        requires
            self.wf(),
            self.leaf,
        ensures
            self.has(x) <==> exists|q: int| 0 <= q < self.keys@.len() && self.keys@[q] == x,
    {
        reveal_with_fuel(BTreeNode::wf, 1);
        broadcast use BTreeNode::lemma_has;
    }

    /// The largest key under child `idx`.
    fn get_predecessor(&self, idx: usize) -> (r: i32)
        requires
            self.wf(),
            !self.is_leaf(),
            idx < self.child_seq().len(),
        ensures
            self.child_seq()[idx as int].has(r as int),
            forall|x: int| #[trigger] self.child_seq()[idx as int].has(x) ==> x <= r,
    {
        proof {
            self.lemma_wf();
            self.lemma_wf_child(idx as int);
        }
        let ghost sub = *self.children@[idx as int];
        let mut node: &BTreeNode = &self.children[idx];
        while !node.leaf
            invariant
                node.wf(),
                node.keys@.len() >= 1,
                forall|x: int| #[trigger] node.has(x) ==> sub.has(x),
                forall|x: int, y: int| #[trigger] sub.has(x) && !node.has(x) && #[trigger] node.has(y) ==> x < y,
            decreases node.height(),
        {
            proof {
                node.lemma_wf();
                let last = node.keys@.len() as int;
                node.lemma_wf_child(last);
                let nx = *node.children@[last];
                assert forall|x: int| #[trigger] nx.has(x) implies sub.has(x) by {
                    node.lemma_child_has(last, x);
                }
                assert forall|x: int, y: int| #[trigger] sub.has(x) && !nx.has(x) && #[trigger] nx.has(y) implies x < y by {
                    node.lemma_child_has(last, y);
                    if node.has(x) {
                        node.lemma_outer_child(true, x, y);
                    }
                }
            }
            node = &node.children[node.children.len() - 1];
        }
        proof {
            node.lemma_wf();
            let last = node.keys@.len() - 1;
            node.lemma_leaf_keys(node.keys@[last] as int);
            assert forall|x: int| #[trigger] sub.has(x) implies x <= node.keys@[last] by {
                node.lemma_leaf_keys(x);
                node.lemma_leaf_keys(node.keys@[last] as int);
                if node.has(x) {
                    let q = choose|q: int| 0 <= q < node.keys@.len() && node.keys@[q] == x;
                    assert(q == last || node.keys@[q] < node.keys@[last]);
                }
            }
        }
        node.keys[node.keys.len() - 1]
    }

    /// The smallest key under child `idx + 1`.
    fn get_successor(&self, idx: usize) -> (r: i32)
        requires
            self.wf(),
            !self.is_leaf(),
            idx + 1 < self.child_seq().len(),
        ensures
            self.child_seq()[idx + 1].has(r as int),
            forall|x: int| #[trigger] self.child_seq()[idx + 1].has(x) ==> r <= x,
    {
        proof {
            self.lemma_wf();
            self.lemma_wf_child(idx + 1);
        }
        let ghost sub = *self.children@[idx + 1];
        let mut node: &BTreeNode = &self.children[idx + 1];
        while !node.leaf
            invariant
                node.wf(),
                node.keys@.len() >= 1,
                forall|x: int| #[trigger] node.has(x) ==> sub.has(x),
                forall|x: int, y: int| #[trigger] sub.has(x) && !node.has(x) && #[trigger] node.has(y) ==> y < x,
            decreases node.height(),
        {
            proof {
                node.lemma_wf();
                node.lemma_wf_child(0);
                let nx = *node.children@[0];
                assert forall|x: int| #[trigger] nx.has(x) implies sub.has(x) by {
                    node.lemma_child_has(0, x);
                }
                assert forall|x: int, y: int| #[trigger] sub.has(x) && !nx.has(x) && #[trigger] nx.has(y) implies y < x by {
                    node.lemma_child_has(0, y);
                    if node.has(x) {
                        node.lemma_outer_child(false, x, y);
                    }
                }
            }
            node = &node.children[0];
        }
        proof {
            node.lemma_wf();
            node.lemma_leaf_keys(node.keys@[0] as int);
            assert forall|x: int| #[trigger] sub.has(x) implies node.keys@[0] <= x by {
                node.lemma_leaf_keys(x);
                node.lemma_leaf_keys(node.keys@[0] as int);
                if node.has(x) {
                    let q = choose|q: int| 0 <= q < node.keys@.len() && node.keys@[q] == x;
                    assert(q == 0 || node.keys@[q] > node.keys@[0]);
                }
            }
        }
        node.keys[0]
    }
}

impl BTreeNode {
    proof fn lemma_leaf_remove(o: BTreeNode, n: BTreeNode, i: int)
        requires
            o.wf(),
            o.leaf,
            n.leaf,
            n.t == o.t,
            n.children@ == o.children@,
            0 <= i < o.keys@.len(),
            n.keys@ == o.keys@.remove(i),
        ensures
            n.wf(),
            n.height() == o.height(),
            forall|x: int| #[trigger] n.has(x) == (o.has(x) && x != o.keys@[i]),
    {
        reveal_with_fuel(BTreeNode::wf, 1);
        broadcast use BTreeNode::lemma_has;
        let ok = o.keys@;
        let nk = n.keys@;
        assert forall|a: int, b: int| 0 <= a < b < nk.len() implies nk[a] < nk[b] by {
            if a < i && b >= i {
                assert(nk[a] == ok[a] && nk[b] == ok[b + 1]);
            } else if a >= i {
                assert(nk[a] == ok[a + 1] && nk[b] == ok[b + 1]);
            }
        }
        assert forall|x: int| #[trigger] n.has(x) == (o.has(x) && x != ok[i]) by {
            if n.has(x) {
                let q = choose|q: int| 0 <= q < nk.len() && nk[q] == x;
                if q < i {
                    assert(ok[q] == x);
                } else {
                    assert(ok[q + 1] == x);
                }
            }
            if o.has(x) && x != ok[i] {
                let q = choose|q: int| 0 <= q < ok.len() && ok[q] == x;
                if q < i {
                    assert(nk[q] == x);
                } else {
                    assert(nk[q - 1] == x);
                }
            }
        }
    }

    /// Removes `k` from the subtree rooted at this node. Returns whether it
    /// was there.
    pub fn delete(&mut self, k: i32) -> (r: bool)
        requires
            old(self).wf(),
            old(self).is_leaf() || old(self).key_seq().len() >= 1,
        ensures
            final(self).wf(),
            final(self).degree() == old(self).degree(),
            final(self).is_leaf() == old(self).is_leaf(),
            final(self).height() == old(self).height(),
            final(self).key_seq().len() + 1 >= old(self).key_seq().len(),
            r == old(self).has(k as int),
            forall|x: int| #[trigger] final(self).has(x) == (old(self).has(x) && x != k),
        decreases old(self).height(), 1nat,
    {
        let ghost o = *self;
        proof {
            o.lemma_wf();
        }
        let idx = self.find_key_index(k);
        if idx < self.keys.len() && self.keys[idx] == k {
            if self.leaf {
                self.keys.remove(idx);
                proof {
                    Self::lemma_leaf_remove(o, *self, idx as int);
                    o.lemma_key_has(idx as int);
                }
                true
            } else {
                proof {
                    o.lemma_key_has(idx as int);
                }
                self.delete_from_internal_node(idx)
            }
        } else {
            if self.leaf {
                proof {
                    o.lemma_leaf_keys(k as int);
                    if o.has(k as int) {
                        let q = choose|q: int| 0 <= q < o.keys@.len() && o.keys@[q] == k;
                        assert(q >= idx);
                        assert(q == idx || o.keys@[q] > o.keys@[idx as int]);
                    }
                }
                false
            } else {
                assert(o.in_range(idx as int, k as int));
                self.delete_from_subtree(idx, k)
            }
        }
    }

    /// Removes the key at `idx` from this internal node, replacing it by its
    /// predecessor or successor, or merging the children around it.
    fn delete_from_internal_node(&mut self, idx: usize) -> (r: bool)
        requires
            old(self).wf(),
            !old(self).is_leaf(),
            idx < old(self).key_seq().len(),
        ensures
            final(self).wf(),
            final(self).degree() == old(self).degree(),
            final(self).is_leaf() == old(self).is_leaf(),
            final(self).height() == old(self).height(),
            final(self).key_seq().len() + 1 >= old(self).key_seq().len(),
            r,
            forall|x: int| #[trigger] final(self).has(x) == (old(self).has(x) && x != old(self).key_seq()[idx as int]),
            old(self).child_seq()[idx as int].key_seq().len() >= old(self).degree() ==> {
                &&& final(self).key_seq() == old(self).key_seq().update(idx as int, final(self).key_seq()[idx as int])
                &&& old(self).child_seq()[idx as int].has(final(self).key_seq()[idx as int] as int)
                &&& forall|x: int| #[trigger] old(self).child_seq()[idx as int].has(x) ==> x <= final(self).key_seq()[idx as int]
            },
            old(self).child_seq()[idx as int].key_seq().len() < old(self).degree()
                && old(self).child_seq()[idx + 1].key_seq().len() >= old(self).degree() ==> {
                &&& final(self).key_seq() == old(self).key_seq().update(idx as int, final(self).key_seq()[idx as int])
                &&& old(self).child_seq()[idx + 1].has(final(self).key_seq()[idx as int] as int)
                &&& forall|x: int| #[trigger] old(self).child_seq()[idx + 1].has(x) ==> final(self).key_seq()[idx as int] <= x
            },
            old(self).child_seq()[idx as int].key_seq().len() < old(self).degree()
                && old(self).child_seq()[idx + 1].key_seq().len() < old(self).degree()
                ==> final(self).key_seq() == old(self).key_seq().remove(idx as int),
        decreases old(self).height(), 0nat,
    {
        let ghost o = *self;
        let ghost k = o.keys@[idx as int] as int;
        proof {
            o.lemma_wf();
            o.lemma_wf_child(idx as int);
            o.lemma_wf_child(idx + 1);
            o.lemma_key_has(idx as int);
        }
        if self.children[idx].keys.len() >= self.t {
            let predecessor = self.get_predecessor(idx);
            self.keys.set(idx, predecessor);
            let ghost c = *self.children@[idx as int];
            let ghost d = *self.children@[idx + 1];
            let mut child = *self.children.remove(idx);
            let r = child.delete(predecessor);
            self.children.insert(idx, Box::new(child));
            proof {
                c.lemma_wf();
                child.lemma_wf();
                assert(self.children@ =~= o.children@.update(idx as int, Box::new(child)).update(idx + 1, Box::new(d)));
                assert(o.in_range(idx as int, predecessor as int));
                assert forall|x: int| #[trigger] child.has(x) implies x < predecessor by {}
                assert forall|x: int| #[trigger] d.has(x) implies x > predecessor by {
                    assert(o.in_range(idx + 1, x));
                }
                assert(Self::rotates(*self, o, idx as int, child, predecessor, d));
                Self::lemma_rotate(*self, o, idx as int, child, predecessor, d);
                assert forall|x: int| #[trigger] self.has(x) == (o.has(x) && x != k) by {
                    if Self::in_pair(o, idx as int, x) {
                        if c.has(x) {
                            o.lemma_child_has(idx as int, x);
                            assert(o.in_range(idx as int, x));
                        }
                        if d.has(x) {
                            o.lemma_child_has(idx + 1, x);
                            assert(o.in_range(idx + 1, x));
                        }
                    }
                }
            }
            r
        } else if self.children[idx + 1].keys.len() >= self.t {
            let successor = self.get_successor(idx);
            self.keys.set(idx, successor);
            let ghost c = *self.children@[idx as int];
            let ghost d = *self.children@[idx + 1];
            let mut child = *self.children.remove(idx + 1);
            let r = child.delete(successor);
            self.children.insert(idx + 1, Box::new(child));
            proof {
                d.lemma_wf();
                child.lemma_wf();
                assert(self.children@ =~= o.children@.update(idx as int, Box::new(c)).update(idx + 1, Box::new(child)));
                assert(o.in_range(idx + 1, successor as int));
                assert forall|x: int| #[trigger] child.has(x) implies x > successor by {}
                assert forall|x: int| #[trigger] c.has(x) implies x < successor by {
                    assert(o.in_range(idx as int, x));
                }
                assert(Self::rotates(*self, o, idx as int, c, successor, child));
                Self::lemma_rotate(*self, o, idx as int, c, successor, child);
                assert forall|x: int| #[trigger] self.has(x) == (o.has(x) && x != k) by {
                    if Self::in_pair(o, idx as int, x) {
                        if c.has(x) {
                            o.lemma_child_has(idx as int, x);
                            assert(o.in_range(idx as int, x));
                        }
                        if d.has(x) {
                            o.lemma_child_has(idx + 1, x);
                            assert(o.in_range(idx + 1, x));
                        }
                    }
                }
            }
            r
        } else {
            let key = self.keys[idx];
            self.merge_children(idx);
            let ghost mid = *self;
            proof {
                mid.lemma_wf();
                mid.lemma_wf_child(idx as int);
                mid.children@[idx as int].lemma_wf();
                assert(mid.in_range(idx as int, k));
                mid.lemma_descend(idx as int, k);
            }
            let mut child = *self.children.remove(idx);
            let r = child.delete(key);
            self.children.insert(idx, Box::new(child));
            proof {
                assert(self.children@ =~= mid.children@.update(idx as int, Box::new(child)));
                Self::lemma_replace_child(*self, mid, idx as int, child);
                assert forall|x: int| #[trigger] self.has(x) == (o.has(x) && x != k) by {
                    if mid.in_range(idx as int, x) {
                        mid.lemma_descend(idx as int, x);
                    }
                }
            }
            r
        }
    }

    /// Removes `k`, which lies between the separators around child `idx`,
    /// from the subtree under that child, first topping the child up when it
    /// holds the minimum number of keys.
    fn delete_from_subtree(&mut self, idx: usize, k: i32) -> (r: bool)
        requires
            old(self).wf(),
            !old(self).is_leaf(),
            old(self).key_seq().len() >= 1,
            idx < old(self).child_seq().len(),
            old(self).in_range(idx as int, k as int),
        ensures
            final(self).wf(),
            final(self).degree() == old(self).degree(),
            final(self).is_leaf() == old(self).is_leaf(),
            final(self).height() == old(self).height(),
            final(self).key_seq().len() + 1 >= old(self).key_seq().len(),
            r == old(self).has(k as int),
            forall|x: int| #[trigger] final(self).has(x) == (old(self).has(x) && x != k),
        decreases old(self).height(), 0nat,
    {
        let ghost o = *self;
        proof {
            o.lemma_wf();
            o.lemma_wf_child(idx as int);
        }
        let mut ci = idx;
        if self.children[idx].keys.len() < self.t {
            ci = self.fill_child(idx);
        }
        let ghost mid = *self;
        proof {
            mid.lemma_wf();
            mid.lemma_wf_child(ci as int);
            mid.children@[ci as int].lemma_wf();
            assert(mid.in_range(ci as int, k as int));
            mid.lemma_descend(ci as int, k as int);
            o.lemma_descend(idx as int, k as int);
        }
        let mut child = *self.children.remove(ci);
        let r = child.delete(k);
        self.children.insert(ci, Box::new(child));
        proof {
            assert(self.children@ =~= mid.children@.update(ci as int, Box::new(child)));
            Self::lemma_replace_child(*self, mid, ci as int, child);
            assert forall|x: int| #[trigger] self.has(x) == (o.has(x) && x != k) by {
                if mid.in_range(ci as int, x) {
                    mid.lemma_descend(ci as int, x);
                }
            }
        }
        r
    }
}

impl BTreeNode {
    /// An empty node of minimum degree `t`.
    pub fn new(t: usize, leaf: bool) -> (r: Self)
        requires
            2 <= t <= usize::MAX / 2,
        ensures
            r.key_seq().len() == 0,
            r.child_seq().len() == 0,
            r.degree() == t,
            r.is_leaf() == leaf,
            leaf ==> r.wf(),
            forall|x: int| !#[trigger] r.has(x),
    {
        let r = BTreeNode {
            keys: Vec::with_capacity(2 * t - 1),
            children: Vec::with_capacity(2 * t),
            t,
            leaf,
        };
        proof {
            reveal_with_fuel(BTreeNode::wf, 1);
            broadcast use BTreeNode::lemma_has;
        }
        r
    }

    /// The keys of this subtree in increasing order.
    pub fn traverse(&self) -> (r: Vec<i32>)
        requires
            self.wf(),
        ensures
            strictly_sorted(r@),
            forall|x: i32| r@.contains(x) <==> #[trigger] self.has(x as int),
        decreases self.height(),
    {
        proof {
            self.lemma_wf();
        }
        let n = self.keys.len();
        let mut out: Vec<i32> = Vec::new();
        let mut i: usize = 0;
        while i < n
            invariant
                self.wf(),
                n == self.keys@.len(),
                i <= n,
                strictly_sorted(out@),
                i == 0 ==> out@.len() == 0,
                i > 0 ==> forall|q: int| 0 <= q < out@.len() ==> out@[q] <= self.keys@[i - 1],
                forall|y: i32|
                    #[trigger] out@.contains(y) <==> (exists|j: int| 0 <= j < i && self.keys@[j] == y)
                        || (!self.leaf && exists|j: int| 0 <= j < i && #[trigger] self.children@[j].has(y as int)),
            decreases n - i,
        {
            let ghost before = out@;
            let ghost mut sv: Seq<i32> = Seq::empty();
            if !self.leaf {
                proof {
                    self.lemma_wf();
                    self.lemma_wf_child(i as int);
                }
                let mut sub = self.children[i].traverse();
                proof {
                    sv = sub@;
                }
                out.append(&mut sub);
            }
            proof {
                assert(out@ =~= before + sv);
                assert forall|q: int| 0 <= q < sv.len() implies self.in_range(i as int, sv[q] as int) by {
                    let y = sv[q];
                    assert(sv.contains(y));
                    assert(self.children@[i as int].has(y as int));
                }
                assert forall|y: i32| #[trigger] sv.contains(y) <==> (!self.leaf && self.children@[i as int].has(y as int)) by {
                    if !self.leaf && self.children@[i as int].has(y as int) {
                        assert(sv.contains(y));
                    }
                }
            }
            let ghost mid = out@;
            out.push(self.keys[i]);
            proof {
                let k = self.keys@[i as int];
                assert(out@ =~= before + sv + seq![k]);
                let bl = before.len() as int;
                let ml = bl + sv.len();
                assert forall|q: int| 0 <= q < out@.len() implies #[trigger] out@[q] == if q < bl {
                    before[q]
                } else if q < ml {
                    sv[q - bl]
                } else {
                    k
                } by {}
                self.lemma_wf();
                assert forall|q: int| 0 <= q < ml implies #[trigger] out@[q] < k by {
                    if q < bl {
                        assert(self.keys@[i - 1] < self.keys@[i as int]);
                        assert(before[q] <= self.keys@[i - 1]);
                    } else {
                        assert(self.in_range(i as int, sv[q - bl] as int));
                    }
                }
                assert forall|a: int, b: int| 0 <= a < b < out@.len() implies out@[a] < out@[b] by {
                    if b < bl {
                    } else if b < ml {
                        if a < bl {
                            assert(self.in_range(i as int, sv[b - bl] as int));
                        }
                    } else {
                        assert(out@[a] < k);
                    }
                }
                assert forall|y: i32| #[trigger] out@.contains(y) <==> (exists|j: int| 0 <= j < i + 1 && self.keys@[j] == y)
                        || (!self.leaf && exists|j: int| 0 <= j < i + 1 && #[trigger] self.children@[j].has(y as int)) by {
                    if out@.contains(y) {
                        let q = choose|q: int| 0 <= q < out@.len() && out@[q] == y;
                        if q < before.len() {
                            assert(before.contains(y));
                        } else if q < before.len() + sv.len() {
                            assert(sv.contains(y));
                        }
                    }
                    if exists|j: int| 0 <= j < i + 1 && self.keys@[j] == y {
                        let j = choose|j: int| 0 <= j < i + 1 && self.keys@[j] == y;
                        if j < i {
                            assert(before.contains(y));
                            let q = choose|q: int| 0 <= q < before.len() && before[q] == y;
                            assert(out@[q] == y);
                        } else {
                            assert(out@[out@.len() - 1] == y);
                        }
                    }
                    if !self.leaf && exists|j: int| 0 <= j < i + 1 && #[trigger] self.children@[j].has(y as int) {
                        let j = choose|j: int| 0 <= j < i + 1 && #[trigger] self.children@[j].has(y as int);
                        if j < i {
                            assert(before.contains(y));
                            let q = choose|q: int| 0 <= q < before.len() && before[q] == y;
                            assert(out@[q] == y);
                        } else {
                            assert(sv.contains(y));
                            let q = choose|q: int| 0 <= q < sv.len() && sv[q] == y;
                            assert(out@[q + before.len()] == y);
                        }
                    }
                }
            }
            i += 1;
        }
        if !self.leaf {
            let ghost before = out@;
            proof {
                self.lemma_wf_child(n as int);
            }
            let mut sub = self.children[n].traverse();
            let ghost sv = sub@;
            out.append(&mut sub);
            proof {
                assert forall|y: i32| #[trigger] out@.contains(y) <==> before.contains(y) || sv.contains(y) by {
                    if out@.contains(y) {
                        let q = choose|q: int| 0 <= q < out@.len() && out@[q] == y;
                        if q < before.len() {
                            assert(before[q] == y);
                        } else {
                            assert(sv[q - before.len()] == y);
                        }
                    }
                    if before.contains(y) {
                        let q = choose|q: int| 0 <= q < before.len() && before[q] == y;
                        assert(out@[q] == y);
                    }
                    if sv.contains(y) {
                        let q = choose|q: int| 0 <= q < sv.len() && sv[q] == y;
                        assert(out@[q + before.len()] == y);
                    }
                }
                assert forall|a: int, b: int| 0 <= a < b < out@.len() implies out@[a] < out@[b] by {
                    if b >= before.len() && a < before.len() {
                        assert(out@[b] == sv[b - before.len()]);
                        let y = sv[b - before.len()];
                        assert(sv.contains(y));
                        assert(self.children@[n as int].has(y as int));
                        assert(self.in_range(n as int, y as int));
                    } else if a >= before.len() {
                        assert(out@[a] == sv[a - before.len()]);
                        assert(out@[b] == sv[b - before.len()]);
                    }
                }
                assert forall|x: i32| out@.contains(x) <==> #[trigger] self.has(x as int) by {
                    broadcast use BTreeNode::lemma_has;
                    if self.has(x as int) {
                        if exists|j: int| 0 <= j < self.children@.len() && #[trigger] self.children@[j].has(x as int) {
                            let j = choose|j: int| 0 <= j < self.children@.len() && #[trigger] self.children@[j].has(x as int);
                            if j < n {
                                assert(before.contains(x));
                            } else {
                                assert(sv.contains(x));
                            }
                        } else {
                            let j = choose|j: int| 0 <= j < self.keys@.len() && self.keys@[j] == x;
                            assert(before.contains(x));
                        }
                    }
                    if out@.contains(x) {
                        if before.contains(x) {
                            if exists|j: int| 0 <= j < n && self.keys@[j] == x {
                                let j = choose|j: int| 0 <= j < n && self.keys@[j] == x;
                            } else {
                                let j = choose|j: int| 0 <= j < n && #[trigger] self.children@[j].has(x as int);
                            }
                        } else {
                            assert(sv.contains(x));
                            assert(self.children@[n as int].has(x as int));
                        }
                    }
                }
            }
        } else {
            proof {
                assert forall|x: i32| out@.contains(x) <==> #[trigger] self.has(x as int) by {
                    broadcast use BTreeNode::lemma_has;
                    if self.has(x as int) {
                        let j = choose|j: int| 0 <= j < self.keys@.len() && self.keys@[j] == x;
                        assert(out@.contains(x));
                    }
                }
            }
        }
        out
    }
}

impl BTreeNode {
    /// Whether this node holds the most keys it may hold, `2t - 1`.
    pub fn is_full(&self) -> (r: bool)
        requires
            self.wf(),
        ensures
            r == (self.key_seq().len() == 2 * self.degree() - 1),
    {
        proof {
            self.lemma_wf();
        }
        self.keys.len() == 2 * self.t - 1
    }

    /// Number of keys stored in this node itself.
    pub fn keys_len(&self) -> (r: usize)
        ensures
            r == self.key_seq().len(),
    {
        self.keys.len()
    }

    /// The key at `index` in this node, if there is one.
    pub fn get_key(&self, index: usize) -> (r: Option<i32>)
        ensures
            r == if index < self.key_seq().len() { Some(self.key_seq()[index as int]) } else { None::<i32> },
    {
        if index < self.keys.len() {
            Some(self.keys[index])
        } else {
            None
        }
    }

    /// A copy of the keys stored in this node itself.
    pub fn keys(&self) -> (r: Vec<i32>)
        ensures
            r@ == self.key_seq(),
    {
        let mut out: Vec<i32> = Vec::with_capacity(self.keys.len());
        let mut i: usize = 0;
        while i < self.keys.len()
            invariant
                i <= self.keys@.len(),
                out@ == self.keys@.subrange(0, i as int),
            decreases self.keys@.len() - i,
        {
            out.push(self.keys[i]);
            i += 1;
            assert(out@ =~= self.keys@.subrange(0, i as int));
        }
        assert(out@ =~= self.keys@);
        out
    }

    /// Whether this node has no children.
    pub fn leaf(&self) -> (r: bool)
        ensures
            r == self.is_leaf(),
    {
        self.leaf
    }

    /// The children of this node, in order.
    pub fn children(&self) -> (r: &Vec<Box<BTreeNode>>)
        ensures
            r@ == self.child_seq(),
    {
        &self.children
    }

    /// The smallest key stored in this node itself, if any.
    pub fn first_key(&self) -> (r: Option<i32>)
        ensures
            r == if self.key_seq().len() > 0 { Some(self.key_seq()[0]) } else { None::<i32> },
    {
        if self.keys.len() > 0 {
            Some(self.keys[0])
        } else {
            None
        }
    }

    /// Appends `child` to the children. An empty internal node that receives
    /// a well-formed child this way becomes a well-formed root one level
    /// above it.
    pub fn add_child(&mut self, child: Box<BTreeNode>)
        ensures
            final(self).child_seq() == old(self).child_seq().push(child),
            final(self).key_seq() == old(self).key_seq(),
            final(self).degree() == old(self).degree(),
            final(self).is_leaf() == old(self).is_leaf(),
            old(self).key_seq().len() == 0 && old(self).child_seq().len() == 0 && !old(self).is_leaf()
                && 2 <= old(self).degree() <= usize::MAX / 2 && child.wf() && child.degree() == old(self).degree()
                && child.key_seq().len() >= old(self).degree() - 1 ==> {
                &&& final(self).wf()
                &&& final(self).height() == child.height() + 1
                &&& forall|x: int| #[trigger] final(self).has(x) == child.has(x)
            },
    {
        self.children.push(child);
        proof {
            let o = *old(self);
            if o.keys@.len() == 0 && o.children@.len() == 0 && !o.leaf && 2 <= o.t <= usize::MAX / 2
                && child.wf() && child.t == o.t && child.keys@.len() >= o.t - 1 {
                reveal_with_fuel(BTreeNode::wf, 1);
                broadcast use BTreeNode::lemma_has;
                assert(self.children@[0] == child);
                assert forall|x: int| #[trigger] self.has(x) == child.has(x) by {
                    if self.has(x) {
                        let q = choose|q: int| 0 <= q < self.children@.len() && #[trigger] self.children@[q].has(x);
                    }
                }
                assert(self.wf());
            }
        }
    }

    /// Mutable access to child `index`, if there is one. What is done through
    /// it is not checked against the tree invariants.
    pub fn get_child_mut(&mut self, index: usize) -> (r: Option<&mut Box<BTreeNode>>)
        ensures
            r is Some <==> index < old(self).child_seq().len(),
            r matches Some(c) ==> *c == old(self).child_seq()[index as int],
            r matches Some(c) ==> final(self).child_seq() == old(self).child_seq().update(index as int, *final(c)),
            final(self).key_seq() == old(self).key_seq(),
            final(self).degree() == old(self).degree(),
            final(self).is_leaf() == old(self).is_leaf(),
            r is None ==> final(self).child_seq() == old(self).child_seq(),
    {
        if index < self.children.len() {
            Some(&mut self.children[index])
        } else {
            None
        }
    }

    /// Gives up the node, handing back its children.
    pub fn into_children(self) -> (r: Vec<Box<BTreeNode>>)
        ensures
            r@ == self.child_seq(),
    {
        self.children
    }

    /// Every key of this node itself is in its subtree.
    pub proof fn lemma_key_in_tree(self, i: int)
        requires
            0 <= i < self.key_seq().len(),
        ensures
            self.has(self.key_seq()[i] as int),
    {
        self.lemma_key_has(i);
    }

    /// A well-formed node without keys holds nothing if it is a leaf, and
    /// otherwise exactly what its single child holds.
    pub proof fn lemma_no_keys(self)
        requires
            self.wf(),
            self.key_seq().len() == 0,
        ensures
            self.is_leaf() ==> forall|x: int| !#[trigger] self.has(x),
            !self.is_leaf() ==> self.child_seq().len() == 1,
            !self.is_leaf() ==> forall|x: int| #[trigger] self.has(x) == self.child_seq()[0].has(x),
    {
        broadcast use BTreeNode::lemma_has;
        self.lemma_wf();
        if !self.leaf {
            assert forall|x: int| #[trigger] self.has(x) == self.children@[0].has(x) by {
                if self.has(x) {
                    let q = choose|q: int| 0 <= q < self.children@.len() && #[trigger] self.children@[q].has(x);
                }
            }
        }
    }

    /// The height is bounded through the first keys along the leftmost path,
    /// which strictly decrease.
    pub proof fn lemma_height_bound(self)
        requires
            self.wf(),
            self.key_seq().len() >= 1,
        ensures
            self.height() <= self.key_seq()[0] - i32::MIN + 1,
            !self.is_leaf() ==> self.key_seq()[0] < i32::MAX,
        decreases self.height(),
    {
        self.lemma_wf();
        if !self.leaf {
            self.lemma_wf_child(1);
            let d = *self.children@[1];
            d.lemma_key_has(0);
            assert(self.in_range(1, d.keys@[0] as int));
            self.lemma_wf_child(0);
            let c = *self.children@[0];
            c.lemma_key_has(0);
            assert(self.in_range(0, c.keys@[0] as int));
            c.lemma_height_bound();
        }
    }
}

} // verus!
