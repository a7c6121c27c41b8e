//! The node store: an arena of nodes addressed by stable indices, with
//! parent/child relationships stored as index fields.
//!
//! The store maintains the rooted-tree invariant: index 0 is the single root,
//! every live node except the root has exactly one live parent whose child
//! list names it, and every parent chain reaches the root. Acyclicity is
//! witnessed by a ghost depth map: each live node sits one level below its
//! parent, so no parent chain can loop.

use vstd::prelude::*;

use crate::container::Container;

verus! {

/// Structural failures of the node store. Each mutating operation reports
/// its own failure kind; none fails silently.
#[derive(Clone, Copy, Debug, PartialEq, Eq, Structural)]
pub enum GraphError {
    /// The index does not name a live node.
    StaleIndex,
    /// The root may not be removed.
    RemovingRoot,
    /// The root may not be moved or swapped.
    RootImmobile,
    /// Only childless nodes can be removed.
    NotALeaf,
    /// The edit would make a node its own ancestor.
    WouldCycle,
    /// A sibling shift ran past the first or last position.
    AtEdge,
    /// The requested child position is past the end of the child list.
    BadPosition,
    /// Only index 0 may carry the root payload.
    SecondRoot,
}

/// Sense of a sibling shift: towards the later siblings or the earlier ones.
#[derive(Clone, Copy, Debug, PartialEq, Eq, Structural)]
pub enum ShiftDirection {
    Forward,
    Backward,
}

/// One arena entry. A removed entry stays in place (indices are stable) but
/// is marked dead and keeps no edges.
#[derive(Debug)]
pub struct Node {
    pub parent: Option<usize>,
    pub children: Vec<usize>,
    pub payload: Container,
    pub live: bool,
}

/// The graph engine: node arena plus the ghost depth map that witnesses
/// acyclicity.
pub struct InnerTree {
    pub nodes: Vec<Node>,
    pub depths: Ghost<Map<int, int>>,
}

/// Whether `i` names a live entry of `s`.
pub open spec fn node_live(s: Seq<Node>, i: int) -> bool {
    0 <= i < s.len() && s[i].live
}

/// The parent index recorded at `i`, or -1 where none is.
pub open spec fn parent_of(s: Seq<Node>, i: int) -> int {
    match s[i].parent {
        Option::Some(p) => p as int,
        Option::None => -1,
    }
}

/// One step up the parent chain. The root absorbs (stays 0); anything
/// dead or unparented falls off to -1.
pub open spec fn step(s: Seq<Node>, i: int) -> int {
    if i == 0 {
        0
    } else if node_live(s, i) && parent_of(s, i) >= 0 {
        parent_of(s, i)
    } else {
        -1
    }
}

/// The `k`-th ancestor of `i` under `step`.
pub open spec fn anc(s: Seq<Node>, i: int, k: nat) -> int
    decreases k,
{
    if k == 0 {
        i
    } else {
        anc(s, step(s, i), (k - 1) as nat)
    }
}

/// Whether `r` lies on the ancestor chain of `j` (so `j` is in the subtree
/// rooted at `r`; a node is in its own subtree).
pub open spec fn in_subtree(s: Seq<Node>, j: int, r: int) -> bool {
    exists|k: nat| anc(s, j, k) == r
}

/// Per-node structural conditions of a live node: a real, live parent that
/// lists it as a child, and the root payload only at index 0.
pub open spec fn node_ok(s: Seq<Node>, i: int) -> bool {
    if i == 0 {
        s[0].parent is None && s[0].payload is Root
    } else {
        &&& s[i].parent is Some
        &&& 0 <= parent_of(s, i) < s.len()
        &&& s[parent_of(s, i)].live
        &&& s[parent_of(s, i)].children@.contains(i as usize)
        &&& !(s[i].payload is Root)
    }
}

/// The child list of a live node holds distinct live non-root indices, each
/// of which points back to it.
pub open spec fn children_ok(s: Seq<Node>, i: int) -> bool {
    let c = s[i].children@;
    &&& forall|m: int|
        0 <= m < c.len() ==> node_live(s, #[trigger] c[m] as int) && c[m] as int != 0 && s[c[m]
            as int].parent == Option::Some(i as usize)
    &&& forall|m: int, n: int| 0 <= m < n < c.len() ==> c[m] != c[n]
}

/// The depth map lists every live node one level below its live parent,
/// starting from the root at depth 0. This is the acyclicity witness.
pub open spec fn depth_ok(s: Seq<Node>, d: Map<int, int>, i: int) -> bool {
    &&& d.dom().contains(i)
    &&& d[i] >= 0
    &&& (i == 0 ==> d[i] == 0)
    &&& (i != 0 ==> d[i] == d[parent_of(s, i)] + 1)
}

/// Everything the invariant asks of one arena entry.
pub open spec fn entry_ok(s: Seq<Node>, d: Map<int, int>, i: int) -> bool {
    if s[i].live {
        node_ok(s, i) && children_ok(s, i) && depth_ok(s, d, i)
    } else {
        s[i].children@.len() == 0
    }
}

/// The rooted-tree invariant of the whole arena.
pub open spec fn tree_wf(s: Seq<Node>, d: Map<int, int>) -> bool {
    &&& 1 <= s.len()
    &&& s[0].live
    &&& forall|i: int| 0 <= i < s.len() ==> #[trigger] entry_ok(s, d, i)
}

/// Two arenas describe the same tree: same entries field for field. Stated
/// over views so it is insensitive to reallocation of the child vectors.
pub open spec fn same_tree(s1: Seq<Node>, s2: Seq<Node>) -> bool {
    &&& s1.len() == s2.len()
    &&& forall|i: int|
        0 <= i < s1.len() ==> #[trigger] s1[i].parent == s2[i].parent && s1[i].children@
            == s2[i].children@ && s1[i].payload == s2[i].payload && s1[i].live == s2[i].live
}

/// Along the chain of a live node, every ancestor within the node's depth is
/// live and sits exactly that much higher; past the depth the chain has
/// reached the root and stays there. In particular every parent chain
/// reaches the root: the graph is a rooted tree with no cycles.
pub proof fn lemma_anc_props(s: Seq<Node>, d: Map<int, int>, j: int, k: nat)
    requires
        tree_wf(s, d),
        node_live(s, j),
    ensures
        k <= d[j] ==> node_live(s, anc(s, j, k)) && d[anc(s, j, k)] == d[j] - k,
        k >= d[j] ==> anc(s, j, k) == 0,
    decreases k,
{
    assert(entry_ok(s, d, j));
    if k == 0 {
        if d[j] == 0 && j != 0 {
            let p = parent_of(s, j);
            assert(entry_ok(s, d, p));
        }
    } else {
        if j == 0 {
            lemma_anc_props(s, d, 0, (k - 1) as nat);
        } else {
            let p = parent_of(s, j);
            assert(entry_ok(s, d, p));
            assert(step(s, j) == p);
            lemma_anc_props(s, d, p, (k - 1) as nat);
        }
    }
}

/// Chains compose: walking `a + b` steps is walking `a`, then `b`.
pub proof fn lemma_anc_add(s: Seq<Node>, j: int, a: nat, b: nat)
    ensures
        anc(s, j, a + b) == anc(s, anc(s, j, a), b),
    decreases a,
{
    if a > 0 {
        lemma_anc_add(s, step(s, j), (a - 1) as nat, b);
        assert(anc(s, j, a + b) == anc(s, step(s, j), (a + b - 1) as nat));
    }
}

/// A descendant is at least as deep as the subtree root it sits under.
pub proof fn lemma_subtree_depth(s: Seq<Node>, d: Map<int, int>, j: int, r: int)
    requires
        tree_wf(s, d),
        node_live(s, j),
        node_live(s, r),
        in_subtree(s, j, r),
    ensures
        d[j] >= d[r],
{
    let k = choose|k: nat| anc(s, j, k) == r;
    lemma_anc_props(s, d, j, k);
    assert(entry_ok(s, d, j));
    if k <= d[j] {
        assert(d[r] == d[j] - k);
    } else {
        assert(r == 0);
        assert(entry_ok(s, d, 0));
    }
}

/// A strict descendant sits strictly deeper than the subtree root.
pub proof fn lemma_subtree_depth_strict(s: Seq<Node>, d: Map<int, int>, j: int, r: int)
    requires
        tree_wf(s, d),
        node_live(s, j),
        node_live(s, r),
        j != r,
        in_subtree(s, j, r),
    ensures
        d[j] > d[r],
{
    let k = choose|k: nat| anc(s, j, k) == r;
    assert(k != 0);
    lemma_anc_props(s, d, j, k);
    assert(entry_ok(s, d, j));
    if k <= d[j] {
        assert(d[r] == d[j] - k);
    } else {
        assert(r == 0);
        assert(entry_ok(s, d, 0));
        if j != 0 {
            let p = parent_of(s, j);
            assert(entry_ok(s, d, p));
        }
    }
}

/// A strict descendant's parent is still in the subtree.
pub proof fn lemma_subtree_parent(s: Seq<Node>, j: int, r: int)
    requires
        node_live(s, j),
        j != 0,
        j != r,
        in_subtree(s, j, r),
    ensures
        in_subtree(s, step(s, j), r),
{
    let k = choose|k: nat| anc(s, j, k) == r;
    assert(k != 0);
    assert(anc(s, step(s, j), (k - 1) as nat) == r);
}

/// A node is in every subtree its parent is in.
pub proof fn lemma_subtree_child(s: Seq<Node>, j: int, r: int)
    requires
        in_subtree(s, step(s, j), r),
    ensures
        in_subtree(s, j, r),
{
    let k = choose|k: nat| anc(s, step(s, j), k) == r;
    assert(anc(s, j, k + 1) == anc(s, step(s, j), k));
}

/// The root is in no subtree but its own.
pub proof fn lemma_root_chain(s: Seq<Node>, r: int)
    requires
        r != 0,
    ensures
        !in_subtree(s, 0, r),
{
    assert forall|k: nat| anc(s, 0, k) != r by {
        lemma_anc_zero(s, k);
    }
}

/// The chain of the root never leaves the root.
pub proof fn lemma_anc_zero(s: Seq<Node>, k: nat)
    ensures
        anc(s, 0, k) == 0,
    decreases k,
{
    if k > 0 {
        lemma_anc_zero(s, (k - 1) as nat);
    }
}

/// Subtrees of two nodes neither of which sits under the other are disjoint.
pub proof fn lemma_subtree_disjoint(s: Seq<Node>, j: int, a: int, b: int)
    requires
        !in_subtree(s, a, b),
        in_subtree(s, j, a),
        in_subtree(s, j, b),
    ensures
        in_subtree(s, b, a),
{
    let k1 = choose|k: nat| anc(s, j, k) == a;
    let k2 = choose|k: nat| anc(s, j, k) == b;
    if k1 <= k2 {
        lemma_anc_add(s, j, k1, (k2 - k1) as nat);
        assert(anc(s, a, (k2 - k1) as nat) == b);
    } else {
        lemma_anc_add(s, j, k2, (k1 - k2) as nat);
        assert(anc(s, b, (k1 - k2) as nat) == a);
    }
}

/// No two positions of the sequence hold the same index.
pub open spec fn seq_distinct(c: Seq<usize>) -> bool {
    forall|m: int, n: int| 0 <= m < n < c.len() ==> c[m] != c[n]
}

proof fn lemma_push_props(c: Seq<usize>, v: usize)
    requires
        seq_distinct(c),
        !c.contains(v),
    ensures
        seq_distinct(c.push(v)),
        c.push(v).contains(v),
        forall|x: usize| c.contains(x) ==> #[trigger] c.push(v).contains(x),
        forall|x: usize| c.push(v).contains(x) ==> x == v || c.contains(x),
{
    let c2 = c.push(v);
    assert(c2[c.len() as int] == v);
    assert forall|x: usize| c.contains(x) implies #[trigger] c2.contains(x) by {
        let m = choose|m: int| 0 <= m < c.len() && c[m] == x;
        assert(c2[m] == x);
    }
    assert forall|x: usize| c2.contains(x) implies x == v || c.contains(x) by {
        let m = choose|m: int| 0 <= m < c2.len() && c2[m] == x;
        if m < c.len() {
            assert(c[m] == x);
        }
    }
}

proof fn lemma_remove_props(c: Seq<usize>, pos: int)
    requires
        0 <= pos < c.len(),
        seq_distinct(c),
    ensures
        seq_distinct(c.remove(pos)),
        forall|x: usize| c.contains(x) && x != c[pos] ==> #[trigger] c.remove(pos).contains(x),
        forall|x: usize| #[trigger] c.remove(pos).contains(x) ==> c.contains(x) && x != c[pos],
{
    let c2 = c.remove(pos);
    assert forall|x: usize| c.contains(x) && x != c[pos] implies #[trigger] c2.contains(x) by {
        let m = choose|m: int| 0 <= m < c.len() && c[m] == x;
        if m < pos {
            assert(c2[m] == x);
        } else {
            assert(c2[m - 1] == x);
        }
    }
    assert forall|x: usize| #[trigger] c2.contains(x) implies c.contains(x) && x != c[pos] by {
        let m = choose|m: int| 0 <= m < c2.len() && c2[m] == x;
        if m < pos {
            assert(c[m] == x);
        } else {
            assert(c[m + 1] == x);
        }
    }
}

proof fn lemma_insert_props(c: Seq<usize>, pos: int, v: usize)
    requires
        0 <= pos <= c.len(),
        seq_distinct(c),
        !c.contains(v),
    ensures
        seq_distinct(c.insert(pos, v)),
        c.insert(pos, v).contains(v),
        forall|x: usize| c.contains(x) ==> #[trigger] c.insert(pos, v).contains(x),
        forall|x: usize| #[trigger] c.insert(pos, v).contains(x) ==> x == v || c.contains(x),
{
    let c2 = c.insert(pos, v);
    assert(c2[pos] == v);
    assert forall|x: usize| c.contains(x) implies #[trigger] c2.contains(x) by {
        let m = choose|m: int| 0 <= m < c.len() && c[m] == x;
        if m < pos {
            assert(c2[m] == x);
        } else {
            assert(c2[m + 1] == x);
        }
    }
    assert forall|x: usize| #[trigger] c2.contains(x) implies x == v || c.contains(x) by {
        let m = choose|m: int| 0 <= m < c2.len() && c2[m] == x;
        if m < pos {
            assert(c[m] == x);
        } else if m > pos {
            assert(c[m - 1] == x);
        }
    }
    assert forall|m: int, n: int| 0 <= m < n < c2.len() implies c2[m] != c2[n] by {
        if m < pos && n > pos {
            assert(c2[m] == c[m] && c2[n] == c[n - 1]);
        }
    }
}

proof fn lemma_swap_props(c: Seq<usize>, a: int, b: int)
    requires
        0 <= a < c.len(),
        0 <= b < c.len(),
        seq_distinct(c),
    ensures
        seq_distinct(c.update(a, c[b]).update(b, c[a])),
        forall|x: usize|
            c.contains(x) ==> #[trigger] c.update(a, c[b]).update(b, c[a]).contains(x),
        forall|x: usize|
            #[trigger] c.update(a, c[b]).update(b, c[a]).contains(x) ==> c.contains(x),
{
    let c2 = c.update(a, c[b]).update(b, c[a]);
    assert forall|x: usize| c.contains(x) implies #[trigger] c2.contains(x) by {
        let m = choose|m: int| 0 <= m < c.len() && c[m] == x;
        if m == a {
            assert(c2[b] == x);
        } else if m == b {
            assert(c2[a] == x);
        } else {
            assert(c2[m] == x);
        }
    }
    assert forall|x: usize| #[trigger] c2.contains(x) implies c.contains(x) by {
        let m = choose|m: int| 0 <= m < c2.len() && c2[m] == x;
        if m == a {
            assert(c[b] == x);
        } else if m == b {
            assert(c[a] == x);
        } else {
            assert(c[m] == x);
        }
    }
}

impl InnerTree {
    /// The arena as a sequence of entries.
    pub open spec fn view_nodes(self) -> Seq<Node> {
        self.nodes@
    }

    /// The rooted-tree invariant.
    pub open spec fn wf(self) -> bool {
        tree_wf(self.nodes@, self.depths@)
    }

    /// A fresh store holding only the root.
    pub fn new() -> (r: InnerTree)
        ensures
            r.wf(),
            r.nodes@.len() == 1,
            r.nodes@[0].payload is Root,
            r.nodes@[0].children@.len() == 0,
            r.nodes@[0].live,
    {
        let mut nodes: Vec<Node> = Vec::new();
        nodes.push(
            Node { parent: None, children: Vec::new(), payload: Container::Root, live: true },
        );
        let t = InnerTree { nodes, depths: Ghost(Map::empty().insert(0, 0)) };
        proof {
            assert forall|i: int| 0 <= i < t.nodes@.len() implies #[trigger] entry_ok(
                t.nodes@,
                t.depths@,
                i,
            ) by {
                assert(i == 0);
            }
        }
        t
    }

    /// Index of the root node.
    pub fn root_ix(&self) -> (r: usize)
        ensures
            r == 0,
    {
        0
    }

    /// The parent of a live node, `None` for the root or a stale index.
    pub fn parent_of(&self, id: usize) -> (r: Option<usize>)
        ensures
            r == (if node_live(self.nodes@, id as int) {
                self.nodes@[id as int].parent
            } else {
                Option::<usize>::None
            }),
    {
        if id < self.nodes.len() && self.nodes[id].live {
            self.nodes[id].parent
        } else {
            None
        }
    }

    /// The ordered child list of a node; empty for a stale index.
    pub fn children_of(&self, id: usize) -> (r: Vec<usize>)
        ensures
            node_live(self.nodes@, id as int) ==> r@ == self.nodes@[id as int].children@,
            !node_live(self.nodes@, id as int) ==> r@.len() == 0,
    {
        let mut out: Vec<usize> = Vec::new();
        if id < self.nodes.len() && self.nodes[id].live {
            let c = &self.nodes[id].children;
            let mut m: usize = 0;
            while m < c.len()
                invariant
                    m <= c.len(),
                    out@ == c@.take(m as int),
                decreases c.len() - m,
            {
                out.push(c[m]);
                proof {
                    assert(c@.take(m + 1 as int) == c@.take(m as int).push(c@[m as int]));
                }
                m = m + 1;
            }
            proof {
                assert(c@.take(c@.len() as int) == c@);
            }
        }
        out
    }

    /// Borrow the payload of a live node.
    pub fn payload_of(&self, id: usize) -> (r: Option<&Container>)
        ensures
            node_live(self.nodes@, id as int) ==> r == Option::Some(
                &self.nodes@[id as int].payload,
            ),
            !node_live(self.nodes@, id as int) ==> r is None,
    {
        if id < self.nodes.len() && self.nodes[id].live {
            Some(&self.nodes[id].payload)
        } else {
            None
        }
    }

    /// Whether `id` names a live node.
    pub fn is_live(&self, id: usize) -> (r: bool)
        ensures
            r == node_live(self.nodes@, id as int),
    {
        id < self.nodes.len() && self.nodes[id].live
    }

    /// Append a fresh node under `parent`. Indices of existing nodes are
    /// untouched; the new node takes the next free index and the last
    /// position among its siblings.
    pub fn add_node(&mut self, parent: usize, payload: Container) -> (r: Result<
        usize,
        GraphError,
    >)
        requires
            old(self).wf(),
        ensures
            final(self).wf(),
            r is Err ==> same_tree(final(self).nodes@, old(self).nodes@),
            r == Result::<usize, GraphError>::Err(GraphError::StaleIndex) <==> !node_live(
                old(self).nodes@,
                parent as int,
            ),
            r == Result::<usize, GraphError>::Err(GraphError::SecondRoot) <==> node_live(
                old(self).nodes@,
                parent as int,
            ) && payload is Root,
            r is Ok <==> node_live(old(self).nodes@, parent as int) && !(payload is Root),
            r matches Ok(n) ==> ({
                let s0 = old(self).nodes@;
                let s2 = final(self).nodes@;
                &&& n as int == s0.len()
                &&& s2.len() == s0.len() + 1
                &&& s2[n as int].parent == Option::Some(parent)
                &&& s2[n as int].payload == payload
                &&& s2[n as int].live
                &&& s2[n as int].children@.len() == 0
                &&& s2[parent as int].children@ == s0[parent as int].children@.push(n)
                &&& s2[parent as int].parent == s0[parent as int].parent
                &&& s2[parent as int].payload == s0[parent as int].payload
                &&& s2[parent as int].live
                &&& forall|i: int| 0 <= i < s0.len() && i != parent as int ==> s2[i] == s0[i]
            }),
    {
        let ghost s0 = self.nodes@;
        let ghost d0 = self.depths@;
        if !(parent < self.nodes.len() && self.nodes[parent].live) {
            return Err(GraphError::StaleIndex);
        }
        if let Container::Root = payload {
            return Err(GraphError::SecondRoot);
        }
        let n = self.nodes.len();
        self.nodes.push(
            Node { parent: Some(parent), children: Vec::new(), payload, live: true },
        );
        let node = &mut self.nodes[parent];
        node.children.push(n);
        proof {
            self.depths@ = d0.insert(n as int, d0[parent as int] + 1);
        }
        proof {
            let s2 = self.nodes@;
            let d2 = self.depths@;
            assert(entry_ok(s0, d0, parent as int));
            assert forall|i: int| 0 <= i < s2.len() implies #[trigger] entry_ok(s2, d2, i) by {
                if i < s0.len() {
                    assert(entry_ok(s0, d0, i));
                }
                if s2[i].live {
                    if i == n as int {
                        assert(s2[parent as int].children@.contains(n)) by {
                            lemma_push_props(s0[parent as int].children@, n);
                        }
                    } else {
                        if i != 0 {
                            let q = parent_of(s0, i);
                            assert(entry_ok(s0, d0, q));
                            assert(q != n as int);
                            if q == parent as int {
                                lemma_push_props(s0[parent as int].children@, n);
                            }
                            assert(s2[q].children@.contains(i as usize));
                        }
                        if i == parent as int {
                            assert forall|m: int|
                                0 <= m < s2[i].children@.len() implies node_live(
                                s2,
                                #[trigger] s2[i].children@[m] as int,
                            ) && s2[i].children@[m] as int != 0 && s2[s2[i].children@[m]
                                as int].parent == Option::Some(i as usize) by {
                                let c0 = s0[i].children@;
                                if m < c0.len() {
                                    assert(node_live(s0, c0[m] as int));
                                } else {
                                    assert(s2[i].children@[m] == n);
                                }
                            }
                            assert(seq_distinct(s2[i].children@)) by {
                                assert forall|m: int|
                                    0 <= m < s0[i].children@.len() implies s0[i].children@[m]
                                    != n by {
                                    assert(node_live(s0, s0[i].children@[m] as int));
                                }
                                lemma_push_props(s0[i].children@, n);
                            }
                            assert(children_ok(s2, i));
                        } else {
                            assert(s2[i].children@ == s0[i].children@);
                            assert forall|m: int|
                                0 <= m < s2[i].children@.len() implies node_live(
                                s2,
                                #[trigger] s2[i].children@[m] as int,
                            ) && s2[i].children@[m] as int != 0 && s2[s2[i].children@[m]
                                as int].parent == Option::Some(i as usize) by {
                                assert(node_live(s0, s2[i].children@[m] as int));
                            }
                            assert(children_ok(s2, i));
                        }
                    }
                }
            }
        }
        Ok(n)
    }

    /// Replace the payload of a live non-root node. The structure and the
    /// payloads of all other nodes are untouched.
    pub fn set_payload(&mut self, id: usize, payload: Container) -> (r: Result<(), GraphError>)
        requires
            old(self).wf(),
        ensures
            final(self).wf(),
            r is Err ==> same_tree(final(self).nodes@, old(self).nodes@),
            r == Result::<(), GraphError>::Err(GraphError::StaleIndex) <==> !node_live(
                old(self).nodes@,
                id as int,
            ),
            r == Result::<(), GraphError>::Err(GraphError::RootImmobile) <==> node_live(
                old(self).nodes@,
                id as int,
            ) && id == 0,
            r == Result::<(), GraphError>::Err(GraphError::SecondRoot) <==> node_live(
                old(self).nodes@,
                id as int,
            ) && id != 0 && payload is Root,
            r is Ok <==> node_live(old(self).nodes@, id as int) && id != 0 && !(payload is Root),
            r is Ok ==> ({
                let s0 = old(self).nodes@;
                let s2 = final(self).nodes@;
                &&& s2.len() == s0.len()
                &&& s2[id as int].payload == payload
                &&& s2[id as int].parent == s0[id as int].parent
                &&& s2[id as int].children@ == s0[id as int].children@
                &&& s2[id as int].live
                &&& forall|i: int| 0 <= i < s0.len() && i != id as int ==> s2[i] == s0[i]
            }),
    {
        let ghost s0 = self.nodes@;
        let ghost d0 = self.depths@;
        if !(id < self.nodes.len() && self.nodes[id].live) {
            return Err(GraphError::StaleIndex);
        }
        if id == 0 {
            return Err(GraphError::RootImmobile);
        }
        if let Container::Root = payload {
            return Err(GraphError::SecondRoot);
        }
        let node = &mut self.nodes[id];
        node.payload = payload;
        proof {
            let s2 = self.nodes@;
            let d2 = self.depths@;
            assert forall|i: int| 0 <= i < s2.len() implies #[trigger] entry_ok(s2, d2, i) by {
                assert(entry_ok(s0, d0, i));
                if s2[i].live {
                    if i != 0 {
                        assert(s2[parent_of(s0, i)].children@ == s0[parent_of(s0, i)].children@);
                    }
                    assert forall|m: int|
                        0 <= m < s2[i].children@.len() implies node_live(
                        s2,
                        #[trigger] s2[i].children@[m] as int,
                    ) && s2[i].children@[m] as int != 0 && s2[s2[i].children@[m] as int].parent
                        == Option::Some(i as usize) by {
                        assert(node_live(s0, s2[i].children@[m] as int));
                    }
                }
            }
        }
        Ok(())
    }

    /// Position of `id` in the child list of `p`.
    pub fn find_child(&self, p: usize, id: usize) -> (r: usize)
        requires
            self.wf(),
            node_live(self.nodes@, p as int),
            self.nodes@[p as int].children@.contains(id),
        ensures
            r < self.nodes@[p as int].children@.len(),
            self.nodes@[p as int].children@[r as int] == id,
    {
        let c = &self.nodes[p].children;
        let mut m: usize = 0;
        loop
            invariant
                m <= c@.len(),
                c@ == self.nodes@[p as int].children@,
                c@.contains(id),
                forall|q: int| 0 <= q < m ==> c@[q] != id,
            decreases c@.len() - m,
        {
            if m >= c.len() {
                proof {
                    let w = choose|w: int| 0 <= w < c@.len() && c@[w] == id;
                    assert(false);
                }
                return 0;
            }
            if c[m] == id {
                return m;
            }
            m = m + 1;
        }
    }

    /// Remove a childless non-root node and hand back its payload. The
    /// entry goes dead but keeps its index; no other node moves.
    pub fn remove_node(&mut self, id: usize) -> (r: Result<Container, GraphError>)
        requires
            old(self).wf(),
        ensures
            final(self).wf(),
            r is Err ==> same_tree(final(self).nodes@, old(self).nodes@),
            r == Result::<Container, GraphError>::Err(GraphError::StaleIndex) <==> !node_live(
                old(self).nodes@,
                id as int,
            ),
            r == Result::<Container, GraphError>::Err(GraphError::RemovingRoot) <==> node_live(
                old(self).nodes@,
                id as int,
            ) && id == 0,
            r == Result::<Container, GraphError>::Err(GraphError::NotALeaf) <==> node_live(
                old(self).nodes@,
                id as int,
            ) && id != 0 && old(self).nodes@[id as int].children@.len() != 0,
            r is Ok <==> node_live(old(self).nodes@, id as int) && id != 0 && old(
                self,
            ).nodes@[id as int].children@.len() == 0,
            r matches Ok(c) ==> ({
                let s0 = old(self).nodes@;
                let s2 = final(self).nodes@;
                let p = parent_of(s0, id as int);
                &&& c == s0[id as int].payload
                &&& s2.len() == s0.len()
                &&& !s2[id as int].live
                &&& s2[id as int].children@.len() == 0
                &&& forall|pos: int|
                    0 <= pos < s0[p].children@.len() && s0[p].children@[pos] == id
                        ==> s2[p].children@ == s0[p].children@.remove(pos)
                &&& s2[p].parent == s0[p].parent
                &&& s2[p].payload == s0[p].payload
                &&& s2[p].live
                &&& forall|i: int| 0 <= i < s0.len() && i != id as int && i != p ==> s2[i] == s0[i]
            }),
    {
        let ghost s0 = self.nodes@;
        let ghost d0 = self.depths@;
        if !(id < self.nodes.len() && self.nodes[id].live) {
            return Err(GraphError::StaleIndex);
        }
        if id == 0 {
            return Err(GraphError::RemovingRoot);
        }
        if self.nodes[id].children.len() != 0 {
            return Err(GraphError::NotALeaf);
        }
        proof {
            assert(entry_ok(s0, d0, id as int));
        }
        let p = match self.nodes[id].parent {
            Some(p) => p,
            None => {
                proof {
                    assert(false);
                }
                return Err(GraphError::StaleIndex);
            },
        };
        let pos = self.find_child(p, id);
        let out = self.nodes[id].payload.clone();
        let pn = &mut self.nodes[p];
        pn.children.remove(pos);
        let node = &mut self.nodes[id];
        node.live = false;
        node.parent = None;
        proof {
            let s2 = self.nodes@;
            let d2 = self.depths@;
            let c0 = s0[p as int].children@;
            assert(entry_ok(s0, d0, p as int));
            lemma_remove_props(c0, pos as int);
            assert forall|i: int| 0 <= i < s2.len() implies #[trigger] entry_ok(s2, d2, i) by {
                assert(entry_ok(s0, d0, i));
                if s2[i].live {
                    assert(i != id as int);
                    if i != 0 {
                        let q = parent_of(s0, i);
                        assert(entry_ok(s0, d0, q));
                        if q == p as int {
                            assert(c0.contains(i as usize));
                            assert(i as usize != c0[pos as int]);
                            assert(s2[q].children@.contains(i as usize));
                        } else {
                            assert(s2[q].children@ == s0[q].children@);
                        }
                    }
                    assert forall|m: int|
                        0 <= m < s2[i].children@.len() implies node_live(
                        s2,
                        #[trigger] s2[i].children@[m] as int,
                    ) && s2[i].children@[m] as int != 0 && s2[s2[i].children@[m] as int].parent
                        == Option::Some(i as usize) by {
                        if i == p as int {
                            assert(s2[i].children@.contains(s2[i].children@[m]));
                            assert(c0.contains(s2[i].children@[m]));
                            let x = s2[i].children@[m];
                            assert(node_live(s0, x as int));
                            assert(x != id);
                        } else {
                            assert(s2[i].children@ == s0[i].children@);
                            assert(node_live(s0, s2[i].children@[m] as int));
                            assert(s2[i].children@[m] != id);
                        }
                    }
                }
            }
        }
        Ok(out)
    }

    /// Whether `target` lies on the ancestor chain of `from` — that is,
    /// whether `from` sits in the subtree rooted at `target`.
    pub fn chain_contains(&self, from: usize, target: usize) -> (r: bool)
        requires
            self.wf(),
            node_live(self.nodes@, from as int),
        ensures
            r == in_subtree(self.nodes@, from as int, target as int),
    {
        let ghost s = self.nodes@;
        let ghost d = self.depths@;
        let mut cur: usize = from;
        loop
            invariant
                self.wf(),
                s == self.nodes@,
                d == self.depths@,
                node_live(s, cur as int),
                in_subtree(s, from as int, target as int) == in_subtree(
                    s,
                    cur as int,
                    target as int,
                ),
            decreases d[cur as int],
        {
            if cur == target {
                proof {
                    assert(anc(s, cur as int, 0) == target as int);
                }
                return true;
            }
            if cur == 0 {
                proof {
                    lemma_root_chain(s, target as int);
                }
                return false;
            }
            proof {
                assert(entry_ok(s, d, cur as int));
            }
            let p = match self.nodes[cur].parent {
                Some(p) => p,
                None => {
                    proof {
                        assert(false);
                    }
                    return false;
                },
            };
            proof {
                assert(entry_ok(s, d, p as int));
                assert(step(s, cur as int) == p as int);
                if in_subtree(s, cur as int, target as int) {
                    lemma_subtree_parent(s, cur as int, target as int);
                }
                if in_subtree(s, p as int, target as int) {
                    lemma_subtree_child(s, cur as int, target as int);
                }
            }
            cur = p;
        }
    }

    /// Exchange the children at two positions of one parent's child list.
    pub fn swap_children_at(&mut self, p: usize, a_pos: usize, b_pos: usize) -> (r: Result<
        (),
        GraphError,
    >)
        requires
            old(self).wf(),
        ensures
            final(self).wf(),
            r is Err ==> same_tree(final(self).nodes@, old(self).nodes@),
            r == Result::<(), GraphError>::Err(GraphError::StaleIndex) <==> !node_live(
                old(self).nodes@,
                p as int,
            ),
            r == Result::<(), GraphError>::Err(GraphError::BadPosition) <==> node_live(
                old(self).nodes@,
                p as int,
            ) && !(a_pos < old(self).nodes@[p as int].children@.len() && b_pos < old(
                self,
            ).nodes@[p as int].children@.len()),
            r is Ok <==> node_live(old(self).nodes@, p as int) && a_pos < old(
                self,
            ).nodes@[p as int].children@.len() && b_pos < old(
                self,
            ).nodes@[p as int].children@.len(),
            r is Ok ==> ({
                let s0 = old(self).nodes@;
                let s2 = final(self).nodes@;
                let c0 = s0[p as int].children@;
                &&& s2.len() == s0.len()
                &&& s2[p as int].children@ == c0.update(a_pos as int, c0[b_pos as int]).update(
                    b_pos as int,
                    c0[a_pos as int],
                )
                &&& s2[p as int].parent == s0[p as int].parent
                &&& s2[p as int].payload == s0[p as int].payload
                &&& s2[p as int].live
                &&& forall|i: int| 0 <= i < s0.len() && i != p as int ==> s2[i] == s0[i]
            }),
    {
        let ghost s0 = self.nodes@;
        let ghost d0 = self.depths@;
        if !(p < self.nodes.len() && self.nodes[p].live) {
            return Err(GraphError::StaleIndex);
        }
        if !(a_pos < self.nodes[p].children.len() && b_pos < self.nodes[p].children.len()) {
            return Err(GraphError::BadPosition);
        }
        let a = self.nodes[p].children[a_pos];
        let b = self.nodes[p].children[b_pos];
        let pn = &mut self.nodes[p];
        pn.children[a_pos] = b;
        let pn2 = &mut self.nodes[p];
        pn2.children[b_pos] = a;
        proof {
            let s2 = self.nodes@;
            let d2 = self.depths@;
            let c0 = s0[p as int].children@;
            assert(entry_ok(s0, d0, p as int));
            lemma_swap_props(c0, a_pos as int, b_pos as int);
            assert(s2[p as int].children@ == c0.update(a_pos as int, c0[b_pos as int]).update(
                b_pos as int,
                c0[a_pos as int],
            ));
            assert forall|i: int| 0 <= i < s2.len() implies #[trigger] entry_ok(s2, d2, i) by {
                assert(entry_ok(s0, d0, i));
                if s2[i].live {
                    if i != 0 {
                        let q = parent_of(s0, i);
                        assert(entry_ok(s0, d0, q));
                        if q == p as int {
                            assert(s0[q].children@.contains(i as usize));
                            assert(s2[q].children@.contains(i as usize));
                        } else {
                            assert(s2[q].children@ == s0[q].children@);
                        }
                    }
                    assert forall|m: int|
                        0 <= m < s2[i].children@.len() implies node_live(
                        s2,
                        #[trigger] s2[i].children@[m] as int,
                    ) && s2[i].children@[m] as int != 0 && s2[s2[i].children@[m] as int].parent
                        == Option::Some(i as usize) by {
                        if i == p as int {
                            assert(s2[i].children@.contains(s2[i].children@[m]));
                            assert(c0.contains(s2[i].children@[m]));
                            assert(node_live(s0, s2[i].children@[m] as int));
                        } else {
                            assert(s2[i].children@ == s0[i].children@);
                            assert(node_live(s0, s2[i].children@[m] as int));
                        }
                    }
                }
            }
        }
        Ok(())
    }

    /// Relocate a node one step among its siblings along `dir`. Fails with
    /// `AtEdge` when the node already holds the first or last position.
    /// Returns the sibling it changed places with.
    pub fn shift(&mut self, id: usize, dir: ShiftDirection) -> (r: Result<usize, GraphError>)
        requires
            old(self).wf(),
        ensures
            final(self).wf(),
            r is Err ==> same_tree(final(self).nodes@, old(self).nodes@),
            r == Result::<usize, GraphError>::Err(GraphError::StaleIndex) <==> !node_live(
                old(self).nodes@,
                id as int,
            ),
            r == Result::<usize, GraphError>::Err(GraphError::RootImmobile) <==> node_live(
                old(self).nodes@,
                id as int,
            ) && id == 0,
            node_live(old(self).nodes@, id as int) && id != 0 ==> ({
                let s0 = old(self).nodes@;
                let c0 = s0[parent_of(s0, id as int)].children@;
                forall|pos: int|
                    0 <= pos < c0.len() && c0[pos] == id ==> ({
                        &&& (dir is Forward ==> (r is Ok <==> pos + 1 < c0.len()) && (r
                            == Result::<usize, GraphError>::Err(GraphError::AtEdge) <==> pos + 1
                            >= c0.len()))
                        &&& (dir is Backward ==> (r is Ok <==> pos > 0) && (r
                            == Result::<usize, GraphError>::Err(GraphError::AtEdge) <==> pos
                            == 0))
                    })
            }),
            r matches Ok(sib) ==> ({
                let s0 = old(self).nodes@;
                let s2 = final(self).nodes@;
                let p = parent_of(s0, id as int);
                let c0 = s0[p].children@;
                &&& s2.len() == s0.len()
                &&& forall|pos: int|
                    0 <= pos < c0.len() && c0[pos] == id ==> ({
                        let t = if dir is Forward {
                            pos + 1
                        } else {
                            pos - 1
                        };
                        &&& 0 <= t < c0.len()
                        &&& sib == c0[t]
                        &&& s2[p].children@ == c0.update(pos, c0[t]).update(t, c0[pos])
                    })
                &&& s2[p].parent == s0[p].parent
                &&& s2[p].payload == s0[p].payload
                &&& s2[p].live
                &&& forall|i: int| 0 <= i < s0.len() && i != p ==> s2[i] == s0[i]
            }),
    {
        let ghost s0 = self.nodes@;
        let ghost d0 = self.depths@;
        if !(id < self.nodes.len() && self.nodes[id].live) {
            return Err(GraphError::StaleIndex);
        }
        if id == 0 {
            return Err(GraphError::RootImmobile);
        }
        proof {
            assert(entry_ok(s0, d0, id as int));
        }
        let p = match self.nodes[id].parent {
            Some(p) => p,
            None => {
                proof {
                    assert(false);
                }
                return Err(GraphError::StaleIndex);
            },
        };
        let pos = self.find_child(p, id);
        let len = self.nodes[p].children.len();
        proof {
            let c0 = s0[p as int].children@;
            assert(entry_ok(s0, d0, p as int));
            assert forall|q: int| 0 <= q < c0.len() && c0[q] == id implies q == pos as int by {}
        }
        let target = match dir {
            ShiftDirection::Forward => {
                if pos + 1 >= len {
                    return Err(GraphError::AtEdge);
                }
                pos + 1
            },
            ShiftDirection::Backward => {
                if pos == 0 {
                    return Err(GraphError::AtEdge);
                }
                pos - 1
            },
        };
        let sib = self.nodes[p].children[target];
        let res = self.swap_children_at(p, pos, target);
        proof {
            assert(res is Ok);
            let c0 = s0[p as int].children@;
            assert forall|q: int| 0 <= q < c0.len() && c0[q] == id implies q == pos as int by {
                assert(entry_ok(s0, d0, p as int));
            }
        }
        Ok(sib)
    }

    /// Re-parent a node (with its whole subtree) under `new_parent`,
    /// inserting it at `position` among the new siblings. Fails with
    /// `WouldCycle` when `new_parent` lies inside the moved subtree.
    pub fn move_node(&mut self, id: usize, new_parent: usize, position: usize) -> (r: Result<
        (),
        GraphError,
    >)
        requires
            old(self).wf(),
        ensures
            final(self).wf(),
            r is Err ==> same_tree(final(self).nodes@, old(self).nodes@),
            r == Result::<(), GraphError>::Err(GraphError::StaleIndex) <==> !node_live(
                old(self).nodes@,
                id as int,
            ) || !node_live(old(self).nodes@, new_parent as int),
            r == Result::<(), GraphError>::Err(GraphError::RootImmobile) <==> node_live(
                old(self).nodes@,
                id as int,
            ) && node_live(old(self).nodes@, new_parent as int) && id == 0,
            r == Result::<(), GraphError>::Err(GraphError::WouldCycle) <==> node_live(
                old(self).nodes@,
                id as int,
            ) && node_live(old(self).nodes@, new_parent as int) && id != 0 && in_subtree(
                old(self).nodes@,
                new_parent as int,
                id as int,
            ),
            r is Ok <==> node_live(old(self).nodes@, id as int) && node_live(
                old(self).nodes@,
                new_parent as int,
            ) && id != 0 && !in_subtree(old(self).nodes@, new_parent as int, id as int) && position
                as int <= ({
                let s0 = old(self).nodes@;
                if parent_of(s0, id as int) == new_parent as int {
                    s0[new_parent as int].children@.len() - 1
                } else {
                    s0[new_parent as int].children@.len() as int
                }
            }),
            r is Ok ==> ({
                let s0 = old(self).nodes@;
                let s2 = final(self).nodes@;
                let p1 = parent_of(s0, id as int);
                &&& s2.len() == s0.len()
                &&& s2[id as int].parent == Option::Some(new_parent)
                &&& s2[id as int].children@ == s0[id as int].children@
                &&& s2[id as int].payload == s0[id as int].payload
                &&& s2[id as int].live
                &&& forall|pos: int|
                    0 <= pos < s0[p1].children@.len() && s0[p1].children@[pos] == id ==> ({
                        let base = if p1 == new_parent as int {
                            s0[p1].children@.remove(pos)
                        } else {
                            s0[new_parent as int].children@
                        };
                        &&& s2[new_parent as int].children@ == base.insert(position as int, id)
                        &&& (p1 != new_parent as int ==> s2[p1].children@ == s0[p1].children@.remove(
                            pos,
                        ))
                    })
                &&& s2[p1].parent == s0[p1].parent
                &&& s2[p1].payload == s0[p1].payload
                &&& s2[p1].live
                &&& s2[new_parent as int].parent == s0[new_parent as int].parent
                &&& s2[new_parent as int].payload == s0[new_parent as int].payload
                &&& s2[new_parent as int].live
                &&& forall|i: int|
                    0 <= i < s0.len() && i != id as int && i != p1 && i != new_parent as int
                        ==> s2[i] == s0[i]
            }),
    {
        let ghost s0 = self.nodes@;
        let ghost d0 = self.depths@;
        if !(id < self.nodes.len() && self.nodes[id].live) || !(new_parent < self.nodes.len()
            && self.nodes[new_parent].live) {
            return Err(GraphError::StaleIndex);
        }
        if id == 0 {
            return Err(GraphError::RootImmobile);
        }
        if self.chain_contains(new_parent, id) {
            return Err(GraphError::WouldCycle);
        }
        proof {
            assert(entry_ok(s0, d0, id as int));
        }
        let p1 = match self.nodes[id].parent {
            Some(p) => p,
            None => {
                proof {
                    assert(false);
                }
                return Err(GraphError::StaleIndex);
            },
        };
        let bound = if p1 == new_parent {
            self.nodes[new_parent].children.len() - 1
        } else {
            self.nodes[new_parent].children.len()
        };
        proof {
            if p1 == new_parent {
                assert(s0[p1 as int].children@.contains(id));
                assert(s0[p1 as int].children@.len() >= 1);
            }
        }
        if position > bound {
            return Err(GraphError::BadPosition);
        }
        let pos1 = self.find_child(p1, id);
        let pn = &mut self.nodes[p1];
        pn.children.remove(pos1);
        let npn = &mut self.nodes[new_parent];
        npn.children.insert(position, id);
        let idn = &mut self.nodes[id];
        idn.parent = Some(new_parent);
        proof {
            let shift = d0[new_parent as int] + 1 - d0[id as int];
            self.depths@ = Map::new(
                |j: int| d0.dom().contains(j),
                |j: int|
                    if in_subtree(s0, j, id as int) {
                        d0[j] + shift
                    } else {
                        d0[j]
                    },
            );
        }
        proof {
            let s2 = self.nodes@;
            let d2 = self.depths@;
            let shift = d0[new_parent as int] + 1 - d0[id as int];
            let c0p = s0[p1 as int].children@;
            let basec = if p1 == new_parent {
                c0p.remove(pos1 as int)
            } else {
                s0[new_parent as int].children@
            };
            assert(entry_ok(s0, d0, p1 as int));
            assert(entry_ok(s0, d0, new_parent as int));
            assert(entry_ok(s0, d0, id as int));
            lemma_remove_props(c0p, pos1 as int);
            assert(!basec.contains(id)) by {
                if p1 != new_parent {
                    if basec.contains(id) {
                        assert(s0[id as int].parent == Option::Some(new_parent));
                    }
                }
            }
            assert(seq_distinct(basec));
            lemma_insert_props(basec, position as int, id);
            assert(s2[new_parent as int].children@ == basec.insert(position as int, id));
            assert(in_subtree(s0, id as int, id as int)) by {
                assert(anc(s0, id as int, 0) == id as int);
            }
            assert forall|q: int| 0 <= q < c0p.len() && c0p[q] == id implies q == pos1 as int by {}
            assert forall|i: int| 0 <= i < s2.len() implies #[trigger] entry_ok(s2, d2, i) by {
                assert(entry_ok(s0, d0, i));
                if s2[i].live {
                    // node_ok: the parent still lists the node as a child
                    if i == id as int {
                        assert(s2[new_parent as int].children@.contains(id));
                    } else if i != 0 {
                        let q = parent_of(s0, i);
                        assert(entry_ok(s0, d0, q));
                        assert(s0[q].children@.contains(i as usize));
                        if q == p1 as int && p1 != new_parent {
                            assert(s2[q].children@.contains(i as usize));
                        } else if q == new_parent as int {
                            if p1 == new_parent {
                                assert(basec.contains(i as usize));
                            }
                            assert(s2[q].children@.contains(i as usize));
                        } else {
                            assert(s2[q].children@ == s0[q].children@);
                        }
                        assert(parent_of(s2, i) == q);
                    }
                    // children_ok: every listed child is live, non-root and
                    // points back; an element equal to id can only sit in
                    // the new parent's list
                    assert forall|m: int|
                        0 <= m < s2[i].children@.len() implies node_live(
                        s2,
                        #[trigger] s2[i].children@[m] as int,
                    ) && s2[i].children@[m] as int != 0 && s2[s2[i].children@[m] as int].parent
                        == Option::Some(i as usize) by {
                        let x = s2[i].children@[m];
                        assert(s2[i].children@.contains(x));
                        if i == p1 as int && p1 != new_parent {
                            assert(c0p.contains(x) && x != id);
                            assert(node_live(s0, x as int));
                        } else if i == new_parent as int {
                            if x != id {
                                assert(basec.contains(x));
                                if p1 == new_parent {
                                    assert(c0p.contains(x));
                                } else {
                                    assert(s0[i].children@.contains(x));
                                }
                                assert(node_live(s0, x as int));
                                assert(s0[x as int].parent == Option::Some(i as usize));
                            }
                        } else {
                            assert(s2[i].children@ == s0[i].children@);
                            assert(s0[i].children@.contains(x));
                            assert(node_live(s0, x as int));
                            assert(s0[x as int].parent == Option::Some(i as usize));
                            assert(x != id);
                        }
                    }
                    assert(seq_distinct(s2[i].children@)) by {
                        if i == p1 as int && p1 != new_parent {
                        } else if i == new_parent as int {
                        } else {
                            assert(s2[i].children@ == s0[i].children@);
                        }
                    }
                    // depth_ok: depths inside the moved subtree shift
                    // uniformly; everything else keeps its level
                    if in_subtree(s0, i, id as int) {
                        lemma_subtree_depth(s0, d0, i, id as int);
                        assert(d2[i] == d0[i] + shift);
                        assert(d2[i] >= d0[new_parent as int] + 1);
                    }
                    if i == 0 {
                        lemma_root_chain(s0, id as int);
                        assert(d2[0] == 0);
                    } else if i == id as int {
                        assert(parent_of(s2, i) == new_parent as int);
                        assert(d2[id as int] == d0[new_parent as int] + 1);
                        assert(!in_subtree(s0, new_parent as int, id as int));
                        assert(d2[new_parent as int] == d0[new_parent as int]);
                    } else {
                        let q = parent_of(s0, i);
                        assert(step(s0, i) == q);
                        assert(entry_ok(s0, d0, q));
                        if in_subtree(s0, i, id as int) {
                            lemma_subtree_parent(s0, i, id as int);
                            assert(in_subtree(s0, q, id as int));
                            assert(d2[i] == d2[q] + 1);
                        } else {
                            assert(!in_subtree(s0, q, id as int)) by {
                                if in_subtree(s0, q, id as int) {
                                    lemma_subtree_child(s0, i, id as int);
                                }
                            }
                            assert(d2[i] == d0[i] && d2[q] == d0[q]);
                        }
                    }
                    assert(depth_ok(s2, d2, i));
                }
            }
        }
        Ok(())
    }

    /// Exchange the positions of two nodes in the tree without altering
    /// their subtrees: each takes the other's parent and slot. Fails with
    /// `WouldCycle` when one lies in the other's subtree.
    pub fn swap_nodes(&mut self, a: usize, b: usize) -> (r: Result<(), GraphError>)
        requires
            old(self).wf(),
        ensures
            final(self).wf(),
            r is Err ==> same_tree(final(self).nodes@, old(self).nodes@),
            r == Result::<(), GraphError>::Err(GraphError::StaleIndex) <==> !node_live(
                old(self).nodes@,
                a as int,
            ) || !node_live(old(self).nodes@, b as int),
            r == Result::<(), GraphError>::Err(GraphError::RootImmobile) <==> node_live(
                old(self).nodes@,
                a as int,
            ) && node_live(old(self).nodes@, b as int) && (a == 0 || b == 0),
            r == Result::<(), GraphError>::Err(GraphError::WouldCycle) <==> node_live(
                old(self).nodes@,
                a as int,
            ) && node_live(old(self).nodes@, b as int) && a != 0 && b != 0 && a != b && (in_subtree(
                old(self).nodes@,
                a as int,
                b as int,
            ) || in_subtree(old(self).nodes@, b as int, a as int)),
            r is Ok <==> node_live(old(self).nodes@, a as int) && node_live(
                old(self).nodes@,
                b as int,
            ) && a != 0 && b != 0 && (a == b || (!in_subtree(old(self).nodes@, a as int, b as int)
                && !in_subtree(old(self).nodes@, b as int, a as int))),
            r is Ok && a == b ==> same_tree(final(self).nodes@, old(self).nodes@),
            r is Ok && a != b ==> ({
                let s0 = old(self).nodes@;
                let s2 = final(self).nodes@;
                let pa = parent_of(s0, a as int);
                let pb = parent_of(s0, b as int);
                &&& s2.len() == s0.len()
                &&& s2[a as int].parent == Option::Some(pb as usize)
                &&& s2[b as int].parent == Option::Some(pa as usize)
                &&& s2[a as int].children@ == s0[a as int].children@
                &&& s2[b as int].children@ == s0[b as int].children@
                &&& s2[a as int].payload == s0[a as int].payload
                &&& s2[b as int].payload == s0[b as int].payload
                &&& s2[a as int].live && s2[b as int].live
                &&& forall|ia: int, ib: int|
                    0 <= ia < s0[pa].children@.len() && s0[pa].children@[ia] == a && 0 <= ib
                        < s0[pb].children@.len() && s0[pb].children@[ib] == b ==> ({
                        if pa == pb {
                            s2[pa].children@ == s0[pa].children@.update(
                                ia,
                                b,
                            ).update(ib, a)
                        } else {
                            s2[pa].children@ == s0[pa].children@.update(ia, b)
                                && s2[pb].children@ == s0[pb].children@.update(ib, a)
                        }
                    })
                &&& s2[pa].parent == s0[pa].parent && s2[pa].payload == s0[pa].payload
                    && s2[pa].live
                &&& s2[pb].parent == s0[pb].parent && s2[pb].payload == s0[pb].payload
                    && s2[pb].live
                &&& forall|i: int|
                    0 <= i < s0.len() && i != a as int && i != b as int && i != pa && i != pb
                        ==> s2[i] == s0[i]
            }),
    {
        let ghost s0 = self.nodes@;
        let ghost d0 = self.depths@;
        if !(a < self.nodes.len() && self.nodes[a].live) || !(b < self.nodes.len()
            && self.nodes[b].live) {
            return Err(GraphError::StaleIndex);
        }
        if a == 0 || b == 0 {
            return Err(GraphError::RootImmobile);
        }
        if a == b {
            return Ok(());
        }
        if self.chain_contains(a, b) || self.chain_contains(b, a) {
            return Err(GraphError::WouldCycle);
        }
        proof {
            assert(entry_ok(s0, d0, a as int));
            assert(entry_ok(s0, d0, b as int));
        }
        let pa = match self.nodes[a].parent {
            Some(p) => p,
            None => {
                proof {
                    assert(false);
                }
                return Err(GraphError::StaleIndex);
            },
        };
        let pb = match self.nodes[b].parent {
            Some(p) => p,
            None => {
                proof {
                    assert(false);
                }
                return Err(GraphError::StaleIndex);
            },
        };
        let ia = self.find_child(pa, a);
        let ib = self.find_child(pb, b);
        let pan = &mut self.nodes[pa];
        pan.children[ia] = b;
        let pbn = &mut self.nodes[pb];
        pbn.children[ib] = a;
        let an = &mut self.nodes[a];
        an.parent = Some(pb);
        let bn = &mut self.nodes[b];
        bn.parent = Some(pa);
        proof {
            let sa = d0[b as int] - d0[a as int];
            self.depths@ = Map::new(
                |j: int| d0.dom().contains(j),
                |j: int|
                    if in_subtree(s0, j, a as int) {
                        d0[j] + sa
                    } else if in_subtree(s0, j, b as int) {
                        d0[j] - sa
                    } else {
                        d0[j]
                    },
            );
        }
        proof {
            let s2 = self.nodes@;
            let d2 = self.depths@;
            let sa = d0[b as int] - d0[a as int];
            let c0a = s0[pa as int].children@;
            let c0b = s0[pb as int].children@;
            assert(entry_ok(s0, d0, pa as int));
            assert(entry_ok(s0, d0, pb as int));
            assert(in_subtree(s0, a as int, a as int) && in_subtree(s0, b as int, b as int)) by {
                assert(anc(s0, a as int, 0) == a as int);
                assert(anc(s0, b as int, 0) == b as int);
            }
            // the two subtrees are disjoint, and neither holds the parents
            assert(!in_subtree(s0, a as int, b as int) && !in_subtree(s0, b as int, a as int));
            assert(!in_subtree(s0, pa as int, a as int)) by {
                if in_subtree(s0, pa as int, a as int) {
                    lemma_subtree_depth(s0, d0, pa as int, a as int);
                }
            }
            assert(!in_subtree(s0, pb as int, b as int)) by {
                if in_subtree(s0, pb as int, b as int) {
                    lemma_subtree_depth(s0, d0, pb as int, b as int);
                }
            }
            assert(!in_subtree(s0, pa as int, b as int)) by {
                if in_subtree(s0, pa as int, b as int) {
                    assert(step(s0, a as int) == pa as int);
                    lemma_subtree_child(s0, a as int, b as int);
                }
            }
            assert(!in_subtree(s0, pb as int, a as int)) by {
                if in_subtree(s0, pb as int, a as int) {
                    assert(step(s0, b as int) == pb as int);
                    lemma_subtree_child(s0, b as int, a as int);
                }
            }
            assert(d2[a as int] == d0[b as int] && d2[b as int] == d0[a as int]);
            assert forall|q: int| 0 <= q < c0a.len() && c0a[q] == a implies q == ia as int by {}
            assert forall|q: int| 0 <= q < c0b.len() && c0b[q] == b implies q == ib as int by {}
            assert(!c0a.contains(b) || pa == pb);
            assert(!c0b.contains(a) || pa == pb);
            assert forall|i: int| 0 <= i < s2.len() implies #[trigger] entry_ok(s2, d2, i) by {
                assert(entry_ok(s0, d0, i));
                if s2[i].live {
                    // node_ok
                    if i == a as int {
                        assert(s2[pb as int].children@[ib as int] == a);
                        assert(s2[pb as int].children@.contains(a));
                    } else if i == b as int {
                        assert(s2[pa as int].children@[ia as int] == b);
                        assert(s2[pa as int].children@.contains(b));
                    } else if i != 0 {
                        let q = parent_of(s0, i);
                        assert(entry_ok(s0, d0, q));
                        assert(s0[q].children@.contains(i as usize));
                        let m = choose|m: int|
                            0 <= m < s0[q].children@.len() && s0[q].children@[m] == i as usize;
                        if q == pa as int || q == pb as int {
                            assert(m != ia as int || q != pa as int);
                            assert(m != ib as int || q != pb as int);
                            assert(s2[q].children@[m] == i as usize);
                            assert(s2[q].children@.contains(i as usize));
                        } else {
                            assert(s2[q].children@ == s0[q].children@);
                        }
                        assert(parent_of(s2, i) == q);
                    }
                    // children_ok
                    assert forall|m: int|
                        0 <= m < s2[i].children@.len() implies node_live(
                        s2,
                        #[trigger] s2[i].children@[m] as int,
                    ) && s2[i].children@[m] as int != 0 && s2[s2[i].children@[m] as int].parent
                        == Option::Some(i as usize) by {
                        let x = s2[i].children@[m];
                        if i == pa as int && m == ia as int {
                            assert(x == b);
                        } else if i == pb as int && m == ib as int {
                            assert(x == a);
                        } else {
                            assert(x == s0[i].children@[m]);
                            assert(s0[i].children@.contains(x));
                            assert(node_live(s0, x as int));
                            assert(s0[x as int].parent == Option::Some(i as usize));
                            assert(x != a && x != b);
                        }
                    }
                    assert(seq_distinct(s2[i].children@)) by {
                        assert forall|m: int, n: int|
                            0 <= m < n < s2[i].children@.len() implies s2[i].children@[m]
                            != s2[i].children@[n] by {
                            let xm = s2[i].children@[m];
                            let xn = s2[i].children@[n];
                            if i == pa as int || i == pb as int {
                                if xm == xn {
                                    assert(s0[i].children@.len() == s2[i].children@.len());
                                    if m != ia as int && m != ib as int {
                                        assert(xm == s0[i].children@[m]);
                                        assert(s0[i].children@.contains(xm));
                                        assert(s0[xm as int].parent == Option::Some(i as usize));
                                    }
                                    if n != ia as int && n != ib as int {
                                        assert(xn == s0[i].children@[n]);
                                        assert(s0[i].children@.contains(xn));
                                        assert(s0[xn as int].parent == Option::Some(i as usize));
                                    }
                                }
                            } else {
                                assert(s2[i].children@ == s0[i].children@);
                            }
                        }
                    }
                    // depth_ok
                    if i != a as int && i != b as int {
                        if in_subtree(s0, i, a as int) {
                            lemma_subtree_depth(s0, d0, i, a as int);
                            assert(!in_subtree(s0, i, b as int)) by {
                                if in_subtree(s0, i, b as int) {
                                    lemma_subtree_disjoint(s0, i, a as int, b as int);
                                }
                            }
                        }
                        if in_subtree(s0, i, b as int) {
                            lemma_subtree_depth(s0, d0, i, b as int);
                        }
                    }
                    if i == 0 {
                        lemma_root_chain(s0, a as int);
                        lemma_root_chain(s0, b as int);
                        assert(d2[0] == 0);
                    } else if i == a as int {
                        assert(parent_of(s2, i) == pb as int);
                        assert(d2[pb as int] == d0[pb as int]);
                        assert(d2[a as int] == d0[b as int] == d0[pb as int] + 1);
                    } else if i == b as int {
                        assert(parent_of(s2, i) == pa as int);
                        assert(d2[pa as int] == d0[pa as int]);
                        assert(d2[b as int] == d0[a as int] == d0[pa as int] + 1);
                    } else {
                        let q = parent_of(s0, i);
                        assert(step(s0, i) == q);
                        assert(entry_ok(s0, d0, q));
                        assert(parent_of(s2, i) == q);
                        if in_subtree(s0, i, a as int) {
                            lemma_subtree_parent(s0, i, a as int);
                            assert(in_subtree(s0, q, a as int));
                            assert(!in_subtree(s0, q, b as int)) by {
                                if in_subtree(s0, q, b as int) {
                                    lemma_subtree_disjoint(s0, q, a as int, b as int);
                                }
                            }
                            assert(d2[i] == d2[q] + 1);
                        } else if in_subtree(s0, i, b as int) {
                            lemma_subtree_parent(s0, i, b as int);
                            assert(in_subtree(s0, q, b as int));
                            assert(!in_subtree(s0, q, a as int)) by {
                                if in_subtree(s0, q, a as int) {
                                    lemma_subtree_disjoint(s0, q, b as int, a as int);
                                }
                            }
                            assert(d2[i] == d2[q] + 1);
                        } else {
                            assert(!in_subtree(s0, q, a as int)) by {
                                if in_subtree(s0, q, a as int) {
                                    lemma_subtree_child(s0, i, a as int);
                                }
                            }
                            assert(!in_subtree(s0, q, b as int)) by {
                                if in_subtree(s0, q, b as int) {
                                    lemma_subtree_child(s0, i, b as int);
                                }
                            }
                            assert(d2[i] == d0[i] && d2[q] == d0[q]);
                        }
                    }
                    assert(depth_ok(s2, d2, i));
                }
            }
        }
        Ok(())
    }
}

} // verus!
