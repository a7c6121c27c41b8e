//! The diagnostic export: a read-only nested description of the whole tree,
//! ordered by child insertion, for introspection tooling. The window
//! manager's shell turns it into whatever wire shape its tooling wants.

use vstd::prelude::*;

use crate::container::{Container, ContainerType, Layout};
use crate::graph_tree::{
    anc, entry_ok, in_subtree, lemma_anc_add, lemma_subtree_depth, node_live, step, Node,
};
use crate::tree::LayoutTree;

verus! {

/// What a non-leaf entry of the description is labelled with.
#[derive(Debug, PartialEq)]
pub enum DisplayTag {
    /// A workspace, by its name.
    Workspace { name: String },
    /// A split container, by its layout and numeric identity.
    Split { layout: Layout, id: u64 },
    /// The root or an output, by its container type.
    Other { kind: ContainerType },
}

/// One node of the description: a section holding its children in insertion
/// order, or a view leaf with its title, class and numeric identity.
#[derive(Debug, PartialEq)]
pub enum DisplayNode {
    Section { tag: DisplayTag, children: Vec<DisplayNode> },
    ViewLeaf { title: String, class: String, id: u64 },
}

/// `rep` mirrors the subtree at `i`: a view becomes a leaf carrying its
/// handle's title and class and its identity; everything else becomes a
/// section tagged by what it is, with one entry per child in child-list
/// order.
pub open spec fn represents(s: Seq<Node>, i: int, rep: DisplayNode) -> bool
    decreases rep,
{
    match rep {
        DisplayNode::ViewLeaf { title, class, id } => match s[i].payload {
            Container::View { handle, id: vid, .. } => title == handle.title && class
                == handle.class && id == vid,
            _ => false,
        },
        DisplayNode::Section { tag, children } => {
            &&& !(s[i].payload is View)
            &&& (match s[i].payload {
                Container::Workspace { name, .. } => tag == (DisplayTag::Workspace { name }),
                Container::Container { layout, id, .. } => tag == (DisplayTag::Split {
                    layout,
                    id,
                }),
                _ => tag == (DisplayTag::Other { kind: s[i].payload.get_type_spec() }),
            })
            &&& children@.len() == s[i].children@.len()
            &&& forall|m: int|
                0 <= m < children@.len() ==> represents(
                    s,
                    s[i].children@[m] as int,
                    #[trigger] children@[m],
                )
        },
    }
}

impl LayoutTree {
    /// The read-only nested description of the whole tree from the root,
    /// ordered by child insertion.
    pub fn to_display_representation(&self) -> (r: DisplayNode)
        requires
            self.wf(),
        ensures
            represents(self.tree.nodes@, 0, r),
    {
        let ghost avail = vstd::set_lib::set_int_range(0, self.tree.nodes@.len() as int);
        proof {
            vstd::set_lib::lemma_int_range(0, self.tree.nodes@.len() as int);
            assert forall|j: int|
                node_live(self.tree.nodes@, j) && in_subtree(self.tree.nodes@, j, 0)
                    implies avail.contains(j) by {}
        }
        self.render(0, Ghost(avail))
    }

    /// Describe the subtree at `i`. The ghost set `avail` over-approximates
    /// the subtree and shrinks on the way down, bounding the recursion.
    fn render(&self, i: usize, Ghost(avail): Ghost<Set<int>>) -> (r: DisplayNode)
        requires
            self.wf(),
            node_live(self.tree.nodes@, i as int),
            avail.finite(),
            forall|j: int|
                node_live(self.tree.nodes@, j) && in_subtree(self.tree.nodes@, j, i as int)
                    ==> avail.contains(j),
        ensures
            represents(self.tree.nodes@, i as int, r),
        decreases avail.len(),
    {
        let ghost s = self.tree.nodes@;
        let ghost d = self.tree.depths@;
        proof {
            assert(entry_ok(s, d, i as int));
            assert(in_subtree(s, i as int, i as int)) by {
                assert(anc(s, i as int, 0) == i as int);
            }
            assert(avail.contains(i as int));
        }
        let kids = self.tree.children_of(i);
        let mut out: Vec<DisplayNode> = Vec::new();
        let mut m: usize = 0;
        while m < kids.len()
            invariant
                self.wf(),
                s == self.tree.nodes@,
                d == self.tree.depths@,
                node_live(s, i as int),
                avail.finite(),
                avail.contains(i as int),
                forall|j: int| node_live(s, j) && in_subtree(s, j, i as int) ==> avail.contains(j),
                kids@ == s[i as int].children@,
                m <= kids@.len(),
                out@.len() == m,
                forall|k: int|
                    0 <= k < m ==> represents(s, s[i as int].children@[k] as int, #[trigger] out@[k]),
            decreases kids@.len() - m,
        {
            let c = kids[m];
            proof {
                assert(entry_ok(s, d, i as int));
                assert(node_live(s, c as int));
                assert(c as int != 0);
                assert(entry_ok(s, d, c as int));
                assert(step(s, c as int) == i as int);
                assert forall|j: int|
                    node_live(s, j) && in_subtree(s, j, c as int) implies avail.remove(
                    i as int,
                ).contains(j) by {
                    let k = choose|k: nat| anc(s, j, k) == c as int;
                    lemma_anc_add(s, j, k, 1);
                    assert(anc(s, j, k + 1) == anc(s, c as int, 1));
                    assert(anc(s, c as int, 1) == anc(s, step(s, c as int), 0));
                    assert(anc(s, j, k + 1) == step(s, c as int));
                    assert(in_subtree(s, j, i as int));
                    lemma_subtree_depth(s, d, j, c as int);
                    assert(d[j] >= d[c as int]);
                    assert(d[c as int] == d[i as int] + 1);
                    assert(j != i as int);
                }
                assert(avail.remove(i as int).len() < avail.len());
            }
            let child = self.render(c, Ghost(avail.remove(i as int)));
            out.push(child);
            m = m + 1;
        }
        match &self.tree.nodes[i].payload {
            Container::View { handle, id, .. } => DisplayNode::ViewLeaf {
                title: handle.title.clone(),
                class: handle.class.clone(),
                id: *id,
            },
            Container::Workspace { name, .. } => DisplayNode::Section {
                tag: DisplayTag::Workspace { name: name.clone() },
                children: out,
            },
            Container::Container { layout, id, .. } => DisplayNode::Section {
                tag: DisplayTag::Split { layout: *layout, id: *id },
                children: out,
            },
            other => DisplayNode::Section {
                tag: DisplayTag::Other { kind: other.get_type() },
                children: out,
            },
        }
    }
}

} // verus!
