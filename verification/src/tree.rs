//! The layout tree: the node store plus tree-level bookkeeping — the single
//! active reference, numeric-identity allocation and lookup — under the
//! nesting and geometry invariants of the layout engine.

use vstd::prelude::*;

use crate::container::{
    axis_ext, axis_lo, cross_ext, cross_lo, set_axis_spec, Container, ContainerType, Direction,
    Handle, Layout, Rect, MAX_COORD, MIN_SIZE,
};
use crate::graph_tree::{
    children_ok, entry_ok, in_subtree, lemma_subtree_depth_strict, node_live, node_ok, parent_of,
    step, tree_wf, InnerTree, Node,
};

verus! {

/// Tree-level failures: the operation asked something of a node the tree
/// does not satisfy.
#[derive(Clone, Copy, Debug, PartialEq, Eq, Structural)]
pub enum TreeError {
    /// The index names no live node.
    NodeNotFound,
    /// The node is not of the container type the operation needs.
    WrongContainerType,
    /// A rectangle is smaller than `MIN_SIZE` or runs past `MAX_COORD`.
    InvalidGeometry,
    /// An output with the same identity is already in the tree.
    OutputExists,
    /// Splitting the target slot would push a side below `MIN_SIZE`.
    TooSmall,
    /// The numeric-identity counter is exhausted.
    IdsExhausted,
}

/// Which container types may sit under which: outputs under the root,
/// workspaces under outputs, splits and views under workspaces, and views
/// under splits. Views are leaves.
pub open spec fn child_type_ok(pt: ContainerType, ct: ContainerType) -> bool {
    match pt {
        ContainerType::Root => ct is Output,
        ContainerType::Output => ct is Workspace,
        ContainerType::Workspace => ct is Container || ct is View,
        ContainerType::Container => ct is View,
        ContainerType::View => false,
    }
}

/// Whether the payload at `j` owns a rectangle.
pub open spec fn has_rect(s: Seq<Node>, j: int) -> bool {
    s[j].payload.rect_spec() is Some
}

/// The rectangle owned by the payload at `j` (meaningful under `has_rect`).
pub open spec fn rect_of(s: Seq<Node>, j: int) -> Rect {
    match s[j].payload {
        Container::Workspace { rect, .. } => rect,
        Container::Container { rect, .. } => rect,
        Container::View { rect, .. } => rect,
        _ => Rect { x: 0, y: 0, w: 0, h: 0 },
    }
}

/// The ordered children of a split container exactly tile its rectangle
/// along the split axis: they share the cross-axis span, the first starts at
/// the container's edge, each next one starts where the previous ends, the
/// last ends at the container's far edge, and every slot stays inside the
/// container's span.
pub open spec fn tiles(s: Seq<Node>, i: int, horiz: bool) -> bool {
    let c = s[i].children@;
    let r = rect_of(s, i);
    &&& forall|m: int|
        0 <= m < c.len() ==> has_rect(s, #[trigger] c[m] as int) && cross_lo(
            rect_of(s, c[m] as int),
            horiz,
        ) == cross_lo(r, horiz) && cross_ext(rect_of(s, c[m] as int), horiz) == cross_ext(r, horiz)
    &&& forall|m: int|
        0 <= m < c.len() ==> axis_lo(rect_of(s, #[trigger] c[m] as int), horiz) >= axis_lo(r, horiz)
            && axis_lo(rect_of(s, c[m] as int), horiz) + axis_ext(rect_of(s, c[m] as int), horiz)
            <= axis_lo(r, horiz) + axis_ext(r, horiz)
    &&& (c.len() > 0 ==> axis_lo(rect_of(s, c[0] as int), horiz) == axis_lo(r, horiz))
    &&& forall|m: int|
        0 < m < c.len() ==> axis_lo(rect_of(s, #[trigger] c[m] as int), horiz) == axis_lo(
            rect_of(s, c[m - 1] as int),
            horiz,
        ) + axis_ext(rect_of(s, c[m - 1] as int), horiz)
    &&& (c.len() > 0 ==> axis_lo(rect_of(s, c[c.len() - 1] as int), horiz) + axis_ext(
        rect_of(s, c[c.len() - 1] as int),
        horiz,
    ) == axis_lo(r, horiz) + axis_ext(r, horiz))
}

/// Geometry conditions of one live node: sizeable rectangles everywhere one
/// is owned, and split containers tiled by their children.
pub open spec fn geom_at(s: Seq<Node>, i: int) -> bool {
    match s[i].payload {
        Container::Root => true,
        Container::Output { .. } => true,
        Container::Workspace { rect, .. } => rect.sizeable(),
        Container::View { rect, .. } => rect.sizeable(),
        Container::Container { layout, rect, .. } => {
            &&& rect.sizeable()
            &&& s[i].children@.len() >= 1
            &&& match layout {
                Layout::Horizontal => tiles(s, i, true),
                Layout::Vertical => tiles(s, i, false),
                Layout::Tabbed => forall|m: int|
                    0 <= m < s[i].children@.len() ==> has_rect(s, #[trigger] s[i].children@[m] as int)
                        && rect_of(s, s[i].children@[m] as int) == rect,
                Layout::Stacked => forall|m: int|
                    0 <= m < s[i].children@.len() ==> has_rect(s, #[trigger] s[i].children@[m] as int)
                        && rect_of(s, s[i].children@[m] as int) == rect,
            }
        },
    }
}

/// Nesting condition of one live node: its payload type fits under its
/// parent's payload type.
pub open spec fn nest_at(s: Seq<Node>, i: int) -> bool {
    i != 0 ==> child_type_ok(
        s[parent_of(s, i)].payload.get_type_spec(),
        s[i].payload.get_type_spec(),
    )
}

/// Everything the layout invariant asks of one arena entry.
pub open spec fn layout_at(s: Seq<Node>, i: int) -> bool {
    s[i].live ==> nest_at(s, i) && geom_at(s, i)
}

/// Numeric identities of live splits and views are distinct and below the
/// allocation counter.
pub open spec fn ids_ok(s: Seq<Node>, next: u64) -> bool {
    &&& forall|i: int|
        node_live(s, i) ==> ((#[trigger] s[i].payload.numeric_id_spec()) matches Some(id) ==> id
            < next)
    &&& forall|i: int, j: int|
        #![trigger s[i].payload.numeric_id_spec(), s[j].payload.numeric_id_spec()]
        node_live(s, i) && node_live(s, j) && i != j && s[i].payload.numeric_id_spec() is Some
            ==> s[i].payload.numeric_id_spec() != s[j].payload.numeric_id_spec()
}

/// When adding a view at `target` succeeds: the target must be a live
/// workspace or view, identities must remain, and a slot that is split must
/// have room for two `MIN_SIZE` halves.
pub open spec fn add_view_ok(s: Seq<Node>, target: int, next: u64) -> bool {
    node_live(s, target) && match s[target].payload {
        Container::Workspace { .. } => next < u64::MAX,
        Container::View { rect: rv, .. } => {
            let q = parent_of(s, target);
            match s[q].payload {
                Container::Container { layout, .. } => next < u64::MAX && (match layout {
                    Layout::Horizontal => rv.w >= 2 * MIN_SIZE,
                    Layout::Vertical => rv.h >= 2 * MIN_SIZE,
                    _ => true,
                }),
                Container::Workspace { .. } => next < u64::MAX - 1 && rv.w >= 2 * MIN_SIZE,
                _ => false,
            }
        },
        _ => false,
    }
}

/// Failures of the focus action.
#[derive(Clone, Copy, Debug, PartialEq, Eq, Structural)]
pub enum FocusError {
    /// No active container is set.
    NoActiveContainer,
    /// No sibling lies in the requested direction; the traversal stops at
    /// the split's edge rather than crossing a workspace boundary.
    NoTargetInDirection,
}

/// Failures of the movement action.
#[derive(Clone, Copy, Debug, PartialEq, Eq, Structural)]
pub enum MovementError {
    /// No active container is set.
    NoActiveContainer,
    /// Only views move; the root, outputs, workspaces and splits stay put.
    NotMovable,
    /// No sibling lies in the requested direction; movement stops at the
    /// split's edge rather than leaving the workspace.
    NoTargetInDirection,
}

/// Failures of the resize action.
#[derive(Clone, Copy, Debug, PartialEq, Eq, Structural)]
pub enum ResizeErr {
    /// No active container is set.
    NoActiveContainer,
    /// The active node has no sibling in the requested direction to trade
    /// space with.
    NoSiblingInDirection,
    /// The trade would push the shrinking sibling below `MIN_SIZE`; nothing
    /// was changed.
    TooSmall,
}

/// The layout tree: node store, active reference and identity allocator.
pub struct LayoutTree {
    pub tree: InnerTree,
    pub active_container: Option<usize>,
    pub next_id: u64,
}

/// A wrapper around the layout tree, to hide its internals from the rest of
/// the window manager.
pub struct Tree(pub LayoutTree);

impl Tree {
    /// Constructs a new tree.
    pub fn new() -> (r: Tree)
        ensures
            r.0.wf(),
            r.0.tree.nodes@.len() == 1,
            r.0.active_container is None,
            r.0.next_id == 0,
    {
        Tree(LayoutTree::new())
    }
}

impl LayoutTree {
    /// The layout invariant: a well-formed node store whose live nodes nest
    /// and tile correctly, distinct identities, and a live active reference.
    pub open spec fn wf(self) -> bool {
        &&& self.tree.wf()
        &&& forall|i: int|
            0 <= i < self.tree.nodes@.len() ==> #[trigger] layout_at(self.tree.nodes@, i)
        &&& ids_ok(self.tree.nodes@, self.next_id)
        &&& (self.active_container matches Some(a) ==> node_live(self.tree.nodes@, a as int))
    }

    /// A fresh tree: only the root, no active container.
    pub fn new() -> (r: LayoutTree)
        ensures
            r.wf(),
            r.tree.nodes@.len() == 1,
            r.active_container is None,
            r.next_id == 0,
    {
        let t = LayoutTree { tree: InnerTree::new(), active_container: None, next_id: 0 };
        proof {
            assert forall|i: int| 0 <= i < t.tree.nodes@.len() implies #[trigger] layout_at(
                t.tree.nodes@,
                i,
            ) by {
                assert(i == 0);
            }
        }
        t
    }

    /// Index of the root node.
    pub fn root(&self) -> (r: usize)
        ensures
            r == 0,
    {
        self.tree.root_ix()
    }

    /// The active container, if one is set.
    pub fn active(&self) -> (r: Option<usize>)
        ensures
            r == self.active_container,
    {
        self.active_container
    }

    /// Focus a node: point the active reference at it. Fails when the index
    /// names no live node. Focusing the already-active node changes nothing.
    pub fn set_active(&mut self, id: usize) -> (r: Result<(), TreeError>)
        requires
            old(self).wf(),
        ensures
            final(self).wf(),
            final(self).tree == old(self).tree,
            final(self).next_id == old(self).next_id,
            r is Ok <==> node_live(old(self).tree.nodes@, id as int),
            r is Ok ==> final(self).active_container == Option::Some(id),
            r is Err ==> r == Result::<(), TreeError>::Err(TreeError::NodeNotFound)
                && final(self).active_container == old(self).active_container,
            old(self).active_container == Option::Some(id) && r is Ok ==> *final(self) == *old(
                self,
            ),
    {
        if self.tree.is_live(id) {
            self.active_container = Some(id);
            Ok(())
        } else {
            Err(TreeError::NodeNotFound)
        }
    }

    /// Find the live split or view carrying the given numeric identity.
    pub fn lookup_by_id(&self, id: u64) -> (r: Option<usize>)
        requires
            self.wf(),
        ensures
            r matches Some(ix) ==> node_live(self.tree.nodes@, ix as int)
                && self.tree.nodes@[ix as int].payload.numeric_id_spec() == Some(id),
            r is None ==> forall|i: int|
                node_live(self.tree.nodes@, i) ==> (#[trigger] self.tree.nodes@[i
                    as int].payload.numeric_id_spec()) != Some(id),
    {
        let mut i: usize = 0;
        while i < self.tree.nodes.len()
            invariant
                self.wf(),
                i <= self.tree.nodes@.len(),
                forall|j: int|
                    0 <= j < i && node_live(self.tree.nodes@, j) ==> (
                    #[trigger] self.tree.nodes@[j].payload.numeric_id_spec()) != Some(id),
            decreases self.tree.nodes@.len() - i,
        {
            if self.tree.nodes[i].live {
                if let Some(nid) = self.tree.nodes[i].payload.numeric_id() {
                    if nid == id {
                        return Some(i);
                    }
                }
            }
            i = i + 1;
        }
        None
    }

    /// The rectangle owned by a live node, where its payload owns one.
    pub fn rect_at(&self, id: usize) -> (r: Option<Rect>)
        ensures
            node_live(self.tree.nodes@, id as int) ==> r == self.tree.nodes@[id
                as int].payload.rect_spec(),
            !node_live(self.tree.nodes@, id as int) ==> r is None,
    {
        match self.tree.payload_of(id) {
            Some(c) => c.rect(),
            None => None,
        }
    }

    /// The ordered children of a node.
    pub fn children_of(&self, id: usize) -> (r: Vec<usize>)
        ensures
            node_live(self.tree.nodes@, id as int) ==> r@ == self.tree.nodes@[id
                as int].children@,
            !node_live(self.tree.nodes@, id as int) ==> r@.len() == 0,
    {
        self.tree.children_of(id)
    }

    /// The parent of a live node, `None` for the root or a stale index.
    pub fn parent_of(&self, id: usize) -> (r: Option<usize>)
        ensures
            r == (if node_live(self.tree.nodes@, id as int) {
                self.tree.nodes@[id as int].parent
            } else {
                Option::<usize>::None
            }),
    {
        self.tree.parent_of(id)
    }

    /// Add an output under the root. Fails when an output with the same
    /// identity is already live.
    pub fn add_output(&mut self, output_id: u64) -> (r: Result<usize, TreeError>)
        requires
            old(self).wf(),
        ensures
            final(self).wf(),
            r is Err ==> *final(self) == *old(self),
            r is Ok <==> !exists|i: int|
                node_live(old(self).tree.nodes@, i) && old(self).tree.nodes@[i].payload
                    == (Container::Output { output_id }),
            r is Err ==> r == Result::<usize, TreeError>::Err(TreeError::OutputExists),
            r matches Ok(n) ==> ({
                let s0 = old(self).tree.nodes@;
                let s2 = final(self).tree.nodes@;
                &&& n as int == s0.len()
                &&& s2.len() == s0.len() + 1
                &&& s2[n as int].payload == (Container::Output { output_id })
                &&& s2[n as int].parent == Option::Some(0usize)
                &&& s2[n as int].live
                &&& s2[0].children@ == s0[0].children@.push(n)
                &&& s2[0].payload == s0[0].payload
                &&& s2[0].parent == s0[0].parent
                &&& s2[0].live
                &&& forall|i: int| 0 <= i < s0.len() && i != 0 ==> s2[i] == s0[i]
                &&& final(self).active_container == old(self).active_container
                &&& final(self).next_id == old(self).next_id
            }),
    {
        let ghost s0 = self.tree.nodes@;
        let ghost d0 = self.tree.depths@;
        let mut i: usize = 0;
        while i < self.tree.nodes.len()
            invariant
                self.wf(),
                s0 == self.tree.nodes@,
                i <= s0.len(),
                forall|j: int|
                    0 <= j < i && node_live(s0, j) ==> #[trigger] s0[j].payload != (
                    Container::Output { output_id }),
            decreases s0.len() - i,
        {
            if self.tree.nodes[i].live {
                if let Container::Output { output_id: oid } = self.tree.nodes[i].payload {
                    if oid == output_id {
                        proof {
                            assert(node_live(s0, i as int) && s0[i as int].payload == (
                            Container::Output { output_id }));
                        }
                        return Err(TreeError::OutputExists);
                    }
                }
            }
            i = i + 1;
        }
        let res = self.tree.add_node(0, Container::Output { output_id });
        let n = match res {
            Ok(n) => n,
            Err(_) => {
                proof {
                    assert(false);
                }
                return Err(TreeError::OutputExists);
            },
        };
        proof {
            let s2 = self.tree.nodes@;
            assert forall|i2: int| 0 <= i2 < s2.len() implies #[trigger] layout_at(s2, i2) by {
                if i2 < s0.len() {
                    assert(layout_at(s0, i2));
                    assert(entry_ok(s0, d0, i2));
                    if s2[i2].live {
                        if i2 == 0 {
                            assert(s2[0].payload is Root);
                            assert(geom_at(s2, 0));
                        } else {
                            let q = parent_of(s0, i2);
                            assert(entry_ok(s0, d0, q));
                            assert(s2[q].payload == s0[q].payload);
                            assert forall|m: int| 0 <= m < s0[i2].children@.len() implies ((
                            #[trigger] s0[i2].children@[m] as int) < s0.len() && s2[s0[i2].children@[m]
                                as int].payload == s0[s0[i2].children@[m] as int].payload) by {
                                assert(node_live(s0, s0[i2].children@[m] as int));
                                assert(s0[i2].children@[m] as int != 0);
                            }
                            lemma_geom_frame(s0, s2, i2);
                        }
                    }
                } else {
                    assert(s2[i2].payload == (Container::Output { output_id }));
                    assert(entry_ok(s0, d0, 0));
                    assert(parent_of(s2, i2) == 0 && s2[0].payload is Root);
                    assert(nest_at(s2, i2));
                    assert(geom_at(s2, i2));
                }
            }
            assert(ids_ok(s2, self.next_id));
        }
        Ok(n)
    }

    /// Add a named workspace with the given screen rectangle under an
    /// output. Fails when the target is not a live output, or when the
    /// rectangle is unusable.
    pub fn add_workspace(&mut self, output: usize, name: String, rect: Rect) -> (r: Result<
        usize,
        TreeError,
    >)
        requires
            old(self).wf(),
        ensures
            final(self).wf(),
            r is Err ==> *final(self) == *old(self),
            r == Result::<usize, TreeError>::Err(TreeError::NodeNotFound) <==> !node_live(
                old(self).tree.nodes@,
                output as int,
            ),
            r == Result::<usize, TreeError>::Err(TreeError::WrongContainerType) <==> node_live(
                old(self).tree.nodes@,
                output as int,
            ) && !(old(self).tree.nodes@[output as int].payload is Output),
            r == Result::<usize, TreeError>::Err(TreeError::InvalidGeometry) <==> node_live(
                old(self).tree.nodes@,
                output as int,
            ) && old(self).tree.nodes@[output as int].payload is Output && !rect.sizeable(),
            r is Ok <==> node_live(old(self).tree.nodes@, output as int) && old(
                self,
            ).tree.nodes@[output as int].payload is Output && rect.sizeable(),
            r matches Ok(n) ==> ({
                let s0 = old(self).tree.nodes@;
                let s2 = final(self).tree.nodes@;
                &&& n as int == s0.len()
                &&& s2.len() == s0.len() + 1
                &&& s2[n as int].payload == (Container::Workspace { name, rect })
                &&& s2[n as int].parent == Option::Some(output)
                &&& s2[n as int].live
                &&& forall|i: int| 0 <= i < s0.len() && i != output as int ==> s2[i] == s0[i]
                &&& s2[output as int].payload == s0[output as int].payload
                &&& s2[output as int].children@ == s0[output as int].children@.push(n)
                &&& final(self).active_container == old(self).active_container
                &&& final(self).next_id == old(self).next_id
            }),
    {
        let ghost s0 = self.tree.nodes@;
        let ghost d0 = self.tree.depths@;
        if !self.tree.is_live(output) {
            return Err(TreeError::NodeNotFound);
        }
        let is_output = match &self.tree.nodes[output].payload {
            Container::Output { .. } => true,
            _ => false,
        };
        if !is_output {
            return Err(TreeError::WrongContainerType);
        }
        if !rect.check_sizeable() {
            return Err(TreeError::InvalidGeometry);
        }
        let res = self.tree.add_node(output, Container::Workspace { name, rect });
        let n = match res {
            Ok(n) => n,
            Err(_) => {
                proof {
                    assert(false);
                }
                return Err(TreeError::NodeNotFound);
            },
        };
        proof {
            let s2 = self.tree.nodes@;
            assert forall|i2: int| 0 <= i2 < s2.len() implies #[trigger] layout_at(s2, i2) by {
                if i2 < s0.len() {
                    if i2 == output as int {
                        assert(layout_at(s0, i2));
                        assert(entry_ok(s0, d0, i2));
                        assert(entry_ok(s0, d0, 0));
                        assert(i2 != 0);
                        let q = parent_of(s0, i2);
                        assert(entry_ok(s0, d0, q));
                        assert(s2[q].payload == s0[q].payload);
                        assert(nest_at(s2, i2));
                        assert(geom_at(s2, i2));
                    } else {
                        assert(entry_ok(s0, d0, i2));
                        if s2[i2].live && i2 != 0 {
                            assert(entry_ok(s0, d0, parent_of(s0, i2)));
                        }
                        lemma_layout_others(s0, d0, s2, i2, Set::empty());
                    }
                } else {
                    assert(s2[i2].payload == (Container::Workspace { name, rect }));
                    assert(entry_ok(s0, d0, output as int));
                    assert(parent_of(s2, i2) == output as int);
                    assert(nest_at(s2, i2));
                    assert(geom_at(s2, i2));
                }
            }
            assert(ids_ok(s2, self.next_id));
        }
        Ok(n)
    }

    /// Add a view beside or under `target`, giving it the next numeric
    /// identity and focusing it.
    ///
    /// Policy, from the slot-splitting lifecycle: a view added to a
    /// workspace takes the workspace rectangle; one added beside a view that
    /// already sits in a split takes the later half of that view's slot; one
    /// added beside a view sitting directly in a workspace first synthesizes
    /// a horizontal split container in that view's place and then splits.
    pub fn add_view(&mut self, target: usize, handle: Handle) -> (r: Result<usize, TreeError>)
        requires
            old(self).wf(),
        ensures
            final(self).wf(),
            r is Err ==> *final(self) == *old(self),
            r is Ok <==> add_view_ok(old(self).tree.nodes@, target as int, old(self).next_id),
            !node_live(old(self).tree.nodes@, target as int) ==> r
                == Result::<usize, TreeError>::Err(TreeError::NodeNotFound),
            node_live(old(self).tree.nodes@, target as int) && !(old(self).tree.nodes@[target
                as int].payload is Workspace) && !(old(self).tree.nodes@[target
                as int].payload is View) ==> r == Result::<usize, TreeError>::Err(
                TreeError::WrongContainerType,
            ),
            r matches Ok(n) ==> ({
                let s0 = old(self).tree.nodes@;
                let s2 = final(self).tree.nodes@;
                let nid0 = old(self).next_id;
                &&& final(self).active_container == Option::Some(n)
                &&& node_live(s2, n as int)
                &&& match s0[target as int].payload {
                    Container::Workspace { rect: wr, .. } => {
                        &&& n as int == s0.len()
                        &&& s2.len() == s0.len() + 1
                        &&& s2[n as int].payload == (Container::View {
                            handle,
                            id: nid0,
                            rect: wr,
                        })
                        &&& s2[n as int].parent == Option::Some(target)
                        &&& s2[target as int].children@ == s0[target as int].children@.push(n)
                        &&& s2[target as int].payload == s0[target as int].payload
                        &&& forall|i: int|
                            0 <= i < s0.len() && i != target as int ==> s2[i] == s0[i]
                        &&& final(self).next_id == nid0 + 1
                    },
                    Container::View { rect: rv, .. } => {
                        let q = parent_of(s0, target as int);
                        match s0[q].payload {
                            Container::Container { layout, .. } => {
                                let split = layout is Horizontal || layout is Vertical;
                                let horiz = !(layout is Vertical);
                                let e1 = axis_ext(rv, horiz) / 2;
                                let r1 = if split {
                                    set_axis_spec(rv, horiz, rv.lo_spec(horiz), e1 as u32)
                                } else {
                                    rv
                                };
                                let r2 = if split {
                                    set_axis_spec(
                                        rv,
                                        horiz,
                                        (rv.lo_spec(horiz) + e1) as u32,
                                        (axis_ext(rv, horiz) - e1) as u32,
                                    )
                                } else {
                                    rv
                                };
                                &&& n as int == s0.len()
                                &&& s2.len() == s0.len() + 1
                                &&& s2[n as int].payload == (Container::View {
                                    handle,
                                    id: nid0,
                                    rect: r2,
                                })
                                &&& s2[n as int].parent == Option::Some(q as usize)
                                &&& s2[target as int].payload == s0[target
                                    as int].payload.with_rect_spec(r1)
                                &&& forall|pos: int|
                                    0 <= pos < s0[q].children@.len() && s0[q].children@[pos]
                                        == target ==> s2[q].children@ == s0[q].children@.insert(
                                        pos + 1,
                                        n,
                                    )
                                &&& forall|i: int|
                                    0 <= i < s0.len() && i != target as int && i != q ==> s2[i]
                                        == s0[i]
                                &&& final(self).next_id == nid0 + 1
                            },
                            Container::Workspace { .. } => {
                                let c = s0.len() as int;
                                let e1 = rv.w as int / 2;
                                let r1 = set_axis_spec(rv, true, rv.x, e1 as u32);
                                let r2 = set_axis_spec(
                                    rv,
                                    true,
                                    (rv.x + e1) as u32,
                                    (rv.w - e1) as u32,
                                );
                                &&& n as int == s0.len() + 1
                                &&& s2.len() == s0.len() + 2
                                &&& s2[c].payload == (Container::Container {
                                    layout: Layout::Horizontal,
                                    id: nid0,
                                    rect: rv,
                                })
                                &&& s2[c].parent == Option::Some(q as usize)
                                &&& s2[c].children@ == seq![target, n]
                                &&& s2[n as int].payload == (Container::View {
                                    handle,
                                    id: (nid0 + 1) as u64,
                                    rect: r2,
                                })
                                &&& s2[n as int].parent == Option::Some(c as usize)
                                &&& s2[target as int].payload == s0[target
                                    as int].payload.with_rect_spec(r1)
                                &&& s2[target as int].parent == Option::Some(c as usize)
                                &&& forall|pos: int|
                                    0 <= pos < s0[q].children@.len() && s0[q].children@[pos]
                                        == target ==> s2[q].children@ == s0[q].children@.push(
                                        c as usize,
                                    ).remove(pos)
                                &&& forall|i: int|
                                    0 <= i < s0.len() && i != target as int && i != q ==> s2[i]
                                        == s0[i]
                                &&& final(self).next_id == nid0 + 2
                            },
                            _ => false,
                        }
                    },
                    _ => false,
                }
            }),
    {
        let ghost s0 = self.tree.nodes@;
        let ghost d0 = self.tree.depths@;
        let ghost nid0 = self.next_id;
        if !self.tree.is_live(target) {
            return Err(TreeError::NodeNotFound);
        }
        let ttype = self.tree.nodes[target].payload.get_type();
        match ttype {
            ContainerType::Workspace => {
                if self.next_id == u64::MAX {
                    return Err(TreeError::IdsExhausted);
                }
                let wr = match self.tree.nodes[target].payload.rect() {
                    Some(rct) => rct,
                    None => {
                        proof {
                            assert(false);
                        }
                        return Err(TreeError::NodeNotFound);
                    },
                };
                let vid = self.next_id;
                let res = self.tree.add_node(target, Container::View { handle, id: vid, rect: wr });
                let n = match res {
                    Ok(n) => n,
                    Err(_) => {
                        proof {
                            assert(false);
                        }
                        return Err(TreeError::NodeNotFound);
                    },
                };
                self.next_id = vid + 1;
                self.active_container = Some(n);
                proof {
                    let s2 = self.tree.nodes@;
                    assert(layout_at(s0, target as int));
                    assert forall|i2: int| 0 <= i2 < s2.len() implies #[trigger] layout_at(
                        s2,
                        i2,
                    ) by {
                        if i2 < s0.len() {
                            if i2 == target as int {
                                assert(layout_at(s0, i2));
                                assert(entry_ok(s0, d0, i2));
                                if i2 != 0 {
                                    assert(entry_ok(s0, d0, parent_of(s0, i2)));
                                    assert(s2[parent_of(s0, i2)].payload == s0[parent_of(
                                        s0,
                                        i2,
                                    )].payload);
                                }
                                assert(nest_at(s2, i2));
                                assert(geom_at(s2, i2));
                            } else {
                                assert(layout_at(s0, i2));
                                assert(entry_ok(s0, d0, i2));
                                if s2[i2].live && i2 != 0 {
                                    assert(entry_ok(s0, d0, parent_of(s0, i2)));
                                }
                                lemma_layout_others(s0, d0, s2, i2, Set::empty());
                            }
                        } else {
                            assert(s2[i2].payload == (Container::View {
                                handle,
                                id: vid,
                                rect: wr,
                            }));
                            assert(parent_of(s2, i2) == target as int);
                            assert(nest_at(s2, i2));
                            assert(geom_at(s2, i2));
                        }
                    }
                    assert(ids_ok(s2, self.next_id)) by {
                        assert forall|i: int, j: int|
                            #![trigger s2[i].payload.numeric_id_spec(), s2[j].payload.numeric_id_spec()]
                            node_live(s2, i) && node_live(s2, j) && i != j && s2[
                            i].payload.numeric_id_spec() is Some implies s2[
                        i].payload.numeric_id_spec() != s2[j].payload.numeric_id_spec() by {
                            if i < s0.len() && j < s0.len() {
                                assert(node_live(s0, i) && node_live(s0, j));
                            }
                        }
                    }
                }
                Ok(n)
            },
            ContainerType::View => {
                proof {
                    assert(entry_ok(s0, d0, 0));
                    assert(target != 0);
                    assert(entry_ok(s0, d0, target as int));
                    assert(layout_at(s0, target as int));
                }
                let rv = match self.tree.nodes[target].payload.rect() {
                    Some(rct) => rct,
                    None => {
                        proof {
                            assert(false);
                        }
                        return Err(TreeError::NodeNotFound);
                    },
                };
                let q = match self.tree.nodes[target].parent {
                    Some(q) => q,
                    None => {
                        proof {
                            assert(false);
                        }
                        return Err(TreeError::NodeNotFound);
                    },
                };
                proof {
                    assert(node_live(s0, q as int));
                    assert(entry_ok(s0, d0, q as int));
                    assert(layout_at(s0, q as int));
                }
                let qtype = self.tree.nodes[q].payload.get_type();
                match qtype {
                    ContainerType::Container => self.add_view_in_split(target, q, rv, handle),
                    ContainerType::Workspace => self.add_view_synthesize(target, q, rv, handle),
                    _ => {
                        proof {
                            assert(false);
                        }
                        Err(TreeError::WrongContainerType)
                    },
                }
            },
            _ => Err(TreeError::WrongContainerType),
        }
    }

    /// Move the active reference to the sibling lying in `direction` within
    /// the active node's split container. The tree itself is untouched.
    /// Crossing a workspace boundary is not attempted: at the edge of the
    /// split the action fails and changes nothing.
    pub fn focus(&mut self, direction: Direction) -> (r: Result<(), FocusError>)
        requires
            old(self).wf(),
        ensures
            final(self).wf(),
            final(self).tree == old(self).tree,
            final(self).next_id == old(self).next_id,
            r is Err ==> final(self).active_container == old(self).active_container,
            old(self).active_container is None <==> r == Result::<(), FocusError>::Err(
                FocusError::NoActiveContainer,
            ),
            old(self).active_container matches Some(a) ==> ({
                let s0 = old(self).tree.nodes@;
                let q = parent_of(s0, a as int);
                if a == 0 {
                    r == Result::<(), FocusError>::Err(FocusError::NoTargetInDirection)
                } else {
                    match s0[q].payload {
                        Container::Container { layout, .. } => {
                            if direction.along_spec(layout) {
                                forall|pos: int|
                                    0 <= pos < s0[q].children@.len() && s0[q].children@[pos] == a
                                        ==> ({
                                        let t = if direction.is_forward_spec() {
                                            pos + 1
                                        } else {
                                            pos - 1
                                        };
                                        if 0 <= t < s0[q].children@.len() {
                                            r is Ok && final(self).active_container
                                                == Option::Some(s0[q].children@[t])
                                        } else {
                                            r == Result::<(), FocusError>::Err(
                                                FocusError::NoTargetInDirection,
                                            )
                                        }
                                    })
                            } else {
                                r == Result::<(), FocusError>::Err(
                                    FocusError::NoTargetInDirection,
                                )
                            }
                        },
                        _ => r == Result::<(), FocusError>::Err(FocusError::NoTargetInDirection),
                    }
                }
            }),
    {
        let ghost s0 = self.tree.nodes@;
        let ghost d0 = self.tree.depths@;
        let a = match self.active_container {
            Some(a) => a,
            None => {
                return Err(FocusError::NoActiveContainer);
            },
        };
        proof {
            assert(node_live(s0, a as int));
            assert(entry_ok(s0, d0, a as int));
        }
        if a == 0 {
            return Err(FocusError::NoTargetInDirection);
        }
        let q = match self.tree.nodes[a].parent {
            Some(q) => q,
            None => {
                proof {
                    assert(false);
                }
                return Err(FocusError::NoTargetInDirection);
            },
        };
        let layout = match &self.tree.nodes[q].payload {
            Container::Container { layout, .. } => *layout,
            _ => {
                return Err(FocusError::NoTargetInDirection);
            },
        };
        if !direction.along(layout) {
            return Err(FocusError::NoTargetInDirection);
        }
        let pos = self.tree.find_child(q, a);
        let len = self.tree.nodes[q].children.len();
        proof {
            assert(entry_ok(s0, d0, q as int));
            assert forall|p2: int| 0 <= p2 < s0[q as int].children@.len() && s0[q
                as int].children@[p2] == a implies p2 == pos as int by {}
        }
        let t = if direction.is_forward() {
            if pos + 1 >= len {
                return Err(FocusError::NoTargetInDirection);
            }
            pos + 1
        } else {
            if pos == 0 {
                return Err(FocusError::NoTargetInDirection);
            }
            pos - 1
        };
        let sib = self.tree.nodes[q].children[t];
        proof {
            assert(node_live(s0, sib as int));
        }
        self.active_container = Some(sib);
        Ok(())
    }

    /// Relocate the active view one step in `direction`: it changes places
    /// with the adjacent sibling of its split container, each keeping its
    /// own extent. At the split's edge the action fails and changes nothing;
    /// it does not leave the workspace.
    #[verifier::rlimit(100)]
    pub fn move_active(&mut self, direction: Direction) -> (r: Result<(), MovementError>)
        requires
            old(self).wf(),
        ensures
            final(self).wf(),
            final(self).next_id == old(self).next_id,
            final(self).active_container == old(self).active_container,
            final(self).tree.nodes@.len() == old(self).tree.nodes@.len(),
            r is Err ==> *final(self) == *old(self),
            old(self).active_container is None <==> r == Result::<(), MovementError>::Err(
                MovementError::NoActiveContainer,
            ),
            old(self).active_container matches Some(a) ==> ({
                let s0 = old(self).tree.nodes@;
                let s2 = final(self).tree.nodes@;
                if !(s0[a as int].payload is View) {
                    r == Result::<(), MovementError>::Err(MovementError::NotMovable)
                } else {
                    let q = parent_of(s0, a as int);
                    let c0 = s0[q].children@;
                    match s0[q].payload {
                        Container::Container { layout, .. } => {
                            if direction.along_spec(layout) {
                                forall|pos: int|
                                    0 <= pos < c0.len() && c0[pos] == a ==> ({
                                        let t = if direction.is_forward_spec() {
                                            pos + 1
                                        } else {
                                            pos - 1
                                        };
                                        if 0 <= t < c0.len() {
                                            let horiz = layout is Horizontal;
                                            let sib = c0[t];
                                            let ra = rect_of(s0, a as int);
                                            let rs = rect_of(s0, sib as int);
                                            let u_sib = if direction.is_forward_spec() {
                                                set_axis_spec(
                                                    rs,
                                                    horiz,
                                                    ra.lo_spec(horiz),
                                                    rs.ext_spec(horiz),
                                                )
                                            } else {
                                                set_axis_spec(
                                                    rs,
                                                    horiz,
                                                    (rs.lo_spec(horiz) + ra.ext_spec(horiz)) as u32,
                                                    rs.ext_spec(horiz),
                                                )
                                            };
                                            let u_a = if direction.is_forward_spec() {
                                                set_axis_spec(
                                                    ra,
                                                    horiz,
                                                    (ra.lo_spec(horiz) + rs.ext_spec(horiz)) as u32,
                                                    ra.ext_spec(horiz),
                                                )
                                            } else {
                                                set_axis_spec(
                                                    ra,
                                                    horiz,
                                                    rs.lo_spec(horiz),
                                                    ra.ext_spec(horiz),
                                                )
                                            };
                                            &&& r is Ok
                                            &&& s2.len() == s0.len()
                                            &&& s2[q].children@ == c0.update(pos, sib).update(t, a)
                                            &&& s2[q].payload == s0[q].payload
                                            &&& s2[q].parent == s0[q].parent
                                            &&& s2[q].live
                                            &&& s2[a as int].payload == s0[a
                                                as int].payload.with_rect_spec(u_a)
                                            &&& s2[a as int].parent == s0[a as int].parent
                                            &&& s2[a as int].children@ == s0[a as int].children@
                                            &&& s2[a as int].live
                                            &&& s2[sib as int].payload == s0[sib
                                                as int].payload.with_rect_spec(u_sib)
                                            &&& s2[sib as int].parent == s0[sib as int].parent
                                            &&& s2[sib as int].children@ == s0[sib
                                                as int].children@
                                            &&& s2[sib as int].live
                                            &&& forall|i: int|
                                                0 <= i < s0.len() && i != q && i != a as int && i
                                                    != sib as int ==> s2[i] == s0[i]
                                        } else {
                                            r == Result::<(), MovementError>::Err(
                                                MovementError::NoTargetInDirection,
                                            )
                                        }
                                    })
                            } else {
                                r == Result::<(), MovementError>::Err(
                                    MovementError::NoTargetInDirection,
                                )
                            }
                        },
                        _ => r == Result::<(), MovementError>::Err(
                            MovementError::NoTargetInDirection,
                        ),
                    }
                }
            }),
    {
        let ghost s0 = self.tree.nodes@;
        let ghost d0 = self.tree.depths@;
        let ghost nid0 = self.next_id;
        let nlen = self.tree.nodes.len();
        proof {
            assert(s0.len() == nlen as int);
        }
        let a = match self.active_container {
            Some(a) => a,
            None => {
                return Err(MovementError::NoActiveContainer);
            },
        };
        proof {
            assert(node_live(s0, a as int));
            assert(entry_ok(s0, d0, a as int));
            assert(layout_at(s0, a as int));
        }
        let is_view = match &self.tree.nodes[a].payload {
            Container::View { .. } => true,
            _ => false,
        };
        if !is_view {
            return Err(MovementError::NotMovable);
        }
        proof {
            assert(entry_ok(s0, d0, 0));
            assert(a != 0);
        }
        let q = match self.tree.nodes[a].parent {
            Some(q) => q,
            None => {
                proof {
                    assert(false);
                }
                return Err(MovementError::NotMovable);
            },
        };
        proof {
            assert(node_live(s0, q as int));
            assert(entry_ok(s0, d0, q as int));
            assert(layout_at(s0, q as int));
        }
        let layout = match &self.tree.nodes[q].payload {
            Container::Container { layout, .. } => *layout,
            _ => {
                return Err(MovementError::NoTargetInDirection);
            },
        };
        if !direction.along(layout) {
            return Err(MovementError::NoTargetInDirection);
        }
        let horiz = match layout {
            Layout::Horizontal => true,
            _ => false,
        };
        let pos = self.tree.find_child(q, a);
        let len = self.tree.nodes[q].children.len();
        let ghost c0 = s0[q as int].children@;
        proof {
            assert forall|p2: int| 0 <= p2 < c0.len() && c0[p2] == a implies p2 == pos as int by {}
        }
        let t = if direction.is_forward() {
            if pos + 1 >= len {
                return Err(MovementError::NoTargetInDirection);
            }
            pos + 1
        } else {
            if pos == 0 {
                return Err(MovementError::NoTargetInDirection);
            }
            pos - 1
        };
        let sib = self.tree.nodes[q].children[t];
        proof {
            assert(node_live(s0, sib as int));
            assert(entry_ok(s0, d0, sib as int));
            assert(layout_at(s0, sib as int));
            assert(s0[sib as int].payload is View);
            assert(sib != a);
            assert(a as int != q as int && sib as int != q as int) by {
                if a as int == q as int {
                    assert(parent_of(s0, a as int) == a as int);
                }
                if sib as int == q as int {
                    assert(parent_of(s0, sib as int) == sib as int);
                }
            }
            // both slots sit inside the split's span
            if direction.is_forward_spec() {
                assert(axis_lo(rect_of(s0, c0[t as int] as int), horiz) == axis_lo(
                    rect_of(s0, c0[pos as int] as int),
                    horiz,
                ) + axis_ext(rect_of(s0, c0[pos as int] as int), horiz));
            } else {
                assert(axis_lo(rect_of(s0, c0[pos as int] as int), horiz) == axis_lo(
                    rect_of(s0, c0[t as int] as int),
                    horiz,
                ) + axis_ext(rect_of(s0, c0[t as int] as int), horiz));
            }
            assert(rect_of(s0, q as int).sizeable());
        }
        self.move_commit(a, sib, q, pos, t, horiz, direction.is_forward());
        Ok(())
    }

    /// Exchange the views at slots `pos` (holding `a`) and `t` (holding
    /// `sib`) of split container `q`, each keeping its own extent: the node
    /// moving towards the lower slot takes that slot's start, the other
    /// follows it.
    #[verifier::rlimit(100)]
    fn move_commit(
        &mut self,
        a: usize,
        sib: usize,
        q: usize,
        pos: usize,
        t: usize,
        horiz: bool,
        fwd: bool,
    )
        requires
            old(self).wf(),
            node_live(old(self).tree.nodes@, q as int),
            old(self).tree.nodes@[q as int].payload matches Container::Container { layout, .. }
                && (layout is Horizontal || layout is Vertical) && (horiz <==> layout
                is Horizontal),
            (pos as int) < old(self).tree.nodes@[q as int].children@.len(),
            (t as int) < old(self).tree.nodes@[q as int].children@.len(),
            old(self).tree.nodes@[q as int].children@[pos as int] == a,
            old(self).tree.nodes@[q as int].children@[t as int] == sib,
            fwd ==> t == pos + 1,
            !fwd ==> pos == t + 1,
            node_live(old(self).tree.nodes@, a as int),
            node_live(old(self).tree.nodes@, sib as int),
            old(self).tree.nodes@[a as int].payload is View,
            old(self).tree.nodes@[sib as int].payload is View,
        ensures
            final(self).wf(),
            final(self).next_id == old(self).next_id,
            final(self).active_container == old(self).active_container,
            final(self).tree.nodes@.len() == old(self).tree.nodes@.len(),
            ({
                let s0 = old(self).tree.nodes@;
                let s2 = final(self).tree.nodes@;
                let ra = rect_of(s0, a as int);
                let rs = rect_of(s0, sib as int);
                let u_sib = if fwd {
                    set_axis_spec(rs, horiz, ra.lo_spec(horiz), rs.ext_spec(horiz))
                } else {
                    set_axis_spec(
                        rs,
                        horiz,
                        (rs.lo_spec(horiz) + ra.ext_spec(horiz)) as u32,
                        rs.ext_spec(horiz),
                    )
                };
                let u_a = if fwd {
                    set_axis_spec(
                        ra,
                        horiz,
                        (ra.lo_spec(horiz) + rs.ext_spec(horiz)) as u32,
                        ra.ext_spec(horiz),
                    )
                } else {
                    set_axis_spec(ra, horiz, rs.lo_spec(horiz), ra.ext_spec(horiz))
                };
                &&& s2[q as int].children@ == s0[q as int].children@.update(
                    pos as int,
                    sib,
                ).update(t as int, a)
                &&& s2[q as int].payload == s0[q as int].payload
                &&& s2[q as int].parent == s0[q as int].parent
                &&& s2[q as int].live
                &&& s2[a as int].payload == s0[a as int].payload.with_rect_spec(u_a)
                &&& s2[a as int].parent == s0[a as int].parent
                &&& s2[a as int].children@ == s0[a as int].children@
                &&& s2[a as int].live
                &&& s2[sib as int].payload == s0[sib as int].payload.with_rect_spec(u_sib)
                &&& s2[sib as int].parent == s0[sib as int].parent
                &&& s2[sib as int].children@ == s0[sib as int].children@
                &&& s2[sib as int].live
                &&& forall|i: int|
                    0 <= i < s0.len() && i != q as int && i != a as int && i != sib as int ==> s2[i]
                        == s0[i]
            }),
    {
        let ghost s0 = self.tree.nodes@;
        let ghost d0 = self.tree.depths@;
        let ghost c0 = s0[q as int].children@;
        proof {
            assert(entry_ok(s0, d0, q as int));
            assert(layout_at(s0, q as int));
            assert(entry_ok(s0, d0, a as int));
            assert(layout_at(s0, a as int));
            assert(entry_ok(s0, d0, sib as int));
            assert(layout_at(s0, sib as int));
            assert(sib != a);
            if fwd {
                assert(axis_lo(rect_of(s0, c0[t as int] as int), horiz) == axis_lo(
                    rect_of(s0, c0[pos as int] as int),
                    horiz,
                ) + axis_ext(rect_of(s0, c0[pos as int] as int), horiz));
            } else {
                assert(axis_lo(rect_of(s0, c0[pos as int] as int), horiz) == axis_lo(
                    rect_of(s0, c0[t as int] as int),
                    horiz,
                ) + axis_ext(rect_of(s0, c0[t as int] as int), horiz));
            }
            assert(rect_of(s0, q as int).sizeable());
        }
        let ghost nid0 = self.next_id;
        let nlen2 = self.tree.nodes.len();
        proof {
            assert(s0.len() == nlen2 as int);
        }
        let ra = match self.tree.nodes[a].payload.rect() {
            Some(rct) => rct,
            None => {
                proof {
                    assert(false);
                }
                Rect { x: 0, y: 0, w: 0, h: 0 }
            },
        };
        let rs = match self.tree.nodes[sib].payload.rect() {
            Some(rct) => rct,
            None => {
                proof {
                    assert(false);
                }
                Rect { x: 0, y: 0, w: 0, h: 0 }
            },
        };
        let (u_a, u_sib) = if fwd {
            (
                ra.set_axis(horiz, ra.lo(horiz) + rs.ext(horiz), ra.ext(horiz)),
                rs.set_axis(horiz, ra.lo(horiz), rs.ext(horiz)),
            )
        } else {
            (
                ra.set_axis(horiz, rs.lo(horiz), ra.ext(horiz)),
                rs.set_axis(horiz, rs.lo(horiz) + ra.ext(horiz), rs.ext(horiz)),
            )
        };
        let res0 = self.tree.swap_children_at(q, pos, t);
        proof {
            assert(res0 is Ok);
        }
        let npa = self.tree.nodes[a].payload.with_rect(u_a);
        let res1 = self.tree.set_payload(a, npa);
        proof {
            assert(res1 is Ok);
        }
        let nps = self.tree.nodes[sib].payload.with_rect(u_sib);
        let res2 = self.tree.set_payload(sib, nps);
        proof {
            assert(res2 is Ok);
        }
        proof {
            let s2 = self.tree.nodes@;
            assert(s2[q as int].children@ == c0.update(pos as int, sib).update(t as int, a));
            assert(s2[a as int].payload == s0[a as int].payload.with_rect_spec(u_a));
            assert(s2[sib as int].payload == s0[sib as int].payload.with_rect_spec(u_sib));
            assert forall|i: int|
                0 <= i < s0.len() && i != q as int && i != a as int && i != sib as int implies s2[
            i] == s0[i] by {}
            let (p, x1, x2, u1, u2) = if fwd {
                (pos as int, sib, a, u_sib, u_a)
            } else {
                (t as int, a, sib, u_a, u_sib)
            };
            assert(s2[q as int].children@ =~= c0.update(p, x1).update(p + 1, x2));
            assert(s0[a as int].payload.with_rect_spec(u_a) is View);
            assert(s0[sib as int].payload.with_rect_spec(u_sib) is View);
            lemma_pair_layout(s0, d0, s2, q, p, x1, x2, u1, u2, horiz);
            assert forall|i: int|
                0 <= i < s0.len() implies s2[i].live == s0[i].live && (
            #[trigger] s2[i].payload.numeric_id_spec()) == s0[i].payload.numeric_id_spec() by {
                if i == a as int {
                    assert(s2[i].payload == s0[i].payload.with_rect_spec(u_a));
                } else if i == sib as int {
                    assert(s2[i].payload == s0[i].payload.with_rect_spec(u_sib));
                }
            }
            lemma_ids_extend(s0, s2, nid0, nid0);
        }
    }

    /// Grow the active view's extent along the axis of `direction` by
    /// `delta`, shrinking the adjacent sibling in that direction by the same
    /// amount. Fails — changing nothing — when there is no such sibling, or
    /// when the sibling would drop below `MIN_SIZE`.
    #[verifier::rlimit(100)]
    pub fn resize_active(&mut self, direction: Direction, delta: u32) -> (r: Result<(), ResizeErr>)
        requires
            old(self).wf(),
        ensures
            final(self).wf(),
            final(self).next_id == old(self).next_id,
            final(self).active_container == old(self).active_container,
            final(self).tree.nodes@.len() == old(self).tree.nodes@.len(),
            r is Err ==> *final(self) == *old(self),
            old(self).active_container is None <==> r == Result::<(), ResizeErr>::Err(
                ResizeErr::NoActiveContainer,
            ),
            old(self).active_container matches Some(a) ==> ({
                let s0 = old(self).tree.nodes@;
                let s2 = final(self).tree.nodes@;
                if a == 0 {
                    r == Result::<(), ResizeErr>::Err(ResizeErr::NoSiblingInDirection)
                } else {
                    let q = parent_of(s0, a as int);
                    let c0 = s0[q].children@;
                    match s0[q].payload {
                        Container::Container { layout, .. } => {
                            if direction.along_spec(layout) {
                                forall|pos: int|
                                    0 <= pos < c0.len() && c0[pos] == a ==> ({
                                        let t = if direction.is_forward_spec() {
                                            pos + 1
                                        } else {
                                            pos - 1
                                        };
                                        if 0 <= t < c0.len() {
                                            let horiz = layout is Horizontal;
                                            let sib = c0[t];
                                            let ra = rect_of(s0, a as int);
                                            let rs = rect_of(s0, sib as int);
                                            if delta <= rs.ext_spec(horiz) && rs.ext_spec(horiz)
                                                - delta >= MIN_SIZE {
                                                let u_a = if direction.is_forward_spec() {
                                                    set_axis_spec(
                                                        ra,
                                                        horiz,
                                                        ra.lo_spec(horiz),
                                                        (ra.ext_spec(horiz) + delta) as u32,
                                                    )
                                                } else {
                                                    set_axis_spec(
                                                        ra,
                                                        horiz,
                                                        (rs.lo_spec(horiz) + rs.ext_spec(horiz)
                                                            - delta) as u32,
                                                        (ra.ext_spec(horiz) + delta) as u32,
                                                    )
                                                };
                                                let u_sib = if direction.is_forward_spec() {
                                                    set_axis_spec(
                                                        rs,
                                                        horiz,
                                                        (ra.lo_spec(horiz) + ra.ext_spec(horiz)
                                                            + delta) as u32,
                                                        (rs.ext_spec(horiz) - delta) as u32,
                                                    )
                                                } else {
                                                    set_axis_spec(
                                                        rs,
                                                        horiz,
                                                        rs.lo_spec(horiz),
                                                        (rs.ext_spec(horiz) - delta) as u32,
                                                    )
                                                };
                                                &&& r is Ok
                                                &&& s2[a as int].payload == s0[a
                                                    as int].payload.with_rect_spec(u_a)
                                                &&& s2[a as int].parent == s0[a as int].parent
                                                &&& s2[a as int].children@ == s0[a
                                                    as int].children@
                                                &&& s2[a as int].live
                                                &&& s2[sib as int].payload == s0[sib
                                                    as int].payload.with_rect_spec(u_sib)
                                                &&& s2[sib as int].parent == s0[sib
                                                    as int].parent
                                                &&& s2[sib as int].children@ == s0[sib
                                                    as int].children@
                                                &&& s2[sib as int].live
                                                &&& s2[q].payload == s0[q].payload
                                                &&& s2[q].parent == s0[q].parent
                                                &&& s2[q].live
                                                &&& axis_ext(u_a, horiz) == axis_ext(ra, horiz)
                                                    + delta
                                                &&& axis_ext(u_sib, horiz) >= MIN_SIZE
                                                &&& s2[q].children@ == c0
                                                &&& forall|i: int|
                                                    0 <= i < s0.len() && i != a as int && i != sib
                                                        as int ==> s2[i] == s0[i]
                                            } else {
                                                r == Result::<(), ResizeErr>::Err(
                                                    ResizeErr::TooSmall,
                                                )
                                            }
                                        } else {
                                            r == Result::<(), ResizeErr>::Err(
                                                ResizeErr::NoSiblingInDirection,
                                            )
                                        }
                                    })
                            } else {
                                r == Result::<(), ResizeErr>::Err(ResizeErr::NoSiblingInDirection)
                            }
                        },
                        _ => r == Result::<(), ResizeErr>::Err(ResizeErr::NoSiblingInDirection),
                    }
                }
            }),
    {
        let ghost s0 = self.tree.nodes@;
        let ghost d0 = self.tree.depths@;
        let ghost nid0 = self.next_id;
        let a = match self.active_container {
            Some(a) => a,
            None => {
                return Err(ResizeErr::NoActiveContainer);
            },
        };
        proof {
            assert(node_live(s0, a as int));
            assert(entry_ok(s0, d0, a as int));
            assert(layout_at(s0, a as int));
        }
        if a == 0 {
            return Err(ResizeErr::NoSiblingInDirection);
        }
        let q = match self.tree.nodes[a].parent {
            Some(q) => q,
            None => {
                proof {
                    assert(false);
                }
                return Err(ResizeErr::NoSiblingInDirection);
            },
        };
        proof {
            assert(node_live(s0, q as int));
            assert(entry_ok(s0, d0, q as int));
            assert(layout_at(s0, q as int));
        }
        let layout = match &self.tree.nodes[q].payload {
            Container::Container { layout, .. } => *layout,
            _ => {
                return Err(ResizeErr::NoSiblingInDirection);
            },
        };
        if !direction.along(layout) {
            return Err(ResizeErr::NoSiblingInDirection);
        }
        let horiz = match layout {
            Layout::Horizontal => true,
            _ => false,
        };
        let pos = self.tree.find_child(q, a);
        let len = self.tree.nodes[q].children.len();
        let ghost c0 = s0[q as int].children@;
        proof {
            assert forall|p2: int| 0 <= p2 < c0.len() && c0[p2] == a implies p2 == pos as int by {}
        }
        let t = if direction.is_forward() {
            if pos + 1 >= len {
                return Err(ResizeErr::NoSiblingInDirection);
            }
            pos + 1
        } else {
            if pos == 0 {
                return Err(ResizeErr::NoSiblingInDirection);
            }
            pos - 1
        };
        let sib = self.tree.nodes[q].children[t];
        proof {
            assert(node_live(s0, sib as int));
            assert(entry_ok(s0, d0, sib as int));
            assert(layout_at(s0, sib as int));
            assert(s0[a as int].payload is View);
            assert(s0[sib as int].payload is View);
            assert(sib != a);
            assert(a as int != q as int && sib as int != q as int) by {
                if a as int == q as int {
                    assert(parent_of(s0, a as int) == a as int);
                }
                if sib as int == q as int {
                    assert(parent_of(s0, sib as int) == sib as int);
                }
            }
            if direction.is_forward_spec() {
                assert(axis_lo(rect_of(s0, c0[t as int] as int), horiz) == axis_lo(
                    rect_of(s0, c0[pos as int] as int),
                    horiz,
                ) + axis_ext(rect_of(s0, c0[pos as int] as int), horiz));
            } else {
                assert(axis_lo(rect_of(s0, c0[pos as int] as int), horiz) == axis_lo(
                    rect_of(s0, c0[t as int] as int),
                    horiz,
                ) + axis_ext(rect_of(s0, c0[t as int] as int), horiz));
            }
            assert(rect_of(s0, q as int).sizeable());
        }
        let ra = match self.tree.nodes[a].payload.rect() {
            Some(rct) => rct,
            None => {
                proof {
                    assert(false);
                }
                return Err(ResizeErr::NoSiblingInDirection);
            },
        };
        let rs = match self.tree.nodes[sib].payload.rect() {
            Some(rct) => rct,
            None => {
                proof {
                    assert(false);
                }
                return Err(ResizeErr::NoSiblingInDirection);
            },
        };
        if delta > rs.ext(horiz) || rs.ext(horiz) - delta < MIN_SIZE {
            return Err(ResizeErr::TooSmall);
        }
        let (u_a, u_sib) = if direction.is_forward() {
            (
                ra.set_axis(horiz, ra.lo(horiz), ra.ext(horiz) + delta),
                rs.set_axis(horiz, ra.lo(horiz) + ra.ext(horiz) + delta, rs.ext(horiz) - delta),
            )
        } else {
            (
                ra.set_axis(horiz, rs.lo(horiz) + (rs.ext(horiz) - delta), ra.ext(horiz) + delta),
                rs.set_axis(horiz, rs.lo(horiz), rs.ext(horiz) - delta),
            )
        };
        if direction.is_forward() {
            self.commit_pair_rects(q, pos, false, a, sib, u_a, u_sib, horiz);
        } else {
            self.commit_pair_rects(q, t, false, sib, a, u_sib, u_a, horiz);
        }
        proof {
            let s2 = self.tree.nodes@;
            assert(s2[q as int].children@ =~= c0);
        }
        Ok(())
    }

    /// Rewrite the pair of views in adjacent slots `lo`, `lo + 1` of split
    /// container `q` — exchanging their places when `exchange` is set — so
    /// that `x1` ends at slot `lo` under `u1` and `x2` at slot `lo + 1`
    /// under `u2`; the pair must cover the same combined span as before.
    #[verifier::rlimit(100)]
    fn commit_pair_rects(
        &mut self,
        q: usize,
        lo: usize,
        exchange: bool,
        x1: usize,
        x2: usize,
        u1: Rect,
        u2: Rect,
        horiz: bool,
    )
        requires
            old(self).wf(),
            node_live(old(self).tree.nodes@, q as int),
            old(self).tree.nodes@[q as int].payload matches Container::Container { layout, .. }
                && (layout is Horizontal || layout is Vertical) && (horiz <==> layout
                is Horizontal),
            lo as int + 1 < old(self).tree.nodes@[q as int].children@.len(),
            !exchange ==> old(self).tree.nodes@[q as int].children@[lo as int] == x1 && old(
                self,
            ).tree.nodes@[q as int].children@[lo as int + 1] == x2,
            exchange ==> old(self).tree.nodes@[q as int].children@[lo as int] == x2 && old(
                self,
            ).tree.nodes@[q as int].children@[lo as int + 1] == x1,
            old(self).tree.nodes@[x1 as int].payload is View,
            old(self).tree.nodes@[x2 as int].payload is View,
            axis_lo(u1, horiz) == axis_lo(
                rect_of(old(self).tree.nodes@, old(self).tree.nodes@[q as int].children@[lo
                    as int] as int),
                horiz,
            ),
            axis_lo(u2, horiz) == axis_lo(u1, horiz) + axis_ext(u1, horiz),
            axis_lo(u2, horiz) + axis_ext(u2, horiz) == axis_lo(
                rect_of(old(self).tree.nodes@, old(self).tree.nodes@[q as int].children@[lo as int
                    + 1] as int),
                horiz,
            ) + axis_ext(
                rect_of(old(self).tree.nodes@, old(self).tree.nodes@[q as int].children@[lo as int
                    + 1] as int),
                horiz,
            ),
            cross_lo(u1, horiz) == cross_lo(rect_of(old(self).tree.nodes@, q as int), horiz),
            cross_ext(u1, horiz) == cross_ext(rect_of(old(self).tree.nodes@, q as int), horiz),
            cross_lo(u2, horiz) == cross_lo(rect_of(old(self).tree.nodes@, q as int), horiz),
            cross_ext(u2, horiz) == cross_ext(rect_of(old(self).tree.nodes@, q as int), horiz),
            axis_ext(u1, horiz) >= MIN_SIZE,
            axis_ext(u2, horiz) >= MIN_SIZE,
        ensures
            final(self).wf(),
            final(self).next_id == old(self).next_id,
            final(self).active_container == old(self).active_container,
            final(self).tree.nodes@.len() == old(self).tree.nodes@.len(),
            final(self).tree.nodes@[x1 as int].payload == old(self).tree.nodes@[x1
                as int].payload.with_rect_spec(u1),
            final(self).tree.nodes@[x2 as int].payload == old(self).tree.nodes@[x2
                as int].payload.with_rect_spec(u2),
            final(self).tree.nodes@[q as int].children@ == old(self).tree.nodes@[q
                as int].children@.update(lo as int, x1).update(lo as int + 1, x2),
            final(self).tree.nodes@[q as int].parent == old(self).tree.nodes@[q as int].parent,
            final(self).tree.nodes@[q as int].payload == old(self).tree.nodes@[q as int].payload,
            final(self).tree.nodes@[x1 as int].parent == old(self).tree.nodes@[x1 as int].parent,
            final(self).tree.nodes@[x2 as int].parent == old(self).tree.nodes@[x2 as int].parent,
            final(self).tree.nodes@[x1 as int].children@ == old(self).tree.nodes@[x1
                as int].children@,
            final(self).tree.nodes@[x2 as int].children@ == old(self).tree.nodes@[x2
                as int].children@,
            final(self).tree.nodes@[x1 as int].live && final(self).tree.nodes@[x2 as int].live,
            final(self).tree.nodes@[q as int].live,
            forall|i: int|
                0 <= i < old(self).tree.nodes@.len() && i != x1 as int && i != x2 as int && i != q
                    as int ==> final(self).tree.nodes@[i] == old(self).tree.nodes@[i],
            !exchange ==> final(self).tree.nodes@[q as int] == old(self).tree.nodes@[q as int],
    {
        let ghost s0 = self.tree.nodes@;
        let ghost d0 = self.tree.depths@;
        let ghost nid0 = self.next_id;
        let nlen = self.tree.nodes.len();
        proof {
            assert(s0.len() == nlen as int);
            assert(entry_ok(s0, d0, q as int));
            assert(node_live(s0, x1 as int));
            assert(node_live(s0, x2 as int));
            assert(x1 != x2);
            assert(s0[x1 as int].parent == Option::Some(q));
            assert(s0[x2 as int].parent == Option::Some(q));
            assert(x1 as int != q as int && x2 as int != q as int) by {
                assert(entry_ok(s0, d0, x1 as int));
                assert(entry_ok(s0, d0, x2 as int));
                if x1 as int == q as int || x2 as int == q as int {
                    assert(parent_of(s0, q as int) == q as int);
                }
            }
        }
        let cl = self.tree.nodes[q].children.len();
        proof {
            assert(cl as int == s0[q as int].children@.len());
        }
        if exchange {
            let res0 = self.tree.swap_children_at(q, lo, lo + 1);
            proof {
                assert(res0 is Ok);
            }
        }
        let np1 = self.tree.nodes[x1].payload.with_rect(u1);
        let res1 = self.tree.set_payload(x1, np1);
        proof {
            assert(res1 is Ok);
        }
        let np2 = self.tree.nodes[x2].payload.with_rect(u2);
        let res2 = self.tree.set_payload(x2, np2);
        proof {
            assert(res2 is Ok);
        }
        proof {
            let s2 = self.tree.nodes@;
            let c0 = s0[q as int].children@;
            let p = lo as int;
            assert(s2[x1 as int].payload == s0[x1 as int].payload.with_rect_spec(u1));
            assert(s2[x2 as int].payload == s0[x2 as int].payload.with_rect_spec(u2));
            assert forall|i: int|
                0 <= i < s0.len() && i != x1 as int && i != x2 as int && i != q as int implies s2[
            i] == s0[i] by {}
            assert(s2[q as int].children@ =~= c0.update(p, x1).update(p + 1, x2));
            assert(s0[x1 as int].payload.with_rect_spec(u1) is View);
            assert(s0[x2 as int].payload.with_rect_spec(u2) is View);
            lemma_pair_layout(s0, d0, s2, q, p, x1, x2, u1, u2, horiz);
            assert forall|i: int|
                0 <= i < s0.len() implies s2[i].live == s0[i].live && (
            #[trigger] s2[i].payload.numeric_id_spec()) == s0[i].payload.numeric_id_spec() by {
                if i == x1 as int {
                    assert(s2[i].payload == s0[i].payload.with_rect_spec(u1));
                } else if i == x2 as int {
                    assert(s2[i].payload == s0[i].payload.with_rect_spec(u2));
                }
            }
            lemma_ids_extend(s0, s2, nid0, nid0);
        }
    }

    /// Remove a view from the tree, handing back its payload. A split
    /// container emptied by the removal is dissolved with it; a removed
    /// view's siblings absorb the freed slot: the neighbour before it grows
    /// rightwards (for the first slot, the neighbour after it grows
    /// leftwards). A dangling active reference is cleared.
    #[verifier::rlimit(100)]
    pub fn remove_view(&mut self, view: usize) -> (r: Result<Container, TreeError>)
        requires
            old(self).wf(),
        ensures
            final(self).wf(),
            r is Err ==> *final(self) == *old(self),
            r == Result::<Container, TreeError>::Err(TreeError::NodeNotFound) <==> !node_live(
                old(self).tree.nodes@,
                view as int,
            ),
            r == Result::<Container, TreeError>::Err(TreeError::WrongContainerType) <==> node_live(
                old(self).tree.nodes@,
                view as int,
            ) && !(old(self).tree.nodes@[view as int].payload is View),
            r is Ok <==> node_live(old(self).tree.nodes@, view as int) && old(
                self,
            ).tree.nodes@[view as int].payload is View,
            r matches Ok(c) ==> ({
                let s0 = old(self).tree.nodes@;
                let s2 = final(self).tree.nodes@;
                let q = parent_of(s0, view as int);
                let c0q = s0[q].children@;
                &&& c == s0[view as int].payload
                &&& s2.len() == s0.len()
                &&& !s2[view as int].live
                &&& final(self).next_id == old(self).next_id
                &&& forall|pos: int|
                    0 <= pos < c0q.len() && c0q[pos] == view ==> ({
                        if s0[q].payload is Workspace {
                            &&& s2[q].children@ == c0q.remove(pos)
                            &&& s2[q].payload == s0[q].payload
                            &&& s2[q].parent == s0[q].parent
                            &&& s2[q].live
                            &&& forall|i: int|
                                0 <= i < s0.len() && i != view as int && i != q ==> s2[i] == s0[i]
                            &&& final(self).active_container == (if old(self).active_container
                                == Option::Some(view) {
                                Option::<usize>::None
                            } else {
                                old(self).active_container
                            })
                        } else if c0q.len() == 1 {
                            let h = parent_of(s0, q);
                            &&& !s2[q].live
                            &&& s2[h].payload == s0[h].payload
                            &&& s2[h].parent == s0[h].parent
                            &&& s2[h].live
                            &&& forall|posq: int|
                                0 <= posq < s0[h].children@.len() && s0[h].children@[posq] == q
                                    as usize ==> s2[h].children@ == s0[h].children@.remove(posq)
                            &&& forall|i: int|
                                0 <= i < s0.len() && i != view as int && i != q && i != h ==> s2[i]
                                    == s0[i]
                            &&& final(self).active_container == (if old(self).active_container
                                == Option::Some(view) || old(self).active_container
                                == Option::Some(q as usize) {
                                Option::<usize>::None
                            } else {
                                old(self).active_container
                            })
                        } else {
                            let nb = if pos > 0 {
                                c0q[pos - 1]
                            } else {
                                c0q[1]
                            };
                            let rv = rect_of(s0, view as int);
                            let rnb = rect_of(s0, nb as int);
                            let merged = match s0[q].payload {
                                Container::Container { layout: Layout::Horizontal, .. } => if pos
                                    > 0 {
                                    set_axis_spec(
                                        rnb,
                                        true,
                                        rnb.lo_spec(true),
                                        (rnb.ext_spec(true) + rv.ext_spec(true)) as u32,
                                    )
                                } else {
                                    set_axis_spec(
                                        rnb,
                                        true,
                                        rv.lo_spec(true),
                                        (rv.ext_spec(true) + rnb.ext_spec(true)) as u32,
                                    )
                                },
                                Container::Container { layout: Layout::Vertical, .. } => if pos
                                    > 0 {
                                    set_axis_spec(
                                        rnb,
                                        false,
                                        rnb.lo_spec(false),
                                        (rnb.ext_spec(false) + rv.ext_spec(false)) as u32,
                                    )
                                } else {
                                    set_axis_spec(
                                        rnb,
                                        false,
                                        rv.lo_spec(false),
                                        (rv.ext_spec(false) + rnb.ext_spec(false)) as u32,
                                    )
                                },
                                _ => rnb,
                            };
                            &&& s2[q].children@ == c0q.remove(pos)
                            &&& s2[q].payload == s0[q].payload
                            &&& s2[q].parent == s0[q].parent
                            &&& s2[q].live
                            &&& s2[nb as int].payload == s0[nb as int].payload.with_rect_spec(
                                merged,
                            )
                            &&& s2[nb as int].parent == s0[nb as int].parent
                            &&& s2[nb as int].children@ == s0[nb as int].children@
                            &&& s2[nb as int].live
                            &&& forall|i: int|
                                0 <= i < s0.len() && i != view as int && i != q && i != nb as int
                                    ==> s2[i] == s0[i]
                            &&& final(self).active_container == (if old(self).active_container
                                == Option::Some(view) {
                                Option::<usize>::None
                            } else {
                                old(self).active_container
                            })
                        }
                    })
            }),
    {
        let ghost s0 = self.tree.nodes@;
        let ghost d0 = self.tree.depths@;
        let nlen = self.tree.nodes.len();
        proof {
            assert(s0.len() == nlen as int);
        }
        if !self.tree.is_live(view) {
            return Err(TreeError::NodeNotFound);
        }
        let is_view = match &self.tree.nodes[view].payload {
            Container::View { .. } => true,
            _ => false,
        };
        if !is_view {
            return Err(TreeError::WrongContainerType);
        }
        proof {
            assert(entry_ok(s0, d0, 0));
            assert(view != 0);
            assert(entry_ok(s0, d0, view as int));
            assert(layout_at(s0, view as int));
        }
        let rect_v = match self.tree.nodes[view].payload.rect() {
            Some(rct) => rct,
            None => {
                proof {
                    assert(false);
                }
                return Err(TreeError::NodeNotFound);
            },
        };
        let q = match self.tree.nodes[view].parent {
            Some(q) => q,
            None => {
                proof {
                    assert(false);
                }
                return Err(TreeError::NodeNotFound);
            },
        };
        proof {
            assert(node_live(s0, q as int));
            assert(entry_ok(s0, d0, q as int));
            assert(layout_at(s0, q as int));
            // a view is a leaf: any child of it would break the nesting rules
            assert(s0[view as int].children@.len() == 0) by {
                if s0[view as int].children@.len() > 0 {
                    let c = s0[view as int].children@[0];
                    assert(node_live(s0, c as int));
                    assert(s0[c as int].parent == Option::Some(view));
                    assert(entry_ok(s0, d0, c as int));
                    assert(layout_at(s0, c as int));
                }
            }
        }
        let q_is_ws = match &self.tree.nodes[q].payload {
            Container::Workspace { .. } => true,
            _ => false,
        };
        let pos = self.tree.find_child(q, view);
        let ghost c0q = s0[q as int].children@;
        let clen = self.tree.nodes[q].children.len();
        proof {
            assert forall|p2: int| 0 <= p2 < c0q.len() && c0q[p2] == view implies p2 == pos
                as int by {}
            assert(q as int != view as int);
        }
        let res = self.tree.remove_node(view);
        let out = match res {
            Ok(c) => c,
            Err(_) => {
                proof {
                    assert(false);
                }
                return Err(TreeError::NodeNotFound);
            },
        };
        let ghost sb = self.tree.nodes@;
        let ghost db = self.tree.depths@;
        proof {
            assert(sb[q as int].children@ == c0q.remove(pos as int));
        }
        if q_is_ws {
            match self.active_container {
                Some(act) => {
                    if act == view {
                        self.active_container = None;
                    }
                },
                None => {},
            }
            proof {
                let s2 = self.tree.nodes@;
                let holder = q as int;
                let changed = Set::empty().insert(view as int);
                assert(s0[holder].payload is Workspace);
                assert forall|i2: int| 0 <= i2 < s2.len() implies #[trigger] layout_at(s2, i2) by {
                    assert(layout_at(s0, i2));
                    assert(entry_ok(s0, d0, i2));
                    if s2[i2].live {
                        assert(i2 != view as int);
                        
                        if i2 == holder {
                            if holder != 0 {
                                assert(entry_ok(s0, d0, parent_of(s0, holder)));
                                assert(s2[parent_of(s0, holder)].payload == s0[parent_of(
                                    s0,
                                    holder,
                                )].payload);
                            }
                            assert(nest_at(s2, i2));
                            assert(geom_at(s2, i2));
                        } else {
                            if i2 != 0 {
                                let qq = parent_of(s0, i2);
                                assert(entry_ok(s0, d0, qq));
                                assert((i2 as usize) as int == i2);
                                assert(qq != view as int) by {
                                    if qq == view as int {
                                        assert(s0[view as int].children@.contains(i2 as usize));
                                    }
                                }
                                
                                assert(s2[qq].payload == s0[qq].payload);
                            }
                            assert forall|m: int|
                                0 <= m < s0[i2].children@.len() implies !(changed.contains(
                                (#[trigger] s0[i2].children@[m]) as int)) by {
                                let x = s0[i2].children@[m];
                                assert(node_live(s0, x as int));
                                assert(s0[x as int].parent == Option::Some(i2 as usize));
                                assert((i2 as usize) as int == i2);
                                assert(x != view);
                                
                            }
                            assert(s2[i2].children@ == s0[i2].children@);
                            lemma_layout_others(s0, d0, s2, i2, changed);
                        }
                    }
                }
                assert(ids_ok(s2, self.next_id)) by {
                    assert forall|i: int|
                        0 <= i < s0.len() && node_live(s2, i) implies s2[
                    i].payload.numeric_id_spec() == s0[i].payload.numeric_id_spec() && node_live(
                        s0,
                        i,
                    ) by {}
                    assert forall|i: int, j: int|
                        #![trigger s2[i].payload.numeric_id_spec(), s2[j].payload.numeric_id_spec()]
                        node_live(s2, i) && node_live(s2, j) && i != j && s2[
                    i].payload.numeric_id_spec() is Some implies s2[i].payload.numeric_id_spec()
                        != s2[j].payload.numeric_id_spec() by {
                        assert(node_live(s0, i) && node_live(s0, j));
                    }
                }
            }
            return Ok(out);
        }
        if clen == 1 {
            proof {
                assert(s0[q as int].payload is Container);
                assert(sb[q as int].children@ =~= Seq::<usize>::empty());
                assert(q != 0);
            }
            let res2 = self.tree.remove_node(q);
            proof {
                assert(res2 is Ok);
            }
            match self.active_container {
                Some(act) => {
                    if act == view || act == q {
                        self.active_container = None;
                    }
                },
                None => {},
            }
            proof {
                let s2 = self.tree.nodes@;
                let holder = parent_of(s0, q as int);
                let changed = Set::empty().insert(view as int).insert(q as int);
                assert(s0[holder].payload is Workspace);
                assert forall|i2: int| 0 <= i2 < s2.len() implies #[trigger] layout_at(s2, i2) by {
                    assert(layout_at(s0, i2));
                    assert(entry_ok(s0, d0, i2));
                    if s2[i2].live {
                        assert(i2 != view as int);
                        assert(i2 != q as int);
                        if i2 == holder {
                            if holder != 0 {
                                assert(entry_ok(s0, d0, parent_of(s0, holder)));
                                assert(s2[parent_of(s0, holder)].payload == s0[parent_of(
                                    s0,
                                    holder,
                                )].payload);
                            }
                            assert(nest_at(s2, i2));
                            assert(geom_at(s2, i2));
                        } else {
                            if i2 != 0 {
                                let qq = parent_of(s0, i2);
                                assert(entry_ok(s0, d0, qq));
                                assert((i2 as usize) as int == i2);
                                assert(qq != view as int) by {
                                    if qq == view as int {
                                        assert(s0[view as int].children@.contains(i2 as usize));
                                    }
                                }
                                assert(qq != q as int) by {
                                    if qq == q as int {
                                        assert(s0[q as int].children@.contains(i2 as usize));
                                        assert(s0[q as int].children@[0] == view);
                                        assert(s0[q as int].children@.len() == 1);
                                    }
                                }
                                assert(s2[qq].payload == s0[qq].payload);
                            }
                            assert forall|m: int|
                                0 <= m < s0[i2].children@.len() implies !(changed.contains(
                                (#[trigger] s0[i2].children@[m]) as int)) by {
                                let x = s0[i2].children@[m];
                                assert(node_live(s0, x as int));
                                assert(s0[x as int].parent == Option::Some(i2 as usize));
                                assert((i2 as usize) as int == i2);
                                assert(x != view);
                                assert(x as int != q as int) by {
                                    if x as int == q as int {
                                        assert(s0[q as int].parent == Option::Some(
                                            i2 as usize,
                                        ));
                                        assert(entry_ok(s0, d0, q as int));
                                        assert(i2 != parent_of(s0, q as int)
                                            || i2 == parent_of(s0, q as int));
                                        assert(i2 != holder);
                                    }
                                }
                            }
                            assert(s2[i2].children@ == s0[i2].children@);
                            lemma_layout_others(s0, d0, s2, i2, changed);
                        }
                    }
                }
                assert(ids_ok(s2, self.next_id)) by {
                    assert forall|i: int|
                        0 <= i < s0.len() && node_live(s2, i) implies s2[
                    i].payload.numeric_id_spec() == s0[i].payload.numeric_id_spec() && node_live(
                        s0,
                        i,
                    ) by {}
                    assert forall|i: int, j: int|
                        #![trigger s2[i].payload.numeric_id_spec(), s2[j].payload.numeric_id_spec()]
                        node_live(s2, i) && node_live(s2, j) && i != j && s2[
                    i].payload.numeric_id_spec() is Some implies s2[i].payload.numeric_id_spec()
                        != s2[j].payload.numeric_id_spec() by {
                        assert(node_live(s0, i) && node_live(s0, j));
                    }
                }
            }
            return Ok(out);
        }
        // siblings remain: the neighbour absorbs the freed slot
        let layout = match &self.tree.nodes[q].payload {
            Container::Container { layout, .. } => *layout,
            _ => {
                proof {
                    assert(false);
                }
                return Err(TreeError::NodeNotFound);
            },
        };
        let split = match layout {
            Layout::Horizontal | Layout::Vertical => true,
            _ => false,
        };
        let horiz = match layout {
            Layout::Vertical => false,
            _ => true,
        };
        let nb = if pos > 0 {
            self.tree.nodes[q].children[pos - 1]
        } else {
            self.tree.nodes[q].children[0]
        };
        proof {
            let nbp = if pos > 0 {
                pos as int - 1
            } else {
                1
            };
            assert(nb == c0q[nbp]);
            assert(node_live(s0, nb as int));
            assert(entry_ok(s0, d0, nb as int));
            assert(layout_at(s0, nb as int));
            assert(s0[nb as int].payload is View);
            assert(nb != view);
            assert(nb as int != q as int) by {
                if nb as int == q as int {
                    assert(parent_of(s0, q as int) == q as int);
                }
            }
            if split {
                if pos > 0 {
                    assert(axis_lo(rect_of(s0, c0q[pos as int] as int), horiz) == axis_lo(
                        rect_of(s0, c0q[pos as int - 1] as int),
                        horiz,
                    ) + axis_ext(rect_of(s0, c0q[pos as int - 1] as int), horiz));
                } else {
                    assert(axis_lo(rect_of(s0, c0q[1] as int), horiz) == axis_lo(
                        rect_of(s0, c0q[0] as int),
                        horiz,
                    ) + axis_ext(rect_of(s0, c0q[0] as int), horiz));
                }
                assert(rect_of(s0, q as int).sizeable());
            }
        }
        let merged = if split {
            let rnb = match self.tree.nodes[nb].payload.rect() {
                Some(rct) => rct,
                None => {
                    proof {
                        assert(false);
                    }
                    return Err(TreeError::NodeNotFound);
                },
            };
            if pos > 0 {
                rnb.set_axis(horiz, rnb.lo(horiz), rnb.ext(horiz) + rect_v.ext(horiz))
            } else {
                rnb.set_axis(horiz, rect_v.lo(horiz), rect_v.ext(horiz) + rnb.ext(horiz))
            }
        } else {
            match self.tree.nodes[nb].payload.rect() {
                Some(rct) => rct,
                None => {
                    proof {
                        assert(false);
                    }
                    return Err(TreeError::NodeNotFound);
                },
            }
        };
        let npn = self.tree.nodes[nb].payload.with_rect(merged);
        let res3 = self.tree.set_payload(nb, npn);
        proof {
            assert(res3 is Ok);
        }
        match self.active_container {
            Some(act) => {
                if act == view {
                    self.active_container = None;
                }
            },
            None => {},
        }
        proof {
            let s2 = self.tree.nodes@;
            let changed = Set::empty().insert(view as int).insert(nb as int);
            assert(s2[q as int].children@ == c0q.remove(pos as int));
            assert(s2[nb as int].payload == s0[nb as int].payload.with_rect_spec(merged));
            assert(rect_of(s2, nb as int) == merged);
            assert(s2[nb as int].payload is View);
            assert forall|i: int|
                0 <= i < s0.len() && i != view as int && i != q as int && i != nb as int
                    implies s2[i] == s0[i] by {}
            assert forall|i2: int| 0 <= i2 < s2.len() implies #[trigger] layout_at(s2, i2) by {
                assert(layout_at(s0, i2));
                assert(entry_ok(s0, d0, i2));
                if s2[i2].live {
                    assert(i2 != view as int);
                    if i2 == q as int {
                        if q != 0 {
                            assert(entry_ok(s0, d0, parent_of(s0, q as int)));
                            assert(s2[parent_of(s0, q as int)].payload == s0[parent_of(
                                s0,
                                q as int,
                            )].payload);
                        }
                        assert(nest_at(s2, i2));
                        assert forall|m: int|
                            0 <= m < c0q.len() && m != pos as int && c0q[m] != nb implies ((
                        #[trigger] c0q[m] as int) < s2.len() && rect_of(s2, c0q[m] as int)
                            == rect_of(s0, c0q[m] as int) && has_rect(s2, c0q[m] as int)
                            == has_rect(s0, c0q[m] as int)) by {
                            assert(node_live(s0, c0q[m] as int));
                            assert(c0q[m] != view);
                            assert(c0q[m] as int != q as int) by {
                                if c0q[m] as int == q as int {
                                    assert(parent_of(s0, q as int) == q as int);
                                }
                            }
                            assert(s2[c0q[m] as int] == s0[c0q[m] as int]);
                        }
                        if split {
                            lemma_tiles_absorb(s0, s2, q as int, pos as int, nb, merged, horiz);
                            assert(geom_at(s2, i2));
                        } else {
                            // tabbed or stacked: every surviving slot still
                            // covers the whole container
                            assert(rect_of(s0, nb as int) == rect_of(s0, q as int));
                            assert forall|m: int|
                                0 <= m < s2[i2].children@.len() implies has_rect(
                                s2,
                                #[trigger] s2[i2].children@[m] as int,
                            ) && rect_of(s2, s2[i2].children@[m] as int) == rect_of(
                                s0,
                                q as int,
                            ) by {
                                let o = if m < pos as int {
                                    m
                                } else {
                                    m + 1
                                };
                                assert(s2[i2].children@[m] == c0q[o]);
                                if c0q[o] == nb {
                                    assert(rect_of(s2, nb as int) == merged);
                                } else {
                                    assert(node_live(s0, c0q[o] as int));
                                    assert(c0q[o] != view);
                                    assert(c0q[o] as int != q as int) by {
                                        if c0q[o] as int == q as int {
                                            assert(parent_of(s0, q as int) == q as int);
                                        }
                                    }
                                    assert(s2[c0q[o] as int] == s0[c0q[o] as int]);
                                }
                            }
                            assert(geom_at(s2, i2));
                        }
                    } else if i2 == nb as int {
                        assert(s2[q as int].payload == s0[q as int].payload);
                        assert(nest_at(s2, i2));
                        assert(geom_at(s2, i2)) by {
                            assert(rect_of(s0, q as int).sizeable());
                            assert(geom_at(s0, nb as int));
                            assert(geom_at(s0, view as int));
                            if split {
                                assert(axis_lo(rect_of(s0, nb as int), horiz) >= axis_lo(
                                    rect_of(s0, q as int),
                                    horiz,
                                ));
                                assert(axis_lo(rect_of(s0, view as int), horiz) >= axis_lo(
                                    rect_of(s0, q as int),
                                    horiz,
                                ));
                                assert(axis_lo(rect_of(s0, nb as int), horiz) + axis_ext(
                                    rect_of(s0, nb as int),
                                    horiz,
                                ) <= axis_lo(rect_of(s0, q as int), horiz) + axis_ext(
                                    rect_of(s0, q as int),
                                    horiz,
                                ));
                                assert(axis_lo(rect_of(s0, view as int), horiz) + axis_ext(
                                    rect_of(s0, view as int),
                                    horiz,
                                ) <= axis_lo(rect_of(s0, q as int), horiz) + axis_ext(
                                    rect_of(s0, q as int),
                                    horiz,
                                ));
                            }
                        }
                    } else {
                        if i2 != 0 {
                            let qq = parent_of(s0, i2);
                            assert(entry_ok(s0, d0, qq));
                            assert((i2 as usize) as int == i2);
                            assert(qq != view as int) by {
                                if qq == view as int {
                                    assert(s0[view as int].children@.contains(i2 as usize));
                                }
                            }
                            assert(qq != nb as int) by {
                                if qq == nb as int {
                                    assert(layout_at(s0, i2));
                                }
                            }
                            assert(s2[qq].payload == s0[qq].payload);
                        }
                        assert forall|m: int|
                            0 <= m < s0[i2].children@.len() implies !(changed.contains(
                            (#[trigger] s0[i2].children@[m]) as int)) by {
                            let x = s0[i2].children@[m];
                            assert(node_live(s0, x as int));
                            assert(s0[x as int].parent == Option::Some(i2 as usize));
                            assert((i2 as usize) as int == i2);
                            assert(x != view);
                            assert(x != nb);
                        }
                        assert(s2[i2].children@ == s0[i2].children@);
                        lemma_layout_others(s0, d0, s2, i2, changed);
                    }
                }
            }
            assert(ids_ok(s2, self.next_id)) by {
                assert forall|i: int|
                    0 <= i < s0.len() && node_live(s2, i) implies s2[i].payload.numeric_id_spec()
                    == s0[i].payload.numeric_id_spec() && node_live(s0, i) by {
                    if i == nb as int {
                        assert(s2[i].payload == s0[i].payload.with_rect_spec(merged));
                    }
                }
                assert forall|i: int, j: int|
                    #![trigger s2[i].payload.numeric_id_spec(), s2[j].payload.numeric_id_spec()]
                    node_live(s2, i) && node_live(s2, j) && i != j && s2[
                i].payload.numeric_id_spec() is Some implies s2[i].payload.numeric_id_spec() != s2[
                j].payload.numeric_id_spec() by {
                    assert(node_live(s0, i) && node_live(s0, j));
                }
            }
        }
        Ok(out)
    }

    /// Add a view beside `target` inside the split container `q`, splitting
    /// the target's slot along the container's axis.
    #[verifier::rlimit(100)]
    fn add_view_in_split(&mut self, target: usize, q: usize, rv: Rect, handle: Handle) -> (r:
        Result<usize, TreeError>)
        requires
            old(self).wf(),
            node_live(old(self).tree.nodes@, target as int),
            target != 0,
            old(self).tree.nodes@[target as int].payload matches Container::View { rect, .. }
                && rect == rv,
            parent_of(old(self).tree.nodes@, target as int) == q as int,
            node_live(old(self).tree.nodes@, q as int),
            old(self).tree.nodes@[q as int].payload is Container,
        ensures
            final(self).wf(),
            r is Err ==> *final(self) == *old(self),
            r is Ok <==> add_view_ok(old(self).tree.nodes@, target as int, old(self).next_id),
            r matches Ok(n) ==> ({
                let s0 = old(self).tree.nodes@;
                let s2 = final(self).tree.nodes@;
                let nid0 = old(self).next_id;
                &&& final(self).active_container == Option::Some(n)
                &&& node_live(s2, n as int)
                &&& match s0[q as int].payload {
                    Container::Container { layout, .. } => {
                        let split = layout is Horizontal || layout is Vertical;
                        let horiz = !(layout is Vertical);
                        let e1 = axis_ext(rv, horiz) / 2;
                        let r1 = if split {
                            set_axis_spec(rv, horiz, rv.lo_spec(horiz), e1 as u32)
                        } else {
                            rv
                        };
                        let r2 = if split {
                            set_axis_spec(
                                rv,
                                horiz,
                                (rv.lo_spec(horiz) + e1) as u32,
                                (axis_ext(rv, horiz) - e1) as u32,
                            )
                        } else {
                            rv
                        };
                        &&& n as int == s0.len()
                        &&& s2.len() == s0.len() + 1
                        &&& s2[n as int].payload == (Container::View {
                            handle,
                            id: nid0,
                            rect: r2,
                        })
                        &&& s2[n as int].parent == Option::Some(q)
                        &&& s2[target as int].payload == s0[target as int].payload.with_rect_spec(
                            r1,
                        )
                        &&& forall|pos: int|
                            0 <= pos < s0[q as int].children@.len() && s0[q as int].children@[pos]
                                == target ==> s2[q as int].children@ == s0[q
                                as int].children@.insert(pos + 1, n)
                        &&& forall|i: int|
                            0 <= i < s0.len() && i != target as int && i != q as int ==> s2[i]
                                == s0[i]
                        &&& final(self).next_id == nid0 + 1
                    },
                    _ => false,
                }
            }),
    {
        let ghost s0 = self.tree.nodes@;
        let ghost d0 = self.tree.depths@;
        let ghost nid0 = self.next_id;
        let layout = match &self.tree.nodes[q].payload {
            Container::Container { layout, .. } => *layout,
            _ => {
                proof {
                    assert(false);
                }
                return Err(TreeError::WrongContainerType);
            },
        };
        if self.next_id == u64::MAX {
            return Err(TreeError::IdsExhausted);
        }
        let split = match layout {
            Layout::Horizontal | Layout::Vertical => true,
            _ => false,
        };
        let horiz = match layout {
            Layout::Vertical => false,
            _ => true,
        };
        proof {
            assert(layout_at(s0, target as int));
            assert(layout_at(s0, q as int));
            assert(entry_ok(s0, d0, target as int));
            assert(entry_ok(s0, d0, q as int));
        }
        if split && rv.ext(horiz) < 2 * MIN_SIZE {
            return Err(TreeError::TooSmall);
        }
        let pos = self.tree.find_child(q, target);
        let ghost c0 = s0[q as int].children@;
        let (r1, r2) = if split {
            let e = rv.ext(horiz);
            let e1 = e / 2;
            let e2 = e - e1;
            (rv.set_axis(horiz, rv.lo(horiz), e1), rv.set_axis(horiz, rv.lo(horiz) + e1, e2))
        } else {
            (rv, rv)
        };
        if split {
            let np = self.tree.nodes[target].payload.with_rect(r1);
            let res0 = self.tree.set_payload(target, np);
            proof {
                assert(res0 is Ok);
            }
        } else {
            proof {
                assert(s0[target as int].payload.with_rect_spec(r1) == s0[target as int].payload);
            }
        }
        let ghost sa = self.tree.nodes@;
        let vid = self.next_id;
        let res = self.tree.add_node(q, Container::View { handle, id: vid, rect: r2 });
        let n = match res {
            Ok(n) => n,
            Err(_) => {
                proof {
                    assert(false);
                }
                return Err(TreeError::NodeNotFound);
            },
        };
        let ghost sb = self.tree.nodes@;
        let ghost db = self.tree.depths@;
        proof {
            assert(sa[q as int].children@ == c0);
            assert(sb[q as int].children@ == c0.push(n));
            assert(node_live(sb, q as int) && node_live(sb, n as int));
            if in_subtree(sb, q as int, n as int) {
                assert(entry_ok(sb, db, n as int));
                lemma_subtree_depth_strict(sb, db, q as int, n as int);
                assert(entry_ok(sb, db, q as int));
                assert(false);
            }
            assert forall|k: int| 0 <= k < sb[q as int].children@.len() && sb[q
                as int].children@[k] == n implies k == c0.len() by {
                if k < c0.len() {
                    assert(node_live(s0, c0[k] as int));
                }
            }
            assert(c0.push(n as usize).remove(c0.len() as int) =~= c0);
        }
        let qlen = self.tree.nodes[q].children.len();
        proof {
            assert(qlen as int == c0.len() + 1);
            assert(pos < qlen);
        }
        let res2 = self.tree.move_node(n, q, pos + 1);
        proof {
            assert(res2 is Ok);
            assert(sb[q as int].children@[c0.len() as int] == n);
        }
        self.next_id = vid + 1;
        self.active_container = Some(n);
        proof {
            let s2 = self.tree.nodes@;
            assert(s2[q as int].children@ == c0.insert(pos + 1, n as usize));
            assert(s2[target as int].payload == s0[target as int].payload.with_rect_spec(r1));
            assert(s2[n as int].payload == (Container::View { handle, id: vid, rect: r2 }));
            assert(s2[n as int].parent == Option::Some(q));
            assert forall|i: int|
                0 <= i < s0.len() && i != target as int && i != q as int implies s2[i] == s0[
                i] by {}
            // every node satisfies the layout conditions again
            assert(entry_ok(s0, d0, target as int));
            assert(entry_ok(s0, d0, q as int));
            lemma_split_layout(
                s0,
                d0,
                s2,
                target,
                q,
                n,
                pos,
                rv,
                r1,
                r2,
                split,
                horiz,
                c0,
                handle,
                vid,
            );
            assert(ids_ok(s2, self.next_id)) by {
                assert forall|i: int|
                    node_live(s2, i) implies ((#[trigger] s2[i].payload.numeric_id_spec())
                    matches Some(id) ==> id < self.next_id) by {
                    if i < s0.len() && i != target as int {
                        assert(node_live(s0, i));
                    } else if i == target as int {
                        assert(s2[i].payload.numeric_id_spec() == s0[i].payload.numeric_id_spec());
                        assert(node_live(s0, i));
                    }
                }
                assert forall|i: int, j: int|
                    #![trigger s2[i].payload.numeric_id_spec(), s2[j].payload.numeric_id_spec()]
                    node_live(s2, i) && node_live(s2, j) && i != j && s2[
                i].payload.numeric_id_spec() is Some implies s2[i].payload.numeric_id_spec() != s2[
                j].payload.numeric_id_spec() by {
                    if i < s0.len() && j < s0.len() {
                        assert(node_live(s0, i) && node_live(s0, j));
                        assert(s2[i].payload.numeric_id_spec() == s0[i].payload.numeric_id_spec());
                        assert(s2[j].payload.numeric_id_spec() == s0[j].payload.numeric_id_spec());
                    } else if i < s0.len() {
                        assert(node_live(s0, i));
                        assert(s2[i].payload.numeric_id_spec() == s0[i].payload.numeric_id_spec());
                    } else if j < s0.len() {
                        assert(node_live(s0, j));
                        assert(s2[j].payload.numeric_id_spec() == s0[j].payload.numeric_id_spec());
                    }
                }
            }
        }
        Ok(n)
    }

    /// Add a view beside `target`, a view sitting directly in workspace `q`:
    /// synthesize a horizontal split container in the target's place and put
    /// both views in it, each taking half of the target's old rectangle.
    #[verifier::rlimit(100)]
    fn add_view_synthesize(&mut self, target: usize, q: usize, rv: Rect, handle: Handle) -> (r:
        Result<usize, TreeError>)
        requires
            old(self).wf(),
            node_live(old(self).tree.nodes@, target as int),
            target != 0,
            old(self).tree.nodes@[target as int].payload matches Container::View { rect, .. }
                && rect == rv,
            parent_of(old(self).tree.nodes@, target as int) == q as int,
            node_live(old(self).tree.nodes@, q as int),
            old(self).tree.nodes@[q as int].payload is Workspace,
        ensures
            final(self).wf(),
            r is Err ==> *final(self) == *old(self),
            r is Ok <==> add_view_ok(old(self).tree.nodes@, target as int, old(self).next_id),
            r matches Ok(n) ==> ({
                let s0 = old(self).tree.nodes@;
                let s2 = final(self).tree.nodes@;
                let nid0 = old(self).next_id;
                let c = s0.len() as int;
                let e1 = rv.w as int / 2;
                let r1 = set_axis_spec(rv, true, rv.x, e1 as u32);
                let r2 = set_axis_spec(rv, true, (rv.x + e1) as u32, (rv.w - e1) as u32);
                &&& final(self).active_container == Option::Some(n)
                &&& node_live(s2, n as int)
                &&& n as int == s0.len() + 1
                &&& s2.len() == s0.len() + 2
                &&& s2[c].payload == (Container::Container {
                    layout: Layout::Horizontal,
                    id: nid0,
                    rect: rv,
                })
                &&& s2[c].parent == Option::Some(q)
                &&& s2[c].children@ == seq![target, n]
                &&& s2[n as int].payload == (Container::View {
                    handle,
                    id: (nid0 + 1) as u64,
                    rect: r2,
                })
                &&& s2[n as int].parent == Option::Some(c as usize)
                &&& s2[target as int].payload == s0[target as int].payload.with_rect_spec(r1)
                &&& s2[target as int].parent == Option::Some(c as usize)
                &&& forall|pos: int|
                    0 <= pos < s0[q as int].children@.len() && s0[q as int].children@[pos]
                        == target ==> s2[q as int].children@ == s0[q as int].children@.push(
                        c as usize,
                    ).remove(pos)
                &&& forall|i: int|
                    0 <= i < s0.len() && i != target as int && i != q as int ==> s2[i] == s0[i]
                &&& final(self).next_id == nid0 + 2
            }),
    {
        let ghost s0 = self.tree.nodes@;
        let ghost d0 = self.tree.depths@;
        let ghost nid0 = self.next_id;
        proof {
            assert(layout_at(s0, target as int));
            assert(layout_at(s0, q as int));
            assert(entry_ok(s0, d0, target as int));
            assert(entry_ok(s0, d0, q as int));
        }
        if self.next_id >= u64::MAX - 1 {
            return Err(TreeError::IdsExhausted);
        }
        if rv.w < 2 * MIN_SIZE {
            return Err(TreeError::TooSmall);
        }
        let pos = self.tree.find_child(q, target);
        let ghost c0q = s0[q as int].children@;
        let cid = self.next_id;
        let res = self.tree.add_node(
            q,
            Container::Container { layout: Layout::Horizontal, id: cid, rect: rv },
        );
        let c = match res {
            Ok(c) => c,
            Err(_) => {
                proof {
                    assert(false);
                }
                return Err(TreeError::NodeNotFound);
            },
        };
        let ghost sb = self.tree.nodes@;
        let ghost db = self.tree.depths@;
        proof {
            assert(node_live(sb, c as int) && node_live(sb, target as int));
            if in_subtree(sb, c as int, target as int) {
                assert(c as int != target as int);
                assert(entry_ok(sb, db, c as int));
                assert(entry_ok(sb, db, target as int));
                assert(parent_of(sb, target as int) == q as int);
                lemma_subtree_depth_strict(sb, db, c as int, target as int);
                assert(false);
            }
            assert forall|k: int| 0 <= k < sb[q as int].children@.len() && sb[q
                as int].children@[k] == target implies k == pos as int by {
                if k < c0q.len() {
                } else {
                    assert(sb[q as int].children@[k] == c as usize);
                    assert(node_live(s0, target as int));
                }
            }
        }
        let res2 = self.tree.move_node(target, c, 0);
        proof {
            assert(res2 is Ok);
            let sc = self.tree.nodes@;
            assert(sb[q as int].children@[pos as int] == target);
            assert(sb[c as int].children@ =~= Seq::<usize>::empty());
            assert(sc[c as int].children@ == sb[c as int].children@.insert(0, target));
            assert(sc[c as int].children@ =~= seq![target]);
            assert(sc[q as int].children@ == c0q.push(c).remove(pos as int));
        }
        let e1 = rv.w / 2;
        let e2 = rv.w - e1;
        let r1 = rv.set_axis(true, rv.x, e1);
        let r2 = rv.set_axis(true, rv.x + e1, e2);
        let vid = cid + 1;
        let res3 = self.tree.add_node(c, Container::View { handle, id: vid, rect: r2 });
        let n = match res3 {
            Ok(n) => n,
            Err(_) => {
                proof {
                    assert(false);
                }
                return Err(TreeError::NodeNotFound);
            },
        };
        proof {
            assert(self.tree.nodes@[c as int].children@ =~= seq![target, n]);
        }
        let np = self.tree.nodes[target].payload.with_rect(r1);
        let res4 = self.tree.set_payload(target, np);
        proof {
            assert(res4 is Ok);
        }
        self.next_id = cid + 2;
        self.active_container = Some(n);
        proof {
            let s2 = self.tree.nodes@;
            assert(s2[c as int].children@ =~= seq![target, n]);
            assert(s2[q as int].children@ == c0q.push(c).remove(pos as int));
            assert(s2[target as int].payload == s0[target as int].payload.with_rect_spec(r1));
            assert forall|i: int|
                0 <= i < s0.len() && i != target as int && i != q as int implies s2[i] == s0[
                i] by {}
            assert forall|i2: int| 0 <= i2 < s2.len() implies #[trigger] layout_at(s2, i2) by {
                if i2 == c as int {
                    assert(parent_of(s2, i2) == q as int);
                    assert(s2[q as int].payload == s0[q as int].payload);
                    assert(nest_at(s2, i2));
                    assert(s2[c as int].children@[0] == target && s2[c as int].children@[1] == n);
                    assert(rect_of(s2, target as int) == r1);
                    assert(rect_of(s2, n as int) == r2);
                    assert(rv.sizeable());
                    assert(tiles(s2, c as int, true));
                    assert(geom_at(s2, i2));
                } else if i2 == target as int {
                    assert(parent_of(s2, i2) == c as int);
                    assert(nest_at(s2, i2));
                    assert(geom_at(s2, i2)) by {
                        assert(rv.sizeable());
                    }
                } else if i2 == n as int {
                    assert(parent_of(s2, i2) == c as int);
                    assert(nest_at(s2, i2));
                    assert(geom_at(s2, i2)) by {
                        assert(rv.sizeable());
                    }
                } else if i2 == q as int {
                    assert(s2[q as int].payload == s0[q as int].payload);
                    if q != 0 {
                        let qq = parent_of(s0, q as int);
                        assert(entry_ok(s0, d0, qq));
                        assert(qq != target as int) by {
                            if qq == target as int {
                                assert(layout_at(s0, q as int));
                            }
                        }
                        assert(s2[qq].payload == s0[qq].payload);
                    }
                    assert(nest_at(s2, i2));
                    assert(geom_at(s2, i2));
                } else {
                    assert(layout_at(s0, i2));
                    assert(entry_ok(s0, d0, i2));
                    if s0[i2].live {
                        if i2 != 0 {
                            assert(entry_ok(s0, d0, parent_of(s0, i2)));
                            assert(parent_of(s0, i2) != target as int) by {
                                if parent_of(s0, i2) == target as int {
                                    assert(layout_at(s0, i2));
                                }
                            }
                        }
                        assert forall|m: int|
                            0 <= m < s0[i2].children@.len() implies !(Set::empty().insert(
                            target as int,
                        ).contains((#[trigger] s0[i2].children@[m]) as int)) by {
                            let x = s0[i2].children@[m];
                            assert(node_live(s0, x as int));
                            assert(s0[x as int].parent == Option::Some(i2 as usize));
                            assert(x != target);
                        }
                        lemma_layout_others(s0, d0, s2, i2, Set::empty().insert(target as int));
                    }
                }
            }
            assert(ids_ok(s2, self.next_id)) by {
                assert forall|i: int|
                    node_live(s2, i) implies ((#[trigger] s2[i].payload.numeric_id_spec())
                    matches Some(id) ==> id < self.next_id) by {
                    if i < s0.len() && i != target as int {
                        assert(node_live(s0, i));
                    } else if i == target as int {
                        assert(s2[i].payload.numeric_id_spec() == s0[i].payload.numeric_id_spec());
                        assert(node_live(s0, i));
                    }
                }
                assert forall|i: int, j: int|
                    #![trigger s2[i].payload.numeric_id_spec(), s2[j].payload.numeric_id_spec()]
                    node_live(s2, i) && node_live(s2, j) && i != j && s2[
                i].payload.numeric_id_spec() is Some implies s2[i].payload.numeric_id_spec() != s2[
                j].payload.numeric_id_spec() by {
                    let idi = if i < s0.len() {
                        if i == target as int {
                            s0[i].payload.numeric_id_spec()
                        } else {
                            s0[i].payload.numeric_id_spec()
                        }
                    } else {
                        s2[i].payload.numeric_id_spec()
                    };
                    if i < s0.len() {
                        assert(node_live(s0, i));
                        assert(s2[i].payload.numeric_id_spec() == s0[i].payload.numeric_id_spec());
                    }
                    if j < s0.len() {
                        assert(node_live(s0, j));
                        assert(s2[j].payload.numeric_id_spec() == s0[j].payload.numeric_id_spec());
                    }
                }
            }
        }
        Ok(n)
    }
}

/// Law of movement round trips: relocating the active view one step and
/// then one step back restores the prior state. Exchanging two slots of a
/// child list twice yields the original list, and the slot starts that
/// `move_active` assigns — the mover takes the pair's combined start, the
/// other follows at the mover's extent — return to the originals when
/// applied again in the opposite sense.
pub proof fn lemma_move_round_trip(c: Seq<usize>, pos: int, t: int, lo_a: int, ext_a: int, ext_s: int)
    requires
        0 <= pos < c.len(),
        0 <= t < c.len(),
    ensures
        ({
            let c1 = c.update(pos, c[t]).update(t, c[pos]);
            c1.update(t, c1[pos]).update(pos, c1[t]) == c
        }),
        ({
            // first move: the sibling takes the slot start lo_a, the active
            // view follows at lo_a + ext_s; moving back re-derives the
            // original starts lo_a and lo_a + ext_a
            let lo_s1 = lo_a;
            let lo_a1 = lo_a + ext_s;
            let lo_a2 = lo_s1;
            let lo_s2 = lo_s1 + ext_a;
            lo_a2 == lo_a && lo_s2 == lo_a + ext_a
        }),
{
    let c1 = c.update(pos, c[t]).update(t, c[pos]);
    assert(c1.update(t, c1[pos]).update(pos, c1[t]) =~= c);
}

/// Removing one slot of a tiled child list and giving its span to the
/// neighbouring slot keeps the list a tiling: the neighbour before the
/// removed slot grows rightwards, or — for the first slot — the neighbour
/// after it grows leftwards.
#[verifier::rlimit(100)]
pub proof fn lemma_tiles_absorb(
    s0: Seq<Node>,
    s2: Seq<Node>,
    q: int,
    pos: int,
    nb: usize,
    merged: Rect,
    horiz: bool,
)
    requires
        0 <= q < s0.len(),
        q < s2.len(),
        tiles(s0, q, horiz),
        0 <= pos < s0[q].children@.len(),
        s0[q].children@.len() >= 2,
        nb == (if pos > 0 {
            s0[q].children@[pos - 1]
        } else {
            s0[q].children@[1]
        }),
        s2[q].children@ == s0[q].children@.remove(pos),
        rect_of(s2, q) == rect_of(s0, q),
        (nb as int) < s2.len(),
        has_rect(s2, nb as int),
        rect_of(s2, nb as int) == merged,
        forall|m: int|
            0 <= m < s0[q].children@.len() && m != pos && s0[q].children@[m] != nb ==> ((
            #[trigger] s0[q].children@[m] as int) < s2.len() && rect_of(
                s2,
                s0[q].children@[m] as int,
            ) == rect_of(s0, s0[q].children@[m] as int) && has_rect(s2, s0[q].children@[m] as int)
                == has_rect(s0, s0[q].children@[m] as int)),
        axis_lo(merged, horiz) == (if pos > 0 {
            axis_lo(rect_of(s0, nb as int), horiz)
        } else {
            axis_lo(rect_of(s0, s0[q].children@[pos] as int), horiz)
        }),
        axis_ext(merged, horiz) == axis_ext(rect_of(s0, nb as int), horiz) + axis_ext(
            rect_of(s0, s0[q].children@[pos] as int),
            horiz,
        ),
        cross_lo(merged, horiz) == cross_lo(rect_of(s0, q), horiz),
        cross_ext(merged, horiz) == cross_ext(rect_of(s0, q), horiz),
        forall|m: int, n: int|
            0 <= m < n < s0[q].children@.len() ==> s0[q].children@[m] != s0[q].children@[n],
    ensures
        tiles(s2, q, horiz),
{
    let c0 = s0[q].children@;
    let c2 = s2[q].children@;
    let r = rect_of(s0, q);
    let rv = rect_of(s0, c0[pos] as int);
    let rnb = rect_of(s0, nb as int);
    let nbp = if pos > 0 {
        pos - 1
    } else {
        1
    };
    assert(c0[nbp] == nb);
    assert(c2.len() == c0.len() - 1);
    assert forall|m: int| 0 <= m < c2.len() implies (#[trigger] c2[m]) == (if m < pos {
        c0[m]
    } else {
        c0[m + 1]
    }) by {}
    // where the neighbour sits in the new list
    let nb2 = if pos > 0 {
        pos - 1
    } else {
        0
    };
    assert(c2[nb2] == nb);
    assert forall|m: int| 0 <= m < c2.len() && m != nb2 implies c2[m] != nb by {
        if m < pos {
            assert(c2[m] == c0[m]);
        } else {
            assert(c2[m] == c0[m + 1]);
        }
    }
    // old facts at the removed slot and the neighbour
    assert(has_rect(s0, c0[pos] as int) && cross_lo(rv, horiz) == cross_lo(r, horiz));
    assert(has_rect(s0, c0[nbp] as int) && cross_lo(rnb, horiz) == cross_lo(r, horiz));
    if pos > 0 {
        assert(axis_lo(rv, horiz) == axis_lo(rnb, horiz) + axis_ext(rnb, horiz));
    } else {
        assert(axis_lo(rnb, horiz) == axis_lo(rv, horiz) + axis_ext(rv, horiz));
    }
    assert forall|m: int| 0 <= m < c2.len() implies has_rect(s2, #[trigger] c2[m] as int)
        && cross_lo(rect_of(s2, c2[m] as int), horiz) == cross_lo(r, horiz) && cross_ext(
        rect_of(s2, c2[m] as int),
        horiz,
    ) == cross_ext(r, horiz) && axis_lo(rect_of(s2, c2[m] as int), horiz) >= axis_lo(r, horiz)
        && axis_lo(rect_of(s2, c2[m] as int), horiz) + axis_ext(rect_of(s2, c2[m] as int), horiz)
        <= axis_lo(r, horiz) + axis_ext(r, horiz) by {
        if m == nb2 {
            assert(rect_of(s2, c2[m] as int) == merged);
            assert(axis_lo(rv, horiz) >= axis_lo(r, horiz));
            assert(axis_lo(rnb, horiz) >= axis_lo(r, horiz));
            assert(axis_lo(rv, horiz) + axis_ext(rv, horiz) <= axis_lo(r, horiz) + axis_ext(
                r,
                horiz,
            ));
            assert(axis_lo(rnb, horiz) + axis_ext(rnb, horiz) <= axis_lo(r, horiz) + axis_ext(
                r,
                horiz,
            ));
        } else {
            let o = if m < pos {
                m
            } else {
                m + 1
            };
            assert(c2[m] == c0[o]);
            assert(c0[o] != nb);
            assert(has_rect(s0, c0[o] as int) && cross_lo(rect_of(s0, c0[o] as int), horiz)
                == cross_lo(r, horiz));
            assert(rect_of(s2, c0[o] as int) == rect_of(s0, c0[o] as int));
            assert(has_rect(s2, c0[o] as int) == has_rect(s0, c0[o] as int));
        }
    }
    assert forall|m: int| 0 < m < c2.len() implies axis_lo(
        rect_of(s2, #[trigger] c2[m] as int),
        horiz,
    ) == axis_lo(rect_of(s2, c2[m - 1] as int), horiz) + axis_ext(
        rect_of(s2, c2[m - 1] as int),
        horiz,
    ) by {
        if pos > 0 {
            if m < pos - 1 {
                assert(c2[m] == c0[m] && c2[m - 1] == c0[m - 1]);
                assert(axis_lo(rect_of(s0, c0[m] as int), horiz) == axis_lo(
                    rect_of(s0, c0[m - 1] as int),
                    horiz,
                ) + axis_ext(rect_of(s0, c0[m - 1] as int), horiz));
            } else if m == pos - 1 {
                assert(c2[m] == nb && c2[m - 1] == c0[m - 1]);
                assert(axis_lo(rect_of(s0, c0[pos - 1] as int), horiz) == axis_lo(
                    rect_of(s0, c0[pos - 2] as int),
                    horiz,
                ) + axis_ext(rect_of(s0, c0[pos - 2] as int), horiz));
            } else if m == pos {
                assert(c2[m] == c0[m + 1] && c2[m - 1] == nb);
                assert(rect_of(s2, c2[m - 1] as int) == merged);
                assert(axis_lo(rect_of(s0, c0[pos + 1] as int), horiz) == axis_lo(rv, horiz)
                    + axis_ext(rv, horiz));
            } else {
                assert(c2[m] == c0[m + 1] && c2[m - 1] == c0[m]);
                assert(axis_lo(rect_of(s0, c0[m + 1] as int), horiz) == axis_lo(
                    rect_of(s0, c0[m] as int),
                    horiz,
                ) + axis_ext(rect_of(s0, c0[m] as int), horiz));
            }
        } else {
            if m == 1 {
                assert(c2[m] == c0[2] && c2[m - 1] == nb);
                assert(rect_of(s2, c2[m - 1] as int) == merged);
                assert(axis_lo(rect_of(s0, c0[2] as int), horiz) == axis_lo(rnb, horiz)
                    + axis_ext(rnb, horiz));
            } else {
                assert(c2[m] == c0[m + 1] && c2[m - 1] == c0[m]);
                assert(axis_lo(rect_of(s0, c0[m + 1] as int), horiz) == axis_lo(
                    rect_of(s0, c0[m] as int),
                    horiz,
                ) + axis_ext(rect_of(s0, c0[m] as int), horiz));
            }
        }
    }
    assert(axis_lo(rect_of(s2, c2[0] as int), horiz) == axis_lo(r, horiz)) by {
        if pos == 0 {
            assert(c2[0] == nb);
            assert(axis_lo(rv, horiz) == axis_lo(r, horiz));
        } else if pos == 1 && nb2 == 0 {
            assert(c2[0] == nb);
            assert(axis_lo(rnb, horiz) == axis_lo(r, horiz));
        } else {
            assert(c2[0] == c0[0]);
            assert(c0[0] != nb);
            assert(rect_of(s2, c0[0] as int) == rect_of(s0, c0[0] as int));
            assert(axis_lo(rect_of(s0, c0[0] as int), horiz) == axis_lo(r, horiz));
        }
    }
    assert(axis_lo(rect_of(s2, c2[c2.len() - 1] as int), horiz) + axis_ext(
        rect_of(s2, c2[c2.len() - 1] as int),
        horiz,
    ) == axis_lo(r, horiz) + axis_ext(r, horiz)) by {
        if nb2 == c2.len() - 1 {
            assert(c2[c2.len() - 1] == nb);
            assert(rect_of(s2, c2[c2.len() - 1] as int) == merged);
            if pos > 0 {
                assert(pos == c0.len() - 1);
                assert(axis_lo(rv, horiz) + axis_ext(rv, horiz) == axis_lo(r, horiz) + axis_ext(
                    r,
                    horiz,
                ));
            } else {
                assert(c0.len() == 2);
                assert(axis_lo(rnb, horiz) + axis_ext(rnb, horiz) == axis_lo(r, horiz) + axis_ext(
                    r,
                    horiz,
                ));
            }
        } else {
            assert(c2[c2.len() - 1] == c0[c0.len() - 1]);
            assert(c0[c0.len() - 1] != nb);
            assert(rect_of(s2, c0[c0.len() - 1] as int) == rect_of(s0, c0[c0.len() - 1] as int));
            assert(axis_lo(rect_of(s0, c0[c0.len() - 1] as int), horiz) + axis_ext(
                rect_of(s0, c0[c0.len() - 1] as int),
                horiz,
            ) == axis_lo(r, horiz) + axis_ext(r, horiz));
        }
    }
}

/// Identity bookkeeping survives an edit that keeps every old identity and
/// liveness, and appends only nodes whose fresh identities lie between the
/// old and the new allocation counter.
proof fn lemma_ids_extend(s0: Seq<Node>, s2: Seq<Node>, nid0: u64, nid2: u64)
    requires
        ids_ok(s0, nid0),
        nid0 <= nid2,
        s2.len() >= s0.len(),
        forall|i: int|
            0 <= i < s0.len() ==> s2[i].live == s0[i].live && (
            #[trigger] s2[i].payload.numeric_id_spec()) == s0[i].payload.numeric_id_spec(),
        forall|i: int|
            s0.len() <= i < s2.len() && s2[i].live ==> ((
            #[trigger] s2[i].payload.numeric_id_spec()) matches Some(id) && nid0 <= id < nid2),
        forall|i: int, j: int|
            #![trigger s2[i].payload.numeric_id_spec(), s2[j].payload.numeric_id_spec()]
            s0.len() <= i < j < s2.len() ==> s2[i].payload.numeric_id_spec()
                != s2[j].payload.numeric_id_spec(),
    ensures
        ids_ok(s2, nid2),
{
    assert forall|i: int|
        node_live(s2, i) implies ((#[trigger] s2[i].payload.numeric_id_spec()) matches Some(id)
        ==> id < nid2) by {
        if i < s0.len() {
            assert(node_live(s0, i));
        }
    }
    assert forall|i: int, j: int|
        #![trigger s2[i].payload.numeric_id_spec(), s2[j].payload.numeric_id_spec()]
        node_live(s2, i) && node_live(s2, j) && i != j && s2[i].payload.numeric_id_spec() is Some
        implies s2[i].payload.numeric_id_spec() != s2[j].payload.numeric_id_spec() by {
        if i < s0.len() && j < s0.len() {
            assert(node_live(s0, i) && node_live(s0, j));
        } else if i < s0.len() {
            assert(node_live(s0, i));
        } else if j < s0.len() {
            assert(node_live(s0, j));
        }
    }
}

/// Re-establish the per-node layout conditions after the two views in
/// adjacent slots `p`, `p + 1` of split container `q` were given the
/// rectangles `u1`, `u2` (and possibly exchanged places): the pair covers
/// the same combined span as before.
#[verifier::rlimit(100)]
proof fn lemma_pair_layout(
    s0: Seq<Node>,
    d0: Map<int, int>,
    s2: Seq<Node>,
    q: usize,
    p: int,
    x1: usize,
    x2: usize,
    u1: Rect,
    u2: Rect,
    horiz: bool,
)
    requires
        tree_wf(s0, d0),
        forall|i: int| 0 <= i < s0.len() ==> #[trigger] layout_at(s0, i),
        node_live(s0, q as int),
        s0[q as int].payload matches Container::Container { layout, .. } && (layout
            is Horizontal || layout is Vertical) && (horiz <==> layout is Horizontal),
        0 <= p,
        p + 1 < s0[q as int].children@.len(),
        (x1 == s0[q as int].children@[p] && x2 == s0[q as int].children@[p + 1]) || (x1 == s0[q
            as int].children@[p + 1] && x2 == s0[q as int].children@[p]),
        s0.len() <= usize::MAX,
        s2.len() == s0.len(),
        s2[q as int].children@ == s0[q as int].children@.update(p, x1).update(p + 1, x2),
        s2[q as int].payload == s0[q as int].payload,
        s2[q as int].parent == s0[q as int].parent,
        s2[q as int].live,
        s0[x1 as int].payload is View,
        s0[x2 as int].payload is View,
        s2[x1 as int].payload is View,
        s2[x2 as int].payload is View,
        rect_of(s2, x1 as int) == u1,
        rect_of(s2, x2 as int) == u2,
        s2[x1 as int].parent == s0[x1 as int].parent,
        s2[x2 as int].parent == s0[x2 as int].parent,
        s2[x1 as int].children@ == s0[x1 as int].children@,
        s2[x2 as int].children@ == s0[x2 as int].children@,
        s2[x1 as int].live && s2[x2 as int].live,
        forall|i: int|
            0 <= i < s0.len() && i != q as int && i != x1 as int && i != x2 as int ==> s2[i]
                == s0[i],
        axis_lo(u1, horiz) == axis_lo(rect_of(s0, s0[q as int].children@[p] as int), horiz),
        axis_lo(u2, horiz) == axis_lo(u1, horiz) + axis_ext(u1, horiz),
        axis_lo(u2, horiz) + axis_ext(u2, horiz) == axis_lo(
            rect_of(s0, s0[q as int].children@[p + 1] as int),
            horiz,
        ) + axis_ext(rect_of(s0, s0[q as int].children@[p + 1] as int), horiz),
        cross_lo(u1, horiz) == cross_lo(rect_of(s0, q as int), horiz),
        cross_ext(u1, horiz) == cross_ext(rect_of(s0, q as int), horiz),
        cross_lo(u2, horiz) == cross_lo(rect_of(s0, q as int), horiz),
        cross_ext(u2, horiz) == cross_ext(rect_of(s0, q as int), horiz),
        axis_ext(u1, horiz) >= MIN_SIZE,
        axis_ext(u2, horiz) >= MIN_SIZE,
    ensures
        forall|i: int| 0 <= i < s2.len() ==> #[trigger] layout_at(s2, i),
{
    let c0 = s0[q as int].children@;
    let r = rect_of(s0, q as int);
    assert(entry_ok(s0, d0, q as int));
    assert(layout_at(s0, q as int));
    assert(node_live(s0, x1 as int) && node_live(s0, x2 as int));
    assert(s0[x1 as int].parent == Option::Some(q) && s0[x2 as int].parent == Option::Some(q));
    assert(x1 != x2);
    assert(x1 as int != q as int && x2 as int != q as int) by {
        assert(entry_ok(s0, d0, x1 as int));
        assert(entry_ok(s0, d0, x2 as int));
        if x1 as int == q as int {
            assert(parent_of(s0, q as int) == q as int);
        }
        if x2 as int == q as int {
            assert(parent_of(s0, q as int) == q as int);
        }
    }
    assert(has_rect(s2, x1 as int) && has_rect(s2, x2 as int));
    // the old pair sat inside the split's span
    assert(tiles(s0, q as int, horiz));
    assert(axis_lo(rect_of(s0, c0[p] as int), horiz) >= axis_lo(r, horiz));
    assert(axis_lo(rect_of(s0, c0[p + 1] as int), horiz) + axis_ext(
        rect_of(s0, c0[p + 1] as int),
        horiz,
    ) <= axis_lo(r, horiz) + axis_ext(r, horiz));
    assert forall|i2: int| 0 <= i2 < s2.len() implies #[trigger] layout_at(s2, i2) by {
        assert(layout_at(s0, i2));
        assert(entry_ok(s0, d0, i2));
        if i2 == q as int {
            let qq = parent_of(s0, q as int);
            if q != 0 {
                assert(entry_ok(s0, d0, qq));
                assert(qq != x1 as int && qq != x2 as int) by {
                    if qq == x1 as int || qq == x2 as int {
                        assert(layout_at(s0, q as int));
                    }
                }
                assert(s2[qq].payload == s0[qq].payload);
            }
            assert(nest_at(s2, i2));
            assert forall|m: int|
                0 <= m < c0.len() && m != p && m != p + 1 implies ((#[trigger] c0[m] as int)
                < s2.len() && rect_of(s2, c0[m] as int) == rect_of(s0, c0[m] as int) && has_rect(
                s2,
                c0[m] as int,
            ) == has_rect(s0, c0[m] as int)) by {
                assert(node_live(s0, c0[m] as int));
                assert(c0[m] != c0[p] && c0[m] != c0[p + 1]);
                assert(c0[m] as int != q as int) by {
                    if c0[m] as int == q as int {
                        assert(parent_of(s0, q as int) == q as int);
                        assert(entry_ok(s0, d0, q as int));
                    }
                }
                assert(s2[c0[m] as int] == s0[c0[m] as int]);
            }
            lemma_tiles_pair(s0, s2, q as int, p, x1, x2, u1, u2, horiz);
            assert(geom_at(s2, i2));
        } else if i2 == x1 as int || i2 == x2 as int {
            assert(s2[q as int].payload == s0[q as int].payload);
            assert(nest_at(s2, i2));
            let u = if i2 == x1 as int {
                u1
            } else {
                u2
            };
            assert(rect_of(s2, i2) == u);
            assert(u.sizeable()) by {
                assert(r.sizeable());
                assert(axis_lo(u1, horiz) >= axis_lo(r, horiz));
                assert(axis_lo(u2, horiz) + axis_ext(u2, horiz) <= axis_lo(r, horiz) + axis_ext(
                    r,
                    horiz,
                ));
            }
            assert(geom_at(s2, i2));
        } else {
            if s0[i2].live {
                if i2 != 0 {
                    assert(entry_ok(s0, d0, parent_of(s0, i2)));
                    assert(parent_of(s0, i2) != x1 as int && parent_of(s0, i2) != x2 as int) by {
                        assert(entry_ok(s0, d0, x1 as int));
                        if parent_of(s0, i2) == x1 as int || parent_of(s0, i2) == x2 as int {
                            assert(layout_at(s0, i2));
                        }
                    }
                }
                assert forall|m: int|
                    0 <= m < s0[i2].children@.len() implies !(Set::empty().insert(
                    x1 as int,
                ).insert(x2 as int).contains((#[trigger] s0[i2].children@[m]) as int)) by {
                    let x = s0[i2].children@[m];
                    assert(node_live(s0, x as int));
                    assert(s0[x as int].parent == Option::Some(i2 as usize));
                    assert((i2 as usize) as int == i2);
                    assert(x != x1 && x != x2);
                }
                lemma_layout_others(
                    s0,
                    d0,
                    s2,
                    i2,
                    Set::empty().insert(x1 as int).insert(x2 as int),
                );
            }
        }
    }
}

/// Replacing two adjacent slots of a tiled child list by the same pair of
/// nodes (in either order) under two rectangles that cover the same combined
/// span keeps the list a tiling.
pub proof fn lemma_tiles_pair(
    s0: Seq<Node>,
    s2: Seq<Node>,
    q: int,
    pos: int,
    x1: usize,
    x2: usize,
    u1: Rect,
    u2: Rect,
    horiz: bool,
)
    requires
        0 <= q < s0.len(),
        q < s2.len(),
        tiles(s0, q, horiz),
        0 <= pos,
        pos + 1 < s0[q].children@.len(),
        s2[q].children@ == s0[q].children@.update(pos, x1).update(pos + 1, x2),
        (x1 == s0[q].children@[pos] && x2 == s0[q].children@[pos + 1]) || (x1 == s0[q].children@[
            pos + 1
        ] && x2 == s0[q].children@[pos]),
        rect_of(s2, q) == rect_of(s0, q),
        (x1 as int) < s2.len(),
        (x2 as int) < s2.len(),
        has_rect(s2, x1 as int),
        rect_of(s2, x1 as int) == u1,
        has_rect(s2, x2 as int),
        rect_of(s2, x2 as int) == u2,
        forall|m: int|
            0 <= m < s0[q].children@.len() && m != pos && m != pos + 1 ==> ((
            #[trigger] s0[q].children@[m] as int) < s2.len() && rect_of(
                s2,
                s0[q].children@[m] as int,
            ) == rect_of(s0, s0[q].children@[m] as int) && has_rect(s2, s0[q].children@[m] as int)
                == has_rect(s0, s0[q].children@[m] as int)),
        axis_lo(u1, horiz) == axis_lo(rect_of(s0, s0[q].children@[pos] as int), horiz),
        axis_lo(u2, horiz) == axis_lo(u1, horiz) + axis_ext(u1, horiz),
        axis_lo(u2, horiz) + axis_ext(u2, horiz) == axis_lo(
            rect_of(s0, s0[q].children@[pos + 1] as int),
            horiz,
        ) + axis_ext(rect_of(s0, s0[q].children@[pos + 1] as int), horiz),
        cross_lo(u1, horiz) == cross_lo(rect_of(s0, q), horiz),
        cross_ext(u1, horiz) == cross_ext(rect_of(s0, q), horiz),
        cross_lo(u2, horiz) == cross_lo(rect_of(s0, q), horiz),
        cross_ext(u2, horiz) == cross_ext(rect_of(s0, q), horiz),
    ensures
        tiles(s2, q, horiz),
{
    let c0 = s0[q].children@;
    let c2 = s2[q].children@;
    let r = rect_of(s0, q);
    let ra = rect_of(s0, c0[pos] as int);
    let rb = rect_of(s0, c0[pos + 1] as int);
    assert(c2.len() == c0.len());
    assert forall|m: int| 0 <= m < c2.len() implies (#[trigger] c2[m]) == (if m == pos {
        x1
    } else if m == pos + 1 {
        x2
    } else {
        c0[m]
    }) by {}
    assert(has_rect(s0, c0[pos] as int) && axis_lo(ra, horiz) >= axis_lo(r, horiz));
    assert(has_rect(s0, c0[pos + 1] as int) && axis_lo(rb, horiz) + axis_ext(rb, horiz) <= axis_lo(
        r,
        horiz,
    ) + axis_ext(r, horiz));
    assert(axis_lo(rb, horiz) == axis_lo(ra, horiz) + axis_ext(ra, horiz));
    assert forall|m: int| 0 <= m < c2.len() implies has_rect(s2, #[trigger] c2[m] as int)
        && cross_lo(rect_of(s2, c2[m] as int), horiz) == cross_lo(r, horiz) && cross_ext(
        rect_of(s2, c2[m] as int),
        horiz,
    ) == cross_ext(r, horiz) && axis_lo(rect_of(s2, c2[m] as int), horiz) >= axis_lo(r, horiz)
        && axis_lo(rect_of(s2, c2[m] as int), horiz) + axis_ext(rect_of(s2, c2[m] as int), horiz)
        <= axis_lo(r, horiz) + axis_ext(r, horiz) by {
        if m == pos {
            assert(rect_of(s2, c2[m] as int) == u1);
        } else if m == pos + 1 {
            assert(rect_of(s2, c2[m] as int) == u2);
        } else {
            assert(c2[m] == c0[m]);
            assert(has_rect(s0, c0[m] as int) && cross_lo(rect_of(s0, c0[m] as int), horiz)
                == cross_lo(r, horiz));
            assert(rect_of(s2, c0[m] as int) == rect_of(s0, c0[m] as int));
            assert(has_rect(s2, c0[m] as int) == has_rect(s0, c0[m] as int));
        }
    }
    assert forall|m: int| 0 < m < c2.len() implies axis_lo(
        rect_of(s2, #[trigger] c2[m] as int),
        horiz,
    ) == axis_lo(rect_of(s2, c2[m - 1] as int), horiz) + axis_ext(
        rect_of(s2, c2[m - 1] as int),
        horiz,
    ) by {
        if m < pos {
            assert(c2[m] == c0[m] && c2[m - 1] == c0[m - 1]);
            assert(rect_of(s2, c0[m] as int) == rect_of(s0, c0[m] as int));
            assert(rect_of(s2, c0[m - 1] as int) == rect_of(s0, c0[m - 1] as int));
            assert(axis_lo(rect_of(s0, c0[m] as int), horiz) == axis_lo(
                rect_of(s0, c0[m - 1] as int),
                horiz,
            ) + axis_ext(rect_of(s0, c0[m - 1] as int), horiz));
        } else if m == pos && pos > 0 {
            assert(c2[m - 1] == c0[m - 1]);
            assert(rect_of(s2, c2[m] as int) == u1);
            assert(rect_of(s2, c0[m - 1] as int) == rect_of(s0, c0[m - 1] as int));
            assert(axis_lo(ra, horiz) == axis_lo(rect_of(s0, c0[pos - 1] as int), horiz)
                + axis_ext(rect_of(s0, c0[pos - 1] as int), horiz));
        } else if m == pos + 1 {
            assert(rect_of(s2, c2[m - 1] as int) == u1);
            assert(rect_of(s2, c2[m] as int) == u2);
        } else if m == pos + 2 {
            assert(c2[m] == c0[m]);
            assert(rect_of(s2, c2[m - 1] as int) == u2);
            assert(rect_of(s2, c0[m] as int) == rect_of(s0, c0[m] as int));
            assert(axis_lo(rect_of(s0, c0[pos + 2] as int), horiz) == axis_lo(rb, horiz)
                + axis_ext(rb, horiz));
        } else {
            assert(c2[m] == c0[m] && c2[m - 1] == c0[m - 1]);
            assert(rect_of(s2, c0[m] as int) == rect_of(s0, c0[m] as int));
            assert(rect_of(s2, c0[m - 1] as int) == rect_of(s0, c0[m - 1] as int));
            assert(axis_lo(rect_of(s0, c0[m] as int), horiz) == axis_lo(
                rect_of(s0, c0[m - 1] as int),
                horiz,
            ) + axis_ext(rect_of(s0, c0[m - 1] as int), horiz));
        }
    }
    assert(axis_lo(rect_of(s2, c2[0] as int), horiz) == axis_lo(r, horiz)) by {
        if pos == 0 {
            assert(rect_of(s2, c2[0] as int) == u1);
            assert(axis_lo(ra, horiz) == axis_lo(r, horiz));
        } else {
            assert(c2[0] == c0[0]);
            assert(rect_of(s2, c0[0] as int) == rect_of(s0, c0[0] as int));
            assert(axis_lo(rect_of(s0, c0[0] as int), horiz) == axis_lo(r, horiz));
        }
    }
    assert(axis_lo(rect_of(s2, c2[c2.len() - 1] as int), horiz) + axis_ext(
        rect_of(s2, c2[c2.len() - 1] as int),
        horiz,
    ) == axis_lo(r, horiz) + axis_ext(r, horiz)) by {
        if pos + 1 == c2.len() - 1 {
            assert(rect_of(s2, c2[c2.len() - 1] as int) == u2);
            assert(axis_lo(rb, horiz) + axis_ext(rb, horiz) == axis_lo(r, horiz) + axis_ext(
                r,
                horiz,
            ));
        } else {
            assert(c2[c2.len() - 1] == c0[c0.len() - 1]);
            assert(rect_of(s2, c0[c0.len() - 1] as int) == rect_of(s0, c0[c0.len() - 1] as int));
            assert(axis_lo(rect_of(s0, c0[c0.len() - 1] as int), horiz) + axis_ext(
                rect_of(s0, c0[c0.len() - 1] as int),
                horiz,
            ) == axis_lo(r, horiz) + axis_ext(r, horiz));
        }
    }
}

/// Splitting one slot of a tiled child list into two adjacent slots that
/// together cover it keeps the list a tiling.
pub proof fn lemma_tiles_split(
    s0: Seq<Node>,
    s2: Seq<Node>,
    q: int,
    pos: int,
    nn: usize,
    horiz: bool,
    r1: Rect,
    r2: Rect,
)
    requires
        0 <= q < s0.len(),
        tiles(s0, q, horiz),
        0 <= pos < s0[q].children@.len(),
        (nn as int) < s2.len(),
        q < s2.len(),
        s2[q].children@ == s0[q].children@.insert(pos + 1, nn),
        rect_of(s2, q) == rect_of(s0, q),
        forall|m: int|
            0 <= m < s0[q].children@.len() && m != pos ==> ((#[trigger] s0[q].children@[m] as int)
                < s2.len() && rect_of(s2, s0[q].children@[m] as int) == rect_of(
                s0,
                s0[q].children@[m] as int,
            ) && has_rect(s2, s0[q].children@[m] as int) == has_rect(
                s0,
                s0[q].children@[m] as int,
            )),
        (s0[q].children@[pos] as int) < s2.len(),
        has_rect(s2, s0[q].children@[pos] as int),
        rect_of(s2, s0[q].children@[pos] as int) == r1,
        has_rect(s2, nn as int),
        rect_of(s2, nn as int) == r2,
        axis_lo(r1, horiz) == axis_lo(rect_of(s0, s0[q].children@[pos] as int), horiz),
        axis_ext(r1, horiz) + axis_ext(r2, horiz) == axis_ext(
            rect_of(s0, s0[q].children@[pos] as int),
            horiz,
        ),
        axis_lo(r2, horiz) == axis_lo(r1, horiz) + axis_ext(r1, horiz),
        cross_lo(r1, horiz) == cross_lo(rect_of(s0, s0[q].children@[pos] as int), horiz),
        cross_ext(r1, horiz) == cross_ext(rect_of(s0, s0[q].children@[pos] as int), horiz),
        cross_lo(r2, horiz) == cross_lo(rect_of(s0, s0[q].children@[pos] as int), horiz),
        cross_ext(r2, horiz) == cross_ext(rect_of(s0, s0[q].children@[pos] as int), horiz),
    ensures
        tiles(s2, q, horiz),
{
    let c0 = s0[q].children@;
    let c2 = s2[q].children@;
    let r = rect_of(s0, q);
    assert(c2.len() == c0.len() + 1);
    assert forall|m: int| 0 <= m < c2.len() implies (#[trigger] c2[m]) == (if m <= pos {
        c0[m]
    } else if m == pos + 1 {
        nn
    } else {
        c0[m - 1]
    }) by {}
    let rold = rect_of(s0, c0[pos] as int);
    assert(has_rect(s0, c0[pos] as int) && cross_lo(rold, horiz) == cross_lo(r, horiz)
        && cross_ext(rold, horiz) == cross_ext(r, horiz) && axis_lo(rold, horiz) >= axis_lo(
        r,
        horiz,
    ) && axis_lo(rold, horiz) + axis_ext(rold, horiz) <= axis_lo(r, horiz) + axis_ext(r, horiz));
    assert forall|m: int| 0 <= m < c2.len() implies has_rect(s2, #[trigger] c2[m] as int)
        && cross_lo(rect_of(s2, c2[m] as int), horiz) == cross_lo(r, horiz) && cross_ext(
        rect_of(s2, c2[m] as int),
        horiz,
    ) == cross_ext(r, horiz) && axis_lo(rect_of(s2, c2[m] as int), horiz) >= axis_lo(r, horiz)
        && axis_lo(rect_of(s2, c2[m] as int), horiz) + axis_ext(rect_of(s2, c2[m] as int), horiz)
        <= axis_lo(r, horiz) + axis_ext(r, horiz) by {
        if m == pos {
            assert(c2[m] == c0[pos]);
            assert(rect_of(s2, c2[m] as int) == r1);
        } else if m < pos {
            assert(c2[m] == c0[m]);
            assert(has_rect(s0, c0[m] as int) && cross_lo(rect_of(s0, c0[m] as int), horiz)
                == cross_lo(r, horiz));
            assert(rect_of(s2, c0[m] as int) == rect_of(s0, c0[m] as int));
            assert(has_rect(s2, c0[m] as int) == has_rect(s0, c0[m] as int));
        } else if m == pos + 1 {
            assert(c2[m] == nn);
            assert(rect_of(s2, c2[m] as int) == r2);
        } else {
            assert(c2[m] == c0[m - 1]);
            assert(has_rect(s0, c0[m - 1] as int) && cross_lo(rect_of(s0, c0[m - 1] as int), horiz)
                == cross_lo(r, horiz));
            assert(rect_of(s2, c0[m - 1] as int) == rect_of(s0, c0[m - 1] as int));
            assert(has_rect(s2, c0[m - 1] as int) == has_rect(s0, c0[m - 1] as int));
        }
    }
    assert forall|m: int| 0 < m < c2.len() implies axis_lo(
        rect_of(s2, #[trigger] c2[m] as int),
        horiz,
    ) == axis_lo(rect_of(s2, c2[m - 1] as int), horiz) + axis_ext(
        rect_of(s2, c2[m - 1] as int),
        horiz,
    ) by {
        if m < pos {
            assert(c2[m] == c0[m] && c2[m - 1] == c0[m - 1]);
            assert(rect_of(s2, c0[m] as int) == rect_of(s0, c0[m] as int));
            assert(rect_of(s2, c0[m - 1] as int) == rect_of(s0, c0[m - 1] as int));
            assert(axis_lo(rect_of(s0, c0[m] as int), horiz) == axis_lo(
                rect_of(s0, c0[m - 1] as int),
                horiz,
            ) + axis_ext(rect_of(s0, c0[m - 1] as int), horiz));
        } else if m == pos && pos > 0 {
            assert(c2[m] == c0[m] && c2[m - 1] == c0[m - 1]);
            assert(rect_of(s2, c2[m] as int) == r1);
            assert(rect_of(s2, c0[m - 1] as int) == rect_of(s0, c0[m - 1] as int));
            assert(axis_lo(rect_of(s0, c0[pos] as int), horiz) == axis_lo(
                rect_of(s0, c0[pos - 1] as int),
                horiz,
            ) + axis_ext(rect_of(s0, c0[pos - 1] as int), horiz));
        } else if m == pos + 1 {
            assert(c2[m - 1] == c0[pos]);
            assert(rect_of(s2, c2[m - 1] as int) == r1);
            assert(rect_of(s2, c2[m] as int) == r2);
        } else if m == pos + 2 {
            assert(c2[m] == c0[pos + 1] && c2[m - 1] == nn);
            assert(rect_of(s2, c2[m - 1] as int) == r2);
            assert(rect_of(s2, c0[pos + 1] as int) == rect_of(s0, c0[pos + 1] as int));
            assert(axis_lo(rect_of(s0, c0[pos + 1] as int), horiz) == axis_lo(
                rect_of(s0, c0[pos] as int),
                horiz,
            ) + axis_ext(rect_of(s0, c0[pos] as int), horiz));
        } else {
            assert(c2[m] == c0[m - 1] && c2[m - 1] == c0[m - 2]);
            assert(rect_of(s2, c0[m - 1] as int) == rect_of(s0, c0[m - 1] as int));
            assert(rect_of(s2, c0[m - 2] as int) == rect_of(s0, c0[m - 2] as int));
            assert(axis_lo(rect_of(s0, c0[m - 1] as int), horiz) == axis_lo(
                rect_of(s0, c0[m - 2] as int),
                horiz,
            ) + axis_ext(rect_of(s0, c0[m - 2] as int), horiz));
        }
    }
    assert(axis_lo(rect_of(s2, c2[0] as int), horiz) == axis_lo(r, horiz)) by {
        if pos == 0 {
            assert(c2[0] == c0[0]);
            assert(rect_of(s2, c2[0] as int) == r1);
            assert(axis_lo(rect_of(s0, c0[0] as int), horiz) == axis_lo(r, horiz));
        } else {
            assert(c2[0] == c0[0]);
            assert(rect_of(s2, c0[0] as int) == rect_of(s0, c0[0] as int));
            assert(axis_lo(rect_of(s0, c0[0] as int), horiz) == axis_lo(r, horiz));
        }
    }
    assert(axis_lo(rect_of(s2, c2[c2.len() - 1] as int), horiz) + axis_ext(
        rect_of(s2, c2[c2.len() - 1] as int),
        horiz,
    ) == axis_lo(r, horiz) + axis_ext(r, horiz)) by {
        if pos + 1 == c2.len() - 1 {
            assert(c2[c2.len() - 1] == nn);
            assert(rect_of(s2, c2[c2.len() - 1] as int) == r2);
            assert(pos == c0.len() - 1);
            assert(axis_lo(rect_of(s0, c0[c0.len() - 1] as int), horiz) + axis_ext(
                rect_of(s0, c0[c0.len() - 1] as int),
                horiz,
            ) == axis_lo(r, horiz) + axis_ext(r, horiz));
        } else {
            assert(c2[c2.len() - 1] == c0[c0.len() - 1]);
            assert(rect_of(s2, c0[c0.len() - 1] as int) == rect_of(s0, c0[c0.len() - 1] as int));
            assert(axis_lo(rect_of(s0, c0[c0.len() - 1] as int), horiz) + axis_ext(
                rect_of(s0, c0[c0.len() - 1] as int),
                horiz,
            ) == axis_lo(r, horiz) + axis_ext(r, horiz));
        }
    }
}

/// Re-establish the per-node layout conditions after a view slot in split
/// container `q` was divided between `target` (taking `r1`) and the fresh
/// view `n` (taking `r2`).
#[verifier::rlimit(100)]
proof fn lemma_split_layout(
    s0: Seq<Node>,
    d0: Map<int, int>,
    s2: Seq<Node>,
    target: usize,
    q: usize,
    n: usize,
    pos: usize,
    rv: Rect,
    r1: Rect,
    r2: Rect,
    split: bool,
    horiz: bool,
    c0: Seq<usize>,
    handle: Handle,
    vid: u64,
)
    requires
        tree_wf(s0, d0),
        forall|i: int| 0 <= i < s0.len() ==> #[trigger] layout_at(s0, i),
        node_live(s0, target as int),
        target != 0,
        s0[target as int].payload matches Container::View { rect, .. } && rect == rv,
        parent_of(s0, target as int) == q as int,
        node_live(s0, q as int),
        s0[q as int].payload matches Container::Container { layout, .. } && split == (
        layout is Horizontal || layout is Vertical) && horiz == !(layout is Vertical),
        c0 == s0[q as int].children@,
        pos < c0.len(),
        c0[pos as int] == target,
        (n as int) == s0.len(),
        s2.len() == s0.len() + 1,
        s2[q as int].children@ == c0.insert(pos + 1, n),
        s2[q as int].payload == s0[q as int].payload,
        s2[q as int].parent == s0[q as int].parent,
        s2[q as int].live,
        s2[target as int].payload == s0[target as int].payload.with_rect_spec(r1),
        s2[target as int].parent == s0[target as int].parent,
        s2[target as int].children@ == s0[target as int].children@,
        s2[target as int].live,
        s2[n as int].payload == (Container::View { handle, id: vid, rect: r2 }),
        s2[n as int].parent == Option::Some(q),
        s2[n as int].live,
        forall|i: int| 0 <= i < s0.len() && i != target as int && i != q as int ==> s2[i] == s0[i],
        split ==> axis_ext(rv, horiz) >= 2 * MIN_SIZE && r1 == set_axis_spec(
            rv,
            horiz,
            rv.lo_spec(horiz),
            (axis_ext(rv, horiz) / 2) as u32,
        ) && r2 == set_axis_spec(
            rv,
            horiz,
            (rv.lo_spec(horiz) + axis_ext(rv, horiz) / 2) as u32,
            (axis_ext(rv, horiz) - axis_ext(rv, horiz) / 2) as u32,
        ),
        !split ==> r1 == rv && r2 == rv,
    ensures
        forall|i: int| 0 <= i < s2.len() ==> #[trigger] layout_at(s2, i),
{
    assert(entry_ok(s0, d0, target as int));
    assert(entry_ok(s0, d0, q as int));
    assert forall|i2: int| 0 <= i2 < s2.len() implies #[trigger] layout_at(s2, i2) by {
        assert(layout_at(s0, q as int));
        if i2 == q as int {
            assert(s2[q as int].payload == s0[q as int].payload);
            let qq = parent_of(s0, q as int);
            if q != 0 {
                assert(entry_ok(s0, d0, qq));
                assert(qq != target as int) by {
                    assert(layout_at(s0, target as int));
                }
                assert(s2[qq].payload == s0[qq].payload);
            }
            assert(nest_at(s2, i2));
            assert forall|m: int|
                0 <= m < c0.len() && m != pos as int implies ((#[trigger] c0[m] as int)
                < s2.len() && rect_of(s2, c0[m] as int) == rect_of(s0, c0[m] as int)
                && has_rect(s2, c0[m] as int) == has_rect(s0, c0[m] as int)) by {
                assert(node_live(s0, c0[m] as int));
                assert(c0[m] != target);
                assert(c0[m] as int != q as int) by {
                    if c0[m] as int == q as int {
                        assert(s0[q as int].parent == Option::Some(q));
                        assert(parent_of(s0, q as int) == q as int);
                    }
                }
                assert(s2[c0[m] as int] == s0[c0[m] as int]);
            }
            if split {
                let hz = horiz;
                assert(tiles(s0, q as int, hz));
                assert(c0[pos as int] == target);
                assert(rect_of(s0, target as int) == rv);
                lemma_tiles_split(s0, s2, q as int, pos as int, n, hz, r1, r2);
                assert(geom_at(s2, i2));
            } else {
                assert(rect_of(s0, target as int) == rv);
                assert(rect_of(s2, target as int) == rv);
                assert forall|m: int|
                    0 <= m < s2[i2].children@.len() implies has_rect(
                    s2,
                    #[trigger] s2[i2].children@[m] as int,
                ) && rect_of(s2, s2[i2].children@[m] as int) == rect_of(s0, q as int) by {
                    let c2 = s2[i2].children@;
                    if m <= pos as int {
                        assert(c2[m] == c0[m]);
                    } else if m == pos + 1 {
                        assert(c2[m] == n as usize);
                    } else {
                        assert(c2[m] == c0[m - 1]);
                    }
                }
                assert(geom_at(s2, i2));
            }
        } else if i2 == target as int {
            assert(s2[target as int].parent == s0[target as int].parent);
            assert(s2[q as int].payload == s0[q as int].payload);
            assert(nest_at(s2, i2));
            assert(geom_at(s2, i2)) by {
                assert(geom_at(s0, i2));
                if split {
                    assert(rv.sizeable());
                    assert(axis_ext(rv, horiz) >= 2 * MIN_SIZE);
                }
            }
        } else if i2 == n as int {
            assert(parent_of(s2, i2) == q as int);
            assert(s2[q as int].payload == s0[q as int].payload);
            assert(nest_at(s2, i2));
            assert(geom_at(s2, i2)) by {
                assert(geom_at(s0, target as int));
                assert(rv.sizeable());
            }
        } else {
            assert(layout_at(s0, i2));
            assert(entry_ok(s0, d0, i2));
            if s0[i2].live {
                if i2 != 0 {
                    assert(entry_ok(s0, d0, parent_of(s0, i2)));
                    assert(parent_of(s0, i2) != target as int) by {
                        if parent_of(s0, i2) == target as int {
                            assert(layout_at(s0, i2));
                        }
                    }
                }
                assert forall|m: int|
                    0 <= m < s0[i2].children@.len() implies !(Set::empty().insert(
                    target as int,
                ).contains((#[trigger] s0[i2].children@[m]) as int)) by {
                    let x = s0[i2].children@[m];
                    assert(node_live(s0, x as int));
                    assert(s0[x as int].parent == Option::Some(i2 as usize));
                    assert(x != target);
                }
                lemma_layout_others(
                    s0,
                    d0,
                    s2,
                    i2,
                    Set::empty().insert(target as int),
                );
            }
        }
    }
}

/// A node keeps `layout_at` between two states when its own entry is
/// unchanged and no payload it reads — its parent's or a child's — was
/// touched.
pub proof fn lemma_layout_others(
    s0: Seq<Node>,
    d0: Map<int, int>,
    s2: Seq<Node>,
    i: int,
    pay_changed: Set<int>,
)
    requires
        tree_wf(s0, d0),
        0 <= i < s0.len(),
        s2.len() >= s0.len(),
        layout_at(s0, i),
        s2[i].live == s0[i].live,
        s2[i].children@ == s0[i].children@,
        s2[i].parent == s0[i].parent,
        s2[i].payload == s0[i].payload,
        forall|x: int|
            0 <= x < s0.len() && !pay_changed.contains(x) ==> (#[trigger] s2[x]).payload
                == s0[x].payload,
        s0[i].live && i != 0 ==> !pay_changed.contains(parent_of(s0, i)),
        s0[i].live ==> forall|m: int|
            0 <= m < s0[i].children@.len() ==> !pay_changed.contains(
                (#[trigger] s0[i].children@[m]) as int,
            ),
    ensures
        layout_at(s2, i),
{
    if s0[i].live {
        assert(entry_ok(s0, d0, i));
        if i != 0 {
            assert(0 <= parent_of(s0, i) < s0.len());
            assert(s2[parent_of(s0, i)].payload == s0[parent_of(s0, i)].payload);
        }
        assert forall|m: int| 0 <= m < s0[i].children@.len() implies ((#[trigger] s0[i].children@[m]
            as int) < s0.len() && s2[s0[i].children@[m] as int].payload == s0[s0[i].children@[m]
            as int].payload) by {
            assert(node_live(s0, s0[i].children@[m] as int));
        }
        lemma_geom_frame(s0, s2, i);
    }
}

/// Geometry of a node only reads its own payload, its child list, and its
/// children's payloads: when those carry over between two states, so does
/// `geom_at`; and the node's parent's payload settles `nest_at`.
pub proof fn lemma_geom_frame(s0: Seq<Node>, s2: Seq<Node>, i: int)
    requires
        0 <= i < s0.len(),
        s2.len() >= s0.len(),
        s2[i].payload == s0[i].payload,
        s2[i].children@ == s0[i].children@,
        geom_at(s0, i),
        forall|m: int|
            0 <= m < s0[i].children@.len() ==> ((#[trigger] s0[i].children@[m] as int) < s0.len()
                && s2[s0[i].children@[m] as int].payload == s0[s0[i].children@[m] as int].payload),
    ensures
        geom_at(s2, i),
{
    match s0[i].payload {
        Container::Container { layout, rect, id } => {
            assert forall|m: int| 0 <= m < s0[i].children@.len() implies rect_of(
                s2,
                #[trigger] s0[i].children@[m] as int,
            ) == rect_of(s0, s0[i].children@[m] as int) && has_rect(s2, s0[i].children@[m] as int)
                == has_rect(s0, s0[i].children@[m] as int) by {}
        },
        _ => {},
    }
}

} // verus!
