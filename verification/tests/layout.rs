use layout_tree::container::{Container, Direction, Handle, Layout, Rect, MIN_SIZE};
use layout_tree::display::{DisplayNode, DisplayTag};
use layout_tree::graph_tree::{GraphError, InnerTree, ShiftDirection};
use layout_tree::sync::{try_lock_action, try_lock_tree, Action, LockError};
use layout_tree::tree::{FocusError, LayoutTree, MovementError, ResizeErr, Tree, TreeError};

fn ws_rect() -> Rect {
    Rect { x: 0, y: 0, w: 800, h: 600 }
}

fn handle(id: u64, title: &str) -> Handle {
    Handle::new(id, title.to_string(), "term".to_string())
}

#[test]
fn new_tree_has_root_only() {
    let t = Tree::new();
    assert_eq!(t.0.root(), 0);
    assert_eq!(t.0.active(), None);
    assert_eq!(t.0.children_of(0).len(), 0);
}

#[test]
fn outputs_are_unique() {
    let mut t = Tree::new();
    let o1 = t.0.add_output(7).unwrap();
    assert_eq!(t.0.parent_of(o1), Some(0));
    assert_eq!(t.0.add_output(7), Err(TreeError::OutputExists));
    assert!(t.0.add_output(8).is_ok());
}

#[test]
fn workspace_needs_an_output_and_a_usable_rect() {
    let mut t = Tree::new();
    let o1 = t.0.add_output(1).unwrap();
    assert_eq!(
        t.0.add_workspace(0, "1".to_string(), ws_rect()),
        Err(TreeError::WrongContainerType)
    );
    let tiny = Rect { x: 0, y: 0, w: MIN_SIZE - 1, h: 600 };
    assert_eq!(
        t.0.add_workspace(o1, "1".to_string(), tiny),
        Err(TreeError::InvalidGeometry)
    );
    let w = t.0.add_workspace(o1, "1".to_string(), ws_rect()).unwrap();
    assert_eq!(t.0.parent_of(w), Some(o1));
}

#[test]
fn focus_is_idempotent_on_the_active_node() {
    let mut t = Tree::new();
    let o1 = t.0.add_output(1).unwrap();
    let w = t.0.add_workspace(o1, "1".to_string(), ws_rect()).unwrap();
    let v1 = t.0.add_view(w, handle(100, "v1")).unwrap();
    assert_eq!(t.0.active(), Some(v1));
    let before = t.0.rect_at(v1);
    assert_eq!(t.0.set_active(v1), Ok(()));
    assert_eq!(t.0.active(), Some(v1));
    assert_eq!(t.0.rect_at(v1), before);
    assert_eq!(t.0.set_active(99), Err(TreeError::NodeNotFound));
    assert_eq!(t.0.active(), Some(v1));
}

#[test]
fn first_view_fills_the_workspace() {
    let mut t = Tree::new();
    let o1 = t.0.add_output(1).unwrap();
    let w = t.0.add_workspace(o1, "1".to_string(), ws_rect()).unwrap();
    let v1 = t.0.add_view(w, handle(100, "v1")).unwrap();
    assert_eq!(t.0.rect_at(v1), Some(ws_rect()));
    assert_eq!(t.0.parent_of(v1), Some(w));
}

#[test]
fn second_view_synthesizes_a_split_container() {
    let mut t = Tree::new();
    let o1 = t.0.add_output(1).unwrap();
    let w = t.0.add_workspace(o1, "1".to_string(), ws_rect()).unwrap();
    let v1 = t.0.add_view(w, handle(100, "v1")).unwrap();
    let v2 = t.0.add_view(v1, handle(101, "v2")).unwrap();
    let c = t.0.parent_of(v1).unwrap();
    assert_ne!(c, w);
    assert_eq!(t.0.parent_of(v2), Some(c));
    assert_eq!(t.0.parent_of(c), Some(w));
    assert_eq!(t.0.children_of(c), vec![v1, v2]);
    // the two views split the old slot exactly
    assert_eq!(t.0.rect_at(v1), Some(Rect { x: 0, y: 0, w: 400, h: 600 }));
    assert_eq!(t.0.rect_at(v2), Some(Rect { x: 400, y: 0, w: 400, h: 600 }));
    assert_eq!(t.0.rect_at(c), Some(ws_rect()));
    assert_eq!(t.0.active(), Some(v2));
}

#[test]
fn lookup_by_id_finds_views_and_containers() {
    let mut t = Tree::new();
    let o1 = t.0.add_output(1).unwrap();
    let w = t.0.add_workspace(o1, "1".to_string(), ws_rect()).unwrap();
    let v1 = t.0.add_view(w, handle(100, "v1")).unwrap();
    let v1_id = match t.0.tree.payload_of(v1) {
        Some(Container::View { id, .. }) => *id,
        _ => panic!("expected a view"),
    };
    assert_eq!(t.0.lookup_by_id(v1_id), Some(v1));
    assert_eq!(t.0.lookup_by_id(v1_id + 1000), None);
}

#[test]
fn add_view_splits_too_small_slots_never() {
    let mut t = Tree::new();
    let o1 = t.0.add_output(1).unwrap();
    let narrow = Rect { x: 0, y: 0, w: 2 * MIN_SIZE - 1, h: 600 };
    let w = t.0.add_workspace(o1, "1".to_string(), narrow).unwrap();
    let v1 = t.0.add_view(w, handle(100, "v1")).unwrap();
    assert_eq!(t.0.add_view(v1, handle(101, "v2")), Err(TreeError::TooSmall));
    // everything unchanged
    assert_eq!(t.0.rect_at(v1), Some(narrow));
    assert_eq!(t.0.parent_of(v1), Some(w));
}

#[test]
fn node_store_reports_structural_errors() {
    let mut it = InnerTree::new();
    assert!(matches!(it.remove_node(0), Err(GraphError::RemovingRoot)));
    assert!(matches!(it.remove_node(5), Err(GraphError::StaleIndex)));
    let a = it.add_node(0, Container::Output { output_id: 1 }).unwrap();
    let b = it.add_node(0, Container::Output { output_id: 2 }).unwrap();
    // a node cannot be moved under its own descendant
    assert_eq!(it.move_node(0, a, 0), Err(GraphError::RootImmobile));
    assert_eq!(it.move_node(a, a, 0), Err(GraphError::WouldCycle));
    // sibling shifts stop at the edges
    assert_eq!(it.shift(a, ShiftDirection::Backward), Err(GraphError::AtEdge));
    assert_eq!(it.shift(b, ShiftDirection::Forward), Err(GraphError::AtEdge));
    assert_eq!(it.shift(a, ShiftDirection::Forward), Ok(b));
    assert_eq!(it.children_of(0), vec![b, a]);
    // only leaves can be removed
    let w = it
        .add_node(a, Container::Workspace { name: "1".to_string(), rect: Rect { x: 0, y: 0, w: 100, h: 100 } })
        .unwrap();
    assert!(matches!(it.remove_node(a), Err(GraphError::NotALeaf)));
    assert!(it.remove_node(w).is_ok());
    assert!(it.remove_node(a).is_ok());
}

#[test]
fn swap_nodes_exchanges_positions() {
    let mut it = InnerTree::new();
    let a = it.add_node(0, Container::Output { output_id: 1 }).unwrap();
    let b = it.add_node(0, Container::Output { output_id: 2 }).unwrap();
    assert_eq!(it.swap_nodes(a, b), Ok(()));
    assert_eq!(it.children_of(0), vec![b, a]);
    assert_eq!(it.swap_nodes(b, b), Ok(()));
    assert_eq!(it.children_of(0), vec![b, a]);
    assert_eq!(it.swap_nodes(0, a), Err(GraphError::RootImmobile));
}

#[test]
fn locks_hand_out_guards() {
    let tree_lock = std::sync::Mutex::new(Tree::new());
    {
        let g = try_lock_tree(&tree_lock).unwrap();
        assert_eq!(g.0.root(), 0);
        // a second attempt while held reports contention
        match try_lock_tree(&tree_lock) {
            Err(LockError::Contended) => {}
            _ => panic!("expected contention"),
        }
    }
    assert!(try_lock_tree(&tree_lock).is_ok());

    let action_lock: std::sync::Mutex<Option<Action>> = std::sync::Mutex::new(None);
    {
        let mut g = try_lock_action(&action_lock).unwrap();
        *g = Some(Action::Focus(Direction::Down));
    }
    let g = try_lock_action(&action_lock).unwrap();
    assert_eq!(*g, Some(Action::Focus(Direction::Down)));
}

#[test]
fn direction_opposites_round_trip() {
    for d in [Direction::Up, Direction::Down, Direction::Left, Direction::Right] {
        assert_eq!(d.opposite().opposite(), d);
    }
    assert!(Direction::Left.along(Layout::Horizontal));
    assert!(!Direction::Left.along(Layout::Vertical));
    assert!(Direction::Down.along(Layout::Vertical));
    assert!(!Direction::Up.along(Layout::Tabbed));
}

fn two_views() -> (Tree, usize, usize, usize) {
    let mut t = Tree::new();
    let o1 = t.0.add_output(1).unwrap();
    let w = t.0.add_workspace(o1, "1".to_string(), ws_rect()).unwrap();
    let v1 = t.0.add_view(w, handle(100, "v1")).unwrap();
    let v2 = t.0.add_view(v1, handle(101, "v2")).unwrap();
    let c = t.0.parent_of(v1).unwrap();
    (t, v1, v2, c)
}

#[test]
fn focus_moves_between_siblings_and_stops_at_edges() {
    let (mut t, v1, v2, _c) = two_views();
    assert_eq!(t.0.active(), Some(v2));
    // no vertical sibling inside a horizontal split
    assert_eq!(t.0.focus(Direction::Down), Err(FocusError::NoTargetInDirection));
    assert_eq!(t.0.focus(Direction::Left), Ok(()));
    assert_eq!(t.0.active(), Some(v1));
    assert_eq!(t.0.focus(Direction::Left), Err(FocusError::NoTargetInDirection));
    assert_eq!(t.0.active(), Some(v1));
}

#[test]
fn move_active_swaps_with_the_sibling() {
    let (mut t, v1, v2, c) = two_views();
    // active is v2, sitting right of v1: move it left
    assert_eq!(t.0.move_active(Direction::Left), Ok(()));
    assert_eq!(t.0.children_of(c), vec![v2, v1]);
    // each view kept its own extent; only the slots changed
    assert_eq!(t.0.rect_at(v2), Some(Rect { x: 0, y: 0, w: 400, h: 600 }));
    assert_eq!(t.0.rect_at(v1), Some(Rect { x: 400, y: 0, w: 400, h: 600 }));
    assert_eq!(t.0.active(), Some(v2));
    assert_eq!(t.0.move_active(Direction::Left), Err(MovementError::NoTargetInDirection));
}

#[test]
fn move_active_round_trips() {
    let (mut t, v1, v2, c) = two_views();
    let r1 = t.0.rect_at(v1);
    let r2 = t.0.rect_at(v2);
    assert_eq!(t.0.move_active(Direction::Left), Ok(()));
    assert_eq!(t.0.move_active(Direction::Right), Ok(()));
    // the prior sibling order and both rectangles are restored
    assert_eq!(t.0.children_of(c), vec![v1, v2]);
    assert_eq!(t.0.rect_at(v1), r1);
    assert_eq!(t.0.rect_at(v2), r2);
    assert_eq!(t.0.active(), Some(v2));
}

#[test]
fn resize_trades_space_between_siblings() {
    let (mut t, v1, v2, _c) = two_views();
    // active v2 at the right: move it left first so it has a right sibling
    t.0.move_active(Direction::Left).unwrap();
    assert_eq!(t.0.resize_active(Direction::Right, 50), Ok(()));
    assert_eq!(t.0.rect_at(v2), Some(Rect { x: 0, y: 0, w: 450, h: 600 }));
    assert_eq!(t.0.rect_at(v1), Some(Rect { x: 450, y: 0, w: 350, h: 600 }));
}

#[test]
fn resize_violating_min_size_changes_nothing() {
    let (mut t, v1, v2, c) = two_views();
    t.0.move_active(Direction::Left).unwrap();
    let r1 = t.0.rect_at(v1);
    let r2 = t.0.rect_at(v2);
    // 400 - 395 = 5 < MIN_SIZE: the whole resize is refused
    assert_eq!(t.0.resize_active(Direction::Right, 395), Err(ResizeErr::TooSmall));
    assert_eq!(t.0.rect_at(v1), r1);
    assert_eq!(t.0.rect_at(v2), r2);
    assert_eq!(t.0.children_of(c), vec![v2, v1]);
    assert_eq!(t.0.resize_active(Direction::Up, 10), Err(ResizeErr::NoSiblingInDirection));
    assert_eq!(t.0.rect_at(v1), r1);
}

#[test]
fn full_session_scenario() {
    let mut t = Tree::new();
    let o1 = t.0.add_output(1).unwrap();
    let w = t.0.add_workspace(o1, "1".to_string(), ws_rect()).unwrap();
    let v1 = t.0.add_view(w, handle(100, "v1")).unwrap();
    t.0.set_active(v1).unwrap();
    assert_eq!(t.0.focus(Direction::Down), Err(FocusError::NoTargetInDirection));
    let v2 = t.0.add_view(v1, handle(101, "v2")).unwrap();
    let c = t.0.parent_of(v1).unwrap();
    assert_eq!(t.0.children_of(c), vec![v1, v2]);
    assert_eq!(t.0.move_active(Direction::Left), Ok(()));
    assert_eq!(t.0.children_of(c), vec![v2, v1]);
    assert_eq!(t.0.resize_active(Direction::Right, 50), Ok(()));
    let r2 = t.0.rect_at(v2).unwrap();
    let r1 = t.0.rect_at(v1).unwrap();
    assert_eq!(r2.w, 450);
    assert_eq!(r1.w, 350);
    assert!(r1.w >= MIN_SIZE && r2.w >= MIN_SIZE);
    assert_eq!(r1.x, r2.x + r2.w);
}

#[test]
fn removing_a_view_gives_its_slot_to_the_neighbour() {
    let (mut t, v1, v2, c) = two_views();
    // v2 (the active, right view) goes; v1 absorbs its slot
    let removed = t.0.remove_view(v2).unwrap();
    match removed {
        Container::View { id, .. } => assert_eq!(id, 2),
        _ => panic!("expected the view payload back"),
    }
    assert_eq!(t.0.children_of(c), vec![v1]);
    assert_eq!(t.0.rect_at(v1), Some(ws_rect()));
    assert_eq!(t.0.active(), None);
}

#[test]
fn removing_the_first_view_grows_the_next_leftwards() {
    let (mut t, v1, v2, c) = two_views();
    let removed = t.0.remove_view(v1).unwrap();
    match removed {
        Container::View { id, .. } => assert_eq!(id, 0),
        _ => panic!("expected the view payload back"),
    }
    assert_eq!(t.0.children_of(c), vec![v2]);
    assert_eq!(t.0.rect_at(v2), Some(ws_rect()));
    // the active view v2 survives untouched
    assert_eq!(t.0.active(), Some(v2));
}

#[test]
fn removing_the_last_view_dissolves_the_split() {
    let (mut t, v1, v2, c) = two_views();
    let w = t.0.parent_of(c).unwrap();
    t.0.remove_view(v2).unwrap();
    // the split held only v1 now: removing it dissolves the container too,
    // re-parenting no surviving siblings (none remain)
    t.0.remove_view(v1).unwrap();
    assert_eq!(t.0.parent_of(c), None);
    assert_eq!(t.0.children_of(w), Vec::<usize>::new());
    assert_eq!(t.0.active(), None);
}

#[test]
fn removing_a_workspace_view_leaves_the_workspace() {
    let mut t = Tree::new();
    let o1 = t.0.add_output(1).unwrap();
    let w = t.0.add_workspace(o1, "1".to_string(), ws_rect()).unwrap();
    let v1 = t.0.add_view(w, handle(100, "v1")).unwrap();
    assert!(t.0.remove_view(v1).is_ok());
    assert_eq!(t.0.children_of(w), Vec::<usize>::new());
    assert_eq!(t.0.parent_of(w), Some(o1));
    assert_eq!(t.0.active(), None);
    assert!(matches!(t.0.remove_view(v1), Err(TreeError::NodeNotFound)));
    assert!(matches!(t.0.remove_view(w), Err(TreeError::WrongContainerType)));
}

#[test]
fn shift_reports_each_edge_exactly() {
    let mut it = InnerTree::new();
    let a = it.add_node(0, Container::Output { output_id: 1 }).unwrap();
    assert_eq!(it.shift(a, ShiftDirection::Forward), Err(GraphError::AtEdge));
    assert_eq!(it.shift(a, ShiftDirection::Backward), Err(GraphError::AtEdge));
    assert_eq!(it.shift(0, ShiftDirection::Forward), Err(GraphError::RootImmobile));
    assert_eq!(it.shift(9, ShiftDirection::Forward), Err(GraphError::StaleIndex));
}

#[test]
fn display_mirrors_the_tree() {
    let (t, _v1, _v2, _c) = two_views();
    let rep = t.0.to_display_representation();
    // Root -> Output -> Workspace "1" -> Container -> [v1, v2]
    let outputs = match &rep {
        DisplayNode::Section { tag, children } => {
            assert_eq!(*tag, DisplayTag::Other { kind: layout_tree::container::ContainerType::Root });
            children
        }
        _ => panic!("root renders as a section"),
    };
    assert_eq!(outputs.len(), 1);
    let workspaces = match &outputs[0] {
        DisplayNode::Section { tag, children } => {
            assert_eq!(*tag, DisplayTag::Other { kind: layout_tree::container::ContainerType::Output });
            children
        }
        _ => panic!("output renders as a section"),
    };
    let splits = match &workspaces[0] {
        DisplayNode::Section { tag, children } => {
            assert_eq!(*tag, DisplayTag::Workspace { name: "1".to_string() });
            children
        }
        _ => panic!("workspace renders as a section"),
    };
    let views = match &splits[0] {
        DisplayNode::Section { tag, children } => {
            assert_eq!(*tag, DisplayTag::Split { layout: Layout::Horizontal, id: 1 });
            children
        }
        _ => panic!("split renders as a section"),
    };
    assert_eq!(views.len(), 2);
    assert_eq!(
        views[0],
        DisplayNode::ViewLeaf { title: "v1".to_string(), class: "term".to_string(), id: 0 }
    );
    assert_eq!(
        views[1],
        DisplayNode::ViewLeaf { title: "v2".to_string(), class: "term".to_string(), id: 2 }
    );
}

#[test]
fn display_is_restored_by_a_move_round_trip() {
    let (mut t, _v1, _v2, _c) = two_views();
    let before = t.0.to_display_representation();
    assert_eq!(t.0.move_active(Direction::Left), Ok(()));
    let mid = t.0.to_display_representation();
    assert_ne!(mid, before);
    assert_eq!(t.0.move_active(Direction::Right), Ok(()));
    let after = t.0.to_display_representation();
    // the second move inverted the first: nesting and child order match
    assert_eq!(after, before);
}

#[test]
fn display_forgets_a_dissolved_split() {
    let (mut t, v1, v2, _c) = two_views();
    let mut fresh = Tree::new();
    let o1 = fresh.0.add_output(1).unwrap();
    let w = fresh.0.add_workspace(o1, "1".to_string(), ws_rect()).unwrap();
    fresh.0.add_view(w, handle(100, "v1")).unwrap();
    let one_view = fresh.0.to_display_representation();
    // drop v2 (its slot flows back to v1), then v1 (the split dissolves):
    // neither the views nor the split appear any more, and what remains is
    // the pre-split shape but for the views
    t.0.remove_view(v2).unwrap();
    let merged = t.0.to_display_representation();
    assert_ne!(merged, one_view);  // ids differ, but shapes match pre-split
    t.0.remove_view(v1).unwrap();
    let emptied = t.0.to_display_representation();
    let mut bare = Tree::new();
    let o2 = bare.0.add_output(1).unwrap();
    bare.0.add_workspace(o2, "1".to_string(), ws_rect()).unwrap();
    assert_eq!(emptied, bare.0.to_display_representation());
}
