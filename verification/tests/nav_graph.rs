use rill::attach::{Frame, RefuseReason};
use rill::kernel::error::Error;
use rill::kernel::pty::Winsize;
use rill::kernel::session::{FrameEffect, SessionCore};
use rill::kernel::graph::{GraphEventKind, NodeChild, NodeKind, SessionGraph, SessionId};

#[test]
fn t_nav_topology_snapshot_reflects_created_nodes_and_leaves() {
    let mut graph = SessionGraph::new();
    let workspace = graph.create_node(NodeKind::Workspace, None).expect("create workspace");
    let tab = graph.create_node(NodeKind::Tab, Some(workspace)).expect("create tab under workspace");
    let leaf = graph.add_leaf();
    graph.attach_leaf(tab, leaf).expect("attach leaf to tab");

    let snapshot = graph.container_snapshot();
    let ws_row = snapshot.iter().find(|n| n.id == workspace).expect("workspace node missing from snapshot");
    assert_eq!(ws_row.kind, NodeKind::Workspace);
    assert!(ws_row.parent.is_none());
    assert!(ws_row.children.contains(&NodeChild::Node(tab)));

    let tab_row = snapshot.iter().find(|n| n.id == tab).expect("tab node missing from snapshot");
    assert_eq!(tab_row.parent, Some(workspace));
    assert!(tab_row.children.contains(&NodeChild::Leaf(leaf)));
}

#[test]
fn t_nav_close_terminates_only_the_closed_subtrees_leaves() {
    let mut graph = SessionGraph::new();
    let ws_a = graph.create_node(NodeKind::Workspace, None).expect("ws a");
    let tab_a = graph.create_node(NodeKind::Tab, Some(ws_a)).expect("tab a");
    let leaf_a = graph.add_leaf();
    graph.attach_leaf(tab_a, leaf_a).expect("attach a");

    let ws_b = graph.create_node(NodeKind::Workspace, None).expect("ws b");
    let tab_b = graph.create_node(NodeKind::Tab, Some(ws_b)).expect("tab b");
    let leaf_b = graph.add_leaf();
    graph.attach_leaf(tab_b, leaf_b).expect("attach b");

    let doomed = graph.subtree_leaves(ws_a).expect("close workspace a");
    assert_eq!(doomed, vec![leaf_a], "closing workspace A must terminate leaf A and only leaf A");
    graph.remove_subtree(ws_a).expect("remove a");

    let snapshot = graph.container_snapshot();
    assert!(!snapshot.iter().any(|n| n.id == ws_a || n.id == tab_a), "closed subtree is still present");
    assert!(snapshot.iter().any(|n| n.id == ws_b), "unrelated workspace B was removed by closing A");
    assert!(graph.has_leaf(leaf_b));
}

#[test]
fn t_nav_reparent_preserves_session_identity() {
    let mut graph = SessionGraph::new();
    let ws_a = graph.create_node(NodeKind::Workspace, None).expect("ws a");
    let ws_b = graph.create_node(NodeKind::Workspace, None).expect("ws b");
    let tab = graph.create_node(NodeKind::Tab, Some(ws_a)).expect("tab under a");
    let leaf = graph.add_leaf();
    graph.attach_leaf(tab, leaf).expect("attach leaf");

    graph.reparent_node(tab, Some(ws_b)).expect("reparent tab from a to b");

    let snapshot = graph.container_snapshot();
    let moved = snapshot.iter().find(|n| n.id == tab).expect("reparented node keeps its id");
    assert_eq!(moved.parent, Some(ws_b));
    assert!(moved.children.contains(&NodeChild::Leaf(leaf)));
    let ws_a_row = snapshot.iter().find(|n| n.id == ws_a).expect("ws a row");
    assert!(!ws_a_row.children.contains(&NodeChild::Node(tab)));
    let ws_b_row = snapshot.iter().find(|n| n.id == ws_b).expect("ws b row");
    assert!(ws_b_row.children.contains(&NodeChild::Node(tab)));
}

#[test]
fn unknown_ids_fail_closed() {
    let mut graph = SessionGraph::new();
    let ws = graph.create_node(NodeKind::Workspace, None).expect("ws");
    let leaf = graph.add_leaf();
    let stranger = SessionId::from_u64(99);
    assert!(graph.attach_leaf(ws, stranger).is_err());
    graph.remove_subtree(ws).expect("remove");
    assert!(graph.create_node(NodeKind::Tab, Some(ws)).is_err());
    assert!(graph.attach_leaf(ws, leaf).is_err());
    assert!(graph.reparent_node(ws, None).is_err());
    assert!(graph.subtree_leaves(ws).is_err());
}

#[test]
fn a_node_cannot_be_its_own_parent() {
    let mut graph = SessionGraph::new();
    let ws = graph.create_node(NodeKind::Workspace, None).expect("ws");
    assert!(graph.reparent_node(ws, Some(ws)).is_err());
}

#[test]
fn ids_start_at_one_and_events_number_in_order() {
    let mut graph = SessionGraph::new();
    let a = graph.add_leaf();
    let b = graph.add_leaf();
    assert_eq!(a.as_u64(), 1);
    assert_eq!(b.as_u64(), 2);
    graph.record(a, GraphEventKind::Terminate);
    let events = graph.events();
    assert_eq!(events.len(), 3);
    assert_eq!(events[0].id, 1);
    assert_eq!(events[2].id, 3);
    assert_eq!(events[2].kind, GraphEventKind::Terminate);
    assert_eq!(graph.ids(), vec![a, b]);
    let n = graph.create_node(NodeKind::Split, None).expect("split");
    assert_eq!(n.as_u64(), 1);
}

#[test]
fn nested_subtree_collects_every_leaf() {
    let mut graph = SessionGraph::new();
    let ws = graph.create_node(NodeKind::Workspace, None).expect("ws");
    let group = graph.create_node(NodeKind::Group, Some(ws)).expect("group");
    let split = graph.create_node(NodeKind::Split, Some(group)).expect("split");
    let l1 = graph.add_leaf();
    let l2 = graph.add_leaf();
    graph.attach_leaf(split, l1).expect("l1");
    graph.attach_leaf(ws, l2).expect("l2");
    let mut leaves = graph.subtree_leaves(ws).expect("leaves");
    leaves.sort_by_key(|l| l.as_u64());
    assert_eq!(leaves, vec![l1, l2]);
    assert_eq!(graph.subtree_leaves(group).expect("group"), vec![l1]);
    graph.remove_subtree(group).expect("remove group");
    let snap = graph.container_snapshot();
    assert_eq!(snap.len(), 1);
    assert_eq!(snap[0].children, vec![NodeChild::Leaf(l2)]);
}

#[test]
fn writer_attach_is_recorded_once_and_a_second_writer_is_refused() {

    let mut graph = SessionGraph::new();
    let a = graph.add_leaf();
    let mut core = SessionCore::new(Winsize::default());
    assert_eq!(graph.on_leaf_frame(a, &mut core, Frame::attach(1, None)), Ok(FrameEffect::Done));
    assert!(core.attached());
    assert_eq!(graph.on_leaf_frame(a, &mut core, Frame::attach(2, None)), Ok(FrameEffect::Done));
    assert!(core.attached(), "the refusal disturbed the first client");
    assert_eq!(core.pop_outbound(), Some(Frame::Refused { reason: RefuseReason::AlreadyAttached }));
    let attaches: Vec<_> = graph.events().iter().filter(|e| e.kind == GraphEventKind::Attach).collect();
    assert_eq!(attaches.len(), 1);
    assert_eq!(attaches[0].session, a);
}

#[test]
fn attach_to_a_second_leaf_is_accepted_and_unknown_leaves_fail_closed() {

    let mut graph = SessionGraph::new();
    let a = graph.add_leaf();
    let b = graph.add_leaf();
    let mut core_a = SessionCore::new(Winsize::default());
    let mut core_b = SessionCore::new(Winsize::default());
    graph.on_leaf_frame(a, &mut core_a, Frame::attach(1, None)).expect("attach A");
    graph.on_leaf_frame(b, &mut core_b, Frame::attach(1, None)).expect("attach B");
    assert!(core_a.attached() && core_b.attached());
    assert_eq!(core_b.pop_outbound(), None, "B's attach was refused");
    assert_eq!(graph.events().len(), 4);

    let mut stray = SessionCore::new(Winsize::default());
    let r = graph.on_leaf_frame(SessionId::from_u64(99), &mut stray, Frame::attach(1, None));
    assert_eq!(r, Err(Error::UnknownSession));
    assert!(!stray.attached());
    assert_eq!(graph.events().len(), 4);
}

#[test]
fn observer_attach_records_no_event() {

    let mut graph = SessionGraph::new();
    let a = graph.add_leaf();
    let mut core = SessionCore::new(Winsize::default());
    let observe = Frame::Attach { generation: 1, session_id: None, protocol: 2, observe: true };
    graph.on_leaf_frame(a, &mut core, observe).expect("observe");
    assert!(!core.attached());
    assert_eq!(graph.events().len(), 1);
}

#[test]
fn a_child_exit_is_recorded_once() {

    let mut graph = SessionGraph::new();
    let a = graph.add_leaf();
    let mut core = SessionCore::new(Winsize::default());
    graph.on_leaf_frame(a, &mut core, Frame::attach(1, None)).expect("attach");
    assert!(graph.on_leaf_exit(a, &mut core, 7));
    assert!(!graph.on_leaf_exit(a, &mut core, 9));
    assert_eq!(core.exit_status(), Some(7));
    let exits = graph.events().iter().filter(|e| e.kind == GraphEventKind::Exit).count();
    assert_eq!(exits, 1);
    assert_eq!(core.pop_outbound(), Some(Frame::Exit { status: 7 }));
}

#[test]
fn session_ids_with_one_number_are_equal() {
    assert_eq!(SessionId::from_u64(5), SessionId::from_u64(5));
    assert_ne!(SessionId::from_u64(5), SessionId::from_u64(6));
    assert_eq!(SessionId::from_u64(u64::MAX).as_u64(), u64::MAX);
}
