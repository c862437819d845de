//! Session graph: the leaf ids this kernel owns, the container tree over
//! them, and the log of graph events. Creating a leaf is a cold call; the
//! process behind a leaf is the caller's.

use vstd::prelude::*;
use crate::kernel::error::Error;
use crate::kernel::ids::{allocate, successor, first_free};
use crate::attach::{Frame, FrameView};
use crate::kernel::session::{SessionCore, SessionView, FrameEffect, on_frame_spec, exited};

verus! {

/// Opaque kernel-allocated leaf id. Not a path, a title, or a GUI index.
#[derive(Clone, Copy, Debug, PartialEq, Eq, Structural, Hash)]
pub struct SessionId(u64);

impl SessionId {
    /// The number behind the id.
    pub closed spec fn value(self) -> u64 {
        self.0
    }

    pub fn as_u64(self) -> (r: u64)
        ensures
            r == self.value(),
    {
        self.0
    }

    pub fn from_u64(v: u64) -> (r: Self)
        ensures
            r.value() == v,
    {
        SessionId(v)
    }

    /// An id is its number: two ids with one number are the same id.
    pub proof fn lemma_value_injective(self, other: SessionId)
        ensures
            self.value() == other.value() <==> self == other,
    {
    }
}

/// Kernel-allocated container id; a distinct type from `SessionId`.
#[derive(Clone, Copy, Debug, PartialEq, Eq, Structural, Hash)]
pub struct NodeId(u64);

impl NodeId {
    /// The number behind the id.
    pub closed spec fn value(self) -> u64 {
        self.0
    }

    pub fn as_u64(self) -> (r: u64)
        ensures
            r == self.value(),
    {
        self.0
    }

    /// An id is its number: two ids with one number are the same id.
    pub proof fn lemma_value_injective(self, other: NodeId)
        ensures
            self.value() == other.value() <==> self == other,
    {
    }
}

#[derive(Clone, Copy, Debug, PartialEq, Eq, Structural)]
pub enum GraphEventKind {
    Spawn,
    Attach,
    Terminate,
    Exit,
}

/// One entry of the graph's event log, with its stable id.
#[derive(Clone, Copy, Debug, PartialEq, Eq, Structural)]
pub struct GraphEvent {
    pub id: u64,
    pub session: SessionId,
    pub kind: GraphEventKind,
}

/// Kernel layout row for one leaf. Not window chrome.
#[derive(Clone, Debug)]
pub struct LeafLayout {
    pub id: SessionId,
    pub cols: u16,
    pub rows: u16,
    pub child_pid: u32,
    pub cwd: Option<String>,
}

/// The container kinds. A leaf is not a node kind; it is referenced from a
/// node as a child.
#[derive(Clone, Copy, Debug, PartialEq, Eq, Structural)]
pub enum NodeKind {
    Workspace,
    Group,
    Tab,
    Split,
}

/// One child slot of a container: another container, or a leaf.
#[derive(Clone, Copy, Debug, PartialEq, Eq, Structural)]
pub enum NodeChild {
    Node(NodeId),
    Leaf(SessionId),
}

/// Read-only projection of one container.
#[derive(Clone, Debug)]
pub struct ContainerSnapshot {
    pub id: NodeId,
    pub kind: NodeKind,
    pub parent: Option<NodeId>,
    pub children: Vec<NodeChild>,
}

struct ContainerNode {
    id: NodeId,
    kind: NodeKind,
    parent: Option<NodeId>,
    children: Vec<NodeChild>,
}

/// A container as a value.
pub struct NodeView {
    pub kind: NodeKind,
    pub parent: Option<NodeId>,
    pub children: Seq<NodeChild>,
}

impl ContainerNode {
    spec fn view(self) -> NodeView {
        NodeView { kind: self.kind, parent: self.parent, children: self.children@ }
    }
}

/// The graph as a value.
pub struct GraphView {
    pub leaves: Set<SessionId>,
    pub nodes: Map<NodeId, NodeView>,
    pub events: Seq<GraphEvent>,
    pub next: u64,
    pub next_node: u64,
    pub next_event: u64,
}

spec fn nodes_sorted(s: Seq<ContainerNode>) -> bool {
    forall|i: int, j: int| 0 <= i < j < s.len() ==> s[i].id.0 < s[j].id.0
}

spec fn leaves_sorted(s: Seq<SessionId>) -> bool {
    forall|i: int, j: int| 0 <= i < j < s.len() ==> s[i].0 < s[j].0
}

spec fn no_self_parent(s: Seq<ContainerNode>) -> bool {
    forall|i: int| #![trigger s[i]] 0 <= i < s.len() ==> s[i].parent != Some(s[i].id)
}

spec fn holds_node(s: Seq<ContainerNode>, k: NodeId) -> bool {
    exists|i: int| 0 <= i < s.len() && s[i].id == k
}

spec fn node_map(s: Seq<ContainerNode>) -> Map<NodeId, NodeView> {
    Map::new(
        |k: NodeId| holds_node(s, k),
        |k: NodeId| s[choose|i: int| 0 <= i < s.len() && s[i].id == k].view(),
    )
}

/// The ids of a node table, in table order.
spec fn node_numbers(s: Seq<ContainerNode>) -> Seq<u64> {
    s.map_values(|n: ContainerNode| n.id.0)
}

spec fn leaf_numbers(s: Seq<SessionId>) -> Seq<u64> {
    s.map_values(|l: SessionId| l.0)
}

/// `c` with every reference to container `n` taken out, order kept.
pub open spec fn without_node(c: Seq<NodeChild>, n: NodeId) -> Seq<NodeChild>
    decreases c.len(),
{
    if c.len() == 0 {
        c
    } else {
        let rest = without_node(c.drop_last(), n);
        if c.last() == NodeChild::Node(n) {
            rest
        } else {
            rest.push(c.last())
        }
    }
}

/// `m` with `child` appended to the children of `at`.
pub open spec fn with_child(m: Map<NodeId, NodeView>, at: NodeId, child: NodeChild) -> Map<NodeId, NodeView> {
    m.insert(at, NodeView { children: m[at].children.push(child), ..m[at] })
}

/// `m` with container `n` dropped from the children of `at`, when `at` is
/// in `m`.
pub open spec fn without_child(m: Map<NodeId, NodeView>, at: NodeId, n: NodeId) -> Map<NodeId, NodeView> {
    if m.contains_key(at) {
        m.insert(at, NodeView { children: without_node(m[at].children, n), ..m[at] })
    } else {
        m
    }
}

proof fn lemma_node_map_entry(s: Seq<ContainerNode>, i: int)
    requires
        nodes_sorted(s),
        0 <= i < s.len(),
    ensures
        node_map(s).contains_key(s[i].id),
        node_map(s)[s[i].id] == s[i].view(),
{
    assert(holds_node(s, s[i].id));
    let j = choose|j: int| 0 <= j < s.len() && s[j].id == s[i].id;
    if j != i {
        assert(s[j].id.0 == s[i].id.0);
    }
}

proof fn lemma_node_map_all(s: Seq<ContainerNode>)
    requires
        nodes_sorted(s),
    ensures
        forall|i: int| #![trigger s[i]] 0 <= i < s.len() ==> node_map(s).contains_key(s[i].id)
            && node_map(s)[s[i].id] == s[i].view(),
{
    assert forall|i: int| #![trigger s[i]] 0 <= i < s.len() implies node_map(s).contains_key(s[i].id)
        && node_map(s)[s[i].id] == s[i].view() by {
        lemma_node_map_entry(s, i);
    }
}

/// Replacing the entry at `i` by one with the same id updates the map at
/// that id.
proof fn lemma_node_map_update(s: Seq<ContainerNode>, i: int, n: ContainerNode)
    requires
        nodes_sorted(s),
        0 <= i < s.len(),
        n.id == s[i].id,
    ensures
        nodes_sorted(s.update(i, n)),
        node_map(s.update(i, n)) == node_map(s).insert(n.id, n.view()),
{
    let t = s.update(i, n);
    assert(nodes_sorted(t));
    lemma_node_map_all(s);
    lemma_node_map_all(t);
    assert forall|k: NodeId| #![auto] holds_node(t, k) <==> holds_node(s, k) by {
        if holds_node(t, k) {
            let j = choose|j: int| 0 <= j < t.len() && t[j].id == k;
            assert(s[j].id == k);
        }
        if holds_node(s, k) {
            let j = choose|j: int| 0 <= j < s.len() && s[j].id == k;
            assert(t[j].id == k);
        }
    }
    assert(node_map(t) =~= node_map(s).insert(n.id, n.view())) by {
        assert forall|k: NodeId| #![auto] node_map(t).contains_key(k) implies node_map(t)[k]
            == node_map(s).insert(n.id, n.view())[k] by {
            let j = choose|j: int| 0 <= j < t.len() && t[j].id == k;
            assert(t[j] == t[j]);
            assert(s[j] == s[j]);
        }
    }
}

/// Inserting an entry with a fresh id keeps the table sorted when it lands
/// in order, and adds that id to the map.
proof fn lemma_node_map_insert(s: Seq<ContainerNode>, pos: int, n: ContainerNode)
    requires
        nodes_sorted(s),
        0 <= pos <= s.len(),
        forall|j: int| 0 <= j < pos ==> s[j].id.0 < n.id.0,
        forall|j: int| pos <= j < s.len() ==> n.id.0 < s[j].id.0,
    ensures
        nodes_sorted(s.insert(pos, n)),
        node_map(s.insert(pos, n)) == node_map(s).insert(n.id, n.view()),
        !node_map(s).contains_key(n.id),
{
    let t = s.insert(pos, n);
    assert(nodes_sorted(t));
    lemma_node_map_all(s);
    lemma_node_map_all(t);
    assert(!holds_node(s, n.id)) by {
        if holds_node(s, n.id) {
            let j = choose|j: int| 0 <= j < s.len() && s[j].id == n.id;
            assert(s[j].id.0 == n.id.0);
        }
    }
    assert forall|k: NodeId| #![auto] holds_node(t, k) <==> (holds_node(s, k) || k == n.id) by {
        if holds_node(t, k) {
            let j = choose|j: int| 0 <= j < t.len() && t[j].id == k;
            if j < pos {
                assert(s[j].id == k);
            } else if j > pos {
                assert(s[j - 1].id == k);
            }
        }
        if holds_node(s, k) {
            let j = choose|j: int| 0 <= j < s.len() && s[j].id == k;
            if j < pos {
                assert(t[j].id == k);
            } else {
                assert(t[j + 1].id == k);
            }
        }
        if k == n.id {
            assert(t[pos].id == k);
        }
    }
    assert(node_map(t) =~= node_map(s).insert(n.id, n.view())) by {
        assert forall|k: NodeId| #![auto] node_map(t).contains_key(k) implies node_map(t)[k]
            == node_map(s).insert(n.id, n.view())[k] by {
            let j = choose|j: int| 0 <= j < t.len() && t[j].id == k;
            if j < pos {
                assert(t[j] == s[j]);
            } else if j > pos {
                assert(t[j] == s[j - 1]);
            }
        }
    }
}


/// `v` with one more event for `session`: it takes the next event id, and
/// the event counter moves on, saturating at `u64::MAX`.
pub open spec fn recorded(v: GraphView, session: SessionId, kind: GraphEventKind) -> GraphView {
    GraphView {
        events: v.events.push(GraphEvent { id: v.next_event, session, kind }),
        next_event: if v.next_event == u64::MAX {
            u64::MAX
        } else {
            (v.next_event + 1) as u64
        },
        ..v
    }
}

/// The numbers behind a set of leaf ids.
pub open spec fn leaf_number_set(leaves: Set<SessionId>) -> Set<u64> {
    leaves.map(|l: SessionId| l.value())
}

/// The numbers behind the ids of a container table.
pub open spec fn node_number_set(nodes: Map<NodeId, NodeView>) -> Set<u64> {
    nodes.dom().map(|n: NodeId| n.value())
}

/// `m` after creating container `id` of `kind` under `parent`: a new entry
/// with no children, listed last among its parent's children.
pub open spec fn created(m: Map<NodeId, NodeView>, id: NodeId, kind: NodeKind, parent: Option<NodeId>) -> Map<NodeId, NodeView> {
    let m1 = m.insert(id, NodeView { kind, parent, children: Seq::empty() });
    match parent {
        Some(p) => with_child(m1, p, NodeChild::Node(id)),
        None => m1,
    }
}

/// `m` after moving container `node` under `new_parent`: dropped from the
/// children of its old parent (when that parent is in `m`), appended to the
/// children of the new one, and its parent pointer set.
pub open spec fn reparented(m: Map<NodeId, NodeView>, node: NodeId, new_parent: Option<NodeId>) -> Map<NodeId, NodeView> {
    let m1 = match m[node].parent {
        Some(op) => without_child(m, op, node),
        None => m,
    };
    let m2 = match new_parent {
        Some(p) => with_child(m1, p, NodeChild::Node(node)),
        None => m1,
    };
    m2.insert(node, NodeView { parent: new_parent, ..m2[node] })
}

proof fn lemma_insert_to_set<A>(s: Seq<A>, pos: int, x: A)
    requires
        0 <= pos <= s.len(),
    ensures
        s.insert(pos, x).to_set() == s.to_set().insert(x),
{
    let t = s.insert(pos, x);
    assert forall|y: A| #![auto] t.to_set().contains(y) <==> s.to_set().insert(x).contains(y) by {
        if t.contains(y) {
            let j = choose|j: int| 0 <= j < t.len() && t[j] == y;
            if j < pos {
                assert(s[j] == y);
                assert(s.contains(y));
            } else if j > pos {
                assert(s[j - 1] == y);
                assert(s.contains(y));
            }
        }
        if s.contains(y) {
            let j = choose|j: int| 0 <= j < s.len() && s[j] == y;
            if j < pos {
                assert(t[j] == y);
            } else {
                assert(t[j + 1] == y);
            }
            assert(t.contains(y));
        }
        if y == x {
            assert(t[pos] == y);
            assert(t.contains(y));
        }
    }
    assert(t.to_set() =~= s.to_set().insert(x));
}

/// A copy of `v` without the references to container `n`.
fn without_node_vec(v: &Vec<NodeChild>, n: NodeId) -> (r: Vec<NodeChild>)
    ensures
        r@ == without_node(v@, n),
{
    let mut r: Vec<NodeChild> = Vec::new();
    let mut i: usize = 0;
    while i < v.len()
        invariant
            i <= v@.len(),
            r@ == without_node(v@.subrange(0, i as int), n),
        decreases v@.len() - i,
    {
        let c = v[i];
        proof {
            let t = v@.subrange(0, i + 1);
            assert(t.drop_last() =~= v@.subrange(0, i as int));
            assert(t.last() == c);
        }
        match c {
            NodeChild::Node(m) => {
                if m.0 != n.0 {
                    r.push(c);
                }
            },
            NodeChild::Leaf(_) => {
                r.push(c);
            },
        }
        i = i + 1;
    }
    assert(v@.subrange(0, v@.len() as int) =~= v@);
    r
}

/// A copy of a children list.
fn copy_children(v: &Vec<NodeChild>) -> (r: Vec<NodeChild>)
    ensures
        r@ == v@,
{
    let mut r: Vec<NodeChild> = Vec::new();
    let mut i: usize = 0;
    while i < v.len()
        invariant
            i <= v@.len(),
            r@ == v@.subrange(0, i as int),
        decreases v@.len() - i,
    {
        r.push(v[i]);
        i = i + 1;
    }
    assert(r@ =~= v@);
    r
}


/// `s` holds `root` and, with each container of `m` it holds, every
/// container child of it that `m` holds.
pub open spec fn closed_from(m: Map<NodeId, NodeView>, root: NodeId, s: Set<NodeId>) -> bool {
    &&& s.contains(root)
    &&& forall|x: NodeId, i: int|
        #![trigger s.contains(x), m[x].children[i]]
        s.contains(x) && m.contains_key(x) && 0 <= i < m[x].children.len() && m[x].children[i] is Node
            && m.contains_key(m[x].children[i]->Node_0) ==> s.contains(m[x].children[i]->Node_0)
}

/// The containers reachable from `root` through container children: the
/// least set closed from `root`.
pub open spec fn subtree(m: Map<NodeId, NodeView>, root: NodeId) -> Set<NodeId> {
    Set::new(|x: NodeId| forall|s: Set<NodeId>| #[trigger] closed_from(m, root, s) ==> s.contains(x))
}

/// The leaves listed directly under some container of `xs`.
pub open spec fn leaves_under(m: Map<NodeId, NodeView>, xs: Set<NodeId>) -> Set<SessionId> {
    Set::new(
        |l: SessionId|
            exists|x: NodeId, i: int|
                #![trigger xs.contains(x), m[x].children[i]]
                xs.contains(x) && m.contains_key(x) && 0 <= i < m[x].children.len() && m[x].children[i]
                    == NodeChild::Leaf(l),
    )
}

/// `m` after closing `root`: `root` dropped from its parent's children and
/// every container of its subtree removed.
pub open spec fn closed_off(m: Map<NodeId, NodeView>, root: NodeId) -> Map<NodeId, NodeView> {
    let m1 = match m[root].parent {
        Some(p) => without_child(m, p, root),
        None => m,
    };
    m1.remove_keys(subtree(m, root))
}

/// Every container child of `x` that `m` holds is in `s`.
spec fn closed_at(m: Map<NodeId, NodeView>, x: NodeId, s: Set<NodeId>) -> bool {
    forall|i: int|
        #![trigger m[x].children[i]]
        0 <= i < m[x].children.len() && m[x].children[i] is Node && m.contains_key(m[x].children[i]->Node_0)
            ==> s.contains(m[x].children[i]->Node_0)
}

spec fn node_id_seq(s: Seq<ContainerNode>) -> Seq<NodeId> {
    s.map_values(|n: ContainerNode| n.id)
}

proof fn lemma_node_dom(s: Seq<ContainerNode>)
    requires
        nodes_sorted(s),
    ensures
        node_map(s).dom() == node_id_seq(s).to_set(),
        node_id_seq(s).to_set().finite(),
        node_id_seq(s).to_set().len() == s.len(),
{
    let ids = node_id_seq(s);
    assert forall|a: int, b: int| 0 <= a < ids.len() && 0 <= b < ids.len() && a != b implies ids[a] != ids[b] by {
        if a < b {
            assert(s[a].id.0 < s[b].id.0);
        } else {
            assert(s[b].id.0 < s[a].id.0);
        }
    }
    ids.unique_seq_to_set();
    assert forall|k: NodeId| #![auto] node_map(s).dom().contains(k) <==> ids.to_set().contains(k) by {
        if holds_node(s, k) {
            let j = choose|j: int| 0 <= j < s.len() && s[j].id == k;
            assert(ids[j] == k);
            assert(ids.contains(k));
        }
        if ids.contains(k) {
            let j = choose|j: int| 0 <= j < ids.len() && ids[j] == k;
            assert(s[j].id == k);
        }
    }
    assert(node_map(s).dom() =~= ids.to_set());
}

/// Whether `v` lists `c`.
fn lists_node(v: &Vec<NodeId>, c: NodeId) -> (r: bool)
    ensures
        r == v@.contains(c),
{
    let mut i: usize = 0;
    while i < v.len()
        invariant
            i <= v@.len(),
            forall|j: int| 0 <= j < i ==> v@[j] != c,
        decreases v@.len() - i,
    {
        if v[i].0 == c.0 {
            return true;
        }
        i = i + 1;
    }
    false
}

/// The leaves among the first `j` children in `c`.
spec fn leaf_children(c: Seq<NodeChild>, j: int) -> Set<SessionId> {
    Set::new(|l: SessionId| exists|i: int| 0 <= i < j && #[trigger] c[i] == NodeChild::Leaf(l))
}

proof fn lemma_leaves_under_insert(m: Map<NodeId, NodeView>, xs: Set<NodeId>, x: NodeId)
    ensures
        m.contains_key(x) ==> leaves_under(m, xs.insert(x)) == leaves_under(m, xs).union(
            leaf_children(m[x].children, m[x].children.len() as int),
        ),
        !m.contains_key(x) ==> leaves_under(m, xs.insert(x)) == leaves_under(m, xs),
{
    let ys = xs.insert(x);
    if m.contains_key(x) {
        let lc = leaf_children(m[x].children, m[x].children.len() as int);
        assert forall|l: SessionId| #![auto] leaves_under(m, ys).contains(l) <==> leaves_under(m, xs).union(lc).contains(l) by {
            if leaves_under(m, ys).contains(l) {
                let (y, i) = choose|y: NodeId, i: int|
                    #![trigger ys.contains(y), m[y].children[i]]
                    ys.contains(y) && m.contains_key(y) && 0 <= i < m[y].children.len() && m[y].children[i]
                        == NodeChild::Leaf(l);
                if y == x {
                    assert(lc.contains(l));
                } else {
                    assert(xs.contains(y));
                    assert(leaves_under(m, xs).contains(l));
                }
            }
            if leaves_under(m, xs).contains(l) {
                let (y, i) = choose|y: NodeId, i: int|
                    #![trigger xs.contains(y), m[y].children[i]]
                    xs.contains(y) && m.contains_key(y) && 0 <= i < m[y].children.len() && m[y].children[i]
                        == NodeChild::Leaf(l);
                assert(ys.contains(y));
            }
            if lc.contains(l) {
                let i = choose|i: int| 0 <= i < m[x].children.len() && #[trigger] m[x].children[i] == NodeChild::Leaf(l);
                assert(ys.contains(x));
            }
        }
        assert(leaves_under(m, ys) =~= leaves_under(m, xs).union(lc));
    } else {
        assert forall|l: SessionId| #![auto] leaves_under(m, ys).contains(l) <==> leaves_under(m, xs).contains(l) by {
            if leaves_under(m, ys).contains(l) {
                let (y, i) = choose|y: NodeId, i: int|
                    #![trigger ys.contains(y), m[y].children[i]]
                    ys.contains(y) && m.contains_key(y) && 0 <= i < m[y].children.len() && m[y].children[i]
                        == NodeChild::Leaf(l);
                assert(xs.contains(y));
            }
            if leaves_under(m, xs).contains(l) {
                let (y, i) = choose|y: NodeId, i: int|
                    #![trigger xs.contains(y), m[y].children[i]]
                    xs.contains(y) && m.contains_key(y) && 0 <= i < m[y].children.len() && m[y].children[i]
                        == NodeChild::Leaf(l);
                assert(ys.contains(y));
            }
        }
        assert(leaves_under(m, ys) =~= leaves_under(m, xs));
    }
}

proof fn lemma_push_to_set<A>(s: Seq<A>, x: A)
    ensures
        s.push(x).to_set() == s.to_set().insert(x),
{
    let t = s.push(x);
    assert forall|y: A| #![auto] t.to_set().contains(y) <==> s.to_set().insert(x).contains(y) by {
        if t.contains(y) {
            let k = choose|k: int| 0 <= k < t.len() && t[k] == y;
            if k < s.len() {
                assert(s[k] == y);
                assert(s.contains(y));
            }
        }
        if s.contains(y) {
            let k = choose|k: int| 0 <= k < s.len() && s[k] == y;
            assert(t[k] == y);
        }
        if y == x {
            assert(t[s.len() as int] == y);
        }
    }
    assert(t.to_set() =~= s.to_set().insert(x));
}

pub struct SessionGraph {
    next: u64,
    leaves: Vec<SessionId>,
    events: Vec<GraphEvent>,
    next_event: u64,
    nodes: Vec<ContainerNode>,
    next_node: u64,
}

impl SessionGraph {
    pub closed spec fn view(&self) -> GraphView {
        GraphView {
            leaves: self.leaves@.to_set(),
            nodes: node_map(self.nodes@),
            events: self.events@,
            next: self.next,
            next_node: self.next_node,
            next_event: self.next_event,
        }
    }

    /// The graph's internal invariant: counters never at 0, both tables
    /// kept in strictly increasing id order.
    pub closed spec fn wf(&self) -> bool {
        &&& 1 <= self.next
        &&& 1 <= self.next_node
        &&& nodes_sorted(self.nodes@)
        &&& leaves_sorted(self.leaves@)
        &&& no_self_parent(self.nodes@)
    }

    /// How many containers the table holds.
    pub closed spec fn node_count(&self) -> nat {
        self.nodes@.len()
    }

    /// How many leaves the graph holds.
    pub closed spec fn leaf_count(&self) -> nat {
        self.leaves@.len()
    }

    pub fn new() -> (g: Self)
        ensures
            g.wf(),
            g.view().leaves == Set::<SessionId>::empty(),
            g.view().nodes == Map::<NodeId, NodeView>::empty(),
            g.view().events == Seq::<GraphEvent>::empty(),
            g.view().next == 1,
            g.view().next_node == 1,
            g.view().next_event == 1,
            g.node_count() == 0,
            g.leaf_count() == 0,
    {
        let g = SessionGraph {
            next: 1,
            leaves: Vec::new(),
            events: Vec::new(),
            next_event: 1,
            nodes: Vec::new(),
            next_node: 1,
        };
        assert(g.view().leaves =~= Set::<SessionId>::empty());
        assert(g.view().nodes =~= Map::<NodeId, NodeView>::empty());
        g
    }

    /// Where container `id` sits in the table.
    fn find_node(&self, id: NodeId) -> (r: Option<usize>)
        requires
            self.wf(),
        ensures
            r is None <==> !self.view().nodes.contains_key(id),
            r matches Some(i) ==> i < self.nodes@.len() && self.nodes@[i as int].id == id,
    {
        let mut i: usize = 0;
        while i < self.nodes.len()
            invariant
                i <= self.nodes@.len(),
                forall|j: int| 0 <= j < i ==> self.nodes@[j].id != id,
            decreases self.nodes@.len() - i,
        {
            if self.nodes[i].id.0 == id.0 {
                return Some(i);
            }
            i = i + 1;
        }
        proof {
            if holds_node(self.nodes@, id) {
                let j = choose|j: int| 0 <= j < self.nodes@.len() && self.nodes@[j].id == id;
                assert(self.nodes@[j].id != id);
            }
        }
        None
    }

    /// Whether `id` names a container of this graph.
    pub fn has_node(&self, id: NodeId) -> (r: bool)
        requires
            self.wf(),
        ensures
            r == self.view().nodes.contains_key(id),
    {
        self.find_node(id).is_some()
    }

    /// Whether `id` names a leaf of this graph.
    pub fn has_leaf(&self, id: SessionId) -> (r: bool)
        ensures
            r == self.view().leaves.contains(id),
    {
        let mut i: usize = 0;
        while i < self.leaves.len()
            invariant
                i <= self.leaves@.len(),
                forall|j: int| 0 <= j < i ==> self.leaves@[j] != id,
            decreases self.leaves@.len() - i,
        {
            if self.leaves[i].0 == id.0 {
                assert(self.leaves@.contains(id) ==> self.leaves@.to_set().contains(id));
                return true;
            }
            i = i + 1;
        }
        assert(!self.leaves@.contains(id));
        false
    }

    /// Every leaf id, in increasing order.
    pub fn ids(&self) -> (r: Vec<SessionId>)
        requires
            self.wf(),
        ensures
            r@.to_set() == self.view().leaves,
            r@.len() == self.leaf_count(),
            forall|i: int, j: int| 0 <= i < j < r@.len() ==> r@[i].value() < r@[j].value(),
    {
        let mut r: Vec<SessionId> = Vec::new();
        let mut i: usize = 0;
        while i < self.leaves.len()
            invariant
                i <= self.leaves@.len(),
                r@ == self.leaves@.subrange(0, i as int),
            decreases self.leaves@.len() - i,
        {
            r.push(self.leaves[i]);
            i = i + 1;
        }
        assert(r@ =~= self.leaves@);
        r
    }

    /// The event log, oldest first.
    pub fn events(&self) -> (r: &Vec<GraphEvent>)
        ensures
            r@ == self.view().events,
    {
        &self.events
    }

    /// Append one event with the next event id; the event counter saturates
    /// at `u64::MAX`.
    pub fn record(&mut self, session: SessionId, kind: GraphEventKind)
        requires
            old(self).wf(),
        ensures
            final(self).wf(),
            final(self).view() == recorded(old(self).view(), session, kind),
            final(self).node_count() == old(self).node_count(),
            final(self).leaf_count() == old(self).leaf_count(),
    {
        let id = self.next_event;
        self.next_event = self.next_event.saturating_add(1);
        self.events.push(GraphEvent { id, session, kind });
    }

    /// The numbers of the leaf ids, in table order, for allocation.
    fn leaf_number_list(&self) -> (r: Vec<u64>)
        requires
            self.wf(),
        ensures
            r@ == leaf_numbers(self.leaves@),
            r@.no_duplicates(),
            forall|x: u64| r@.to_set().contains(x) <==> self.view().leaves.contains(SessionId(x)),
    {
        let mut r: Vec<u64> = Vec::new();
        let mut i: usize = 0;
        while i < self.leaves.len()
            invariant
                i <= self.leaves@.len(),
                r@ == leaf_numbers(self.leaves@.subrange(0, i as int)),
            decreases self.leaves@.len() - i,
        {
            r.push(self.leaves[i].0);
            proof {
                assert(leaf_numbers(self.leaves@.subrange(0, i + 1)) =~= leaf_numbers(
                    self.leaves@.subrange(0, i as int),
                ).push(self.leaves@[i as int].0));
            }
            i = i + 1;
        }
        assert(self.leaves@.subrange(0, self.leaves@.len() as int) =~= self.leaves@);
        proof {
            let s = self.leaves@;
            assert forall|a: int, b: int| 0 <= a < r@.len() && 0 <= b < r@.len() && a != b implies r@[a]
                != r@[b] by {
                if a < b {
                    assert(s[a].0 < s[b].0);
                } else {
                    assert(s[b].0 < s[a].0);
                }
            }
            assert forall|x: u64| r@.to_set().contains(x) <==> self.view().leaves.contains(SessionId(x)) by {
                if r@.to_set().contains(x) {
                    assert(r@.contains(x));
                    let j = choose|j: int| 0 <= j < r@.len() && r@[j] == x;
                    assert(s[j] == SessionId(x));
                    assert(s.contains(SessionId(x)));
                }
                if self.view().leaves.contains(SessionId(x)) {
                    assert(s.contains(SessionId(x)));
                    let j = choose|j: int| 0 <= j < s.len() && s[j] == SessionId(x);
                    assert(r@[j] == x);
                    assert(r@.contains(x));
                }
            }
        }
        r
    }

    /// The numbers of the container ids, in table order, for allocation.
    fn node_number_list(&self) -> (r: Vec<u64>)
        requires
            self.wf(),
        ensures
            r@ == node_numbers(self.nodes@),
            r@.no_duplicates(),
            forall|x: u64| r@.to_set().contains(x) <==> self.view().nodes.contains_key(NodeId(x)),
    {
        let mut r: Vec<u64> = Vec::new();
        let mut i: usize = 0;
        while i < self.nodes.len()
            invariant
                i <= self.nodes@.len(),
                r@ == node_numbers(self.nodes@.subrange(0, i as int)),
            decreases self.nodes@.len() - i,
        {
            r.push(self.nodes[i].id.0);
            proof {
                assert(node_numbers(self.nodes@.subrange(0, i + 1)) =~= node_numbers(
                    self.nodes@.subrange(0, i as int),
                ).push(self.nodes@[i as int].id.0));
            }
            i = i + 1;
        }
        assert(self.nodes@.subrange(0, self.nodes@.len() as int) =~= self.nodes@);
        proof {
            let s = self.nodes@;
            assert forall|a: int, b: int| 0 <= a < r@.len() && 0 <= b < r@.len() && a != b implies r@[a]
                != r@[b] by {
                if a < b {
                    assert(s[a].id.0 < s[b].id.0);
                } else {
                    assert(s[b].id.0 < s[a].id.0);
                }
            }
            assert forall|x: u64| r@.to_set().contains(x) <==> self.view().nodes.contains_key(NodeId(x)) by {
                if r@.to_set().contains(x) {
                    assert(r@.contains(x));
                    let j = choose|j: int| 0 <= j < r@.len() && r@[j] == x;
                    assert(s[j].id == NodeId(x));
                    assert(holds_node(s, NodeId(x)));
                }
                if self.view().nodes.contains_key(NodeId(x)) {
                    let j = choose|j: int| 0 <= j < s.len() && s[j].id == NodeId(x);
                    assert(r@[j] == x);
                    assert(r@.contains(x));
                }
            }
        }
        r
    }

    /// Replace the table entry at `i` by `n`, which keeps its id.
    fn replace_node(&mut self, i: usize, n: ContainerNode)
        requires
            old(self).wf(),
            i < old(self).nodes@.len(),
            n.id == old(self).nodes@[i as int].id,
            n.parent != Some(n.id),
        ensures
            final(self).wf(),
            final(self).nodes@ == old(self).nodes@.update(i as int, n),
            final(self).view() == (GraphView { nodes: old(self).view().nodes.insert(n.id, n.view()), ..old(self).view() }),
            final(self).node_count() == old(self).node_count(),
            final(self).leaf_count() == old(self).leaf_count(),
    {
        let ghost s = self.nodes@;
        let _old = self.nodes.remove(i);
        self.nodes.insert(i, n);
        proof {
            assert(self.nodes@ =~= s.update(i as int, n));
            lemma_node_map_update(s, i as int, n);
        }
    }

    /// Append `c` to the children of the table entry at `i`.
    fn push_child(&mut self, i: usize, c: NodeChild)
        requires
            old(self).wf(),
            i < old(self).nodes@.len(),
        ensures
            final(self).wf(),
            final(self).view() == (GraphView {
                nodes: with_child(old(self).view().nodes, old(self).nodes@[i as int].id, c),
                ..old(self).view()
            }),
            final(self).node_count() == old(self).node_count(),
            final(self).leaf_count() == old(self).leaf_count(),
    {
        proof {
            lemma_node_map_entry(self.nodes@, i as int);
        }
        let mut children = copy_children(&self.nodes[i].children);
        children.push(c);
        let n = ContainerNode {
            id: self.nodes[i].id,
            kind: self.nodes[i].kind,
            parent: self.nodes[i].parent,
            children,
        };
        self.replace_node(i, n);
        proof {
            let m = old(self).view().nodes;
            let at = old(self).nodes@[i as int].id;
            assert(n.view() == NodeView { children: m[at].children.push(c), ..m[at] });
        }
    }

    /// Drop container `gone` from the children of the table entry at `i`.
    fn drop_child(&mut self, i: usize, gone: NodeId)
        requires
            old(self).wf(),
            i < old(self).nodes@.len(),
        ensures
            final(self).wf(),
            final(self).view() == (GraphView {
                nodes: without_child(old(self).view().nodes, old(self).nodes@[i as int].id, gone),
                ..old(self).view()
            }),
            final(self).node_count() == old(self).node_count(),
            final(self).leaf_count() == old(self).leaf_count(),
    {
        proof {
            lemma_node_map_entry(self.nodes@, i as int);
        }
        let children = without_node_vec(&self.nodes[i].children, gone);
        let n = ContainerNode {
            id: self.nodes[i].id,
            kind: self.nodes[i].kind,
            parent: self.nodes[i].parent,
            children,
        };
        self.replace_node(i, n);
        proof {
            let m = old(self).view().nodes;
            let at = old(self).nodes@[i as int].id;
            assert(n.view() == NodeView { children: without_node(m[at].children, gone), ..m[at] });
        }
    }

    /// Allocate a fresh leaf id for a session the caller has just started,
    /// add it to the graph and log its `Spawn`.
    pub fn add_leaf(&mut self) -> (id: SessionId)
        requires
            old(self).wf(),
            old(self).leaf_count() < u64::MAX,
        ensures
            final(self).wf(),
            !old(self).view().leaves.contains(id),
            first_free(leaf_number_set(old(self).view().leaves), old(self).view().next, id.value()),
            final(self).view() == (GraphView {
                leaves: old(self).view().leaves.insert(id),
                next: successor(id.value()),
                ..recorded(old(self).view(), id, GraphEventKind::Spawn)
            }),
            final(self).leaf_count() == old(self).leaf_count() + 1,
            final(self).node_count() == old(self).node_count(),
    {
        let taken = self.leaf_number_list();
        let (raw, next) = allocate(&taken, self.next);
        let id = SessionId(raw);
        proof {
            assert(taken@.to_set() =~= leaf_number_set(self.view().leaves)) by {
                assert forall|x: u64| #![auto] taken@.to_set().contains(x) <==> leaf_number_set(self.view().leaves).contains(x) by {
                    if self.view().leaves.contains(SessionId(x)) {
                        assert(SessionId(x).value() == x);
                    }
                    if leaf_number_set(self.view().leaves).contains(x) {
                        let l = choose|l: SessionId| self.view().leaves.contains(l) && l.value() == x;
                        assert(l == SessionId(x));
                    }
                }
            }
            assert(!taken@.to_set().contains(raw));
        }
        let mut pos: usize = 0;
        while pos < self.leaves.len() && self.leaves[pos].0 < raw
            invariant
                pos <= self.leaves@.len(),
                forall|j: int| 0 <= j < pos ==> self.leaves@[j].0 < raw,
            decreases self.leaves@.len() - pos,
        {
            pos = pos + 1;
        }
        let ghost s = self.leaves@;
        proof {
            assert forall|j: int| pos <= j < s.len() implies raw < s[j].0 by {
                if s[j].0 <= raw {
                    assert(s[pos as int].0 <= s[j].0);
                    assert(s[pos as int].0 >= raw);
                    assert(s[j].0 == raw);
                    assert(s.contains(SessionId(raw)));
                    assert(taken@.to_set().contains(raw));
                }
            }
        }
        self.leaves.insert(pos, id);
        proof {
            lemma_insert_to_set(s, pos as int, id);
            assert(!s.to_set().contains(id)) by {
                if s.to_set().contains(id) {
                    assert(s.contains(id));
                    assert(taken@.to_set().contains(raw));
                }
            }
            assert(leaves_sorted(self.leaves@));
        }
        self.next = next;
        self.record(id, GraphEventKind::Spawn);
        id
    }

    /// Create a container of `kind` under `parent` (or at the top), with a
    /// fresh id. Fails closed on a parent this graph does not hold.
    pub fn create_node(&mut self, kind: NodeKind, parent: Option<NodeId>) -> (r: Result<NodeId, Error>)
        requires
            old(self).wf(),
            old(self).node_count() < u64::MAX,
        ensures
            final(self).wf(),
            r is Err <==> (parent matches Some(p) && !old(self).view().nodes.contains_key(p)),
            r is Err ==> r == Err::<NodeId, Error>(Error::UnknownNode) && final(self).view() == old(self).view()
                && final(self).node_count() == old(self).node_count(),
            r matches Ok(id) ==> {
                &&& !old(self).view().nodes.contains_key(id)
                &&& first_free(node_number_set(old(self).view().nodes), old(self).view().next_node, id.value())
                &&& final(self).view() == (GraphView {
                    nodes: created(old(self).view().nodes, id, kind, parent),
                    next_node: successor(id.value()),
                    ..old(self).view()
                })
                &&& final(self).node_count() == old(self).node_count() + 1
            },
            final(self).leaf_count() == old(self).leaf_count(),
    {
        if let Some(p) = parent {
            if !self.has_node(p) {
                return Err(Error::UnknownNode);
            }
        }
        let taken = self.node_number_list();
        let (raw, next) = allocate(&taken, self.next_node);
        let id = NodeId(raw);
        proof {
            assert(taken@.to_set() =~= node_number_set(self.view().nodes)) by {
                assert forall|x: u64| #![auto] taken@.to_set().contains(x) <==> node_number_set(self.view().nodes).contains(x) by {
                    if self.view().nodes.contains_key(NodeId(x)) {
                        assert(NodeId(x).value() == x);
                        assert(self.view().nodes.dom().contains(NodeId(x)));
                    }
                    if node_number_set(self.view().nodes).contains(x) {
                        let n = choose|n: NodeId| self.view().nodes.dom().contains(n) && n.value() == x;
                        assert(n == NodeId(x));
                    }
                }
            }
            assert(!taken@.to_set().contains(raw));
        }
        let mut pos: usize = 0;
        while pos < self.nodes.len() && self.nodes[pos].id.0 < raw
            invariant
                pos <= self.nodes@.len(),
                forall|j: int| 0 <= j < pos ==> self.nodes@[j].id.0 < raw,
            decreases self.nodes@.len() - pos,
        {
            pos = pos + 1;
        }
        let ghost s = self.nodes@;
        let n = ContainerNode { id, kind, parent, children: Vec::new() };
        proof {
            assert forall|j: int| pos <= j < s.len() implies raw < s[j].id.0 by {
                if s[j].id.0 <= raw {
                    assert(s[pos as int].id.0 <= s[j].id.0);
                    assert(s[j].id == NodeId(raw));
                    assert(holds_node(s, NodeId(raw)));
                    assert(taken@.to_set().contains(raw));
                }
            }
            lemma_node_map_insert(s, pos as int, n);
            if let Some(p) = parent {
                assert(holds_node(s, p));
                if p == id {
                    assert(taken@.to_set().contains(raw));
                }
            }
        }
        self.nodes.insert(pos, n);
        self.next_node = next;
        proof {
            assert(n.view() == NodeView { kind, parent, children: Seq::<NodeChild>::empty() });
        }
        if let Some(p) = parent {
            match self.find_node(p) {
                Some(i) => {
                    self.push_child(i, NodeChild::Node(id));
                },
                None => {},
            }
        }
        Ok(id)
    }

    /// Attach an already-live leaf under container `node`. Membership only:
    /// nothing is spawned or detached.
    pub fn attach_leaf(&mut self, node: NodeId, leaf: SessionId) -> (r: Result<(), Error>)
        requires
            old(self).wf(),
        ensures
            final(self).wf(),
            !old(self).view().leaves.contains(leaf) ==> r == Err::<(), Error>(Error::UnknownSession),
            old(self).view().leaves.contains(leaf) && !old(self).view().nodes.contains_key(node) ==> r == Err::<
                (),
                Error,
            >(Error::UnknownNode),
            old(self).view().leaves.contains(leaf) && old(self).view().nodes.contains_key(node) ==> r is Ok,
            r is Err ==> final(self).view() == old(self).view(),
            r is Ok ==> final(self).view() == (GraphView {
                nodes: with_child(old(self).view().nodes, node, NodeChild::Leaf(leaf)),
                ..old(self).view()
            }),
            final(self).node_count() == old(self).node_count(),
            final(self).leaf_count() == old(self).leaf_count(),
    {
        if !self.has_leaf(leaf) {
            return Err(Error::UnknownSession);
        }
        match self.find_node(node) {
            None => Err(Error::UnknownNode),
            Some(i) => {
                self.push_child(i, NodeChild::Leaf(leaf));
                Ok(())
            },
        }
    }

    /// Move container `node` under `new_parent` (or to the top). Only
    /// pointers move: the node keeps its id and its children, and no leaf
    /// is touched.
    pub fn reparent_node(&mut self, node: NodeId, new_parent: Option<NodeId>) -> (r: Result<(), Error>)
        requires
            old(self).wf(),
        ensures
            final(self).wf(),
            r is Err <==> (!old(self).view().nodes.contains_key(node) || (new_parent matches Some(p) && (
            !old(self).view().nodes.contains_key(p) || p == node))),
            r is Err ==> r == Err::<(), Error>(Error::UnknownNode) && final(self).view() == old(self).view(),
            r is Ok ==> final(self).view() == (GraphView {
                nodes: reparented(old(self).view().nodes, node, new_parent),
                ..old(self).view()
            }),
            final(self).node_count() == old(self).node_count(),
            final(self).leaf_count() == old(self).leaf_count(),
    {
        let ni = match self.find_node(node) {
            None => {
                return Err(Error::UnknownNode);
            },
            Some(i) => i,
        };
        if let Some(p) = new_parent {
            if !self.has_node(p) {
                return Err(Error::UnknownNode);
            }
            if p.0 == node.0 {
                return Err(Error::UnknownNode);
            }
        }
        proof {
            lemma_node_map_entry(self.nodes@, ni as int);
        }
        let old_parent = self.nodes[ni].parent;
        if let Some(op) = old_parent {
            if let Some(oi) = self.find_node(op) {
                self.drop_child(oi, node);
            }
        }
        if let Some(p) = new_parent {
            if let Some(pi) = self.find_node(p) {
                self.push_child(pi, NodeChild::Node(node));
            }
        }
        match self.find_node(node) {
            Some(i) => {
                proof {
                    lemma_node_map_entry(self.nodes@, i as int);
                }
                let children = copy_children(&self.nodes[i].children);
                let n = ContainerNode { id: node, kind: self.nodes[i].kind, parent: new_parent, children };
                self.replace_node(i, n);
                Ok(())
            },
            None => Err(Error::UnknownNode),
        }
    }

    /// The containers reachable from `root`, `root` first, each once.
    /// Fails closed on a `root` this graph does not hold.
    fn collect_subtree(&self, root: NodeId) -> (r: Result<Vec<NodeId>, Error>)
        requires
            self.wf(),
        ensures
            r is Err <==> !self.view().nodes.contains_key(root),
            r is Err ==> r == Err::<Vec<NodeId>, Error>(Error::UnknownNode),
            r matches Ok(v) ==> v@.to_set() == subtree(self.view().nodes, root) && v@.no_duplicates()
                && v@.to_set().subset_of(self.view().nodes.dom()),
    {
        if !self.has_node(root) {
            return Err(Error::UnknownNode);
        }
        let ghost m = self.view().nodes;
        let mut out: Vec<NodeId> = Vec::new();
        out.push(root);
        let mut frontier: Vec<NodeId> = Vec::new();
        frontier.push(root);
        proof {
            lemma_node_dom(self.nodes@);
            assert(out@.to_set() =~= set![root]) by {
                assert forall|y: NodeId| out@.to_set().contains(y) <==> y == root by {
                    if out@.contains(y) {
                        assert(out@[0] == y);
                    }
                    if y == root {
                        assert(out@[0] == y);
                    }
                }
            }
            assert(frontier@.to_set() =~= set![root]) by {
                assert forall|y: NodeId| frontier@.to_set().contains(y) <==> y == root by {
                    if frontier@.contains(y) {
                        assert(frontier@[0] == y);
                    }
                    if y == root {
                        assert(frontier@[0] == y);
                    }
                }
            }
            assert forall|t: Set<NodeId>| #[trigger] closed_from(m, root, t) implies out@.to_set().subset_of(t) by {}
            out@.unique_seq_to_set();
        }
        while frontier.len() > 0
            invariant
                self.wf(),
                m == self.view().nodes,
                self.view().nodes.contains_key(root),
                node_map(self.nodes@).dom() == node_id_seq(self.nodes@).to_set(),
                node_id_seq(self.nodes@).to_set().finite(),
                node_id_seq(self.nodes@).to_set().len() == self.nodes@.len(),
                out@.no_duplicates(),
                out@.to_set().len() == out@.len(),
                frontier@.no_duplicates(),
                frontier@.to_set().subset_of(out@.to_set()),
                out@.to_set().subset_of(m.dom()),
                out@.to_set().contains(root),
                forall|y: NodeId|
                    #![trigger closed_at(m, y, out@.to_set())]
                    out@.to_set().contains(y) && !frontier@.to_set().contains(y) ==> closed_at(m, y, out@.to_set()),
                forall|t: Set<NodeId>| #[trigger] closed_from(m, root, t) ==> out@.to_set().subset_of(t),
            decreases self.nodes@.len() - out@.len(), frontier@.len(),
        {
            proof {
                vstd::set_lib::lemma_len_subset(out@.to_set(), m.dom());
            }
            let ghost out0 = out@;
            let ghost fr0 = frontier@;
            let x = frontier.pop().unwrap();
            proof {
                assert(fr0 == frontier@.push(x));
                assert(fr0.contains(x)) by {
                    assert(fr0[fr0.len() - 1] == x);
                }
                assert(!frontier@.contains(x)) by {
                    if frontier@.contains(x) {
                        let j = choose|j: int| 0 <= j < frontier@.len() && frontier@[j] == x;
                        assert(fr0[j] == x && fr0[fr0.len() - 1] == x);
                    }
                }
                assert forall|y: NodeId| frontier@.to_set().contains(y) implies fr0.to_set().contains(y) by {
                    let j = choose|j: int| 0 <= j < frontier@.len() && frontier@[j] == y;
                    assert(fr0[j] == y);
                }
            }
            match self.find_node(x) {
                None => {},
                Some(xi) => {
                    proof {
                        lemma_node_map_entry(self.nodes@, xi as int);
                    }
                    let mut j: usize = 0;
                    while j < self.nodes[xi].children.len()
                        invariant
                            self.wf(),
                            m == self.view().nodes,
                            xi < self.nodes@.len(),
                            self.nodes@[xi as int].id == x,
                            m[x].children == self.nodes@[xi as int].children@,
                            j <= self.nodes@[xi as int].children@.len(),
                            node_map(self.nodes@).dom() == node_id_seq(self.nodes@).to_set(),
                            node_id_seq(self.nodes@).to_set().finite(),
                            node_id_seq(self.nodes@).to_set().len() == self.nodes@.len(),
                            out@.no_duplicates(),
                            out@.to_set().len() == out@.len(),
                            out@.len() >= out0.len(),
                            frontier@.no_duplicates(),
                            !frontier@.contains(x),
                            frontier@.to_set().subset_of(out@.to_set()),
                            out@.to_set().subset_of(m.dom()),
                            out@.to_set().contains(root),
                            out@.to_set().contains(x),
                            forall|y: NodeId|
                                #![trigger closed_at(m, y, out@.to_set())]
                                out@.to_set().contains(y) && !frontier@.to_set().contains(y) && y != x ==> closed_at(
                                    m,
                                    y,
                                    out@.to_set(),
                                ),
                            forall|i: int|
                                #![trigger m[x].children[i]]
                                0 <= i < j && m[x].children[i] is Node && m.contains_key(m[x].children[i]->Node_0)
                                    ==> out@.to_set().contains(m[x].children[i]->Node_0),
                            forall|t: Set<NodeId>| #[trigger] closed_from(m, root, t) ==> out@.to_set().subset_of(t),
                            out@.len() == out0.len() ==> frontier@.len() < fr0.len(),
                        decreases self.nodes@[xi as int].children@.len() - j,
                    {
                        let c = self.nodes[xi].children[j];
                        if let NodeChild::Node(cn) = c {
                            if self.has_node(cn) && !lists_node(&out, cn) {
                                let ghost o1 = out@;
                                let ghost f1 = frontier@;
                                out.push(cn);
                                frontier.push(cn);
                                proof {
                                    assert(out@.to_set() =~= o1.to_set().insert(cn)) by {
                                        assert forall|y: NodeId| out@.to_set().contains(y) <==> o1.to_set().insert(cn).contains(y) by {
                                            if out@.contains(y) {
                                                let k = choose|k: int| 0 <= k < out@.len() && out@[k] == y;
                                                if k < o1.len() {
                                                    assert(o1[k] == y);
                                                    assert(o1.contains(y));
                                                }
                                            }
                                            if o1.contains(y) {
                                                let k = choose|k: int| 0 <= k < o1.len() && o1[k] == y;
                                                assert(out@[k] == y);
                                            }
                                            if y == cn {
                                                assert(out@[o1.len() as int] == y);
                                            }
                                        }
                                    }
                                    assert(frontier@.to_set() =~= f1.to_set().insert(cn)) by {
                                        assert forall|y: NodeId| frontier@.to_set().contains(y) <==> f1.to_set().insert(cn).contains(y) by {
                                            if frontier@.contains(y) {
                                                let k = choose|k: int| 0 <= k < frontier@.len() && frontier@[k] == y;
                                                if k < f1.len() {
                                                    assert(f1[k] == y);
                                                    assert(f1.contains(y));
                                                }
                                            }
                                            if f1.contains(y) {
                                                let k = choose|k: int| 0 <= k < f1.len() && f1[k] == y;
                                                assert(frontier@[k] == y);
                                            }
                                            if y == cn {
                                                assert(frontier@[f1.len() as int] == y);
                                            }
                                        }
                                    }
                                    assert(!o1.to_set().contains(cn));
                                    assert(!f1.contains(cn)) by {
                                        if f1.contains(cn) {
                                            assert(f1.to_set().contains(cn));
                                        }
                                    }
                                    assert(m.dom().contains(cn));
                                    assert(cn != x);
                                    assert(!frontier@.contains(x)) by {
                                        if frontier@.contains(x) {
                                            assert(frontier@.to_set().contains(x));
                                        }
                                    }
                                    assert forall|t: Set<NodeId>| #[trigger] closed_from(m, root, t) implies out@.to_set().subset_of(t) by {
                                        assert(o1.to_set().subset_of(t));
                                        assert(t.contains(x));
                                        assert(m[x].children[j as int] == c);
                                    }
                                    assert forall|y: NodeId|
                                        #![trigger closed_at(m, y, out@.to_set())]
                                        out@.to_set().contains(y) && !frontier@.to_set().contains(y) && y != x implies closed_at(
                                            m,
                                            y,
                                            out@.to_set(),
                                        ) by {
                                        assert(o1.to_set().contains(y));
                                        assert(!f1.to_set().contains(y));
                                        assert(closed_at(m, y, o1.to_set()));
                                    }
                                    assert(o1.no_duplicates());
                                    assert(out@.no_duplicates()) by {
                                        assert forall|a: int, b: int| 0 <= a < out@.len() && 0 <= b < out@.len() && a != b implies out@[a] != out@[b] by {
                                            if a < o1.len() && b < o1.len() {
                                                assert(o1[a] != o1[b]);
                                            } else if a < o1.len() {
                                                assert(o1.contains(o1[a]));
                                            } else if b < o1.len() {
                                                assert(o1.contains(o1[b]));
                                            }
                                        }
                                    }
                                    assert(frontier@.no_duplicates()) by {
                                        assert forall|a: int, b: int| 0 <= a < frontier@.len() && 0 <= b < frontier@.len() && a != b implies frontier@[a] != frontier@[b] by {
                                            if a < f1.len() && b < f1.len() {
                                                assert(f1[a] != f1[b]);
                                            } else if a < f1.len() {
                                                assert(f1.contains(f1[a]));
                                            } else if b < f1.len() {
                                                assert(f1.contains(f1[b]));
                                            }
                                        }
                                    }
                                    out@.unique_seq_to_set();
                                }
                            }
                        }
                        j = j + 1;
                    }
                },
            }
            proof {
                if self.view().nodes.contains_key(x) {
                    assert(closed_at(m, x, out@.to_set()));
                } else {
                    assert(closed_at(m, x, out@.to_set()));
                }
                vstd::set_lib::lemma_len_subset(out@.to_set(), m.dom());
            }
        }
        proof {
            let so = out@.to_set();
            assert forall|x: NodeId, i: int|
                #![trigger so.contains(x), m[x].children[i]]
                so.contains(x) && m.contains_key(x) && 0 <= i < m[x].children.len() && m[x].children[i] is Node
                    && m.contains_key(m[x].children[i]->Node_0) implies so.contains(m[x].children[i]->Node_0) by {
                assert(!frontier@.to_set().contains(x));
                assert(closed_at(m, x, so));
            }
            assert(closed_from(m, root, out@.to_set()));
            assert(out@.to_set() =~= subtree(m, root)) by {
                assert forall|y: NodeId| out@.to_set().contains(y) <==> subtree(m, root).contains(y) by {
                    if subtree(m, root).contains(y) {
                        assert(closed_from(m, root, out@.to_set()));
                    }
                }
            }
        }
        Ok(out)
    }

    /// The leaves listed under the containers reachable from `root`: what
    /// closing `root` terminates, and nothing outside it. Fails closed on a
    /// `root` this graph does not hold.
    pub fn subtree_leaves(&self, root: NodeId) -> (r: Result<Vec<SessionId>, Error>)
        requires
            self.wf(),
        ensures
            r is Err <==> !self.view().nodes.contains_key(root),
            r is Err ==> r == Err::<Vec<SessionId>, Error>(Error::UnknownNode),
            r matches Ok(v) ==> v@.to_set() == leaves_under(self.view().nodes, subtree(self.view().nodes, root)),
    {
        let out = match self.collect_subtree(root) {
            Err(e) => {
                return Err(e);
            },
            Ok(v) => v,
        };
        let ghost m = self.view().nodes;
        let mut r: Vec<SessionId> = Vec::new();
        let mut k: usize = 0;
        proof {
            assert(out@.subrange(0, 0).to_set() =~= Set::<NodeId>::empty());
            assert(r@.to_set() =~= leaves_under(m, Set::<NodeId>::empty()));
        }
        while k < out.len()
            invariant
                self.wf(),
                m == self.view().nodes,
                k <= out@.len(),
                r@.to_set() == leaves_under(m, out@.subrange(0, k as int).to_set()),
            decreases out@.len() - k,
        {
            let x = out[k];
            proof {
                assert(out@.subrange(0, k + 1) =~= out@.subrange(0, k as int).push(x));
                lemma_push_to_set(out@.subrange(0, k as int), x);
                lemma_leaves_under_insert(m, out@.subrange(0, k as int).to_set(), x);
            }
            match self.find_node(x) {
                None => {},
                Some(xi) => {
                    proof {
                        lemma_node_map_entry(self.nodes@, xi as int);
                    }
                    let ghost base = r@.to_set();
                    let mut j: usize = 0;
                    proof {
                        assert(leaf_children(m[x].children, 0) =~= Set::<SessionId>::empty());
                        assert(r@.to_set() =~= base.union(leaf_children(m[x].children, 0)));
                    }
                    while j < self.nodes[xi].children.len()
                        invariant
                            self.wf(),
                            m == self.view().nodes,
                            xi < self.nodes@.len(),
                            m[x].children == self.nodes@[xi as int].children@,
                            j <= self.nodes@[xi as int].children@.len(),
                            r@.to_set() == base.union(leaf_children(m[x].children, j as int)),
                        decreases self.nodes@[xi as int].children@.len() - j,
                    {
                        let c = self.nodes[xi].children[j];
                        let ghost before = r@;
                        if let NodeChild::Leaf(l) = c {
                            r.push(l);
                            proof {
                                lemma_push_to_set(before, l);
                            }
                        }
                        proof {
                            let cs = m[x].children;
                            assert(cs[j as int] == c);
                            assert(leaf_children(cs, j + 1) =~= (if c is Leaf {
                                leaf_children(cs, j as int).insert(c->Leaf_0)
                            } else {
                                leaf_children(cs, j as int)
                            })) by {
                                assert forall|l: SessionId| #[trigger] leaf_children(cs, j + 1).contains(l) implies (if c is Leaf {
                                    leaf_children(cs, j as int).insert(c->Leaf_0)
                                } else {
                                    leaf_children(cs, j as int)
                                }).contains(l) by {
                                    let i = choose|i: int| 0 <= i < j + 1 && #[trigger] cs[i] == NodeChild::Leaf(l);
                                    if i < j {
                                        assert(leaf_children(cs, j as int).contains(l));
                                    }
                                }
                            }
                            assert(r@.to_set() =~= base.union(leaf_children(cs, j + 1)));
                        }
                        j = j + 1;
                    }
                },
            }
            k = k + 1;
        }
        assert(out@.subrange(0, out@.len() as int) =~= out@);
        Ok(r)
    }

    /// Drop `root` from its parent's children and remove every container of
    /// its subtree. Leaves are not touched here. Fails closed on a `root`
    /// this graph does not hold.
    pub fn remove_subtree(&mut self, root: NodeId) -> (r: Result<(), Error>)
        requires
            old(self).wf(),
        ensures
            final(self).wf(),
            r is Err <==> !old(self).view().nodes.contains_key(root),
            r is Err ==> r == Err::<(), Error>(Error::UnknownNode) && final(self).view() == old(self).view(),
            r is Ok ==> final(self).view() == (GraphView {
                nodes: closed_off(old(self).view().nodes, root),
                ..old(self).view()
            }),
            final(self).node_count() <= old(self).node_count(),
            final(self).leaf_count() == old(self).leaf_count(),
    {
        let out = match self.collect_subtree(root) {
            Err(e) => {
                return Err(e);
            },
            Ok(v) => v,
        };
        let ghost m = self.view().nodes;
        let ghost gone = out@.to_set();
        let ri = match self.find_node(root) {
            Some(i) => i,
            None => {
                return Err(Error::UnknownNode);
            },
        };
        proof {
            lemma_node_map_entry(self.nodes@, ri as int);
        }
        let root_parent = self.nodes[ri].parent;
        if let Some(p) = root_parent {
            if let Some(pi) = self.find_node(p) {
                self.drop_child(pi, root);
            }
        }
        let ghost m1 = self.view().nodes;
        proof {
            assert(m1 == match m[root].parent {
                Some(p) => without_child(m, p, root),
                None => m,
            });
        }
        let ghost s = self.nodes@;
        let mut kept: Vec<ContainerNode> = Vec::new();
        let mut i: usize = 0;
        let n = self.nodes.len();
        let mut rest: Vec<ContainerNode> = Vec::new();
        std::mem::swap(&mut rest, &mut self.nodes);
        proof {
            assert(s.subrange(0, 0) =~= Seq::<ContainerNode>::empty());
            assert(node_map(kept@) =~= Map::<NodeId, NodeView>::empty());
            assert(node_map(s.subrange(0, 0)) =~= Map::<NodeId, NodeView>::empty());
            assert(node_map(kept@) =~= node_map(s.subrange(0, 0)).remove_keys(gone));
        }
        while i < n
            invariant
                n == s.len(),
                rest@ == s,
                nodes_sorted(s),
                i <= n,
                nodes_sorted(kept@),
                no_self_parent(s),
                no_self_parent(kept@),
                forall|a: int, b: int| 0 <= a < kept@.len() && i <= b < n ==> kept@[a].id.0 < s[b].id.0,
                node_map(kept@) == node_map(s.subrange(0, i as int)).remove_keys(gone),
                kept@.len() <= i,
                gone == out@.to_set(),
            decreases n - i,
        {
            let id = rest[i].id;
            let ghost e = s[i as int];
            proof {
                let pre = s.subrange(0, i as int);
                assert(s.subrange(0, i + 1) =~= pre.insert(i as int, e));
                assert(nodes_sorted(pre));
                lemma_node_map_insert(pre, i as int, e);
            }
            if !lists_node(&out, id) {
                let children = copy_children(&rest[i].children);
                let node = ContainerNode { id, kind: rest[i].kind, parent: rest[i].parent, children };
                proof {
                    assert(node.view() == e.view());
                    assert(kept@.insert(kept@.len() as int, node) =~= kept@.push(node));
                    lemma_node_map_insert(kept@, kept@.len() as int, node);
                }
                kept.push(node);
                proof {
                    assert(!gone.contains(id)) by {
                        if gone.contains(id) {
                            assert(out@.contains(id));
                        }
                    }
                    assert(node_map(kept@) =~= node_map(s.subrange(0, i + 1)).remove_keys(gone));
                }
            } else {
                proof {
                    assert(gone.contains(id));
                    assert(node_map(kept@) =~= node_map(s.subrange(0, i + 1)).remove_keys(gone));
                }
            }
            i = i + 1;
        }
        self.nodes = kept;
        proof {
            assert(s.subrange(0, n as int) =~= s);
        }
        Ok(())
    }

    /// Read of the whole container tree, in increasing id order.
    pub fn container_snapshot(&self) -> (r: Vec<ContainerSnapshot>)
        requires
            self.wf(),
        ensures
            r@.len() == self.node_count(),
            forall|i: int|
                #![trigger r@[i]]
                0 <= i < r@.len() ==> self.view().nodes.contains_key(r@[i].id) && self.view().nodes[r@[i].id]
                    == (NodeView { kind: r@[i].kind, parent: r@[i].parent, children: r@[i].children@ }),
            forall|k: NodeId| self.view().nodes.contains_key(k) ==> exists|i: int| 0 <= i < r@.len() && #[trigger] r@[i].id == k,
            forall|i: int, j: int| 0 <= i < j < r@.len() ==> r@[i].id.value() < r@[j].id.value(),
    {
        let mut r: Vec<ContainerSnapshot> = Vec::new();
        let mut i: usize = 0;
        proof {
            lemma_node_map_all(self.nodes@);
        }
        while i < self.nodes.len()
            invariant
                self.wf(),
                i <= self.nodes@.len(),
                r@.len() == i,
                forall|a: int|
                    #![trigger r@[a]]
                    0 <= a < i ==> r@[a].id == self.nodes@[a].id && self.nodes@[a].view() == (NodeView {
                        kind: r@[a].kind,
                        parent: r@[a].parent,
                        children: r@[a].children@,
                    }),
                forall|a: int| #![trigger self.nodes@[a]] 0 <= a < self.nodes@.len() ==> node_map(self.nodes@).contains_key(self.nodes@[a].id)
                    && node_map(self.nodes@)[self.nodes@[a].id] == self.nodes@[a].view(),
            decreases self.nodes@.len() - i,
        {
            let children = copy_children(&self.nodes[i].children);
            r.push(ContainerSnapshot {
                id: self.nodes[i].id,
                kind: self.nodes[i].kind,
                parent: self.nodes[i].parent,
                children,
            });
            i = i + 1;
        }
        proof {
            assert forall|k: NodeId| self.view().nodes.contains_key(k) implies exists|i: int| 0 <= i < r@.len() && #[trigger] r@[i].id == k by {
                let j = choose|j: int| 0 <= j < self.nodes@.len() && self.nodes@[j].id == k;
                assert(r@[j].id == k);
            }
            assert forall|a: int, b: int| 0 <= a < b < r@.len() implies r@[a].id.value() < r@[b].id.value() by {
                assert(r@[a].id == self.nodes@[a].id);
                assert(r@[b].id == self.nodes@[b].id);
            }
        }
        r
    }
}


proof fn lemma_without_node_leaves(c: Seq<NodeChild>, n: NodeId, l: SessionId)
    ensures
        without_node(c, n).contains(NodeChild::Leaf(l)) <==> c.contains(NodeChild::Leaf(l)),
    decreases c.len(),
{
    if c.len() > 0 {
        let rest = without_node(c.drop_last(), n);
        lemma_without_node_leaves(c.drop_last(), n, l);
        let lf = NodeChild::Leaf(l);
        if c.contains(lf) {
            let k = choose|k: int| 0 <= k < c.len() && c[k] == lf;
            if k < c.len() - 1 {
                assert(c.drop_last()[k] == lf);
                assert(c.drop_last().contains(lf));
                if c.last() != NodeChild::Node(n) {
                    let j = choose|j: int| 0 <= j < rest.len() && rest[j] == lf;
                    assert(rest.push(c.last())[j] == lf);
                }
            } else {
                assert(rest.push(c.last())[rest.len() as int] == lf);
            }
        }
        if without_node(c, n).contains(lf) {
            if c.last() == NodeChild::Node(n) {
                let j = choose|j: int| 0 <= j < c.drop_last().len() && c.drop_last()[j] == lf;
                assert(c[j] == lf);
            } else {
                let j = choose|j: int| 0 <= j < rest.push(c.last()).len() && rest.push(c.last())[j] == lf;
                if j < rest.len() {
                    assert(rest[j] == lf);
                    let i = choose|i: int| 0 <= i < c.drop_last().len() && c.drop_last()[i] == lf;
                    assert(c[i] == lf);
                } else {
                    assert(c[c.len() - 1] == lf);
                }
            }
        }
    }
}

proof fn lemma_push_node_leaves(c: Seq<NodeChild>, n: NodeId, l: SessionId)
    ensures
        c.push(NodeChild::Node(n)).contains(NodeChild::Leaf(l)) <==> c.contains(NodeChild::Leaf(l)),
{
    let lf = NodeChild::Leaf(l);
    let t = c.push(NodeChild::Node(n));
    if t.contains(lf) {
        let j = choose|j: int| 0 <= j < t.len() && t[j] == lf;
        assert(c[j] == lf);
    }
    if c.contains(lf) {
        let j = choose|j: int| 0 <= j < c.len() && c[j] == lf;
        assert(t[j] == lf);
    }
}

/// Whether a frame that took a session from `before` to `after` seated a
/// new writer: a writer (not observer) attach where no writer sat before
/// and one sits after.
pub open spec fn writer_seated(f: FrameView, before: SessionView, after: SessionView) -> bool {
    &&& (f matches FrameView::Attach { observe, .. } && !observe)
    &&& before.attach_generation is None
    &&& after.attach_generation is Some
}

impl SessionGraph {
    /// Apply one inbound frame to leaf `id`, whose session state is
    /// `session`. An unknown leaf fails closed and nothing changes; a writer
    /// attach that newly takes the seat is recorded as an `Attach` event.
    pub fn on_leaf_frame(&mut self, id: SessionId, session: &mut SessionCore, frame: Frame) -> (r: Result<
        FrameEffect,
        Error,
    >)
        requires
            old(self).wf(),
        ensures
            final(self).wf(),
            !old(self).view().leaves.contains(id) ==> r == Err::<FrameEffect, Error>(Error::UnknownSession)
                && final(session)@ == old(session)@ && final(self).view() == old(self).view(),
            old(self).view().leaves.contains(id) ==> ({
                let (s, res) = on_frame_spec(old(session)@, frame@);
                &&& final(session)@ == s
                &&& r == res
                &&& final(self).view() == if writer_seated(frame@, old(session)@, s) {
                    recorded(old(self).view(), id, GraphEventKind::Attach)
                } else {
                    old(self).view()
                }
            }),
    {
        if !self.has_leaf(id) {
            return Err(Error::UnknownSession);
        }
        let writer = match &frame {
            Frame::Attach { observe, .. } => !*observe,
            _ => false,
        };
        let was = session.attached();
        let r = session.on_frame(frame);
        let now = session.attached();
        if writer && !was && now {
            self.record(id, GraphEventKind::Attach);
        }
        r
    }

    /// The child behind leaf `id` was observed to exit with `status`. The
    /// first observation is recorded as a single `Exit` event; later ones
    /// change nothing.
    pub fn on_leaf_exit(&mut self, id: SessionId, session: &mut SessionCore, status: i32) -> (first: bool)
        requires
            old(self).wf(),
        ensures
            final(self).wf(),
            first <==> old(session)@.child_exit is None,
            first ==> final(session)@ == exited(old(session)@, status) && final(self).view() == recorded(
                old(self).view(),
                id,
                GraphEventKind::Exit,
            ),
            !first ==> final(session)@ == old(session)@ && final(self).view() == old(self).view(),
    {
        let first = session.observe_exit(status);
        if first {
            self.record(id, GraphEventKind::Exit);
        }
        first
    }
}

/// Once a child is observed dead its status is kept, so any later
/// observation of the same session records no second `Exit` event.
pub proof fn lemma_exit_observed_once(v: SessionView, status: i32)
    ensures
        exited(v, status).child_exit == Some(status),
{
}

impl SessionGraph {
    /// Reparenting moves pointers only. The same containers exist
    /// afterwards, each keeps its kind and the leaves listed under it, and
    /// the moved node keeps its kind and its children and gets the new
    /// parent.
    pub proof fn lemma_reparent_keeps_identity(&self, node: NodeId, new_parent: Option<NodeId>)
        requires
            self.wf(),
            self.view().nodes.contains_key(node),
            new_parent matches Some(p) ==> self.view().nodes.contains_key(p) && p != node,
        ensures
            ({
                let m = self.view().nodes;
                let m2 = reparented(m, node, new_parent);
                &&& m2.dom() == m.dom()
                &&& m2[node].kind == m[node].kind
                &&& m2[node].children == m[node].children
                &&& m2[node].parent == new_parent
                &&& forall|x: NodeId| #[trigger] m.contains_key(x) ==> m2[x].kind == m[x].kind
                &&& forall|x: NodeId, l: SessionId|
                    m.contains_key(x) ==> (#[trigger] m2[x].children.contains(NodeChild::Leaf(l))
                        <==> m[x].children.contains(NodeChild::Leaf(l)))
            }),
    {
        let m = self.view().nodes;
        let ni = choose|i: int| 0 <= i < self.nodes@.len() && self.nodes@[i].id == node;
        lemma_node_map_entry(self.nodes@, ni);
        assert(m[node].parent != Some(node));
        let m2 = reparented(m, node, new_parent);
        assert(m2.dom() =~= m.dom());
        assert forall|x: NodeId, l: SessionId|
            m.contains_key(x) implies (#[trigger] m2[x].children.contains(NodeChild::Leaf(l))
                <==> m[x].children.contains(NodeChild::Leaf(l))) by {
            let m1 = match m[node].parent {
                Some(op) => without_child(m, op, node),
                None => m,
            };
            lemma_without_node_leaves(m[x].children, node, l);
            lemma_push_node_leaves(m1[x].children, node, l);
        }
    }

    /// Closing `root` leaves everything outside its subtree as it was: each
    /// such container stays, with its kind, its parent and the leaves listed
    /// under it; no container of the subtree stays.
    pub proof fn lemma_close_keeps_outside(&self, root: NodeId)
        requires
            self.wf(),
            self.view().nodes.contains_key(root),
        ensures
            ({
                let m = self.view().nodes;
                let m2 = closed_off(m, root);
                &&& forall|x: NodeId| #[trigger] subtree(m, root).contains(x) ==> !m2.contains_key(x)
                &&& forall|x: NodeId|
                    m.contains_key(x) && !subtree(m, root).contains(x) ==> #[trigger] m2.contains_key(x)
                        && m2[x].kind == m[x].kind && m2[x].parent == m[x].parent
                &&& forall|x: NodeId, l: SessionId|
                    m.contains_key(x) && !subtree(m, root).contains(x) ==> (
                    #[trigger] m2[x].children.contains(NodeChild::Leaf(l)) <==> m[x].children.contains(
                        NodeChild::Leaf(l),
                    ))
            }),
    {
        let m = self.view().nodes;
        assert forall|x: NodeId, l: SessionId|
            m.contains_key(x) && !subtree(m, root).contains(x) implies (
            #[trigger] closed_off(m, root)[x].children.contains(NodeChild::Leaf(l)) <==> m[x].children.contains(
                NodeChild::Leaf(l),
            )) by {
            lemma_without_node_leaves(m[x].children, root, l);
        }
    }
}

/// Event ids are handed out in increasing order: while the counter has not
/// reached `u64::MAX`, recording keeps every logged id below the counter and
/// the log strictly increasing.
pub proof fn lemma_event_ids_increase(v: GraphView, session: SessionId, kind: GraphEventKind)
    requires
        v.next_event < u64::MAX,
        forall|i: int| 0 <= i < v.events.len() ==> #[trigger] v.events[i].id < v.next_event,
        forall|i: int, j: int| 0 <= i < j < v.events.len() ==> v.events[i].id < v.events[j].id,
    ensures
        ({
            let w = recorded(v, session, kind);
            &&& forall|i: int| 0 <= i < w.events.len() ==> #[trigger] w.events[i].id < w.next_event
            &&& forall|i: int, j: int| 0 <= i < j < w.events.len() ==> w.events[i].id < w.events[j].id
        }),
{
    let w = recorded(v, session, kind);
    assert forall|i: int| 0 <= i < w.events.len() implies #[trigger] w.events[i].id < w.next_event by {
        if i < v.events.len() {
            assert(w.events[i] == v.events[i]);
        }
    }
    assert forall|i: int, j: int| 0 <= i < j < w.events.len() implies w.events[i].id < w.events[j].id by {
        assert(w.events[i] == v.events[i]);
        if j < v.events.len() {
            assert(w.events[j] == v.events[j]);
        }
    }
}

} // verus!
