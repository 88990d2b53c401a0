//! A DAG in which node `id` links to nodes `(id - 1) / 2` and `(id - 2) / 2`,
//! so that most nodes are shared by two parents: once with `Arc`s, once in an
//! arena.
use vstd::prelude::*;

use std::sync::Arc;

use crate::arena::{arena_alloc, arena_with_capacity, requested_capacity};
use crate::modular::{lemma_accumulate, lemma_wrap_word, wrap};
use crate::payload::{payload_weight, span_total, Payload};

verus! {

/// The first child of node `id`: `(id - 1) / 2`, where `id >= 1`.
pub open spec fn left_child(id: nat) -> Option<nat> {
    if id >= 1 {
        Some(((id - 1) / 2) as nat)
    } else {
        None
    }
}

/// The second child of node `id`: `(id - 2) / 2`, where `id >= 2`.
pub open spec fn right_child(id: nat) -> Option<nat> {
    if id >= 2 {
        Some(((id - 2) / 2) as nat)
    } else {
        None
    }
}

/// A node of a DAG as its identifier and the identifiers of its children.
pub struct DagEntry {
    pub id: nat,
    pub left: Option<nat>,
    pub right: Option<nat>,
}

/// The DAG built from `count`: node `i` has identifier `i` and the children
/// that `left_child` and `right_child` give.
pub open spec fn dag_model(count: nat) -> Seq<DagEntry> {
    Seq::new(
        count,
        |i: int| DagEntry { id: i as nat, left: left_child(i as nat), right: right_child(i as nat) },
    )
}

/// A child identifier, or nothing for a missing child, as a checksum term.
pub open spec fn link_weight(link: Option<nat>) -> int {
    match link {
        Some(id) => id as int,
        None => 0,
    }
}

/// The exact checksum contribution of one node: its payload weight and the
/// identifiers of its children.
pub open spec fn entry_weight(entry: DagEntry) -> int {
    payload_weight(entry.id as int) + link_weight(entry.left) + link_weight(entry.right)
}

/// The exact sum of the contributions of the nodes, in order.
pub open spec fn dag_total(entries: Seq<DagEntry>) -> int
    decreases entries.len(),
{
    if entries.len() == 0 {
        0
    } else {
        dag_total(entries.drop_last()) + entry_weight(entries.last())
    }
}

/// Every child of a node is an earlier node, so the links form a DAG that can
/// be built in identifier order.
pub proof fn lemma_children_precede(id: nat)
    ensures
        left_child(id) matches Some(child) ==> child < id,
        right_child(id) matches Some(child) ==> child < id,
        id >= 1 ==> left_child(id) is Some,
        id >= 2 ==> right_child(id) is Some,
{
}

/// The exact checksum of the DAG built from `count` in closed form: the
/// payloads `0..count`, plus the child identifiers `(i - 1) / 2` and
/// `(i - 2) / 2` of every node `i`, which add up to `i - 2` for each node from
/// the third on, so to `(count - 2) * (count - 3) / 2` in all.
pub proof fn lemma_dag_total_closed_form(count: nat)
    ensures
        2 * dag_total(dag_model(count)) == 2 * span_total(0, count) + (if count >= 2 {
            (count - 2) * (count - 3)
        } else {
            0
        }),
    decreases count,
{
    if count > 0 {
        let m = (count - 1) as nat;
        assert(dag_model(count).drop_last() =~= dag_model(m));
        lemma_dag_total_closed_form(m);
        let entry = dag_model(count).last();
        assert(entry == DagEntry { id: m, left: left_child(m), right: right_child(m) });
        assert(dag_total(dag_model(count)) == dag_total(dag_model(m)) + entry_weight(entry));
        assert(span_total(0, count) == span_total(0, m) + payload_weight(m as int));
        if m >= 2 {
            assert((m - 1) / 2 + (m - 2) / 2 == m - 2);
            assert(entry_weight(entry) == payload_weight(m as int) + m - 2);
            assert((count - 2) * (count - 3) == (m - 2) * (m - 3) + 2 * (m - 2)) by (nonlinear_arith)
                requires
                    count == m + 1,
            ;
        } else {
            assert(entry_weight(entry) == payload_weight(m as int));
            if count == 2 {
                assert((count - 2) * (count - 3) == 0) by (nonlinear_arith)
                    requires
                        count == 2,
                ;
            }
        }
    } else {
        assert(dag_model(0) =~= Seq::<DagEntry>::empty());
        assert(span_total(0, 0) == 0);
    }
}

proof fn lemma_dag_total_step(entries: Seq<DagEntry>, k: int)
    requires
        0 <= k < entries.len(),
    ensures
        dag_total(entries.take(k + 1)) == dag_total(entries.take(k)) + entry_weight(entries[k]),
{
    assert(entries.take(k + 1).drop_last() =~= entries.take(k));
}

fn children(id: usize) -> (links: [Option<usize>; 2])
    ensures
        links@[0] matches Some(c) ==> left_child(id as nat) == Some(c as nat),
        links@[0] is None ==> left_child(id as nat) is None,
        links@[1] matches Some(c) ==> right_child(id as nat) == Some(c as nat),
        links@[1] is None ==> right_child(id as nat) is None,
{
    let left = match id.checked_sub(1) {
        Some(index) => Some(index / 2),
        None => None,
    };
    let right = match id.checked_sub(2) {
        Some(index) => Some(index / 2),
        None => None,
    };
    [left, right]
}

/// Calls `Arc::clone`, which makes another pointer to the same allocation and
/// raises its strong count. The claim is that the new pointer reads the same
/// value as the one it was cloned from.
#[verifier::external_body]
fn share<T>(node: &Arc<T>) -> (shared: Arc<T>)
    ensures
        shared == *node,
{
    Arc::clone(node)
}

struct ArcNode {
    payload: Payload,
    children: [Option<Arc<ArcNode>>; 2],
}

spec fn arc_link(nodes: Seq<Arc<ArcNode>>, link: Option<nat>) -> Option<Arc<ArcNode>> {
    match link {
        Some(j) => Some(nodes[j as int]),
        None => None,
    }
}

spec fn arc_link_id(link: Option<Arc<ArcNode>>) -> Option<nat> {
    match link {
        Some(child) => Some(child.payload.id as nat),
        None => None,
    }
}

/// Node `i` carries identifier `i`, and its children are the very nodes
/// (shared through `Arc`s) at the indices its links name.
spec fn arc_node_ok(nodes: Seq<Arc<ArcNode>>, i: int) -> bool {
    let node = nodes[i];
    &&& node.payload.wf()
    &&& node.payload.id == i
    &&& node.children@[0] == arc_link(nodes, left_child(i as nat))
    &&& node.children@[1] == arc_link(nodes, right_child(i as nat))
}

spec fn arc_nodes_ok(nodes: Seq<Arc<ArcNode>>) -> bool {
    forall|i: int| 0 <= i < nodes.len() ==> #[trigger] arc_node_ok(nodes, i)
}

/// A DAG whose nodes are shared through reference-counted `Arc`s.
pub struct ArcDag {
    nodes: Vec<Arc<ArcNode>>,
}

impl View for ArcDag {
    type V = Seq<DagEntry>;

    /// The nodes in the order they were built.
    closed spec fn view(&self) -> Seq<DagEntry> {
        Seq::new(
            self.nodes.len() as nat,
            |i: int|
                DagEntry {
                    id: self.nodes@[i].payload.id as nat,
                    left: arc_link_id(self.nodes@[i].children@[0]),
                    right: arc_link_id(self.nodes@[i].children@[1]),
                },
        )
    }
}

impl ArcDag {
    #[verifier::type_invariant]
    spec fn inv(self) -> bool {
        arc_nodes_ok(self.nodes@)
    }

    /// Builds the nodes `0..count` in order, each holding `Arc`s to its
    /// children.
    pub fn new(count: usize) -> (dag: Self)
        ensures
            dag@ == dag_model(count as nat),
    {
        let mut nodes: Vec<Arc<ArcNode>> = Vec::with_capacity(count);
        for id in 0..count
            invariant
                nodes.len() == id,
                arc_nodes_ok(nodes@),
        {
            let links = children(id);
            proof {
                lemma_children_precede(id as nat);
            }
            let left = match links[0] {
                Some(index) => Some(share(&nodes[index])),
                None => None,
            };
            let right = match links[1] {
                Some(index) => Some(share(&nodes[index])),
                None => None,
            };
            let ghost before = nodes@;
            nodes.push(Arc::new(ArcNode { payload: Payload::new(id), children: [left, right] }));
            assert forall|i: int| 0 <= i < nodes@.len() implies #[trigger] arc_node_ok(
                nodes@,
                i,
            ) by {
                if i < id {
                    assert(arc_node_ok(before, i));
                    lemma_children_precede(i as nat);
                }
            }
        }
        let dag = Self { nodes };
        assert(dag@ =~= dag_model(count as nat)) by {
            assert forall|i: int| 0 <= i < count implies #[trigger] dag@[i] == dag_model(
                count as nat,
            )[i] by {
                assert(arc_node_ok(dag.nodes@, i));
                lemma_children_precede(i as nat);
                if let Some(j) = left_child(i as nat) {
                    assert(arc_node_ok(dag.nodes@, j as int));
                }
                if let Some(j) = right_child(i as nat) {
                    assert(arc_node_ok(dag.nodes@, j as int));
                }
            }
        }
        dag
    }

    /// The wrapping sum, node by node, of the payload checksum and the
    /// identifiers of the children.
    pub fn checksum(&self) -> (sum: usize)
        ensures
            sum as int == wrap(dag_total(self@)),
    {
        proof {
            use_type_invariant(self);
            lemma_wrap_word(0);
        }
        let ghost entries = self@;
        let mut sum = 0usize;
        let mut i: usize = 0;
        assert(entries.take(0) =~= Seq::<DagEntry>::empty());
        while i < self.nodes.len()
            invariant
                i <= self.nodes.len(),
                entries == self@,
                arc_nodes_ok(self.nodes@),
                sum as int == wrap(dag_total(entries.take(i as int))),
            decreases self.nodes.len() - i,
        {
            let node = &self.nodes[i];
            assert(arc_node_ok(self.nodes@, i as int));
            let ghost before = dag_total(entries.take(i as int));
            let own = node.payload.checksum();
            proof {
                lemma_accumulate(sum, before, own, payload_weight(node.payload.id as int));
            }
            sum = sum.wrapping_add(own);
            let ghost mid = before + payload_weight(node.payload.id as int);
            match &node.children[0] {
                Some(child) => {
                    proof {
                        lemma_wrap_word(child.payload.id);
                        lemma_accumulate(sum, mid, child.payload.id, child.payload.id as int);
                    }
                    sum = sum.wrapping_add(child.payload.id);
                },
                None => {},
            }
            let ghost mid2 = mid + link_weight(entries[i as int].left);
            match &node.children[1] {
                Some(child) => {
                    proof {
                        lemma_wrap_word(child.payload.id);
                        lemma_accumulate(sum, mid2, child.payload.id, child.payload.id as int);
                    }
                    sum = sum.wrapping_add(child.payload.id);
                },
                None => {},
            }
            proof {
                lemma_dag_total_step(entries, i as int);
            }
            i += 1;
        }
        assert(entries.take(i as int) =~= entries);
        sum
    }
}

/// An `Arc` DAG and an arena DAG built from the same count hold the same nodes
/// with the same links, so their checksums are equal.
pub proof fn lemma_dag_representations_agree<'a>(count: nat, shared: ArcDag, arena: ArenaDag<'a>)
    requires
        shared@ == dag_model(count),
        arena@ == dag_model(count),
    ensures
        shared@ == arena@,
        wrap(dag_total(shared@)) == wrap(dag_total(arena@)),
{
}

struct ArenaNode<'a> {
    payload: Payload,
    children: [Option<&'a ArenaNode<'a>>; 2],
}

spec fn arena_link<'a>(nodes: Seq<&'a ArenaNode<'a>>, link: Option<nat>) -> Option<&'a ArenaNode<'a>> {
    match link {
        Some(j) => Some(nodes[j as int]),
        None => None,
    }
}

spec fn arena_link_id(link: Option<&ArenaNode>) -> Option<nat> {
    match link {
        Some(child) => Some(child.payload.id as nat),
        None => None,
    }
}

/// Node `i` carries identifier `i`, and its children are the very nodes at
/// the indices its links name.
spec fn arena_node_ok(nodes: Seq<&ArenaNode>, i: int) -> bool {
    let node = nodes[i];
    &&& node.payload.wf()
    &&& node.payload.id == i
    &&& node.children@[0] == arena_link(nodes, left_child(i as nat))
    &&& node.children@[1] == arena_link(nodes, right_child(i as nat))
}

spec fn arena_nodes_ok(nodes: Seq<&ArenaNode>) -> bool {
    forall|i: int| 0 <= i < nodes.len() ==> #[trigger] arena_node_ok(nodes, i)
}

/// The bytes that `ArenaDag::new_arena` reserves per node.
pub closed spec fn arena_node_bytes() -> nat {
    vstd::layout::size_of::<ArenaNode<'static>>()
}

/// A DAG whose nodes live in an arena and refer to their children by
/// reference.
pub struct ArenaDag<'a> {
    nodes: Vec<&'a ArenaNode<'a>>,
}

impl<'a> View for ArenaDag<'a> {
    type V = Seq<DagEntry>;

    /// The nodes in the order they were built.
    closed spec fn view(&self) -> Seq<DagEntry> {
        Seq::new(
            self.nodes.len() as nat,
            |i: int|
                DagEntry {
                    id: self.nodes@[i].payload.id as nat,
                    left: arena_link_id(self.nodes@[i].children@[0]),
                    right: arena_link_id(self.nodes@[i].children@[1]),
                },
        )
    }
}

impl<'a> ArenaDag<'a> {
    #[verifier::type_invariant]
    spec fn inv(self) -> bool {
        arena_nodes_ok(self.nodes@)
    }

    /// Whether `new_arena` accepts `count`: the bytes for `count` nodes stay
    /// within `isize::MAX`.
    pub fn arena_fits(count: usize) -> (fits: bool)
        ensures
            fits == (count * arena_node_bytes() <= isize::MAX),
    {
        match count.checked_mul(std::mem::size_of::<ArenaNode<'_>>()) {
            Some(bytes) => bytes <= isize::MAX as usize,
            None => false,
        }
    }

    /// An arena with room for the nodes of a DAG of `count` nodes.
    pub fn new_arena(count: usize) -> (arena: bumpalo::Bump)
        requires
            count * arena_node_bytes() <= isize::MAX,
        ensures
            requested_capacity(arena) == count * arena_node_bytes(),
    {
        let bytes = count.checked_mul(std::mem::size_of::<ArenaNode<'_>>()).expect(
            "DAG is too large",
        );
        arena_with_capacity(bytes)
    }

    /// Builds the nodes `0..count` in order, each allocated in `arena` and
    /// referring to its children.
    pub fn new(arena: &'a bumpalo::Bump, count: usize) -> (dag: Self)
        ensures
            dag@ == dag_model(count as nat),
    {
        let mut nodes: Vec<&'a ArenaNode<'a>> = Vec::with_capacity(count);
        for id in 0..count
            invariant
                nodes.len() == id,
                arena_nodes_ok(nodes@),
        {
            let links = children(id);
            proof {
                lemma_children_precede(id as nat);
            }
            let left = match links[0] {
                Some(index) => Some(nodes[index]),
                None => None,
            };
            let right = match links[1] {
                Some(index) => Some(nodes[index]),
                None => None,
            };
            let node = arena_alloc(
                arena,
                ArenaNode { payload: Payload::new(id), children: [left, right] },
            );
            let ghost before = nodes@;
            nodes.push(node);
            assert forall|i: int| 0 <= i < nodes@.len() implies #[trigger] arena_node_ok(
                nodes@,
                i,
            ) by {
                if i < id {
                    assert(arena_node_ok(before, i));
                    lemma_children_precede(i as nat);
                }
            }
        }
        let dag = Self { nodes };
        assert(dag@ =~= dag_model(count as nat)) by {
            assert forall|i: int| 0 <= i < count implies #[trigger] dag@[i] == dag_model(
                count as nat,
            )[i] by {
                assert(arena_node_ok(dag.nodes@, i));
                lemma_children_precede(i as nat);
                if let Some(j) = left_child(i as nat) {
                    assert(arena_node_ok(dag.nodes@, j as int));
                }
                if let Some(j) = right_child(i as nat) {
                    assert(arena_node_ok(dag.nodes@, j as int));
                }
            }
        }
        dag
    }

    /// The wrapping sum, node by node, of the payload checksum and the
    /// identifiers of the children.
    pub fn checksum(&self) -> (sum: usize)
        ensures
            sum as int == wrap(dag_total(self@)),
    {
        proof {
            use_type_invariant(self);
            lemma_wrap_word(0);
        }
        let ghost entries = self@;
        let mut sum = 0usize;
        let mut i: usize = 0;
        assert(entries.take(0) =~= Seq::<DagEntry>::empty());
        while i < self.nodes.len()
            invariant
                i <= self.nodes.len(),
                entries == self@,
                arena_nodes_ok(self.nodes@),
                sum as int == wrap(dag_total(entries.take(i as int))),
            decreases self.nodes.len() - i,
        {
            let node = self.nodes[i];
            assert(arena_node_ok(self.nodes@, i as int));
            let ghost before = dag_total(entries.take(i as int));
            let own = node.payload.checksum();
            proof {
                lemma_accumulate(sum, before, own, payload_weight(node.payload.id as int));
            }
            sum = sum.wrapping_add(own);
            let ghost mid = before + payload_weight(node.payload.id as int);
            match node.children[0] {
                Some(child) => {
                    proof {
                        lemma_wrap_word(child.payload.id);
                        lemma_accumulate(sum, mid, child.payload.id, child.payload.id as int);
                    }
                    sum = sum.wrapping_add(child.payload.id);
                },
                None => {},
            }
            let ghost mid2 = mid + link_weight(entries[i as int].left);
            match node.children[1] {
                Some(child) => {
                    proof {
                        lemma_wrap_word(child.payload.id);
                        lemma_accumulate(sum, mid2, child.payload.id, child.payload.id as int);
                    }
                    sum = sum.wrapping_add(child.payload.id);
                },
                None => {},
            }
            proof {
                lemma_dag_total_step(entries, i as int);
            }
            i += 1;
        }
        assert(entries.take(i as int) =~= entries);
        sum
    }
}

} // verus!
