//! A graph in which node `id` has `DEGREE` edges to the nodes that follow it,
//! wrapping around: once with an edge `Vec` per node, once with edge slices in
//! an arena.
use vstd::prelude::*;

use crate::arena::{arena_alloc_slice_fill_with, arena_with_capacity, requested_capacity};
use crate::modular::{lemma_accumulate, lemma_wrap_absorb, lemma_wrap_word, wrap};
use crate::payload::{payload_weight, span_total, Payload};

verus! {

/// The number of edges of every node.
pub const DEGREE: usize = 8;

/// Edge `slot` of node `node` in a graph of `count` nodes, as its target and
/// its weight: the target is `slot + 1` nodes further on, wrapping around, and
/// the weight is the slot; both are stored as `u32`.
pub open spec fn edge_model(node: nat, slot: nat, count: nat) -> (u32, u32) {
    (((node + slot + 1) % count) as u32, slot as u32)
}

/// A node of a graph as its identifier and its edges, each a target and a
/// weight.
pub struct GraphEntry {
    pub id: nat,
    pub edges: Seq<(u32, u32)>,
}

/// The graph built from `count`: node `i` has identifier `i` and edges
/// `edge_model(i, 0, count)` to `edge_model(i, DEGREE - 1, count)`.
pub open spec fn graph_model(count: nat) -> Seq<GraphEntry> {
    Seq::new(
        count,
        |i: int|
            GraphEntry {
                id: i as nat,
                edges: Seq::new(DEGREE as nat, |s: int| edge_model(i as nat, s as nat, count)),
            },
    )
}

/// The exact sum of the targets and weights of the edges.
pub open spec fn edges_total(edges: Seq<(u32, u32)>) -> int
    decreases edges.len(),
{
    if edges.len() == 0 {
        0
    } else {
        edges_total(edges.drop_last()) + edges.last().0 + edges.last().1
    }
}

/// The exact checksum contribution of one node: its payload weight and the
/// targets and weights of its edges.
pub open spec fn graph_entry_weight(entry: GraphEntry) -> int {
    payload_weight(entry.id as int) + edges_total(entry.edges)
}

/// The exact sum of the contributions of the nodes, in order.
pub open spec fn graph_total(entries: Seq<GraphEntry>) -> int
    decreases entries.len(),
{
    if entries.len() == 0 {
        0
    } else {
        graph_total(entries.drop_last()) + graph_entry_weight(entries.last())
    }
}

/// Every edge of a graph built from a positive count leads to one of its
/// nodes, and every node has exactly `DEGREE` edges.
pub proof fn lemma_edges_stay_in_graph(count: nat, i: int, s: int)
    requires
        count > 0,
        0 <= i < count,
        0 <= s < DEGREE,
    ensures
        graph_model(count)[i].edges.len() == DEGREE,
        graph_model(count)[i].edges[s].0 < count,
        graph_model(count)[i].edges[s].1 == s,
{
    let t = (i + s + 1) % (count as int);
    assert(0 <= t < count);
}

/// `f(0) + f(1) + ... + f(k - 1)`.
spec fn sum_of(k: nat, f: spec_fn(int) -> int) -> int
    decreases k,
{
    if k == 0 {
        0
    } else {
        sum_of((k - 1) as nat, f) + f(k - 1)
    }
}

proof fn lemma_sum_of_pointwise(k: nat, f: spec_fn(int) -> int, g: spec_fn(int) -> int)
    requires
        forall|i: int| 0 <= i < k ==> #[trigger] f(i) == g(i),
    ensures
        sum_of(k, f) == sum_of(k, g),
    decreases k,
{
    if k > 0 {
        lemma_sum_of_pointwise((k - 1) as nat, f, g);
    }
}

proof fn lemma_sum_of_add(
    k: nat,
    f: spec_fn(int) -> int,
    g: spec_fn(int) -> int,
    h: spec_fn(int) -> int,
)
    requires
        forall|i: int| 0 <= i < k ==> #[trigger] h(i) == f(i) + g(i),
    ensures
        sum_of(k, h) == sum_of(k, f) + sum_of(k, g),
    decreases k,
{
    if k > 0 {
        lemma_sum_of_add((k - 1) as nat, f, g, h);
    }
}

/// Shifting the argument by one drops `g(0)` and adds `g(k)`.
proof fn lemma_sum_of_shift(k: nat, g: spec_fn(int) -> int, shifted: spec_fn(int) -> int)
    requires
        forall|i: int| 0 <= i < k ==> #[trigger] shifted(i) == g(i + 1),
    ensures
        sum_of(k, shifted) == sum_of(k, g) - g(0) + g(k as int),
    decreases k,
{
    if k > 0 {
        lemma_sum_of_shift((k - 1) as nat, g, shifted);
    }
}

proof fn lemma_sum_of_constant(k: nat, f: spec_fn(int) -> int, c: int)
    requires
        forall|i: int| 0 <= i < k ==> #[trigger] f(i) == c,
    ensures
        sum_of(k, f) == k * c,
    decreases k,
{
    if k > 0 {
        let before = (k - 1) as nat;
        lemma_sum_of_constant(before, f, c);
        assert(sum_of(k, f) == sum_of(before, f) + f(before as int));
        assert(before * c + c == k * c) by (nonlinear_arith)
            requires
                before == k - 1,
        ;
    } else {
        assert(k * c == 0) by (nonlinear_arith)
            requires
                k == 0,
        ;
    }
}

proof fn lemma_sum_of_identity(k: nat, f: spec_fn(int) -> int)
    requires
        forall|i: int| 0 <= i < k ==> #[trigger] f(i) == i,
    ensures
        2 * sum_of(k, f) == k * (k - 1),
    decreases k,
{
    if k > 0 {
        let before = (k - 1) as nat;
        lemma_sum_of_identity(before, f);
        assert(sum_of(k, f) == sum_of(before, f) + f(before as int));
        assert(before * (before - 1) + 2 * before == k * (k - 1)) by (nonlinear_arith)
            requires
                before == k - 1,
        ;
    } else {
        assert(k * (k - 1) == 0) by (nonlinear_arith)
            requires
                k == 0,
        ;
    }
}

proof fn lemma_sum_of_weights(k: nat, f: spec_fn(int) -> int)
    requires
        forall|i: int| 0 <= i < k ==> #[trigger] f(i) == payload_weight(i),
    ensures
        sum_of(k, f) == span_total(0, k),
    decreases k,
{
    if k > 0 {
        lemma_sum_of_weights((k - 1) as nat, f);
    }
}

/// Shifting `0..n` by `c` modulo `n` runs through `0..n` again, so the sum is
/// `n * (n - 1) / 2` whatever `c` is.
proof fn lemma_shifted_residues(n: nat, c: nat, f: spec_fn(int) -> int)
    requires
        n >= 1,
        forall|i: int| 0 <= i < n ==> #[trigger] f(i) == (i + c) % (n as int),
    ensures
        2 * sum_of(n, f) == n * (n - 1),
    decreases c,
{
    if c == 0 {
        assert forall|i: int| 0 <= i < n implies #[trigger] f(i) == i by {
            vstd::arithmetic::div_mod::lemma_small_mod(i as nat, n);
        }
        lemma_sum_of_identity(n, f);
    } else {
        let g = |i: int| (i + c - 1) % (n as int);
        lemma_shifted_residues(n, (c - 1) as nat, g);
        lemma_sum_of_shift(n, g, f);
        vstd::arithmetic::div_mod::lemma_mod_add_multiples_vanish(c - 1, n as int);
    }
}

/// The targets of the first `m` slots of node `i` in a graph of `n` nodes.
spec fn targets(i: int, m: nat, n: nat) -> int {
    sum_of(m, |s: int| (i + s + 1) % (n as int))
}

spec fn targets_of(m: nat, n: nat) -> spec_fn(int) -> int {
    |i: int| targets(i, m, n)
}

/// Over all nodes, each of the first `m` slots contributes `n * (n - 1) / 2`.
proof fn lemma_slot_targets(m: nat, n: nat)
    requires
        n >= 1,
    ensures
        2 * sum_of(n, targets_of(m, n)) == m * n * (n - 1),
    decreases m,
{
    if m == 0 {
        assert forall|i: int| 0 <= i < n implies #[trigger] targets_of(m, n)(i) == 0 by {
            assert(targets(i, m, n) == 0);
        }
        lemma_sum_of_constant(n, targets_of(m, n), 0);
        assert(m * n * (n - 1) == 0) by (nonlinear_arith)
            requires
                m == 0,
        ;
    } else {
        let before = (m - 1) as nat;
        let previous = targets_of(before, n);
        let slot = |i: int| (i + m) % (n as int);
        lemma_slot_targets(before, n);
        lemma_shifted_residues(n, m, slot);
        lemma_sum_of_add(n, previous, slot, targets_of(m, n));
        assert(before * n * (n - 1) + n * (n - 1) == m * n * (n - 1)) by (nonlinear_arith)
            requires
                before == m - 1,
        ;
    }
}

spec fn edges_of(i: nat, m: nat, n: nat) -> Seq<(u32, u32)> {
    Seq::new(m, |s: int| edge_model(i, s as nat, n))
}

spec fn slot_weights(m: nat) -> int {
    sum_of(m, |s: int| s)
}

/// The edges of node `i` sum their weights `0..m` and their targets.
proof fn lemma_edges_total_slots(i: nat, m: nat, n: nat)
    requires
        i < n,
        n <= u32::MAX + 1,
        m <= DEGREE,
    ensures
        edges_total(edges_of(i, m, n)) == slot_weights(m) + targets(i as int, m, n),
    decreases m,
{
    if m > 0 {
        assert(edges_of(i, m, n).drop_last() =~= edges_of(i, (m - 1) as nat, n));
        lemma_edges_total_slots(i, (m - 1) as nat, n);
        let t = (i as int + m as int) % (n as int);
        assert(0 <= t < n);
    }
}

spec fn node_weights(n: nat) -> spec_fn(int) -> int {
    |i: int| payload_weight(i) + edges_total(edges_of(i as nat, DEGREE as nat, n))
}

proof fn lemma_graph_total_prefix(n: nat, k: nat)
    requires
        k <= n,
    ensures
        graph_total(graph_model(n).take(k as int)) == sum_of(k, node_weights(n)),
    decreases k,
{
    if k > 0 {
        assert(graph_model(n).take(k as int).drop_last() =~= graph_model(n).take(k - 1));
        assert(graph_model(n)[k - 1].edges =~= edges_of((k - 1) as nat, DEGREE as nat, n));
        lemma_graph_total_prefix(n, (k - 1) as nat);
    }
}

/// For at most `2^32` nodes, so that no target is truncated, the exact
/// checksum of the graph built from `count` is the payload weights of
/// `0..count`, plus 28 per node for the edge weights `0..8`, plus
/// `4 * count * (count - 1)` for the targets: each slot's targets run through
/// every node once.
pub proof fn lemma_graph_total_closed_form(count: nat)
    requires
        count <= u32::MAX + 1,
    ensures
        graph_total(graph_model(count)) == span_total(0, count) + 28 * count + 4 * count * (
        count - 1),
{
    if count == 0 {
        assert(graph_model(count) =~= Seq::<GraphEntry>::empty());
    } else {
        assert(graph_model(count).take(count as int) =~= graph_model(count));
        lemma_graph_total_prefix(count, count);
        assert(slot_weights(8) == 28) by {
            reveal_with_fuel(sum_of, 9);
        }
        let own = |i: int| payload_weight(i) + 28;
        let weights = |i: int| payload_weight(i);
        let constant = |i: int| 28int;
        assert forall|i: int| 0 <= i < count implies #[trigger] node_weights(count)(i) == own(i)
            + targets_of(8, count)(i) by {
            lemma_edges_total_slots(i as nat, 8, count);
        }
        lemma_sum_of_add(count, own, targets_of(8, count), node_weights(count));
        lemma_sum_of_add(count, weights, constant, own);
        lemma_sum_of_weights(count, weights);
        lemma_sum_of_constant(count, constant, 28);
        lemma_slot_targets(8, count);
        assert(8 * count * (count - 1) == 2 * (4 * count * (count - 1))) by (nonlinear_arith);
    }
}

/// The exact checksum of nodes `a` followed by nodes `b` is the sum of the
/// two checksums.
pub proof fn lemma_graph_total_concat(a: Seq<GraphEntry>, b: Seq<GraphEntry>)
    ensures
        graph_total(a + b) == graph_total(a) + graph_total(b),
    decreases b.len(),
{
    if b.len() == 0 {
        assert(a + b =~= a);
    } else {
        assert((a + b).drop_last() =~= a + b.drop_last());
        lemma_graph_total_concat(a, b.drop_last());
    }
}

/// The checksum of nodes `a` followed by nodes `b` is the wrapping sum of the
/// two checksums.
pub proof fn lemma_graph_checksum_concat(a: Seq<GraphEntry>, b: Seq<GraphEntry>)
    ensures
        wrap(graph_total(a + b)) == wrap(wrap(graph_total(a)) + wrap(graph_total(b))),
{
    lemma_graph_total_concat(a, b);
    vstd::arithmetic::div_mod::lemma_add_mod_noop(
        graph_total(a),
        graph_total(b),
        crate::modular::word_modulus(),
    );
}

/// Taking one node out of a sequence takes its contribution out of the exact
/// checksum.
proof fn lemma_graph_total_remove(entries: Seq<GraphEntry>, j: int)
    requires
        0 <= j < entries.len(),
    ensures
        graph_total(entries) == graph_total(entries.remove(j)) + graph_entry_weight(entries[j]),
{
    let front = entries.take(j);
    let back = entries.skip(j + 1);
    assert(entries =~= front + seq![entries[j]] + back);
    assert(entries.remove(j) =~= front + back);
    assert(seq![entries[j]].drop_last() =~= Seq::<GraphEntry>::empty());
    assert(graph_total(Seq::<GraphEntry>::empty()) == 0);
    assert(graph_total(seq![entries[j]]) == graph_entry_weight(entries[j]));
    lemma_graph_total_concat(front + seq![entries[j]], back);
    lemma_graph_total_concat(front, seq![entries[j]]);
    lemma_graph_total_concat(front, back);
}

/// The checksum does not depend on the order of the nodes: two sequences
/// holding the same nodes, each as often, have the same exact checksum.
pub proof fn lemma_graph_total_order_free(a: Seq<GraphEntry>, b: Seq<GraphEntry>)
    requires
        a.to_multiset() == b.to_multiset(),
    ensures
        graph_total(a) == graph_total(b),
    decreases a.len(),
{
    broadcast use vstd::seq_lib::group_to_multiset_ensures;
    broadcast use vstd::multiset::group_multiset_axioms;

    if a.len() == 0 {
        assert(a.to_multiset().len() == 0);
        assert(b.to_multiset().len() == b.len());
        assert(b =~= Seq::<GraphEntry>::empty());
    } else {
        let rest = a.drop_last();
        let last = a.last();
        assert(a =~= rest.push(last));
        assert(a.to_multiset().count(last) > 0);
        assert(b.contains(last));
        let j = choose|j: int| 0 <= j < b.len() && b[j] == last;
        assert(b.remove(j).to_multiset() =~= rest.to_multiset());
        lemma_graph_total_order_free(rest, b.remove(j));
        lemma_graph_total_remove(b, j);
    }
}

#[derive(Clone, Copy)]
struct Edge {
    target: u32,
    weight: u32,
}

spec fn edges_model(edges: Seq<Edge>) -> Seq<(u32, u32)> {
    edges.map_values(|edge: Edge| (edge.target, edge.weight))
}

fn edge(node: usize, slot: usize, count: usize) -> (made: Edge)
    requires
        count > 0,
        node + slot + 1 <= usize::MAX,
    ensures
        (made.target, made.weight) == edge_model(node as nat, slot as nat, count as nat),
{
    Edge { target: ((node + slot + 1) % count) as u32, weight: slot as u32 }
}

/// Adds to `sum` the payload checksum and then the target and weight of each
/// edge, all wrapping.
fn checksum_node(sum: usize, payload: Payload, edges: &[Edge]) -> (result: usize)
    requires
        payload.wf(),
    ensures
        result as int == wrap(
            sum + graph_entry_weight(GraphEntry { id: payload.id as nat, edges: edges_model(edges@) }),
        ),
{
    let ghost model = edges_model(edges@);
    let own = payload.checksum();
    proof {
        lemma_wrap_word(sum);
        lemma_accumulate(sum, sum as int, own, payload_weight(payload.id as int));
    }
    let mut acc = sum.wrapping_add(own);
    let ghost start = sum + payload_weight(payload.id as int);
    let mut k: usize = 0;
    assert(model.take(0) =~= Seq::<(u32, u32)>::empty());
    while k < edges.len()
        invariant
            k <= edges.len(),
            model == edges_model(edges@),
            acc as int == wrap(start + edges_total(model.take(k as int))),
        decreases edges.len() - k,
    {
        let e = edges[k];
        let ghost before = start + edges_total(model.take(k as int));
        proof {
            assert(model.take(k + 1).drop_last() =~= model.take(k as int));
            lemma_wrap_word(e.target as usize);
            lemma_accumulate(acc, before, e.target as usize, e.target as int);
        }
        acc = acc.wrapping_add(e.target as usize);
        proof {
            lemma_wrap_word(e.weight as usize);
            lemma_accumulate(acc, before + e.target, e.weight as usize, e.weight as int);
        }
        acc = acc.wrapping_add(e.weight as usize);
        k += 1;
    }
    assert(model.take(k as int) =~= model);
    acc
}

proof fn lemma_graph_total_step(entries: Seq<GraphEntry>, k: int)
    requires
        0 <= k < entries.len(),
    ensures
        graph_total(entries.take(k + 1)) == graph_total(entries.take(k)) + graph_entry_weight(
            entries[k],
        ),
{
    assert(entries.take(k + 1).drop_last() =~= entries.take(k));
}

struct NestedNode {
    payload: Payload,
    edges: Vec<Edge>,
}

/// A graph whose every node owns its edges in a `Vec`.
pub struct NestedGraph {
    nodes: Vec<NestedNode>,
}

impl View for NestedGraph {
    type V = Seq<GraphEntry>;

    /// The nodes with their edges, in the order they were built.
    closed spec fn view(&self) -> Seq<GraphEntry> {
        Seq::new(
            self.nodes.len() as nat,
            |i: int|
                GraphEntry {
                    id: self.nodes@[i].payload.id as nat,
                    edges: edges_model(self.nodes@[i].edges@),
                },
        )
    }
}

impl NestedGraph {
    #[verifier::type_invariant]
    spec fn inv(self) -> bool {
        forall|i: int| 0 <= i < self.nodes.len() ==> (#[trigger] self.nodes@[i]).payload.wf()
    }

    /// Builds the nodes `0..count`, each with a `Vec` of its `DEGREE` edges.
    pub fn new(count: usize) -> (graph: Self)
        requires
            count + DEGREE <= usize::MAX + 1,
        ensures
            graph@ == graph_model(count as nat),
    {
        let mut nodes: Vec<NestedNode> = Vec::with_capacity(count);
        for id in 0..count
            invariant
                nodes.len() == id,
                count + DEGREE <= usize::MAX + 1,
                forall|i: int| 0 <= i < id ==> (#[trigger] nodes@[i]).payload.wf(),
                forall|i: int|
                    0 <= i < id ==> (#[trigger] nodes@[i]).payload.id == i && edges_model(
                        nodes@[i].edges@,
                    ) == graph_model(count as nat)[i].edges,
        {
            let mut edges: Vec<Edge> = Vec::with_capacity(DEGREE);
            for slot in 0..DEGREE
                invariant
                    edges.len() == slot,
                    id < count,
                    count + DEGREE <= usize::MAX + 1,
                    forall|s: int|
                        0 <= s < slot ==> (#[trigger] edges@[s].target, edges@[s].weight)
                            == edge_model(id as nat, s as nat, count as nat),
            {
                edges.push(edge(id, slot, count));
            }
            assert(edges_model(edges@) =~= graph_model(count as nat)[id as int].edges);
            nodes.push(NestedNode { payload: Payload::new(id), edges });
        }
        let graph = Self { nodes };
        assert(graph@ =~= graph_model(count as nat));
        graph
    }

    /// The wrapping sum, node by node, of the payload checksum and the
    /// targets and weights of the edges.
    pub fn checksum(&self) -> (sum: usize)
        ensures
            sum as int == wrap(graph_total(self@)),
    {
        proof {
            use_type_invariant(self);
            lemma_wrap_word(0);
        }
        let ghost entries = self@;
        let mut sum = 0usize;
        let mut i: usize = 0;
        assert(entries.take(0) =~= Seq::<GraphEntry>::empty());
        while i < self.nodes.len()
            invariant
                i <= self.nodes.len(),
                entries == self@,
                forall|j: int| 0 <= j < self.nodes.len() ==> (#[trigger] self.nodes@[j]).payload.wf(),
                sum as int == wrap(graph_total(entries.take(i as int))),
            decreases self.nodes.len() - i,
        {
            let node = &self.nodes[i];
            let ghost before = graph_total(entries.take(i as int));
            let next = checksum_node(sum, node.payload, node.edges.as_slice());
            proof {
                lemma_graph_total_step(entries, i as int);
                lemma_wrap_absorb(before, graph_entry_weight(entries[i as int]));
            }
            sum = next;
            i += 1;
        }
        assert(entries.take(i as int) =~= entries);
        sum
    }
}

/// A graph with edge `Vec`s and an arena graph built from the same count hold
/// the same nodes with the same edges, so their checksums are equal.
pub proof fn lemma_graph_representations_agree<'a>(
    count: nat,
    nested: NestedGraph,
    arena: ArenaGraph<'a>,
)
    requires
        nested@ == graph_model(count),
        arena@ == graph_model(count),
    ensures
        nested@ == arena@,
        wrap(graph_total(nested@)) == wrap(graph_total(arena@)),
{
}

struct ArenaNode<'a> {
    payload: Payload,
    edges: &'a [Edge],
}

/// The bytes that `ArenaGraph::new_arena` reserves per node: the node and its
/// `DEGREE` edges.
pub closed spec fn arena_node_bytes() -> nat {
    arena_node_size() + (DEGREE as nat) * edge_size()
}

spec fn edge_built(made: Edge, node: usize, slot: usize, count: usize) -> bool {
    (made.target, made.weight) == edge_model(node as nat, slot as nat, count as nat)
}

spec fn arena_node_built(node: ArenaNode, id: usize, count: usize) -> bool {
    &&& node.payload.wf()
    &&& node.payload.id == id
    &&& edges_model(node.edges@) == graph_model(count as nat)[id as int].edges
}

/// The size of one node of an arena graph.
spec fn arena_node_size() -> nat {
    vstd::layout::size_of::<ArenaNode<'static>>()
}

/// The size of one edge of an arena graph.
spec fn edge_size() -> nat {
    vstd::layout::size_of::<Edge>()
}

/// A graph whose nodes and edge slices live in an arena.
pub struct ArenaGraph<'a> {
    nodes: &'a [ArenaNode<'a>],
}

impl<'a> View for ArenaGraph<'a> {
    type V = Seq<GraphEntry>;

    /// The nodes with their edges, in the order they were built.
    closed spec fn view(&self) -> Seq<GraphEntry> {
        Seq::new(
            self.nodes@.len(),
            |i: int|
                GraphEntry {
                    id: self.nodes@[i].payload.id as nat,
                    edges: edges_model(self.nodes@[i].edges@),
                },
        )
    }
}

impl<'a> ArenaGraph<'a> {
    #[verifier::type_invariant]
    spec fn inv(self) -> bool {
        forall|i: int| 0 <= i < self.nodes@.len() ==> (#[trigger] self.nodes@[i]).payload.wf()
    }

    /// Whether `new_arena` and `new` accept `count` as far as sizes go: the
    /// bytes for one node and its edges fit in a `usize`, and those for
    /// `count` nodes stay within `isize::MAX`.
    pub fn arena_fits(count: usize) -> (fits: bool)
        ensures
            fits == (arena_node_bytes() <= usize::MAX && count * arena_node_bytes()
                <= isize::MAX),
    {
        let edges_bytes = match DEGREE.checked_mul(std::mem::size_of::<Edge>()) {
            Some(bytes) => bytes,
            None => return false,
        };
        let per_node = match std::mem::size_of::<ArenaNode<'_>>().checked_add(edges_bytes) {
            Some(bytes) => bytes,
            None => return false,
        };
        match count.checked_mul(per_node) {
            Some(bytes) => bytes <= isize::MAX as usize,
            None => false,
        }
    }

    /// An arena with room for the nodes and edges of a graph of `count`
    /// nodes.
    pub fn new_arena(count: usize) -> (arena: bumpalo::Bump)
        requires
            arena_node_bytes() <= usize::MAX,
            count * arena_node_bytes() <= isize::MAX,
        ensures
            requested_capacity(arena) == count * arena_node_bytes(),
    {
        let bytes_per_node = std::mem::size_of::<ArenaNode<'_>>() + DEGREE
            * std::mem::size_of::<Edge>();
        let bytes = count.checked_mul(bytes_per_node).expect("graph is too large");
        arena_with_capacity(bytes)
    }

    /// Builds the nodes `0..count` as one slice in `arena`, each with a slice
    /// of its `DEGREE` edges, also in `arena`.
    pub fn new(arena: &'a bumpalo::Bump, count: usize) -> (graph: Self)
        requires
            count + DEGREE <= usize::MAX + 1,
            count * arena_node_bytes() <= isize::MAX,
        ensures
            graph@ == graph_model(count as nat),
    {
        proof {
            let node_size = arena_node_size();
            let edges_size = (DEGREE as nat) * edge_size();
            assert(count * node_size <= count * (node_size + edges_size)) by (nonlinear_arith);
            assert(count > 0 ==> edges_size <= count * (node_size + edges_size))
                by (nonlinear_arith);
        }
        let make_node = |id: usize| -> (node: ArenaNode<'a>)
            requires
                id < count,
                count + DEGREE <= usize::MAX + 1,
                DEGREE * edge_size() <= isize::MAX,
            ensures
                arena_node_built(node, id, count),
            {
                let make_edge = |slot: usize| -> (made: Edge)
                    requires
                        slot < DEGREE,
                    ensures
                        edge_built(made, id, slot, count),
                    { edge(id, slot, count) };
                let edges = arena_alloc_slice_fill_with(arena, DEGREE, make_edge);
                assert(edges_model(edges@) =~= graph_model(count as nat)[id as int].edges);
                ArenaNode { payload: Payload::new(id), edges }
            };
        let nodes = arena_alloc_slice_fill_with(arena, count, make_node);
        let graph = Self { nodes };
        assert(graph@ =~= graph_model(count as nat));
        graph
    }

    /// The wrapping sum, node by node, of the payload checksum and the
    /// targets and weights of the edges.
    pub fn checksum(&self) -> (sum: usize)
        ensures
            sum as int == wrap(graph_total(self@)),
    {
        proof {
            use_type_invariant(self);
            lemma_wrap_word(0);
        }
        let ghost entries = self@;
        let mut sum = 0usize;
        let mut i: usize = 0;
        assert(entries.take(0) =~= Seq::<GraphEntry>::empty());
        while i < self.nodes.len()
            invariant
                i <= self.nodes@.len(),
                entries == self@,
                forall|j: int| 0 <= j < self.nodes@.len() ==> (#[trigger] self.nodes@[j]).payload.wf(),
                sum as int == wrap(graph_total(entries.take(i as int))),
            decreases self.nodes@.len() - i,
        {
            let node = &self.nodes[i];
            let ghost before = graph_total(entries.take(i as int));
            let next = checksum_node(sum, node.payload, node.edges);
            proof {
                lemma_graph_total_step(entries, i as int);
                lemma_wrap_absorb(before, graph_entry_weight(entries[i as int]));
            }
            sum = next;
            i += 1;
        }
        assert(entries.take(i as int) =~= entries);
        sum
    }
}

} // verus!
