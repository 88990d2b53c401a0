//! A perfect binary expression tree whose nodes carry identifiers in preorder:
//! once with a `Box` per child, once in an arena.
use vstd::prelude::*;

use crate::arena::{arena_alloc, arena_with_capacity, requested_capacity};
use crate::list::{countdown, lemma_countdown_total};
use crate::modular::{lemma_accumulate, wrap};
use crate::payload::{
    ids_total, lemma_ids_total_concat, lemma_ids_total_single, lemma_ids_total_span,
    payload_weight, span_total, Payload,
};

verus! {

/// The shape of an expression tree and the identifiers of its nodes.
pub enum TreeModel {
    Leaf(nat),
    Branch(nat, Box<TreeModel>, Box<TreeModel>),
}

/// The number of nodes that building from `count` makes: a leaf for `1`,
/// else a root over two subtrees built from `count / 2`.
pub open spec fn tree_size(count: nat) -> nat
    decreases count,
{
    if count <= 1 {
        1
    } else {
        1 + 2 * tree_size(count / 2)
    }
}

/// The tree that building from `count` makes when the first identifier to
/// hand out is `first`: the root takes `first`, then the left subtree, then
/// the right subtree take theirs.
pub open spec fn shaped_tree(count: nat, first: nat) -> TreeModel
    decreases count,
{
    if count <= 1 {
        TreeModel::Leaf(first)
    } else {
        let half = count / 2;
        TreeModel::Branch(
            first,
            Box::new(shaped_tree(half, first + 1)),
            Box::new(shaped_tree(half, first + 1 + tree_size(half))),
        )
    }
}

/// The exact sum of the payload weights of every node of the tree.
pub open spec fn tree_total(tree: TreeModel) -> int
    decreases tree,
{
    match tree {
        TreeModel::Leaf(id) => payload_weight(id as int),
        TreeModel::Branch(id, left, right) => payload_weight(id as int) + tree_total(*left)
            + tree_total(*right),
    }
}

/// The identifiers of the tree in preorder: node, left subtree, right subtree.
pub open spec fn preorder(tree: TreeModel) -> Seq<nat>
    decreases tree,
{
    match tree {
        TreeModel::Leaf(id) => seq![id],
        TreeModel::Branch(id, left, right) => seq![id] + preorder(*left) + preorder(*right),
    }
}

/// The counts that `BoxTree::new` and `ArenaTree::new` accept: odd, positive
/// and building exactly `count` nodes.
pub open spec fn valid_tree_count(count: nat) -> bool {
    count > 0 && count % 2 == 1 && tree_size(count) == count
}

/// A count above one builds exactly as many nodes as it says if and only if
/// it is odd and its half does too.
proof fn lemma_tree_size_fixed_step(count: nat)
    requires
        count > 1,
    ensures
        tree_size(count) == count <==> (count % 2 == 1 && tree_size(count / 2) == count / 2),
{
}

/// Every count of the form `2^k - 1` with `k >= 1` is a valid tree count: it
/// builds the perfect tree of depth `k`.
pub proof fn lemma_full_tree_counts(k: nat)
    requires
        k >= 1,
    ensures
        valid_tree_count((vstd::arithmetic::power2::pow2(k) - 1) as nat),
    decreases k,
{
    vstd::arithmetic::power2::lemma_pow2_unfold(k);
    vstd::arithmetic::power2::lemma_pow2_pos((k - 1) as nat);
    let count = (vstd::arithmetic::power2::pow2(k) - 1) as nat;
    if k > 1 {
        lemma_full_tree_counts((k - 1) as nat);
        assert(count / 2 == vstd::arithmetic::power2::pow2((k - 1) as nat) - 1);
        lemma_tree_size_fixed_step(count);
    } else {
        assert(vstd::arithmetic::power2::pow2(0) == 1) by {
            vstd::arithmetic::power2::lemma2_to64();
        }
    }
}

/// Whether `BoxTree::new` and `ArenaTree::new` accept `count`: it is odd,
/// positive, and builds exactly `count` nodes (halving it keeps it odd down
/// to one).
pub fn is_valid_tree_count(count: usize) -> (valid: bool)
    ensures
        valid == valid_tree_count(count as nat),
{
    if count == 0 {
        return false;
    }
    let mut rest = count;
    while rest > 1
        invariant
            1 <= rest <= count,
            valid_tree_count(count as nat) <==> tree_size(rest as nat) == rest,
        decreases rest,
    {
        proof {
            lemma_tree_size_fixed_step(rest as nat);
        }
        if rest % 2 == 0 {
            return false;
        }
        rest = rest / 2;
    }
    true
}

/// Building from `count` hands out the identifiers `first`,
/// `first + 1`, ..., each once, in preorder.
pub proof fn lemma_preorder_ids(count: nat, first: nat)
    ensures
        preorder(shaped_tree(count, first)) =~= Seq::new(
            tree_size(count),
            |i: int| (first + i) as nat,
        ),
    decreases count,
{
    if count > 1 {
        let half = count / 2;
        lemma_preorder_ids(half, first + 1);
        lemma_preorder_ids(half, first + 1 + tree_size(half));
    }
}

/// The exact checksum of a tree is the sum over its identifiers in preorder.
pub proof fn lemma_tree_total_preorder(tree: TreeModel)
    ensures
        tree_total(tree) == ids_total(preorder(tree)),
    decreases tree,
{
    match tree {
        TreeModel::Leaf(id) => {
            lemma_ids_total_single(id);
        },
        TreeModel::Branch(id, left, right) => {
            lemma_ids_total_single(id);
            lemma_tree_total_preorder(*left);
            lemma_tree_total_preorder(*right);
            lemma_ids_total_concat(seq![id], preorder(*left));
            lemma_ids_total_concat(seq![id] + preorder(*left), preorder(*right));
        },
    }
}

/// A tree built from `count` whose identifiers start at `first` sums the
/// payload weights of `first .. first + tree_size(count)`.
pub proof fn lemma_tree_total_span(count: nat, first: nat)
    ensures
        tree_total(shaped_tree(count, first)) == span_total(first, tree_size(count)),
{
    lemma_tree_total_preorder(shaped_tree(count, first));
    lemma_preorder_ids(count, first);
    lemma_ids_total_span(first, tree_size(count));
}

/// A tree of `count` nodes and a list of `count` nodes carry the same
/// identifiers, `0..count`, so their exact checksums agree.
pub proof fn lemma_tree_sums_like_list(count: nat)
    requires
        valid_tree_count(count),
    ensures
        tree_total(shaped_tree(count, 0)) == ids_total(countdown(count)),
{
    lemma_tree_total_span(count, 0);
    lemma_countdown_total(count);
}

enum Expr {
    Literal(Payload),
    Add { payload: Payload, left: Box<Expr>, right: Box<Expr> },
}

spec fn boxed_model(expr: Expr) -> TreeModel
    decreases expr,
{
    match expr {
        Expr::Literal(payload) => TreeModel::Leaf(payload.id as nat),
        Expr::Add { payload, left, right } => TreeModel::Branch(
            payload.id as nat,
            Box::new(boxed_model(*left)),
            Box::new(boxed_model(*right)),
        ),
    }
}

spec fn boxed_wf(expr: Expr) -> bool
    decreases expr,
{
    match expr {
        Expr::Literal(payload) => payload.wf(),
        Expr::Add { payload, left, right } => payload.wf() && boxed_wf(*left) && boxed_wf(
            *right,
        ),
    }
}

/// An expression tree whose every node owns its children through `Box`es.
pub struct BoxTree {
    root: Box<Expr>,
}

impl View for BoxTree {
    type V = TreeModel;

    /// The shape of the tree and the identifiers of its nodes.
    closed spec fn view(&self) -> TreeModel {
        boxed_model(*self.root)
    }
}

impl BoxTree {
    #[verifier::type_invariant]
    spec fn inv(self) -> bool {
        boxed_wf(*self.root)
    }

    /// Builds the tree of `count` nodes, identifiers `0..count` in preorder.
    pub fn new(count: usize) -> (tree: Self)
        requires
            valid_tree_count(count as nat),
        ensures
            tree@ == shaped_tree(count as nat, 0),
    {
        let mut id: usize = 0;
        let root = build_boxed(count, &mut id);
        assert(id == count);
        Self { root }
    }

    /// The wrapping sum of the payload checksums of every node.
    pub fn checksum(&self) -> (sum: usize)
        ensures
            sum as int == wrap(tree_total(self@)),
    {
        proof {
            use_type_invariant(self);
        }
        checksum_boxed(&self.root)
    }
}

fn build_boxed(count: usize, id: &mut usize) -> (expr: Box<Expr>)
    requires
        count >= 1,
        *old(id) + tree_size(count as nat) <= usize::MAX,
    ensures
        *final(id) == *old(id) + tree_size(count as nat),
        boxed_model(*expr) == shaped_tree(count as nat, *old(id) as nat),
        boxed_wf(*expr),
    decreases count,
{
    let payload = Payload::new(*id);
    *id += 1;
    if count == 1 {
        Box::new(Expr::Literal(payload))
    } else {
        let child_count = count / 2;
        let left = build_boxed(child_count, id);
        let right = build_boxed(child_count, id);
        Box::new(Expr::Add { payload, left, right })
    }
}

fn checksum_boxed(expr: &Expr) -> (sum: usize)
    requires
        boxed_wf(*expr),
    ensures
        sum as int == wrap(tree_total(boxed_model(*expr))),
    decreases expr,
{
    match expr {
        Expr::Literal(payload) => payload.checksum(),
        Expr::Add { payload, left, right } => {
            let own = payload.checksum();
            let left_sum = checksum_boxed(left);
            let right_sum = checksum_boxed(right);
            proof {
                let l = tree_total(boxed_model(**left));
                let r = tree_total(boxed_model(**right));
                let w = payload_weight(payload.id as int);
                lemma_accumulate(own, w, left_sum, l);
                lemma_accumulate(own.wrapping_add(left_sum), w + l, right_sum, r);
            }
            own.wrapping_add(left_sum).wrapping_add(right_sum)
        },
    }
}

/// A boxed tree and an arena tree built from the same count hold the same
/// nodes with the same identifiers, so their checksums are equal.
pub proof fn lemma_tree_representations_agree<'a>(
    count: nat,
    boxed: BoxTree,
    arena: ArenaTree<'a>,
)
    requires
        valid_tree_count(count),
        boxed@ == shaped_tree(count, 0),
        arena@ == shaped_tree(count, 0),
    ensures
        boxed@ == arena@,
        wrap(tree_total(boxed@)) == wrap(tree_total(arena@)),
{
}

enum ArenaExpr<'a> {
    Literal(Payload),
    Add { payload: Payload, left: &'a ArenaExpr<'a>, right: &'a ArenaExpr<'a> },
}

spec fn arena_model(expr: &ArenaExpr) -> TreeModel
    decreases expr,
{
    match *expr {
        ArenaExpr::Literal(payload) => TreeModel::Leaf(payload.id as nat),
        ArenaExpr::Add { payload, left, right } => TreeModel::Branch(
            payload.id as nat,
            Box::new(arena_model(left)),
            Box::new(arena_model(right)),
        ),
    }
}

spec fn arena_wf(expr: &ArenaExpr) -> bool
    decreases expr,
{
    match *expr {
        ArenaExpr::Literal(payload) => payload.wf(),
        ArenaExpr::Add { payload, left, right } => payload.wf() && arena_wf(left) && arena_wf(
            right,
        ),
    }
}

/// The bytes that `ArenaTree::new_arena` reserves per node.
pub closed spec fn arena_expr_bytes() -> nat {
    vstd::layout::size_of::<ArenaExpr<'static>>()
}

/// An expression tree whose nodes live in an arena and refer to their
/// children by reference.
pub struct ArenaTree<'a> {
    root: &'a ArenaExpr<'a>,
}

impl<'a> View for ArenaTree<'a> {
    type V = TreeModel;

    /// The shape of the tree and the identifiers of its nodes.
    closed spec fn view(&self) -> TreeModel {
        arena_model(self.root)
    }
}

impl<'a> ArenaTree<'a> {
    #[verifier::type_invariant]
    spec fn inv(self) -> bool {
        arena_wf(self.root)
    }

    /// Whether `new_arena` accepts `count`: the bytes for `count` nodes stay
    /// within `isize::MAX`.
    pub fn arena_fits(count: usize) -> (fits: bool)
        ensures
            fits == (count * arena_expr_bytes() <= isize::MAX),
    {
        match count.checked_mul(std::mem::size_of::<ArenaExpr<'_>>()) {
            Some(bytes) => bytes <= isize::MAX as usize,
            None => false,
        }
    }

    /// An arena with room for the nodes of a tree of `count` nodes.
    pub fn new_arena(count: usize) -> (arena: bumpalo::Bump)
        requires
            count * arena_expr_bytes() <= isize::MAX,
        ensures
            requested_capacity(arena) == count * arena_expr_bytes(),
    {
        let bytes = count.checked_mul(std::mem::size_of::<ArenaExpr<'_>>()).expect(
            "tree is too large",
        );
        arena_with_capacity(bytes)
    }

    /// Builds the tree of `count` nodes, identifiers `0..count` in preorder,
    /// each node allocated in `arena`.
    pub fn new(arena: &'a bumpalo::Bump, count: usize) -> (tree: Self)
        requires
            valid_tree_count(count as nat),
        ensures
            tree@ == shaped_tree(count as nat, 0),
    {
        let mut id: usize = 0;
        let root = build_arena(arena, count, &mut id);
        assert(id == count);
        Self { root }
    }

    /// The wrapping sum of the payload checksums of every node.
    pub fn checksum(&self) -> (sum: usize)
        ensures
            sum as int == wrap(tree_total(self@)),
    {
        proof {
            use_type_invariant(self);
        }
        checksum_arena(self.root)
    }
}

fn build_arena<'a>(arena: &'a bumpalo::Bump, count: usize, id: &mut usize) -> (expr: &'a ArenaExpr<'a>)
    requires
        count >= 1,
        *old(id) + tree_size(count as nat) <= usize::MAX,
    ensures
        *final(id) == *old(id) + tree_size(count as nat),
        arena_model(expr) == shaped_tree(count as nat, *old(id) as nat),
        arena_wf(expr),
    decreases count,
{
    let payload = Payload::new(*id);
    *id += 1;
    if count == 1 {
        arena_alloc(arena, ArenaExpr::Literal(payload))
    } else {
        let child_count = count / 2;
        let left = build_arena(arena, child_count, id);
        let right = build_arena(arena, child_count, id);
        arena_alloc(arena, ArenaExpr::Add { payload, left, right })
    }
}

fn checksum_arena(expr: &ArenaExpr) -> (sum: usize)
    requires
        arena_wf(expr),
    ensures
        sum as int == wrap(tree_total(arena_model(expr))),
    decreases expr,
{
    match expr {
        ArenaExpr::Literal(payload) => payload.checksum(),
        ArenaExpr::Add { payload, left, right } => {
            let own = payload.checksum();
            let left_sum = checksum_arena(left);
            let right_sum = checksum_arena(right);
            proof {
                let l = tree_total(arena_model(*left));
                let r = tree_total(arena_model(*right));
                let w = payload_weight(payload.id as int);
                lemma_accumulate(own, w, left_sum, l);
                lemma_accumulate(own.wrapping_add(left_sum), w + l, right_sum, r);
            }
            own.wrapping_add(left_sum).wrapping_add(right_sum)
        },
    }
}

} // verus!
