//! A singly linked list of `count` nodes, built by pushing identifiers
//! `0..count` at the front: once with a `Box` per node, once in an arena.
use vstd::prelude::*;

use crate::arena::{arena_alloc, arena_with_capacity, requested_capacity};
use crate::modular::{lemma_accumulate, lemma_wrap_word, wrap};
use crate::payload::{
    ids_total, lemma_ids_total_concat, lemma_ids_total_single, lemma_ids_total_step,
    payload_weight, span_total, Payload,
};

verus! {

/// The identifiers of a list built from `count`, read from the head: the last
/// one pushed comes first.
pub open spec fn countdown(count: nat) -> Seq<nat> {
    Seq::new(count, |i: int| (count - 1 - i) as nat)
}

/// Building from `count + 1` pushes identifier `count` in front of the list
/// built from `count`.
pub proof fn lemma_countdown_push(count: nat)
    ensures
        countdown(count + 1) =~= seq![count] + countdown(count),
{
}

/// A list built from `count` carries the identifiers `0..count`, each once,
/// so its exact checksum is the sum of their payload weights.
pub proof fn lemma_countdown_total(count: nat)
    ensures
        ids_total(countdown(count)) == span_total(0, count),
    decreases count,
{
    if count > 0 {
        let top = (count - 1) as nat;
        assert(countdown(count) =~= seq![top] + countdown(top));
        lemma_ids_total_single(top);
        lemma_ids_total_concat(seq![top], countdown(top));
        lemma_countdown_total(top);
    }
}

/// Calls `std::hint::black_box` on a reference, so that the optimiser treats
/// the value behind it as observed. Nothing is claimed of the call.
#[verifier::external_body]
fn keep_observed<T>(value: &T) {
    std::hint::black_box(value);
}

struct RecursiveNode {
    payload: Payload,
    next: Option<Box<RecursiveNode>>,
}

spec fn boxed_ids(link: Option<Box<RecursiveNode>>) -> Seq<nat>
    decreases link,
{
    match link {
        None => Seq::empty(),
        Some(node) => seq![node.payload.id as nat] + boxed_ids(node.next),
    }
}

spec fn boxed_wf(link: Option<Box<RecursiveNode>>) -> bool
    decreases link,
{
    match link {
        None => true,
        Some(node) => node.payload.wf() && boxed_wf(node.next),
    }
}

/// A list whose every node owns the next through a `Box`.
pub struct RecursiveList {
    head: Option<Box<RecursiveNode>>,
}

impl View for RecursiveList {
    type V = Seq<nat>;

    /// The identifiers of the nodes, from the head.
    closed spec fn view(&self) -> Seq<nat> {
        boxed_ids(self.head)
    }
}

impl RecursiveList {
    #[verifier::type_invariant]
    spec fn inv(self) -> bool {
        boxed_wf(self.head)
    }

    /// Pushes nodes with identifiers `0..count` at the front, one `Box` each.
    pub fn new(count: usize) -> (list: Self)
        ensures
            list@ == countdown(count as nat),
    {
        let mut head: Option<Box<RecursiveNode>> = None;
        for id in 0..count
            invariant
                boxed_ids(head) == countdown(id as nat),
                boxed_wf(head),
        {
            head = Some(Box::new(RecursiveNode { payload: Payload::new(id), next: head }));
            assert(boxed_ids(head) =~= countdown((id + 1) as nat));
        }
        keep_observed(&head);
        Self { head }
    }

    /// The wrapping sum of the payload checksums, from the head.
    pub fn checksum(&self) -> (sum: usize)
        ensures
            sum as int == wrap(ids_total(self@)),
    {
        proof {
            use_type_invariant(self);
        }
        let ghost ids = self@;
        let mut sum = 0usize;
        let mut node: Option<&RecursiveNode> = match &self.head {
            Some(first) => Some(&**first),
            None => None,
        };
        let ghost mut k: int = 0;
        assert(ids.take(0) =~= Seq::<nat>::empty());
        proof {
            lemma_wrap_word(0);
        }
        loop
            invariant
                0 <= k <= ids.len(),
                sum as int == wrap(ids_total(ids.take(k))),
                ids == boxed_ids(self.head),
                match node {
                    Some(current) => {
                        &&& seq![current.payload.id as nat] + boxed_ids(current.next) == ids.skip(k)
                        &&& current.payload.wf()
                        &&& boxed_wf(current.next)
                    },
                    None => k == ids.len(),
                },
            ensures
                sum as int == wrap(ids_total(ids)),
            decreases ids.len() - k,
        {
            match node {
                Some(current) => {
                    assert(ids.skip(k)[0] == ids[k]);
                    let weight = current.payload.checksum();
                    proof {
                        lemma_ids_total_step(ids, k);
                        lemma_accumulate(sum, ids_total(ids.take(k)), weight, payload_weight(ids[k] as int));
                    }
                    sum = sum.wrapping_add(weight);
                    node = match &current.next {
                        Some(next) => Some(&**next),
                        None => None,
                    };
                    proof {
                        assert(ids.skip(k + 1) =~= ids.skip(k).drop_first());
                        k = k + 1;
                    }
                },
                None => {
                    assert(ids.skip(k).len() == 0);
                    assert(ids.take(k) =~= ids);
                    break;
                },
            }
        }
        sum
    }
}

/// A boxed list and an arena list built from the same count hold the same
/// identifiers in the same order, so their checksums are equal.
pub proof fn lemma_list_representations_agree<'a>(
    count: nat,
    boxed: RecursiveList,
    arena: ArenaList<'a>,
)
    requires
        boxed@ == countdown(count),
        arena@ == countdown(count),
    ensures
        boxed@ == arena@,
        wrap(ids_total(boxed@)) == wrap(ids_total(arena@)),
{
}

struct ArenaNode<'a> {
    payload: Payload,
    next: Option<&'a ArenaNode<'a>>,
}

spec fn arena_ids(link: Option<&ArenaNode>) -> Seq<nat>
    decreases link,
{
    match link {
        None => Seq::empty(),
        Some(node) => seq![node.payload.id as nat] + arena_ids(node.next),
    }
}

spec fn arena_wf(link: Option<&ArenaNode>) -> bool
    decreases link,
{
    match link {
        None => true,
        Some(node) => node.payload.wf() && arena_wf(node.next),
    }
}

/// The bytes that `ArenaList::new_arena` reserves per node.
pub closed spec fn arena_node_bytes() -> nat {
    vstd::layout::size_of::<ArenaNode<'static>>()
}

/// A list whose nodes live in an arena and refer to each other by reference.
pub struct ArenaList<'a> {
    head: Option<&'a ArenaNode<'a>>,
}

impl<'a> View for ArenaList<'a> {
    type V = Seq<nat>;

    /// The identifiers of the nodes, from the head.
    closed spec fn view(&self) -> Seq<nat> {
        arena_ids(self.head)
    }
}

impl<'a> ArenaList<'a> {
    #[verifier::type_invariant]
    spec fn inv(self) -> bool {
        arena_wf(self.head)
    }

    /// Whether `new_arena` accepts `count`: the bytes for `count` nodes stay
    /// within `isize::MAX`.
    pub fn arena_fits(count: usize) -> (fits: bool)
        ensures
            fits == (count * arena_node_bytes() <= isize::MAX),
    {
        match count.checked_mul(std::mem::size_of::<ArenaNode<'_>>()) {
            Some(bytes) => bytes <= isize::MAX as usize,
            None => false,
        }
    }

    /// An arena with room for the nodes of a list of `count` nodes.
    pub fn new_arena(count: usize) -> (arena: bumpalo::Bump)
        requires
            count * arena_node_bytes() <= isize::MAX,
        ensures
            requested_capacity(arena) == count * arena_node_bytes(),
    {
        let bytes = count.checked_mul(std::mem::size_of::<ArenaNode<'_>>()).expect(
            "list is too large",
        );
        arena_with_capacity(bytes)
    }

    /// Pushes nodes with identifiers `0..count` at the front, each allocated
    /// in `arena`.
    pub fn new(arena: &'a bumpalo::Bump, count: usize) -> (list: Self)
        ensures
            list@ == countdown(count as nat),
    {
        let mut head: Option<&'a ArenaNode<'a>> = None;
        for id in 0..count
            invariant
                arena_ids(head) == countdown(id as nat),
                arena_wf(head),
        {
            let node = arena_alloc(arena, ArenaNode { payload: Payload::new(id), next: head });
            head = Some(node);
            assert(arena_ids(head) =~= countdown((id + 1) as nat));
        }
        keep_observed(&head);
        Self { head }
    }

    /// The wrapping sum of the payload checksums, from the head.
    pub fn checksum(&self) -> (sum: usize)
        ensures
            sum as int == wrap(ids_total(self@)),
    {
        proof {
            use_type_invariant(self);
        }
        let ghost ids = self@;
        let mut sum = 0usize;
        let mut node = self.head;
        let ghost mut k: int = 0;
        assert(ids.take(0) =~= Seq::<nat>::empty());
        proof {
            lemma_wrap_word(0);
        }
        loop
            invariant
                0 <= k <= ids.len(),
                sum as int == wrap(ids_total(ids.take(k))),
                arena_ids(node) == ids.skip(k),
                arena_wf(node),
            ensures
                sum as int == wrap(ids_total(ids)),
            decreases ids.len() - k,
        {
            match node {
                Some(current) => {
                    assert(arena_ids(node) == seq![current.payload.id as nat] + arena_ids(current.next));
                    assert(ids.skip(k)[0] == ids[k]);
                    let weight = current.payload.checksum();
                    proof {
                        lemma_ids_total_step(ids, k);
                        lemma_accumulate(sum, ids_total(ids.take(k)), weight, payload_weight(ids[k] as int));
                    }
                    sum = sum.wrapping_add(weight);
                    node = current.next;
                    proof {
                        assert(ids.skip(k + 1) =~= ids.skip(k).drop_first());
                        k = k + 1;
                    }
                },
                None => {
                    assert(ids.skip(k).len() == 0);
                    assert(ids.take(k) =~= ids);
                    break;
                },
            }
        }
        sum
    }
}

} // verus!
