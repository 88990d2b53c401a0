use rust_drop_tax::ast::{is_valid_tree_count, ArenaTree, BoxTree};
use rust_drop_tax::dag::{ArcDag, ArenaDag};
use rust_drop_tax::list::{ArenaList, RecursiveList};
use rust_drop_tax::nested::{ArenaGraph, NestedGraph};

#[test]
fn representations_have_equivalent_contents() {
    let boxed = BoxTree::new(31).checksum();
    let tree_arena = ArenaTree::new_arena(31);
    assert_eq!(boxed, ArenaTree::new(&tree_arena, 31).checksum());

    let arc = ArcDag::new(100).checksum();
    let dag_arena = ArenaDag::new_arena(100);
    assert_eq!(arc, ArenaDag::new(&dag_arena, 100).checksum());

    let nested = NestedGraph::new(100).checksum();
    let graph_arena = ArenaGraph::new_arena(100);
    assert_eq!(nested, ArenaGraph::new(&graph_arena, 100).checksum());

    let recursive = RecursiveList::new(100).checksum();
    let list_arena = ArenaList::new_arena(100);
    assert_eq!(recursive, ArenaList::new(&list_arena, 100).checksum());
}

fn weight(id: usize) -> usize {
    id + id % 256
}

#[test]
fn tree_checksums_are_exact() {
    assert_eq!(BoxTree::new(1).checksum(), 0);
    assert_eq!(BoxTree::new(3).checksum(), 6);
    assert_eq!(BoxTree::new(31).checksum(), 930);
    assert_eq!(BoxTree::new(1023).checksum(), 653_058);
    let arena = ArenaTree::new_arena(1023);
    assert_eq!(ArenaTree::new(&arena, 1023).checksum(), 653_058);
    let small = ArenaTree::new_arena(7);
    assert_eq!(ArenaTree::new(&small, 7).checksum(), (0..7).map(weight).sum::<usize>());
}

#[test]
fn tree_of_n_nodes_sums_like_list_of_n_nodes() {
    for count in [1usize, 3, 7, 15, 31, 63, 127, 255, 511] {
        assert_eq!(BoxTree::new(count).checksum(), RecursiveList::new(count).checksum());
    }
}

#[test]
fn dag_checksums_are_exact() {
    assert_eq!(ArcDag::new(0).checksum(), 0);
    assert_eq!(ArcDag::new(1).checksum(), 0);
    assert_eq!(ArcDag::new(2).checksum(), 2);
    assert_eq!(ArcDag::new(3).checksum(), 6);
    assert_eq!(ArcDag::new(100).checksum(), 14_653);
    let arena = ArenaDag::new_arena(3);
    assert_eq!(ArenaDag::new(&arena, 3).checksum(), 6);
}

#[test]
fn dag_children_are_earlier_nodes() {
    // Node `i` adds `(i - 1) / 2` and `(i - 2) / 2`; both are below `i`, so
    // every count builds, and the checksum grows by exactly that much.
    for count in 1usize..40 {
        let i = count - 1;
        let mut extra = weight(i);
        if i >= 1 {
            extra += (i - 1) / 2;
            assert!((i - 1) / 2 < i);
        }
        if i >= 2 {
            extra += (i - 2) / 2;
        }
        assert_eq!(ArcDag::new(count).checksum(), ArcDag::new(count - 1).checksum() + extra);
    }
}

#[test]
fn dag_representations_agree() {
    for count in [0usize, 1, 2, 5, 64, 257, 1000] {
        let arena = ArenaDag::new_arena(count);
        assert_eq!(ArcDag::new(count).checksum(), ArenaDag::new(&arena, count).checksum());
    }
}

#[test]
fn graph_checksums_are_exact() {
    assert_eq!(NestedGraph::new(0).checksum(), 0);
    assert_eq!(NestedGraph::new(1).checksum(), 28);
    assert_eq!(NestedGraph::new(3).checksum(), 114);
    assert_eq!(NestedGraph::new(100).checksum(), 52_300);
    let arena = ArenaGraph::new_arena(1);
    assert_eq!(ArenaGraph::new(&arena, 1).checksum(), 28);
    let arena = ArenaGraph::new_arena(3);
    assert_eq!(ArenaGraph::new(&arena, 3).checksum(), 114);
}

#[test]
fn graph_edges_stay_in_graph() {
    // With `count` nodes every target is below `count`: the targets of one
    // node are the `DEGREE` nodes after it, wrapping around.
    let count = 10usize;
    let expected: usize = (0..count)
        .map(|i| weight(i) + (0..8).map(|s| (i + s + 1) % count + s).sum::<usize>())
        .sum();
    assert_eq!(NestedGraph::new(count).checksum(), expected);
}

#[test]
fn graph_representations_agree() {
    for count in [0usize, 1, 2, 9, 300] {
        let arena = ArenaGraph::new_arena(count);
        assert_eq!(NestedGraph::new(count).checksum(), ArenaGraph::new(&arena, count).checksum());
    }
}

#[test]
fn list_checksums_are_exact() {
    assert_eq!(RecursiveList::new(0).checksum(), 0);
    assert_eq!(RecursiveList::new(1).checksum(), 0);
    assert_eq!(RecursiveList::new(100).checksum(), 9_900);
    assert_eq!(RecursiveList::new(300).checksum(), (0..300).map(weight).sum::<usize>());
    let arena = ArenaList::new_arena(300);
    assert_eq!(ArenaList::new(&arena, 300).checksum(), (0..300).map(weight).sum::<usize>());
}

#[test]
fn list_representations_agree() {
    for count in [0usize, 1, 2, 255, 256, 257, 2000] {
        let arena = ArenaList::new_arena(count);
        assert_eq!(RecursiveList::new(count).checksum(), ArenaList::new(&arena, count).checksum());
    }
}

#[test]
fn one_arena_holds_several_structures() {
    let arena = ArenaList::new_arena(10);
    let first = ArenaList::new(&arena, 10).checksum();
    let second = ArenaList::new(&arena, 10).checksum();
    assert_eq!(first, second);
    assert_eq!(first, (0..10).map(weight).sum::<usize>());
}

#[test]
fn arenas_are_made_with_room_for_every_node() {
    // Every node holds at least its payload: an identifier and 24 bytes.
    let payload_bytes = std::mem::size_of::<usize>() + 24;
    let count = 1000usize;
    assert!(ArenaList::new_arena(count).chunk_capacity() >= count * payload_bytes);
    assert!(ArenaDag::new_arena(count).chunk_capacity() >= count * payload_bytes);
    assert!(ArenaTree::new_arena(1023).chunk_capacity() >= 1023 * payload_bytes);
    assert!(ArenaGraph::new_arena(count).chunk_capacity() >= count * (payload_bytes + 8 * 8));
}

#[test]
fn valid_tree_counts_are_two_to_the_k_minus_one() {
    for count in 0usize..5000 {
        let full = count > 0 && (count + 1).is_power_of_two();
        assert_eq!(is_valid_tree_count(count), full, "count {count}");
    }
    assert!(is_valid_tree_count(usize::MAX));
    assert!(!is_valid_tree_count(usize::MAX - 2));
}

#[test]
fn arena_size_checks() {
    for count in [0usize, 1, 100, 1 << 20] {
        assert!(ArenaTree::arena_fits(count));
        assert!(ArenaDag::arena_fits(count));
        assert!(ArenaGraph::arena_fits(count));
        assert!(ArenaList::arena_fits(count));
    }
    for count in [usize::MAX, usize::MAX / 2, (isize::MAX as usize) / 4 + 1] {
        assert!(!ArenaTree::arena_fits(count));
        assert!(!ArenaDag::arena_fits(count));
        assert!(!ArenaGraph::arena_fits(count));
        assert!(!ArenaList::arena_fits(count));
    }
}

#[test]
fn graph_checksum_closed_form() {
    assert_eq!(NestedGraph::new(2).checksum(), 66);
    for count in 1usize..60 {
        let expected =
            (0..count).map(weight).sum::<usize>() + 28 * count + 4 * count * (count - 1);
        assert_eq!(NestedGraph::new(count).checksum(), expected, "count {count}");
    }
}
