use non_layered_tidy_trees::flat::{is_tree_within, kernel_name, reset, Kernels, Mirror};
use non_layered_tidy_trees::flatapi::{adjacency_end, arrays_well_formed, mirror_from_arrays, mirror_from_arrays_within};
use non_layered_tidy_trees::treegen::{bench_arrays, bench_tree, build, Sizes, REGIMES};
use non_layered_tidy_trees::{reify_flat_chunks, Arena, NodeId};

#[test]
fn the_mirror_is_breadth_first() {
    let mut arena: Arena<()> = Arena::new();
    let ids: Vec<NodeId> = (1..=7).map(|i| arena.add_node(i, (), false)).collect();
    let [root, a, b, c, a1, a2, b1] = [ids[0], ids[1], ids[2], ids[3], ids[4], ids[5], ids[6]];
    arena.set_children(root, &[a, b, c]);
    arena.set_children(a, &[a1, a2]);
    arena.set_children(b, &[b1]);

    let mut m = Mirror::new();
    m.rebuild(&arena, root);

    assert_eq!(m.origin, vec![root, a, b, c, a1, a2, b1]);
    assert_eq!(m.parent, vec![None, Some(0), Some(0), Some(0), Some(1), Some(1), Some(2)]);
    assert_eq!(m.childno, vec![0, 0, 1, 2, 0, 1, 0]);
    assert_eq!(m.child_count, vec![3, 2, 1, 0, 0, 0, 0]);
    assert_eq!(m.first_child, vec![1, 4, 6, 7, 7, 7, 7]);
    assert_eq!(m.levels, vec![0, 1, 4, 7]);
}

#[test]
fn a_reused_mirror_forgets_what_it_held() {
    let mut arena: Arena<()> = Arena::new();
    let big = arena.add_node(1, (), false);
    let kids: Vec<NodeId> = (2..=6).map(|i| arena.add_node(i, (), false)).collect();
    arena.set_children(big, &kids);
    let small = arena.add_node(7, (), false);
    let leaf = arena.add_node(8, (), false);
    arena.push_child(small, leaf);

    let mut reused = Mirror::new();
    reused.rebuild(&arena, big);
    reused.rebuild(&arena, small);

    let mut fresh = Mirror::new();
    fresh.rebuild(&arena, small);

    assert_eq!(reused.origin, fresh.origin);
    assert_eq!(reused.parent, fresh.parent);
    assert_eq!(reused.childno, fresh.childno);
    assert_eq!(reused.first_child, fresh.first_child);
    assert_eq!(reused.child_count, fresh.child_count);
    assert_eq!(reused.levels, fresh.levels);
    assert_eq!(fresh.origin, vec![small, leaf]);
}

#[test]
fn the_paired_mirror_agrees_with_the_reified_gap_nodes() {
    for seed in 0..20u64 {
        for &n in &[1usize, 2, 3, 7, 40, 300] {
            let (wh, whg, children) = bench_arrays(n, 5, seed);

            let content: Vec<(u64, u64)> = (0..n).map(|i| (wh[i], wh[i + n])).collect();
            let gaps: Vec<(u64, u64)> = (0..n).map(|i| (whg[i], whg[i + n])).collect();
            let (arena, nodes) = reify_flat_chunks(n, &content, &gaps, &children);

            let mut from_arena = Mirror::new();
            from_arena.rebuild(&arena, nodes[n]);

            let mut from_arrays = Mirror::new();
            mirror_from_arrays(&mut from_arrays, n, &children, 1);

            let origins: Vec<usize> = from_arena.origin.iter().map(|t| t.index()).collect();
            assert_eq!(origins, from_arrays.origin, "n={n} seed={seed}");
            assert_eq!(from_arena.parent, from_arrays.parent);
            assert_eq!(from_arena.childno, from_arrays.childno);
            assert_eq!(from_arena.child_count, from_arrays.child_count);
            assert_eq!(from_arena.first_child, from_arrays.first_child);
            assert_eq!(from_arena.levels, from_arrays.levels);

            // every node and every gap node, the levels alternating between the two
            assert_eq!(from_arrays.origin.len(), 2 * n);
            assert_eq!(from_arrays.origin[0], n);
            assert_eq!(from_arrays.origin[1], 0);
        }
    }
}

#[test]
fn reified_gap_nodes_sit_above_their_nodes() {
    // root 1 with children 2 and 3
    let children = [2usize, 0, 0, 2, 3];
    let content = [10u32, 20, 30];
    let gaps = [1u32, 2, 3];
    let (arena, nodes) = reify_flat_chunks(3, &content, &gaps, &children);

    assert_eq!(arena.len(), 6);
    for (i, t) in nodes.iter().enumerate() {
        assert_eq!(t.index(), i);
    }
    assert_eq!(arena.children(nodes[0]), &[nodes[4], nodes[5]]);
    assert!(arena.children(nodes[1]).is_empty());
    for i in 0..3 {
        assert_eq!(arena.children(nodes[3 + i]), &[nodes[i]]);
        let node = arena.node(nodes[i]);
        assert_eq!((node.idx, node.geo, node.isdummy), (i + 1, content[i], false));
        let gap = arena.node(nodes[3 + i]);
        assert_eq!((gap.idx, gap.geo, gap.isdummy), (i + 4, gaps[i], true));
    }
}

#[test]
fn the_flat_mirror_of_a_root_with_two_leaves() {
    let children = [2usize, 0, 0, 2, 3];
    let mut m = Mirror::new();
    mirror_from_arrays(&mut m, 3, &children, 1);

    // gap above the root, the root, the gaps above the leaves, the leaves
    assert_eq!(m.origin, vec![3, 0, 4, 5, 1, 2]);
    assert_eq!(m.parent, vec![None, Some(0), Some(1), Some(1), Some(2), Some(3)]);
    assert_eq!(m.childno, vec![0, 0, 0, 1, 0, 0]);
    assert_eq!(m.levels, vec![0, 1, 2, 4, 6]);
}

#[test]
fn kernels_are_chosen_from_what_the_cpu_reports() {
    assert!(!Kernels::scalar().is_simd());
    assert!(Kernels::detect(true).is_simd());
    assert!(!Kernels::detect(false).is_simd());
    assert_eq!(kernel_name(Kernels::scalar()), "scalar");
    assert_eq!(kernel_name(Kernels::detect(true)), "avx2");
    assert_eq!(Kernels::default(), Kernels::scalar());
}

#[test]
fn reset_refills_to_the_length_asked_for() {
    let mut v = vec![1.5f64, 2.5, 3.5];
    reset(&mut v, 5, 0.0);
    assert_eq!(v, vec![0.0; 5]);
    reset(&mut v, 1, 7.0);
    assert_eq!(v, vec![7.0]);
    reset(&mut v, 0, 7.0);
    assert!(v.is_empty());
}

#[test]
fn the_mirror_and_setup_fill_in_the_same_bookkeeping() {
    for seed in 0..12u64 {
        for regime in REGIMES {
            let (mut arena, root) = build(seed, 6, 3, regime);
            arena.setup(root);

            let mut m = Mirror::new();
            m.rebuild(&arena, root);
            assert_eq!(m.origin.len(), arena.len());

            let mut held = m.origin.clone();
            let mut subtree = arena.preorder(root);
            held.sort();
            subtree.sort();
            assert_eq!(held, subtree);

            for l in 0..m.levels.len() - 1 {
                for e in m.levels[l]..m.levels[l + 1] {
                    let node = arena.node(m.origin[e]);
                    assert_eq!(node.level, l, "level of node {}", node.idx);
                    match m.parent[e] {
                        Some(p) => {
                            assert_eq!(node.parent, Some(m.origin[p]), "parent of node {}", node.idx);
                            assert_eq!(node.childno, m.childno[e], "childno of node {}", node.idx);
                        }
                        None => assert_eq!(e, 0),
                    }
                }
            }
        }
    }
}

#[test]
fn the_arrays_are_checked_before_they_are_read() {
    // root 1 with children 2 and 3
    assert_eq!(adjacency_end(3, &[2, 0, 0, 2, 3]), Some(5));
    assert!(arrays_well_formed(3, &[2, 0, 0, 2, 3]));

    // fewer counts than nodes, or a shorter adjacency than the counts promise
    assert_eq!(adjacency_end(3, &[2, 0]), None);
    assert_eq!(adjacency_end(3, &[2, 0, 0, 2]), None);
    assert!(!arrays_well_formed(3, &[2, 0, 0, 2]));
    assert_eq!(adjacency_end(2, &[usize::MAX, 1, 0]), None);

    // entries name nodes from 1 to n
    assert!(!arrays_well_formed(3, &[2, 0, 0, 2, 4]));
    assert!(!arrays_well_formed(3, &[2, 0, 0, 0, 3]));
    assert!(!arrays_well_formed(3, &[0, 1, 0, 0]));

    // an adjacency longer than needed is fine, and so is no node at all
    assert_eq!(adjacency_end(1, &[0, 7, 7]), Some(1));
    assert!(arrays_well_formed(1, &[0, 7, 7]));
    assert!(arrays_well_formed(0, &[]));

    // the benchmark arrays are well formed
    for seed in 0..5u64 {
        let (_, _, children) = bench_arrays(50, 4, seed);
        assert_eq!(adjacency_end(50, &children), Some(99));
        assert!(arrays_well_formed(50, &children));
    }
}

#[test]
fn a_shared_node_is_held_once_per_path() {
    let mut arena: Arena<()> = Arena::new();
    let root = arena.add_node(1, (), false);
    let left = arena.add_node(2, (), false);
    let right = arena.add_node(3, (), false);
    let shared = arena.add_node(4, (), false);
    let stray = arena.add_node(5, (), false);
    arena.set_children(root, &[left, right]);
    arena.set_children(left, &[shared]);
    arena.set_children(right, &[shared]);
    arena.push_child(stray, root);

    let mut m = Mirror::new();
    m.rebuild(&arena, root);
    assert_eq!(m.origin, vec![root, left, right, shared, shared]);
    assert_eq!(m.parent, vec![None, Some(0), Some(0), Some(1), Some(2)]);
    assert_eq!(m.levels, vec![0, 1, 3, 5]);
    assert!(!m.origin.contains(&stray));
}

#[test]
fn a_benchmark_tree_is_its_own_mirror() {
    for seed in 0..8u64 {
        for &n in &[1usize, 2, 9, 120] {
            let mut arena: Arena<Sizes> = Arena::new();
            let root = bench_tree(&mut arena, n, 4, seed);
            let mut m = Mirror::new();
            m.rebuild(&arena, root);
            let order: Vec<usize> = m.origin.iter().map(|t| t.index()).collect();
            assert_eq!(order, (0..n).collect::<Vec<usize>>());
        }
    }
}

#[test]
fn a_walk_that_would_not_end_is_told_apart() {
    let mut arena: Arena<()> = Arena::new();
    let a = arena.add_node(1, (), false);
    let b = arena.add_node(2, (), false);
    let c = arena.add_node(3, (), false);
    arena.set_children(a, &[b]);
    arena.set_children(b, &[c]);

    // three levels: within 3, not within 2
    assert!(is_tree_within(&arena, a, 3));
    assert!(!is_tree_within(&arena, a, 2));
    assert!(!is_tree_within(&arena, a, 0));
    assert!(is_tree_within(&arena, c, 1));

    let mut m = Mirror::new();
    assert!(m.rebuild_within(&arena, a, 4));
    assert_eq!(m.origin, vec![a, b, c]);
    assert_eq!(m.levels, vec![0, 1, 2, 3]);
    assert!(!m.rebuild_within(&arena, a, 2));

    // a cycle
    arena.push_child(c, a);
    assert!(!is_tree_within(&arena, a, arena.len() + 1));
    assert!(!m.rebuild_within(&arena, b, 100));

    // a node outside the arena
    let mut other: Arena<()> = Arena::new();
    let lone = other.add_node(1, (), false);
    let _ = other.add_node(2, (), false);
    let far = other.add_node(3, (), false);
    let mut small: Arena<()> = Arena::new();
    let root = small.add_node(1, (), false);
    small.push_child(root, far);
    assert!(!is_tree_within(&small, root, 10));
    assert!(is_tree_within(&other, lone, 1));
}

#[test]
fn arrays_that_do_not_describe_a_tree_are_refused() {
    let mut m = Mirror::new();

    // root 1 with children 2 and 3
    assert!(mirror_from_arrays_within(&mut m, 3, &[2, 0, 0, 2, 3], 1));
    assert_eq!(m.origin, vec![3, 0, 4, 5, 1, 2]);

    // the root out of range
    assert!(!mirror_from_arrays_within(&mut m, 3, &[2, 0, 0, 2, 3], 0));
    assert!(!mirror_from_arrays_within(&mut m, 3, &[2, 0, 0, 2, 3], 4));
    // too short an adjacency
    assert!(!mirror_from_arrays_within(&mut m, 3, &[2, 0, 0, 2], 1));
    // an entry that names no node
    assert!(!mirror_from_arrays_within(&mut m, 3, &[2, 0, 0, 2, 9], 1));
    // node 2 is its own grandchild
    assert!(!mirror_from_arrays_within(&mut m, 3, &[1, 1, 0, 2, 2], 1));
    // a node the root cannot reach may name anything
    assert!(mirror_from_arrays_within(&mut m, 3, &[1, 0, 1, 2, 7], 1));
    assert_eq!(m.origin, vec![3, 0, 4, 1]);
}
