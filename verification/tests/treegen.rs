use non_layered_tidy_trees::treegen::{bench_arrays, bench_tree, build, build_into, chain, collect, Regime, Rng, Sizes, REGIMES};
use non_layered_tidy_trees::Arena;

#[test]
fn the_generator_is_a_fixed_lcg() {
    let mut rng = Rng::new(42);
    assert_eq!(rng.rand(100), 34);
    assert_eq!(rng.rand(100), 26);
    assert_eq!(rng.rand(7), 0);
    assert_eq!(rng.rand(1000), 503);

    let mut rng = Rng::new(0);
    assert_eq!(rng.rand(10), 7);
}

#[test]
fn draws_stay_below_their_bound() {
    let mut rng = Rng::new(7);
    for n in 1..200u64 {
        assert!(rng.rand(n) < n);
    }
}

#[test]
fn regimes_are_indexed_in_order() {
    for (i, r) in REGIMES.iter().enumerate() {
        assert_eq!(r.index(), i);
    }
}

#[test]
fn regimes_hand_out_their_sizes() {
    let mut rng = Rng::new(3);
    for _ in 0..100 {
        assert_eq!(Regime::Uniform.sizes(&mut rng), Sizes { w: 10, h: 10, margin: 0 });
        let s = Regime::Coarse.sizes(&mut rng);
        assert!([10, 20, 30].contains(&s.w) && [10, 20, 30].contains(&s.h) && s.margin == 0);
        let s = Regime::Varied.sizes(&mut rng);
        assert!((5..45).contains(&s.w) && (5..35).contains(&s.h) && s.margin < 6);
        let s = Regime::Tiny.sizes(&mut rng);
        assert!((1..5).contains(&s.w) && (1..5).contains(&s.h) && s.margin < 2);
    }

    // uniform sizes draw nothing
    let mut a = Rng::new(9);
    let mut b = Rng::new(9);
    Regime::Uniform.sizes(&mut a);
    assert_eq!(a.rand(1000), b.rand(1000));
}

#[test]
fn a_chain_is_one_node_under_another() {
    let mut arena: Arena<u8> = Arena::new();
    let top = chain(&mut arena, 5, 4, 1).unwrap();
    let order = collect(&arena, top);
    assert_eq!(order.len(), 4);
    for (k, t) in order.iter().enumerate() {
        assert_eq!(arena.node(*t).idx, 5 + k);
        let kids = arena.children(*t);
        if k + 1 < order.len() {
            assert_eq!(kids, &[order[k + 1]]);
        } else {
            assert!(kids.is_empty());
        }
    }

    // a chain of no node adds nothing
    let before = arena.len();
    assert_eq!(chain(&mut arena, 1, 0, 0), None);
    assert_eq!(arena.len(), before);
}

#[test]
fn the_bench_tree_and_its_arrays_are_one_tree() {
    for seed in 0..10u64 {
        for &n in &[1usize, 2, 5, 33, 200] {
            let mut arena: Arena<Sizes> = Arena::new();
            let root = bench_tree(&mut arena, n, 5, seed);
            let (wh, whg, children) = bench_arrays(n, 5, seed);

            assert_eq!(root.index(), 0);
            assert_eq!(arena.len(), n);
            assert_eq!(wh.len(), 3 * n);
            assert_eq!(whg.len(), 2 * n);
            assert_eq!(children.len(), 2 * n - 1);

            let mut next = n;
            for (i, node) in arena.iter().iter().enumerate() {
                assert_eq!(node.idx, i + 1);
                assert_eq!(node.geo, Sizes { w: wh[i], h: wh[i + n], margin: wh[i + 2 * n] });
                assert!((10..50).contains(&wh[i]) && (10..30).contains(&wh[i + n]) && wh[i + 2 * n] < 4);
                assert_eq!((whg[i], whg[i + n]), (wh[i], 5));
                assert_eq!(node.children.len(), children[i]);
                for c in &node.children {
                    assert_eq!(c.index() + 1, children[next]);
                    next += 1;
                }
            }
            assert_eq!(next, 2 * n - 1);
        }
    }
}

#[test]
fn a_random_tree_is_labelled_in_preorder() {
    for seed in 0..20u64 {
        for regime in REGIMES {
            let (arena, root) = build(seed, 4, 3, regime);
            let order = collect(&arena, root);
            assert_eq!(order.len(), arena.len());
            for (k, t) in order.iter().enumerate() {
                assert_eq!(t.index(), k);
                assert_eq!(arena.node(*t).idx, k + 1);
            }
        }
    }
}

#[test]
fn a_random_tree_is_a_function_of_its_seed() {
    let mut arena: Arena<Sizes> = Arena::new();
    let first = build_into(&mut arena, 11, 5, 3, Regime::Varied);
    let second = build_into(&mut arena, 11, 5, 3, Regime::Varied);
    let a = collect(&arena, first);
    let b = collect(&arena, second);
    assert_eq!(a.len(), b.len());
    assert_eq!(second.index(), a.len());
    for (x, y) in a.iter().zip(b.iter()) {
        assert_eq!(arena.node(*x).geo, arena.node(*y).geo);
        assert_eq!(arena.node(*x).idx, arena.node(*y).idx);
        assert_eq!(arena.children(*x).len(), arena.children(*y).len());
    }
}

/// The draws of a random subtree with `h` levels left below its root, in preorder.
fn draws(rng: &mut Rng, h: usize, maxkids: usize, regime: Regime, out: &mut Vec<(usize, Sizes)>) {
    let cs = if h == 0 { 0 } else { rng.rand(maxkids as u64 + 1) as usize };
    out.push((cs, regime.sizes(rng)));
    for _ in 0..cs {
        draws(rng, h - 1, maxkids, regime, out);
    }
}

#[test]
fn a_random_tree_is_its_draws() {
    for seed in 0..30u64 {
        for regime in REGIMES {
            let (arena, root) = build(seed, 4, 3, regime);
            let mut expected = Vec::new();
            draws(&mut Rng::new(seed), 4, 3, regime, &mut expected);

            let order = collect(&arena, root);
            assert_eq!(order.len(), expected.len());
            for (t, (cs, sizes)) in order.iter().zip(expected) {
                assert_eq!(arena.children(*t).len(), cs);
                assert_eq!(arena.node(*t).geo, sizes);
            }
        }
    }

    // no level left: the root alone
    let (arena, root) = build(5, 0, 3, Regime::Uniform);
    assert_eq!(arena.len(), 1);
    assert_eq!(arena.node(root).geo, Sizes { w: 10, h: 10, margin: 0 });
    assert!(arena.children(root).is_empty());
}

#[test]
fn a_chain_may_end_on_the_last_label() {
    let mut arena: Arena<u8> = Arena::new();
    let top = chain(&mut arena, usize::MAX, 1, 0).unwrap();
    assert_eq!(arena.node(top).idx, usize::MAX);

    let top = chain(&mut arena, usize::MAX - 2, 3, 0).unwrap();
    let labels: Vec<usize> = collect(&arena, top).iter().map(|t| arena.node(*t).idx).collect();
    assert_eq!(labels, [usize::MAX - 2, usize::MAX - 1, usize::MAX]);
}

#[test]
fn no_level_left_draws_no_child_count() {
    // with no level to fill, the child count is never drawn, so any bound is accepted
    let (arena, root) = build(3, 0, usize::MAX, Regime::Uniform);
    assert_eq!(arena.len(), 1);
    assert!(arena.children(root).is_empty());
}
