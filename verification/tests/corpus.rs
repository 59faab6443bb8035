use non_layered_tidy_trees::corpus::{corpus, CorpusShape, SHAPES_PER_TRIAL};
use non_layered_tidy_trees::flatapi::content_reached;
use non_layered_tidy_trees::treegen::{Regime, REGIMES};

#[test]
fn the_corpus_runs_through_every_shape_in_order() {
    let trials = 3;
    let shapes = corpus(trials);
    assert_eq!(shapes.len(), SHAPES_PER_TRIAL * trials);

    let mut i = 0;
    for regime in REGIMES {
        for maxdepth in 1..=6 {
            for maxkids in 2..=5 {
                for vert in [false, true] {
                    for cent in [false, true] {
                        for k in 0..trials {
                            assert_eq!(shapes[i], CorpusShape { regime, maxdepth, maxkids, vert, cent, k });
                            i += 1;
                        }
                    }
                }
            }
        }
    }
    assert!(corpus(0).is_empty());
}

#[test]
fn a_shape_seeds_its_tree() {
    let s = CorpusShape { regime: Regime::Varied, maxdepth: 4, maxkids: 3, vert: true, cent: false, k: 5 };
    assert_eq!(s.seed(), 1000003 * 5 + 7 * 243);
    let s = CorpusShape { regime: Regime::Coarse, maxdepth: 1, maxkids: 2, vert: false, cent: false, k: 0 };
    assert_eq!(s.seed(), 7 * 12);
}

#[test]
fn the_content_reached_counts_nodes_not_gaps() {
    assert_eq!(content_reached(&[3, 0, 4, 5, 1, 2], 3), 3);
    assert_eq!(content_reached(&[3, 0, 4, 1], 3), 2);
    assert_eq!(content_reached(&[], 3), 0);
}
