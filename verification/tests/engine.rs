//! End-to-end engine behavior: determinism, chain rules, quotas, and the
//! error conditions.

use wfc::err::Error;
use wfc::prebuilt::arbiters::{LimitAdjuster, MultiPhaseArbitration, RandomArbiter, WeightArbiter};
use wfc::prebuilt::constraints::{SetConstraint, UnaryConstraint};
use wfc::prebuilt::dims::{Dim2d, Dim3d};
use wfc::prebuilt::shapes::WeightedShape;
use wfc::rules::{Rule, RuleBuilder, Rules};
use wfc::state::StateBuilder;
use wfc::util::{Size, UPos};

const SEED: u64 = 123;

/// A rule exposing the same unary socket on all four sides.
fn any_rule_2d(socket: u64) -> Rule<Dim2d> {
    Rule::new(vec![
        (Dim2d::Left, vec![socket]),
        (Dim2d::Right, vec![socket]),
        (Dim2d::Up, vec![socket]),
        (Dim2d::Down, vec![socket]),
    ])
}

/// A rule exposing the same socket value on all six sides.
fn splat_rule_3d(socket: Vec<u64>) -> Rule<Dim3d> {
    Rule::splat(socket)
}

#[test]
fn same_seed_produces_same_gen() {
    // Three tiles with fully permissive rules; two of them weighted.
    let make_rules = || -> Rules<Dim2d> {
        RuleBuilder::default()
            .with_rule(1, any_rule_2d(0))
            .with_rule(2, any_rule_2d(0))
            .with_rule(3, any_rule_2d(0))
            .into()
    };
    // Variant values 1, 2, 3 intern to ids 0, 1, 2.
    let weights = vec![(0usize, 3usize), (1, 2)];

    let a_builder = StateBuilder::new(
        Size::new(vec![5, 5]),
        WeightArbiter::new(Some(SEED), WeightedShape::new(weights.clone())),
        UnaryConstraint,
        make_rules(),
    );
    let mut a = a_builder.build().unwrap();

    let b_builder = StateBuilder::new(
        Size::new(vec![5, 5]),
        WeightArbiter::new(Some(SEED), WeightedShape::new(weights)),
        UnaryConstraint,
        make_rules(),
    );
    let mut b = b_builder.build().unwrap();

    wfc::collapse(&mut a).unwrap();
    wfc::collapse(&mut b).unwrap();

    let a_data: Vec<u64> = a.into_data().unwrap();
    let b_data: Vec<u64> = b.into_data().unwrap();

    assert_eq!(a_data, b_data);
}

/// The chain rules of the large scenario: variants 0..4 with set-valued
/// sockets 0 -> {0,1}, 1 -> {0,1,2}, 2 -> {1,2,3}, 3 -> {2,3}.
fn chain_rules() -> Rules<Dim3d> {
    RuleBuilder::default()
        .with_rule(0, splat_rule_3d(vec![0, 1]))
        .with_rule(1, splat_rule_3d(vec![0, 1, 2]))
        .with_rule(2, splat_rule_3d(vec![1, 2, 3]))
        .with_rule(3, splat_rule_3d(vec![2, 3]))
        .into()
}

/// The socket contents by interned id: the four sets sort to
/// [0,1] < [0,1,2] < [1,2,3] < [2,3].
fn chain_constraint() -> SetConstraint {
    SetConstraint::new(vec![vec![0, 1], vec![0, 1, 2], vec![1, 2, 3], vec![2, 3]])
}

fn run_chain(seed: u64) -> Vec<u64> {
    let builder = StateBuilder::new(
        Size::new(vec![50, 50, 50]),
        RandomArbiter::new(Some(seed)),
        chain_constraint(),
        chain_rules(),
    );
    let mut state = builder.build().unwrap();
    wfc::collapse(&mut state).unwrap();
    state.into_data().unwrap()
}

#[test]
fn chain_rules_keep_neighbors_close() {
    let data = run_chain(SEED);
    assert_eq!(data.len(), 50 * 50 * 50);
    // No cell of variant 0 may touch one of variant 3 along any axis.
    let stride = [1usize, 50, 2500];
    for i in 0..data.len() {
        let pos = [i % 50, (i / 50) % 50, i / 2500];
        for axis in 0..3 {
            if pos[axis] + 1 < 50 {
                let j = i + stride[axis];
                let (a, b) = (data[i], data[j]);
                assert!(!(a == 0 && b == 3) && !(a == 3 && b == 0));
            }
        }
    }
}

#[test]
fn determinism_replay() {
    let first = run_chain(SEED);
    let second = run_chain(SEED);
    assert_eq!(first, second);
}

#[test]
fn different_seeds_reach_different_outputs() {
    // A constant generator would make these runs identical.
    let first = run_chain(7);
    let second = run_chain(8);
    assert_ne!(first, second);
}

#[test]
fn contradiction_reporting() {
    // Two variants with clashing unary sockets seeded next to each other.
    let rules: Rules<Dim2d> = RuleBuilder::default()
        .with_rule(10, any_rule_2d(0))
        .with_rule(20, any_rule_2d(1))
        .into();
    let mut builder = StateBuilder::new(
        Size::new(vec![2, 1]),
        RandomArbiter::new(Some(SEED)),
        UnaryConstraint,
        rules,
    );
    builder.insert(UPos::new(vec![0, 0]), 10);
    builder.insert(UPos::new(vec![1, 0]), 20);
    let err = builder.build().err().expect("the seeds clash");
    match err {
        Error::Contradiction { position, neighbor, direction, .. } => {
            assert_eq!(position.coord(0), 1);
            assert_eq!(position.coord(1), 0);
            assert_eq!(neighbor.coord(0), 0);
            assert_eq!(neighbor.coord(1), 0);
            // Direction id 0 points toward the negative first axis.
            assert_eq!(direction, 0);
        },
        other => panic!("unexpected error: {:?}", other),
    }
}

#[test]
fn contradiction_snapshot_holds_neighbor_sockets() {
    // Same clash; the snapshot must list the neighbor's candidates and the
    // socket they expose toward the failing cell.
    let rules: Rules<Dim2d> = RuleBuilder::default()
        .with_rule(10, any_rule_2d(0))
        .with_rule(20, any_rule_2d(1))
        .into();
    let mut builder = StateBuilder::new(
        Size::new(vec![2, 1]),
        RandomArbiter::new(Some(SEED)),
        UnaryConstraint,
        rules,
    );
    builder.insert(UPos::new(vec![0, 0]), 10);
    builder.insert(UPos::new(vec![1, 0]), 20);
    let err = builder.build().err().expect("the seeds clash");
    match err {
        Error::Contradiction { neighbor_variants, neighbor_sockets, .. } => {
            // Variant 10 interns to id 0 and socket 0 to id 0.
            assert_eq!(neighbor_variants, vec![0]);
            assert_eq!(neighbor_sockets, vec![0]);
        },
        other => panic!("unexpected error: {:?}", other),
    }
}

#[test]
fn dimension_mismatch() {
    // A two-axis size with a six-direction rule set.
    let rules: Rules<Dim3d> = RuleBuilder::default().with_rule(0, splat_rule_3d(vec![0])).into();
    let builder = StateBuilder::new(
        Size::new(vec![2, 2]),
        RandomArbiter::new(Some(SEED)),
        UnaryConstraint,
        rules,
    );
    let err = builder.build().err().expect("the axis counts clash");
    match err {
        Error::DimensionMismatch { const_value, dimension_count } => {
            assert_eq!(const_value, 2);
            assert_eq!(dimension_count, 6);
        },
        other => panic!("unexpected error: {:?}", other),
    }
}

#[test]
fn empty_rules_are_rejected() {
    let rules: Rules<Dim2d> = RuleBuilder::default().into();
    let builder = StateBuilder::new(
        Size::new(vec![2, 2]),
        RandomArbiter::new(Some(SEED)),
        UnaryConstraint,
        rules,
    );
    assert!(matches!(builder.build(), Err(Error::NoPossibilities)));
}

#[test]
fn unknown_seed_variant_reports_no_rule() {
    let rules: Rules<Dim2d> = RuleBuilder::default().with_rule(1, any_rule_2d(0)).into();
    let mut builder = StateBuilder::new(
        Size::new(vec![2, 2]),
        RandomArbiter::new(Some(SEED)),
        UnaryConstraint,
        rules,
    );
    builder.insert(UPos::new(vec![0, 0]), 99);
    match builder.build() {
        Err(Error::NoRule { variant }) => assert_eq!(variant, 99),
        other => panic!("unexpected result: {:?}", other.map(|_| ())),
    }
}

#[test]
fn limit_exhaustion() {
    // Three permissive variants; variant value 5 (id 0) may appear once.
    let rules: Rules<Dim2d> = RuleBuilder::default()
        .with_rule(5, any_rule_2d(0))
        .with_rule(6, any_rule_2d(0))
        .with_rule(7, any_rule_2d(0))
        .into();
    let arbiter = MultiPhaseArbitration::new(
        RandomArbiter::new(Some(SEED)),
        LimitAdjuster::new(vec![(0, 1)]),
    );
    let builder = StateBuilder::new(Size::new(vec![4, 4]), arbiter, UnaryConstraint, rules);
    let mut state = builder.build().unwrap();
    wfc::collapse(&mut state).unwrap();
    let data = state.into_data().unwrap();
    let count_limited = data.iter().filter(|v| **v == 5).count();
    assert_eq!(count_limited, 1);
    for v in data {
        assert!(v == 5 || v == 6 || v == 7);
    }
}

#[test]
fn entropy_buckets_track_uncollapsed_cells() {
    // After a couple of steps, every uncollapsed cell sits in the bucket of
    // its entropy and collapsed cells sit in none.
    let rules: Rules<Dim2d> = RuleBuilder::default()
        .with_rule(1, any_rule_2d(0))
        .with_rule(2, any_rule_2d(0))
        .with_rule(3, any_rule_2d(0))
        .into();
    let builder = StateBuilder::new(
        Size::new(vec![4, 4]),
        RandomArbiter::new(Some(SEED)),
        UnaryConstraint,
        rules,
    );
    let mut state = builder.build().unwrap();
    state.collapse().unwrap();
    state.collapse().unwrap();
    let cells = state.cells();
    for (i, cell) in cells.list.iter().enumerate() {
        let mut homes = 0;
        for (b, bucket) in cells.entropy_cache.levels.iter().enumerate() {
            if bucket.contains(&i) {
                homes += 1;
                assert_eq!(b + 1, cell.entropy);
            }
        }
        if cell.entropy == 0 {
            assert_eq!(homes, 0);
        } else {
            assert_eq!(homes, 1);
        }
    }
}

#[test]
fn candidate_sets_shrink_monotonically() {
    let rules: Rules<Dim2d> = RuleBuilder::default()
        .with_rule(1, any_rule_2d(0))
        .with_rule(2, any_rule_2d(0))
        .with_rule(3, any_rule_2d(1))
        .into();
    let builder = StateBuilder::new(
        Size::new(vec![4, 4]),
        RandomArbiter::new(Some(SEED)),
        UnaryConstraint,
        rules,
    );
    let mut state = builder.build().unwrap();
    loop {
        let before: Vec<Vec<usize>> =
            state.cells().list.iter().map(|c| c.possibilities.clone()).collect();
        let obs = state.collapse().unwrap();
        let after: Vec<Vec<usize>> =
            state.cells().list.iter().map(|c| c.possibilities.clone()).collect();
        for (b, a) in before.iter().zip(after.iter()) {
            for v in a {
                assert!(b.contains(v));
            }
        }
        if obs.complete() {
            break;
        }
    }
}
