//! A full maze run: rules found from a small sample drive a seeded
//! weighted collapse of a 32 by 32 grid with a fixed entrance and exit.

use wfc::auto::RuleFinder;
use wfc::prebuilt::arbiters::{LimitAdjuster, MultiPhaseArbitration, WeightArbiter};
use wfc::prebuilt::auto::GenericFinder;
use wfc::prebuilt::constraints::UnaryConstraint;
use wfc::prebuilt::e2e::maze2d::{Maze2dTypeSet, MazeRole, MazeRuleProvider};
use wfc::prebuilt::shapes::{InformedShape, MultiShape, WeightedShape};
use wfc::state::StateBuilder;
use wfc::util::{Size, UPos};

const ROWS: usize = 32;
const COLS: usize = 32;

const INFLUENCE_RADIUS: usize = 2;
const SEED: u64 = 123;

const EXPECTED_OUTPUT: &str = "\
    E╦╦╗╔╗╠╗╠╩╝╔╦╗╔╝╚╣╔╩╣╔╝╔╗╠╣╠╩╦╝╔\
    ╝╚╩╩╩╩╩╩╩╦╦╝╠╝╠╦╗╠╣╔╣╠╗╠╝╚╝╠╦╩╦╝\
    .╔╗╔╦╗.╔╗╠╝╔╣╔╩╩╩╩╝╚╣╚╣╠╗╔╗╠╝.╠╗\
    .╚╩╩╩╣.╠╩╝.╚╩╣.╔╗.╔╦╣╔╩╩╣╚╩╩╦╗╠╣\
    ╦╗╔╗╔╩╗╠╦╗.╔╦╣.╚╩╗╠╝╚╝..╚╗.╔╩╣╠╣\
    ╣╠╩╝╚╦╝╚╩╩╦╣╠╣╔╗.╚╩╦╗╔╦╦╦╝╔╣.╠╩╣\
    ╩╝╔╦╗╠╦╦╦╦╝╠╣╠╝╚╗.╔╝╠╩╣╠╩╦╩╝╔╝╔╩\
    ╔╗╠╩╣╚╝╚╣╚╦╝╠╩╗.╚╦╣.╚╗╚╩╗╚╦╗╠╗╠╗\
    ╣╚╩╦╝.╔╦╣.╚╦╩╦╩╦╗╠╣..╠╗╔╝╔╣╠╩╩╝╠\
    ╩╦╦╣╔╦╩╝╠╦╦╝.╚╗╠╣╚╣╔╗╚╝╚╗╠╣╚╦╦╗╚\
    ╔╩╝╚╝╠╦╗╚╝╠╦╦╦╝╚╝╔╝╠╣.╔╦╩╩╣╔╣╚╝╔\
    ╝.╔╗.╠╣╚╗╔╩╝╚╣╔╗╔╩╦╩╩╦╣╚╗╔╩╣╠╗.╚\
    ╦╗╠╣╔╣╠╦╩╩╦╗.╠╣╠╝╔╝╔╗╠╣.╠╩╦╩╩╩╦╦\
    ╚╩╝╚╩╣╚╩╗╔╩╩╦╩╩╩╦╣.╚╣╠╣╔╩╦╝..╔╩╩\
    ╦╦╦╦╦╝╔╦╩╝.╔╣..╔╝╠╦╗╠╝╚╣.╚╗.╔╣╔╦\
    ╣╚╣╚╩╦╣╚╦╦╗╚╩╗.╚╗╚╝╠╝..╠╦╦╩╗╠╝╚╣\
    ╩╗╚╗.╚╝.╚╩╝╔╦╩╗.╚╦╦╣..╔╝╚╣╔╣╠╗╔╩\
    ╦╣╔╝.╔╗..╔╗╠╝╔╣╔╦╩╩╣╔╦╣..╚╝╠╩╣╠╦\
    ╚╝╠╗.╚╝╔╦╣╠╣╔╩╝╚╝╔╦╣╠╣╚╗..╔╣╔╣╠╩\
    .╔╩╝╔╗╔╩╣╠╣╚╣╔╦╦╦╩╩╣╚╣╔╩╗╔╩╣╚╩╣╔\
    .╚╗╔╝╚╝.╠╝╚╦╩╣╠╣╠╦╗╠╗╚╝╔╩╣╔╝╔╦╣╠\
    ╗╔╣╚╗..╔╝..╚╗╚╣╠╝╚╩╝╚╦╗╚╦╣╠╗╚╩╣╠\
    ╩╣╚╦╩╗╔╝...╔╣.╚╣...╔╦╣╠╦╩╣╠╩╦╗╠╝\
    ╔╩╗╚╦╩╩╦╦╗╔╝╚╦╦╝.╔╦╣╠╝╚╣.╚╩╗╠╝╠╗\
    ╣.╚╦╝..╚╝╚╝.╔╩╩╗╔╣╚╣╚╗╔╩╦╗.╠╣╔╝╠\
    ╠╦╦╝╔╦╦╗.╔╦╦╣.╔╝╚╝╔╣╔╩╣╔╝╚╗╚╩╩╦╣\
    ╣╚╩╦╝╚╝╚╦╣╚╝╚╗╠╦╦╦╝╠╝╔╝╠╦╗╚╦╦╦╝╚\
    ╠╗╔╝.╔╗╔╣╚╗..╚╩╣╚╝.╠╗╚╦╝╚╝╔╣╚╩╗╔\
    ╩╩╣╔╦╩╣╠╩╗╠╗...╠╦╦╗╚╣.╠╦╦╦╩╝.╔╣╠\
    ╗╔╣╚╝╔╝╚╗╠╣╚╗╔╦╩╩╩╝.╠╦╣╚╣╠╦╗.╠╩╩\
    ╚╝╚╗╔╩╦╦╩╝╚╦╣╠╝╔╦╗.╔╩╩╣╔╝╚╣╚╗╚╗╔\
    ╔╗.╠╝.╠╩╦╦╗╠╣╚╦╣╠╩╦╝..╠╝╔╦╣.╚╗╠X\
    ";

struct TextMaze;

impl Maze2dTypeSet for TextMaze {
    fn value(role: MazeRole) -> u64 {
        let c = match role {
            MazeRole::Entrance => 'E',
            MazeRole::Exit => 'X',
            MazeRole::Empty => '.',
            MazeRole::Vertical => '║',
            MazeRole::Horizontal => '═',
            MazeRole::CornerUl => '╔',
            MazeRole::CornerUr => '╗',
            MazeRole::CornerBl => '╚',
            MazeRole::CornerBr => '╝',
            MazeRole::FourWay => '╬',
            MazeRole::ThreeWayUp => '╩',
            MazeRole::ThreeWayDown => '╦',
            MazeRole::ThreeWayRight => '╠',
            MazeRole::ThreeWayLeft => '╣',
        };
        c as u64
    }
}

#[test]
fn output_test() {
    let rows = 7;
    let cols = 10;
    let source: Vec<u64> = "\
    ╔════════╗\
    ║...╔═╦═╗║\
    ║.╔═╩═╣.║║\
    E╦╣╔══╣.╠X\
    ║║╚╝.╔╩═╝║\
    ║╚═══╝...║\
    ╚════════╝\
    "
    .chars()
    .map(|c| c as u64)
    .collect();

    assert_eq!(source.len(), rows * cols);
    assert_eq!(EXPECTED_OUTPUT.chars().count(), ROWS * COLS);

    let finder = GenericFinder::new(
        MazeRuleProvider::<TextMaze>::default(),
        source,
        Size::new(vec![cols, rows]),
    );

    let rules = finder.find().unwrap();

    // Every variant weighs the same; ids are dense, so one entry per id.
    let n_variants = rules.variants().len();
    let weights: Vec<(usize, usize)> = (0..n_variants).map(|i| (i, 1)).collect();

    let shape = MultiShape::new(
        WeightedShape::new(weights),
        InformedShape::new(INFLUENCE_RADIUS, 1, Vec::new()),
    );

    // The interned ids of the entrance and exit variants.
    let mut values = rules.variants();
    values.sort();
    values.dedup();
    let id_of = |c: char| values.iter().position(|v| *v == c as u64).unwrap();
    let limits = vec![(id_of('E'), 0), (id_of('X'), 0)];

    let arbiter = MultiPhaseArbitration::new(
        WeightArbiter::new(Some(SEED), shape),
        LimitAdjuster::new(limits),
    );

    let mut builder =
        StateBuilder::new(Size::new(vec![COLS, ROWS]), arbiter, UnaryConstraint, rules);

    builder.insert(UPos::new(vec![0, 0]), 'E' as u64);
    builder.insert(UPos::new(vec![COLS - 1, ROWS - 1]), 'X' as u64);

    let mut state = builder.build().unwrap();

    wfc::collapse(&mut state).unwrap();

    let actual: Vec<char> = state
        .into_data()
        .unwrap()
        .into_iter()
        .map(|v| char::from_u32(v as u32).unwrap())
        .collect();

    let expected: Vec<char> = EXPECTED_OUTPUT.chars().collect();
    assert_eq!(expected.len(), actual.len());
    assert_eq!(expected, actual);
}
