//! Rule finding and shape weights on small fixtures.

use wfc::auto::{RuleFinder, SocketProvider};
use wfc::prebuilt::arbiters::LimitAdjuster;
use wfc::Adjuster;
use wfc::cells::Cells;
use wfc::prebuilt::auto::GenericFinder;
use wfc::prebuilt::dims::{Dim1d, Dim2d};
use wfc::prebuilt::e2e::chaos::ChaosMode;
use wfc::prebuilt::e2e::maze2d::{Maze2dTypeSet, MazeRole, MazeRuleProvider};
use wfc::prebuilt::shapes::InformedShape;
use wfc::util::Size;
use wfc::Shape;

#[test]
fn chaos_finder_collects_adjacencies() {
    // A one-axis sample 0, 1, 2: each variant's socket on a side gathers the
    // variants seen on that side, itself included.
    let finder = GenericFinder::<Dim1d, ChaosMode>::new(
        ChaosMode,
        vec![0u64, 1, 2],
        Size::new(vec![3]),
    );
    let rules = finder.find().unwrap();

    let middle = rules.rule_for(&1).unwrap();
    assert_eq!(middle.socket_for(&Dim1d::Left).unwrap().clone(), vec![0, 1]);
    assert_eq!(middle.socket_for(&Dim1d::Right).unwrap().clone(), vec![1, 2]);

    let first = rules.rule_for(&0).unwrap();
    assert!(first.socket_for(&Dim1d::Left).is_none());
    assert_eq!(first.socket_for(&Dim1d::Right).unwrap().clone(), vec![0, 1]);
}

struct SmallMaze;

impl Maze2dTypeSet for SmallMaze {
    fn value(role: MazeRole) -> u64 {
        // Any distinct values will do; the table is keyed by them.
        role as u64
    }
}

#[test]
fn maze_provider_answers_from_its_table() {
    let provider = MazeRuleProvider::<SmallMaze>::default();
    // A vertical corridor joins corridors above and below and walls sideways.
    let vertical = SmallMaze::value(MazeRole::Vertical);
    let up = provider.find(None, Dim2d::Up, &vertical, &0).unwrap().unwrap();
    assert_eq!(up, vec![0]);
    let left = provider.find(None, Dim2d::Left, &vertical, &0).unwrap().unwrap();
    assert_eq!(left, vec![1]);
    // An unknown variant has no socket.
    assert!(provider.find(None, Dim2d::Up, &999, &0).is_err());
}

#[test]
fn informed_shape_counts_matching_surroundings() {
    // Cells 0 and 2 start collapsed; the survey around cell 1 with radius 1
    // sees both, and only the matching variant contributes value times
    // magnitude.
    let cells = Cells::new(
        Size::new(vec![3, 1]),
        vec![Some(0), None, Some(1)],
        2,
    );
    let shape = InformedShape::new(1, 2, vec![(0, 5), (1, 7)]);
    assert_eq!(shape.weight(0, 1, &cells), 10);
    assert_eq!(shape.weight(1, 1, &cells), 14);
    // Radius 0 sees nothing but the cell itself, which is uncollapsed.
    let near = InformedShape::new(0, 2, vec![(0, 5)]);
    assert_eq!(near.weight(0, 1, &cells), 0);
}

#[test]
fn limit_adjuster_decrements_then_removes() {
    let mut cells = Cells::new(Size::new(vec![3, 1]), vec![None, None, None], 2);
    let mut adj = LimitAdjuster::new(vec![(1, 2)]);
    adj.revise(1, &mut cells).unwrap();
    // The first placement only lowers the quota.
    assert_eq!(adj.limits, vec![(1, 1)]);
    for cell in cells.list.iter() {
        assert!(cell.possibilities.contains(&1));
    }
    adj.revise(1, &mut cells).unwrap();
    // The quota is exhausted: the variant is gone everywhere.
    assert_eq!(adj.limits, vec![(1, 0)]);
    for cell in cells.list.iter() {
        assert_eq!(cell.possibilities, vec![0]);
    }
    // Removing a cell's last candidate is refused.
    let mut last = LimitAdjuster::new(vec![(0, 1)]);
    assert!(last.revise(0, &mut cells).is_err());
}

#[test]
fn maze_provider_values_follow_role_order() {
    let values: Vec<u64> = (100..114).collect();
    let p = MazeRuleProvider::<SmallMaze>::from_values(values);
    // Position 3 plays the vertical corridor: corridor above, wall sideways.
    assert_eq!(p.find(None, Dim2d::Up, &103, &0).unwrap().unwrap(), vec![0]);
    assert_eq!(p.find(None, Dim2d::Left, &103, &0).unwrap().unwrap(), vec![1]);
}
