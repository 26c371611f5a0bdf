//! Geometry: index conversions, wrapping, and direction arithmetic.

use wfc::util::{from_index, to_index, IPos, Size, UPos};
use wfc::DimensionId;

fn ipos(coords: Vec<isize>) -> IPos {
    IPos::new(coords)
}

fn ipos_coords(p: &IPos) -> Vec<isize> {
    let mut out = Vec::new();
    let mut k = 0;
    while k < p.dims() {
        out.push(p.coord(k));
        k += 1;
    }
    out
}

#[test]
fn ipos_indexes() {
    let size = Size::new(vec![5, 5, 5]);
    let pos = ipos(vec![2, 3, 4]);
    let index = pos.index(&size);
    assert_eq!(index, 117);
    let orig = IPos::from_index(index, &size);
    assert_eq!(ipos_coords(&pos), ipos_coords(&orig));
}

#[test]
fn upos_indexes() {
    let size = Size::new(vec![5, 5, 5]);
    let pos = UPos::new(vec![2, 3, 4]);
    let index = pos.index(&size);
    assert_eq!(index, 117);
    let orig = UPos::from_index(index, &size);
    assert_eq!(orig.index(&size), 117);
}

#[test]
fn wrapped_ipos() {
    let size = Size::new(vec![4]);
    let pos = ipos(vec![-1]);
    let wrapped = pos.wrap(&size);
    assert_eq!(ipos_coords(&wrapped), vec![3]);

    let size = Size::new(vec![10, 10]);
    let pos = ipos(vec![-1, -1]);
    let wrapped = pos.wrap(&size);
    assert_eq!(ipos_coords(&wrapped), vec![9, 9]);

    let pos = ipos(vec![10, 10]);
    let wrapped = pos.wrap(&size);
    assert_eq!(ipos_coords(&wrapped), vec![0, 0]);
}

#[test]
fn index_bijection_small_sizes() {
    let size = Size::new(vec![3, 4, 5]);
    let total = size.len();
    assert_eq!(total, 60);
    let mut i = 0;
    while i < total {
        let parts = from_index(i, &size);
        assert_eq!(to_index(&parts, &size), i);
        i += 1;
    }
}

#[test]
fn direction_pairing() {
    let mut d = 0;
    while d < 8 {
        let dir = DimensionId(d);
        let opp = dir.opposite();
        assert_ne!(opp.0, d);
        assert_eq!(opp.opposite().0, d);
        i_pair(d, opp.0);
        d += 1;
    }
}

fn i_pair(d: usize, o: usize) {
    // Paired ids share an axis: they differ only in their last bit.
    assert_eq!(d / 2, o / 2);
}

#[test]
fn step_moves_index_by_stride() {
    let size = Size::new(vec![5, 7, 3]);
    let pos = ipos(vec![2, 3, 1]);
    let base = pos.index(&size);
    // Axis 0 has stride 1, axis 1 stride 5, axis 2 stride 35.
    assert_eq!(pos.add_dir(0).index(&size), base - 1);
    assert_eq!(pos.add_dir(1).index(&size), base + 1);
    assert_eq!(pos.add_dir(2).index(&size), base - 5);
    assert_eq!(pos.add_dir(3).index(&size), base + 5);
    assert_eq!(pos.add_dir(4).index(&size), base - 35);
    assert_eq!(pos.add_dir(5).index(&size), base + 35);
}

#[test]
fn wrap_is_euclidean() {
    assert_eq!(wfc::wrap(-1, 4), 3);
    assert_eq!(wfc::wrap(-4, 4), 0);
    assert_eq!(wfc::wrap(-5, 4), 3);
    assert_eq!(wfc::wrap(9, 4), 1);
    assert_eq!(wfc::wrap(0, 4), 0);
}

#[test]
fn signed_positions_convert_when_nonnegative() {
    let p = ipos(vec![2, 0, 5]);
    let u = UPos::from_ipos(&p).unwrap();
    assert_eq!(u.index(&Size::new(vec![6, 6, 6])), 2 + 5 * 36);
    assert!(UPos::from_ipos(&ipos(vec![1, -1])).is_err());
}
