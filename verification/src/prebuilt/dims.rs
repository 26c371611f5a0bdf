//! Direction enumerations for one, two and three axes.
//!
//! Directions come in pairs per axis and run from the negative to the
//! positive end, so the first two entries cover the first axis, left to
//! right, and so on.

use crate::Dimension;
use vstd::prelude::*;

verus! {

/// The two directions of a one-axis grid.
#[derive(PartialEq, Eq, Structural, Hash, Clone, Copy, Debug)]
pub enum Dim1d {
    Left,
    Right,
}

impl Dimension for Dim1d {
    open spec fn count() -> int {
        2
    }

    open spec fn id_spec(self) -> int {
        match self {
            Dim1d::Left => 0,
            Dim1d::Right => 1,
        }
    }

    proof fn id_properties(self) {
    }

    fn dir_count() -> usize {
        2
    }

    fn id(self) -> usize {
        match self {
            Dim1d::Left => 0,
            Dim1d::Right => 1,
        }
    }

    fn from_id(i: usize) -> Self {
        if i == 0 {
            Dim1d::Left
        } else {
            Dim1d::Right
        }
    }

    fn opposite(&self) -> Self {
        match self {
            Dim1d::Left => Dim1d::Right,
            Dim1d::Right => Dim1d::Left,
        }
    }
}

/// The four directions of a two-axis grid.
#[derive(PartialEq, Eq, Structural, Hash, Clone, Copy, Debug)]
pub enum Dim2d {
    Left,
    Right,
    Up,
    Down,
}

impl Dimension for Dim2d {
    open spec fn count() -> int {
        4
    }

    open spec fn id_spec(self) -> int {
        match self {
            Dim2d::Left => 0,
            Dim2d::Right => 1,
            Dim2d::Up => 2,
            Dim2d::Down => 3,
        }
    }

    proof fn id_properties(self) {
    }

    fn dir_count() -> usize {
        4
    }

    fn id(self) -> usize {
        match self {
            Dim2d::Left => 0,
            Dim2d::Right => 1,
            Dim2d::Up => 2,
            Dim2d::Down => 3,
        }
    }

    fn from_id(i: usize) -> Self {
        if i == 0 {
            Dim2d::Left
        } else if i == 1 {
            Dim2d::Right
        } else if i == 2 {
            Dim2d::Up
        } else {
            Dim2d::Down
        }
    }

    fn opposite(&self) -> Self {
        match self {
            Dim2d::Left => Dim2d::Right,
            Dim2d::Right => Dim2d::Left,
            Dim2d::Up => Dim2d::Down,
            Dim2d::Down => Dim2d::Up,
        }
    }
}

/// The six directions of a three-axis grid.
#[derive(PartialEq, Eq, Structural, Hash, Clone, Copy, Debug)]
pub enum Dim3d {
    Left,
    Right,
    Up,
    Down,
    Forward,
    Backward,
}

impl Dimension for Dim3d {
    open spec fn count() -> int {
        6
    }

    open spec fn id_spec(self) -> int {
        match self {
            Dim3d::Left => 0,
            Dim3d::Right => 1,
            Dim3d::Up => 2,
            Dim3d::Down => 3,
            Dim3d::Forward => 4,
            Dim3d::Backward => 5,
        }
    }

    proof fn id_properties(self) {
    }

    fn dir_count() -> usize {
        6
    }

    fn id(self) -> usize {
        match self {
            Dim3d::Left => 0,
            Dim3d::Right => 1,
            Dim3d::Up => 2,
            Dim3d::Down => 3,
            Dim3d::Forward => 4,
            Dim3d::Backward => 5,
        }
    }

    fn from_id(i: usize) -> Self {
        if i == 0 {
            Dim3d::Left
        } else if i == 1 {
            Dim3d::Right
        } else if i == 2 {
            Dim3d::Up
        } else if i == 3 {
            Dim3d::Down
        } else if i == 4 {
            Dim3d::Forward
        } else {
            Dim3d::Backward
        }
    }

    fn opposite(&self) -> Self {
        match self {
            Dim3d::Left => Dim3d::Right,
            Dim3d::Right => Dim3d::Left,
            Dim3d::Up => Dim3d::Down,
            Dim3d::Down => Dim3d::Up,
            Dim3d::Forward => Dim3d::Backward,
            Dim3d::Backward => Dim3d::Forward,
        }
    }
}

} // verus!
