//! Rules for a two-axis maze of corridor pieces: each piece exposes a
//! corridor or a wall on each of its four sides, and pieces fit when the
//! facing sides agree. The whole table lives in [`maze_socket`]; the provider
//! answers from it and from nothing else.

use crate::auto::{FindResult, NoSocket, SocketProvider};
use crate::prebuilt::dims::Dim2d;
use crate::Dimension;
use core::marker::PhantomData;
use vstd::prelude::*;

verus! {

/// The connector a maze piece exposes on one side.
#[derive(PartialEq, Eq, Structural, Hash, Clone, Copy, Debug)]
pub enum Socket {
    Vertical,
    VerticalBreak,
    Horizontal,
    HorizontalBreak,
}

impl Socket {
    /// The socket as an interned connector value, in declaration order.
    pub open spec fn value_spec(self) -> u64 {
        match self {
            Socket::Vertical => 0,
            Socket::VerticalBreak => 1,
            Socket::Horizontal => 2,
            Socket::HorizontalBreak => 3,
        }
    }

    pub fn value(self) -> (r: u64)
        ensures
            r == self.value_spec(),
    {
        match self {
            Socket::Vertical => 0,
            Socket::VerticalBreak => 1,
            Socket::Horizontal => 2,
            Socket::HorizontalBreak => 3,
        }
    }
}

/// The roles the maze pieces play; a type set names the variant value of each.
#[derive(PartialEq, Eq, Structural, Hash, Clone, Copy, Debug)]
pub enum MazeRole {
    Entrance,
    Exit,
    Empty,
    Vertical,
    Horizontal,
    CornerUl,
    CornerUr,
    CornerBl,
    CornerBr,
    FourWay,
    ThreeWayUp,
    ThreeWayDown,
    ThreeWayRight,
    ThreeWayLeft,
}

/// The number of maze roles.
pub const MAZE_ROLE_COUNT: usize = 14;

/// The role at a position of a type set's value list, in declaration order.
pub open spec fn role_of(k: int) -> MazeRole {
    if k == 0 {
        MazeRole::Entrance
    } else if k == 1 {
        MazeRole::Exit
    } else if k == 2 {
        MazeRole::Empty
    } else if k == 3 {
        MazeRole::Vertical
    } else if k == 4 {
        MazeRole::Horizontal
    } else if k == 5 {
        MazeRole::CornerUl
    } else if k == 6 {
        MazeRole::CornerUr
    } else if k == 7 {
        MazeRole::CornerBl
    } else if k == 8 {
        MazeRole::CornerBr
    } else if k == 9 {
        MazeRole::FourWay
    } else if k == 10 {
        MazeRole::ThreeWayUp
    } else if k == 11 {
        MazeRole::ThreeWayDown
    } else if k == 12 {
        MazeRole::ThreeWayRight
    } else {
        MazeRole::ThreeWayLeft
    }
}

/// The role at a position, as executable code.
pub fn role_at(k: usize) -> (r: MazeRole)
    requires
        k < MAZE_ROLE_COUNT,
    ensures
        r == role_of(k as int),
{
    if k == 0 {
        MazeRole::Entrance
    } else if k == 1 {
        MazeRole::Exit
    } else if k == 2 {
        MazeRole::Empty
    } else if k == 3 {
        MazeRole::Vertical
    } else if k == 4 {
        MazeRole::Horizontal
    } else if k == 5 {
        MazeRole::CornerUl
    } else if k == 6 {
        MazeRole::CornerUr
    } else if k == 7 {
        MazeRole::CornerBl
    } else if k == 8 {
        MazeRole::CornerBr
    } else if k == 9 {
        MazeRole::FourWay
    } else if k == 10 {
        MazeRole::ThreeWayUp
    } else if k == 11 {
        MazeRole::ThreeWayDown
    } else if k == 12 {
        MazeRole::ThreeWayRight
    } else {
        MazeRole::ThreeWayLeft
    }
}

/// The maze rule table: the connector each role exposes toward a direction
/// (ids: 0 left, 1 right, 2 up, 3 down). A corridor side joins matching
/// corridors; a closed side carries the matching wall so walls face walls.
/// The entrance and exit connect like a four-way piece.
pub open spec fn maze_socket(d: int, role: MazeRole) -> Socket {
    let vertical_axis = d == 2 || d == 3;
    match role {
        MazeRole::Entrance => if vertical_axis {
            Socket::Vertical
        } else {
            Socket::Horizontal
        },
        MazeRole::Exit => if vertical_axis {
            Socket::Vertical
        } else {
            Socket::Horizontal
        },
        MazeRole::Empty => if vertical_axis {
            Socket::VerticalBreak
        } else {
            Socket::HorizontalBreak
        },
        MazeRole::Vertical => if vertical_axis {
            Socket::Vertical
        } else {
            Socket::VerticalBreak
        },
        MazeRole::Horizontal => if vertical_axis {
            Socket::HorizontalBreak
        } else {
            Socket::Horizontal
        },
        MazeRole::CornerUl => if d == 2 {
            Socket::VerticalBreak
        } else if d == 3 {
            Socket::Vertical
        } else if d == 0 {
            Socket::HorizontalBreak
        } else {
            Socket::Horizontal
        },
        MazeRole::CornerUr => if d == 2 {
            Socket::VerticalBreak
        } else if d == 3 {
            Socket::Vertical
        } else if d == 0 {
            Socket::Horizontal
        } else {
            Socket::HorizontalBreak
        },
        MazeRole::CornerBl => if d == 2 {
            Socket::Vertical
        } else if d == 3 {
            Socket::VerticalBreak
        } else if d == 0 {
            Socket::HorizontalBreak
        } else {
            Socket::Horizontal
        },
        MazeRole::CornerBr => if d == 2 {
            Socket::Vertical
        } else if d == 3 {
            Socket::VerticalBreak
        } else if d == 0 {
            Socket::Horizontal
        } else {
            Socket::HorizontalBreak
        },
        MazeRole::FourWay => if vertical_axis {
            Socket::Vertical
        } else {
            Socket::Horizontal
        },
        MazeRole::ThreeWayUp => if d == 2 {
            Socket::Vertical
        } else if d == 3 {
            Socket::VerticalBreak
        } else {
            Socket::Horizontal
        },
        MazeRole::ThreeWayDown => if d == 2 {
            Socket::VerticalBreak
        } else if d == 3 {
            Socket::Vertical
        } else {
            Socket::Horizontal
        },
        MazeRole::ThreeWayRight => if vertical_axis {
            Socket::Vertical
        } else if d == 0 {
            Socket::HorizontalBreak
        } else {
            Socket::Horizontal
        },
        MazeRole::ThreeWayLeft => if vertical_axis {
            Socket::Vertical
        } else if d == 0 {
            Socket::Horizontal
        } else {
            Socket::HorizontalBreak
        },
    }
}

/// The table as executable code.
pub fn maze_socket_at(d: usize, role: MazeRole) -> (r: Socket)
    ensures
        r == maze_socket(d as int, role),
{
    let vertical_axis = d == 2 || d == 3;
    match role {
        MazeRole::Entrance | MazeRole::Exit | MazeRole::FourWay => if vertical_axis {
            Socket::Vertical
        } else {
            Socket::Horizontal
        },
        MazeRole::Empty => if vertical_axis {
            Socket::VerticalBreak
        } else {
            Socket::HorizontalBreak
        },
        MazeRole::Vertical => if vertical_axis {
            Socket::Vertical
        } else {
            Socket::VerticalBreak
        },
        MazeRole::Horizontal => if vertical_axis {
            Socket::HorizontalBreak
        } else {
            Socket::Horizontal
        },
        MazeRole::CornerUl => if d == 2 {
            Socket::VerticalBreak
        } else if d == 3 {
            Socket::Vertical
        } else if d == 0 {
            Socket::HorizontalBreak
        } else {
            Socket::Horizontal
        },
        MazeRole::CornerUr => if d == 2 {
            Socket::VerticalBreak
        } else if d == 3 {
            Socket::Vertical
        } else if d == 0 {
            Socket::Horizontal
        } else {
            Socket::HorizontalBreak
        },
        MazeRole::CornerBl => if d == 2 {
            Socket::Vertical
        } else if d == 3 {
            Socket::VerticalBreak
        } else if d == 0 {
            Socket::HorizontalBreak
        } else {
            Socket::Horizontal
        },
        MazeRole::CornerBr => if d == 2 {
            Socket::Vertical
        } else if d == 3 {
            Socket::VerticalBreak
        } else if d == 0 {
            Socket::Horizontal
        } else {
            Socket::HorizontalBreak
        },
        MazeRole::ThreeWayUp => if d == 2 {
            Socket::Vertical
        } else if d == 3 {
            Socket::VerticalBreak
        } else {
            Socket::Horizontal
        },
        MazeRole::ThreeWayDown => if d == 2 {
            Socket::VerticalBreak
        } else if d == 3 {
            Socket::Vertical
        } else {
            Socket::Horizontal
        },
        MazeRole::ThreeWayRight => if vertical_axis {
            Socket::Vertical
        } else if d == 0 {
            Socket::HorizontalBreak
        } else {
            Socket::Horizontal
        },
        MazeRole::ThreeWayLeft => if vertical_axis {
            Socket::Vertical
        } else if d == 0 {
            Socket::Horizontal
        } else {
            Socket::HorizontalBreak
        },
    }
}

/// Names the variant value that plays each maze role. The trait promises
/// nothing of the values — a trait-level specification would keep plain hosts
/// from implementing it — so the provider's contract speaks over the value
/// list it was built from.
pub trait Maze2dTypeSet {
    fn value(role: MazeRole) -> u64;
}

/// The position of the first value equal to `v`, if any.
pub open spec fn role_slot(values: Seq<u64>, v: u64) -> Option<int>
    decreases values.len(),
{
    if values.len() == 0 {
        None
    } else if values[0] == v {
        Some(0)
    } else {
        match role_slot(values.drop_first(), v) {
            Some(i) => Some(i + 1),
            None => None,
        }
    }
}

/// The first-match slot is an entry for the value, and earlier entries are not.
pub proof fn lemma_role_slot(values: Seq<u64>, v: u64)
    ensures
        match role_slot(values, v) {
            Some(p) => {
                &&& 0 <= p < values.len()
                &&& values[p] == v
                &&& forall|j: int| 0 <= j < p ==> #[trigger] values[j] != v
            },
            None => forall|j: int| 0 <= j < values.len() ==> #[trigger] values[j] != v,
        },
    decreases values.len(),
{
    if values.len() > 0 {
        lemma_role_slot(values.drop_first(), v);
        if values[0] != v {
            assert(forall|j: int|
                1 <= j < values.len() ==> #[trigger] values[j] == values.drop_first()[j - 1]);
        }
    }
}

/// Answers maze sockets for the variant values of a type set: the value at
/// position `k` of the list plays the role at position `k` of the role order.
pub struct MazeRuleProvider<T: Maze2dTypeSet> {
    /// One variant value per maze role, in role order.
    pub values: Vec<u64>,
    /// Ties the provider to its type set.
    pub _types: PhantomData<T>,
}

impl<T: Maze2dTypeSet> MazeRuleProvider<T> {
    /// A provider for explicit role values; position `k` plays `role_of(k)`.
    pub fn from_values(values: Vec<u64>) -> (r: Self)
        requires
            values@.len() == MAZE_ROLE_COUNT,
        ensures
            r.values == values,
    {
        MazeRuleProvider { values, _types: PhantomData }
    }
}

impl<T: Maze2dTypeSet> Default for MazeRuleProvider<T> {
    /// Collects the type set's value for every role, in role order.
    fn default() -> (r: Self)
        ensures
            r.values@.len() == MAZE_ROLE_COUNT,
    {
        let mut values: Vec<u64> = Vec::new();
        let mut k: usize = 0;
        while k < MAZE_ROLE_COUNT
            invariant
                0 <= k <= MAZE_ROLE_COUNT,
                values@.len() == k,
            decreases MAZE_ROLE_COUNT - k,
        {
            values.push(T::value(role_at(k)));
            k = k + 1;
        }
        MazeRuleProvider { values, _types: PhantomData }
    }
}

impl<T: Maze2dTypeSet> SocketProvider<Dim2d> for MazeRuleProvider<T> {
    /// The answer depends only on the direction and the source variant: the
    /// tabled connector of the source's role, as a one-element socket, or
    /// failure for a value that plays no role.
    open spec fn find_spec(
        &self,
        current: Option<Seq<u64>>,
        dir: Dim2d,
        source: u64,
        target: u64,
    ) -> Result<Option<Seq<u64>>, NoSocket> {
        match role_slot(self.values@, source) {
            Some(k) => Ok(Some(seq![maze_socket(dir.id_spec(), role_of(k)).value_spec()])),
            None => Err(NoSocket),
        }
    }

    open spec fn finalize_spec(&self, dir: Dim2d, socket: Seq<u64>) -> Seq<u64> {
        socket
    }

    fn find(
        &self,
        current: Option<Vec<u64>>,
        dir: Dim2d,
        source: &u64,
        target: &u64,
    ) -> (r: FindResult<Vec<u64>>) {
        proof {
            lemma_role_slot(self.values@, *source);
        }
        let d = dir.id();
        let n = self.values.len();
        let mut k: usize = 0;
        while k < n
            invariant_except_break
                0 <= k <= n,
                forall|j: int| 0 <= j < k ==> #[trigger] self.values@[j] != *source,
            invariant
                n == self.values@.len(),
            ensures
                0 <= k <= n,
                k < n ==> self.values@[k as int] == *source,
                forall|j: int| 0 <= j < k ==> #[trigger] self.values@[j] != *source,
            decreases n - k,
        {
            if self.values[k] == *source {
                break ;
            }
            k = k + 1;
        }
        proof {
            lemma_role_slot(self.values@, *source);
        }
        if k >= n {
            proof {
                assert(role_slot(self.values@, *source) is None) by {
                    match role_slot(self.values@, *source) {
                        Some(q) => {
                            assert(self.values@[q] == *source);
                            assert(self.values@[q] != *source);
                        },
                        None => {},
                    }
                }
            }
            return Err(NoSocket);
        }
        proof {
            assert(role_slot(self.values@, *source) == Some(k as int)) by {
                match role_slot(self.values@, *source) {
                    Some(q) => {
                        if q < k as int {
                            assert(self.values@[q] != *source);
                        }
                        if q > k as int {
                            assert(self.values@[k as int] != *source);
                        }
                    },
                    None => {
                        assert(self.values@[k as int] != *source);
                    },
                }
            }
        }
        let role = if k < MAZE_ROLE_COUNT {
            role_at(k)
        } else {
            // A longer value list repeats the last role.
            role_at(MAZE_ROLE_COUNT - 1)
        };
        proof {
            assert(role == role_of(k as int));
        }
        let sock = maze_socket_at(d, role);
        let mut out: Vec<u64> = Vec::new();
        out.push(sock.value());
        proof {
            assert(out@ =~= seq![maze_socket(dir.id_spec(), role).value_spec()]);
        }
        Ok(Some(out))
    }

    fn finalize(&self, dir: Dim2d, socket: Vec<u64>) -> (r: Vec<u64>) {
        socket
    }
}

} // verus!
