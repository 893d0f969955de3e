//! Ship descriptors: a size still to be placed, a candidate head (origin plus
//! incrementing axis), and the expected shape of each square along a ship.

use vstd::prelude::*;

use crate::layout::{spec_offset, Axis, Coord, Layout};
use crate::square::ShipSquare;

verus! {

/// A ship size that still has to be found on the board.
#[derive(Clone, Copy, Debug, PartialEq, Eq, Structural, Hash)]
pub struct ExpectedShip {
    pub size: usize,
}

impl ExpectedShip {
    /// The square indexes `0 .. size` of a ship of this size.
    pub fn square_indexes(&self) -> (r: Vec<usize>)
        ensures
            r@ == Seq::new(self.size as nat, |i: int| i as usize),
    {
        let mut r: Vec<usize> = Vec::new();
        let mut i: usize = 0;
        while i < self.size
            invariant
                i <= self.size,
                r@ == Seq::new(i as nat, |k: int| k as usize),
            decreases self.size - i,
        {
            r.push(i);
            proof {
                assert(Seq::new((i + 1) as nat, |k: int| k as usize) =~= Seq::new(
                    i as nat,
                    |k: int| k as usize,
                ).push(i));
            }
            i += 1;
        }
        r
    }
}

/// A candidate placement: the ship's first square and the axis along which
/// its squares are enumerated.
#[derive(Clone, Copy, Debug, PartialEq, Eq, Structural)]
pub struct ShipHead {
    pub origin: Coord,
    pub incrementing_axis: Axis,
}

impl ShipHead {
    /// The ship of the given size placed at this head.
    pub fn to_ship(self, expected_ship: ExpectedShip) -> (r: Ship)
        ensures
            r == (Ship { head: self, size: expected_ship.size }),
    {
        Ship { head: self, size: expected_ship.size }
    }
}

/// A concrete ship placement: head plus size.
#[derive(Clone, Copy, Debug, PartialEq, Eq, Structural)]
pub struct Ship {
    pub head: ShipHead,
    pub size: usize,
}

/// The coordinate of square `i` of the ship, counted from its head along its
/// incrementing axis. Meaningful only while the ship stays on the grid.
pub open spec fn spec_nth_coord(ship: Ship, i: int) -> Coord {
    match ship.head.incrementing_axis {
        Axis::Row => Coord {
            row_num: (ship.head.origin.row_num + i) as usize,
            col_num: ship.head.origin.col_num,
        },
        Axis::Col => Coord {
            row_num: ship.head.origin.row_num,
            col_num: (ship.head.origin.col_num + i) as usize,
        },
    }
}

/// The coordinates of the ship's squares, head first.
pub open spec fn spec_ship_coords(ship: Ship) -> Seq<Coord> {
    Seq::new(ship.size as nat, |i: int| spec_nth_coord(ship, i))
}

/// The shape expected at square `i` of the ship: a single square is a `Dot`;
/// otherwise the first square is the Top or Left end, the last the Bottom or
/// Right end, and everything between a middle, each picked by the
/// incrementing axis.
pub open spec fn spec_expected_square(ship: Ship, i: int) -> ShipSquare {
    if ship.size == 1 {
        ShipSquare::Dot
    } else if i == 0 {
        match ship.head.incrementing_axis {
            Axis::Col => ShipSquare::LeftEnd,
            Axis::Row => ShipSquare::TopEnd,
        }
    } else if i == ship.size - 1 {
        match ship.head.incrementing_axis {
            Axis::Col => ShipSquare::RightEnd,
            Axis::Row => ShipSquare::BottomEnd,
        }
    } else {
        match ship.head.incrementing_axis {
            Axis::Col => ShipSquare::HorizontalMiddle,
            Axis::Row => ShipSquare::VerticalMiddle,
        }
    }
}

impl Ship {
    /// The whole ship, last square included, lies on the grid.
    pub open spec fn spec_in_bounds(self, layout: Layout) -> bool {
        match self.head.incrementing_axis {
            Axis::Row => self.head.origin.row_num + self.size <= layout.num_rows
                && self.head.origin.col_num < layout.num_cols,
            Axis::Col => self.head.origin.col_num + self.size <= layout.num_cols
                && self.head.origin.row_num < layout.num_rows,
        }
    }

    /// Build a ship from its parts.
    pub fn new(origin: Coord, incrementing_axis: Axis, size: usize) -> (r: Ship)
        ensures
            r == (Ship { head: ShipHead { origin, incrementing_axis }, size }),
    {
        Ship { head: ShipHead { origin, incrementing_axis }, size }
    }

    /// The square indexes `0 .. size` of this ship.
    pub fn square_indexes(&self) -> (r: Vec<usize>)
        ensures
            r@ == Seq::new(self.size as nat, |i: int| i as usize),
    {
        let e = ExpectedShip { size: self.size };
        e.square_indexes()
    }

    /// Whether the whole ship stays on the grid.
    pub fn is_in_bounds(&self, layout: &Layout) -> (r: bool)
        requires
            self.size >= 1,
        ensures
            r == self.spec_in_bounds(*layout),
    {
        let last_square_idx = self.size - 1;
        let last_square = self.head.origin.offset(
            last_square_idx,
            self.head.incrementing_axis,
            layout,
        );
        last_square.is_some()
    }

    /// The coordinates of the ship's squares, head first, or `None` exactly
    /// when the ship would leave the grid.
    pub fn coords(&self, layout: &Layout) -> (r: Option<Vec<Coord>>)
        requires
            self.size >= 1,
        ensures
            match r {
                Some(v) => self.spec_in_bounds(*layout) && v@ == spec_ship_coords(*self),
                None => !self.spec_in_bounds(*layout),
            },
    {
        if !self.is_in_bounds(layout) {
            return None;
        }
        let mut v: Vec<Coord> = Vec::new();
        let mut i: usize = 0;
        while i < self.size
            invariant
                i <= self.size,
                self.spec_in_bounds(*layout),
                v@ == spec_ship_coords(*self).subrange(0, i as int),
            decreases self.size - i,
        {
            let c = match self.head.incrementing_axis {
                Axis::Row => Coord {
                    row_num: self.head.origin.row_num + i,
                    col_num: self.head.origin.col_num,
                },
                Axis::Col => Coord {
                    row_num: self.head.origin.row_num,
                    col_num: self.head.origin.col_num + i,
                },
            };
            proof {
                assert(spec_ship_coords(*self).subrange(0, i + 1 as int) =~= spec_ship_coords(
                    *self,
                ).subrange(0, i as int).push(c));
            }
            v.push(c);
            i += 1;
        }
        proof {
            assert(spec_ship_coords(*self).subrange(0, spec_ship_coords(*self).len() as int)
                =~= spec_ship_coords(*self));
        }
        Some(v)
    }

    /// The shape expected at square `square_idx` of this ship.
    pub fn expected_square_for_idx(&self, square_idx: usize) -> (r: ShipSquare)
        requires
            square_idx < self.size,
        ensures
            r == spec_expected_square(*self, square_idx as int),
    {
        if self.size == 1 {
            ShipSquare::Dot
        } else if square_idx == 0 {
            match self.head.incrementing_axis {
                Axis::Col => ShipSquare::LeftEnd,
                Axis::Row => ShipSquare::TopEnd,
            }
        } else if square_idx == self.size - 1 {
            match self.head.incrementing_axis {
                Axis::Col => ShipSquare::RightEnd,
                Axis::Row => ShipSquare::BottomEnd,
            }
        } else {
            match self.head.incrementing_axis {
                Axis::Col => ShipSquare::HorizontalMiddle,
                Axis::Row => ShipSquare::VerticalMiddle,
            }
        }
    }

    /// Every square of an in-bounds ship lies on the grid.
    pub proof fn lemma_coords_in_bounds(self, layout: Layout, i: int)
        requires
            self.spec_in_bounds(layout),
            0 <= i < self.size,
        ensures
            spec_nth_coord(self, i).in_bounds(layout),
    {
    }
}

} // verus!
