//! Coordinates, axes, row/column selectors and the grid's dimensions: pure
//! coordinate arithmetic with no mutable state.

use vstd::prelude::*;

use crate::neighbor::Neighbor;
use crate::ship::{ExpectedShip, Ship, ShipHead};

verus! {

broadcast use vstd::seq_lib::lemma_seq_contains_after_push;

/// A cell position: row then column, both counted from zero.
#[derive(Clone, Copy, Debug, PartialEq, Eq, Structural, Hash)]
pub struct Coord {
    pub row_num: usize,
    pub col_num: usize,
}

/// One of the two grid axes.
#[derive(Clone, Copy, Debug, PartialEq, Eq, Structural)]
pub enum Axis {
    Row,
    Col,
}

/// A whole row or a whole column, selected by axis and index.
#[derive(Clone, Copy, Debug, PartialEq, Eq, Structural)]
pub struct RowOrCol {
    pub axis: Axis,
    pub index: usize,
}

/// The grid's dimensions.
#[derive(Clone, Copy, Debug, PartialEq, Eq, Structural, Hash)]
pub struct Layout {
    pub num_rows: usize,
    pub num_cols: usize,
}

impl Axis {
    /// The other axis.
    pub open spec fn spec_cross_axis(self) -> Axis {
        match self {
            Axis::Row => Axis::Col,
            Axis::Col => Axis::Row,
        }
    }

    /// The other axis.
    #[verifier::when_used_as_spec(spec_cross_axis)]
    pub fn cross_axis(self) -> (r: Axis)
        ensures
            r == self.spec_cross_axis(),
    {
        match self {
            Axis::Row => Axis::Col,
            Axis::Col => Axis::Row,
        }
    }
}

/// How far one step in direction `n` moves the row index.
pub open spec fn neighbor_delta_row(n: Neighbor) -> int {
    match n {
        Neighbor::N | Neighbor::NE | Neighbor::NW => -1,
        Neighbor::E | Neighbor::W => 0,
        Neighbor::S | Neighbor::SE | Neighbor::SW => 1,
    }
}

/// How far one step in direction `n` moves the column index.
pub open spec fn neighbor_delta_col(n: Neighbor) -> int {
    match n {
        Neighbor::W | Neighbor::NW | Neighbor::SW => -1,
        Neighbor::N | Neighbor::S => 0,
        Neighbor::E | Neighbor::NE | Neighbor::SE => 1,
    }
}

/// The neighbor of `c` in direction `n`, or `None` exactly when that cell
/// falls outside the grid.
pub open spec fn spec_neighbor(c: Coord, n: Neighbor, layout: Layout) -> Option<Coord> {
    let r2 = c.row_num + neighbor_delta_row(n);
    let c2 = c.col_num + neighbor_delta_col(n);
    if 0 <= r2 < layout.num_rows && 0 <= c2 < layout.num_cols {
        Some(Coord { row_num: r2 as usize, col_num: c2 as usize })
    } else {
        None
    }
}

/// The coordinate `count` steps from `c` along `axis`, or `None` exactly when
/// it falls outside the grid.
pub open spec fn spec_offset(c: Coord, count: int, axis: Axis, layout: Layout) -> Option<Coord> {
    let r2 = c.row_num + if axis is Row {
        count
    } else {
        0
    };
    let c2 = c.col_num + if axis is Col {
        count
    } else {
        0
    };
    if r2 < layout.num_rows && c2 < layout.num_cols {
        Some(Coord { row_num: r2 as usize, col_num: c2 as usize })
    } else {
        None
    }
}

impl Coord {
    /// The coordinate lies on the grid.
    pub open spec fn in_bounds(self, layout: Layout) -> bool {
        self.row_num < layout.num_rows && self.col_num < layout.num_cols
    }

    /// This coordinate's index along `axis`.
    pub open spec fn spec_index_for_axis(&self, axis: Axis) -> usize {
        match axis {
            Axis::Row => self.row_num,
            Axis::Col => self.col_num,
        }
    }

    /// This coordinate's index along `axis`.
    #[verifier::when_used_as_spec(spec_index_for_axis)]
    pub fn index_for_axis(&self, axis: Axis) -> (r: usize)
        ensures
            r == self.spec_index_for_axis(axis),
    {
        match axis {
            Axis::Row => self.row_num,
            Axis::Col => self.col_num,
        }
    }

    /// The row or column of the given axis that this coordinate lies on.
    pub fn row_or_col(&self, axis: Axis) -> (r: RowOrCol)
        ensures
            r == (RowOrCol { axis, index: self.spec_index_for_axis(axis) }),
    {
        RowOrCol { axis, index: self.index_for_axis(axis) }
    }

    /// The row this coordinate lies on.
    pub fn row(&self) -> (r: RowOrCol)
        ensures
            r == (RowOrCol { axis: Axis::Row, index: self.row_num }),
    {
        RowOrCol { axis: Axis::Row, index: self.row_num }
    }

    /// The column this coordinate lies on.
    pub fn col(&self) -> (r: RowOrCol)
        ensures
            r == (RowOrCol { axis: Axis::Col, index: self.col_num }),
    {
        RowOrCol { axis: Axis::Col, index: self.col_num }
    }

    /// Move `count` steps along `axis`, bounds-checked against `layout`.
    pub fn offset(&self, count: usize, axis: Axis, layout: &Layout) -> (r: Option<Coord>)
        ensures
            r == spec_offset(*self, count as int, axis, *layout),
    {
        match axis {
            Axis::Row => {
                if self.col_num < layout.num_cols && self.row_num < layout.num_rows
                    && count < layout.num_rows - self.row_num {
                    Some(Coord { row_num: self.row_num + count, col_num: self.col_num })
                } else {
                    None
                }
            },
            Axis::Col => {
                if self.row_num < layout.num_rows && self.col_num < layout.num_cols
                    && count < layout.num_cols - self.col_num {
                    Some(Coord { row_num: self.row_num, col_num: self.col_num + count })
                } else {
                    None
                }
            },
        }
    }

    /// The neighboring coordinate in direction `neighbor`, bounds-checked
    /// against `layout`.
    pub fn neighbor(&self, neighbor: Neighbor, layout: &Layout) -> (r: Option<Coord>)
        requires
            self.in_bounds(*layout),
        ensures
            r == spec_neighbor(*self, neighbor, *layout),
    {
        let go_n = matches!(neighbor, Neighbor::N | Neighbor::NE | Neighbor::NW);
        let go_s = matches!(neighbor, Neighbor::S | Neighbor::SE | Neighbor::SW);
        let go_w = matches!(neighbor, Neighbor::W | Neighbor::NW | Neighbor::SW);
        let go_e = matches!(neighbor, Neighbor::E | Neighbor::NE | Neighbor::SE);
        if go_n && self.row_num == 0 {
            return None;
        }
        if go_w && self.col_num == 0 {
            return None;
        }
        let row2: usize = if go_n {
            self.row_num - 1
        } else if go_s {
            self.row_num + 1
        } else {
            self.row_num
        };
        let col2: usize = if go_w {
            self.col_num - 1
        } else if go_e {
            self.col_num + 1
        } else {
            self.col_num
        };
        if row2 < layout.num_rows && col2 < layout.num_cols {
            Some(Coord { row_num: row2, col_num: col2 })
        } else {
            None
        }
    }
}

/// The coordinates of row or column `rc`, in minor-axis order.
pub open spec fn row_or_col_coords(rc: RowOrCol, layout: Layout) -> Seq<Coord> {
    let minor_len = match rc.axis {
        Axis::Row => layout.num_cols,
        Axis::Col => layout.num_rows,
    };
    Seq::new(
        minor_len as nat,
        |i: int|
            match rc.axis {
                Axis::Row => Coord { row_num: rc.index, col_num: i as usize },
                Axis::Col => Coord { row_num: i as usize, col_num: rc.index },
            },
    )
}

impl RowOrCol {
    /// The selector names a row or column that exists on the grid.
    pub open spec fn in_bounds(self, layout: Layout) -> bool {
        match self.axis {
            Axis::Row => self.index < layout.num_rows,
            Axis::Col => self.index < layout.num_cols,
        }
    }

    /// All coordinates along this row or column, in minor-axis order.
    pub fn coords(&self, layout: &Layout) -> (r: Vec<Coord>)
        ensures
            r@ == row_or_col_coords(*self, *layout),
    {
        let minor_len = match self.axis {
            Axis::Row => layout.num_cols,
            Axis::Col => layout.num_rows,
        };
        let mut r: Vec<Coord> = Vec::new();
        let mut i: usize = 0;
        while i < minor_len
            invariant
                i <= minor_len,
                minor_len == (match self.axis {
                    Axis::Row => layout.num_cols,
                    Axis::Col => layout.num_rows,
                }),
                r@ == row_or_col_coords(*self, *layout).subrange(0, i as int),
            decreases minor_len - i,
        {
            let c = match self.axis {
                Axis::Row => Coord { row_num: self.index, col_num: i },
                Axis::Col => Coord { row_num: i, col_num: self.index },
            };
            r.push(c);
            proof {
                assert(row_or_col_coords(*self, *layout).subrange(0, i + 1 as int)
                    =~= row_or_col_coords(*self, *layout).subrange(0, i as int).push(c));
            }
            i += 1;
        }
        proof {
            assert(row_or_col_coords(*self, *layout).subrange(
                0,
                row_or_col_coords(*self, *layout).len() as int,
            ) =~= row_or_col_coords(*self, *layout));
        }
        r
    }
}

/// Every coordinate of the grid in row-major order.
pub open spec fn all_coords_seq(layout: Layout) -> Seq<Coord> {
    Seq::new(
        (layout.num_rows * layout.num_cols) as nat,
        |i: int|
            Coord {
                row_num: (i / layout.num_cols as int) as usize,
                col_num: (i % layout.num_cols as int) as usize,
            },
    )
}

/// Every coordinate `all_coords_seq` yields lies on the grid.
pub proof fn lemma_all_coords_in_bounds(layout: Layout, i: int)
    requires
        layout.wf(),
        0 <= i < all_coords_seq(layout).len(),
    ensures
        all_coords_seq(layout)[i].in_bounds(layout),
{
    let cols = layout.num_cols as int;
    vstd::arithmetic::div_mod::lemma_fundamental_div_mod(i, cols);
    vstd::arithmetic::div_mod::lemma_mod_division_less_than_divisor(i, cols);
    vstd::arithmetic::div_mod::lemma_div_pos_is_pos(i, cols);
    if i / cols >= layout.num_rows {
        vstd::arithmetic::mul::lemma_mul_inequality(layout.num_rows as int, i / cols, cols);
        assert(layout.num_rows * layout.num_cols <= (i / cols) * cols);
        assert(false);
    }
}

/// Distinct positions of `all_coords_seq` hold distinct coordinates.
pub proof fn lemma_all_coords_injective(layout: Layout, i: int, j: int)
    requires
        layout.wf(),
        0 <= i < all_coords_seq(layout).len(),
        0 <= j < all_coords_seq(layout).len(),
        all_coords_seq(layout)[i] == all_coords_seq(layout)[j],
    ensures
        i == j,
{
    let cols = layout.num_cols as int;
    lemma_all_coords_in_bounds(layout, i);
    lemma_all_coords_in_bounds(layout, j);
    vstd::arithmetic::div_mod::lemma_fundamental_div_mod(i, cols);
    vstd::arithmetic::div_mod::lemma_fundamental_div_mod(j, cols);
    vstd::arithmetic::div_mod::lemma_mod_division_less_than_divisor(i, cols);
    vstd::arithmetic::div_mod::lemma_mod_division_less_than_divisor(j, cols);
    vstd::arithmetic::div_mod::lemma_div_pos_is_pos(i, cols);
    vstd::arithmetic::div_mod::lemma_div_pos_is_pos(j, cols);
}

/// Every coordinate on the grid appears in `all_coords_seq`, at its
/// row-major position.
pub proof fn lemma_all_coords_complete(layout: Layout, c: Coord)
    requires
        layout.wf(),
        c.in_bounds(layout),
    ensures
        0 <= c.row_num * layout.num_cols + c.col_num < all_coords_seq(layout).len(),
        all_coords_seq(layout)[c.row_num * layout.num_cols + c.col_num as int] == c,
{
    let idx = c.row_num * layout.num_cols + c.col_num as int;
    vstd::arithmetic::mul::lemma_mul_inequality(
        c.row_num + 1,
        layout.num_rows as int,
        layout.num_cols as int,
    );
    assert((c.row_num + 1) * layout.num_cols == c.row_num * layout.num_cols + layout.num_cols)
        by (nonlinear_arith);
    vstd::arithmetic::div_mod::lemma_fundamental_div_mod_converse(
        idx,
        layout.num_cols as int,
        c.row_num as int,
        c.col_num as int,
    );
}

/// The rows-then-columns enumeration of selectors.
pub open spec fn rows_and_cols_seq(layout: Layout) -> Seq<RowOrCol> {
    Seq::new(
        (layout.num_rows + layout.num_cols) as nat,
        |i: int|
            if i < layout.num_rows {
                RowOrCol { axis: Axis::Row, index: i as usize }
            } else {
                RowOrCol { axis: Axis::Col, index: (i - layout.num_rows) as usize }
            },
    )
}

/// The heads a ship of the given size could have, Row axis first: exactly
/// those whose full extent stays on the grid.
pub open spec fn possible_heads_seq(layout: Layout, expected_ship: ExpectedShip) -> Seq<ShipHead> {
    let rows = heads_for_axis_seq(layout, expected_ship, Axis::Row);
    if expected_ship.size == 1 {
        rows
    } else {
        rows + heads_for_axis_seq(layout, expected_ship, Axis::Col)
    }
}

/// The in-bounds heads along one incrementing axis, in row-major origin order.
pub open spec fn heads_for_axis_seq(layout: Layout, expected_ship: ExpectedShip, axis: Axis) -> Seq<
    ShipHead,
> {
    all_coords_seq(layout).map_values(
        |origin: Coord| ShipHead { origin, incrementing_axis: axis },
    ).filter(
        |head: ShipHead|
            (Ship { head, size: expected_ship.size }).spec_in_bounds(layout),
    )
}

impl Layout {
    /// The grid has at least one row and one column, and its cell count fits
    /// the machine.
    pub open spec fn wf(self) -> bool {
        &&& self.num_rows >= 1
    &&& self.num_cols >= 1
    &&& self.num_rows * self.num_cols <= usize::MAX
    &&& self.num_rows + self.num_cols <= usize::MAX
    }

    /// Build a coordinate; the column comes first.
    pub fn coord(&self, col_num: usize, row_num: usize) -> (r: Coord)
        ensures
            r == (Coord { row_num, col_num }),
    {
        Coord { row_num, col_num }
    }

    /// The row or column selector with the given axis and index.
    pub fn row_or_col(&self, axis: Axis, index: usize) -> (r: RowOrCol)
        ensures
            r == (RowOrCol { axis, index }),
    {
        RowOrCol { axis, index }
    }

    /// The row selector with the given index.
    pub fn row(&self, index: usize) -> (r: RowOrCol)
        ensures
            r == (RowOrCol { axis: Axis::Row, index }),
    {
        RowOrCol { axis: Axis::Row, index }
    }

    /// The column selector with the given index.
    pub fn col(&self, index: usize) -> (r: RowOrCol)
        ensures
            r == (RowOrCol { axis: Axis::Col, index }),
    {
        RowOrCol { axis: Axis::Col, index }
    }

    /// Every coordinate of the grid, in row-major order.
    pub fn all_coordinates(&self) -> (r: Vec<Coord>)
        requires
            self.wf(),
        ensures
            r@ == all_coords_seq(*self),
    {
        let num_squares = self.num_rows * self.num_cols;
        let mut r: Vec<Coord> = Vec::new();
        let mut idx: usize = 0;
        while idx < num_squares
            invariant
                idx <= num_squares,
                num_squares == self.num_rows * self.num_cols,
                self.wf(),
                r@ == all_coords_seq(*self).subrange(0, idx as int),
            decreases num_squares - idx,
        {
            let c = Coord { row_num: idx / self.num_cols, col_num: idx % self.num_cols };
            r.push(c);
            proof {
                assert(all_coords_seq(*self).subrange(0, idx + 1 as int) =~= all_coords_seq(
                    *self,
                ).subrange(0, idx as int).push(c));
            }
            idx += 1;
        }
        proof {
            assert(all_coords_seq(*self).subrange(0, all_coords_seq(*self).len() as int)
                =~= all_coords_seq(*self));
        }
        r
    }

    /// Every row selector, then every column selector.
    pub fn rows_and_cols(&self) -> (r: Vec<RowOrCol>)
        requires
            self.wf(),
        ensures
            r@ == rows_and_cols_seq(*self),
    {
        let total = self.num_rows + self.num_cols;
        let mut r: Vec<RowOrCol> = Vec::new();
        let mut i: usize = 0;
        while i < total
            invariant
                i <= total,
                total == self.num_rows + self.num_cols,
                r@ == rows_and_cols_seq(*self).subrange(0, i as int),
            decreases total - i,
        {
            let rc = if i < self.num_rows {
                RowOrCol { axis: Axis::Row, index: i }
            } else {
                RowOrCol { axis: Axis::Col, index: i - self.num_rows }
            };
            r.push(rc);
            proof {
                assert(rows_and_cols_seq(*self).subrange(0, i + 1 as int) =~= rows_and_cols_seq(
                    *self,
                ).subrange(0, i as int).push(rc));
            }
            i += 1;
        }
        proof {
            assert(rows_and_cols_seq(*self).subrange(0, rows_and_cols_seq(*self).len() as int)
                =~= rows_and_cols_seq(*self));
        }
        r
    }

    /// Every head a ship of the given size could have on this grid: for size
    /// one only the Row-axis variants (the axis of a single square does not
    /// matter), otherwise the Row-axis variants then the Col-axis ones; only
    /// heads whose full extent stays on the grid are produced.
    pub fn possible_heads_for_ship(&self, expected_ship: ExpectedShip) -> (r: Vec<ShipHead>)
        requires
            self.wf(),
            expected_ship.size >= 1,
        ensures
            r@ == possible_heads_seq(*self, expected_ship),
            forall|i: int|
                0 <= i < r@.len() ==> (Ship {
                    head: #[trigger] r@[i],
                    size: expected_ship.size,
                }).spec_in_bounds(*self),
    {
        let mut r: Vec<ShipHead> = self.heads_for_axis(expected_ship, Axis::Row);
        if expected_ship.size > 1 {
            let mut cols = self.heads_for_axis(expected_ship, Axis::Col);
            r.append(&mut cols);
        }
        r
    }

    /// The in-bounds heads along one incrementing axis.
    fn heads_for_axis(&self, expected_ship: ExpectedShip, axis: Axis) -> (r: Vec<ShipHead>)
        requires
            self.wf(),
            expected_ship.size >= 1,
        ensures
            r@ == heads_for_axis_seq(*self, expected_ship, axis),
            forall|i: int|
                0 <= i < r@.len() ==> (Ship {
                    head: #[trigger] r@[i],
                    size: expected_ship.size,
                }).spec_in_bounds(*self),
    {

        let coords = self.all_coordinates();
        let mut r: Vec<ShipHead> = Vec::new();
        let mut i: usize = 0;
        let ghost mapped = all_coords_seq(*self).map_values(
            |origin: Coord| ShipHead { origin, incrementing_axis: axis },
        );
        let ghost pred = |head: ShipHead|
            (Ship { head, size: expected_ship.size }).spec_in_bounds(*self);
        while i < coords.len()
            invariant
                i <= coords.len(),
                coords@ == all_coords_seq(*self),
                mapped == all_coords_seq(*self).map_values(
                    |origin: Coord| ShipHead { origin, incrementing_axis: axis },
                ),
                pred == (|head: ShipHead|
                    (Ship { head, size: expected_ship.size }).spec_in_bounds(*self)),
                expected_ship.size >= 1,
                self.wf(),
                r@ == mapped.subrange(0, i as int).filter(pred),
                forall|t: int|
                    0 <= t < r@.len() ==> (Ship {
                        head: #[trigger] r@[t],
                        size: expected_ship.size,
                    }).spec_in_bounds(*self),
            decreases coords.len() - i,
        {
            let head = ShipHead { origin: coords[i], incrementing_axis: axis };
            let ship = Ship { head, size: expected_ship.size };
            proof {
                assert(mapped.subrange(0, i + 1 as int) =~= mapped.subrange(0, i as int).push(
                    head,
                ));
                mapped.subrange(0, i as int).lemma_filter_push(head, pred);
            }
            if ship.is_in_bounds(self) {
                r.push(head);
            }
            i += 1;
        }
        proof {
            assert(mapped.subrange(0, mapped.len() as int) =~= mapped);
        }
        r
    }
}

} // verus!
