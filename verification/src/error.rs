//! The solver's error values. Parse errors reject a malformed text board;
//! the others surface contradictions met while solving, so a caller can tell
//! which rule went wrong and at which cell.

use vstd::prelude::*;

use crate::layout::Coord;
use crate::neighbor::Neighbor;
use crate::square::Square;

verus! {

/// Why a parse or a solving step failed.
#[derive(Clone, Copy, Debug, PartialEq, Eq, Structural)]
pub enum Error {
    /// A cell write would widen, not narrow, the cell's state.
    BadTransition { at: Coord, current: Square, attempted: Square },
    /// A cell became a ship square in a row or column whose remaining count
    /// was already zero.
    CounterExhausted { at: Coord, current: Square, attempted: Square },
    /// A resolved shape demands a neighboring ship square that lies off the
    /// grid.
    NoRoomForNeighbor { at: Coord, current: Square, direction: Neighbor },
    /// An unresolved middle has room neither horizontally nor vertically.
    NoSpaceForMiddle { at: Coord },
    /// The rows of the text board do not all have the header's column count.
    InconsistentColumns,
    /// Text was left after a complete board had been read.
    LeftoverInput,
    /// The text is not a board at all.
    MalformedBoard,
    /// The solve loop exceeded its safety cap without converging.
    TooManyPasses,
}

} // verus!
