//! The per-cell state of the board: unknown, water, or one of nine ship-square
//! shapes, together with the neighbor tables each shape implies and the
//! character encoding used by the text format.

use vstd::prelude::*;

use crate::neighbor::{all_neighbors_seq, lemma_all_neighbors_complete, Neighbor};

verus! {

broadcast use vstd::seq_lib::lemma_seq_contains_after_push;

/// The shape of a square known to belong to a ship. `Any` is a ship square of
/// unresolved shape; `AnyMiddle` is a non-end segment of unresolved
/// orientation; `Dot` is a complete single-square ship. The other six are
/// fully resolved.
#[derive(Clone, Copy, Debug, PartialEq, Eq, Structural)]
pub enum ShipSquare {
    Any,
    LeftEnd,
    RightEnd,
    TopEnd,
    BottomEnd,
    VerticalMiddle,
    HorizontalMiddle,
    AnyMiddle,
    Dot,
}

/// The nine shapes, in the order `ShipSquare::all` returns them.
pub open spec fn all_ship_squares_seq() -> Seq<ShipSquare> {
    seq![
        ShipSquare::Any,
        ShipSquare::LeftEnd,
        ShipSquare::RightEnd,
        ShipSquare::TopEnd,
        ShipSquare::BottomEnd,
        ShipSquare::VerticalMiddle,
        ShipSquare::HorizontalMiddle,
        ShipSquare::AnyMiddle,
        ShipSquare::Dot,
    ]
}

/// Every shape occurs in `all_ship_squares_seq`.
pub proof fn lemma_all_ship_squares_complete(s: ShipSquare)
    ensures
        all_ship_squares_seq().contains(s),
{
    match s {
        ShipSquare::Any => assert(all_ship_squares_seq()[0] == s),
        ShipSquare::LeftEnd => assert(all_ship_squares_seq()[1] == s),
        ShipSquare::RightEnd => assert(all_ship_squares_seq()[2] == s),
        ShipSquare::TopEnd => assert(all_ship_squares_seq()[3] == s),
        ShipSquare::BottomEnd => assert(all_ship_squares_seq()[4] == s),
        ShipSquare::VerticalMiddle => assert(all_ship_squares_seq()[5] == s),
        ShipSquare::HorizontalMiddle => assert(all_ship_squares_seq()[6] == s),
        ShipSquare::AnyMiddle => assert(all_ship_squares_seq()[7] == s),
        ShipSquare::Dot => assert(all_ship_squares_seq()[8] == s),
    }
}

/// A square of a ship of shape `s` requires water in direction `n`.
pub open spec fn is_water_neighbor(s: ShipSquare, n: Neighbor) -> bool {
    match s {
        ShipSquare::Any => n == Neighbor::NW || n == Neighbor::NE || n == Neighbor::SW
            || n == Neighbor::SE,
        ShipSquare::AnyMiddle => n == Neighbor::NW || n == Neighbor::NE || n == Neighbor::SW
            || n == Neighbor::SE,
        ShipSquare::Dot => true,
        ShipSquare::LeftEnd => n != Neighbor::E,
        ShipSquare::RightEnd => n != Neighbor::W,
        ShipSquare::TopEnd => n != Neighbor::S,
        ShipSquare::BottomEnd => n != Neighbor::N,
        ShipSquare::VerticalMiddle => n != Neighbor::N && n != Neighbor::S,
        ShipSquare::HorizontalMiddle => n != Neighbor::E && n != Neighbor::W,
    }
}

/// A square of a ship of shape `s` requires another ship square in direction
/// `n`: every direction that is not a water direction, as the original table
/// defines it.
pub open spec fn is_ship_neighbor(s: ShipSquare, n: Neighbor) -> bool {
    !is_water_neighbor(s, n)
}

/// How many of the eight directions shape `s` forces to water; the measure of
/// how specific a shape is.
pub open spec fn water_neighbor_count(s: ShipSquare) -> int {
    match s {
        ShipSquare::Any => 4,
        ShipSquare::AnyMiddle => 4,
        ShipSquare::Dot => 8,
        ShipSquare::LeftEnd => 7,
        ShipSquare::RightEnd => 7,
        ShipSquare::TopEnd => 7,
        ShipSquare::BottomEnd => 7,
        ShipSquare::VerticalMiddle => 6,
        ShipSquare::HorizontalMiddle => 6,
    }
}

impl ShipSquare {
    /// Every shape, in a fixed order.
    pub fn all() -> (r: Vec<ShipSquare>)
        ensures
            r@ == all_ship_squares_seq(),
    {
        let r: Vec<ShipSquare> = vec![
            ShipSquare::Any,
            ShipSquare::LeftEnd,
            ShipSquare::RightEnd,
            ShipSquare::TopEnd,
            ShipSquare::BottomEnd,
            ShipSquare::VerticalMiddle,
            ShipSquare::HorizontalMiddle,
            ShipSquare::AnyMiddle,
            ShipSquare::Dot,
        ];
        proof {
            assert(r@ =~= all_ship_squares_seq());
        }
        r
    }

    /// Whether direction `n` is one this shape forces to water.
    pub fn is_water_neighbor_at(self, n: Neighbor) -> (r: bool)
        ensures
            r == is_water_neighbor(self, n),
    {
        match self {
            ShipSquare::Any | ShipSquare::AnyMiddle => matches!(
                n,
                Neighbor::NW | Neighbor::NE | Neighbor::SW | Neighbor::SE,
            ),
            ShipSquare::Dot => true,
            ShipSquare::LeftEnd => !matches!(n, Neighbor::E),
            ShipSquare::RightEnd => !matches!(n, Neighbor::W),
            ShipSquare::TopEnd => !matches!(n, Neighbor::S),
            ShipSquare::BottomEnd => !matches!(n, Neighbor::N),
            ShipSquare::VerticalMiddle => !matches!(n, Neighbor::N | Neighbor::S),
            ShipSquare::HorizontalMiddle => !matches!(n, Neighbor::E | Neighbor::W),
        }
    }

    /// The directions this shape forces to water.
    pub fn water_neighbors(self) -> (r: Vec<Neighbor>)
        ensures
            forall|n: Neighbor| r@.contains(n) <==> is_water_neighbor(self, n),
            r@.no_duplicates(),
    {
        let all = Neighbor::all_neighbors();
        let mut r: Vec<Neighbor> = Vec::new();
        let mut i: usize = 0;
        while i < all.len()
            invariant
                i <= all.len(),
                all@ == all_neighbors_seq(),
                forall|n: Neighbor| #[trigger] r@.contains(n)
                    <==> (all@.subrange(0, i as int).contains(n) && is_water_neighbor(self, n)),
                r@.no_duplicates(),
            decreases all.len() - i,
        {
            let n = all[i];
            if self.is_water_neighbor_at(n) {
                proof {
                    assert(!r@.contains(n)) by {
                        if all@.subrange(0, i as int).contains(n) {
                            let j = choose|j: int|
                                0 <= j < i && all@.subrange(0, i as int)[j] == n;
                            assert(all_neighbors_seq()[j] == all_neighbors_seq()[i as int]);
                        }
                    }
                }
                let ghost old_r = r@;
                r.push(n);
                proof {
                    assert forall|a: int, b: int| 0 <= a < b < r@.len() implies r@[a] != r@[b] by {
                        if b == r@.len() - 1 {
                            assert(r@[a] == old_r[a]);
                            old_r.lemma_index_contains(a);
                        }
                    }
                }
            }
            proof {
                assert(all@.subrange(0, i + 1 as int) =~= all@.subrange(0, i as int).push(n));
            }
            i += 1;
        }
        proof {
            assert(all@.subrange(0, all@.len() as int) =~= all@);
            assert forall|n: Neighbor| all_neighbors_seq().contains(n) by {
                lemma_all_neighbors_complete(n);
            }
        }
        r
    }

    /// The directions this shape requires to hold further ship squares.
    pub fn ship_neighbors(self) -> (r: Vec<Neighbor>)
        ensures
            forall|n: Neighbor| r@.contains(n) <==> is_ship_neighbor(self, n),
            r@.no_duplicates(),
    {
        let all = Neighbor::all_neighbors();
        let mut r: Vec<Neighbor> = Vec::new();
        let mut i: usize = 0;
        while i < all.len()
            invariant
                i <= all.len(),
                all@ == all_neighbors_seq(),
                forall|n: Neighbor| #[trigger] r@.contains(n)
                    <==> (all@.subrange(0, i as int).contains(n) && is_ship_neighbor(self, n)),
                r@.no_duplicates(),
            decreases all.len() - i,
        {
            let n = all[i];
            if !self.is_water_neighbor_at(n) {
                proof {
                    assert(!r@.contains(n)) by {
                        if all@.subrange(0, i as int).contains(n) {
                            let j = choose|j: int|
                                0 <= j < i && all@.subrange(0, i as int)[j] == n;
                            assert(all_neighbors_seq()[j] == all_neighbors_seq()[i as int]);
                        }
                    }
                }
                let ghost old_r = r@;
                r.push(n);
                proof {
                    assert forall|a: int, b: int| 0 <= a < b < r@.len() implies r@[a] != r@[b] by {
                        if b == r@.len() - 1 {
                            assert(r@[a] == old_r[a]);
                            old_r.lemma_index_contains(a);
                        }
                    }
                }
            }
            proof {
                assert(all@.subrange(0, i + 1 as int) =~= all@.subrange(0, i as int).push(n));
            }
            i += 1;
        }
        proof {
            assert(all@.subrange(0, all@.len() as int) =~= all@);
            assert forall|n: Neighbor| all_neighbors_seq().contains(n) by {
                lemma_all_neighbors_complete(n);
            }
        }
        r
    }

    /// How many directions this shape forces to water.
    pub fn water_neighbor_total(self) -> (r: usize)
        ensures
            r as int == water_neighbor_count(self),
    {
        match self {
            ShipSquare::Any | ShipSquare::AnyMiddle => 4,
            ShipSquare::Dot => 8,
            ShipSquare::LeftEnd | ShipSquare::RightEnd | ShipSquare::TopEnd
                | ShipSquare::BottomEnd => 7,
            ShipSquare::VerticalMiddle | ShipSquare::HorizontalMiddle => 6,
        }
    }
}

/// The state of one board cell.
#[derive(Clone, Copy, Debug, PartialEq, Eq, Structural)]
pub enum Square {
    Unknown,
    Water,
    ShipSquare(ShipSquare),
}

impl Square {
    /// The cell is known to belong to a ship.
    pub open spec fn spec_is_ship(self) -> bool {
        self is ShipSquare
    }

    #[verifier::when_used_as_spec(spec_is_ship)]
    pub fn is_ship(self) -> (r: bool)
        ensures
            r == self.spec_is_ship(),
    {
        matches!(self, Square::ShipSquare(_))
    }

    /// The cell is a ship middle of some kind (possibly of unresolved
    /// orientation).
    pub open spec fn spec_is_ship_middle(self) -> bool {
        self == Square::ShipSquare(ShipSquare::AnyMiddle)
            || self == Square::ShipSquare(ShipSquare::VerticalMiddle)
            || self == Square::ShipSquare(ShipSquare::HorizontalMiddle)
    }

    #[verifier::when_used_as_spec(spec_is_ship_middle)]
    pub fn is_ship_middle(self) -> (r: bool)
        ensures
            r == self.spec_is_ship_middle(),
    {
        matches!(
            self,
            Square::ShipSquare(ShipSquare::AnyMiddle)
                | Square::ShipSquare(ShipSquare::VerticalMiddle)
                | Square::ShipSquare(ShipSquare::HorizontalMiddle),
        )
    }

    /// The square a character of the text format stands for, if any.
    pub fn from_char(square_char: char) -> (r: Option<Square>)
        ensures
            r == square_of_char(square_char),
    {
        if square_char == ' ' {
            Some(Square::Unknown)
        } else if square_char == '~' {
            Some(Square::Water)
        } else if square_char == '*' {
            Some(Square::ShipSquare(ShipSquare::Any))
        } else if square_char == '\u{2022}' {
            Some(Square::ShipSquare(ShipSquare::Dot))
        } else if square_char == '<' {
            Some(Square::ShipSquare(ShipSquare::LeftEnd))
        } else if square_char == '>' {
            Some(Square::ShipSquare(ShipSquare::RightEnd))
        } else if square_char == '^' {
            Some(Square::ShipSquare(ShipSquare::TopEnd))
        } else if square_char == 'v' {
            Some(Square::ShipSquare(ShipSquare::BottomEnd))
        } else if square_char == '|' {
            Some(Square::ShipSquare(ShipSquare::VerticalMiddle))
        } else if square_char == '-' {
            Some(Square::ShipSquare(ShipSquare::HorizontalMiddle))
        } else if square_char == '\u{2610}' {
            Some(Square::ShipSquare(ShipSquare::AnyMiddle))
        } else {
            None
        }
    }

    /// The character the text format writes for this square.
    pub fn to_char(self) -> (c: char)
        ensures
            c == char_of(self),
    {
        match self {
            Square::Unknown => ' ',
            Square::Water => '~',
            Square::ShipSquare(ShipSquare::Any) => '*',
            Square::ShipSquare(ShipSquare::Dot) => '\u{2022}',
            Square::ShipSquare(ShipSquare::LeftEnd) => '<',
            Square::ShipSquare(ShipSquare::RightEnd) => '>',
            Square::ShipSquare(ShipSquare::TopEnd) => '^',
            Square::ShipSquare(ShipSquare::BottomEnd) => 'v',
            Square::ShipSquare(ShipSquare::VerticalMiddle) => '|',
            Square::ShipSquare(ShipSquare::HorizontalMiddle) => '-',
            Square::ShipSquare(ShipSquare::AnyMiddle) => '\u{2610}',
        }
    }
}

/// The character the text format writes for square `s`.
pub open spec fn char_of(s: Square) -> char {
    match s {
        Square::Unknown => ' ',
        Square::Water => '~',
        Square::ShipSquare(ShipSquare::Any) => '*',
        Square::ShipSquare(ShipSquare::Dot) => '\u{2022}',
        Square::ShipSquare(ShipSquare::LeftEnd) => '<',
        Square::ShipSquare(ShipSquare::RightEnd) => '>',
        Square::ShipSquare(ShipSquare::TopEnd) => '^',
        Square::ShipSquare(ShipSquare::BottomEnd) => 'v',
        Square::ShipSquare(ShipSquare::VerticalMiddle) => '|',
        Square::ShipSquare(ShipSquare::HorizontalMiddle) => '-',
        Square::ShipSquare(ShipSquare::AnyMiddle) => '\u{2610}',
    }
}

/// The square character `c` stands for, if it is one of the format's cell
/// characters.
pub open spec fn square_of_char(c: char) -> Option<Square> {
    if c == ' ' {
        Some(Square::Unknown)
    } else if c == '~' {
        Some(Square::Water)
    } else if c == '*' {
        Some(Square::ShipSquare(ShipSquare::Any))
    } else if c == '\u{2022}' {
        Some(Square::ShipSquare(ShipSquare::Dot))
    } else if c == '<' {
        Some(Square::ShipSquare(ShipSquare::LeftEnd))
    } else if c == '>' {
        Some(Square::ShipSquare(ShipSquare::RightEnd))
    } else if c == '^' {
        Some(Square::ShipSquare(ShipSquare::TopEnd))
    } else if c == 'v' {
        Some(Square::ShipSquare(ShipSquare::BottomEnd))
    } else if c == '|' {
        Some(Square::ShipSquare(ShipSquare::VerticalMiddle))
    } else if c == '-' {
        Some(Square::ShipSquare(ShipSquare::HorizontalMiddle))
    } else if c == '\u{2610}' {
        Some(Square::ShipSquare(ShipSquare::AnyMiddle))
    } else {
        None
    }
}

/// Writing a square and reading the character back yields the square: one
/// half of the text format's cell-level round trip.
pub proof fn lemma_square_char_round_trip(s: Square)
    ensures
        square_of_char(char_of(s)) == Some(s),
{
}

/// Reading a cell character and writing the square back yields the same
/// character: the other half of the cell-level round trip.
pub proof fn lemma_char_square_round_trip(c: char)
    requires
        square_of_char(c) is Some,
    ensures
        char_of(square_of_char(c)->Some_0) == c,
{
}

} // verus!
