//! The board: the grid of cells, the per-row and per-column remaining
//! ship-square counters, the manifest of ships still to find, and the single
//! mutation primitive `set` that enforces the narrowing invariant and keeps
//! the counters consistent.

use vstd::prelude::*;

use crate::chars::{chars_of, string_from_chars};
use crate::error::Error;
use crate::parse::{
    board_lines, digit_char, digit_to_char, grid_text_matches, header_line, input_text,
    input_text_of, join_lines, lemma_join_lines_push, lemma_manifest_items_push,
    manifest_item_text, manifest_items_text, manifest_line, manifest_text_matches, parse_board,
    row_line, shown_manifest,
};
use crate::layout::{
    all_coords_seq, possible_heads_seq, row_or_col_coords, Axis, Coord, Layout, RowOrCol,
};
use crate::ship::{
    spec_expected_square, spec_nth_coord, spec_ship_coords, ExpectedShip, Ship, ShipHead,
};
use crate::square::{ShipSquare, Square};

verus! {

broadcast use vstd::seq_lib::lemma_seq_contains_after_push;

/// The mathematical value of a board: the manifest, the grid, both counter
/// rows and the dirty flag.
pub ghost struct BoardView {
    pub ships_to_find: Seq<(ExpectedShip, usize)>,
    pub squares: Seq<Seq<Square>>,
    pub remaining_row: Seq<usize>,
    pub remaining_col: Seq<usize>,
    pub dirty: bool,
    pub layout: Layout,
}

/// How many squares of `s` are ship squares.
pub open spec fn count_ships(s: Seq<Square>) -> int
    decreases s.len(),
{
    if s.len() == 0 {
        0
    } else {
        count_ships(s.drop_last()) + if s.last().spec_is_ship() {
            1int
        } else {
            0int
        }
    }
}

/// Column `c` of a grid, read top to bottom.
pub open spec fn col_seq(squares: Seq<Seq<Square>>, c: int) -> Seq<Square> {
    Seq::new(squares.len(), |r: int| squares[r][c])
}

/// The manifest total for ships of the given size; zero when the size is not
/// listed.
pub open spec fn manifest_total(s: Seq<(ExpectedShip, usize)>, size: usize) -> int
    decreases s.len(),
{
    if s.len() == 0 {
        0
    } else if s[0].0.size == size {
        s[0].1 as int
    } else {
        manifest_total(s.drop_first(), size)
    }
}

/// The manifest lists sizes one through nine, strictly descending, each with
/// a single-digit count.
pub open spec fn manifest_wf(s: Seq<(ExpectedShip, usize)>) -> bool {
    &&& forall|i: int|
        0 <= i < s.len() ==> 1 <= (#[trigger] s[i]).0.size <= 9 && s[i].1 <= 9
    &&& forall|i: int, j: int| 0 <= i < j < s.len() ==> s[i].0.size > s[j].0.size
}

/// A cell may be overwritten only by narrowing: anything refines `Unknown`,
/// any ship square refines `Any`, the two oriented middles refine
/// `AnyMiddle`, and every value refines itself.
pub open spec fn square_narrows(a: Square, b: Square) -> bool {
    ||| a == b
    ||| a == Square::Unknown
    ||| (a == Square::ShipSquare(ShipSquare::Any) && b.spec_is_ship())
    ||| (a == Square::ShipSquare(ShipSquare::AnyMiddle) && b.spec_is_ship_middle())
}

impl BoardView {
    /// The grid is rectangular and nonempty, the counter rows match it, every
    /// counter is a single digit, and the manifest is well formed.
    pub open spec fn wf(self) -> bool {
        &&& self.layout.wf()
        &&& self.squares.len() == self.layout.num_rows
        &&& forall|r: int|
            0 <= r < self.squares.len() ==> (#[trigger] self.squares[r]).len()
                == self.layout.num_cols
        &&& self.remaining_row.len() == self.layout.num_rows
        &&& self.remaining_col.len() == self.layout.num_cols
        &&& forall|r: int| 0 <= r < self.remaining_row.len() ==> #[trigger] self.remaining_row[r] <= 9
        &&& forall|c: int| 0 <= c < self.remaining_col.len() ==> #[trigger] self.remaining_col[c] <= 9
        &&& manifest_wf(self.ships_to_find)
    }

    /// The cell at a coordinate.
    pub open spec fn cell(self, c: Coord) -> Square {
        self.squares[c.row_num as int][c.col_num as int]
    }

    /// The remaining ship-square count of a row or column.
    pub open spec fn remaining(self, rc: RowOrCol) -> usize {
        match rc.axis {
            Axis::Row => self.remaining_row[rc.index as int],
            Axis::Col => self.remaining_col[rc.index as int],
        }
    }

    /// The sum that `set` keeps constant for row `r`: the remaining counter
    /// plus the ship squares already on the row.
    pub open spec fn row_total(self, r: int) -> int {
        self.remaining_row[r] + count_ships(self.squares[r])
    }

    /// The counterpart of `row_total` for column `c`.
    pub open spec fn col_total(self, c: int) -> int {
        self.remaining_col[c] + count_ships(col_seq(self.squares, c))
    }

    /// No cell is `Unknown`.
    pub open spec fn solved(self) -> bool {
        forall|r: int, c: int|
            0 <= r < self.squares.len() && 0 <= c < self.squares[r].len() ==> self.squares[r][c]
                != Square::Unknown
    }

    /// The ship stands complete on the grid: every one of its squares already
    /// holds exactly the shape expected at its index.
    pub open spec fn ship_found(self, ship: Ship) -> bool {
        &&& ship.spec_in_bounds(self.layout)
        &&& forall|i: int|
            0 <= i < ship.size ==> self.cell(#[trigger] spec_nth_coord(ship, i))
                == Square::ShipSquare(spec_expected_square(ship, i))
    }

    /// How many complete ships of the given size stand on the grid.
    pub open spec fn count_found(self, size: usize) -> int {
        possible_heads_seq(self.layout, ExpectedShip { size }).filter(
            |h: ShipHead| self.ship_found(Ship { head: h, size }),
        ).len() as int
    }

    /// The manifest sizes with ships still to be found: those whose count
    /// after subtracting the complete ships already on the grid is positive.
    pub open spec fn spec_remaining_expected(self) -> Seq<ExpectedShip> {
        self.ships_to_find.filter(
            |p: (ExpectedShip, usize)| self.spec_num_remaining(p.0.size) > 0,
        ).map_values(|p: (ExpectedShip, usize)| p.0)
    }

    /// How many ships of the given size are still to be found: the manifest
    /// total less the complete ones, never below zero.
    pub open spec fn spec_num_remaining(self, size: usize) -> int {
        let d = manifest_total(self.ships_to_find, size) - self.count_found(size);
        if d >= 0 {
            d
        } else {
            0
        }
    }
}

/// The board-state order that every mutation respects: the frame and
/// manifest are fixed; every cell only narrows (monotonicity); and for every
/// row and column the remaining counter plus the ship squares present is
/// constant (counter consistency).
pub open spec fn board_narrows(pre: BoardView, post: BoardView) -> bool {
    &&& post.layout == pre.layout
    &&& post.ships_to_find == pre.ships_to_find
    &&& post.squares.len() == pre.squares.len()
    &&& forall|r: int|
        0 <= r < pre.squares.len() ==> (#[trigger] post.squares[r]).len() == pre.squares[r].len()
    &&& forall|r: int, c: int|
        0 <= r < pre.squares.len() && 0 <= c < pre.squares[r].len() ==> square_narrows(
            pre.squares[r][c],
            post.squares[r][c],
        )
    &&& post.remaining_row.len() == pre.remaining_row.len()
    &&& post.remaining_col.len() == pre.remaining_col.len()
    &&& forall|r: int| 0 <= r < pre.squares.len() ==> post.row_total(r) == pre.row_total(r)
    &&& forall|c: int|
        0 <= c < pre.remaining_col.len() ==> post.col_total(c) == pre.col_total(c)
}

/// `board_narrows`, and in addition the change flag tracks the changes: it is
/// never cleared, it is raised whenever a cell changes, and nothing at all
/// changes when no cell does. Every rule guarantees this between one clearing
/// of the flag and the next.
pub open spec fn evolves(pre: BoardView, post: BoardView) -> bool {
    &&& board_narrows(pre, post)
    &&& (pre.dirty ==> post.dirty)
    &&& (post.squares == pre.squares ==> post == pre)
    &&& (post.squares != pre.squares ==> post.dirty)
}

/// `evolves` is reflexive.
pub proof fn lemma_evolves_refl(v: BoardView)
    ensures
        evolves(v, v),
{
}

/// `board_narrows` is transitive: it composes across whole passes of the
/// pipeline, clearing of the change flag included.
pub proof fn lemma_board_narrows_trans(a: BoardView, b: BoardView, c: BoardView)
    requires
        board_narrows(a, b),
        board_narrows(b, c),
    ensures
        board_narrows(a, c),
{
}

/// Narrowing twice and ending where one started means the middle state was
/// the start as well.
proof fn lemma_narrows_antisym(a: Square, b: Square, c: Square)
    requires
        square_narrows(a, b),
        square_narrows(b, c),
        a == c,
    ensures
        b == a,
{
}

/// `evolves` is transitive: the relation every rule guarantees composes
/// across the whole pipeline.
pub proof fn lemma_evolves_trans(a: BoardView, b: BoardView, c: BoardView)
    requires
        evolves(a, b),
        evolves(b, c),
    ensures
        evolves(a, c),
{
    if c.squares == a.squares {
        assert forall|r: int, co: int|
            0 <= r < a.squares.len() && 0 <= co < a.squares[r].len() implies b.squares[r][co]
            == a.squares[r][co] by {
            lemma_narrows_antisym(a.squares[r][co], b.squares[r][co], c.squares[r][co]);
        }
        assert forall|r: int| 0 <= r < a.squares.len() implies b.squares[r] == a.squares[r] by {
            assert(b.squares[r] =~= a.squares[r]);
        }
        assert(b.squares =~= a.squares);
    }
}

/// Narrowing forward and arriving back where one started means the state in
/// between was the start as well.
pub proof fn lemma_evolves_sandwich(a: BoardView, b: BoardView, c: BoardView)
    requires
        evolves(a, b),
        evolves(b, c),
        c == a,
    ensures
        b == a,
{
    assert forall|r: int, co: int|
        0 <= r < a.squares.len() && 0 <= co < a.squares[r].len() implies b.squares[r][co]
        == a.squares[r][co] by {
        lemma_narrows_antisym(a.squares[r][co], b.squares[r][co], c.squares[r][co]);
    }
    assert forall|r: int| 0 <= r < a.squares.len() implies b.squares[r] == a.squares[r] by {
        assert(b.squares[r] =~= a.squares[r]);
    }
    assert(b.squares =~= a.squares);
}

/// A state that `evolves` from a clean state and is still clean is that very
/// state: a pass that reports no change has changed nothing at all.
pub proof fn lemma_clean_pass_is_identity(pre: BoardView, post: BoardView)
    requires
        evolves(pre, post),
        !pre.dirty,
        !post.dirty,
    ensures
        post == pre,
{
}

/// Updating one square changes `count_ships` by the difference the two
/// squares make.
proof fn lemma_count_ships_update(s: Seq<Square>, i: int, x: Square)
    requires
        0 <= i < s.len(),
    ensures
        count_ships(s.update(i, x)) == count_ships(s) + (if x.spec_is_ship() {
            1int
        } else {
            0int
        }) - (if s[i].spec_is_ship() {
            1int
        } else {
            0int
        }),
    decreases s.len(),
{
    if i == s.len() - 1 {
        assert(s.update(i, x).drop_last() =~= s.drop_last());
    } else {
        assert(s.update(i, x).drop_last() =~= s.drop_last().update(i, x));
        lemma_count_ships_update(s.drop_last(), i, x);
    }
}

/// The board.
pub struct Board {
    ships_to_find: Vec<(ExpectedShip, usize)>,
    squares: Vec<Vec<Square>>,
    ship_squares_remaining_for_col: Vec<usize>,
    ship_squares_remaining_for_row: Vec<usize>,
    dirty: bool,
    pub layout: Layout,
}

impl View for Board {
    type V = BoardView;

    closed spec fn view(&self) -> BoardView {
        BoardView {
            ships_to_find: self.ships_to_find@,
            squares: self.squares@.map_values(|row: Vec<Square>| row@),
            remaining_row: self.ship_squares_remaining_for_row@,
            remaining_col: self.ship_squares_remaining_for_col@,
            dirty: self.dirty,
            layout: self.layout,
        }
    }
}

impl Board {
    /// The board's representation is well formed.
    pub open spec fn wf(&self) -> bool {
        self@.wf()
    }

    /// Assemble a board from already-validated parts. The manifest pairs are
    /// (size, total count), strictly descending by size.
    pub fn new_from_data(
        squares: Vec<Vec<Square>>,
        ship_squares_remaining_for_row: Vec<usize>,
        ship_squares_remaining_for_col: Vec<usize>,
        ships_to_find: Vec<(usize, usize)>,
    ) -> (r: Board)
        requires
            squares@.len() >= 1,
            squares@[0].len() >= 1,
            forall|r: int|
                0 <= r < squares@.len() ==> (#[trigger] squares@[r])@.len() == squares@[0]@.len(),
            ship_squares_remaining_for_row@.len() == squares@.len(),
            ship_squares_remaining_for_col@.len() == squares@[0]@.len(),
            forall|r: int|
                0 <= r < ship_squares_remaining_for_row@.len()
                    ==> #[trigger] ship_squares_remaining_for_row@[r] <= 9,
            forall|c: int|
                0 <= c < ship_squares_remaining_for_col@.len()
                    ==> #[trigger] ship_squares_remaining_for_col@[c] <= 9,
            forall|i: int|
                0 <= i < ships_to_find@.len() ==> 1 <= (#[trigger] ships_to_find@[i]).0 <= 9
                    && ships_to_find@[i].1 <= 9,
            forall|i: int, j: int|
                0 <= i < j < ships_to_find@.len() ==> ships_to_find@[i].0 > ships_to_find@[j].0,
            squares@.len() * squares@[0]@.len() <= usize::MAX,
            squares@.len() + squares@[0]@.len() <= usize::MAX,
        ensures
            r.wf(),
            r@.squares == squares@.map_values(|row: Vec<Square>| row@),
            r@.remaining_row == ship_squares_remaining_for_row@,
            r@.remaining_col == ship_squares_remaining_for_col@,
            r@.ships_to_find == ships_to_find@.map_values(
                |p: (usize, usize)| (ExpectedShip { size: p.0 }, p.1),
            ),
            !r@.dirty,
            r@.layout == (Layout { num_rows: squares@.len() as usize, num_cols: squares@[0]@.len() as usize }),
    {
        let layout = Layout { num_rows: squares.len(), num_cols: squares[0].len() };
        let mut to_find: Vec<(ExpectedShip, usize)> = Vec::new();
        let mut i: usize = 0;
        while i < ships_to_find.len()
            invariant
                i <= ships_to_find@.len(),
                to_find@ == ships_to_find@.subrange(0, i as int).map_values(
                    |p: (usize, usize)| (ExpectedShip { size: p.0 }, p.1),
                ),
            decreases ships_to_find@.len() - i,
        {
            let p = ships_to_find[i];
            to_find.push((ExpectedShip { size: p.0 }, p.1));
            proof {
                assert(ships_to_find@.subrange(0, i + 1 as int) =~= ships_to_find@.subrange(
                    0,
                    i as int,
                ).push(p));
                assert(ships_to_find@.subrange(0, i + 1 as int).map_values(
                    |p: (usize, usize)| (ExpectedShip { size: p.0 }, p.1),
                ) =~= ships_to_find@.subrange(0, i as int).map_values(
                    |p: (usize, usize)| (ExpectedShip { size: p.0 }, p.1),
                ).push((ExpectedShip { size: p.0 }, p.1)));
            }
            i += 1;
        }
        proof {
            assert(ships_to_find@.subrange(0, ships_to_find@.len() as int) =~= ships_to_find@);
        }
        let board = Board {
            squares,
            ship_squares_remaining_for_col,
            ship_squares_remaining_for_row,
            layout,
            dirty: false,
            ships_to_find: to_find,
        };
        board
    }

    /// Parse a board from its text lines. The lines are joined by newlines
    /// and a terminating period line is supplied, as the text format asks.
    /// On success the text from the end of the manifest on is exactly what
    /// the board renders back.
    pub fn new(text_lines: &Vec<&str>) -> (r: Result<Board, Error>)
        ensures
            match r {
                Ok(b) => {
                    &&& b.wf()
                    &&& !b@.dirty
                    &&& exists|m: int|
                        #[trigger] grid_text_matches(input_text_of(text_lines@), m, b@) && ((m
                            == 0) <==> b@.ships_to_find.len() == 0) && manifest_text_matches(
                            input_text_of(text_lines@),
                            m,
                            b@,
                        )
                },
                Err(_) => true,
            },
    {
        let ghost lines = text_lines@.map_values(|l: &str| l@);
        let mut text: Vec<char> = Vec::new();
        let mut i: usize = 0;
        while i < text_lines.len()
            invariant
                lines == text_lines@.map_values(|l: &str| l@),
                i <= text_lines@.len(),
                text@ == join_lines(lines.subrange(0, i as int)),
            decreases text_lines@.len() - i,
        {
            if i > 0 {
                text.push('\n');
            }
            let mut lc = chars_of(text_lines[i]);
            text.append(&mut lc);
            proof {
                let prefix = lines.subrange(0, i as int);
                assert(lines.subrange(0, i + 1 as int) =~= prefix.push(lines[i as int]));
                if i == 0 {
                    assert(join_lines(prefix.push(lines[0])) == lines[0]);
                    assert(text@ =~= join_lines(lines.subrange(0, 1)));
                } else {
                    lemma_join_lines_push(prefix, lines[i as int]);
                    assert(text@ =~= join_lines(lines.subrange(0, i + 1 as int)));
                }
            }
            i += 1;
        }
        text.push('\n');
        text.push('.');
        proof {
            assert(lines.subrange(0, lines.len() as int) =~= lines);
            assert(text@ =~= input_text(lines));
        }
        let joined = string_from_chars(&text);
        let r = parse_board(joined.as_str());
        proof {
            if r is Ok {
                let b = r->Ok_0;
                let m = choose|m: int|
                    #[trigger] grid_text_matches(joined@, m, b@) && ((m == 0)
                        <==> b@.ships_to_find.len() == 0) && manifest_text_matches(joined@, m, b@);
                assert(input_text_of(text_lines@) == joined@);
                assert(grid_text_matches(input_text_of(text_lines@), m, b@));
                assert(manifest_text_matches(input_text_of(text_lines@), m, b@));
            }
        }
        r
    }

    /// The grid's dimensions.
    pub fn layout(&self) -> (r: Layout)
        ensures
            r == self@.layout,
    {
        self.layout
    }

    /// The cell at a coordinate.
    pub fn square_at(&self, index: Coord) -> (r: Square)
        requires
            self.wf(),
            index.in_bounds(self@.layout),
        ensures
            r == self@.cell(index),
    {
        self.squares[index.row_num][index.col_num]
    }

    /// The manifest line as the writer prints it.
    fn manifest_chars(&self) -> (line: Vec<char>)
        requires
            self.wf(),
            self@.ships_to_find.len() > 0,
        ensures
            line@ == manifest_line(shown_manifest(self@)),
    {
        let mut line: Vec<char> = vec!['s', 'h', 'i', 'p', 's', ':', ' '];
        proof {
            assert(line@ =~= seq!['s', 'h', 'i', 'p', 's', ':', ' ']);
            assert(shown_manifest(self@).subrange(0, 0) =~= Seq::<(usize, usize)>::empty());
            assert(line@ =~= seq!['s', 'h', 'i', 'p', 's', ':', ' '] + manifest_items_text(
                shown_manifest(self@).subrange(0, 0),
            ));
        }
        let mut k: usize = 0;
        while k < self.ships_to_find.len()
            invariant
                self.wf(),
                self@.ships_to_find.len() > 0,
                k <= self@.ships_to_find.len(),
                line@ == seq!['s', 'h', 'i', 'p', 's', ':', ' '] + manifest_items_text(
                    shown_manifest(self@).subrange(0, k as int),
                ),
            decreases self@.ships_to_find.len() - k,
        {
            let p = self.ships_to_find[k];
            if k > 0 {
                line.push(',');
                line.push(' ');
            }
            line.push(digit_to_char(p.0.size));
            line.push('s');
            line.push('q');
            line.push(' ');
            line.push('x');
            line.push(' ');
            let shown = self.num_remaining_ships_to_find(p.0);
            proof {
                lemma_num_remaining_bounds(self@, p.0.size);
            }
            line.push(digit_to_char(shown));
            proof {
                let sm = shown_manifest(self@);
                assert(sm[k as int] == (p.0.size, self@.spec_num_remaining(p.0.size) as usize));
                assert(shown == sm[k as int].1);
                assert(sm.subrange(0, k + 1 as int) =~= sm.subrange(0, k as int).push(
                    sm[k as int],
                ));
                if k == 0 {
                    assert(manifest_items_text(sm.subrange(0, 1)) == manifest_item_text(
                        sm.subrange(0, 1)[0].0,
                        sm.subrange(0, 1)[0].1,
                    ));
                    assert(line@ =~= seq!['s', 'h', 'i', 'p', 's', ':', ' ']
                        + manifest_items_text(sm.subrange(0, 1)));
                } else {
                    lemma_manifest_items_push(sm.subrange(0, k as int), sm[k as int]);
                    assert(line@ =~= seq!['s', 'h', 'i', 'p', 's', ':', ' ']
                        + manifest_items_text(sm.subrange(0, k + 1 as int)));
                }
            }
            k += 1;
        }
        line.push('.');
        proof {
            assert(shown_manifest(self@).subrange(0, shown_manifest(self@).len() as int)
                =~= shown_manifest(self@));
            assert(line@ =~= manifest_line(shown_manifest(self@)));
        }
        line
    }

    /// The header line as the writer prints it.
    fn header_chars(&self) -> (line: Vec<char>)
        requires
            self.wf(),
        ensures
            line@ == header_line(self@.remaining_col),
    {
        let mut line: Vec<char> = vec![' ', ' '];
        proof {
            assert(self@.remaining_col.subrange(0, 0).map_values(|x: usize| digit_char(x)) =~= Seq::<
                char,
            >::empty());
            assert(line@ =~= seq![' ', ' '] + self@.remaining_col.subrange(0, 0).map_values(
                |x: usize| digit_char(x),
            ));
        }
        let mut c: usize = 0;
        while c < self.ship_squares_remaining_for_col.len()
            invariant
                self.wf(),
                c <= self@.remaining_col.len(),
                line@ == seq![' ', ' '] + self@.remaining_col.subrange(0, c as int).map_values(
                    |x: usize| digit_char(x),
                ),
            decreases self@.remaining_col.len() - c,
        {
            let d = self.ship_squares_remaining_for_col[c];
            line.push(digit_to_char(d));
            proof {
                let cols = self@.remaining_col;
                assert(cols.subrange(0, c + 1 as int) =~= cols.subrange(0, c as int).push(d));
                assert(cols.subrange(0, c + 1 as int).map_values(|x: usize| digit_char(x))
                    =~= cols.subrange(0, c as int).map_values(|x: usize| digit_char(x)).push(
                    digit_char(d),
                ));
                assert(line@ =~= seq![' ', ' '] + cols.subrange(0, c + 1 as int).map_values(
                    |x: usize| digit_char(x),
                ));
            }
            c += 1;
        }
        proof {
            assert(self@.remaining_col.subrange(0, self@.remaining_col.len() as int)
                =~= self@.remaining_col);
        }
        line
    }

    /// One grid row as the writer prints it.
    fn row_chars(&self, r: usize) -> (line: Vec<char>)
        requires
            self.wf(),
            r < self@.squares.len(),
        ensures
            line@ == row_line(self@.remaining_row[r as int], self@.squares[r as int]),
    {
        let mut line: Vec<char> = Vec::new();
        line.push(digit_to_char(self.ship_squares_remaining_for_row[r]));
        line.push('|');
        proof {
            let row = self@.squares[r as int];
            assert(row.subrange(0, 0).map_values(|s: Square| crate::square::char_of(s)) =~= Seq::<
                char,
            >::empty());
            assert(line@ =~= seq![digit_char(self@.remaining_row[r as int]), '|'] + row.subrange(
                0,
                0,
            ).map_values(|s: Square| crate::square::char_of(s)));
        }
        let row_vec = &self.squares[r];
        let mut c: usize = 0;
        while c < row_vec.len()
            invariant
                self.wf(),
                r < self@.squares.len(),
                row_vec@ == self@.squares[r as int],
                c <= row_vec@.len(),
                line@ == seq![digit_char(self@.remaining_row[r as int]), '|'] + self@.squares[
                    r as int
                ].subrange(0, c as int).map_values(|s: Square| crate::square::char_of(s)),
            decreases row_vec@.len() - c,
        {
            let sq = row_vec[c];
            line.push(sq.to_char());
            proof {
                let row = self@.squares[r as int];
                assert(row.subrange(0, c + 1 as int) =~= row.subrange(0, c as int).push(sq));
                assert(row.subrange(0, c + 1 as int).map_values(
                    |s: Square| crate::square::char_of(s),
                ) =~= row.subrange(0, c as int).map_values(
                    |s: Square| crate::square::char_of(s),
                ).push(crate::square::char_of(sq)));
                assert(line@ =~= seq![digit_char(self@.remaining_row[r as int]), '|']
                    + row.subrange(0, c + 1 as int).map_values(
                    |s: Square| crate::square::char_of(s),
                ));
            }
            c += 1;
        }
        proof {
            let row = self@.squares[r as int];
            assert(row.subrange(0, row.len() as int) =~= row);
            assert(line@ =~= row_line(self@.remaining_row[r as int], row));
        }
        line
    }

    /// Render the board as the text format's lines: the manifest line when
    /// ships are listed, the header line, one line per row. Together with
    /// `parse_board`'s contract this is the text format's round trip.
    pub fn to_strings(&self) -> (r: Vec<String>)
        requires
            self.wf(),
        ensures
            r@.map_values(|s: String| s@) == board_lines(self@),
    {
        let ghost lines = board_lines(self@);
        let ghost strview = |s: String| s@;
        let mut out: Vec<String> = Vec::new();
        if self.ships_to_find.len() > 0 {
            let mline = self.manifest_chars();
            out.push(string_from_chars(&mline));
        }
        let ghost base: int = if self@.ships_to_find.len() == 0 {
            0
        } else {
            1
        };
        proof {
            assert(out@.map_values(strview) =~= lines.subrange(0, base));
        }
        let hline = self.header_chars();
        out.push(string_from_chars(&hline));
        proof {
            assert(lines[base] == header_line(self@.remaining_col));
            assert(out@.map_values(strview) =~= lines.subrange(0, base + 1));
        }
        let mut r: usize = 0;
        while r < self.squares.len()
            invariant
                self.wf(),
                lines == board_lines(self@),
                strview == (|s: String| s@),
                base == (if self@.ships_to_find.len() == 0 {
                    0int
                } else {
                    1int
                }),
                r <= self@.squares.len(),
                out@.map_values(strview) == lines.subrange(0, base + 1 + r),
            decreases self@.squares.len() - r,
        {
            let rline = self.row_chars(r);
            out.push(string_from_chars(&rline));
            proof {
                assert(lines[base + 1 + r] == row_line(
                    self@.remaining_row[r as int],
                    self@.squares[r as int],
                ));
                let mapped = out@.map_values(strview);
                assert(mapped.len() == out@.len());
                assert(lines.subrange(0, base + 1 + r).len() == base + 1 + r);
                assert(mapped.len() == base + 1 + r + 1);
                assert forall|k: int| 0 <= k < mapped.len() implies mapped[k] == lines.subrange(
                    0,
                    base + 1 + r + 1,
                )[k] by {
                    if k < base + 1 + r {
                        assert(mapped[k] == lines.subrange(0, base + 1 + r)[k]);
                    }
                }
                assert(out@.map_values(strview) =~= lines.subrange(0, base + 1 + r + 1));
            }
            r += 1;
        }
        proof {
            assert(lines.len() == base + 1 + self@.squares.len());
            assert(lines.subrange(0, lines.len() as int) =~= lines);
        }
        out
    }

    /// A cell has changed since the flag was last cleared.
    pub fn dirty(&self) -> (r: bool)
        ensures
            r == self@.dirty,
    {
        self.dirty
    }

    /// Clear the change flag; everything else stays as it is.
    pub fn clear_dirty(&mut self)
        ensures
            final(self)@ == (BoardView { dirty: false, ..old(self)@ }),
    {
        self.dirty = false;
    }

    /// Whether `set` accepts this write: a no-op always, otherwise a narrowing
    /// write whose counter decrement (when the cell first becomes a ship)
    /// still has room.
    pub open spec fn set_ok(v: BoardView, index: Coord, new_value: Square) -> bool {
        let cur = v.cell(index);
        ||| cur == new_value
        ||| (square_narrows(cur, new_value) && !(new_value.spec_is_ship() && !cur.spec_is_ship()
            && (v.remaining_row[index.row_num as int] == 0 || v.remaining_col[index.col_num as int]
                == 0)))
    }

    /// The state `set` leaves on success: unchanged for a no-op; otherwise
    /// the one cell is written, the two counters drop by one exactly when the
    /// cell first becomes a ship square, and the board is dirty.
    pub open spec fn set_result(v: BoardView, index: Coord, new_value: Square) -> BoardView {
        let r = index.row_num as int;
        let c = index.col_num as int;
        let cur = v.cell(index);
        if cur == new_value {
            v
        } else {
            let dec = new_value.spec_is_ship() && !cur.spec_is_ship();
            BoardView {
                squares: v.squares.update(r, v.squares[r].update(c, new_value)),
                remaining_row: if dec {
                    v.remaining_row.update(r, (v.remaining_row[r] - 1) as usize)
                } else {
                    v.remaining_row
                },
                remaining_col: if dec {
                    v.remaining_col.update(c, (v.remaining_col[c] - 1) as usize)
                } else {
                    v.remaining_col
                },
                dirty: true,
                ..v
            }
        }
    }

    /// The single mutation primitive. A write equal to the current value is
    /// a no-op; a narrowing write updates the cell, decrements the row and
    /// column counters exactly when the cell first becomes a ship square, and
    /// marks the board dirty; any other write is refused and leaves the board
    /// untouched.
    pub fn set(&mut self, index: Coord, new_value: Square) -> (r: Result<(), Error>)
        requires
            old(self).wf(),
            index.in_bounds(old(self)@.layout),
        ensures
            final(self).wf(),
            evolves(old(self)@, final(self)@),
            r is Ok <==> Self::set_ok(old(self)@, index, new_value),
            r is Ok ==> final(self)@ == Self::set_result(old(self)@, index, new_value),
            r is Err ==> final(self)@ == old(self)@,
            r is Err ==> r->Err_0 == (if !square_narrows(old(self)@.cell(index), new_value) {
                Error::BadTransition { at: index, current: old(self)@.cell(index), attempted: new_value }
            } else {
                Error::CounterExhausted {
                    at: index,
                    current: old(self)@.cell(index),
                    attempted: new_value,
                }
            }),
    {
        let curr_value = self.square_at(index);
        if curr_value == new_value {
            return Ok(());
        }
        let legal = if curr_value == Square::ShipSquare(ShipSquare::Any) {
            new_value.is_ship()
        } else if curr_value == Square::ShipSquare(ShipSquare::AnyMiddle) {
            new_value.is_ship_middle()
        } else {
            curr_value == Square::Unknown
        };
        if !legal {
            return Err(
                Error::BadTransition { at: index, current: curr_value, attempted: new_value },
            );
        }
        let needs_decrement = new_value.is_ship() && !curr_value.is_ship();
        if needs_decrement && (self.ship_squares_remaining_for_row[index.row_num] == 0
            || self.ship_squares_remaining_for_col[index.col_num] == 0) {
            return Err(
                Error::CounterExhausted { at: index, current: curr_value, attempted: new_value },
            );
        }
        self.squares[index.row_num][index.col_num] = new_value;
        if needs_decrement {
            let row_left = self.ship_squares_remaining_for_row[index.row_num];
            self.ship_squares_remaining_for_row[index.row_num] = row_left - 1;
            let col_left = self.ship_squares_remaining_for_col[index.col_num];
            self.ship_squares_remaining_for_col[index.col_num] = col_left - 1;
        }
        self.dirty = true;
        proof {
            let pre = old(self)@;
            let r = index.row_num as int;
            let c = index.col_num as int;
            assert(self.squares@.map_values(|row: Vec<Square>| row@) =~= pre.squares.update(
                r,
                pre.squares[r].update(c, new_value),
            ));
            assert(self@ == Self::set_result(pre, index, new_value));
            self.lemma_set_evolves(pre, index, new_value);
        }
        Ok(())
    }

    /// The bookkeeping behind `set`: a single narrowing write with its
    /// counter adjustment satisfies `evolves`.
    proof fn lemma_set_evolves(&self, pre: BoardView, index: Coord, new_value: Square)
        requires
            pre.wf(),
            index.in_bounds(pre.layout),
            pre.cell(index) != new_value,
            square_narrows(pre.cell(index), new_value),
            !(new_value.spec_is_ship() && !pre.cell(index).spec_is_ship()
                && (pre.remaining_row[index.row_num as int] == 0
                    || pre.remaining_col[index.col_num as int] == 0)),
            self@ == Self::set_result(pre, index, new_value),
        ensures
            self@.wf(),
            evolves(pre, self@),
    {
        let r = index.row_num as int;
        let c = index.col_num as int;
        let post = self@;
        let new_row = pre.squares[r].update(c, new_value);
        lemma_count_ships_update(pre.squares[r], c, new_value);
        assert forall|rr: int| 0 <= rr < pre.squares.len() implies post.row_total(rr)
            == pre.row_total(rr) by {
            if rr != r {
                assert(post.squares[rr] == pre.squares[rr]);
            }
        }
        assert forall|cc: int| 0 <= cc < pre.remaining_col.len() implies post.col_total(cc)
            == pre.col_total(cc) by {
            if cc == c {
                assert(col_seq(post.squares, cc) =~= col_seq(pre.squares, cc).update(
                    r,
                    new_value,
                ));
                lemma_count_ships_update(col_seq(pre.squares, cc), r, new_value);
            } else {
                assert(col_seq(post.squares, cc) =~= col_seq(pre.squares, cc));
            }
        }
        assert(post.squares[r][c] == new_value);
        assert(post.squares != pre.squares) by {
            assert(post.squares[r][c] != pre.squares[r][c]);
        }
    }

    /// Replace every `Unknown` cell of the given row or column with
    /// `new_value`. With `Water` this always succeeds; a failure part way
    /// through leaves the already-written cells in place.
    pub fn replace_unknown(&mut self, row_or_col: RowOrCol, new_value: Square) -> (r: Result<
        (),
        Error,
    >)
        requires
            old(self).wf(),
            row_or_col.in_bounds(old(self)@.layout),
        ensures
            final(self).wf(),
            evolves(old(self)@, final(self)@),
            r is Ok ==> final(self)@.squares == replace_unknown_squares(
                old(self)@,
                row_or_col,
                new_value,
            ),
            new_value == Square::Water ==> r is Ok,
            forall|rr: int, cc: int|
                0 <= rr < old(self)@.squares.len() && 0 <= cc < old(self)@.squares[rr].len()
                    ==> final(self)@.squares[rr][cc] == old(self)@.squares[rr][cc] || (old(
                    self,
                )@.squares[rr][cc] == Square::Unknown && final(self)@.squares[rr][cc] == new_value),
            r matches Err(e) ==> new_value.spec_is_ship() && exists|k: int|
                0 <= k < row_or_col_coords(row_or_col, old(self)@.layout).len() && e == (
                Error::CounterExhausted {
                    at: #[trigger] row_or_col_coords(row_or_col, old(self)@.layout)[k],
                    current: Square::Unknown,
                    attempted: new_value,
                }) && final(self)@.cell(row_or_col_coords(row_or_col, old(self)@.layout)[k])
                    == Square::Unknown && (final(self)@.remaining_row[row_or_col_coords(
                    row_or_col,
                    old(self)@.layout,
                )[k].row_num as int] == 0 || final(self)@.remaining_col[row_or_col_coords(
                    row_or_col,
                    old(self)@.layout,
                )[k].col_num as int] == 0),
    {
        let coords = row_or_col.coords(&self.layout);
        let ghost pre = self@;
        let mut i: usize = 0;
        while i < coords.len()
            invariant
                pre == old(self)@,
                self.wf(),
                evolves(pre, self@),
                pre.wf(),
                row_or_col.in_bounds(pre.layout),
                self@.layout == pre.layout,
                coords@ == row_or_col_coords(row_or_col, pre.layout),
                i <= coords@.len(),
                forall|rr: int, cc: int|
                    0 <= rr < pre.squares.len() && 0 <= cc < pre.squares[rr].len()
                        ==> self@.squares[rr][cc] == expected_cell_after_prefix(
                        pre,
                        row_or_col,
                        new_value,
                        i as int,
                        rr,
                        cc,
                    ),
            decreases coords@.len() - i,
        {
            let coord = coords[i];
            proof {
                lemma_row_or_col_coord_in_bounds(row_or_col, pre.layout, i as int);
            }
            let ghost before = self@;
            if self.square_at(coord) == Square::Unknown {
                let res = self.set(coord, new_value);
                proof {
                    lemma_evolves_trans(pre, before, self@);
                }
                if let Err(e) = res {
                    assert(new_value != Square::Water);
                    proof {
                        assert(row_or_col_coords(row_or_col, pre.layout)[i as int] == coord);
                        assert(new_value.spec_is_ship());
                        assert(e == (Error::CounterExhausted {
                            at: coord,
                            current: Square::Unknown,
                            attempted: new_value,
                        }));
                        assert(self@.cell(coord) == Square::Unknown);
                        assert(self@.remaining_row[coord.row_num as int] == 0
                            || self@.remaining_col[coord.col_num as int] == 0);
                    }
                    proof {
                        assert forall|rr: int, cc: int|
                            0 <= rr < pre.squares.len() && 0 <= cc < pre.squares[rr].len() implies
                        self@.squares[rr][cc] == pre.squares[rr][cc] || (pre.squares[rr][cc]
                            == Square::Unknown && self@.squares[rr][cc] == new_value) by {
                            assert(self@.squares[rr][cc] == expected_cell_after_prefix(
                                pre,
                                row_or_col,
                                new_value,
                                i as int,
                                rr,
                                cc,
                            ));
                        }
                    }
                    return Err(e);
                }
            }
            proof {
                lemma_replace_prefix_step(pre, row_or_col, new_value, i as int, before, self@);
            }
            i += 1;
        }
        proof {
            assert(self@.squares =~~= replace_unknown_squares(pre, row_or_col, new_value));
        }
        Ok(())
    }

    /// No cell is `Unknown`. This alone does not certify the manifest counts.
    pub fn is_solved(&self) -> (r: bool)
        requires
            self.wf(),
        ensures
            r == self@.solved(),
    {
        let mut r: usize = 0;
        while r < self.squares.len()
            invariant
                self.wf(),
                r <= self@.squares.len(),
                forall|rr: int, cc: int|
                    0 <= rr < r && 0 <= cc < self@.squares[rr].len() ==> self@.squares[rr][cc]
                        != Square::Unknown,
            decreases self@.squares.len() - r,
        {
            let row = &self.squares[r];
            let mut c: usize = 0;
            while c < row.len()
                invariant
                    self.wf(),
                    r < self@.squares.len(),
                    row@ == self@.squares[r as int],
                    c <= row@.len(),
                    forall|cc: int| 0 <= cc < c ==> row@[cc] != Square::Unknown,
                decreases row@.len() - c,
            {
                if row[c] == Square::Unknown {
                    return false;
                }
                c += 1;
            }
            r += 1;
        }
        true
    }

    /// Whether a complete ship with exactly this placement stands on the
    /// grid: every square holds the shape expected at its index.
    pub fn ship_is_found(&self, ship: Ship) -> (r: bool)
        requires
            self.wf(),
            ship.size >= 1,
        ensures
            r == self@.ship_found(ship),
    {
        let coords_opt = ship.coords(&self.layout);
        match coords_opt {
            None => false,
            Some(coords) => {
                let mut idx: usize = 0;
                while idx < coords.len()
                    invariant
                        self.wf(),
                        ship.size >= 1,
                        ship.spec_in_bounds(self@.layout),
                        coords@ == spec_ship_coords(ship),
                        idx <= coords@.len(),
                        forall|k: int|
                            0 <= k < idx ==> self@.cell(#[trigger] spec_nth_coord(ship, k))
                                == Square::ShipSquare(spec_expected_square(ship, k)),
                    decreases coords@.len() - idx,
                {
                    proof {
                        ship.lemma_coords_in_bounds(self@.layout, idx as int);
                    }
                    let expected = ship.expected_square_for_idx(idx);
                    if self.square_at(coords[idx]) != Square::ShipSquare(expected) {
                        return false;
                    }
                    idx += 1;
                }
                true
            },
        }
    }

    /// How many complete ships of the given size stand on the grid.
    pub fn count_found_ships(&self, expected_ship: ExpectedShip) -> (r: usize)
        requires
            self.wf(),
            expected_ship.size >= 1,
        ensures
            r as int == self@.count_found(expected_ship.size),
    {
        let heads = self.layout.possible_heads_for_ship(expected_ship);
        let ghost pred = |h: ShipHead|
            self@.ship_found(Ship { head: h, size: expected_ship.size });
        let mut count: usize = 0;
        let mut i: usize = 0;
        while i < heads.len()
            invariant
                self.wf(),
                expected_ship.size >= 1,
                heads@ == possible_heads_seq(self@.layout, expected_ship),
                pred == (|h: ShipHead|
                    self@.ship_found(Ship { head: h, size: expected_ship.size })),
                i <= heads@.len(),
                count <= i,
                count as int == heads@.subrange(0, i as int).filter(pred).len(),
            decreases heads@.len() - i,
        {
            let head = heads[i];
            let ship = head.to_ship(expected_ship);
            proof {
                heads@.subrange(0, i as int).lemma_filter_len_push(pred, head);
                assert(heads@.subrange(0, i + 1 as int) =~= heads@.subrange(0, i as int).push(
                    head,
                ));
            }
            if self.ship_is_found(ship) {
                count += 1;
            }
            i += 1;
        }
        proof {
            assert(heads@.subrange(0, heads@.len() as int) =~= heads@);
            assert(ExpectedShip { size: expected_ship.size } == expected_ship);
        }
        count
    }

    /// The manifest sizes with ships still to be found: those whose count
    /// after subtracting the complete ships already on the grid is positive.
    pub fn remaining_expected_ships(&self) -> (r: Vec<ExpectedShip>)
        requires
            self.wf(),
        ensures
            r@ == self@.spec_remaining_expected(),
            forall|t: int| 0 <= t < r@.len() ==> 1 <= (#[trigger] r@[t]).size <= 9,
    {
        let ghost pred = |p: (ExpectedShip, usize)| self@.spec_num_remaining(p.0.size) > 0;
        let ghost fst = |p: (ExpectedShip, usize)| p.0;
        let mut r: Vec<ExpectedShip> = Vec::new();
        let mut i: usize = 0;
        while i < self.ships_to_find.len()
            invariant
                self.wf(),
                pred == (|p: (ExpectedShip, usize)| self@.spec_num_remaining(p.0.size) > 0),
                fst == (|p: (ExpectedShip, usize)| p.0),
                i <= self@.ships_to_find.len(),
                r@ == self@.ships_to_find.subrange(0, i as int).filter(pred).map_values(fst),
                forall|t: int| 0 <= t < r@.len() ==> 1 <= (#[trigger] r@[t]).size <= 9,
            decreases self@.ships_to_find.len() - i,
        {
            let p = self.ships_to_find[i];
            let remaining = self.num_remaining_ships_to_find(p.0);
            proof {
                let prefix = self@.ships_to_find.subrange(0, i as int);
                prefix.lemma_filter_push(p, pred);
                assert(self@.ships_to_find.subrange(0, i + 1 as int) =~= prefix.push(p));
                if pred(p) {
                    assert(prefix.filter(pred).push(p).map_values(fst) =~= prefix.filter(
                        pred,
                    ).map_values(fst).push(p.0));
                }
            }
            if remaining > 0 {
                r.push(p.0);
            }
            i += 1;
        }
        proof {
            assert(self@.ships_to_find.subrange(0, self@.ships_to_find.len() as int)
                =~= self@.ships_to_find);
        }
        r
    }

    /// How many ships of this size are still to be found: the manifest total
    /// less the complete ships already on the grid, never below zero.
    pub fn num_remaining_ships_to_find(&self, expected_ship: ExpectedShip) -> (r: usize)
        requires
            self.wf(),
        ensures
            r as int == self@.spec_num_remaining(expected_ship.size),
    {
        let size = expected_ship.size;
        let mut total: usize = 0;
        let mut i: usize = 0;
        let mut matched = false;
        proof {
            assert(self@.ships_to_find.skip(0) =~= self@.ships_to_find);
        }
        while i < self.ships_to_find.len()
            invariant
                i <= self@.ships_to_find.len(),
                manifest_total(self@.ships_to_find, size) == if matched {
                    total as int
                } else {
                    manifest_total(self@.ships_to_find.skip(i as int), size)
                },
                matched ==> total <= 9,
                self.wf(),
                size == expected_ship.size,
            decreases self@.ships_to_find.len() - i,
        {
            let p = self.ships_to_find[i];
            proof {
                assert(self@.ships_to_find.skip(i as int).drop_first() =~= self@.ships_to_find.skip(
                    i + 1 as int,
                ));
                assert(self@.ships_to_find.skip(i as int)[0] == p);
            }
            if !matched && p.0.size == size {
                total = p.1;
                matched = true;
            }
            i += 1;
        }
        proof {
            if !matched {
                assert(self@.ships_to_find.skip(self@.ships_to_find.len() as int) =~= Seq::<
                    (ExpectedShip, usize),
                >::empty());
            }
        }
        if !matched || total == 0 {
            return 0;
        }
        proof {
            lemma_manifest_total_size_bounds(self@.ships_to_find, size);
        }
        let found = self.count_found_ships(expected_ship);
        if found > total {
            0
        } else {
            total - found
        }
    }

    /// The remaining ship-square count of a row or column.
    pub fn ship_squares_remaining(&self, row_or_col: RowOrCol) -> (r: usize)
        requires
            self.wf(),
            row_or_col.in_bounds(self@.layout),
        ensures
            r == self@.remaining(row_or_col),
    {
        match row_or_col.axis {
            Axis::Row => self.ship_squares_remaining_for_row[row_or_col.index],
            Axis::Col => self.ship_squares_remaining_for_col[row_or_col.index],
        }
    }
}

/// What a cell holds after the first `n` coordinates of `rc` have had their
/// `Unknown` squares replaced by `val`.
pub open spec fn expected_cell_after_prefix(
    pre: BoardView,
    rc: RowOrCol,
    val: Square,
    n: int,
    r: int,
    c: int,
) -> Square {
    let coords = row_or_col_coords(rc, pre.layout);
    let on_prefix = exists|k: int|
        0 <= k < n && #[trigger] coords[k] == (Coord { row_num: r as usize, col_num: c as usize });
    if on_prefix && pre.squares[r][c] == Square::Unknown {
        val
    } else {
        pre.squares[r][c]
    }
}

/// The grid after every `Unknown` cell of `rc` is replaced by `val`.
pub open spec fn replace_unknown_squares(pre: BoardView, rc: RowOrCol, val: Square) -> Seq<
    Seq<Square>,
> {
    Seq::new(
        pre.squares.len(),
        |r: int|
            Seq::new(
                pre.squares[r].len(),
                |c: int| expected_cell_after_prefix(
                    pre,
                    rc,
                    val,
                    row_or_col_coords(rc, pre.layout).len() as int,
                    r,
                    c,
                ),
            ),
    )
}

/// One step of `replace_unknown`: once the `i`-th coordinate of the row or
/// column has been processed, the grid matches the `(i+1)`-prefix picture.
proof fn lemma_replace_prefix_step(
    pre: BoardView,
    rc: RowOrCol,
    val: Square,
    i: int,
    before: BoardView,
    after: BoardView,
)
    requires
        pre.wf(),
        rc.in_bounds(pre.layout),
        0 <= i < row_or_col_coords(rc, pre.layout).len(),
        evolves(pre, before),
        forall|rr: int, cc: int|
            0 <= rr < pre.squares.len() && 0 <= cc < pre.squares[rr].len()
                ==> before.squares[rr][cc] == expected_cell_after_prefix(pre, rc, val, i, rr, cc),
        ({
            let coord = row_or_col_coords(rc, pre.layout)[i];
            if before.cell(coord) == Square::Unknown {
                after == Board::set_result(before, coord, val)
            } else {
                after == before
            }
        }),
    ensures
        forall|rr: int, cc: int|
            0 <= rr < pre.squares.len() && 0 <= cc < pre.squares[rr].len()
                ==> after.squares[rr][cc] == expected_cell_after_prefix(
                pre,
                rc,
                val,
                i + 1,
                rr,
                cc,
            ),
{
    let coords_s = row_or_col_coords(rc, pre.layout);
    let coord = coords_s[i];
    lemma_row_or_col_coord_in_bounds(rc, pre.layout, i);
    assert forall|rr: int, cc: int|
        0 <= rr < pre.squares.len() && 0 <= cc < pre.squares[rr].len() implies after.squares[rr][cc]
        == expected_cell_after_prefix(pre, rc, val, i + 1, rr, cc) by {
        let cellc = Coord { row_num: rr as usize, col_num: cc as usize };
        if cellc == coord {
            assert(coords_s[i] == cellc);
            assert(exists|k: int| 0 <= k < i + 1 && #[trigger] coords_s[k] == cellc);
            assert(!(exists|k: int| 0 <= k < i && #[trigger] coords_s[k] == cellc)) by {
                if exists|k: int| 0 <= k < i && #[trigger] coords_s[k] == cellc {
                    let k = choose|k: int| 0 <= k < i && #[trigger] coords_s[k] == cellc;
                    match rc.axis {
                        Axis::Row => assert(coords_s[k].col_num != coords_s[i].col_num),
                        Axis::Col => assert(coords_s[k].row_num != coords_s[i].row_num),
                    }
                }
            }
            assert(expected_cell_after_prefix(pre, rc, val, i, rr, cc) == pre.squares[rr][cc]);
            assert(before.squares[rr][cc] == pre.squares[rr][cc]);
        } else {
            assert((exists|k: int| 0 <= k < i + 1 && #[trigger] coords_s[k] == cellc) == (exists|
                k: int,
            |
                0 <= k < i && #[trigger] coords_s[k] == cellc)) by {
                if exists|k: int| 0 <= k < i + 1 && #[trigger] coords_s[k] == cellc {
                    let k = choose|k: int| 0 <= k < i + 1 && #[trigger] coords_s[k] == cellc;
                    assert(k != i);
                    assert(0 <= k < i && coords_s[k] == cellc);
                }
                if exists|k: int| 0 <= k < i && #[trigger] coords_s[k] == cellc {
                    let k = choose|k: int| 0 <= k < i && #[trigger] coords_s[k] == cellc;
                    assert(0 <= k < i + 1 && coords_s[k] == cellc);
                }
            }
            assert(after.squares[rr][cc] == before.squares[rr][cc]);
        }
    }
}

/// Dropping the first manifest entry keeps the manifest well formed.
proof fn lemma_manifest_wf_drop(s: Seq<(ExpectedShip, usize)>)
    requires
        manifest_wf(s),
        s.len() > 0,
    ensures
        manifest_wf(s.drop_first()),
{
    assert(forall|i: int| 0 <= i < s.drop_first().len() ==> s.drop_first()[i] == s[i + 1]);
}

/// The manifest total of any size is a single digit.
pub proof fn lemma_manifest_total_bounds(s: Seq<(ExpectedShip, usize)>, size: usize)
    requires
        manifest_wf(s),
    ensures
        0 <= manifest_total(s, size) <= 9,
    decreases s.len(),
{
    if s.len() > 0 && s[0].0.size != size {
        lemma_manifest_wf_drop(s);
        lemma_manifest_total_bounds(s.drop_first(), size);
    }
}

/// On a well-formed board the remaining-ships count is a single digit.
pub proof fn lemma_num_remaining_bounds(v: BoardView, size: usize)
    requires
        v.wf(),
    ensures
        0 <= v.spec_num_remaining(size) <= 9,
{
    lemma_manifest_total_bounds(v.ships_to_find, size);
}

/// A size with a positive manifest total is one of the listed sizes, so it
/// lies between one and nine.
proof fn lemma_manifest_total_size_bounds(s: Seq<(ExpectedShip, usize)>, size: usize)
    requires
        manifest_wf(s),
        manifest_total(s, size) != 0,
    ensures
        1 <= size <= 9,
    decreases s.len(),
{
    if s.len() > 0 && s[0].0.size != size {
        assert(manifest_wf(s.drop_first())) by {
            assert(forall|i: int|
                0 <= i < s.drop_first().len() ==> s.drop_first()[i] == s[i + 1]);
        }
        lemma_manifest_total_size_bounds(s.drop_first(), size);
    }
}

/// Every coordinate that `coords` yields for an in-bounds selector lies on
/// the grid.
pub proof fn lemma_row_or_col_coord_in_bounds(rc: RowOrCol, layout: Layout, i: int)
    requires
        rc.in_bounds(layout),
        0 <= i < row_or_col_coords(rc, layout).len(),
    ensures
        row_or_col_coords(rc, layout)[i].in_bounds(layout),
{
}

} // verus!
