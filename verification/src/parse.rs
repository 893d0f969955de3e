//! The text format: rendering specifications shared by the reader and the
//! writer, and the verified parser. On success every grid parser states that
//! the text it consumed is exactly the rendering of what it returned, which
//! is the round-trip property of the format.

use vstd::prelude::*;

use crate::board::Board;
use crate::error::Error;
use crate::square::{char_of, square_of_char, Square};

verus! {

/// The decimal digit character for `d` (only meaningful for `d <= 9`).
pub open spec fn digit_char(d: usize) -> char {
    if d == 0 {
        '0'
    } else if d == 1 {
        '1'
    } else if d == 2 {
        '2'
    } else if d == 3 {
        '3'
    } else if d == 4 {
        '4'
    } else if d == 5 {
        '5'
    } else if d == 6 {
        '6'
    } else if d == 7 {
        '7'
    } else if d == 8 {
        '8'
    } else {
        '9'
    }
}

/// The value of a decimal digit character, or `None` for any other character.
pub open spec fn char_digit(c: char) -> Option<usize> {
    if c == '0' {
        Some(0usize)
    } else if c == '1' {
        Some(1usize)
    } else if c == '2' {
        Some(2usize)
    } else if c == '3' {
        Some(3usize)
    } else if c == '4' {
        Some(4usize)
    } else if c == '5' {
        Some(5usize)
    } else if c == '6' {
        Some(6usize)
    } else if c == '7' {
        Some(7usize)
    } else if c == '8' {
        Some(8usize)
    } else if c == '9' {
        Some(9usize)
    } else {
        None
    }
}

/// Reading a digit and writing it back yields the same character.
pub proof fn lemma_digit_round_trip(c: char)
    requires
        char_digit(c) is Some,
    ensures
        digit_char(char_digit(c)->Some_0) == c,
{
}

/// The digit's value, exactly as `char_digit` gives it.
pub fn digit_of(c: char) -> (r: Option<usize>)
    ensures
        r == char_digit(c),
{
    if c == '0' {
        Some(0)
    } else if c == '1' {
        Some(1)
    } else if c == '2' {
        Some(2)
    } else if c == '3' {
        Some(3)
    } else if c == '4' {
        Some(4)
    } else if c == '5' {
        Some(5)
    } else if c == '6' {
        Some(6)
    } else if c == '7' {
        Some(7)
    } else if c == '8' {
        Some(8)
    } else if c == '9' {
        Some(9)
    } else {
        None
    }
}

/// The digit character for `d`.
pub fn digit_to_char(d: usize) -> (c: char)
    requires
        d <= 9,
    ensures
        c == digit_char(d),
{
    if d == 0 {
        '0'
    } else if d == 1 {
        '1'
    } else if d == 2 {
        '2'
    } else if d == 3 {
        '3'
    } else if d == 4 {
        '4'
    } else if d == 5 {
        '5'
    } else if d == 6 {
        '6'
    } else if d == 7 {
        '7'
    } else if d == 8 {
        '8'
    } else {
        '9'
    }
}

/// The header line: two blanks, then one digit per column.
pub open spec fn header_line(cols: Seq<usize>) -> Seq<char> {
    seq![' ', ' '] + cols.map_values(|x: usize| digit_char(x))
}

/// One grid row: the row's digit, the separator bar, one character per cell.
pub open spec fn row_line(count: usize, row: Seq<Square>) -> Seq<char> {
    seq![digit_char(count), '|'] + row.map_values(|s: Square| char_of(s))
}

/// The grid rows one after another, each ending in a newline.
pub open spec fn rows_text(counts: Seq<usize>, grid: Seq<Seq<Square>>) -> Seq<char>
    decreases counts.len(),
{
    if counts.len() == 0 {
        Seq::empty()
    } else {
        row_line(counts[0], grid[0]) + seq!['\n'] + rows_text(counts.drop_first(), grid.drop_first())
    }
}

/// Appending one more row to the text appends its line.
pub proof fn lemma_rows_text_push(counts: Seq<usize>, grid: Seq<Seq<Square>>, c: usize, g: Seq<
    Square,
>)
    requires
        counts.len() == grid.len(),
    ensures
        rows_text(counts.push(c), grid.push(g)) == rows_text(counts, grid) + row_line(c, g)
            + seq!['\n'],
    decreases counts.len(),
{
    if counts.len() == 0 {
        assert(counts.push(c)[0] == c);
        assert(grid.push(g)[0] == g);
        assert(counts.push(c).drop_first() =~= counts);
        assert(grid.push(g).drop_first() =~= grid);
        assert(rows_text(counts.push(c), grid.push(g)) =~= rows_text(counts, grid) + row_line(c, g)
            + seq!['\n']);
    } else {
        assert(counts.push(c).drop_first() =~= counts.drop_first().push(c));
        assert(grid.push(g).drop_first() =~= grid.drop_first().push(g));
        lemma_rows_text_push(counts.drop_first(), grid.drop_first(), c, g);
        assert(rows_text(counts.push(c), grid.push(g)) =~= rows_text(counts, grid) + row_line(c, g)
            + seq!['\n']);
    }
}

/// One manifest entry, as the writer prints it: `5sq x 1`.
pub open spec fn manifest_item_text(size: usize, shown: usize) -> Seq<char> {
    seq![digit_char(size), 's', 'q', ' ', 'x', ' ', digit_char(shown)]
}

/// The manifest entries joined by a comma and a blank.
pub open spec fn manifest_items_text(items: Seq<(usize, usize)>) -> Seq<char>
    decreases items.len(),
{
    if items.len() == 0 {
        Seq::empty()
    } else if items.len() == 1 {
        manifest_item_text(items[0].0, items[0].1)
    } else {
        manifest_item_text(items[0].0, items[0].1) + seq![',', ' '] + manifest_items_text(
            items.drop_first(),
        )
    }
}

/// The whole manifest line: `ships: `, the entries, a final period.
pub open spec fn manifest_line(items: Seq<(usize, usize)>) -> Seq<char> {
    seq!['s', 'h', 'i', 'p', 's', ':', ' '] + manifest_items_text(items) + seq!['.']
}

/// Appending to a joined-items text appends a separator and the new entry.
pub proof fn lemma_manifest_items_push(items: Seq<(usize, usize)>, it: (usize, usize))
    requires
        items.len() >= 1,
    ensures
        manifest_items_text(items.push(it)) == manifest_items_text(items) + seq![',', ' ']
            + manifest_item_text(it.0, it.1),
    decreases items.len(),
{
    if items.len() == 1 {
        assert(items.push(it).drop_first() =~= Seq::<(usize, usize)>::empty().push(it));
        assert(manifest_items_text(Seq::<(usize, usize)>::empty().push(it))
            == manifest_item_text(it.0, it.1));
        assert(manifest_items_text(items.push(it)) =~= manifest_items_text(items) + seq![',', ' ']
            + manifest_item_text(it.0, it.1));
    } else {
        assert(items.push(it).drop_first() =~= items.drop_first().push(it));
        lemma_manifest_items_push(items.drop_first(), it);
        assert(manifest_items_text(items.push(it)) =~= manifest_items_text(items) + seq![',', ' ']
            + manifest_item_text(it.0, it.1));
    }
}

/// Input lines joined by newlines.
pub open spec fn join_lines(lines: Seq<Seq<char>>) -> Seq<char>
    decreases lines.len(),
{
    if lines.len() == 0 {
        Seq::empty()
    } else if lines.len() == 1 {
        lines[0]
    } else {
        lines[0] + seq!['\n'] + join_lines(lines.drop_first())
    }
}

/// What `Board::new` hands the parser: the lines joined by newlines, a final
/// newline and the terminating period.
pub open spec fn input_text(lines: Seq<Seq<char>>) -> Seq<char> {
    join_lines(lines) + seq!['\n', '.']
}

/// The parser input that a vector of text lines stands for.
pub open spec fn input_text_of(lines: Seq<&str>) -> Seq<char> {
    input_text(lines.map_values(|l: &str| l@))
}

/// Joining one more line appends a newline and that line.
pub proof fn lemma_join_lines_push(lines: Seq<Seq<char>>, l: Seq<char>)
    requires
        lines.len() >= 1,
    ensures
        join_lines(lines.push(l)) == join_lines(lines) + seq!['\n'] + l,
    decreases lines.len(),
{
    if lines.len() == 1 {
        assert(lines.push(l).drop_first() =~= Seq::<Seq<char>>::empty().push(l));
        assert(join_lines(Seq::<Seq<char>>::empty().push(l)) == l);
        assert(join_lines(lines.push(l)) =~= join_lines(lines) + seq!['\n'] + l);
    } else {
        assert(lines.push(l).drop_first() =~= lines.drop_first().push(l));
        lemma_join_lines_push(lines.drop_first(), l);
        assert(join_lines(lines.push(l)) =~= join_lines(lines) + seq!['\n'] + l);
    }
}

/// The manifest entries as the writer shows them: each size with the count
/// still to be found.
pub open spec fn shown_manifest(v: crate::board::BoardView) -> Seq<(usize, usize)> {
    v.ships_to_find.map_values(
        |p: (crate::ship::ExpectedShip, usize)| (p.0.size, v.spec_num_remaining(p.0.size) as usize),
    )
}

/// The lines the writer produces for a board: the manifest line when the
/// manifest is nonempty, the header line, one line per row.
pub open spec fn board_lines(v: crate::board::BoardView) -> Seq<Seq<char>> {
    let grid = seq![header_line(v.remaining_col)] + Seq::new(
        v.squares.len(),
        |r: int| row_line(v.remaining_row[r], v.squares[r]),
    );
    if v.ships_to_find.len() == 0 {
        grid
    } else {
        seq![manifest_line(shown_manifest(v))] + grid
    }
}

/// The board's manifest is exactly the last-wins reading of the entry list
/// `items`, and each entry's size and count digits appear, in order, inside
/// the first `m` characters of the text.
pub open spec fn manifest_entries_match(
    s: Seq<char>,
    m: int,
    v: crate::board::BoardView,
    items: Seq<ShipToFind>,
) -> bool {
    &&& items.len() >= 1
    &&& forall|sz: usize|
        #[trigger] crate::board::manifest_total(v.ships_to_find, sz) == (match items_lookup(
            items,
            sz,
        ) {
            Some(ct) => ct as int,
            None => 0,
        })
    &&& forall|i: int| 0 <= i < items.len() ==> #[trigger] entry_digits_in(s, m, items[i])
}

/// When a manifest section is present (`m > 0`), the board's manifest is
/// exactly the last-wins reading of a list of entries whose size and count
/// digits appear, in order, inside that section of the text.
pub open spec fn manifest_text_matches(s: Seq<char>, m: int, v: crate::board::BoardView) -> bool {
    m > 0 ==> exists|items: Seq<ShipToFind>| #[trigger] manifest_entries_match(s, m, v, items)
}

/// The text after position `m` is exactly the rendered grid of `v`: the
/// header line, every row line, and the terminating period. With the
/// manifest's own line this is the round trip between the reader and the
/// writer.
pub open spec fn grid_text_matches(s: Seq<char>, m: int, v: crate::board::BoardView) -> bool {
    &&& 0 <= m <= s.len()
    &&& s.subrange(m, s.len() as int) == header_line(v.remaining_col) + seq!['\n'] + rows_text(
        v.remaining_row,
        v.squares,
    ) + seq!['.']
}

/// Joining a first line with a sequence of row lines, newline-separated and
/// with one more newline at the end, spells the first line, a newline, and
/// the rows text.
proof fn lemma_join_rows(counts: Seq<usize>, grid: Seq<Seq<Square>>, first: Seq<char>)
    requires
        counts.len() == grid.len(),
    ensures
        join_lines(
            seq![first] + Seq::new(counts.len(), |r: int| row_line(counts[r], grid[r])),
        ) + seq!['\n'] == first + seq!['\n'] + rows_text(counts, grid),
    decreases counts.len(),
{
    let rowlines = Seq::new(counts.len(), |r: int| row_line(counts[r], grid[r]));
    let lines = seq![first] + rowlines;
    if counts.len() == 0 {
        assert(lines =~= seq![first]);
        assert(join_lines(lines) == first);
        assert(join_lines(lines) + seq!['\n'] =~= first + seq!['\n'] + rows_text(counts, grid));
    } else {
        let c0 = counts[0];
        let g0 = grid[0];
        let tail = Seq::new(
            counts.drop_first().len(),
            |r: int| row_line(counts.drop_first()[r], grid.drop_first()[r]),
        );
        assert(lines[0] == first);
        assert(lines.drop_first() =~= rowlines);
        assert(rowlines =~= seq![row_line(c0, g0)] + tail);
        lemma_join_rows(counts.drop_first(), grid.drop_first(), row_line(c0, g0));
        assert(join_lines(lines) == first + seq!['\n'] + join_lines(rowlines));
        assert(join_lines(lines) + seq!['\n'] =~= first + seq!['\n'] + (join_lines(rowlines)
            + seq!['\n']));
        assert(first + seq!['\n'] + (row_line(c0, g0) + seq!['\n'] + rows_text(
            counts.drop_first(),
            grid.drop_first(),
        )) =~= first + seq!['\n'] + rows_text(counts, grid));
    }
}

/// The text format's round trip: a text whose grid section parses to the
/// board value `v` — as `parse_board` guarantees of every text it accepts —
/// and whose manifest section is the canonical manifest line of `v` is
/// exactly the text that rendering `v` with `to_strings` produces again.
pub proof fn lemma_text_round_trip(v: crate::board::BoardView, s: Seq<char>, m: int)
    requires
        v.wf(),
        grid_text_matches(s, m, v),
        (m == 0) <==> v.ships_to_find.len() == 0,
        v.ships_to_find.len() > 0 ==> s.subrange(0, m) == manifest_line(shown_manifest(v))
            + seq!['\n'],
    ensures
        s == input_text(board_lines(v)),
{
    let header = header_line(v.remaining_col);
    let rowlines = Seq::new(
        v.remaining_row.len(),
        |r: int| row_line(v.remaining_row[r], v.squares[r]),
    );
    let grid_lines = seq![header] + rowlines;
    lemma_join_rows(v.remaining_row, v.squares, header);
    let grid_text = s.subrange(m, s.len() as int);
    if v.ships_to_find.len() == 0 {
        assert(board_lines(v) =~= grid_lines);
        assert(input_text(board_lines(v)) =~= (join_lines(grid_lines) + seq!['\n']) + seq!['.']);
        assert(s =~= s.subrange(0, m) + grid_text);
        assert(s =~= input_text(board_lines(v)));
    } else {
        let mline = manifest_line(shown_manifest(v));
        assert(board_lines(v) =~= seq![mline] + grid_lines);
        let lines = seq![mline] + grid_lines;
        assert(lines[0] == mline);
        assert(lines.drop_first() =~= grid_lines);
        assert(join_lines(lines) == mline + seq!['\n'] + join_lines(grid_lines));
        assert(input_text(board_lines(v)) =~= mline + seq!['\n'] + (join_lines(grid_lines)
            + seq!['\n']) + seq!['.']);
        assert(s =~= s.subrange(0, m) + grid_text);
        assert(s =~= input_text(board_lines(v)));
    }
}

/// One parsed grid row: its remaining count and its squares.
pub struct Row {
    pub ships_remaining: usize,
    pub squares: Vec<Square>,
}

/// One parsed manifest entry: `size` squares, `count` ships of that size.
pub struct ShipToFind {
    pub size: usize,
    pub count: usize,
}

/// Parse the one-digit remaining count at `pos`.
pub fn ships_remaining(chars: &Vec<char>, pos: usize) -> (r: Result<(usize, usize), Error>)
    requires
        pos <= chars@.len(),
    ensures
        match r {
            Ok((end, d)) => end == pos + 1 && end <= chars@.len() && d <= 9 && chars@[pos as int]
                == digit_char(d),
            Err(e) => e == Error::MalformedBoard,
        },
        (pos < chars@.len() && char_digit(chars@[pos as int]) is Some) ==> r is Ok,
{
    if pos >= chars.len() {
        return Err(Error::MalformedBoard);
    }
    let c = chars[pos];
    match digit_of(c) {
        Some(d) => {
            proof {
                lemma_digit_round_trip(c);
            }
            Ok((pos + 1, d))
        },
        None => Err(Error::MalformedBoard),
    }
}

/// Parse the one cell character at `pos`.
pub fn square(chars: &Vec<char>, pos: usize) -> (r: Result<(usize, Square), Error>)
    requires
        pos <= chars@.len(),
    ensures
        match r {
            Ok((end, sq)) => end == pos + 1 && end <= chars@.len() && chars@[pos as int] == char_of(
                sq,
            ),
            Err(e) => e == Error::MalformedBoard,
        },
        (pos < chars@.len() && square_of_char(chars@[pos as int]) is Some) ==> r is Ok,
{
    if pos >= chars.len() {
        return Err(Error::MalformedBoard);
    }
    let c = chars[pos];
    match Square::from_char(c) {
        Some(sq) => {
            proof {
                crate::square::lemma_char_square_round_trip(c);
            }
            Ok((pos + 1, sq))
        },
        None => Err(Error::MalformedBoard),
    }
}

/// Parse a run of one or more cell characters starting at `pos`; it ends at
/// the first character that is not a cell character.
pub fn squares(chars: &Vec<char>, pos: usize) -> (r: Result<(usize, Vec<Square>), Error>)
    requires
        pos <= chars@.len(),
    ensures
        match r {
            Ok((end, v)) => {
                &&& pos < end <= chars@.len()
                &&& v@.len() == end - pos
                &&& chars@.subrange(pos as int, end as int) == v@.map_values(
                    |s: Square| char_of(s),
                )
                &&& (end == chars@.len() || square_of_char(chars@[end as int]) is None)
            },
            Err(e) => e == Error::MalformedBoard,
        },
        (pos < chars@.len() && square_of_char(chars@[pos as int]) is Some) ==> r is Ok,
{
    let mut v: Vec<Square> = Vec::new();
    let mut p = pos;
    while p < chars.len() && Square::from_char(chars[p]).is_some()
        invariant
            pos <= p <= chars@.len(),
            v@.len() == p - pos,
            chars@.subrange(pos as int, p as int) == v@.map_values(|s: Square| char_of(s)),
        decreases chars@.len() - p,
    {
        let c = chars[p];
        let sq = Square::from_char(c).unwrap();
        proof {
            crate::square::lemma_char_square_round_trip(c);
            assert(chars@.subrange(pos as int, p + 1 as int) =~= chars@.subrange(
                pos as int,
                p as int,
            ).push(c));
            assert(v@.push(sq).map_values(|s: Square| char_of(s)) =~= v@.map_values(
                |s: Square| char_of(s),
            ).push(char_of(sq)));
        }
        v.push(sq);
        p += 1;
    }
    if p == pos {
        return Err(Error::MalformedBoard);
    }
    Ok((p, v))
}

/// Parse one grid row at `pos`: digit, bar, squares, newline.
pub fn row(chars: &Vec<char>, pos: usize) -> (r: Result<(usize, Row), Error>)
    requires
        pos <= chars@.len(),
    ensures
        match r {
            Ok((end, rw)) => {
                &&& pos < end <= chars@.len()
                &&& rw.ships_remaining <= 9
                &&& rw.squares@.len() >= 1
                &&& chars@.subrange(pos as int, end as int) == row_line(
                    rw.ships_remaining,
                    rw.squares@,
                ) + seq!['\n']
            },
            Err(e) => e == Error::MalformedBoard,
        },
{
    let (p1, count) = ships_remaining(chars, pos)?;
    if p1 >= chars.len() || chars[p1] != '|' {
        return Err(Error::MalformedBoard);
    }
    let p2 = p1 + 1;
    let (p3, sqs) = squares(chars, p2)?;
    if p3 >= chars.len() || chars[p3] != '\n' {
        return Err(Error::MalformedBoard);
    }
    let end = p3 + 1;
    proof {
        assert(chars@.subrange(pos as int, end as int) =~= row_line(count, sqs@) + seq!['\n']);
    }
    Ok((end, Row { ships_remaining: count, squares: sqs }))
}

/// Parse the header line at `pos`: two blanks, the column digits, a newline.
pub fn header(chars: &Vec<char>, pos: usize) -> (r: Result<(usize, Vec<usize>), Error>)
    requires
        pos <= chars@.len(),
    ensures
        match r {
            Ok((end, counts)) => {
                &&& pos < end <= chars@.len()
                &&& counts@.len() >= 1
                &&& forall|i: int| 0 <= i < counts@.len() ==> #[trigger] counts@[i] <= 9
                &&& chars@.subrange(pos as int, end as int) == header_line(counts@) + seq!['\n']
            },
            Err(e) => e == Error::MalformedBoard,
        },
{
    if chars.len() - pos < 2 || chars[pos] != ' ' || chars[pos + 1] != ' ' {
        return Err(Error::MalformedBoard);
    }
    let mut counts: Vec<usize> = Vec::new();
    let mut p = pos + 2;
    while p < chars.len()
        invariant
            pos + 2 <= p <= chars@.len(),
            counts@.len() == p - pos - 2,
            forall|i: int| 0 <= i < counts@.len() ==> #[trigger] counts@[i] <= 9,
            chars@.subrange(pos + 2 as int, p as int) == counts@.map_values(
                |x: usize| digit_char(x),
            ),
        decreases chars@.len() - p,
    {
        let c = chars[p];
        match digit_of(c) {
            Some(d) => {
                proof {
                    lemma_digit_round_trip(c);
                    assert(chars@.subrange(pos + 2 as int, p + 1 as int) =~= chars@.subrange(
                        pos + 2 as int,
                        p as int,
                    ).push(c));
                    assert(counts@.push(d).map_values(|x: usize| digit_char(x)) =~= counts@
                        .map_values(|x: usize| digit_char(x)).push(digit_char(d)));
                }
                counts.push(d);
                p += 1;
            },
            None => {
                break;
            },
        }
    }
    if counts.len() == 0 {
        return Err(Error::MalformedBoard);
    }
    if p >= chars.len() || chars[p] != '\n' {
        return Err(Error::MalformedBoard);
    }
    let end = p + 1;
    proof {
        assert(chars@.subrange(pos as int, end as int) =~= header_line(counts@) + seq!['\n']);
    }
    Ok((end, counts))
}

/// Whitespace as the manifest grammar accepts it between tokens.
fn is_ws(c: char) -> (r: bool)
{
    c == ' ' || c == '\t' || c == '\r' || c == '\n'
}

/// The first position at or after `pos` that holds no whitespace.
fn skip_ws(chars: &Vec<char>, pos: usize) -> (r: usize)
    requires
        pos <= chars@.len(),
    ensures
        pos <= r <= chars@.len(),
{
    let mut p = pos;
    while p < chars.len() && (chars[p] == ' ' || chars[p] == '\t' || chars[p] == '\r' || chars[p]
        == '\n')
        invariant
            pos <= p <= chars@.len(),
        decreases chars@.len() - p,
    {
        p += 1;
    }
    p
}

/// The entry's size digit and, later, its count digit both appear among the
/// first `m` characters of the text.
pub open spec fn entry_digits_in(s: Seq<char>, m: int, item: ShipToFind) -> bool {
    exists|pp: int, qq: int|
        0 <= pp < qq < m && s[pp] == digit_char(item.size) && s[qq] == digit_char(item.count)
}

/// Digits that appear among the first `m1` characters appear among the first
/// `m2` as well, for `m1 <= m2`.
proof fn lemma_entry_digits_widen(s: Seq<char>, m1: int, m2: int, item: ShipToFind)
    requires
        m1 <= m2,
        entry_digits_in(s, m1, item),
    ensures
        entry_digits_in(s, m2, item),
{
    let (pp, qq) = choose|pp: int, qq: int|
        0 <= pp < qq < m1 && s[pp] == digit_char(item.size) && s[qq] == digit_char(item.count);
    assert(0 <= pp < qq < m2 && s[pp] == digit_char(item.size) && s[qq] == digit_char(item.count));
}

/// Parse one manifest entry at `pos`: a nonzero size digit, `sq`, `x`, and a
/// count digit, with any whitespace between the tokens.
pub fn ship_to_find(chars: &Vec<char>, pos: usize) -> (r: Result<(usize, ShipToFind), Error>)
    requires
        pos <= chars@.len(),
    ensures
        match r {
            Ok((end, s)) => {
                &&& pos + 5 <= end <= chars@.len()
                &&& 1 <= s.size <= 9 && s.count <= 9
                &&& chars@[pos as int] == digit_char(s.size)
                &&& chars@[end - 1] == digit_char(s.count)
            },
            Err(e) => e == Error::MalformedBoard,
        },
{
    let (p1, size) = ships_remaining(chars, pos)?;
    if size == 0 {
        return Err(Error::MalformedBoard);
    }
    let p2 = skip_ws(chars, p1);
    if chars.len() - p2 < 2 || chars[p2] != 's' || chars[p2 + 1] != 'q' {
        return Err(Error::MalformedBoard);
    }
    let p3 = skip_ws(chars, p2 + 2);
    if p3 >= chars.len() || chars[p3] != 'x' {
        return Err(Error::MalformedBoard);
    }
    let p4 = skip_ws(chars, p3 + 1);
    let (p5, count) = ships_remaining(chars, p4)?;
    Ok((p5, ShipToFind { size, count }))
}

/// Parse the manifest at `pos`: `ships:`, a comma-separated nonempty list of
/// entries, and a terminating period followed by a newline.
pub fn ships_to_find(chars: &Vec<char>, pos: usize) -> (r: Result<(usize, Vec<ShipToFind>), Error>)
    requires
        pos <= chars@.len(),
    ensures
        match r {
            Ok((end, items)) => {
                &&& pos < end <= chars@.len()
                &&& items@.len() >= 1
                &&& forall|i: int|
                    0 <= i < items@.len() ==> 1 <= (#[trigger] items@[i]).size <= 9
                        && items@[i].count <= 9
                &&& forall|i: int|
                    0 <= i < items@.len() ==> #[trigger] entry_digits_in(
                        chars@,
                        end as int,
                        items@[i],
                    )
            },
            Err(e) => e == Error::MalformedBoard,
        },
{
    if chars.len() - pos < 6 || chars[pos] != 's' || chars[pos + 1] != 'h' || chars[pos + 2] != 'i'
        || chars[pos + 3] != 'p' || chars[pos + 4] != 's' || chars[pos + 5] != ':' {
        return Err(Error::MalformedBoard);
    }
    let mut items: Vec<ShipToFind> = Vec::new();
    let start = skip_ws(chars, pos + 6);
    let (mut p, first) = ship_to_find(chars, start)?;
    proof {
        assert(start < start + 1 < p as int && chars@[start as int] == digit_char(first.size)
            && chars@[p - 1] == digit_char(first.count));
        assert(entry_digits_in(chars@, p as int, first)) by {
            assert(0 <= start < p - 1 < p as int && chars@[start as int] == digit_char(first.size)
                && chars@[p - 1] == digit_char(first.count));
        }
    }
    items.push(first);
    loop
        invariant
            pos < p <= chars@.len(),
            items@.len() >= 1,
            forall|i: int|
                0 <= i < items@.len() ==> 1 <= (#[trigger] items@[i]).size <= 9 && items@[i].count
                    <= 9,
            forall|i: int|
                0 <= i < items@.len() ==> #[trigger] entry_digits_in(chars@, p as int, items@[i]),
        decreases chars@.len() - p,
    {
        let q = skip_ws(chars, p);
        if q < chars.len() && chars[q] == ',' {
            let p2 = skip_ws(chars, q + 1);
            let (p3, item) = ship_to_find(chars, p2)?;
            proof {
                assert(entry_digits_in(chars@, p3 as int, item)) by {
                    assert(0 <= p2 < p3 - 1 < p3 as int && chars@[p2 as int] == digit_char(
                        item.size,
                    ) && chars@[p3 - 1] == digit_char(item.count));
                }
                assert forall|i: int| 0 <= i < items@.len() implies #[trigger] entry_digits_in(
                    chars@,
                    p3 as int,
                    items@[i],
                ) by {
                    lemma_entry_digits_widen(chars@, p as int, p3 as int, items@[i]);
                }
            }
            items.push(item);
            p = p3;
        } else {
            if chars.len() - q < 2 || chars[q] != '.' || chars[q + 1] != '\n' {
                return Err(Error::MalformedBoard);
            }
            proof {
                assert forall|i: int| 0 <= i < items@.len() implies #[trigger] entry_digits_in(
                    chars@,
                    q + 2 as int,
                    items@[i],
                ) by {
                    lemma_entry_digits_widen(chars@, p as int, q + 2 as int, items@[i]);
                }
            }
            return Ok((q + 2, items));
        }
    }
}

/// Parse the grid rows at `pos`: one or more row lines.
pub fn rows(chars: &Vec<char>, pos: usize) -> (r: Result<(usize, Vec<Row>), Error>)
    requires
        pos <= chars@.len(),
    ensures
        match r {
            Ok((end, rws)) => {
                &&& pos < end <= chars@.len()
                &&& rws@.len() >= 1
                &&& forall|i: int|
                    0 <= i < rws@.len() ==> (#[trigger] rws@[i]).ships_remaining <= 9
                        && rws@[i].squares@.len() >= 1
                &&& chars@.subrange(pos as int, end as int) == rows_text(
                    rws@.map_values(|rw: Row| rw.ships_remaining),
                    rws@.map_values(|rw: Row| rw.squares@),
                )
            },
            Err(e) => e == Error::MalformedBoard,
        },
{
    let (p1, first) = row(chars, pos)?;
    let mut rws: Vec<Row> = Vec::new();
    proof {
        let counts1 = Seq::<usize>::empty().push(first.ships_remaining);
        let grid1 = Seq::<Seq<Square>>::empty().push(first.squares@);
        assert(counts1.drop_first() =~= Seq::<usize>::empty());
        assert(grid1.drop_first() =~= Seq::<Seq<Square>>::empty());
        assert(rows_text(counts1.drop_first(), grid1.drop_first()) == Seq::<char>::empty());
        assert(rows_text(counts1, grid1) =~= row_line(first.ships_remaining, first.squares@)
            + seq!['\n']);
        assert(rws@.push(first).map_values(|rw: Row| rw.ships_remaining) =~= counts1);
        assert(rws@.push(first).map_values(|rw: Row| rw.squares@) =~= grid1);
    }
    rws.push(first);
    let mut p = p1;
    while p < chars.len() && digit_of(chars[p]).is_some()
        invariant
            pos < p <= chars@.len(),
            rws@.len() >= 1,
            forall|i: int|
                0 <= i < rws@.len() ==> (#[trigger] rws@[i]).ships_remaining <= 9
                    && rws@[i].squares@.len() >= 1,
            chars@.subrange(pos as int, p as int) == rows_text(
                rws@.map_values(|rw: Row| rw.ships_remaining),
                rws@.map_values(|rw: Row| rw.squares@),
            ),
        decreases chars@.len() - p,
    {
        let (p2, rw) = row(chars, p)?;
        proof {
            let counts = rws@.map_values(|rw: Row| rw.ships_remaining);
            let grid = rws@.map_values(|rw: Row| rw.squares@);
            lemma_rows_text_push(counts, grid, rw.ships_remaining, rw.squares@);
            assert(rws@.push(rw).map_values(|rw: Row| rw.ships_remaining) =~= counts.push(
                rw.ships_remaining,
            ));
            assert(rws@.push(rw).map_values(|rw: Row| rw.squares@) =~= grid.push(rw.squares@));
            assert(chars@.subrange(pos as int, p2 as int) =~= chars@.subrange(pos as int, p as int)
                + chars@.subrange(p as int, p2 as int));
        }
        rws.push(rw);
        p = p2;
    }
    Ok((p, rws))
}

/// The pairs are (size, count), strictly descending by size, all digits, the
/// sizes nonzero.
pub open spec fn pairs_wf(s: Seq<(usize, usize)>) -> bool {
    &&& forall|i: int| 0 <= i < s.len() ==> 1 <= (#[trigger] s[i]).0 <= 9 && s[i].1 <= 9
    &&& forall|i: int, j: int| 0 <= i < j < s.len() ==> s[i].0 > s[j].0
}

/// The count bound to `size` in a pair list, reading front to back.
pub open spec fn pairs_lookup(s: Seq<(usize, usize)>, size: usize) -> Option<usize>
    decreases s.len(),
{
    if s.len() == 0 {
        None
    } else if s[0].0 == size {
        Some(s[0].1)
    } else {
        pairs_lookup(s.drop_first(), size)
    }
}

/// Some pair of the list binds `size`.
pub open spec fn pairs_has(s: Seq<(usize, usize)>, size: usize) -> bool {
    exists|i: int| 0 <= i < s.len() && (#[trigger] s[i]).0 == size
}

/// Looking a size up in a concatenation reads the first part when it binds
/// the size, the second part otherwise.
proof fn lemma_pairs_lookup_concat(a: Seq<(usize, usize)>, b: Seq<(usize, usize)>, size: usize)
    ensures
        pairs_lookup(a + b, size) == if pairs_has(a, size) {
            pairs_lookup(a, size)
        } else {
            pairs_lookup(b, size)
        },
    decreases a.len(),
{
    if a.len() == 0 {
        assert(a + b =~= b);
    } else {
        assert((a + b)[0] == a[0]);
        assert((a + b).drop_first() =~= a.drop_first() + b);
        lemma_pairs_lookup_concat(a.drop_first(), b, size);
        if a[0].0 != size {
            assert(pairs_has(a, size) == pairs_has(a.drop_first(), size)) by {
                if pairs_has(a, size) {
                    let i = choose|i: int| 0 <= i < a.len() && (#[trigger] a[i]).0 == size;
                    assert(a.drop_first()[i - 1] == a[i]);
                }
                if pairs_has(a.drop_first(), size) {
                    let i = choose|i: int|
                        0 <= i < a.drop_first().len() && (#[trigger] a.drop_first()[i]).0 == size;
                    assert(a[i + 1] == a.drop_first()[i]);
                }
            }
        }
    }
}

/// The last-wins count a list of parsed manifest entries binds to `size`.
pub open spec fn items_lookup(items: Seq<ShipToFind>, size: usize) -> Option<usize>
    decreases items.len(),
{
    if items.len() == 0 {
        None
    } else if items.last().size == size {
        Some(items.last().count)
    } else {
        items_lookup(items.drop_last(), size)
    }
}

/// The manifest total of a board built from pairs is the bound count, or
/// zero where none is bound.
proof fn lemma_manifest_total_of_pairs(pairs: Seq<(usize, usize)>, size: usize)
    ensures
        crate::board::manifest_total(
            pairs.map_values(|p: (usize, usize)| (crate::ship::ExpectedShip { size: p.0 }, p.1)),
            size,
        ) == (match pairs_lookup(pairs, size) {
            Some(ct) => ct as int,
            None => 0,
        }),
    decreases pairs.len(),
{
    let mapped = pairs.map_values(
        |p: (usize, usize)| (crate::ship::ExpectedShip { size: p.0 }, p.1),
    );
    if pairs.len() > 0 {
        assert(mapped[0] == (crate::ship::ExpectedShip { size: pairs[0].0 }, pairs[0].1));
        assert(mapped.drop_first() =~= pairs.drop_first().map_values(
            |p: (usize, usize)| (crate::ship::ExpectedShip { size: p.0 }, p.1),
        ));
        lemma_manifest_total_of_pairs(pairs.drop_first(), size);
    }
}

/// Bind `size` to `count` in a sorted pair list, keeping it sorted and the
/// sizes unique: a later binding for a size replaces an earlier one.
fn insert_ship_count(pairs: Vec<(usize, usize)>, size: usize, count: usize) -> (r: Vec<
    (usize, usize),
>)
    requires
        pairs_wf(pairs@),
        1 <= size <= 9,
        count <= 9,
    ensures
        pairs_wf(r@),
        r@.len() >= 1,
        r@.len() >= pairs@.len(),
        forall|sz: usize|
            #[trigger] pairs_lookup(r@, sz) == (if sz == size {
                Some(count)
            } else {
                pairs_lookup(pairs@, sz)
            }),
{
    let mut out: Vec<(usize, usize)> = Vec::new();
    let mut i: usize = 0;
    while i < pairs.len() && pairs[i].0 > size
        invariant
            pairs_wf(pairs@),
            i <= pairs@.len(),
            out@ == pairs@.subrange(0, i as int),
            forall|k: int| 0 <= k < i ==> (#[trigger] pairs@[k]).0 > size,
        decreases pairs@.len() - i,
    {
        let p = pairs[i];
        proof {
            assert(pairs@.subrange(0, i + 1 as int) =~= pairs@.subrange(0, i as int).push(p));
        }
        out.push(p);
        i += 1;
    }
    out.push((size, count));
    let mut j: usize = if i < pairs.len() && pairs[i].0 == size {
        i + 1
    } else {
        i
    };
    let ghost skip = j as int;
    proof {
        assert(skip == i + 1 ==> i < pairs@.len() && pairs@[i as int].0 == size);
        assert(pairs@.subrange(skip, skip) =~= Seq::<(usize, usize)>::empty());
        assert(out@ =~= pairs@.subrange(0, i as int).push((size, count)) + pairs@.subrange(
            skip,
            skip,
        ));
        assert forall|k: int| skip <= k < pairs@.len() implies (#[trigger] pairs@[k]).0 < size by {
            if k > i {
                assert(pairs@[i as int].0 > pairs@[k].0);
            }
        }
    }
    while j < pairs.len()
        invariant
            pairs_wf(pairs@),
            1 <= size <= 9,
            count <= 9,
            i <= pairs@.len(),
            i as int <= skip <= i + 1,
            skip <= j <= pairs@.len(),
            out@ == pairs@.subrange(0, i as int).push((size, count)) + pairs@.subrange(
                skip,
                j as int,
            ),
            forall|k: int| 0 <= k < i ==> (#[trigger] pairs@[k]).0 > size,
            forall|k: int| skip <= k < pairs@.len() ==> (#[trigger] pairs@[k]).0 < size,
        decreases pairs@.len() - j,
    {
        let p = pairs[j];
        proof {
            assert(pairs@.subrange(skip, j + 1 as int) =~= pairs@.subrange(skip, j as int).push(
                p,
            ));
            assert((pairs@.subrange(0, i as int).push((size, count)) + pairs@.subrange(
                skip,
                j as int,
            )).push(p) =~= pairs@.subrange(0, i as int).push((size, count)) + pairs@.subrange(
                skip,
                j + 1 as int,
            ));
        }
        out.push(p);
        j += 1;
    }
    proof {
        let pre = pairs@.subrange(0, i as int);
        let suf = pairs@.subrange(skip, pairs@.len() as int);
        assert(out@ == pre.push((size, count)) + suf);
        assert forall|a: int, b: int| 0 <= a < b < out@.len() implies out@[a].0 > out@[b].0 by {
            if b <= i {
            } else if a < i && b == i {
                assert(out@[b] == (size, count));
            } else if a == i {
                assert(out@[a] == (size, count));
            }
        }
        let x = (size, count);
        let mid = pairs@.subrange(i as int, skip);
        assert forall|sz: usize| #[trigger] pairs_lookup(out@, sz) == (if sz == size {
            Some(count)
        } else {
            pairs_lookup(pairs@, sz)
        }) by {
            assert(out@ =~= pre + (seq![x] + suf));
            lemma_pairs_lookup_concat(pre, seq![x] + suf, sz);
            assert((seq![x] + suf)[0] == x);
            assert((seq![x] + suf).drop_first() =~= suf);
            assert(pairs@ =~= pre + (mid + suf));
            lemma_pairs_lookup_concat(pre, mid + suf, sz);
            if sz == size {
                assert(!pairs_has(pre, sz)) by {
                    if pairs_has(pre, sz) {
                        let jj = choose|jj: int| 0 <= jj < pre.len() && (#[trigger] pre[jj]).0 == sz;
                        assert(pairs@[jj].0 > size);
                    }
                }
                assert(pairs_lookup(seq![x] + suf, sz) == Some(count));
            } else {
                assert(pairs_lookup(seq![x] + suf, sz) == pairs_lookup(suf, sz));
                if skip == i + 1 {
                    assert(mid =~= seq![pairs@[i as int]]);
                    assert((mid + suf)[0] == pairs@[i as int]);
                    assert((mid + suf).drop_first() =~= suf);
                    assert(pairs_lookup(mid + suf, sz) == pairs_lookup(suf, sz));
                } else {
                    assert(mid =~= Seq::<(usize, usize)>::empty());
                    assert(mid + suf =~= suf);
                }
            }
        }
    }
    out
}

/// Copy a row of squares.
fn clone_squares(v: &Vec<Square>) -> (r: Vec<Square>)
    ensures
        r@ == v@,
{
    let mut r: Vec<Square> = Vec::new();
    let mut i: usize = 0;
    while i < v.len()
        invariant
            i <= v@.len(),
            r@ == v@.subrange(0, i as int),
        decreases v@.len() - i,
    {
        r.push(v[i]);
        proof {
            assert(v@.subrange(0, i + 1 as int) =~= v@.subrange(0, i as int).push(v@[i as int]));
        }
        i += 1;
    }
    proof {
        assert(v@.subrange(0, v@.len() as int) =~= v@);
    }
    r
}

/// Assemble a board from the parsed parts, validating that the rows agree
/// with the header's column count and that the grid fits the machine.
fn make_board(
    ships_to_find_vec: Option<Vec<ShipToFind>>,
    ships_remaining_for_col: Vec<usize>,
    rws: Vec<Row>,
) -> (r: Result<Board, Error>)
    requires
        ships_remaining_for_col@.len() >= 1,
        forall|i: int|
            0 <= i < ships_remaining_for_col@.len() ==> #[trigger] ships_remaining_for_col@[i] <= 9,
        rws@.len() >= 1,
        forall|i: int|
            0 <= i < rws@.len() ==> (#[trigger] rws@[i]).ships_remaining <= 9
                && rws@[i].squares@.len() >= 1,
        match ships_to_find_vec {
            Some(items) => items@.len() >= 1 && forall|i: int|
                0 <= i < items@.len() ==> 1 <= (#[trigger] items@[i]).size <= 9 && items@[i].count
                    <= 9,
            None => true,
        },
    ensures
        match r {
            Ok(b) => {
                &&& b.wf()
                &&& !b@.dirty
                &&& b@.remaining_col == ships_remaining_for_col@
                &&& b@.remaining_row == rws@.map_values(|rw: Row| rw.ships_remaining)
                &&& b@.squares == rws@.map_values(|rw: Row| rw.squares@)
                &&& (b@.ships_to_find.len() == 0 <==> ships_to_find_vec is None)
                &&& match ships_to_find_vec {
                    Some(items) => forall|sz: usize|
                        #[trigger] crate::board::manifest_total(b@.ships_to_find, sz) == (
                        match items_lookup(items@, sz) {
                            Some(ct) => ct as int,
                            None => 0,
                        }),
                    None => true,
                }
            },
            Err(_) => true,
        },
{
    let num_cols = ships_remaining_for_col.len();
    let num_rows = rws.len();
    let mut i: usize = 0;
    while i < num_rows
        invariant
            num_rows == rws@.len(),
            i <= num_rows,
            forall|k: int| 0 <= k < i ==> (#[trigger] rws@[k]).squares@.len() == num_cols,
        decreases num_rows - i,
    {
        if rws[i].squares.len() != num_cols {
            return Err(Error::InconsistentColumns);
        }
        i += 1;
    }
    if num_rows > usize::MAX / num_cols || num_rows > usize::MAX - num_cols {
        return Err(Error::MalformedBoard);
    }
    proof {
        vstd::arithmetic::div_mod::lemma_fundamental_div_mod(
            usize::MAX as int,
            num_cols as int,
        );
        vstd::arithmetic::mul::lemma_mul_inequality(
            num_rows as int,
            (usize::MAX as int) / (num_cols as int),
            num_cols as int,
        );
    }
    let mut remaining_row: Vec<usize> = Vec::new();
    let mut grid: Vec<Vec<Square>> = Vec::new();
    let mut k: usize = 0;
    while k < num_rows
        invariant
            num_rows == rws@.len(),
            k <= num_rows,
            remaining_row@ == rws@.subrange(0, k as int).map_values(|rw: Row| rw.ships_remaining),
            grid@.map_values(|row: Vec<Square>| row@) == rws@.subrange(0, k as int).map_values(
                |rw: Row| rw.squares@,
            ),
        decreases num_rows - k,
    {
        let rw = &rws[k];
        let squares_copy = clone_squares(&rw.squares);
        proof {
            assert(rws@.subrange(0, k + 1 as int) =~= rws@.subrange(0, k as int).push(
                rws@[k as int],
            ));
            assert(rws@.subrange(0, k + 1 as int).map_values(|rw: Row| rw.ships_remaining)
                =~= rws@.subrange(0, k as int).map_values(|rw: Row| rw.ships_remaining).push(
                rws@[k as int].ships_remaining,
            ));
            assert(rws@.subrange(0, k + 1 as int).map_values(|rw: Row| rw.squares@) =~= rws@
                .subrange(0, k as int).map_values(|rw: Row| rw.squares@).push(
                rws@[k as int].squares@,
            ));
            assert(grid@.push(squares_copy).map_values(|row: Vec<Square>| row@) =~= grid@
                .map_values(|row: Vec<Square>| row@).push(squares_copy@));
        }
        remaining_row.push(rw.ships_remaining);
        grid.push(squares_copy);
        k += 1;
    }
    proof {
        assert(rws@.subrange(0, rws@.len() as int) =~= rws@);
    }
    let mut pairs: Vec<(usize, usize)> = Vec::new();
    let ghost had_manifest = ships_to_find_vec is Some;
    if let Some(items) = ships_to_find_vec {
        let mut t: usize = 0;
        proof {
            assert(items@.subrange(0, 0) =~= Seq::<ShipToFind>::empty());
        }
        while t < items.len()
            invariant
                items@.len() >= 1,
                forall|i: int|
                    0 <= i < items@.len() ==> 1 <= (#[trigger] items@[i]).size <= 9
                        && items@[i].count <= 9,
                t <= items@.len(),
                pairs_wf(pairs@),
                t >= 1 ==> pairs@.len() >= 1,
                forall|sz: usize|
                    #[trigger] pairs_lookup(pairs@, sz) == items_lookup(
                        items@.subrange(0, t as int),
                        sz,
                    ),
            decreases items@.len() - t,
        {
            let item = &items[t];
            pairs = insert_ship_count(pairs, item.size, item.count);
            proof {
                assert forall|sz: usize| #[trigger] pairs_lookup(pairs@, sz) == items_lookup(
                    items@.subrange(0, t + 1 as int),
                    sz,
                ) by {
                    assert(items@.subrange(0, t + 1 as int).drop_last() =~= items@.subrange(
                        0,
                        t as int,
                    ));
                    assert(items@.subrange(0, t + 1 as int).last() == items@[t as int]);
                }
            }
            t += 1;
        }
        proof {
            assert(items@.subrange(0, items@.len() as int) =~= items@);
        }
    }
    proof {
        assert(grid@.len() == num_rows);
        assert forall|r: int| 0 <= r < grid@.len() implies (#[trigger] grid@[r])@.len()
            == num_cols by {
            assert(grid@.map_values(|row: Vec<Square>| row@)[r] == grid@[r]@);
            assert(rws@.map_values(|rw: Row| rw.squares@)[r] == rws@[r].squares@);
        }
        assert(grid@[0]@.len() == num_cols);
    }
    let b = Board::new_from_data(grid, remaining_row, ships_remaining_for_col, pairs);
    proof {
        assert(b@.ships_to_find.len() == pairs@.len());
        if had_manifest {
            assert forall|sz: usize| #[trigger] crate::board::manifest_total(b@.ships_to_find, sz)
                == (match pairs_lookup(pairs@, sz) {
                Some(ct) => ct as int,
                None => 0,
            }) by {
                lemma_manifest_total_of_pairs(pairs@, sz);
            }
        }
    }
    Ok(b)
}

/// Parse a whole board from its text: an optional manifest, the header line,
/// the rows, and a terminating period, with nothing left over. On success the
/// text from the end of the manifest on is exactly what the board renders
/// back: the text format round-trips.
pub fn parse_board(text: &str) -> (r: Result<Board, Error>)
    ensures
        match r {
            Ok(b) => {
                &&& b.wf()
                &&& !b@.dirty
                &&& exists|m: int|
                    #[trigger] grid_text_matches(text@, m, b@) && ((m == 0) <==> b@.ships_to_find.len()
                        == 0) && manifest_text_matches(text@, m, b@)
            },
            Err(_) => true,
        },
{
    let chars = crate::chars::chars_of(text);
    let mut pos: usize = 0;
    let mut manifest: Option<Vec<ShipToFind>> = None;
    let ghost mut gitems: Seq<ShipToFind> = Seq::empty();
    if chars.len() >= 6 && chars[0] == 's' && chars[1] == 'h' && chars[2] == 'i' && chars[3] == 'p'
        && chars[4] == 's' && chars[5] == ':' {
        let (p, items) = ships_to_find(&chars, 0)?;
        proof {
            gitems = items@;
        }
        manifest = Some(items);
        pos = p;
    }
    let has_manifest = manifest.is_some();
    let (p2, cols) = header(&chars, pos)?;
    let (p3, rws) = rows(&chars, p2)?;
    if p3 >= chars.len() || chars[p3] != '.' {
        return Err(Error::MalformedBoard);
    }
    if p3 + 1 != chars.len() {
        return Err(Error::LeftoverInput);
    }
    let ghost gpos = pos as int;
    let ghost gp2 = p2 as int;
    let ghost gp3 = p3 as int;
    let b = make_board(manifest, cols, rws)?;
    proof {
        let s = text@;
        assert(s.subrange(gp3, s.len() as int) =~= seq!['.']);
        assert(s.subrange(gpos, s.len() as int) =~= s.subrange(gpos, gp2) + s.subrange(gp2, gp3)
            + s.subrange(gp3, s.len() as int));
        assert(grid_text_matches(s, gpos, b@));
        assert((gpos == 0) <==> b@.ships_to_find.len() == 0) by {
            if has_manifest {
                assert(gpos > 0);
            }
        }
        assert(manifest_text_matches(s, gpos, b@)) by {
            if gpos > 0 {
                assert(chars@ == s);
                assert(gitems.len() >= 1);
                assert(forall|sz: usize|
                    #[trigger] crate::board::manifest_total(b@.ships_to_find, sz) == (
                    match items_lookup(gitems, sz) {
                        Some(ct) => ct as int,
                        None => 0,
                    }));
                assert(forall|i: int|
                    0 <= i < gitems.len() ==> #[trigger] entry_digits_in(s, gpos, gitems[i]));
                assert(manifest_entries_match(s, gpos, b@, gitems));
            }
        }
    }
    Ok(b)
}

} // verus!
