//! Board storage and geometry: cell states, positions, the eight compass
//! directions, and the 64-cell grid with its piece counts.

use vstd::prelude::*;
use vstd::string::StringExecFns;

verus! {

/// A piece color: one of the two players.
#[derive(Clone, Copy, PartialEq, Eq, Structural, Debug)]
pub enum Color {
    Black,
    White,
}

impl Color {
    /// The opposing color.
    pub open spec fn other(self) -> Color {
        if self is Black {
            Color::White
        } else {
            Color::Black
        }
    }

    /// Value comparison of two colors.
    pub fn equal(color1: &Color, color2: &Color) -> (r: bool)
        ensures
            r == (color1 == color2),
    {
        match (color1, color2) {
            (Color::Black, Color::Black) => true,
            (Color::White, Color::White) => true,
            _ => false,
        }
    }

    pub fn is_black(&self) -> (r: bool)
        ensures
            r == (self is Black),
    {
        match self {
            Color::Black => true,
            Color::White => false,
        }
    }

    pub fn is_white(&self) -> (r: bool)
        ensures
            r == (self is White),
    {
        match self {
            Color::Black => false,
            Color::White => true,
        }
    }

    /// The opposing color, as an executable query.
    pub fn opposite(self) -> (r: Color)
        ensures
            r == self.other(),
    {
        match self {
            Color::Black => Color::White,
            Color::White => Color::Black,
        }
    }
}

/// One grid square's state: empty, marked as a legal move for the side to
/// move, or occupied by a piece.
#[derive(Clone, Copy, PartialEq, Eq, Structural, Debug)]
pub enum Cell {
    Empty,
    Available,
    Piece(Color),
}

impl Cell {
    pub fn is_empty(&self) -> (r: bool)
        ensures
            r == (self is Empty),
    {
        match self {
            Cell::Empty => true,
            _ => false,
        }
    }

    pub fn is_available(&self) -> (r: bool)
        ensures
            r == (self is Available),
    {
        match self {
            Cell::Available => true,
            _ => false,
        }
    }

    pub fn is_piece(&self) -> (r: bool)
        ensures
            r == (self is Piece),
    {
        match self {
            Cell::Piece(_) => true,
            _ => false,
        }
    }
}

/// True when (x, y) lies on the 8x8 board.
pub open spec fn in_bounds(x: int, y: int) -> bool {
    0 <= x < 8 && 0 <= y < 8
}

/// The index of position (x, y) in the row-major cell table.
pub open spec fn cidx(x: int, y: int) -> int {
    y * 8 + x
}

/// x-component of compass direction d, in the fixed clockwise order
/// starting at east: E, SE, S, SW, W, NW, N, NE.
pub open spec fn dir_dx(d: int) -> int {
    if d == 0 {
        1
    } else if d == 1 {
        1
    } else if d == 2 {
        0
    } else if d == 3 {
        -1
    } else if d == 4 {
        -1
    } else if d == 5 {
        -1
    } else if d == 6 {
        0
    } else {
        1
    }
}

/// y-component of compass direction d (same order as dir_dx).
pub open spec fn dir_dy(d: int) -> int {
    if d == 0 {
        0
    } else if d == 1 {
        1
    } else if d == 2 {
        1
    } else if d == 3 {
        1
    } else if d == 4 {
        0
    } else if d == 5 {
        -1
    } else if d == 6 {
        -1
    } else {
        -1
    }
}

/// A nonzero offset vector with components in {-1, 0, 1}: the shape shared
/// by all eight compass directions.
pub open spec fn is_unit_dir(dx: int, dy: int) -> bool {
    (dx != 0 || dy != 0) && -1 <= dx <= 1 && -1 <= dy <= 1
}

/// An integer pair, used both for board positions (usize components in
/// [0, 7]) and for signed direction vectors (i32 components).
#[derive(Clone, Copy, Debug)]
pub struct Pos<T> {
    pub x: T,
    pub y: T,
}

impl Pos<usize> {
    /// Step once by a signed direction vector. Yields the new position, or
    /// None when the step would leave the board. This is the sole bounds
    /// check used for directional scans.
    pub fn add(self, other: Pos<i32>) -> (r: Option<Pos<usize>>)
        requires
            self.x < 8,
            self.y < 8,
            -1 <= other.x <= 1,
            -1 <= other.y <= 1,
        ensures
            match r {
                Some(p) => in_bounds(self.x as int + other.x as int, self.y as int + other.y as int)
                    && p.x as int == self.x as int + other.x as int
                    && p.y as int == self.y as int + other.y as int,
                None => !in_bounds(
                    self.x as int + other.x as int,
                    self.y as int + other.y as int,
                ),
            },
    {
        let x = self.x as i32 + other.x;
        let y = self.y as i32 + other.y;
        if x < 0 || x > 7 || y < 0 || y > 7 {
            return None;
        }
        Some(Pos { x: x as usize, y: y as usize })
    }
}

/// A move request: a target position and the color to place.
#[derive(Clone, Copy, Debug)]
pub struct Move {
    pub x: usize,
    pub y: usize,
    pub color: Color,
}

impl Move {
    /// Build a move from signed coordinates, rejecting positions off the
    /// 8x8 board.
    pub fn new(x: i32, y: i32, color: Color) -> (r: Result<Move, String>)
        ensures
            match r {
                Ok(m) => in_bounds(x as int, y as int) && m.x as int == x as int
                    && m.y as int == y as int && m.color == color,
                Err(e) => !in_bounds(x as int, y as int) && e@ == "Invalid Pos"@,
            },
    {
        if x < 0 || x > 7 || y < 0 || y > 7 {
            return Err(String::from_str("Invalid Pos"));
        }
        Ok(Move { x: x as usize, y: y as usize, color })
    }
}

/// How many cells of g hold a piece of color c.
pub open spec fn count_color(g: Seq<Cell>, c: Color) -> nat
    decreases g.len(),
{
    if g.len() == 0 {
        0
    } else {
        count_color(g.drop_last(), c) + (if g.last() == Cell::Piece(c) {
            1nat
        } else {
            0nat
        })
    }
}

/// How many cells of g hold a piece of either color.
pub open spec fn num_pieces(g: Seq<Cell>) -> nat
    decreases g.len(),
{
    if g.len() == 0 {
        0
    } else {
        num_pieces(g.drop_last()) + (if g.last() is Piece {
            1nat
        } else {
            0nat
        })
    }
}

/// The per-color piece counts sum to the number of occupied cells.
pub proof fn lemma_counts_sum_to_pieces(g: Seq<Cell>)
    ensures
        count_color(g, Color::Black) + count_color(g, Color::White) == num_pieces(g),
    decreases g.len(),
{
    if g.len() > 0 {
        lemma_counts_sum_to_pieces(g.drop_last());
    }
}

/// Counting is pointwise: two boards whose cells agree on holding a piece
/// hold equally many pieces.
pub proof fn lemma_num_pieces_pointwise(g1: Seq<Cell>, g2: Seq<Cell>)
    requires
        g1.len() == g2.len(),
        forall|i: int| 0 <= i < g1.len() ==> ((#[trigger] g1[i]) is Piece <==> (#[trigger] g2[i]) is Piece),
    ensures
        num_pieces(g1) == num_pieces(g2),
    decreases g1.len(),
{
    if g1.len() > 0 {
        assert(g1.last() == g1[g1.len() - 1]);
        assert(g2.last() == g2[g2.len() - 1]);
        lemma_num_pieces_pointwise(g1.drop_last(), g2.drop_last());
    }
}

/// A color's count is pointwise: boards that agree on which cells hold a
/// piece of color c have the same count for c.
pub proof fn lemma_count_color_pointwise(g1: Seq<Cell>, g2: Seq<Cell>, c: Color)
    requires
        g1.len() == g2.len(),
        forall|i: int| 0 <= i < g1.len() ==> ((#[trigger] g1[i]) == Cell::Piece(c) <==> (#[trigger] g2[i])
            == Cell::Piece(c)),
    ensures
        count_color(g1, c) == count_color(g2, c),
    decreases g1.len(),
{
    if g1.len() > 0 {
        assert(g1.last() == g1[g1.len() - 1]);
        assert(g2.last() == g2[g2.len() - 1]);
        lemma_count_color_pointwise(g1.drop_last(), g2.drop_last(), c);
    }
}

/// Writing one cell changes the piece count by the difference at that cell.
pub proof fn lemma_num_pieces_update(g: Seq<Cell>, i: int, c: Cell)
    requires
        0 <= i < g.len(),
    ensures
        num_pieces(g.update(i, c)) + (if g[i] is Piece {
            1nat
        } else {
            0nat
        }) == num_pieces(g) + (if c is Piece {
            1nat
        } else {
            0nat
        }),
    decreases g.len(),
{
    let h = g.update(i, c);
    if i == g.len() - 1 {
        assert(h.drop_last() =~= g.drop_last());
        assert(h.last() == c);
    } else {
        assert(h.drop_last() =~= g.drop_last().update(i, c));
        assert(h.last() == g.last());
        lemma_num_pieces_update(g.drop_last(), i, c);
    }
}

/// The 8x8 board: a fixed table of 64 cells, indexed row-major by y*8+x.
pub struct Board {
    cells: Vec<Cell>,
}

impl View for Board {
    type V = Seq<Cell>;

    closed spec fn view(&self) -> Seq<Cell> {
        self.cells@
    }
}

impl Board {
    /// Well-formed boards hold exactly 64 cells.
    pub open spec fn wf(self) -> bool {
        self@.len() == 64
    }

    /// A board with all 64 cells empty.
    pub fn new() -> (r: Board)
        ensures
            r.wf(),
            forall|i: int| 0 <= i < 64 ==> r@[i] == Cell::Empty,
    {
        let mut cells: Vec<Cell> = Vec::new();
        let mut i: usize = 0;
        while i < 64
            invariant
                i <= 64,
                cells@.len() == i,
                forall|j: int| 0 <= j < i ==> cells@[j] == Cell::Empty,
            decreases 64 - i,
        {
            cells.push(Cell::Empty);
            i += 1;
        }
        Board { cells }
    }

    /// The d-th compass direction, in the fixed clockwise order starting
    /// at east.
    pub fn direction(d: usize) -> (r: Pos<i32>)
        requires
            d < 8,
        ensures
            r.x as int == dir_dx(d as int),
            r.y as int == dir_dy(d as int),
    {
        match d {
            0 => Pos { x: 1, y: 0 },
            1 => Pos { x: 1, y: 1 },
            2 => Pos { x: 0, y: 1 },
            3 => Pos { x: -1, y: 1 },
            4 => Pos { x: -1, y: 0 },
            5 => Pos { x: -1, y: -1 },
            6 => Pos { x: 0, y: -1 },
            _ => Pos { x: 1, y: -1 },
        }
    }

    /// All 64 positions in row-major order (y outer, x inner): the
    /// iteration domain for legality scans.
    pub fn all_pos() -> (r: Vec<Pos<usize>>)
        ensures
            r@.len() == 64,
            forall|i: int| 0 <= i < 64 ==> (#[trigger] r@[i]).x as int == i % 8 && r@[i].y as int
                == i / 8,
    {
        let mut v: Vec<Pos<usize>> = Vec::new();
        let mut i: usize = 0;
        while i < 64
            invariant
                i <= 64,
                v@.len() == i,
                forall|j: int| 0 <= j < i ==> (#[trigger] v@[j]).x as int == j % 8 && v@[j].y as int
                    == j / 8,
            decreases 64 - i,
        {
            v.push(Pos { x: i % 8, y: i / 8 });
            i += 1;
        }
        v
    }

    /// Read one cell. The position must already be validated to lie on
    /// the board.
    pub fn get_cell(&self, p: Pos<usize>) -> (r: Cell)
        requires
            self.wf(),
            p.x < 8,
            p.y < 8,
        ensures
            r == self@[cidx(p.x as int, p.y as int)],
    {
        self.cells[p.y * 8 + p.x]
    }

    /// Write one cell. The position must already be validated to lie on
    /// the board.
    pub fn set_cell(&mut self, p: Pos<usize>, cell: Cell)
        requires
            old(self).wf(),
            p.x < 8,
            p.y < 8,
        ensures
            final(self).wf(),
            final(self)@ == old(self)@.update(cidx(p.x as int, p.y as int), cell),
    {
        self.cells[p.y * 8 + p.x] = cell;
    }

    /// The (black, white) piece tally, by one scan over all cells.
    pub fn count_piece(&self) -> (r: (usize, usize))
        requires
            self.wf(),
        ensures
            r.0 == count_color(self@, Color::Black),
            r.1 == count_color(self@, Color::White),
    {
        let mut black: usize = 0;
        let mut white: usize = 0;
        let mut i: usize = 0;
        while i < 64
            invariant
                self.wf(),
                i <= 64,
                black == count_color(self@.take(i as int), Color::Black),
                white == count_color(self@.take(i as int), Color::White),
                black <= i,
                white <= i,
            decreases 64 - i,
        {
            let c = self.cells[i];
            proof {
                assert(self@.take(i + 1).drop_last() =~= self@.take(i as int));
                assert(self@.take(i + 1).last() == self@[i as int]);
            }
            match c {
                Cell::Piece(Color::Black) => {
                    black += 1;
                },
                Cell::Piece(Color::White) => {
                    white += 1;
                },
                _ => {},
            }
            i += 1;
        }
        proof {
            assert(self@.take(64) =~= self@);
        }
        (black, white)
    }
}

} // verus!
