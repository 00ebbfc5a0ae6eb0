//! Directions, beam states and the rectangular tile grid.
use vstd::prelude::*;

verus! {

/// The heading of a beam.
#[derive(Clone, Copy, PartialEq, Eq, Structural, Debug, Hash)]
pub enum Dir {
    Up,
    Down,
    Left,
    Right,
}

impl Dir {
    pub open spec fn opposite_spec(self) -> Dir {
        match self {
            Dir::Up => Dir::Down,
            Dir::Down => Dir::Up,
            Dir::Left => Dir::Right,
            Dir::Right => Dir::Left,
        }
    }

    pub open spec fn is_horizontal(self) -> bool {
        self == Dir::Left || self == Dir::Right
    }

    pub open spec fn is_vertical(self) -> bool {
        self == Dir::Up || self == Dir::Down
    }

    /// Change of the row index when moving one cell this way.
    pub open spec fn row_delta(self) -> int {
        match self {
            Dir::Up => -1,
            Dir::Down => 1,
            _ => 0,
        }
    }

    /// Change of the column index when moving one cell this way.
    pub open spec fn col_delta(self) -> int {
        match self {
            Dir::Left => -1,
            Dir::Right => 1,
            _ => 0,
        }
    }

    /// A number in `0..4` that tells the four directions apart.
    pub open spec fn index_spec(self) -> int {
        match self {
            Dir::Up => 0,
            Dir::Down => 1,
            Dir::Left => 2,
            Dir::Right => 3,
        }
    }

    #[verifier::when_used_as_spec(opposite_spec)]
    pub fn opposite(self) -> (r: Dir)
        ensures
            r == self.opposite_spec(),
    {
        match self {
            Dir::Up => Dir::Down,
            Dir::Down => Dir::Up,
            Dir::Left => Dir::Right,
            Dir::Right => Dir::Left,
        }
    }

    pub fn horizontal(self) -> (r: bool)
        ensures
            r == self.is_horizontal(),
    {
        match self {
            Dir::Left | Dir::Right => true,
            _ => false,
        }
    }

    pub fn vertical(self) -> (r: bool)
        ensures
            r == self.is_vertical(),
    {
        match self {
            Dir::Up | Dir::Down => true,
            _ => false,
        }
    }

    pub fn index(self) -> (r: usize)
        ensures
            r as int == self.index_spec(),
    {
        match self {
            Dir::Up => 0,
            Dir::Down => 1,
            Dir::Left => 2,
            Dir::Right => 3,
        }
    }
}

/// A beam state: a beam on the tile at (`row`, `col`), travelling in `dir`.
#[derive(Clone, Copy, PartialEq, Eq, Structural, Debug, Hash)]
pub struct Beam {
    pub row: usize,
    pub col: usize,
    pub dir: Dir,
}

/// Why a grid could not be built or a beam could not be traced.
#[derive(Clone, Copy, PartialEq, Eq, Structural, Debug)]
pub enum BeamError {
    /// A beam reached a cell that holds none of `.`, `|`, `-`, `/`, `\`.
    InvalidTile,
    /// The grid has no rows, or its first row is empty.
    EmptyGrid,
    /// Not every row has the length of the first one.
    RaggedRows,
    /// Four states per cell do not fit in the address space.
    TooLarge,
}

/// A non-empty rectangle of cells, small enough that every beam state has an index.
pub open spec fn grid_wf(g: Seq<Seq<char>>) -> bool {
    &&& g.len() > 0
    &&& g[0].len() > 0
    &&& forall|i: int| 0 <= i < g.len() ==> #[trigger] g[i].len() == g[0].len()
    &&& 4 * (g.len() * g[0].len()) <= usize::MAX
    &&& g.len() <= usize::MAX
    &&& g[0].len() <= usize::MAX
}

/// The error, if any, with which a grid of these rows is refused.
pub open spec fn grid_error(g: Seq<Seq<char>>) -> Option<BeamError> {
    if g.len() == 0 || g[0].len() == 0 {
        Some(BeamError::EmptyGrid)
    } else if exists|i: int| 0 <= i < g.len() && #[trigger] g[i].len() != g[0].len() {
        Some(BeamError::RaggedRows)
    } else if 4 * (g.len() * g[0].len()) > usize::MAX {
        Some(BeamError::TooLarge)
    } else {
        None
    }
}

pub open spec fn in_grid(g: Seq<Seq<char>>, r: int, c: int) -> bool {
    0 <= r < g.len() && 0 <= c < g[0].len()
}

pub open spec fn on_grid(g: Seq<Seq<char>>, b: Beam) -> bool {
    in_grid(g, b.row as int, b.col as int)
}

/// The symbol under a beam.
pub open spec fn tile_of(g: Seq<Seq<char>>, b: Beam) -> char {
    g[b.row as int][b.col as int]
}

/// The lines of a text cut at every `'\n'`; there is one more piece than there are
/// newlines.
pub open spec fn pieces(s: Seq<char>) -> Seq<Seq<char>>
    decreases s.len(),
{
    if s.len() == 0 {
        seq![Seq::empty()]
    } else {
        let p = pieces(s.drop_last());
        if s.last() == '\n' {
            p.push(Seq::empty())
        } else {
            p.update(p.len() - 1, p.last().push(s.last()))
        }
    }
}

/// A line that was ended by `'\n'` loses a `'\r'` before it.
pub open spec fn strip_cr(l: Seq<char>) -> Seq<char> {
    if l.len() > 0 && l.last() == '\r' {
        l.drop_last()
    } else {
        l
    }
}

/// The rows of a grid text: its lines, where a final newline opens no new line.
pub open spec fn text_rows(s: Seq<char>) -> Seq<Seq<char>> {
    let p = pieces(s);
    let ended = p.drop_last().map_values(|l: Seq<char>| strip_cr(l));
    if p.last().len() == 0 {
        ended
    } else {
        ended.push(p.last())
    }
}

proof fn lemma_pieces_nonempty(s: Seq<char>)
    ensures
        pieces(s).len() >= 1,
    decreases s.len(),
{
    if s.len() > 0 {
        lemma_pieces_nonempty(s.drop_last());
    }
}

pub open spec fn rows_view(rows: Seq<Vec<char>>) -> Seq<Seq<char>> {
    Seq::new(rows.len(), |i: int| rows[i]@)
}

/// An immutable rectangle of tile symbols.
pub struct Grid {
    rows: Vec<Vec<char>>,
}

impl View for Grid {
    type V = Seq<Seq<char>>;

    closed spec fn view(&self) -> Seq<Seq<char>> {
        rows_view(self.rows@)
    }
}

impl Grid {
    pub open spec fn wf(&self) -> bool {
        grid_wf(self@)
    }

    /// Builds a grid from its rows, refusing an empty, ragged or oversized one.
    pub fn from_rows(rows: Vec<Vec<char>>) -> (r: Result<Grid, BeamError>)
        ensures
            r is Ok <==> grid_error(rows_view(rows@)) is None,
            r matches Ok(g) ==> g@ == rows_view(rows@) && g.wf(),
            r matches Err(e) ==> grid_error(rows_view(rows@)) == Some(e),
    {
        let ghost v = rows_view(rows@);
        let h = rows.len();
        if h == 0 || rows[0].len() == 0 {
            return Err(BeamError::EmptyGrid);
        }
        let w = rows[0].len();
        let mut i: usize = 0;
        while i < h
            invariant
                h == rows@.len(),
                w == rows@[0]@.len(),
                w > 0,
                v == rows_view(rows@),
                i <= h,
                forall|j: int| 0 <= j < i ==> #[trigger] v[j].len() == w,
            decreases h - i,
        {
            if rows[i].len() != w {
                assert(v[i as int].len() != v[0].len());
                assert(v.len() == h && v[0].len() == w);
                return Err(BeamError::RaggedRows);
            }
            i += 1;
        }
        match h.checked_mul(w) {
            None => {
                assert(4 * (h * w) > usize::MAX);
                Err(BeamError::TooLarge)
            },
            Some(n) => match n.checked_mul(4) {
                None => Err(BeamError::TooLarge),
                Some(_) => {
                    let g = Grid { rows };
                    assert(g@ == v);
                    Ok(g)
                },
            },
        }
    }

    /// Reads a grid from text: one line per row, one character per cell.
    pub fn from_text(text: &str) -> (r: Result<Grid, BeamError>)
        ensures
            r is Ok <==> grid_error(text_rows(text@)) is None,
            r matches Ok(g) ==> g@ == text_rows(text@) && g.wf(),
            r matches Err(e) ==> grid_error(text_rows(text@)) == Some(e),
    {
        let n = text.unicode_len();
        let mut rows: Vec<Vec<char>> = Vec::new();
        let mut cur: Vec<char> = Vec::new();
        let mut i: usize = 0;
        while i < n
            invariant
                n == text@.len(),
                i <= n,
                rows_view(rows@).push(cur@) == pieces(text@.subrange(0, i as int)),
            decreases n - i,
        {
            let ghost before = text@.subrange(0, i as int);
            let ghost after = text@.subrange(0, i + 1);
            assert(after.drop_last() == before);
            let ch = text.get_char(i);
            proof {
                lemma_pieces_nonempty(before);
            }
            if ch == '\n' {
                let ghost old_rows = rows@;
                let done = cur;
                rows.push(done);
                cur = Vec::new();
                assert(rows_view(rows@) == rows_view(old_rows).push(done@));
                assert(rows_view(rows@).push(cur@) == pieces(after));
            } else {
                cur.push(ch);
                assert(rows_view(rows@).push(cur@) == pieces(after));
            }
            i += 1;
        }
        assert(text@.subrange(0, n as int) == text@);
        let ghost p = pieces(text@);
        assert(p.drop_last() =~= rows_view(rows@));
        let mut out: Vec<Vec<char>> = Vec::new();
        let mut j: usize = 0;
        while j < rows.len()
            invariant
                p == rows_view(rows@).push(cur@),
                p.drop_last() == rows_view(rows@),
                j <= rows@.len(),
                rows_view(out@) == p.drop_last().subrange(0, j as int).map_values(
                    |l: Seq<char>| strip_cr(l),
                ),
            decreases rows.len() - j,
        {
            let mut line = rows[j].clone();
            assert(line@ == p.drop_last()[j as int]);
            let len = line.len();
            if len > 0 && line[len - 1] == '\r' {
                line.pop();
                assert(line@ =~= p.drop_last()[j as int].drop_last());
            }
            assert(line@ == strip_cr(p.drop_last()[j as int]));
            let ghost before = out@;
            out.push(line);
            assert(rows_view(out@) =~= rows_view(before).push(line@));
            assert(p.drop_last().subrange(0, j + 1).map_values(|l: Seq<char>| strip_cr(l))
                =~= p.drop_last().subrange(0, j as int).map_values(|l: Seq<char>| strip_cr(l)).push(
                strip_cr(p.drop_last()[j as int]),
            ));
            assert(rows_view(out@) =~= p.drop_last().subrange(0, j + 1).map_values(
                |l: Seq<char>| strip_cr(l),
            ));
            j += 1;
        }
        assert(p.drop_last().subrange(0, j as int) == p.drop_last());
        if cur.len() > 0 {
            let ghost before = out@;
            out.push(cur);
            assert(rows_view(out@) == rows_view(before).push(p.last()));
        }
        Grid::from_rows(out)
    }

    pub fn height(&self) -> (r: usize)
        ensures
            r == self@.len(),
    {
        self.rows.len()
    }

    pub fn width(&self) -> (r: usize)
        requires
            self.wf(),
        ensures
            r == self@[0].len(),
    {
        self.rows[0].len()
    }

    /// The symbol at a cell.
    pub fn at(&self, row: usize, col: usize) -> (t: char)
        requires
            self.wf(),
            in_grid(self@, row as int, col as int),
        ensures
            t == self@[row as int][col as int],
    {
        assert(self@[row as int].len() == self@[0].len());
        self.rows[row][col]
    }

    /// The neighbouring cell in direction `d`, or `None` where that step leaves the grid.
    pub fn step(&self, row: usize, col: usize, d: Dir) -> (n: Option<(usize, usize)>)
        requires
            self.wf(),
            in_grid(self@, row as int, col as int),
        ensures
            n is Some <==> in_grid(self@, row + d.row_delta(), col + d.col_delta()),
            n matches Some((r, c)) ==> r == row + d.row_delta() && c == col + d.col_delta(),
    {
        let h = self.rows.len();
        let w = self.rows[0].len();
        match d {
            Dir::Up => if row == 0 { None } else { Some((row - 1, col)) },
            Dir::Down => if row + 1 >= h { None } else { Some((row + 1, col)) },
            Dir::Left => if col == 0 { None } else { Some((row, col - 1)) },
            Dir::Right => if col + 1 >= w { None } else { Some((row, col + 1)) },
        }
    }
}

} // verus!
