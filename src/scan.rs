//! Scanning every entry point on the grid's edge for the best illumination.
use vstd::prelude::*;
use crate::count::lemma_count_cells_mono;
use crate::grid::{grid_wf, in_grid, on_grid, tile_of, Beam, BeamError, Dir, Grid};
use crate::rules::emits;
use crate::trace::{
    beam_at, fails, illumination, illumination_count, is_exit, is_path, leaves_at, lemma_index_all,
    lemma_marked_is_lit, lemma_reach_on_grid, lemma_reach_step, lit, reachable, state_index,
    state_index_of, step_to, count_lit, traverse_track_exits,
};

verus! {

/// A state on the grid whose beam comes in over the edge: one step back leaves the grid.
pub open spec fn edge_entry(g: Seq<Seq<char>>, b: Beam) -> bool {
    on_grid(g, b) && !in_grid(g, b.row - b.dir.row_delta(), b.col - b.dir.col_delta())
}

/// The state that runs back along an exit state.
pub open spec fn reversed(e: Beam) -> Beam {
    Beam { row: e.row, col: e.col, dir: e.dir.opposite_spec() }
}

/// A state `t` is covered by the trace from `a` when it is reached from `a`, or when
/// some state reached from `a` on its cell sends the beam out against `t`.
pub open spec fn covered(g: Seq<Seq<char>>, a: Beam, t: Beam) -> bool {
    reachable(g, a, t) || exists|d: Dir|
        #[trigger] reachable(g, a, Beam { row: t.row, col: t.col, dir: d }) && emits(
            tile_of(g, t),
            d,
            t.dir.opposite_spec(),
        )
}

/// A beam that enters a tile against a direction the tile sends out leaves either as
/// the tile would have sent it, or back the way the first beam came.
proof fn lemma_emits_against(t: char, din: Dir, x: Dir, o: Dir)
    requires
        emits(t, din, x.opposite_spec()),
        emits(t, x, o),
    ensures
        emits(t, din, o) || o == din.opposite_spec(),
{
}

proof fn lemma_path_prefix(g: Seq<Seq<char>>, p: Seq<Beam>)
    requires
        is_path(g, p),
        p.len() > 1,
    ensures
        is_path(g, p.drop_last()),
{
    let q = p.drop_last();
    assert forall|i: int| 0 <= i < q.len() - 1 implies #[trigger] step_to(g, q[i], q[i + 1]) by {
        assert(step_to(g, p[i], p[i + 1]));
    }
}

/// One step from a covered state leads to a covered state.
proof fn lemma_covered_step(g: Seq<Seq<char>>, a: Beam, u: Beam, t: Beam)
    requires
        grid_wf(g),
        edge_entry(g, a),
        covered(g, a, u),
        step_to(g, u, t),
    ensures
        covered(g, a, t),
{
    if reachable(g, a, u) {
        lemma_reach_step(g, a, u, t);
    } else {
        let din = choose|d: Dir|
            #[trigger] reachable(g, a, Beam { row: u.row, col: u.col, dir: d }) && emits(
                tile_of(g, u),
                d,
                u.dir.opposite_spec(),
            );
        let f = Beam { row: u.row, col: u.col, dir: din };
        lemma_emits_against(tile_of(g, u), din, u.dir, t.dir);
        lemma_reach_on_grid(g, a, f);
        if emits(tile_of(g, u), din, t.dir) {
            assert(step_to(g, f, t));
            lemma_reach_step(g, a, f, t);
        } else {
            let p = choose|p: Seq<Beam>| #[trigger] is_path(g, p) && p[0] == a && p.last() == f;
            if p.len() == 1 {
                assert(f == a);
                assert(false);
            } else {
                let prev = p[p.len() - 2];
                assert(step_to(g, p[p.len() - 2], p[(p.len() - 2) + 1]));
                lemma_path_prefix(g, p);
                assert(is_path(g, p.drop_last()) && p.drop_last()[0] == a
                    && p.drop_last().last() == prev);
                assert(prev == Beam { row: t.row, col: t.col, dir: prev.dir });
                assert(t.dir == din.opposite_spec());
                assert(emits(tile_of(g, t), prev.dir, t.dir.opposite_spec()));
                assert(reachable(g, a, prev));
                assert(reachable(g, a, Beam { row: t.row, col: t.col, dir: prev.dir }));
            }
        }
    }
}

proof fn lemma_covered_path(g: Seq<Seq<char>>, a: Beam, p: Seq<Beam>, i: int)
    requires
        grid_wf(g),
        edge_entry(g, a),
        is_path(g, p),
        covered(g, a, p[0]),
        0 <= i < p.len(),
    ensures
        covered(g, a, p[i]),
    decreases i,
{
    if i > 0 {
        lemma_covered_path(g, a, p, i - 1);
        assert(step_to(g, p[i - 1], p[(i - 1) + 1]));
        lemma_covered_step(g, a, p[i - 1], p[i]);
    }
}

/// Reversal law behind the memoized scan: a beam sent in against an exit state of the
/// trace from an edge entry `a` only reaches cells that the trace from `a` lights. So
/// it lights no more cells than that trace, and it meets no invalid tile where that
/// trace met none.
pub proof fn lemma_exit_reversal(g: Seq<Seq<char>>, a: Beam, e: Beam)
    requires
        grid_wf(g),
        edge_entry(g, a),
        is_exit(g, a, e),
    ensures
        forall|t: Beam| #[trigger]
            reachable(g, reversed(e), t) ==> exists|f: Beam|
                #[trigger] reachable(g, a, f) && f.row == t.row && f.col == t.col,
        illumination(g, reversed(e)) <= illumination(g, a),
        !fails(g, a) ==> !fails(g, reversed(e)),
        on_grid(g, reversed(e)),
{
    let s = reversed(e);
    let b = choose|b: Beam| #[trigger] reachable(g, a, b) && leaves_at(g, b, e);
    assert(b == Beam { row: s.row, col: s.col, dir: b.dir });
    assert(covered(g, a, s));
    assert forall|t: Beam| #[trigger] reachable(g, s, t) implies exists|f: Beam|
        #[trigger] reachable(g, a, f) && f.row == t.row && f.col == t.col by {
        let p = choose|p: Seq<Beam>| #[trigger] is_path(g, p) && p[0] == s && p.last() == t;
        lemma_covered_path(g, a, p, p.len() - 1);
        if !reachable(g, a, t) {
            let d = choose|d: Dir|
                #[trigger] reachable(g, a, Beam { row: t.row, col: t.col, dir: d }) && emits(
                    tile_of(g, t),
                    d,
                    t.dir.opposite_spec(),
                );
            assert(reachable(g, a, Beam { row: t.row, col: t.col, dir: d }));
        }
    }
    let w = g[0].len() as int;
    let p = |r: int, c: int| lit(g, s, r, c);
    let q = |r: int, c: int| lit(g, a, r, c);
    assert forall|r: int, c: int| 0 <= r < g.len() && 0 <= c < w && #[trigger] p(r, c) implies q(
        r,
        c,
    ) by {
        let t = if reachable(g, s, beam_at(r, c, Dir::Up)) {
            beam_at(r, c, Dir::Up)
        } else if reachable(g, s, beam_at(r, c, Dir::Down)) {
            beam_at(r, c, Dir::Down)
        } else if reachable(g, s, beam_at(r, c, Dir::Left)) {
            beam_at(r, c, Dir::Left)
        } else {
            beam_at(r, c, Dir::Right)
        };
        assert(reachable(g, s, t));
        let f = choose|f: Beam| #[trigger] reachable(g, a, f) && f.row == t.row && f.col == t.col;
        assert(f == beam_at(r, c, f.dir));
    }
    lemma_count_cells_mono(p, q, g.len() as int, w);
    if !fails(g, a) {
        assert forall|t: Beam| #[trigger] reachable(g, s, t) implies crate::rules::is_tile(
            tile_of(g, t),
        ) by {
            let f = choose|f: Beam| #[trigger] reachable(g, a, f) && f.row == t.row && f.col == t.col;
            assert(tile_of(g, f) == tile_of(g, t));
        }
    }
}

pub open spec fn from_left(r: int) -> Beam {
    beam_at(r, 0, Dir::Right)
}

pub open spec fn from_right(g: Seq<Seq<char>>, r: int) -> Beam {
    beam_at(r, g[0].len() - 1, Dir::Left)
}

pub open spec fn from_top(c: int) -> Beam {
    beam_at(0, c, Dir::Down)
}

pub open spec fn from_bottom(g: Seq<Seq<char>>, c: int) -> Beam {
    beam_at(g.len() - 1, c, Dir::Up)
}

pub open spec fn max_nat(a: nat, b: nat) -> nat {
    if a >= b {
        a
    } else {
        b
    }
}

/// The best illumination over the entries at both ends of the first `r` rows.
pub open spec fn best_rows(g: Seq<Seq<char>>, r: int) -> nat
    decreases r,
{
    if r <= 0 {
        0
    } else {
        max_nat(
            best_rows(g, r - 1),
            max_nat(illumination(g, from_left(r - 1)), illumination(g, from_right(g, r - 1))),
        )
    }
}

/// The best illumination over the entries at both ends of the first `c` columns.
pub open spec fn best_cols(g: Seq<Seq<char>>, c: int) -> nat
    decreases c,
{
    if c <= 0 {
        0
    } else {
        max_nat(
            best_cols(g, c - 1),
            max_nat(illumination(g, from_top(c - 1)), illumination(g, from_bottom(g, c - 1))),
        )
    }
}

/// The maximum illumination over all entries on the grid's edge.
pub open spec fn best_illumination(g: Seq<Seq<char>>) -> nat {
    max_nat(best_rows(g, g.len() as int), best_cols(g, g[0].len() as int))
}

pub open spec fn row_fails(g: Seq<Seq<char>>, r: int) -> bool {
    fails(g, from_left(r)) || fails(g, from_right(g, r))
}

pub open spec fn col_fails(g: Seq<Seq<char>>, c: int) -> bool {
    fails(g, from_top(c)) || fails(g, from_bottom(g, c))
}

/// Some entry on the grid's edge meets an invalid tile.
pub open spec fn scan_fails(g: Seq<Seq<char>>) -> bool {
    (exists|r: int| 0 <= r < g.len() && #[trigger] row_fails(g, r)) || (exists|c: int|
        0 <= c < g[0].len() && #[trigger] col_fails(g, c))
}

proof fn lemma_best_rows_ge(g: Seq<Seq<char>>, r: int, k: int)
    requires
        0 <= r < k,
    ensures
        illumination(g, from_left(r)) <= best_rows(g, k),
        illumination(g, from_right(g, r)) <= best_rows(g, k),
    decreases k,
{
    if r < k - 1 {
        lemma_best_rows_ge(g, r, k - 1);
    }
}

proof fn lemma_best_cols_ge(g: Seq<Seq<char>>, c: int, k: int)
    requires
        0 <= c < k,
    ensures
        illumination(g, from_top(c)) <= best_cols(g, k),
        illumination(g, from_bottom(g, c)) <= best_cols(g, k),
    decreases k,
{
    if c < k - 1 {
        lemma_best_cols_ge(g, c, k - 1);
    }
}

/// Every entry over the edge is one of the scanned ones, so none lights more cells
/// than the best.
pub proof fn lemma_edge_entry_bounded(g: Seq<Seq<char>>, a: Beam)
    requires
        grid_wf(g),
        edge_entry(g, a),
    ensures
        illumination(g, a) <= best_illumination(g),
{
    let (r, c) = (a.row as int, a.col as int);
    match a.dir {
        Dir::Right => {
            assert(a == from_left(r));
            lemma_best_rows_ge(g, r, g.len() as int);
        },
        Dir::Left => {
            assert(a == from_right(g, r));
            lemma_best_rows_ge(g, r, g.len() as int);
        },
        Dir::Down => {
            assert(a == from_top(c));
            lemma_best_cols_ge(g, c, g[0].len() as int);
        },
        Dir::Up => {
            assert(a == from_bottom(g, c));
            lemma_best_cols_ge(g, c, g[0].len() as int);
        },
    }
}

fn max3(a: usize, b: usize, c: usize) -> (m: usize)
    ensures
        m == max_nat(a as nat, max_nat(b as nat, c as nat)),
{
    let bc = if b >= c {
        b
    } else {
        c
    };
    if a >= bc {
        a
    } else {
        bc
    }
}

/// Entry-Point Scanner: traces from every entry on the edge and keeps the largest
/// illumination count.
pub fn max_illumination(grid: &Grid) -> (r: Result<usize, BeamError>)
    requires
        grid.wf(),
    ensures
        r is Err <==> scan_fails(grid@),
        r matches Err(e) ==> e == BeamError::InvalidTile,
        r matches Ok(m) ==> m == best_illumination(grid@),
{
    let ghost g = grid@;
    let h = grid.height();
    let w = grid.width();
    let mut best: usize = 0;
    let mut r: usize = 0;
    while r < h
        invariant
            grid.wf(),
            g == grid@,
            h == g.len(),
            w == g[0].len(),
            r <= h,
            best == best_rows(g, r as int),
            forall|i: int| 0 <= i < r ==> !#[trigger] row_fails(g, i),
        decreases h - r,
    {
        let a = match illumination_count(grid, (r, 0), Dir::Right) {
            Ok(n) => n,
            Err(e) => {
                assert(row_fails(g, r as int));
                return Err(e);
            },
        };
        let b = match illumination_count(grid, (r, w - 1), Dir::Left) {
            Ok(n) => n,
            Err(e) => {
                assert(row_fails(g, r as int));
                return Err(e);
            },
        };
        assert(!row_fails(g, r as int));
        best = max3(best, a, b);
        r += 1;
    }
    let mut c: usize = 0;
    while c < w
        invariant
            grid.wf(),
            g == grid@,
            h == g.len(),
            w == g[0].len(),
            c <= w,
            best == max_nat(best_rows(g, h as int), best_cols(g, c as int)),
            forall|i: int| 0 <= i < h ==> !#[trigger] row_fails(g, i),
            forall|i: int| 0 <= i < c ==> !#[trigger] col_fails(g, i),
        decreases w - c,
    {
        let a = match illumination_count(grid, (0, c), Dir::Down) {
            Ok(n) => n,
            Err(e) => {
                assert(col_fails(g, c as int));
                return Err(e);
            },
        };
        let b = match illumination_count(grid, (h - 1, c), Dir::Up) {
            Ok(n) => n,
            Err(e) => {
                assert(col_fails(g, c as int));
                return Err(e);
            },
        };
        assert(!col_fails(g, c as int));
        best = max3(best, a, b);
        c += 1;
    }
    Ok(best)
}

/// `v` is the illumination count of some entry over the edge.
pub open spec fn edge_count(g: Seq<Seq<char>>, v: nat) -> bool {
    exists|a: Beam| #[trigger] edge_entry(g, a) && v == illumination(g, a)
}

/// What a stored count promises: it is the illumination count of a trace from an edge
/// entry that met no invalid tile and had `e` among its exit states.
pub open spec fn memo_entry_ok(g: Seq<Seq<char>>, e: Beam, v: nat) -> bool {
    exists|a: Beam|
        edge_entry(g, a) && !fails(g, a) && v == illumination(g, a) && #[trigger] is_exit(g, a, e)
}

/// Exit Memo Table: for exit states of traces already made, the illumination count of
/// the trace that found them.
pub struct ExitMemo {
    scores: Vec<Option<usize>>,
}

impl ExitMemo {
    /// The table has a slot for every state of `g`, and each stored count keeps its
    /// promise.
    pub closed spec fn wf_for(&self, g: Seq<Seq<char>>) -> bool {
        &&& self.scores@.len() == 4 * (g.len() * g[0].len())
        &&& forall|e: Beam|
            on_grid(g, e) && (#[trigger] self.scores@[state_index(g[0].len() as int, e)]) is Some
                ==> memo_entry_ok(
                g,
                e,
                self.scores@[state_index(g[0].len() as int, e)]->Some_0 as nat,
            )
    }

    /// An empty table for a grid.
    pub fn new(grid: &Grid) -> (m: ExitMemo)
        requires
            grid.wf(),
        ensures
            m.wf_for(grid@),
    {
        let size = 4 * (grid.height() * grid.width());
        let mut scores: Vec<Option<usize>> = Vec::new();
        let mut i: usize = 0;
        while i < size
            invariant
                i <= size,
                scores@.len() == i,
                forall|j: int| 0 <= j < i ==> #[trigger] scores@[j] is None,
            decreases size - i,
        {
            scores.push(None);
            i += 1;
        }
        proof {
            lemma_index_all(grid@);
        }
        ExitMemo { scores }
    }

    /// The illumination count for a beam entering over the edge at `pos` heading `dir`,
    /// or a stored count for an exit state that runs against it, which is never
    /// smaller. A new trace stores its count for each of its exit states.
    pub fn count_from(&mut self, grid: &Grid, pos: (usize, usize), dir: Dir) -> (r: Result<
        usize,
        BeamError,
    >)
        requires
            grid.wf(),
            old(self).wf_for(grid@),
            edge_entry(grid@, Beam { row: pos.0, col: pos.1, dir }),
        ensures
            final(self).wf_for(grid@),
            r is Err <==> fails(grid@, Beam { row: pos.0, col: pos.1, dir }),
            r matches Err(e) ==> e == BeamError::InvalidTile,
            r matches Ok(v) ==> illumination(grid@, Beam { row: pos.0, col: pos.1, dir }) <= v
                && edge_count(grid@, v as nat),
    {
        let ghost g = grid@;
        let ghost gw = g[0].len() as int;
        let ghost x = Beam { row: pos.0, col: pos.1, dir };
        proof {
            lemma_index_all(g);
        }
        let key = Beam { row: pos.0, col: pos.1, dir: dir.opposite() };
        let k = state_index_of(grid, key);
        if let Some(v) = self.scores[k] {
            proof {
                assert(self.scores@[state_index(gw, key)] is Some);
                let a = choose|a: Beam|
                    edge_entry(g, a) && !fails(g, a) && v == illumination(g, a)
                        && #[trigger] is_exit(g, a, key);
                assert(crate::scan::reversed(key) == x);
                lemma_exit_reversal(g, a, key);
                assert(edge_entry(g, a));
            }
            return Ok(v);
        }
        let (seen, exits) = traverse_track_exits(grid, pos, dir)?;
        let n = count_lit(grid, &seen);
        proof {
            lemma_marked_is_lit(g, x, seen@);
        }
        let mut j: usize = 0;
        while j < exits.len()
            invariant
                grid.wf(),
                g == grid@,
                gw == g[0].len(),
                self.wf_for(g),
                edge_entry(g, x),
                !fails(g, x),
                n == illumination(g, x),
                crate::trace::lists_exits(g, x, exits@),
                forall|a: Beam, b: Beam|
                    on_grid(g, a) && on_grid(g, b) && #[trigger] state_index(gw, a)
                        == #[trigger] state_index(gw, b) ==> a == b,
                forall|a: Beam|
                    on_grid(g, a) ==> 0 <= #[trigger] state_index(gw, a) < 4 * (g.len()
                        * g[0].len()),
                j <= exits@.len(),
            decreases exits.len() - j,
        {
            let e = exits[j];
            proof {
                assert(exits@.contains(e));
                assert(is_exit(g, x, e));
                let b = choose|b: Beam| #[trigger] reachable(g, x, b) && leaves_at(g, b, e);
                assert(on_grid(g, e));
            }
            let ke = state_index_of(grid, e);
            let ghost before = self.scores@;
            self.scores.set(ke, Some(n));
            proof {
                assert(memo_entry_ok(g, e, n as nat));
                assert forall|e2: Beam|
                    on_grid(g, e2) && (#[trigger] self.scores@[state_index(gw, e2)]) is Some
                        implies memo_entry_ok(
                        g,
                        e2,
                        self.scores@[state_index(gw, e2)]->Some_0 as nat,
                    ) by {
                    if state_index(gw, e2) != ke {
                        assert(before[state_index(gw, e2)] is Some);
                    }
                }
            }
            j += 1;
        }
        proof {
            assert(edge_entry(g, x));
        }
        Ok(n)
    }
}

/// Memoized Entry-Point Scanner: as `max_illumination`, but an entry that runs against
/// a recorded exit state reuses the stored count instead of tracing again. It returns
/// the same result as the plain scanner on every grid.
pub fn max_illumination_memo(grid: &Grid) -> (r: Result<usize, BeamError>)
    requires
        grid.wf(),
    ensures
        r is Err <==> scan_fails(grid@),
        r matches Err(e) ==> e == BeamError::InvalidTile,
        r matches Ok(m) ==> m == best_illumination(grid@),
{
    let ghost g = grid@;
    let h = grid.height();
    let w = grid.width();
    let mut memo = ExitMemo::new(grid);
    let mut best: usize = 0;
    let mut r: usize = 0;
    while r < h
        invariant
            grid.wf(),
            g == grid@,
            h == g.len(),
            w == g[0].len(),
            memo.wf_for(g),
            r <= h,
            best_rows(g, r as int) <= best <= best_illumination(g),
            forall|i: int| 0 <= i < r ==> !#[trigger] row_fails(g, i),
        decreases h - r,
    {
        assert(edge_entry(g, Beam { row: r, col: 0, dir: Dir::Right }));
        let a = match memo.count_from(grid, (r, 0), Dir::Right) {
            Ok(n) => n,
            Err(e) => {
                assert(row_fails(g, r as int));
                return Err(e);
            },
        };
        assert(edge_entry(g, Beam { row: r, col: (w - 1) as usize, dir: Dir::Left }));
        let b = match memo.count_from(grid, (r, w - 1), Dir::Left) {
            Ok(n) => n,
            Err(e) => {
                assert(row_fails(g, r as int));
                return Err(e);
            },
        };
        proof {
            assert(!row_fails(g, r as int));
            let ea = choose|ea: Beam| #[trigger] edge_entry(g, ea) && a == illumination(g, ea);
            lemma_edge_entry_bounded(g, ea);
            let eb = choose|eb: Beam| #[trigger] edge_entry(g, eb) && b == illumination(g, eb);
            lemma_edge_entry_bounded(g, eb);
        }
        best = max3(best, a, b);
        r += 1;
    }
    let mut c: usize = 0;
    while c < w
        invariant
            grid.wf(),
            g == grid@,
            h == g.len(),
            w == g[0].len(),
            memo.wf_for(g),
            c <= w,
            max_nat(best_rows(g, h as int), best_cols(g, c as int)) <= best <= best_illumination(g),
            forall|i: int| 0 <= i < h ==> !#[trigger] row_fails(g, i),
            forall|i: int| 0 <= i < c ==> !#[trigger] col_fails(g, i),
        decreases w - c,
    {
        assert(edge_entry(g, Beam { row: 0, col: c, dir: Dir::Down }));
        let a = match memo.count_from(grid, (0, c), Dir::Down) {
            Ok(n) => n,
            Err(e) => {
                assert(col_fails(g, c as int));
                return Err(e);
            },
        };
        assert(edge_entry(g, Beam { row: (h - 1) as usize, col: c, dir: Dir::Up }));
        let b = match memo.count_from(grid, (h - 1, c), Dir::Up) {
            Ok(n) => n,
            Err(e) => {
                assert(col_fails(g, c as int));
                return Err(e);
            },
        };
        proof {
            assert(!col_fails(g, c as int));
            let ea = choose|ea: Beam| #[trigger] edge_entry(g, ea) && a == illumination(g, ea);
            lemma_edge_entry_bounded(g, ea);
            let eb = choose|eb: Beam| #[trigger] edge_entry(g, eb) && b == illumination(g, eb);
            lemma_edge_entry_bounded(g, eb);
        }
        best = max3(best, a, b);
        c += 1;
    }
    Ok(best)
}

} // verus!
