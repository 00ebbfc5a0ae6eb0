//! Following a beam through the grid: every state it reaches, and where it leaves.
use vstd::prelude::*;
use crate::count::{
    count_cells, count_true, lemma_count_cells_bounds, lemma_count_cells_mono,
    lemma_count_cells_pos, lemma_count_true_set,
};
use crate::grid::{grid_wf, in_grid, on_grid, tile_of, Beam, BeamError, Dir, Grid};
use crate::rules::{emits, is_tile, tile_rule};

verus! {

/// A beam in state `s` passes, one cell on, into state `t`.
pub open spec fn step_to(g: Seq<Seq<char>>, s: Beam, t: Beam) -> bool {
    &&& on_grid(g, s)
    &&& emits(tile_of(g, s), s.dir, t.dir)
    &&& t.row == s.row + t.dir.row_delta()
    &&& t.col == s.col + t.dir.col_delta()
    &&& on_grid(g, t)
}

/// Each state of `p` passes into the next one.
pub open spec fn is_path(g: Seq<Seq<char>>, p: Seq<Beam>) -> bool {
    &&& p.len() > 0
    &&& forall|i: int| 0 <= i < p.len() - 1 ==> #[trigger] step_to(g, p[i], p[i + 1])
}

/// `t` is reached from `s`: some path leads from `s` to `t`.
pub open spec fn reachable(g: Seq<Seq<char>>, s: Beam, t: Beam) -> bool {
    exists|p: Seq<Beam>| #[trigger] is_path(g, p) && p[0] == s && p.last() == t
}

/// Tracing from `s` meets a cell that holds no tile symbol.
pub open spec fn fails(g: Seq<Seq<char>>, s: Beam) -> bool {
    exists|t: Beam| #[trigger] reachable(g, s, t) && !is_tile(tile_of(g, t))
}

/// A beam in state `s` sends a beam out in `e.dir` over the grid's edge; `e` is the
/// cell it leaves from with that direction.
pub open spec fn leaves_at(g: Seq<Seq<char>>, s: Beam, e: Beam) -> bool {
    &&& on_grid(g, s)
    &&& e.row == s.row
    &&& e.col == s.col
    &&& emits(tile_of(g, s), s.dir, e.dir)
    &&& !in_grid(g, e.row + e.dir.row_delta(), e.col + e.dir.col_delta())
}

/// `e` is an exit state of the trace from `s`.
pub open spec fn is_exit(g: Seq<Seq<char>>, s: Beam, e: Beam) -> bool {
    exists|b: Beam| #[trigger] reachable(g, s, b) && leaves_at(g, b, e)
}

pub open spec fn beam_at(r: int, c: int, d: Dir) -> Beam {
    Beam { row: r as usize, col: c as usize, dir: d }
}

/// Some state at cell (`r`, `c`) is reached from `s`.
pub open spec fn lit(g: Seq<Seq<char>>, s: Beam, r: int, c: int) -> bool {
    reachable(g, s, beam_at(r, c, Dir::Up)) || reachable(g, s, beam_at(r, c, Dir::Down))
        || reachable(g, s, beam_at(r, c, Dir::Left)) || reachable(g, s, beam_at(r, c, Dir::Right))
}

/// The illumination count: how many cells some state reached from `s` stands on.
pub open spec fn illumination(g: Seq<Seq<char>>, s: Beam) -> nat {
    count_cells(|r: int, c: int| lit(g, s, r, c), g.len() as int, g[0].len() as int)
}

/// Where a state is kept in a table of all the states of a grid `w` cells wide.
pub open spec fn state_index(w: int, b: Beam) -> int {
    (b.row * w + b.col) * 4 + b.dir.index_spec()
}

/// A table of the grid's states that holds `true` exactly for those reached from `s`.
pub open spec fn marks_reachable(g: Seq<Seq<char>>, s: Beam, seen: Seq<bool>) -> bool {
    &&& seen.len() == 4 * (g.len() * g[0].len())
    &&& forall|b: Beam|
        on_grid(g, b) ==> (seen[#[trigger] state_index(g[0].len() as int, b)] <==> reachable(
            g,
            s,
            b,
        ))
}

/// A list that holds exactly the exit states of the trace from `s`.
pub open spec fn lists_exits(g: Seq<Seq<char>>, s: Beam, exits: Seq<Beam>) -> bool {
    forall|e: Beam| #[trigger] exits.contains(e) <==> is_exit(g, s, e)
}

/// Every cell of the grid is lit at least by a state on it: the count of lit cells of
/// a trace is at least one and at most the number of cells.
pub proof fn lemma_illumination_bounds(g: Seq<Seq<char>>, s: Beam)
    requires
        grid_wf(g),
        on_grid(g, s),
    ensures
        1 <= illumination(g, s) <= g.len() * g[0].len(),
{
    let p = |r: int, c: int| lit(g, s, r, c);
    lemma_reach_self(g, s);
    assert(s == beam_at(s.row as int, s.col as int, s.dir));
    assert(p(s.row as int, s.col as int));
    lemma_count_cells_pos(p, g.len() as int, g[0].len() as int, s.row as int, s.col as int);
    lemma_count_cells_bounds(p, g.len() as int, g[0].len() as int);
}

/// Tracing is deterministic: two tables that both mark exactly the states reached
/// from `s` are the same table.
pub proof fn lemma_trace_deterministic(
    g: Seq<Seq<char>>,
    s: Beam,
    seen1: Seq<bool>,
    seen2: Seq<bool>,
)
    requires
        grid_wf(g),
        marks_reachable(g, s, seen1),
        marks_reachable(g, s, seen2),
    ensures
        seen1 == seen2,
{
    let w = g[0].len() as int;
    assert forall|i: int| 0 <= i < seen1.len() implies seen1[i] == seen2[i] by {
        let b = lemma_index_decode(g, i);
        assert(state_index(w, b) == i);
    }
    assert(seen1 =~= seen2);
}

/// Every index of the table belongs to one state.
proof fn lemma_index_decode(g: Seq<Seq<char>>, i: int) -> (b: Beam)
    requires
        grid_wf(g),
        0 <= i < 4 * (g.len() * g[0].len()),
    ensures
        on_grid(g, b),
        state_index(g[0].len() as int, b) == i,
{
    let w = g[0].len() as int;
    let h = g.len() as int;
    let p = i / 4;
    let k = i % 4;
    let r = p / w;
    let c = p % w;
    assert(p < h * w);
    assert(0 <= r < h) by (nonlinear_arith)
        requires
            r == p / w,
            0 <= p < h * w,
            w > 0,
    ;
    assert(r * w + c == p) by (nonlinear_arith)
        requires
            r == p / w,
            c == p % w,
            w > 0,
    ;
    let d = if k == 0 {
        Dir::Up
    } else if k == 1 {
        Dir::Down
    } else if k == 2 {
        Dir::Left
    } else {
        Dir::Right
    };
    let b = Beam { row: r as usize, col: c as usize, dir: d };
    b
}

/// The table index of a state on the grid lies in the table, and no two states share
/// one.
proof fn lemma_index(g: Seq<Seq<char>>, a: Beam, b: Beam)
    requires
        grid_wf(g),
        on_grid(g, a),
        on_grid(g, b),
    ensures
        0 <= state_index(g[0].len() as int, a) < 4 * (g.len() * g[0].len()),
        state_index(g[0].len() as int, a) == state_index(g[0].len() as int, b) ==> a == b,
{
    let w = g[0].len() as int;
    let h = g.len() as int;
    let (ra, ca, rb, cb) = (a.row as int, a.col as int, b.row as int, b.col as int);
    assert(0 <= ra * w + ca < h * w) by (nonlinear_arith)
        requires
            0 <= ra < h,
            0 <= ca < w,
    ;
    if state_index(w, a) == state_index(w, b) {
        assert(ra * w + ca == rb * w + cb);
        assert(ra == rb) by (nonlinear_arith)
            requires
                ra * w + ca == rb * w + cb,
                0 <= ca < w,
                0 <= cb < w,
                0 <= ra,
                0 <= rb,
        ;
    }
}

pub proof fn lemma_index_all(g: Seq<Seq<char>>)
    requires
        grid_wf(g),
    ensures
        forall|a: Beam, b: Beam|
            on_grid(g, a) && on_grid(g, b) && #[trigger] state_index(g[0].len() as int, a)
                == #[trigger] state_index(g[0].len() as int, b) ==> a == b,
        forall|a: Beam|
            on_grid(g, a) ==> 0 <= #[trigger] state_index(g[0].len() as int, a) < 4 * (g.len()
                * g[0].len()),
{
    assert forall|a: Beam, b: Beam|
        on_grid(g, a) && on_grid(g, b) && #[trigger] state_index(g[0].len() as int, a)
            == #[trigger] state_index(g[0].len() as int, b) implies a == b by {
        lemma_index(g, a, b);
    }
    assert forall|a: Beam| on_grid(g, a) implies 0 <= #[trigger] state_index(
        g[0].len() as int,
        a,
    ) < 4 * (g.len() * g[0].len()) by {
        lemma_index(g, a, a);
    }
}

pub proof fn lemma_reach_self(g: Seq<Seq<char>>, s: Beam)
    ensures
        reachable(g, s, s),
{
    let p = seq![s];
    assert(is_path(g, p));
}

pub proof fn lemma_reach_step(g: Seq<Seq<char>>, s: Beam, v: Beam, t: Beam)
    requires
        reachable(g, s, v),
        step_to(g, v, t),
    ensures
        reachable(g, s, t),
{
    let p = choose|p: Seq<Beam>| #[trigger] is_path(g, p) && p[0] == s && p.last() == v;
    let q = p.push(t);
    assert forall|i: int| 0 <= i < q.len() - 1 implies #[trigger] step_to(g, q[i], q[i + 1]) by {
        if i < p.len() - 1 {
            assert(step_to(g, p[i], p[i + 1]));
        }
    }
    assert(is_path(g, q));
}

/// A table that marks `s` and is closed under steps marks every state of a path from
/// `s`, and those states are on the grid.
proof fn lemma_closed_covers(g: Seq<Seq<char>>, s: Beam, seen: Seq<bool>, p: Seq<Beam>, i: int)
    requires
        on_grid(g, s),
        seen[state_index(g[0].len() as int, s)],
        forall|b: Beam, u: Beam|
            #[trigger] step_to(g, b, u) && seen[state_index(g[0].len() as int, b)]
                ==> seen[state_index(g[0].len() as int, u)],
        is_path(g, p),
        p[0] == s,
        0 <= i < p.len(),
    ensures
        seen[state_index(g[0].len() as int, p[i])],
        on_grid(g, p[i]),
    decreases i,
{
    if i > 0 {
        lemma_closed_covers(g, s, seen, p, i - 1);
        assert(step_to(g, p[i - 1], p[(i - 1) + 1]));
    }
}

/// Every state reached from a state on the grid is on the grid.
pub proof fn lemma_reach_on_grid(g: Seq<Seq<char>>, s: Beam, t: Beam)
    requires
        on_grid(g, s),
        reachable(g, s, t),
    ensures
        on_grid(g, t),
{
    let p = choose|p: Seq<Beam>| #[trigger] is_path(g, p) && p[0] == s && p.last() == t;
    if p.len() > 1 {
        assert(step_to(g, p[p.len() - 2], p[(p.len() - 2) + 1]));
    }
}

proof fn lemma_contains_push<T>(s: Seq<T>, x: T)
    ensures
        forall|y: T| #[trigger] s.push(x).contains(y) <==> s.contains(y) || y == x,
{
    assert forall|y: T| #[trigger] s.push(x).contains(y) implies s.contains(y) || y == x by {
        let i = choose|i: int| 0 <= i < s.push(x).len() && s.push(x)[i] == y;
        if i < s.len() {
            assert(s[i] == y);
        }
    }
    assert forall|y: T| s.contains(y) || y == x implies #[trigger] s.push(x).contains(y) by {
        if y == x {
            assert(s.push(x)[s.len() as int] == y);
        } else {
            let i = choose|i: int| 0 <= i < s.len() && s[i] == y;
            assert(s.push(x)[i] == y);
        }
    }
}

/// The table index of a state on a well-formed grid.
pub fn state_index_of(grid: &Grid, b: Beam) -> (r: usize)
    requires
        grid.wf(),
        on_grid(grid@, b),
    ensures
        r as int == state_index(grid@[0].len() as int, b),
        r < 4 * (grid@.len() * grid@[0].len()),
{
    proof {
        lemma_index(grid@, b, b);
    }
    let w = grid.width();
    (b.row * w + b.col) * 4 + b.dir.index()
}

/// Sends a beam from `cur` out in direction `o`: onto the work stack where the next
/// cell is on the grid, else, when exits are tracked, onto the exit list.
fn advance(
    grid: &Grid,
    cur: Beam,
    o: Dir,
    track: bool,
    stack: &mut Vec<Beam>,
    exits: &mut Vec<Beam>,
)
    requires
        grid.wf(),
        on_grid(grid@, cur),
    ensures
        in_grid(grid@, cur.row + o.row_delta(), cur.col + o.col_delta()) ==> final(stack)@
            == old(stack)@.push(beam_at(cur.row + o.row_delta(), cur.col + o.col_delta(), o))
            && final(exits)@ == old(exits)@,
        !in_grid(grid@, cur.row + o.row_delta(), cur.col + o.col_delta()) ==> final(stack)@
            == old(stack)@ && final(exits)@ == (if track {
            old(exits)@.push(Beam { row: cur.row, col: cur.col, dir: o })
        } else {
            old(exits)@
        }),
{
    match grid.step(cur.row, cur.col, o) {
        Some((r, c)) => stack.push(Beam { row: r, col: c, dir: o }),
        None => {
            if track {
                exits.push(Beam { row: cur.row, col: cur.col, dir: o });
            }
        },
    }
}

/// Depth-first walk over the states reached from `start`, with a table of the states
/// seen so far; where `track` is set it also lists the exit states.
fn explore(grid: &Grid, start: Beam, track: bool) -> (r: Result<(Vec<bool>, Vec<Beam>), BeamError>)
    requires
        grid.wf(),
        on_grid(grid@, start),
    ensures
        r is Err <==> fails(grid@, start),
        r matches Err(e) ==> e == BeamError::InvalidTile,
        r matches Ok((seen, exits)) ==> marks_reachable(grid@, start, seen@) && (track
            ==> lists_exits(grid@, start, exits@)) && (!track ==> exits@.len() == 0),
{
    let ghost g = grid@;
    let ghost gw = g[0].len() as int;
    proof {
        lemma_index_all(g);
    }
    let h = grid.height();
    let w = grid.width();
    let size = 4 * (h * w);
    let mut seen: Vec<bool> = Vec::new();
    let mut i: usize = 0;
    while i < size
        invariant
            size == 4 * (g.len() * g[0].len()),
            i <= size,
            seen@.len() == i,
            count_true(seen@) == 0,
            forall|j: int| 0 <= j < i ==> !#[trigger] seen@[j],
        decreases size - i,
    {
        let ghost before = seen@;
        seen.push(false);
        assert(seen@.drop_last() =~= before);
        i += 1;
    }
    let mut marked: usize = 0;
    let mut stack: Vec<Beam> = Vec::new();
    stack.push(start);
    let mut exits: Vec<Beam> = Vec::new();
    proof {
        lemma_contains_push(Seq::<Beam>::empty(), start);
        assert(Seq::<Beam>::empty().push(start) =~= stack@);
        lemma_reach_self(g, start);
    }
    while stack.len() > 0
        invariant
            grid.wf(),
            g == grid@,
            gw == g[0].len(),
            on_grid(g, start),
            size == 4 * (g.len() * g[0].len()),
            seen@.len() == size,
            marked == count_true(seen@),
            marked <= size,
            forall|a: Beam, b: Beam|
                on_grid(g, a) && on_grid(g, b) && #[trigger] state_index(gw, a)
                    == #[trigger] state_index(gw, b) ==> a == b,
            forall|a: Beam| on_grid(g, a) ==> 0 <= #[trigger] state_index(gw, a) < size,
            forall|b: Beam|
                on_grid(g, b) && seen@[#[trigger] state_index(gw, b)] ==> reachable(g, start, b)
                    && is_tile(tile_of(g, b)),
            forall|b: Beam| #[trigger]
                stack@.contains(b) ==> on_grid(g, b) && reachable(g, start, b),
            forall|b: Beam, t: Beam|
                #[trigger] step_to(g, b, t) && seen@[state_index(gw, b)] ==> seen@[state_index(
                    gw,
                    t,
                )] || stack@.contains(t),
            seen@[state_index(gw, start)] || stack@.contains(start),
            track ==> forall|e: Beam| #[trigger] exits@.contains(e) ==> is_exit(g, start, e),
            track ==> forall|b: Beam, e: Beam|
                #[trigger] leaves_at(g, b, e) && seen@[state_index(gw, b)] ==> exits@.contains(
                    e,
                ),
            !track ==> exits@.len() == 0,
        decreases size - marked, stack.len(),
    {
        let ghost stack0 = stack@;
        let cur = stack.pop().unwrap();
        let ghost popped = stack@;
        proof {
            assert(stack0 == popped.push(cur));
            lemma_contains_push(popped, cur);
            assert(stack0.contains(cur));
            assert(reachable(g, start, cur));
        }
        let k = state_index_of(grid, cur);
        if !seen[k] {
            let t = grid.at(cur.row, cur.col);
            assert(t == tile_of(g, cur));
            match tile_rule(t, cur.dir) {
                Err(e) => {
                    assert(reachable(g, start, cur) && !is_tile(tile_of(g, cur)));
                    return Err(e);
                },
                Ok((a, b)) => {
                    let ghost seen0 = seen@;
                    let ghost exits0 = exits@;
                    proof {
                        lemma_count_true_set(seen@, k as int);
                    }
                    seen.set(k, true);
                    marked += 1;
                    advance(grid, cur, a, track, &mut stack, &mut exits);
                    let ghost stack1 = stack@;
                    let ghost exits1 = exits@;
                    match b {
                        Some(b) => advance(grid, cur, b, track, &mut stack, &mut exits),
                        None => {},
                    }
                    proof {
                        lemma_contains_push(popped, cur);
                        let na = beam_at(cur.row + a.row_delta(), cur.col + a.col_delta(), a);
                        assert(emits(t, cur.dir, a));
                        lemma_contains_push(popped, na);
                        if let Some(bb) = b {
                            let nb = beam_at(
                                cur.row + bb.row_delta(),
                                cur.col + bb.col_delta(),
                                bb,
                            );
                            assert(emits(t, cur.dir, bb));
                            lemma_contains_push(stack1, nb);
                            lemma_contains_push(exits1, Beam { row: cur.row, col: cur.col, dir: bb });
                        }
                        lemma_contains_push(exits0, Beam { row: cur.row, col: cur.col, dir: a });
                        assert forall|x: Beam| #[trigger]
                            popped.contains(x) implies stack@.contains(x) by {}
                        assert forall|x: Beam| #[trigger]
                            exits0.contains(x) implies exits@.contains(x) by {}
                        assert forall|t2: Beam| #[trigger]
                            step_to(g, cur, t2) implies stack@.contains(t2) by {
                            assert(t2.dir == a || b == Some(t2.dir));
                        }
                        if in_grid(g, cur.row + a.row_delta(), cur.col + a.col_delta()) {
                            assert(on_grid(g, cur));
                            assert(emits(tile_of(g, cur), cur.dir, na.dir));
                            assert(na.row == cur.row + na.dir.row_delta());
                            assert(na.col == cur.col + na.dir.col_delta());
                            assert(on_grid(g, na));
                            assert(step_to(g, cur, na));
                        } else {
                            assert(stack1 == popped);
                        }
                        assert forall|x: Beam| #[trigger]
                            stack1.contains(x) implies popped.contains(x) || step_to(g, cur, x) by {
                        }
                        if let Some(bb) = b {
                            let nb = beam_at(
                                cur.row + bb.row_delta(),
                                cur.col + bb.col_delta(),
                                bb,
                            );
                            if in_grid(g, cur.row + bb.row_delta(), cur.col + bb.col_delta()) {
                                assert(step_to(g, cur, nb));
                            }
                        }
                        assert forall|x: Beam| #[trigger]
                            stack@.contains(x) implies popped.contains(x) || step_to(g, cur, x) by {
                            if !stack1.contains(x) {
                                assert(stack@ != stack1);
                            }
                        }
                        assert forall|x: Beam| #[trigger]
                            stack@.contains(x) implies on_grid(g, x) && reachable(g, start, x) by {
                            if popped.contains(x) {
                                assert(stack0.contains(x));
                            } else {
                                assert(step_to(g, cur, x));
                                lemma_reach_step(g, start, cur, x);
                            }
                        }
                        if track {
                            assert forall|e: Beam| #[trigger]
                                exits@.contains(e) implies is_exit(g, start, e) by {
                                if !exits0.contains(e) {
                                    assert(leaves_at(g, cur, e));
                                }
                            }
                            assert forall|e: Beam| #[trigger]
                                leaves_at(g, cur, e) implies exits@.contains(e) by {
                                assert(e.dir == a || b == Some(e.dir));
                                assert(e == Beam { row: cur.row, col: cur.col, dir: e.dir });
                            }
                        }
                    }
                },
            }
        } else {
            proof {
                assert forall|x: Beam| #[trigger]
                    popped.contains(x) implies on_grid(g, x) && reachable(g, start, x) by {
                    assert(stack0.contains(x));
                }
            }
        }
    }
    proof {
        assert(stack@ =~= Seq::<Beam>::empty());
        assert forall|b: Beam| on_grid(g, b) && reachable(g, start, b) implies seen@[state_index(
            gw,
            b,
        )] by {
            let p = choose|p: Seq<Beam>| #[trigger] is_path(g, p) && p[0] == start && p.last() == b;
            lemma_closed_covers(g, start, seen@, p, p.len() - 1);
        }
        assert forall|t: Beam| reachable(g, start, t) implies is_tile(tile_of(g, t)) by {
            lemma_reach_on_grid(g, start, t);
        }
        if track {
            assert forall|e: Beam| is_exit(g, start, e) implies #[trigger] exits@.contains(e) by {
                let b = choose|b: Beam| #[trigger] reachable(g, start, b) && leaves_at(g, b, e);
                lemma_reach_on_grid(g, start, b);
            }
        }
    }
    Ok((seen, exits))
}

/// Cell (`r`, `c`) holds a state that the table marks.
pub open spec fn cell_marked(w: int, seen: Seq<bool>, r: int, c: int) -> bool {
    seen[state_index(w, beam_at(r, c, Dir::Up))] || seen[state_index(w, beam_at(r, c, Dir::Down))]
        || seen[state_index(w, beam_at(r, c, Dir::Left))] || seen[state_index(
        w,
        beam_at(r, c, Dir::Right),
    )]
}

/// How many cells of the grid hold a state that the table marks.
pub open spec fn marked_cells(g: Seq<Seq<char>>, seen: Seq<bool>) -> nat {
    count_cells(
        |r: int, c: int| cell_marked(g[0].len() as int, seen, r, c),
        g.len() as int,
        g[0].len() as int,
    )
}

/// Beam Tracer: the table of all states reached from the start state.
pub fn traverse(grid: &Grid, pos: (usize, usize), dir: Dir) -> (r: Result<Vec<bool>, BeamError>)
    requires
        grid.wf(),
        in_grid(grid@, pos.0 as int, pos.1 as int),
    ensures
        r is Err <==> fails(grid@, Beam { row: pos.0, col: pos.1, dir }),
        r matches Err(e) ==> e == BeamError::InvalidTile,
        r matches Ok(seen) ==> marks_reachable(grid@, Beam { row: pos.0, col: pos.1, dir }, seen@),
{
    match explore(grid, Beam { row: pos.0, col: pos.1, dir }, false) {
        Ok((seen, _)) => Ok(seen),
        Err(e) => Err(e),
    }
}

/// Exit-Tracking Tracer: the table of all states reached from the start state, and
/// the states at which a beam leaves the grid.
pub fn traverse_track_exits(grid: &Grid, pos: (usize, usize), dir: Dir) -> (r: Result<
    (Vec<bool>, Vec<Beam>),
    BeamError,
>)
    requires
        grid.wf(),
        in_grid(grid@, pos.0 as int, pos.1 as int),
    ensures
        r is Err <==> fails(grid@, Beam { row: pos.0, col: pos.1, dir }),
        r matches Err(e) ==> e == BeamError::InvalidTile,
        r matches Ok((seen, exits)) ==> marks_reachable(
            grid@,
            Beam { row: pos.0, col: pos.1, dir },
            seen@,
        ) && lists_exits(grid@, Beam { row: pos.0, col: pos.1, dir }, exits@),
{
    explore(grid, Beam { row: pos.0, col: pos.1, dir }, true)
}

/// How many cells of the grid hold a state that the table marks.
pub fn count_lit(grid: &Grid, seen: &Vec<bool>) -> (n: usize)
    requires
        grid.wf(),
        seen@.len() == 4 * (grid@.len() * grid@[0].len()),
    ensures
        n == marked_cells(grid@, seen@),
{
    let ghost g = grid@;
    let ghost gw = g[0].len() as int;
    let ghost p = |r: int, c: int| cell_marked(gw, seen@, r, c);
    let h = grid.height();
    let w = grid.width();
    let mut total: usize = 0;
    let mut r: usize = 0;
    while r < h
        invariant
            grid.wf(),
            g == grid@,
            gw == w,
            h == g.len(),
            w == g[0].len(),
            seen@.len() == 4 * (g.len() * g[0].len()),
            p == (|r: int, c: int| cell_marked(gw, seen@, r, c)),
            r <= h,
            total == count_cells(p, r as int, w as int),
        decreases h - r,
    {
        let mut row_total: usize = 0;
        let mut c: usize = 0;
        while c < w
            invariant
                grid.wf(),
                g == grid@,
                gw == w,
                h == g.len(),
                w == g[0].len(),
                seen@.len() == 4 * (g.len() * g[0].len()),
                p == (|r: int, c: int| cell_marked(gw, seen@, r, c)),
                r < h,
                c <= w,
                row_total == crate::count::count_in_row(p, r as int, c as int),
                row_total <= c,
            decreases w - c,
        {
            let up = state_index_of(grid, Beam { row: r, col: c, dir: Dir::Up });
            let down = state_index_of(grid, Beam { row: r, col: c, dir: Dir::Down });
            let left = state_index_of(grid, Beam { row: r, col: c, dir: Dir::Left });
            let right = state_index_of(grid, Beam { row: r, col: c, dir: Dir::Right });
            if seen[up] || seen[down] || seen[left] || seen[right] {
                row_total += 1;
            }
            c += 1;
        }
        proof {
            lemma_count_cells_bounds(p, r as int, w as int);
            assert(r * w + w <= h * w) by (nonlinear_arith)
                requires
                    r < h,
            ;
        }
        total = total + row_total;
        r += 1;
    }
    total
}

/// The number of cells lit by a beam from the start state.
pub fn illumination_count(grid: &Grid, pos: (usize, usize), dir: Dir) -> (r: Result<
    usize,
    BeamError,
>)
    requires
        grid.wf(),
        in_grid(grid@, pos.0 as int, pos.1 as int),
    ensures
        r is Err <==> fails(grid@, Beam { row: pos.0, col: pos.1, dir }),
        r matches Err(e) ==> e == BeamError::InvalidTile,
        r matches Ok(n) ==> n == illumination(grid@, Beam { row: pos.0, col: pos.1, dir }),
{
    let seen = traverse(grid, pos, dir)?;
    let n = count_lit(grid, &seen);
    proof {
        lemma_marked_is_lit(grid@, Beam { row: pos.0, col: pos.1, dir }, seen@);
    }
    Ok(n)
}

/// A table that marks the reached states counts the lit cells.
pub proof fn lemma_marked_is_lit(g: Seq<Seq<char>>, s: Beam, seen: Seq<bool>)
    requires
        grid_wf(g),
        marks_reachable(g, s, seen),
    ensures
        marked_cells(g, seen) == illumination(g, s),
{
    let w = g[0].len() as int;
    let p = |r: int, c: int| cell_marked(w, seen, r, c);
    let q = |r: int, c: int| lit(g, s, r, c);
    assert forall|r: int, c: int| 0 <= r < g.len() && 0 <= c < w implies (#[trigger] p(r, c)
        <==> q(r, c)) by {
        assert(on_grid(g, beam_at(r, c, Dir::Up)));
        assert(on_grid(g, beam_at(r, c, Dir::Down)));
        assert(on_grid(g, beam_at(r, c, Dir::Left)));
        assert(on_grid(g, beam_at(r, c, Dir::Right)));
    }
    lemma_count_cells_mono(p, q, g.len() as int, w);
    lemma_count_cells_mono(q, p, g.len() as int, w);
}

} // verus!
