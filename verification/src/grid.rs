//! Cells, directions and the slide-distance table, with the flood fill that
//! decides which cells can be reached from the top-left corner.
use vstd::prelude::*;

verus! {

/// A cell of the board: row `y` and column `x`, both counted from zero.
#[derive(PartialEq, Eq, Structural, Debug, Clone, Copy, Hash)]
pub struct Pos {
    pub y: u8,
    pub x: u8,
}

/// Row offset of direction `d`: 0 is down, 1 right, 2 up, 3 left.
pub open spec fn dir_dy(d: int) -> int {
    if d == 0 {
        1
    } else if d == 2 {
        -1
    } else {
        0
    }
}

/// Column offset of direction `d`.
pub open spec fn dir_dx(d: int) -> int {
    if d == 1 {
        1
    } else if d == 3 {
        -1
    } else {
        0
    }
}

/// The table has `h` rows of `w` cells.
pub open spec fn shaped(t: Seq<Vec<[usize; 4]>>, h: int, w: int) -> bool {
    t.len() == h && forall|y: int| 0 <= y < h ==> (#[trigger] t[y])@.len() == w
}

/// The table as a function from row, column and direction to a distance; it
/// is zero off the board.
pub open spec fn table_fn(t: Seq<Vec<[usize; 4]>>, h: int, w: int) -> spec_fn(int, int, int) -> int {
    |y: int, x: int, d: int|
        if 0 <= y < h && 0 <= x < w && 0 <= d < 4 {
            t[y]@[x]@[d] as int
        } else {
            0
        }
}

/// Number of cells that a slide from `(y, x)` in direction `d` crosses when
/// no robot is in the way.
pub open spec fn dist(t: spec_fn(int, int, int) -> int, y: int, x: int, d: int) -> int {
    t(y, x, d)
}

/// No slide from `(y, x)` leaves the board.
pub open spec fn cell_bounded(t: spec_fn(int, int, int) -> int, h: int, w: int, y: int, x: int) -> bool {
    dist(t, y, x, 0) <= h - 1 - y && dist(t, y, x, 1) <= w - 1 - x && dist(t, y, x, 2) <= y
        && dist(t, y, x, 3) <= x
}

/// No slide leaves the board.
pub open spec fn bounded(t: spec_fn(int, int, int) -> int, h: int, w: int) -> bool {
    forall|y: int, x: int|
        0 <= y < h && 0 <= x < w ==> #[trigger] cell_bounded(t, h, w, y, x)
}

/// From `(y, x)` a robot can slide at least one cell in direction `d`, onto a
/// cell of the board.
pub open spec fn edge(t: spec_fn(int, int, int) -> int, h: int, w: int, y: int, x: int, d: int) -> bool {
    0 <= y < h && 0 <= x < w && 0 <= d < 4 && dist(t, y, x, d) > 0 && 0 <= y + dir_dy(d) < h && 0
        <= x + dir_dx(d) < w
}

/// `b` is the neighbour of `a` in direction `d`, and the way there is open.
pub open spec fn step_by(
    t: spec_fn(int, int, int) -> int,
    h: int,
    w: int,
    a: (int, int),
    b: (int, int),
    d: int,
) -> bool {
    edge(t, h, w, a.0, a.1, d) && b == (a.0 + dir_dy(d), a.1 + dir_dx(d))
}

/// `b` is a neighbour of `a` with an open way from `a` to it.
pub open spec fn open_step(t: spec_fn(int, int, int) -> int, h: int, w: int, a: (int, int), b: (int, int)) -> bool {
    step_by(t, h, w, a, b, 0) || step_by(t, h, w, a, b, 1) || step_by(t, h, w, a, b, 2) || step_by(
        t,
        h,
        w,
        a,
        b,
        3,
    )
}

/// `p` starts in the top-left corner and goes from cell to cell by open steps.
pub open spec fn is_walk(t: spec_fn(int, int, int) -> int, h: int, w: int, p: Seq<(int, int)>) -> bool {
    p.len() > 0 && p[0] == (0int, 0int) && forall|i: int|
        0 <= i < p.len() - 1 ==> open_step(t, h, w, #[trigger] p[i], p[i + 1])
}

/// Some walk ends on `c`.
pub open spec fn reachable(t: spec_fn(int, int, int) -> int, h: int, w: int, c: (int, int)) -> bool {
    exists|p: Seq<(int, int)>| #[trigger] is_walk(t, h, w, p) && p.last() == c
}

/// Every cell of the board can be reached from the top-left corner.
pub open spec fn connected(t: spec_fn(int, int, int) -> int, h: int, w: int) -> bool {
    forall|y: int, x: int| 0 <= y < h && 0 <= x < w ==> #[trigger] reachable(t, h, w, (y, x))
}

/// Number of directions in which a robot on `(y, x)` cannot move at all.
pub open spec fn blocked_count(t: spec_fn(int, int, int) -> int, y: int, x: int) -> int {
    (if dist(t, y, x, 0) == 0 { 1int } else { 0 }) + (if dist(t, y, x, 1) == 0 { 1int } else { 0 })
        + (if dist(t, y, x, 2) == 0 { 1int } else { 0 }) + (if dist(t, y, x, 3) == 0 { 1int } else { 0 })
}

/// Every cell is blocked in at least two directions.
pub open spec fn hemmed(t: spec_fn(int, int, int) -> int, h: int, w: int) -> bool {
    forall|y: int, x: int| 0 <= y < h && 0 <= x < w ==> #[trigger] blocked_count(t, y, x) >= 2
}

/// A layout is good when it is connected and has no wide open area.
pub open spec fn good(t: spec_fn(int, int, int) -> int, h: int, w: int) -> bool {
    connected(t, h, w) && hemmed(t, h, w)
}

/// Number of marked cells in a row.
pub open spec fn row_count(r: Seq<bool>) -> nat
    decreases r.len(),
{
    if r.len() == 0 {
        0
    } else {
        row_count(r.drop_last()) + if r.last() { 1nat } else { 0nat }
    }
}

/// Number of marked cells in a grid.
pub open spec fn grid_count(g: Seq<Vec<bool>>) -> nat
    decreases g.len(),
{
    if g.len() == 0 {
        0
    } else {
        grid_count(g.drop_last()) + row_count(g.last()@)
    }
}

pub proof fn lemma_row_count_le(r: Seq<bool>)
    ensures
        row_count(r) <= r.len(),
    decreases r.len(),
{
    if r.len() > 0 {
        lemma_row_count_le(r.drop_last());
    }
}

pub proof fn lemma_row_count_mark(r: Seq<bool>, i: int)
    requires
        0 <= i < r.len(),
        !r[i],
    ensures
        row_count(r.update(i, true)) == row_count(r) + 1,
    decreases r.len(),
{
    if i == r.len() - 1 {
        assert(r.update(i, true).drop_last() =~= r.drop_last());
    } else {
        assert(r.update(i, true).drop_last() =~= r.drop_last().update(i, true));
        lemma_row_count_mark(r.drop_last(), i);
    }
}

pub proof fn lemma_grid_count_le(g: Seq<Vec<bool>>, w: int)
    requires
        forall|y: int| 0 <= y < g.len() ==> (#[trigger] g[y])@.len() == w,
    ensures
        grid_count(g) <= g.len() * w,
    decreases g.len(),
{
    if g.len() > 0 {
        lemma_grid_count_le(g.drop_last(), w);
        lemma_row_count_le(g.last()@);
        assert((g.len() - 1) * w + w == g.len() * w) by (nonlinear_arith);
    }
}

pub proof fn lemma_grid_count_row(g: Seq<Vec<bool>>, y: int, r: Vec<bool>)
    requires
        0 <= y < g.len(),
    ensures
        grid_count(g.update(y, r)) == grid_count(g) + row_count(r@) - row_count(g[y]@),
    decreases g.len(),
{
    if y == g.len() - 1 {
        assert(g.update(y, r).drop_last() =~= g.drop_last());
    } else {
        assert(g.update(y, r).drop_last() =~= g.drop_last().update(y, r));
        lemma_grid_count_row(g.drop_last(), y, r);
    }
}

/// A row without marks counts zero.
pub proof fn lemma_row_count_blank(r: Seq<bool>)
    requires
        forall|x: int| 0 <= x < r.len() ==> !r[x],
    ensures
        row_count(r) == 0,
    decreases r.len(),
{
    if r.len() > 0 {
        lemma_row_count_blank(r.drop_last());
    }
}

/// A grid without marks counts zero.
pub proof fn lemma_grid_count_blank(g: Seq<Vec<bool>>)
    requires
        forall|y: int, x: int| 0 <= y < g.len() && 0 <= x < g[y]@.len() ==> !(#[trigger] g[y]@[x]),
    ensures
        grid_count(g) == 0,
    decreases g.len(),
{
    if g.len() > 0 {
        lemma_grid_count_blank(g.drop_last());
        lemma_row_count_blank(g.last()@);
    }
}

/// A row that counts its length is marked all over.
pub proof fn lemma_row_count_full(r: Seq<bool>)
    requires
        row_count(r) >= r.len(),
    ensures
        forall|x: int| 0 <= x < r.len() ==> r[x],
    decreases r.len(),
{
    if r.len() > 0 {
        lemma_row_count_le(r.drop_last());
        lemma_row_count_full(r.drop_last());
        assert forall|x: int| 0 <= x < r.len() implies r[x] by {
            if x < r.len() - 1 {
                assert(r.drop_last()[x] == r[x]);
            }
        }
    }
}

/// A grid that counts all its cells is marked all over.
pub proof fn lemma_grid_count_full(g: Seq<Vec<bool>>, w: int)
    requires
        forall|y: int| 0 <= y < g.len() ==> (#[trigger] g[y])@.len() == w,
        grid_count(g) >= g.len() * w,
    ensures
        forall|y: int, x: int| 0 <= y < g.len() && 0 <= x < w ==> #[trigger] g[y]@[x],
    decreases g.len(),
{
    if g.len() > 0 {
        let front = g.drop_last();
        lemma_grid_count_le(front, w);
        lemma_row_count_le(g.last()@);
        assert((g.len() - 1) * w + w == g.len() * w) by (nonlinear_arith);
        lemma_row_count_full(g.last()@);
        lemma_grid_count_full(front, w);
        assert forall|y: int, x: int| 0 <= y < g.len() && 0 <= x < w implies #[trigger] g[y]@[x] by {
            if y < g.len() - 1 {
                assert(front[y] == g[y]);
                assert(front[y]@[x]);
            }
        }
    }
}

/// A reachable cell's open neighbour is reachable.
pub proof fn lemma_reach_step(t: spec_fn(int, int, int) -> int, h: int, w: int, a: (int, int), b: (int, int), d: int)
    requires
        reachable(t, h, w, a),
        step_by(t, h, w, a, b, d),
    ensures
        reachable(t, h, w, b),
{
    let p = choose|p: Seq<(int, int)>| #[trigger] is_walk(t, h, w, p) && p.last() == a;
    let q = p.push(b);
    assert forall|i: int| 0 <= i < q.len() - 1 implies open_step(t, h, w, #[trigger] q[i], q[i + 1]) by {
        if i < p.len() - 1 {
            assert(q[i] == p[i] && q[i + 1] == p[i + 1]);
        } else {
            assert(q[i] == a && q[i + 1] == b);
        }
    }
    assert(is_walk(t, h, w, q) && q.last() == b);
}

/// The corner itself is reachable.
pub proof fn lemma_reach_corner(t: spec_fn(int, int, int) -> int, h: int, w: int)
    ensures
        reachable(t, h, w, (0int, 0int)),
{
    let p = seq![(0int, 0int)];
    assert(is_walk(t, h, w, p) && p.last() == (0int, 0int));
}

/// The way from a marked cell `(y, x)` in direction `d`, if open, leads to a
/// marked cell.
pub open spec fn settled(
    g: Seq<Vec<bool>>,
    t: spec_fn(int, int, int) -> int,
    h: int,
    w: int,
    y: int,
    x: int,
    d: int,
) -> bool {
    edge(t, h, w, y, x, d) && g[y]@[x] ==> g[y + dir_dy(d)]@[x + dir_dx(d)]
}

/// `(y, x)` is still on the work list.
pub open spec fn pending(todo: Seq<(usize, usize)>, y: int, x: int) -> bool {
    exists|k: int| 0 <= k < todo.len() && (#[trigger] todo[k]).0 == y && todo[k].1 == x
}

/// Where the marks contain the corner and every open way from a marked cell
/// leads to a marked cell, the end of every walk is marked.
proof fn lemma_walk_marked(g: Seq<Vec<bool>>, t: spec_fn(int, int, int) -> int, h: int, w: int, p: Seq<(int, int)>)
    requires
        h > 0,
        w > 0,
        g[0]@[0],
        is_walk(t, h, w, p),
        forall|y: int, x: int, d: int| #[trigger] settled(g, t, h, w, y, x, d),
    ensures
        0 <= p.last().0 < h,
        0 <= p.last().1 < w,
        g[p.last().0]@[p.last().1],
    decreases p.len(),
{
    if p.len() > 1 {
        let q = p.drop_last();
        assert forall|i: int| 0 <= i < q.len() - 1 implies open_step(t, h, w, #[trigger] q[i], q[i + 1]) by {
            assert(q[i] == p[i] && q[i + 1] == p[i + 1]);
        }
        lemma_walk_marked(g, t, h, w, q);
        let a = q.last();
        let b = p.last();
        assert(a == p[p.len() - 2]);
        assert(open_step(t, h, w, p[p.len() - 2], p[p.len() - 2 + 1]));
        assert(settled(g, t, h, w, a.0, a.1, 0));
        assert(settled(g, t, h, w, a.0, a.1, 1));
        assert(settled(g, t, h, w, a.0, a.1, 2));
        assert(settled(g, t, h, w, a.0, a.1, 3));
    }
}

fn blank_row(w: usize) -> (r: Vec<bool>)
    ensures
        r@.len() == w,
        forall|x: int| 0 <= x < w ==> !r@[x],
{
    let mut r: Vec<bool> = Vec::new();
    while r.len() < w
        invariant
            r@.len() <= w,
            forall|x: int| 0 <= x < r@.len() ==> !r@[x],
        decreases w - r@.len(),
    {
        r.push(false);
    }
    r
}

/// A grid of `h` rows and `w` columns without any mark.
pub fn blank_grid(h: usize, w: usize) -> (g: Vec<Vec<bool>>)
    ensures
        g@.len() == h,
        forall|y: int| 0 <= y < h ==> (#[trigger] g@[y])@.len() == w,
        forall|y: int, x: int| 0 <= y < h && 0 <= x < w ==> !(#[trigger] g@[y]@[x]),
        grid_count(g@) == 0,
{
    let mut g: Vec<Vec<bool>> = Vec::new();
    while g.len() < h
        invariant
            g@.len() <= h,
            forall|y: int| 0 <= y < g@.len() ==> (#[trigger] g@[y])@.len() == w,
            forall|y: int, x: int| 0 <= y < g@.len() && 0 <= x < w ==> !(#[trigger] g@[y]@[x]),
        decreases h - g@.len(),
    {
        g.push(blank_row(w));
    }
    proof {
        lemma_grid_count_blank(g@);
    }
    g
}

/// Marks the cells that can be reached from the top-left corner over open
/// steps, and no others.
pub fn flood(t: &Vec<Vec<[usize; 4]>>, h: usize, w: usize) -> (seen: Vec<Vec<bool>>)
    requires
        shaped(t@, h as int, w as int),
        h > 0,
        w > 0,
    ensures
        seen@.len() == h,
        forall|y: int| 0 <= y < h ==> (#[trigger] seen@[y])@.len() == w,
        forall|y: int, x: int|
            0 <= y < h && 0 <= x < w ==> (seen@[y]@[x] <==> #[trigger] reachable(
                table_fn(t@, h as int, w as int),
                h as int,
                w as int,
                (y, x),
            )),
{
    let mut seen = blank_grid(h, w);
    let mut todo: Vec<(usize, usize)> = Vec::new();
    seen[0][0] = true;
    todo.push((0, 0));
    proof {
        lemma_reach_corner(table_fn(t@, h as int, w as int), h as int, w as int);
        assert(todo@[0] == (0usize, 0usize));
    }
    while todo.len() > 0
        invariant
            shaped(t@, h as int, w as int),
            h > 0,
            w > 0,
            seen@.len() == h,
            forall|y: int| 0 <= y < h ==> (#[trigger] seen@[y])@.len() == w,
            seen@[0]@[0],
            forall|y: int, x: int|
                0 <= y < h && 0 <= x < w && seen@[y]@[x] ==> #[trigger] reachable(
                    table_fn(t@, h as int, w as int),
                    h as int,
                    w as int,
                    (y, x),
                ),
            forall|k: int|
                0 <= k < todo@.len() ==> (#[trigger] todo@[k]).0 < h && todo@[k].1 < w
                    && seen@[todo@[k].0 as int]@[todo@[k].1 as int],
            forall|y: int, x: int, d: int| #[trigger]
                settled(seen@, table_fn(t@, h as int, w as int), h as int, w as int, y, x, d) || pending(todo@, y, x),
        decreases 2 * (h * w - grid_count(seen@)) + todo@.len(),
    {
        let ghost before = 2 * (h * w - grid_count(seen@)) + todo@.len();
        let ghost todo0 = todo@;
        let c = todo.pop().unwrap();
        let cy = c.0;
        let cx = c.1;
        assert forall|y: int, x: int, d: int| (y != cy || x != cx) implies #[trigger] settled(
            seen@,
            table_fn(t@, h as int, w as int),
            h as int,
            w as int,
            y,
            x,
            d,
        ) || pending(todo@, y, x) by {
            if !settled(seen@, table_fn(t@, h as int, w as int), h as int, w as int, y, x, d) {
                assert(pending(todo0, y, x));
                let k = choose|k: int| 0 <= k < todo0.len() && (#[trigger] todo0[k]).0 == y && todo0[k].1 == x;
                assert(todo@[k] == todo0[k]);
            }
        }
        let mut d: usize = 0;
        while d < 4
            invariant
                d <= 4,
                cy < h,
                cx < w,
                shaped(t@, h as int, w as int),
                h > 0,
                w > 0,
                seen@.len() == h,
                forall|y: int| 0 <= y < h ==> (#[trigger] seen@[y])@.len() == w,
                seen@[0]@[0],
                seen@[cy as int]@[cx as int],
                forall|y: int, x: int|
                    0 <= y < h && 0 <= x < w && seen@[y]@[x] ==> #[trigger] reachable(
                        table_fn(t@, h as int, w as int),
                        h as int,
                        w as int,
                        (y, x),
                    ),
                forall|k: int|
                    0 <= k < todo@.len() ==> (#[trigger] todo@[k]).0 < h && todo@[k].1 < w
                        && seen@[todo@[k].0 as int]@[todo@[k].1 as int],
                forall|y: int, x: int, e: int|
                    (y != cy || x != cx) ==> #[trigger] settled(seen@, table_fn(t@, h as int, w as int), h as int, w as int, y, x, e)
                        || pending(todo@, y, x),
                forall|e: int| 0 <= e < d ==> #[trigger] settled(seen@, table_fn(t@, h as int, w as int), h as int, w as int, cy as int, cx as int, e),
                2 * (h * w - grid_count(seen@)) + todo@.len() < before,
            decreases 4 - d,
        {
            let open = t[cy][cx][d] > 0;
            let inside = if d == 0 {
                cy + 1 < h
            } else if d == 1 {
                cx + 1 < w
            } else if d == 2 {
                cy > 0
            } else {
                cx > 0
            };
            if open && inside {
                let ny = if d == 0 {
                    cy + 1
                } else if d == 2 {
                    cy - 1
                } else {
                    cy
                };
                let nx = if d == 1 {
                    cx + 1
                } else if d == 3 {
                    cx - 1
                } else {
                    cx
                };
                assert(edge(table_fn(t@, h as int, w as int), h as int, w as int, cy as int, cx as int, d as int));
                assert(ny == cy + dir_dy(d as int) && nx == cx + dir_dx(d as int));
                if !seen[ny][nx] {
                    let ghost seen0 = seen@;
                    let ghost todo1 = todo@;
                    seen[ny][nx] = true;
                    todo.push((ny, nx));
                    proof {
                        assert(seen@[ny as int]@ =~= seen0[ny as int]@.update(nx as int, true));
                        assert(seen@ =~= seen0.update(ny as int, seen@[ny as int]));
                        lemma_row_count_mark(seen0[ny as int]@, nx as int);
                        lemma_grid_count_row(seen0, ny as int, seen@[ny as int]);
                        lemma_reach_step(
                            table_fn(t@, h as int, w as int),
                            h as int,
                            w as int,
                            (cy as int, cx as int),
                            (ny as int, nx as int),
                            d as int,
                        );
                        assert(todo@[todo1.len() as int] == (ny, nx));
                        assert forall|y: int, x: int, e: int| (y != cy || x != cx) implies #[trigger] settled(
                            seen@,
                            table_fn(t@, h as int, w as int),
                            h as int,
                            w as int,
                            y,
                            x,
                            e,
                        ) || pending(todo@, y, x) by {
                            if y == ny && x == nx {
                                assert(pending(todo@, y, x));
                            } else if !settled(seen0, table_fn(t@, h as int, w as int), h as int, w as int, y, x, e) {
                                assert(pending(todo1, y, x));
                                let k = choose|k: int|
                                    0 <= k < todo1.len() && (#[trigger] todo1[k]).0 == y && todo1[k].1 == x;
                                assert(todo@[k] == todo1[k]);
                            }
                        }
                        assert forall|e: int| 0 <= e < d implies #[trigger] settled(
                            seen@,
                            table_fn(t@, h as int, w as int),
                            h as int,
                            w as int,
                            cy as int,
                            cx as int,
                            e,
                        ) by {
                            assert(settled(seen0, table_fn(t@, h as int, w as int), h as int, w as int, cy as int, cx as int, e));
                        }
                        assert forall|k: int| 0 <= k < todo@.len() implies (#[trigger] todo@[k]).0 < h
                            && todo@[k].1 < w && seen@[todo@[k].0 as int]@[todo@[k].1 as int] by {
                            if k < todo1.len() {
                                assert(todo@[k] == todo1[k]);
                            }
                        }
                    }
                }
            }
            d += 1;
        }
        proof {
            lemma_grid_count_le(seen@, w as int);
        }
        assert forall|y: int, x: int, e: int| #[trigger]
            settled(seen@, table_fn(t@, h as int, w as int), h as int, w as int, y, x, e) || pending(todo@, y, x) by {
            if y == cy && x == cx {
                if 0 <= e < 4 {
                    assert(settled(seen@, table_fn(t@, h as int, w as int), h as int, w as int, cy as int, cx as int, e));
                }
            }
        }
    }
    proof {
        assert forall|y: int, x: int, d: int| #[trigger] settled(seen@, table_fn(t@, h as int, w as int), h as int, w as int, y, x, d) by {
            if pending(todo@, y, x) {
            }
        }
        assert forall|y: int, x: int| 0 <= y < h && 0 <= x < w && #[trigger] reachable(
            table_fn(t@, h as int, w as int),
            h as int,
            w as int,
            (y, x),
        ) implies seen@[y]@[x] by {
            let p = choose|p: Seq<(int, int)>| #[trigger] is_walk(table_fn(t@, h as int, w as int), h as int, w as int, p) && p.last() == (y, x);
            lemma_walk_marked(seen@, table_fn(t@, h as int, w as int), h as int, w as int, p);
        }
    }
    seen
}

} // verus!
