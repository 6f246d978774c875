//! The board: its walls, its slide-distance table and the four robots'
//! starting cells, and the random generation of a layout.
use crate::grid::{
    bounded, blocked_count, cell_bounded, connected, flood, good, hemmed, lemma_reach_corner,
    lemma_reach_step, reachable, shaped, step_by, table_fn, Pos,
};
use crate::rng::draw_below;
use vstd::prelude::*;
use xorshift::Xorshift128;

verus! {

/// A wall segment. With `d == 0` it lies across column `x` between the rows
/// `y - 1` and `y`; with `d == 1` it lies along row `y` between the columns
/// `x - 1` and `x`.
#[derive(PartialEq, Eq, Structural, Debug, Clone, Copy)]
pub struct WallPos {
    pub y: u8,
    pub x: u8,
    pub d: u8,
}

/// A board of `h` rows and `w` columns. `walls` lists the wall segments in
/// the order in which they were laid; `walldist` holds, for each cell and
/// each direction (down, right, up, left), the number of cells that a slide
/// crosses before a wall or the border stops it; `robots` holds the cells on
/// which the four robots start.
#[derive(Debug)]
pub struct Board {
    pub w: usize,
    pub h: usize,
    pub walls: Vec<WallPos>,
    pub walldist: Vec<Vec<[usize; 4]>>,
    pub robots: [Pos; 4],
}

/// The smaller of two numbers.
pub open spec fn min_int(a: int, b: int) -> int {
    if a <= b {
        a
    } else {
        b
    }
}

/// Distances on a board of `h` by `w` cells without any wall.
pub open spec fn open_dist(h: int, w: int) -> spec_fn(int, int, int) -> int {
    |y: int, x: int, d: int|
        if 0 <= y < h && 0 <= x < w && 0 <= d < 4 {
            if d == 0 {
                h - 1 - y
            } else if d == 1 {
                w - 1 - x
            } else if d == 2 {
                y
            } else {
                x
            }
        } else {
            0
        }
}

/// Distances after a wall is laid across column `wx` between the rows
/// `wy - 1` and `wy`.
pub open spec fn cut_across_dist(t: spec_fn(int, int, int) -> int, wy: int, wx: int) -> spec_fn(
    int,
    int,
    int,
) -> int {
    |y: int, x: int, d: int|
        if x == wx && d == 0 && y < wy {
            min_int(wy - 1 - y, t(y, x, d))
        } else if x == wx && d == 2 && y >= wy {
            min_int(y - wy, t(y, x, d))
        } else {
            t(y, x, d)
        }
}

/// Distances after a wall is laid along row `wy` between the columns
/// `wx - 1` and `wx`.
pub open spec fn cut_along_dist(t: spec_fn(int, int, int) -> int, wy: int, wx: int) -> spec_fn(
    int,
    int,
    int,
) -> int {
    |y: int, x: int, d: int|
        if y == wy && d == 1 && x < wx {
            min_int(wx - 1 - x, t(y, x, d))
        } else if y == wy && d == 3 && x >= wx {
            min_int(x - wx, t(y, x, d))
        } else {
            t(y, x, d)
        }
}

/// The row of the wall proposed across the anchor's column is inside the board.
pub open spec fn across_fits(h: int, cy: int, dy: int) -> bool {
    0 < cy + dy < h
}

/// The column of the wall proposed along the anchor's row is inside the board.
pub open spec fn along_fits(w: int, cx: int, dx: int) -> bool {
    0 < cx + dx < w
}

/// Distances after both walls proposed at the anchor `(cy, cx)` are laid,
/// each only if it is inside the board.
pub open spec fn tentative(
    t: spec_fn(int, int, int) -> int,
    h: int,
    w: int,
    cy: int,
    cx: int,
    dy: int,
    dx: int,
) -> spec_fn(int, int, int) -> int {
    let a = if across_fits(h, cy, dy) {
        cut_across_dist(t, cy + dy, cx)
    } else {
        t
    };
    if along_fits(w, cx, dx) {
        cut_along_dist(a, cy, cx + dx)
    } else {
        a
    }
}

/// The walls proposed at the anchor `(cy, cx)` that are inside the board.
pub open spec fn proposed(h: int, w: int, cy: int, cx: int, dy: int, dx: int) -> Seq<WallPos> {
    let a = if across_fits(h, cy, dy) {
        seq![WallPos { y: (cy + dy) as u8, x: cx as u8, d: 0 }]
    } else {
        Seq::<WallPos>::empty()
    };
    if along_fits(w, cx, dx) {
        a.push(WallPos { y: cy as u8, x: (cx + dx) as u8, d: 1 })
    } else {
        a
    }
}

/// Distances after one recorded wall is laid.
pub open spec fn cut_one(t: spec_fn(int, int, int) -> int, wall: WallPos) -> spec_fn(int, int, int) -> int {
    if wall.d == 0 {
        cut_across_dist(t, wall.y as int, wall.x as int)
    } else {
        cut_along_dist(t, wall.y as int, wall.x as int)
    }
}

/// Distances after the walls are laid one after the other on `t`.
pub open spec fn cut_all(t: spec_fn(int, int, int) -> int, walls: Seq<WallPos>) -> spec_fn(int, int, int) -> int
    decreases walls.len(),
{
    if walls.len() == 0 {
        t
    } else {
        cut_one(cut_all(t, walls.drop_last()), walls.last())
    }
}

/// Laying the walls recorded before and then those proposed at an anchor
/// gives the tentative distances of that attempt.
pub proof fn lemma_cut_all_proposed(
    t0: spec_fn(int, int, int) -> int,
    walls: Seq<WallPos>,
    h: int,
    w: int,
    cy: int,
    cx: int,
    dy: int,
    dx: int,
)
    requires
        0 < h <= 255,
        0 < w <= 255,
        0 <= cy < h,
        0 <= cx < w,
        0 <= dy <= 1,
        0 <= dx <= 1,
    ensures
        cut_all(t0, walls + proposed(h, w, cy, cx, dy, dx)) == tentative(cut_all(t0, walls), h, w, cy, cx, dy, dx),
{
    let t = cut_all(t0, walls);
    let wa = WallPos { y: (cy + dy) as u8, x: cx as u8, d: 0 };
    let wb = WallPos { y: cy as u8, x: (cx + dx) as u8, d: 1 };
    if across_fits(h, cy, dy) {
        assert((walls + seq![wa]).drop_last() =~= walls);
        assert(cut_all(t0, walls + seq![wa]) == cut_one(t, wa));
        if along_fits(w, cx, dx) {
            assert(walls + seq![wa].push(wb) =~= (walls + seq![wa]).push(wb));
            assert((walls + seq![wa]).push(wb).drop_last() =~= walls + seq![wa]);
        }
    } else {
        if along_fits(w, cx, dx) {
            assert(walls + Seq::<WallPos>::empty().push(wb) =~= walls.push(wb));
            assert(walls.push(wb).drop_last() =~= walls);
        } else {
            assert(walls + Seq::<WallPos>::empty() =~= walls);
        }
    }
}

/// Table and wall list after one attempt at the anchor `a`, which gives the
/// anchor's row and column and the two offsets: both proposed walls are
/// taken where the layout with them is good, and none is otherwise.
pub open spec fn attempt(
    s: (spec_fn(int, int, int) -> int, Seq<WallPos>),
    h: int,
    w: int,
    a: (int, int, int, int),
) -> (spec_fn(int, int, int) -> int, Seq<WallPos>) {
    let u = tentative(s.0, h, w, a.0, a.1, a.2, a.3);
    if good(u, h, w) {
        (u, s.1 + proposed(h, w, a.0, a.1, a.2, a.3))
    } else {
        s
    }
}

/// Table and wall list after the attempts at the anchors `draws`, made one
/// after the other on the open board.
pub open spec fn attempts(h: int, w: int, draws: Seq<(int, int, int, int)>) -> (
    spec_fn(int, int, int) -> int,
    Seq<WallPos>,
)
    decreases draws.len(),
{
    if draws.len() == 0 {
        (open_dist(h, w), Seq::<WallPos>::empty())
    } else {
        attempt(attempts(h, w, draws.drop_last()), h, w, draws.last())
    }
}

/// Every anchor lies on the board, and its offsets are 0 or 1.
pub open spec fn draws_fit(h: int, w: int, draws: Seq<(int, int, int, int)>) -> bool {
    forall|k: int|
        0 <= k < draws.len() ==> 0 <= (#[trigger] draws[k]).0 < h && 0 <= draws[k].1 < w && 0 <= draws[k].2 <= 1
            && 0 <= draws[k].3 <= 1
}

/// The robots placed from the cells drawn: each cell in turn takes the next
/// robot unless a robot stands there already or four are placed.
pub open spec fn settle(cells: Seq<Pos>) -> Seq<Pos>
    decreases cells.len(),
{
    if cells.len() == 0 {
        Seq::<Pos>::empty()
    } else {
        let prev = settle(cells.drop_last());
        if prev.len() < 4 && !prev.contains(cells.last()) {
            prev.push(cells.last())
        } else {
            prev
        }
    }
}

/// The board is what the anchors `draws` and the cells `cells` give: one
/// attempt for each anchor in turn, then the robots on the cells.
pub open spec fn drawn(
    b: Board,
    wall_num: int,
    draws: Seq<(int, int, int, int)>,
    cells: Seq<Pos>,
) -> bool {
    draws.len() == wall_num && draws_fit(b.h as int, b.w as int, draws) && attempts(
        b.h as int,
        b.w as int,
        draws,
    ).0 == b.table() && attempts(b.h as int, b.w as int, draws).1 == b.walls@ && settle(cells) == b.robots@
        && forall|k: int| 0 <= k < cells.len() ==> (#[trigger] cells[k]).y < b.h && cells[k].x < b.w
}

/// The same anchors and cells give the same table, walls and robots.
pub proof fn lemma_drawn_unique(a: Board, b: Board, wall_num: int, draws: Seq<(int, int, int, int)>, cells: Seq<Pos>)
    requires
        a.h == b.h,
        a.w == b.w,
        drawn(a, wall_num, draws, cells),
        drawn(b, wall_num, draws, cells),
    ensures
        a.table() == b.table(),
        a.walls@ == b.walls@,
        a.robots@ == b.robots@,
{
}

/// Every robot stands on the board.
pub open spec fn placed(r: Seq<Pos>, h: int, w: int) -> bool {
    r.len() == 4 && forall|i: int| 0 <= i < 4 ==> (#[trigger] r[i]).y < h && r[i].x < w
}

/// No two robots share a cell.
pub open spec fn apart(r: Seq<Pos>) -> bool {
    forall|i: int, j: int| 0 <= i < j < 4 ==> r[i] != r[j]
}

/// On a board without walls every cell can be reached from the corner.
pub proof fn lemma_open_connected(h: int, w: int, y: int, x: int)
    requires
        0 <= y < h,
        0 <= x < w,
    ensures
        reachable(open_dist(h, w), h, w, (y, x)),
    decreases y + x,
{
    let t = open_dist(h, w);
    if y > 0 {
        lemma_open_connected(h, w, y - 1, x);
        assert(step_by(t, h, w, (y - 1, x), (y, x), 0));
        lemma_reach_step(t, h, w, (y - 1, x), (y, x), 0);
    } else if x > 0 {
        lemma_open_connected(h, w, y, x - 1);
        assert(step_by(t, h, w, (y, x - 1), (y, x), 1));
        lemma_reach_step(t, h, w, (y, x - 1), (y, x), 1);
    } else {
        lemma_reach_corner(t, h, w);
    }
}

fn open_table(h: usize, w: usize) -> (t: Vec<Vec<[usize; 4]>>)
    ensures
        shaped(t@, h as int, w as int),
        table_fn(t@, h as int, w as int) == open_dist(h as int, w as int),
{
    let mut t: Vec<Vec<[usize; 4]>> = Vec::new();
    let mut y: usize = 0;
    while y < h
        invariant
            y <= h,
            t@.len() == y,
            forall|i: int| 0 <= i < y ==> (#[trigger] t@[i])@.len() == w,
            forall|i: int, j: int, d: int|
                0 <= i < y && 0 <= j < w && 0 <= d < 4 ==> (#[trigger] t@[i]@[j]@[d]) as int == open_dist(
                    h as int,
                    w as int,
                )(i, j, d),
        decreases h - y,
    {
        let mut row: Vec<[usize; 4]> = Vec::new();
        let mut x: usize = 0;
        while x < w
            invariant
                y < h,
                x <= w,
                row@.len() == x,
                forall|j: int, d: int|
                    0 <= j < x && 0 <= d < 4 ==> (#[trigger] row@[j]@[d]) as int == open_dist(
                        h as int,
                        w as int,
                    )(y as int, j, d),
            decreases w - x,
        {
            row.push([h - 1 - y, w - 1 - x, y, x]);
            x += 1;
        }
        t.push(row);
        y += 1;
    }
    assert(table_fn(t@, h as int, w as int) =~= open_dist(h as int, w as int));
    t
}

fn copy_table(t: &Vec<Vec<[usize; 4]>>, h: usize, w: usize) -> (c: Vec<Vec<[usize; 4]>>)
    requires
        shaped(t@, h as int, w as int),
    ensures
        shaped(c@, h as int, w as int),
        table_fn(c@, h as int, w as int) == table_fn(t@, h as int, w as int),
{
    let mut c: Vec<Vec<[usize; 4]>> = Vec::new();
    let mut y: usize = 0;
    while y < h
        invariant
            shaped(t@, h as int, w as int),
            y <= h,
            c@.len() == y,
            forall|i: int| 0 <= i < y ==> (#[trigger] c@[i])@.len() == w,
            forall|i: int, j: int| 0 <= i < y && 0 <= j < w ==> (#[trigger] c@[i]@[j]) == t@[i]@[j],
        decreases h - y,
    {
        let mut row: Vec<[usize; 4]> = Vec::new();
        let mut x: usize = 0;
        while x < w
            invariant
                shaped(t@, h as int, w as int),
                y < h,
                x <= w,
                row@.len() == x,
                forall|j: int| 0 <= j < x ==> (#[trigger] row@[j]) == t@[y as int]@[j],
            decreases w - x,
        {
            row.push(t[y][x]);
            x += 1;
        }
        c.push(row);
        y += 1;
    }
    assert(table_fn(c@, h as int, w as int) =~= table_fn(t@, h as int, w as int));
    c
}

fn cut_across(t: &mut Vec<Vec<[usize; 4]>>, h: usize, w: usize, wy: usize, wx: usize)
    requires
        shaped(old(t)@, h as int, w as int),
        0 < wy < h,
        wx < w,
    ensures
        shaped(final(t)@, h as int, w as int),
        table_fn(final(t)@, h as int, w as int) == cut_across_dist(
            table_fn(old(t)@, h as int, w as int),
            wy as int,
            wx as int,
        ),
{
    let ghost f0 = table_fn(t@, h as int, w as int);
    let mut y: usize = 0;
    while y < h
        invariant
            y <= h,
            0 < wy < h,
            wx < w,
            shaped(t@, h as int, w as int),
            forall|i: int, j: int, d: int|
                0 <= i < h && 0 <= j < w && 0 <= d < 4 ==> (#[trigger] t@[i]@[j]@[d]) as int == (if i < y {
                    cut_across_dist(f0, wy as int, wx as int)(i, j, d)
                } else {
                    f0(i, j, d)
                }),
        decreases h - y,
    {
        if y < wy {
            let cur = t[y][wx][0];
            let cap = wy - 1 - y;
            t[y][wx][0] = if cap < cur { cap } else { cur };
        } else {
            let cur = t[y][wx][2];
            let cap = y - wy;
            t[y][wx][2] = if cap < cur { cap } else { cur };
        }
        y += 1;
    }
    assert(table_fn(t@, h as int, w as int) =~= cut_across_dist(f0, wy as int, wx as int));
}

fn cut_along(t: &mut Vec<Vec<[usize; 4]>>, h: usize, w: usize, wy: usize, wx: usize)
    requires
        shaped(old(t)@, h as int, w as int),
        wy < h,
        0 < wx < w,
    ensures
        shaped(final(t)@, h as int, w as int),
        table_fn(final(t)@, h as int, w as int) == cut_along_dist(
            table_fn(old(t)@, h as int, w as int),
            wy as int,
            wx as int,
        ),
{
    let ghost f0 = table_fn(t@, h as int, w as int);
    let mut x: usize = 0;
    while x < w
        invariant
            x <= w,
            wy < h,
            0 < wx < w,
            shaped(t@, h as int, w as int),
            forall|i: int, j: int, d: int|
                0 <= i < h && 0 <= j < w && 0 <= d < 4 ==> (#[trigger] t@[i]@[j]@[d]) as int == (if i == wy && j
                    < x {
                    cut_along_dist(f0, wy as int, wx as int)(i, j, d)
                } else {
                    f0(i, j, d)
                }),
        decreases w - x,
    {
        if x < wx {
            let cur = t[wy][x][1];
            let cap = wx - 1 - x;
            t[wy][x][1] = if cap < cur { cap } else { cur };
        } else {
            let cur = t[wy][x][3];
            let cap = x - wx;
            t[wy][x][3] = if cap < cur { cap } else { cur };
        }
        x += 1;
    }
    assert(table_fn(t@, h as int, w as int) =~= cut_along_dist(f0, wy as int, wx as int));
}

/// Laying the proposed walls never lengthens a slide.
pub proof fn lemma_tentative_bounded(
    t: spec_fn(int, int, int) -> int,
    h: int,
    w: int,
    cy: int,
    cx: int,
    dy: int,
    dx: int,
)
    requires
        bounded(t, h, w),
    ensures
        bounded(tentative(t, h, w, cy, cx, dy, dx), h, w),
{
    let u = tentative(t, h, w, cy, cx, dy, dx);
    assert forall|y: int, x: int| 0 <= y < h && 0 <= x < w implies #[trigger] cell_bounded(u, h, w, y, x) by {
        assert(cell_bounded(t, h, w, y, x));
    }
}

fn all_placed(r: &[Pos; 4], h: usize, w: usize) -> (ok: bool)
    ensures
        ok == placed(r@, h as int, w as int),
{
    let ok = (r[0].y as usize) < h && (r[0].x as usize) < w && (r[1].y as usize) < h && (r[1].x as usize) < w
        && (r[2].y as usize) < h && (r[2].x as usize) < w && (r[3].y as usize) < h && (r[3].x as usize) < w;
    proof {
        if !ok {
            assert(r@[0] == r[0] && r@[1] == r[1] && r@[2] == r[2] && r@[3] == r[3]);
        }
    }
    ok
}

/// Decides whether none of the first `n` robots stands on `cell`.
pub fn free_cell(r: &[Pos; 4], n: usize, cell: Pos) -> (free: bool)
    requires
        n <= 4,
    ensures
        free == !r@.subrange(0, n as int).contains(cell),
{
    let mut j: usize = 0;
    while j < n
        invariant
            j <= n <= 4,
            forall|a: int| 0 <= a < j ==> r@[a] != cell,
        decreases n - j,
    {
        if r[j] == cell {
            assert(r@.subrange(0, n as int)[j as int] == cell);
            return false;
        }
        j += 1;
    }
    true
}

fn all_apart(r: &[Pos; 4]) -> (ok: bool)
    ensures
        ok == apart(r@),
{
    r[0] != r[1] && r[0] != r[2] && r[0] != r[3] && r[1] != r[2] && r[1] != r[3] && r[2] != r[3]
}

/// One of the first `n` robots stands on the cell `(y, x)`.
pub open spec fn taken(r: Seq<Pos>, n: int, y: int, x: int) -> bool {
    exists|a: int| 0 <= a < n && (#[trigger] r[a]).y == y && r[a].x == x
}

/// A board of four cells or more has a cell on which none of three robots
/// stands.
proof fn lemma_room(h: int, w: int, r: Seq<Pos>, n: int)
    requires
        0 < h,
        0 < w,
        h * w >= 4,
        0 <= n <= 3,
    ensures
        exists|y: int, x: int| 0 <= y < h && 0 <= x < w && !#[trigger] taken(r, n, y, x),
{
    let c: Seq<(int, int)> = if w >= 4 {
        seq![(0int, 0int), (0int, 1int), (0int, 2int), (0int, 3int)]
    } else if h >= 4 {
        seq![(0int, 0int), (1int, 0int), (2int, 0int), (3int, 0int)]
    } else {
        assert(h >= 2 && w >= 2) by (nonlinear_arith)
            requires
                0 < h < 4,
                0 < w < 4,
                h * w >= 4,
        ;
        seq![(0int, 0int), (0int, 1int), (1int, 0int), (1int, 1int)]
    };
    assert(forall|k: int| 0 <= k < 4 ==> 0 <= (#[trigger] c[k]).0 < h && 0 <= c[k].1 < w);
    assert(forall|j: int, k: int| 0 <= j < k < 4 ==> c[j] != c[k]);
    if taken(r, n, c[0].0, c[0].1) && taken(r, n, c[1].0, c[1].1) && taken(r, n, c[2].0, c[2].1) && taken(
        r,
        n,
        c[3].0,
        c[3].1,
    ) {
        let a0 = choose|a: int| 0 <= a < n && (#[trigger] r[a]).y == c[0].0 && r[a].x == c[0].1;
        let a1 = choose|a: int| 0 <= a < n && (#[trigger] r[a]).y == c[1].0 && r[a].x == c[1].1;
        let a2 = choose|a: int| 0 <= a < n && (#[trigger] r[a]).y == c[2].0 && r[a].x == c[2].1;
        let a3 = choose|a: int| 0 <= a < n && (#[trigger] r[a]).y == c[3].0 && r[a].x == c[3].1;
        assert(a0 == a1 || a0 == a2 || a0 == a3 || a1 == a2 || a1 == a3 || a2 == a3);
        assert(false);
    } else if !taken(r, n, c[0].0, c[0].1) {
        assert(0 <= c[0].0 < h && 0 <= c[0].1 < w);
    } else if !taken(r, n, c[1].0, c[1].1) {
        assert(0 <= c[1].0 < h && 0 <= c[1].1 < w);
    } else if !taken(r, n, c[2].0, c[2].1) {
        assert(0 <= c[2].0 < h && 0 <= c[2].1 < w);
    } else {
        assert(0 <= c[3].0 < h && 0 <= c[3].1 < w);
    }
}

/// The robots placed so far are the first `n`; they stand on the board, on
/// different cells, and they are what the cells `cells` give.
pub open spec fn seated(r: Seq<Pos>, n: int, h: int, w: int, cells: Seq<Pos>) -> bool {
    &&& r.len() == 4
    &&& 0 <= n <= 4
    &&& settle(cells) == r.subrange(0, n)
    &&& forall|k: int| 0 <= k < cells.len() ==> (#[trigger] cells[k]).y < h && cells[k].x < w
    &&& forall|a: int| 0 <= a < n ==> (#[trigger] r[a]).y < h && r[a].x < w
    &&& forall|a: int, c: int| 0 <= a < c < n ==> r[a] != r[c]
}

/// Offers the cell `tp` to the next robot: it takes the cell unless one of
/// the `n` robots placed before stands there.
fn seat(robots: &mut [Pos; 4], n: usize, tp: Pos, Ghost(h): Ghost<int>, Ghost(w): Ghost<int>, Ghost(cells): Ghost<
    Seq<Pos>,
>) -> (m: usize)
    requires
        n < 4,
        tp.y < h,
        tp.x < w,
        seated(old(robots)@, n as int, h, w, cells),
    ensures
        m == n || m == n + 1,
        seated(final(robots)@, m as int, h, w, cells.push(tp)),
        taken(final(robots)@, m as int, tp.y as int, tp.x as int),
        forall|a: int| 0 <= a < n ==> final(robots)@[a] == old(robots)@[a],
{
    let ghost before = robots@;
    let free = free_cell(robots, n, tp);
    let mut m = n;
    if free {
        robots[n] = tp;
        m = n + 1;
    }
    proof {
        let next = cells.push(tp);
        assert(next.drop_last() =~= cells);
        if free {
            assert forall|a: int| 0 <= a < n implies before[a] != tp by {
                assert(before.subrange(0, n as int)[a] == before[a]);
            }
            assert(robots@.subrange(0, m as int) =~= before.subrange(0, n as int).push(tp));
            assert(robots@[n as int] == tp);
        } else {
            let k = choose|k: int| 0 <= k < n && before.subrange(0, n as int)[k] == tp;
            assert(before[k] == tp);
        }
    }
    m
}

/// Seats the robots that are not placed yet on the first free cells of the
/// board, row by row.
fn seat_rest(robots: &mut [Pos; 4], n: usize, h: usize, w: usize, Ghost(cells): Ghost<Seq<Pos>>) -> (all: Ghost<
    Seq<Pos>,
>)
    requires
        0 < h <= 255,
        0 < w <= 255,
        h * w >= 4,
        seated(old(robots)@, n as int, h as int, w as int, cells),
    ensures
        seated(final(robots)@, 4, h as int, w as int, all@),
{
    let mut i = n;
    let ghost mut cs = cells;
    let mut y: usize = 0;
    while y < h && i < 4
        invariant
            y <= h,
            0 < h <= 255,
            0 < w <= 255,
            h * w >= 4,
            seated(robots@, i as int, h as int, w as int, cs),
            i < 4 ==> forall|cy: int, cx: int| 0 <= cy < y && 0 <= cx < w ==> #[trigger] taken(robots@, i as int, cy, cx),
        decreases h - y,
    {
        let mut x: usize = 0;
        while x < w && i < 4
            invariant
                y < h,
                x <= w,
                0 < h <= 255,
                0 < w <= 255,
                seated(robots@, i as int, h as int, w as int, cs),
                i < 4 ==> forall|cy: int, cx: int|
                    0 <= cy < y && 0 <= cx < w ==> #[trigger] taken(robots@, i as int, cy, cx),
                i < 4 ==> forall|cx: int| 0 <= cx < x ==> #[trigger] taken(robots@, i as int, y as int, cx),
            decreases w - x,
        {
            let ghost before = robots@;
            let ghost i0 = i;
            let tp = Pos { y: y as u8, x: x as u8 };
            i = seat(robots, i, tp, Ghost(h as int), Ghost(w as int), Ghost(cs));
            proof {
                cs = cs.push(tp);
                assert forall|cy: int, cx: int| taken(before, i0 as int, cy, cx) implies taken(
                    robots@,
                    i as int,
                    cy,
                    cx,
                ) by {
                    let a = choose|a: int| 0 <= a < i0 && (#[trigger] before[a]).y == cy && before[a].x == cx;
                    assert(robots@[a] == before[a]);
                }
                assert forall|cx: int| 0 <= cx < x + 1 implies #[trigger] taken(robots@, i as int, y as int, cx) by {
                    if cx < x {
                        assert(taken(before, i0 as int, y as int, cx));
                    }
                }
                assert forall|cy: int, cx: int| 0 <= cy < y && 0 <= cx < w implies #[trigger] taken(
                    robots@,
                    i as int,
                    cy,
                    cx,
                ) by {
                    assert(taken(before, i0 as int, cy, cx));
                }
            }
            x += 1;
        }
        y += 1;
    }
    proof {
        if i < 4 {
            lemma_room(h as int, w as int, robots@, i as int);
        }
    }
    Ghost(cs)
}

impl Board {
    /// The slide distances as a function of row, column and direction.
    pub open spec fn table(&self) -> spec_fn(int, int, int) -> int {
        table_fn(self.walldist@, self.h as int, self.w as int)
    }

    /// The table has the board's shape, and no slide leaves the board.
    pub open spec fn lattice(&self) -> bool {
        0 < self.h <= 255 && 0 < self.w <= 255 && shaped(self.walldist@, self.h as int, self.w as int)
            && bounded(self.table(), self.h as int, self.w as int)
    }

    /// The table holds the distances of the open board with the recorded
    /// walls laid on it in their order.
    pub open spec fn charted(&self) -> bool {
        self.table() == cut_all(open_dist(self.h as int, self.w as int), self.walls@)
    }

    /// A board that play can start from: a sound table and four robots on
    /// four different cells of it.
    pub open spec fn wf(&self) -> bool {
        self.lattice() && placed(self.robots@, self.h as int, self.w as int) && apart(self.robots@)
    }

    /// Decides whether play can start from this board.
    pub fn is_sound(&self) -> (ok: bool)
        ensures
            ok == self.wf(),
    {
        let h = self.h;
        let w = self.w;
        if h == 0 || w == 0 || h > 255 || w > 255 || self.walldist.len() != h {
            return false;
        }
        let mut y: usize = 0;
        while y < h
            invariant
                y <= h,
                h == self.h,
                w == self.w,
                self.walldist@.len() == h,
                forall|i: int| 0 <= i < y ==> (#[trigger] self.walldist@[i])@.len() == w,
            decreases h - y,
        {
            if self.walldist[y].len() != w {
                return false;
            }
            y += 1;
        }
        y = 0;
        while y < h
            invariant
                y <= h,
                h == self.h,
                w == self.w,
                shaped(self.walldist@, h as int, w as int),
                forall|i: int, j: int|
                    0 <= i < y && 0 <= j < w ==> #[trigger] cell_bounded(self.table(), h as int, w as int, i, j),
            decreases h - y,
        {
            let mut x: usize = 0;
            while x < w
                invariant
                    y < h,
                    x <= w,
                    h == self.h,
                    w == self.w,
                    shaped(self.walldist@, h as int, w as int),
                    forall|j: int| 0 <= j < x ==> #[trigger] cell_bounded(self.table(), h as int, w as int, y as int, j),
                decreases w - x,
            {
                let c = self.walldist[y][x];
                if c[0] > h - 1 - y || c[1] > w - 1 - x || c[2] > y || c[3] > x {
                    assert(!cell_bounded(self.table(), h as int, w as int, y as int, x as int));
                    return false;
                }
                x += 1;
            }
            y += 1;
        }
        all_placed(&self.robots, h, w) && all_apart(&self.robots)
    }

    /// Decides whether the layout is good: every cell can be reached from the
    /// top-left corner, and every cell is blocked in at least two directions.
    pub fn good_board(&self) -> (ok: bool)
        requires
            self.h > 0,
            self.w > 0,
            shaped(self.walldist@, self.h as int, self.w as int),
        ensures
            ok == good(self.table(), self.h as int, self.w as int),
    {
        let seen = flood(&self.walldist, self.h, self.w);
        let mut y: usize = 0;
        while y < self.h
            invariant
                y <= self.h,
                shaped(self.walldist@, self.h as int, self.w as int),
                seen@.len() == self.h,
                forall|i: int| 0 <= i < self.h ==> (#[trigger] seen@[i])@.len() == self.w,
                forall|i: int, j: int|
                    0 <= i < self.h && 0 <= j < self.w ==> (seen@[i]@[j] <==> #[trigger] reachable(
                        self.table(),
                        self.h as int,
                        self.w as int,
                        (i, j),
                    )),
                forall|i: int, j: int|
                    0 <= i < y && 0 <= j < self.w ==> #[trigger] reachable(
                        self.table(),
                        self.h as int,
                        self.w as int,
                        (i, j),
                    ),
                forall|i: int, j: int|
                    0 <= i < y && 0 <= j < self.w ==> #[trigger] blocked_count(self.table(), i, j) >= 2,
            decreases self.h - y,
        {
            let mut x: usize = 0;
            while x < self.w
                invariant
                    y < self.h,
                    x <= self.w,
                    shaped(self.walldist@, self.h as int, self.w as int),
                    seen@.len() == self.h,
                    forall|i: int| 0 <= i < self.h ==> (#[trigger] seen@[i])@.len() == self.w,
                    forall|i: int, j: int|
                        0 <= i < self.h && 0 <= j < self.w ==> (seen@[i]@[j] <==> #[trigger] reachable(
                            self.table(),
                            self.h as int,
                            self.w as int,
                            (i, j),
                        )),
                    forall|j: int|
                        0 <= j < x ==> #[trigger] reachable(
                            self.table(),
                            self.h as int,
                            self.w as int,
                            (y as int, j),
                        ),
                    forall|j: int| 0 <= j < x ==> #[trigger] blocked_count(self.table(), y as int, j) >= 2,
                decreases self.w - x,
            {
                if !seen[y][x] {
                    assert(!reachable(self.table(), self.h as int, self.w as int, (y as int, x as int)));
                    return false;
                }
                let c = self.walldist[y][x];
                let mut n: usize = 0;
                if c[0] == 0 {
                    n += 1;
                }
                if c[1] == 0 {
                    n += 1;
                }
                if c[2] == 0 {
                    n += 1;
                }
                if c[3] == 0 {
                    n += 1;
                }
                assert(n == blocked_count(self.table(), y as int, x as int));
                if n < 2 {
                    return false;
                }
                x += 1;
            }
            y += 1;
        }
        true
    }

    /// One attempt to add walls at the anchor cell `(cy, cx)`: a wall across
    /// the anchor's column at row `cy + dy`, and a wall along the anchor's row
    /// at column `cx + dx`, each only where it lies strictly inside the board.
    /// Both are kept if the layout with them is good; otherwise the table is
    /// as it was and no wall is recorded.
    pub fn try_walls(&mut self, cy: usize, cx: usize, dy: usize, dx: usize) -> (accepted: bool)
        requires
            old(self).lattice(),
            cy < old(self).h,
            cx < old(self).w,
            dy <= 1,
            dx <= 1,
        ensures
            final(self).lattice(),
            final(self).h == old(self).h,
            final(self).w == old(self).w,
            final(self).robots == old(self).robots,
            accepted == good(
                tentative(old(self).table(), old(self).h as int, old(self).w as int, cy as int, cx as int, dy as int, dx as int),
                old(self).h as int,
                old(self).w as int,
            ),
            accepted ==> final(self).table() == tentative(
                old(self).table(),
                old(self).h as int,
                old(self).w as int,
                cy as int,
                cx as int,
                dy as int,
                dx as int,
            ) && final(self).walls@ == old(self).walls@ + proposed(
                old(self).h as int,
                old(self).w as int,
                cy as int,
                cx as int,
                dy as int,
                dx as int,
            ),
            !accepted ==> final(self).table() == old(self).table() && final(self).walls@ == old(self).walls@,
            old(self).charted() ==> final(self).charted(),
    {
        let h = self.h;
        let w = self.w;
        let ghost t0 = self.table();
        let ghost walls0 = self.walls@;
        let keep = copy_table(&self.walldist, h, w);
        let hy = cy + dy;
        let vx = cx + dx;
        let across = 0 < hy && hy < h;
        let along = 0 < vx && vx < w;
        if across {
            cut_across(&mut self.walldist, h, w, hy, cx);
        }
        if along {
            cut_along(&mut self.walldist, h, w, cy, vx);
        }
        proof {
            lemma_tentative_bounded(t0, h as int, w as int, cy as int, cx as int, dy as int, dx as int);
            lemma_cut_all_proposed(
                open_dist(h as int, w as int),
                walls0,
                h as int,
                w as int,
                cy as int,
                cx as int,
                dy as int,
                dx as int,
            );
        }
        if self.good_board() {
            if across {
                self.walls.push(WallPos { y: hy as u8, x: cx as u8, d: 0 });
            }
            if along {
                self.walls.push(WallPos { y: cy as u8, x: vx as u8, d: 1 });
            }
            assert(self.walls@ =~= walls0 + proposed(
                h as int,
                w as int,
                cy as int,
                cx as int,
                dy as int,
                dx as int,
            ));
            true
        } else {
            self.walldist = keep;
            false
        }
    }

    /// A board without walls, with the robots on the given cells. It exists
    /// where the sides are between 1 and 255 and the robots stand on four
    /// different cells of the board.
    pub fn unwalled(h: usize, w: usize, robots: [Pos; 4]) -> (r: Option<Board>)
        ensures
            r is Some <==> 0 < h <= 255 && 0 < w <= 255 && placed(robots@, h as int, w as int) && apart(
                robots@,
            ),
            r matches Some(b) ==> b.wf() && b.h == h && b.w == w && b.robots == robots && b.walls@.len() == 0
                && b.table() == open_dist(h as int, w as int) && b.charted(),
    {
        if h == 0 || w == 0 || h > 255 || w > 255 {
            return None;
        }
        if !all_placed(&robots, h, w) || !all_apart(&robots) {
            return None;
        }
        let b = Board { w, h, walls: Vec::new(), walldist: open_table(h, w), robots };
        proof {
            assert forall|y: int, x: int| 0 <= y < h && 0 <= x < w implies #[trigger] cell_bounded(
                b.table(),
                h as int,
                w as int,
                y,
                x,
            ) by {}
        }
        Some(b)
    }

    /// Generates a board of `board_h` rows and `board_w` columns: `wall_num`
    /// attempts to add walls at random anchors, then four robots on random
    /// cells, each drawn again while it falls on a robot placed before it.
    ///
    /// There is a board unless a side is 0 or above 255 or the board has
    /// fewer than four cells. The draws for the robots are bounded in number;
    /// should they run out before four cells are found, the robots still to
    /// place are offered the cells of the board row by row. The board is the
    /// one that the anchors and the cells offered determine.
    pub fn new(board_h: usize, board_w: usize, rng: Xorshift128, wall_num: usize) -> (r: Option<Board>)
        ensures
            r is Some <==> 0 < board_h <= 255 && 0 < board_w <= 255 && board_h * board_w >= 4,
            r matches Some(b) ==> {
                &&& b.wf()
                &&& b.h == board_h
                &&& b.w == board_w
                &&& b.walls@.len() <= 2 * wall_num
                &&& exists|draws: Seq<(int, int, int, int)>, cells: Seq<Pos>| #[trigger]
                    drawn(b, wall_num as int, draws, cells)
                &&& b.charted()
                &&& connected(b.table(), board_h as int, board_w as int)
                &&& b.walls@.len() > 0 ==> hemmed(b.table(), board_h as int, board_w as int)
                &&& b.walls@.len() == 0 ==> b.table() == open_dist(board_h as int, board_w as int)
            },
    {
        let mut rng = rng;
        if board_h == 0 || board_w == 0 || board_h > 255 || board_w > 255 {
            return None;
        }
        assert(board_h * board_w <= 255 * 255) by (nonlinear_arith)
            requires
                0 < board_h <= 255,
                0 < board_w <= 255,
        ;
        if board_h * board_w < 4 {
            return None;
        }
        let mut b = Board {
            w: board_w,
            h: board_h,
            walls: Vec::new(),
            walldist: open_table(board_h, board_w),
            robots: [Pos { y: 0, x: 0 };4],
        };
        proof {
            assert forall|y: int, x: int| 0 <= y < board_h && 0 <= x < board_w implies #[trigger] cell_bounded(
                b.table(),
                board_h as int,
                board_w as int,
                y,
                x,
            ) by {}
        }
        let ghost mut draws: Seq<(int, int, int, int)> = Seq::empty();
        let mut k: usize = 0;
        while k < wall_num
            invariant
                k <= wall_num,
                draws.len() == k,
                draws_fit(board_h as int, board_w as int, draws),
                attempts(board_h as int, board_w as int, draws).0 == b.table(),
                attempts(board_h as int, board_w as int, draws).1 == b.walls@,
                b.lattice(),
                b.h == board_h,
                b.w == board_w,
                b.walls@.len() <= 2 * k,
                b.charted(),
                b.walls@.len() > 0 ==> good(b.table(), board_h as int, board_w as int),
                b.walls@.len() == 0 ==> b.table() == open_dist(board_h as int, board_w as int),
            decreases wall_num - k,
        {
            let cy = draw_below(&mut rng, board_h);
            let cx = draw_below(&mut rng, board_w);
            let dy = draw_below(&mut rng, 2);
            let dx = draw_below(&mut rng, 2);
            b.try_walls(cy, cx, dy, dx);
            proof {
                let next = draws.push((cy as int, cx as int, dy as int, dx as int));
                assert(next.drop_last() =~= draws);
                draws = next;
            }
            k += 1;
        }
        proof {
            if b.walls@.len() == 0 {
                assert forall|y: int, x: int| 0 <= y < board_h && 0 <= x < board_w implies #[trigger] reachable(
                    b.table(),
                    board_h as int,
                    board_w as int,
                    (y, x),
                ) by {
                    lemma_open_connected(board_h as int, board_w as int, y, x);
                }
            }
        }
        let mut robots: [Pos; 4] = [Pos { y: 0, x: 0 };4];
        let mut i: usize = 0;
        let mut tries: u64 = u64::MAX;
        let ghost mut cells: Seq<Pos> = Seq::empty();
        proof {
            assert(robots@.subrange(0, 0) =~= settle(cells));
        }
        while i < 4 && tries > 0
            invariant
                0 < board_h <= 255,
                0 < board_w <= 255,
                seated(robots@, i as int, board_h as int, board_w as int, cells),
            decreases tries,
        {
            tries -= 1;
            let y = draw_below(&mut rng, board_h);
            let x = draw_below(&mut rng, board_w);
            let tp = Pos { y: y as u8, x: x as u8 };
            i = seat(&mut robots, i, tp, Ghost(board_h as int), Ghost(board_w as int), Ghost(cells));
            proof {
                cells = cells.push(tp);
            }
        }
        let all = seat_rest(&mut robots, i, board_h, board_w, Ghost(cells));
        b.robots = robots;
        proof {
            assert(robots@.subrange(0, 4) =~= robots@);
            assert(drawn(b, wall_num as int, draws, all@));
        }
        Some(b)
    }
}

} // verus!
