//! A configuration of the four robots during play, and the moves from it.
use crate::board::{apart, min_int, placed, Board};
use crate::grid::{bounded, cell_bounded, dir_dx, dir_dy, Pos};
use crate::log::{log_push, wrap_push};
use vstd::prelude::*;

verus! {

/// The robots' cells on a board, with the log of the moves that led there.
#[derive(Clone, Copy)]
pub struct State<'a> {
    pub bo: &'a Board,
    pub robots: [Pos; 4],
    pub log: u64,
}

/// `q` lies in direction `d` from `p`, on the same row or column.
pub open spec fn ahead(p: Pos, q: Pos, d: int) -> bool {
    if d == 0 {
        q.x == p.x && q.y > p.y
    } else if d == 1 {
        q.y == p.y && q.x > p.x
    } else if d == 2 {
        q.x == p.x && q.y < p.y
    } else {
        q.y == p.y && q.x < p.x
    }
}

/// Number of cells strictly between `p` and `q`, which share a row or column.
pub open spec fn between(p: Pos, q: Pos) -> int {
    (if q.y >= p.y { q.y - p.y } else { p.y - q.y }) + (if q.x >= p.x { q.x - p.x } else { p.x - q.x }) - 1
}

/// A slide of `m` cells from `p` in direction `d`, cut short before `q`
/// where `q` is in the way.
pub open spec fn clamp(m: int, p: Pos, q: Pos, d: int) -> int {
    if ahead(p, q, d) {
        min_int(m, between(p, q))
    } else {
        m
    }
}

/// The slide of robot `i` in direction `d` with only the first `n` robots
/// taken into account.
pub open spec fn slide_upto(t: spec_fn(int, int, int) -> int, r: Seq<Pos>, i: int, d: int, n: nat) -> int
    decreases n,
{
    if n == 0 {
        t(r[i].y as int, r[i].x as int, d)
    } else {
        clamp(slide_upto(t, r, i, d, (n - 1) as nat), r[i], r[n - 1], d)
    }
}

/// Number of cells that robot `i` slides in direction `d`: as far as the
/// walls allow, and not onto or past another robot.
pub open spec fn slide(t: spec_fn(int, int, int) -> int, r: Seq<Pos>, i: int, d: int) -> int {
    slide_upto(t, r, i, d, 4)
}

/// The robots after robot `i` has gone `k` cells in direction `d`.
pub open spec fn moved(r: Seq<Pos>, i: int, d: int, k: int) -> Seq<Pos> {
    r.update(i, Pos { y: (r[i].y + dir_dy(d) * k) as u8, x: (r[i].x + dir_dx(d) * k) as u8 })
}

/// A slide is never longer than the walls allow, and it ends before the
/// nearest robot in its way.
pub proof fn lemma_slide_limits(t: spec_fn(int, int, int) -> int, r: Seq<Pos>, i: int, d: int)
    requires
        r.len() == 4,
        0 <= i < 4,
        0 <= d < 4,
        t(r[i].y as int, r[i].x as int, d) >= 0,
        apart(r),
    ensures
        0 <= slide(t, r, i, d) <= t(r[i].y as int, r[i].x as int, d),
        forall|j: int| 0 <= j < 4 && ahead(r[i], #[trigger] r[j], d) ==> slide(t, r, i, d) <= between(r[i], r[j]),
{
    reveal_with_fuel(slide_upto, 5);
    assert(forall|j: int| 0 <= j < 4 && j != i ==> r[i] != r[j]);
}

/// The cell `s` steps from `p` in direction `d` holds the robot `q`.
pub open spec fn stands_at(q: Pos, p: Pos, d: int, s: int) -> bool {
    q.y == p.y + dir_dy(d) * s && q.x == p.x + dir_dx(d) * s
}

/// A slide passes only over cells without a robot, and it goes on until the
/// walls end it or the next cell holds a robot.
pub proof fn lemma_slide_free_run(t: spec_fn(int, int, int) -> int, r: Seq<Pos>, i: int, d: int)
    requires
        r.len() == 4,
        0 <= i < 4,
        0 <= d < 4,
        t(r[i].y as int, r[i].x as int, d) >= 0,
        apart(r),
    ensures
        forall|j: int, s: int|
            0 <= j < 4 && 1 <= s <= slide(t, r, i, d) ==> !#[trigger] stands_at(r[j], r[i], d, s),
        slide(t, r, i, d) == t(r[i].y as int, r[i].x as int, d) || exists|j: int|
            0 <= j < 4 && stands_at(#[trigger] r[j], r[i], d, slide(t, r, i, d) + 1),
{
    lemma_slide_limits(t, r, i, d);
    let k = slide(t, r, i, d);
    assert forall|j: int, s: int| 0 <= j < 4 && 1 <= s <= k implies !#[trigger] stands_at(r[j], r[i], d, s) by {
        assert(dir_dy(d) * s == if d == 0 { s } else if d == 2 { -s } else { 0 });
        assert(dir_dx(d) * s == if d == 1 { s } else if d == 3 { -s } else { 0 });
        if stands_at(r[j], r[i], d, s) {
            assert(ahead(r[i], r[j], d));
            assert(between(r[i], r[j]) == s - 1);
        }
    }
    if k != t(r[i].y as int, r[i].x as int, d) {
        reveal_with_fuel(slide_upto, 5);
        assert(dir_dy(d) * (k + 1) == if d == 0 { k + 1 } else if d == 2 { -(k + 1) } else { 0 });
        assert(dir_dx(d) * (k + 1) == if d == 1 { k + 1 } else if d == 3 { -(k + 1) } else { 0 });
        let hit = |j: int| ahead(r[i], r[j], d) && between(r[i], r[j]) == k;
        assert(hit(0) || hit(1) || hit(2) || hit(3));
        if hit(0) {
            assert(stands_at(r[0], r[i], d, k + 1));
        } else if hit(1) {
            assert(stands_at(r[1], r[i], d, k + 1));
        } else if hit(2) {
            assert(stands_at(r[2], r[i], d, k + 1));
        } else {
            assert(stands_at(r[3], r[i], d, k + 1));
        }
    }
}

/// A move keeps the robots on the board and on four different cells.
pub proof fn lemma_move_legal(t: spec_fn(int, int, int) -> int, h: int, w: int, r: Seq<Pos>, i: int, d: int)
    requires
        0 < h <= 255,
        0 < w <= 255,
        bounded(t, h, w),
        placed(r, h, w),
        apart(r),
        0 <= i < 4,
        0 <= d < 4,
        t(r[i].y as int, r[i].x as int, d) >= 0,
    ensures
        placed(moved(r, i, d, slide(t, r, i, d)), h, w),
        apart(moved(r, i, d, slide(t, r, i, d))),
        moved(r, i, d, slide(t, r, i, d))[i].y == r[i].y + dir_dy(d) * slide(t, r, i, d),
        moved(r, i, d, slide(t, r, i, d))[i].x == r[i].x + dir_dx(d) * slide(t, r, i, d),
{
    lemma_slide_limits(t, r, i, d);
    let k = slide(t, r, i, d);
    let n = moved(r, i, d, k);
    assert(cell_bounded(t, h, w, r[i].y as int, r[i].x as int));
    assert(dir_dy(d) * k == if d == 0 { k } else if d == 2 { -k } else { 0 });
    assert(dir_dx(d) * k == if d == 1 { k } else if d == 3 { -k } else { 0 });
    assert forall|a: int, b: int| 0 <= a < b < 4 implies n[a] != n[b] by {
        assert(r[a] != r[b]);
        if a == i {
            assert(ahead(r[i], r[b], d) ==> k <= between(r[i], r[b]));
        } else if b == i {
            assert(ahead(r[i], r[a], d) ==> k <= between(r[i], r[a]));
        }
    }
}

/// The states that follow from the first `n` pairs of robot and direction,
/// robots in turn and for each robot the directions in turn: the robots'
/// cells after each legal move, with the log after it.
pub open spec fn successors_upto(t: spec_fn(int, int, int) -> int, r: Seq<Pos>, log: u64, n: nat) -> Seq<
    (Seq<Pos>, u64),
>
    decreases n,
{
    if n == 0 {
        Seq::<(Seq<Pos>, u64)>::empty()
    } else {
        let prev = successors_upto(t, r, log, (n - 1) as nat);
        let i = (n - 1) / 4;
        let d = (n - 1) % 4;
        let k = slide(t, r, i, d);
        if k == 0 {
            prev
        } else {
            prev.push((moved(r, i, d, k), wrap_push(log, i as usize, d as usize)))
        }
    }
}

/// The robots after robot `i` has made its slide in direction `d`.
pub open spec fn after(t: spec_fn(int, int, int) -> int, r: Seq<Pos>, i: int, d: int) -> Seq<Pos> {
    moved(r, i, d, slide(t, r, i, d))
}

/// Every legal move of a robot in a direction is among the successors.
pub proof fn lemma_move_successor(t: spec_fn(int, int, int) -> int, r: Seq<Pos>, log: u64, n: nat, i: int, d: int) -> (k: int)
    requires
        0 <= i < 4,
        0 <= d < 4,
        4 * i + d < n <= 16,
        slide(t, r, i, d) != 0,
    ensures
        0 <= k < successors_upto(t, r, log, n).len(),
        successors_upto(t, r, log, n)[k] == (after(t, r, i, d), wrap_push(log, i as usize, d as usize)),
    decreases n,
{
    let prev = successors_upto(t, r, log, (n - 1) as nat);
    if n - 1 == 4 * i + d {
        assert((n - 1) / 4 == i && (n - 1) % 4 == d);
        prev.len() as int
    } else {
        lemma_move_successor(t, r, log, (n - 1) as nat, i, d)
    }
}

/// Every successor comes from a legal move of one robot in one direction.
pub proof fn lemma_successor_move(t: spec_fn(int, int, int) -> int, r: Seq<Pos>, log: u64, n: nat, k: int) -> (m: (
    int,
    int,
))
    requires
        n <= 16,
        0 <= k < successors_upto(t, r, log, n).len(),
    ensures
        0 <= m.0 < 4,
        0 <= m.1 < 4,
        slide(t, r, m.0, m.1) != 0,
        successors_upto(t, r, log, n)[k] == (
            moved(r, m.0, m.1, slide(t, r, m.0, m.1)),
            wrap_push(log, m.0 as usize, m.1 as usize),
        ),
    decreases n,
{
    let prev = successors_upto(t, r, log, (n - 1) as nat);
    let i = (n - 1) / 4;
    let d = (n - 1) % 4;
    if slide(t, r, i, d) != 0 && k == prev.len() {
        (i, d)
    } else {
        lemma_successor_move(t, r, log, (n - 1) as nat, k)
    }
}

impl<'a> State<'a> {
    /// The board is sound and the robots stand on four different cells of it.
    pub open spec fn wf(&self) -> bool {
        self.bo.lattice() && placed(self.robots@, self.bo.h as int, self.bo.w as int) && apart(self.robots@)
    }

    /// The state that play starts from: the board's robots and an empty log.
    pub fn init_state(bo: &'a Board) -> (s: State<'a>)
        requires
            bo.wf(),
        ensures
            s.wf(),
            s.bo == bo,
            s.robots == bo.robots,
            s.log == 1,
    {
        State { bo, robots: bo.robots, log: 1 }
    }

    /// Slides robot `robot_index` in direction `robot_dir` until a wall or a
    /// robot stops it. There is no move where it cannot leave its cell.
    pub fn move_to(&self, robot_index: usize, robot_dir: usize) -> (r: Option<State<'a>>)
        requires
            self.wf(),
            robot_index < 4,
            robot_dir < 4,
        ensures
            r is None <==> slide(self.bo.table(), self.robots@, robot_index as int, robot_dir as int) == 0,
            r matches Some(s) ==> s.wf() && s.bo == self.bo && s.robots@ == moved(
                self.robots@,
                robot_index as int,
                robot_dir as int,
                slide(self.bo.table(), self.robots@, robot_index as int, robot_dir as int),
            ) && s.log == wrap_push(self.log, robot_index, robot_dir),
    {
        let p = self.robots[robot_index];
        let ghost t = self.bo.table();
        let ghost rs = self.robots@;
        let mut mind: usize = self.bo.walldist[p.y as usize][p.x as usize][robot_dir];
        let mut j: usize = 0;
        while j < 4
            invariant
                j <= 4,
                robot_index < 4,
                robot_dir < 4,
                rs == self.robots@,
                p == rs[robot_index as int],
                mind == slide_upto(t, rs, robot_index as int, robot_dir as int, j as nat),
            decreases 4 - j,
        {
            let q = self.robots[j];
            let in_way = if robot_dir == 0 {
                q.x == p.x && q.y > p.y
            } else if robot_dir == 1 {
                q.y == p.y && q.x > p.x
            } else if robot_dir == 2 {
                q.x == p.x && q.y < p.y
            } else {
                q.y == p.y && q.x < p.x
            };
            if in_way {
                let gap: usize = if robot_dir == 0 {
                    (q.y - p.y - 1) as usize
                } else if robot_dir == 1 {
                    (q.x - p.x - 1) as usize
                } else if robot_dir == 2 {
                    (p.y - q.y - 1) as usize
                } else {
                    (p.x - q.x - 1) as usize
                };
                if gap < mind {
                    mind = gap;
                }
            }
            j += 1;
        }
        proof {
            lemma_move_legal(t, self.bo.h as int, self.bo.w as int, rs, robot_index as int, robot_dir as int);
        }
        if mind == 0 {
            return None;
        }
        let np = if robot_dir == 0 {
            Pos { y: (p.y as usize + mind) as u8, x: p.x }
        } else if robot_dir == 1 {
            Pos { y: p.y, x: (p.x as usize + mind) as u8 }
        } else if robot_dir == 2 {
            Pos { y: (p.y as usize - mind) as u8, x: p.x }
        } else {
            Pos { y: p.y, x: (p.x as usize - mind) as u8 }
        };
        let mut robots = self.robots;
        robots[robot_index] = np;
        let s = State { bo: self.bo, robots, log: log_push(self.log, robot_index, robot_dir) };
        assert(s.robots@ =~= moved(rs, robot_index as int, robot_dir as int, mind as int));
        Some(s)
    }

    /// All legal moves from this state, robots in turn and for each robot the
    /// directions in turn.
    pub fn enumerate_states(&self) -> (res: Vec<State<'a>>)
        requires
            self.wf(),
        ensures
            res@.len() == successors_upto(self.bo.table(), self.robots@, self.log, 16).len(),
            forall|k: int|
                0 <= k < res@.len() ==> (#[trigger] res@[k]).wf() && res@[k].bo == self.bo && (
                    res@[k].robots@,
                    res@[k].log,
                ) == successors_upto(self.bo.table(), self.robots@, self.log, 16)[k],
    {
        let mut res: Vec<State<'a>> = Vec::with_capacity(16);
        let mut n: usize = 0;
        while n < 16
            invariant
                n <= 16,
                self.wf(),
                res@.len() == successors_upto(self.bo.table(), self.robots@, self.log, n as nat).len(),
                forall|k: int|
                    0 <= k < res@.len() ==> (#[trigger] res@[k]).wf() && res@[k].bo == self.bo && (
                        res@[k].robots@,
                        res@[k].log,
                    ) == successors_upto(self.bo.table(), self.robots@, self.log, n as nat)[k],
            decreases 16 - n,
        {
            let i = n / 4;
            let d = n % 4;
            if let Some(ts) = self.move_to(i, d) {
                res.push(ts);
            }
            n += 1;
        }
        res
    }
}

} // verus!
