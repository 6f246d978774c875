//! Breadth-first search over the robots' configurations for a pattern, a
//! robot on a cell, that takes many moves to reach.
use crate::board::{placed, Board};
use crate::grid::{
    blank_grid, grid_count, lemma_grid_count_full, lemma_grid_count_row, lemma_row_count_mark, Pos,
};
use crate::log::{
    cap, decode, lemma_cap_bound, lemma_decode_push, lemma_wrap_push_exact, log_decode, moves_valid,
    wrap_push, Move,
};
use crate::state::{
    after, lemma_move_successor, lemma_successor_move, moved, slide, successors_upto, State,
};
use std::collections::HashSet;
use std::collections::VecDeque;
use vstd::prelude::*;

verus! {

broadcast use vstd::std_specs::hash::group_hash_axioms;

/// The robots after one move, where the move is legal.
pub open spec fn step(t: spec_fn(int, int, int) -> int, r: Seq<Pos>, m: Move) -> Option<Seq<Pos>> {
    if m.c < 4 && m.d < 4 && slide(t, r, m.c as int, m.d as int) != 0 {
        Some(moved(r, m.c as int, m.d as int, slide(t, r, m.c as int, m.d as int)))
    } else {
        None
    }
}

/// The robots after the moves `ms`, which are listed latest first, are played
/// from `start`; nothing where one of them is not legal.
pub open spec fn replay(t: spec_fn(int, int, int) -> int, start: Seq<Pos>, ms: Seq<Move>) -> Option<Seq<Pos>>
    decreases ms.len(),
{
    if ms.len() == 0 {
        Some(start)
    } else {
        match replay(t, start, ms.drop_first()) {
            Some(r) => step(t, r, ms[0]),
            None => None,
        }
    }
}

/// Playing `ms` from `start` is legal and leaves robot `c` on cell `p`.
pub open spec fn arrives(t: spec_fn(int, int, int) -> int, start: Seq<Pos>, ms: Seq<Move>, c: int, p: Pos) -> bool {
    match replay(t, start, ms) {
        Some(r) => 0 <= c < 4 && r[c] == p,
        None => false,
    }
}

/// The log holds `n` moves, none lost, and playing them from the board's
/// start gives `robots`.
pub open spec fn traced(bo: &Board, robots: Seq<Pos>, log: u64, n: nat) -> bool {
    1 <= log < cap(n) && decode(log as nat).len() == n && replay(bo.table(), bo.robots@, decode(log as nat))
        == Some(robots)
}

/// The number that stands for a configuration in the set of those seen.
pub open spec fn key_of(r: Seq<Pos>) -> int {
    ((((((r[0].y * 256 + r[0].x) * 256 + r[1].y) * 256 + r[1].x) * 256 + r[2].y) * 256 + r[2].x) * 256
        + r[3].y) * 256 + r[3].x
}

/// Two configurations with the same key are the same configuration.
pub proof fn lemma_key_unique(a: Seq<Pos>, b: Seq<Pos>)
    requires
        a.len() == 4,
        b.len() == 4,
        key_of(a) == key_of(b),
    ensures
        a == b,
{
    assert(a[3].x == b[3].x);
    assert(a[3].y == b[3].y);
    assert(a[2].x == b[2].x);
    assert(a[2].y == b[2].y);
    assert(a[1].x == b[1].x);
    assert(a[1].y == b[1].y);
    assert(a[0].x == b[0].x);
    assert(a[0].y == b[0].y);
    assert(a =~= b);
}

fn config_key(r: &[Pos; 4]) -> (k: u64)
    ensures
        k == key_of(r@),
{
    let mut k: u64 = 0;
    let mut i: usize = 0;
    let ghost mut bound: int = 1;
    while i < 4
        invariant
            i <= 4,
            k < bound,
            bound == (if i == 0 { 1int } else if i == 1 { 0x1_0000 } else if i == 2 { 0x1_0000_0000 } else if i == 3 { 0x1_0000_0000_0000 } else { 0x1_0000_0000_0000_0000 }),
            k == (if i == 0 { 0int } else if i == 1 { r@[0].y * 256 + r@[0].x } else if i == 2 { ((r@[0].y * 256 + r@[0].x) * 256 + r@[1].y) * 256 + r@[1].x } else if i == 3 { ((((r@[0].y * 256 + r@[0].x) * 256 + r@[1].y) * 256 + r@[1].x) * 256 + r@[2].y) * 256 + r@[2].x } else { key_of(r@) }),
        decreases 4 - i,
    {
        k = (k * 256 + r[i].y as u64) * 256 + r[i].x as u64;
        i += 1;
        proof {
            bound = bound * 0x1_0000;
        }
    }
    k
}

/// A legal move from a traced configuration gives a traced configuration
/// with one move more, as long as the log has room for it.
pub proof fn lemma_traced_step(bo: &Board, r: Seq<Pos>, log: u64, n: nat, i: int, d: int)
    requires
        traced(bo, r, log, n),
        n <= 14,
        0 <= i < 4,
        0 <= d < 4,
        slide(bo.table(), r, i, d) != 0,
    ensures
        traced(bo, moved(r, i, d, slide(bo.table(), r, i, d)), wrap_push(log, i as usize, d as usize), n + 1),
{
    lemma_cap_bound(n);
    lemma_wrap_push_exact(log, i as usize, d as usize);
    lemma_decode_push(log as nat, i as nat, d as nat);
    let log2 = wrap_push(log, i as usize, d as usize);
    let ms2 = decode(log2 as nat);
    assert(ms2.drop_first() =~= decode(log as nat));
    assert(ms2[0] == Move { c: i as usize, d: d as usize });
}

/// What holds of a state that waits in the queue at depth `level`.
pub open spec fn item_ok(bo: &Board, s: State, level: int) -> bool {
    s.wf() && s.bo == bo && (0 <= level <= 15 ==> traced(bo, s.robots@, s.log, level as nat))
}

/// The queue's entry is a state, and it may wait at depth `level`.
pub open spec fn slot_ok(bo: &Board, o: Option<State>, level: int) -> bool {
    o is Some && item_ok(bo, o->0, level)
}

/// The queue holds one marker, at `mark`; the states before it wait at
/// `depth`, those after it one deeper.
pub open spec fn queue_ok(bo: &Board, q: Seq<Option<State>>, mark: int, depth: int) -> bool {
    0 <= mark < q.len() && q[mark] is None && forall|i: int|
        0 <= i < q.len() && i != mark ==> slot_ok(bo, #[trigger] q[i], if i < mark { depth } else { depth + 1 })
}

/// Some state among the first `n` entries of the queue holds the robots `r`.
pub open spec fn queued_upto(q: Seq<Option<State>>, n: int, r: Seq<Pos>) -> bool {
    exists|j: int| 0 <= j < n && j < q.len() && (#[trigger] q[j]) is Some && q[j]->0.robots@ == r
}

/// Every configuration that fewer than `depth` moves lead to has been visited.
pub open spec fn layers_done(
    t: spec_fn(int, int, int) -> int,
    start: Seq<Pos>,
    seen: Set<Seq<Pos>>,
    depth: int,
) -> bool {
    forall|ms: Seq<Move>|
        ms.len() < depth && (#[trigger] replay(t, start, ms)) is Some ==> seen.contains(replay(t, start, ms)->0)
}

/// Every configuration that exactly `depth` moves lead to has been visited
/// or waits in the queue before the marker.
pub open spec fn layer_open(
    t: spec_fn(int, int, int) -> int,
    start: Seq<Pos>,
    seen: Set<Seq<Pos>>,
    q: Seq<Option<State>>,
    mark: int,
    depth: int,
) -> bool {
    forall|ms: Seq<Move>|
        ms.len() == depth && (#[trigger] replay(t, start, ms)) is Some ==> seen.contains(replay(t, start, ms)->0)
            || queued_upto(q, mark, replay(t, start, ms)->0)
}

/// Every legal move from a visited configuration leads to one that has been
/// visited or waits in the queue.
pub open spec fn closed(t: spec_fn(int, int, int) -> int, seen: Set<Seq<Pos>>, q: Seq<Option<State>>) -> bool {
    forall|v: Seq<Pos>, i: int, d: int|
        seen.contains(v) && 0 <= i < 4 && 0 <= d < 4 && slide(t, v, i, d) != 0 ==> seen.contains(
            #[trigger] after(t, v, i, d),
        ) || queued_upto(q, q.len() as int, after(t, v, i, d))
}

/// The pattern of robot `i` on cell `p` has been found.
pub open spec fn hit(found: Seq<Vec<bool>>, p: Pos, i: int) -> bool {
    found[p.y as int]@[p.x * 4 + i]
}

/// Every visited configuration stands on the board and has its four patterns
/// found.
pub open spec fn seen_ok(seen: Set<Seq<Pos>>, found: Seq<Vec<bool>>, h: int, w: int) -> bool {
    forall|v: Seq<Pos>| #[trigger]
        seen.contains(v) ==> placed(v, h, w) && hit(found, v[0], 0) && hit(found, v[1], 1) && hit(
            found,
            v[2],
            2,
        ) && hit(found, v[3], 3)
}

/// `k` is the key of a visited configuration.
pub open spec fn key_known(seen: Set<Seq<Pos>>, k: u64) -> bool {
    exists|v: Seq<Pos>| #[trigger] seen.contains(v) && key_of(v) == k
}

/// No way of fewer than `n` moves brings robot `c` onto cell `p`.
pub open spec fn no_shorter(t: spec_fn(int, int, int) -> int, start: Seq<Pos>, c: int, p: Pos, n: int) -> bool {
    forall|ms: Seq<Move>|
        ms.len() < n && (#[trigger] replay(t, start, ms)) is Some ==> replay(t, start, ms)->0[c] != p
}

/// Some way of at most `n` moves brings robot `c` onto cell `p`.
pub open spec fn within(t: spec_fn(int, int, int) -> int, start: Seq<Pos>, c: int, p: Pos, n: int) -> bool {
    exists|ms: Seq<Move>| ms.len() <= n && #[trigger] arrives(t, start, ms, c, p)
}

/// Every pattern on the board that at most `target` moves lead to can be had
/// with at most `depth` moves.
pub open spec fn deepest(
    t: spec_fn(int, int, int) -> int,
    start: Seq<Pos>,
    h: int,
    w: int,
    target: int,
    depth: int,
) -> bool {
    forall|c: int, p: Pos|
        0 <= c < 4 && p.y < h && p.x < w && within(t, start, c, p, target) ==> #[trigger] within(
            t,
            start,
            c,
            p,
            depth,
        )
}

/// Every pattern found can be had with at most `level` moves.
pub open spec fn found_within(
    t: spec_fn(int, int, int) -> int,
    start: Seq<Pos>,
    found: Seq<Vec<bool>>,
    h: int,
    w: int,
    level: int,
) -> bool {
    forall|c: int, p: Pos|
        0 <= c < 4 && p.y < h && p.x < w && #[trigger] hit(found, p, c) ==> within(t, start, c, p, level)
}

/// A pattern that is new in a state at `depth` moves takes `depth` moves;
/// with it marked, the visited configurations keep their marks.
proof fn lemma_discover(
    t: spec_fn(int, int, int) -> int,
    start: Seq<Pos>,
    seen: Set<Seq<Pos>>,
    found0: Seq<Vec<bool>>,
    found1: Seq<Vec<bool>>,
    h: int,
    w: int,
    p: Pos,
    i: int,
    depth: int,
)
    requires
        0 <= i < 4,
        p.y < h,
        p.x < w,
        !hit(found0, p, i),
        forall|q: Pos, c: int|
            0 <= c < 4 && q.y < h && q.x < w ==> (#[trigger] hit(found1, q, c) == (hit(found0, q, c) || (q == p && c
                == i))),
        seen_ok(seen, found0, h, w),
        layers_done(t, start, seen, depth),
    ensures
        seen_ok(seen, found1, h, w),
        no_shorter(t, start, i, p, depth),
{
    assert forall|ms: Seq<Move>| ms.len() < depth && (#[trigger] replay(t, start, ms)) is Some implies replay(
        t,
        start,
        ms,
    )->0[i] != p by {
        let r = replay(t, start, ms)->0;
        assert(seen.contains(r));
        assert(hit(found0, r[i], i));
    }
    assert forall|v: Seq<Pos>| #[trigger] seen.contains(v) implies placed(v, h, w) && hit(found1, v[0], 0) && hit(
        found1,
        v[1],
        1,
    ) && hit(found1, v[2], 2) && hit(found1, v[3], 3) by {
        assert(hit(found0, v[0], 0) && hit(found0, v[1], 1) && hit(found0, v[2], 2) && hit(found0, v[3], 3));
    }
}

/// With one more pattern found, by a way of `depth` moves, every pattern
/// found can be had with at most `depth` moves.
proof fn lemma_found_within(
    t: spec_fn(int, int, int) -> int,
    start: Seq<Pos>,
    found0: Seq<Vec<bool>>,
    found1: Seq<Vec<bool>>,
    h: int,
    w: int,
    p: Pos,
    i: int,
    level: int,
    depth: int,
    ms: Seq<Move>,
)
    requires
        0 <= i < 4,
        level <= depth,
        forall|q: Pos, c: int|
            0 <= c < 4 && q.y < h && q.x < w ==> (#[trigger] hit(found1, q, c) == (hit(found0, q, c) || (q == p && c
                == i))),
        found_within(t, start, found0, h, w, level),
        ms.len() == depth,
        arrives(t, start, ms, i, p),
    ensures
        found_within(t, start, found1, h, w, depth),
{
    assert forall|c: int, q: Pos| 0 <= c < 4 && q.y < h && q.x < w && #[trigger] hit(found1, q, c) implies within(
        t,
        start,
        c,
        q,
        depth,
    ) by {
        if q == p && c == i {
            assert(ms.len() <= depth && arrives(t, start, ms, c, q));
        } else {
            assert(hit(found0, q, c));
            let m2 = choose|m2: Seq<Move>| m2.len() <= level && #[trigger] arrives(t, start, m2, c, q);
            assert(m2.len() <= depth && arrives(t, start, m2, c, q));
        }
    }
}

/// Where every pattern of the board is found, the search is at its deepest.
proof fn lemma_all_found(
    t: spec_fn(int, int, int) -> int,
    start: Seq<Pos>,
    found: Seq<Vec<bool>>,
    h: int,
    w: int,
    target: int,
    level: int,
)
    requires
        found.len() == h,
        forall|y: int| 0 <= y < h ==> (#[trigger] found[y])@.len() == w * 4,
        grid_count(found) >= h * w * 4,
        found_within(t, start, found, h, w, level),
    ensures
        deepest(t, start, h, w, target, level),
{
    assert(h * (w * 4) == h * w * 4) by (nonlinear_arith);
    lemma_grid_count_full(found, w * 4);
    assert forall|c: int, q: Pos| 0 <= c < 4 && q.y < h && q.x < w && within(t, start, c, q, target) implies #[trigger] within(
        t,
        start,
        c,
        q,
        level,
    ) by {
        assert(found[q.y as int]@[q.x * 4 + c]);
        assert(hit(found, q, c));
    }
}

/// Where every configuration within `target` moves is visited, the search
/// is at its deepest.
proof fn lemma_all_visited(
    t: spec_fn(int, int, int) -> int,
    start: Seq<Pos>,
    seen: Set<Seq<Pos>>,
    found: Seq<Vec<bool>>,
    h: int,
    w: int,
    target: int,
    level: int,
)
    requires
        layers_done(t, start, seen, target + 1),
        seen_ok(seen, found, h, w),
        found_within(t, start, found, h, w, level),
    ensures
        deepest(t, start, h, w, target, level),
{
    assert forall|c: int, p: Pos| 0 <= c < 4 && p.y < h && p.x < w && within(t, start, c, p, target) implies #[trigger] within(
        t,
        start,
        c,
        p,
        level,
    ) by {
        let ms = choose|ms: Seq<Move>| ms.len() <= target && #[trigger] arrives(t, start, ms, c, p);
        let r = replay(t, start, ms)->0;
        assert(seen.contains(r));
        assert(hit(found, r[c], c));
    }
}

/// What the search knows after a new pattern, robot `i` of the configuration
/// `r` on its cell, is marked in the table.
proof fn lemma_pattern_new(
    t: spec_fn(int, int, int) -> int,
    start: Seq<Pos>,
    seen: Set<Seq<Pos>>,
    mf: Set<(int, Pos)>,
    found0: Seq<Vec<bool>>,
    found1: Seq<Vec<bool>>,
    h: int,
    w: int,
    r: Seq<Pos>,
    i: int,
    level: int,
    depth: int,
    target: int,
    trail: Seq<Move>,
)
    requires
        0 <= i < 4,
        0 < h,
        0 < w,
        placed(r, h, w),
        found0.len() == h,
        forall|y: int| 0 <= y < h ==> (#[trigger] found0[y])@.len() == w * 4,
        found1.len() == h,
        found1[r[i].y as int]@ == found0[r[i].y as int]@.update(r[i].x * 4 + i, true),
        forall|y: int| 0 <= y < h && y != r[i].y ==> #[trigger] found1[y] == found0[y],
        !hit(found0, r[i], i),
        seen_ok(seen, found0, h, w),
        layers_done(t, start, seen, depth),
        same_found(mf, found0, h, w),
        forall|c: int| 0 <= c < i ==> hit(found0, #[trigger] r[c], c),
        level <= depth,
        target <= 15 ==> found_within(t, start, found0, h, w, level) && trail.len() == depth && arrives(
            t,
            start,
            trail,
            i,
            r[i],
        ),
    ensures
        seen_ok(seen, found1, h, w),
        no_shorter(t, start, i, r[i], depth),
        same_found(mf.insert((i, r[i])), found1, h, w),
        forall|c: int| 0 <= c <= i ==> hit(found1, #[trigger] r[c], c),
        grid_count(found1) == grid_count(found0) + 1,
        forall|y: int| 0 <= y < h ==> (#[trigger] found1[y])@.len() == w * 4,
        target <= 15 ==> found_within(t, start, found1, h, w, depth),
        target <= 15 && (depth >= target || grid_count(found1) >= h * w * 4) ==> deepest(t, start, h, w, target, depth),
{
    let p = r[i];
    assert(found1 =~= found0.update(p.y as int, found1[p.y as int]));
    lemma_row_count_mark(found0[p.y as int]@, p.x * 4 + i);
    lemma_grid_count_row(found0, p.y as int, found1[p.y as int]);
    assert forall|q: Pos, c: int| 0 <= c < 4 && q.y < h && q.x < w implies (#[trigger] hit(found1, q, c) == (hit(
        found0,
        q,
        c,
    ) || (q == p && c == i))) by {}
    lemma_discover(t, start, seen, found0, found1, h, w, p, i, depth);
    assert forall|c: int, q: Pos| 0 <= c < 4 && q.y < h && q.x < w implies (#[trigger] hit(found1, q, c)
        <==> mf.insert((i, p)).contains((c, q))) by {
        assert(hit(found0, q, c) <==> mf.contains((c, q)));
    }
    assert forall|c: int| 0 <= c <= i implies hit(found1, #[trigger] r[c], c) by {
        if c < i {
            assert(hit(found0, r[c], c));
        }
    }
    assert forall|y: int| 0 <= y < h implies (#[trigger] found1[y])@.len() == w * 4 by {
        assert(found0[y]@.len() == w * 4);
    }
    if target <= 15 {
        lemma_found_within(t, start, found0, found1, h, w, p, i, level, depth, trail);
        if depth >= target {
            assert forall|c: int, q: Pos|
                0 <= c < 4 && q.y < h && q.x < w && within(t, start, c, q, target) implies #[trigger] within(
                t,
                start,
                c,
                q,
                depth,
            ) by {
                let ms = choose|ms: Seq<Move>| ms.len() <= target && #[trigger] arrives(t, start, ms, c, q);
                assert(ms.len() <= depth && arrives(t, start, ms, c, q));
            }
        } else if grid_count(found1) >= h * w * 4 {
            lemma_all_found(t, start, found1, h, w, target, depth);
        }
    }
}

proof fn lemma_marker_turn(
    t: spec_fn(int, int, int) -> int,
    start: Seq<Pos>,
    seen: Set<Seq<Pos>>,
    q0: Seq<Option<State>>,
    q1: Seq<Option<State>>,
    depth: int,
)
    requires
        q0.len() > 0,
        q0[0] is None,
        q1 == q0.subrange(1, q0.len() as int).push(None),
        layers_done(t, start, seen, depth),
        layer_open(t, start, seen, q0, 0, depth),
        closed(t, seen, q0),
        depth >= 0,
    ensures
        layers_done(t, start, seen, depth + 1),
        layer_open(t, start, seen, q1, q1.len() - 1, depth + 1),
        closed(t, seen, q1),
{
    assert forall|r: Seq<Pos>| queued_upto(q0, q0.len() as int, r) implies queued_upto(q1, q1.len() - 1, r) by {
        let j = choose|j: int| 0 <= j < q0.len() && (#[trigger] q0[j]) is Some && q0[j]->0.robots@ == r;
        assert(q1[j - 1] == q0[j]);
    }
    assert forall|ms: Seq<Move>| ms.len() < depth + 1 && (#[trigger] replay(t, start, ms)) is Some implies seen.contains(
        replay(t, start, ms)->0,
    ) by {
        if ms.len() == depth {
            assert(!queued_upto(q0, 0, replay(t, start, ms)->0));
        }
    }
    assert forall|ms: Seq<Move>| ms.len() == depth + 1 && (#[trigger] replay(t, start, ms)) is Some implies seen.contains(
        replay(t, start, ms)->0,
    ) || queued_upto(q1, q1.len() - 1, replay(t, start, ms)->0) by {
        let front = ms.drop_first();
        let r1 = replay(t, start, front);
        assert(r1 is Some);
        assert(seen.contains(r1->0));
        let m = ms[0];
        assert(replay(t, start, ms) == step(t, r1->0, m));
        assert(replay(t, start, ms)->0 == after(t, r1->0, m.c as int, m.d as int));
    }
    assert forall|v: Seq<Pos>, i: int, d: int|
        seen.contains(v) && 0 <= i < 4 && 0 <= d < 4 && slide(t, v, i, d) != 0 implies seen.contains(
        #[trigger] after(t, v, i, d),
    ) || queued_upto(q1, q1.len() as int, after(t, v, i, d)) by {
        if !seen.contains(after(t, v, i, d)) {
            assert(queued_upto(q0, q0.len() as int, after(t, v, i, d)));
            assert(queued_upto(q1, q1.len() - 1, after(t, v, i, d)));
        }
    }
}

proof fn lemma_state_turn(
    t: spec_fn(int, int, int) -> int,
    start: Seq<Pos>,
    seen: Set<Seq<Pos>>,
    seen2: Set<Seq<Pos>>,
    q0: Seq<Option<State>>,
    q2: Seq<Option<State>>,
    mark: int,
    depth: int,
)
    requires
        q0.len() > 0,
        q0[0] is Some,
        0 < mark <= q0.len(),
        q2.len() >= q0.len() - 1,
        forall|j: int| 0 <= j < q0.len() - 1 ==> q2[j] == q0[j + 1],
        seen2 == seen.insert(q0[0]->0.robots@),
        layers_done(t, start, seen, depth),
        layer_open(t, start, seen, q0, mark, depth),
        closed(t, seen, q0),
        seen.contains(q0[0]->0.robots@) || forall|i: int, d: int|
            0 <= i < 4 && 0 <= d < 4 && slide(t, q0[0]->0.robots@, i, d) != 0 ==> queued_upto(
                q2,
                q2.len() as int,
                #[trigger] after(t, q0[0]->0.robots@, i, d),
            ),
    ensures
        layers_done(t, start, seen2, depth),
        layer_open(t, start, seen2, q2, mark - 1, depth),
        closed(t, seen2, q2),
{
    let r0 = q0[0]->0.robots@;
    assert forall|r: Seq<Pos>, n: int| 0 <= n <= q0.len() && queued_upto(q0, n, r) implies r == r0 || queued_upto(
        q2,
        n - 1,
        r,
    ) by {
        let j = choose|j: int| 0 <= j < n && j < q0.len() && (#[trigger] q0[j]) is Some && q0[j]->0.robots@ == r;
        if j > 0 {
            assert(q2[j - 1] == q0[j]);
        }
    }
    assert forall|r: Seq<Pos>| queued_upto(q2, q0.len() - 1, r) implies queued_upto(q2, q2.len() as int, r) by {
        let j = choose|j: int| 0 <= j < q0.len() - 1 && j < q2.len() && (#[trigger] q2[j]) is Some && q2[j]->0.robots@ == r;
        assert(q2[j] is Some);
    }
    assert forall|ms: Seq<Move>| ms.len() == depth && (#[trigger] replay(t, start, ms)) is Some implies seen2.contains(
        replay(t, start, ms)->0,
    ) || queued_upto(q2, mark - 1, replay(t, start, ms)->0) by {
        let r = replay(t, start, ms)->0;
        if !seen.contains(r) {
            assert(queued_upto(q0, mark, r));
        }
    }
    assert forall|v: Seq<Pos>, i: int, d: int|
        seen2.contains(v) && 0 <= i < 4 && 0 <= d < 4 && slide(t, v, i, d) != 0 implies seen2.contains(
        #[trigger] after(t, v, i, d),
    ) || queued_upto(q2, q2.len() as int, after(t, v, i, d)) by {
        let r = after(t, v, i, d);
        if seen.contains(v) {
            if !seen.contains(r) {
                assert(queued_upto(q0, q0.len() as int, r));
                if r != r0 {
                    assert(queued_upto(q2, q0.len() - 1, r));
                }
            }
        } else {
            assert(v == r0);
        }
    }
}

/// What a search found.
pub struct Outcome {
    /// The robot of the pattern found last.
    pub robot: usize,
    /// The cell of the pattern found last.
    pub cell: Pos,
    /// The log of the state in which it was found.
    pub log: u64,
    /// The number of moves after which it was found.
    pub depth: usize,
    /// The number of patterns found in all.
    pub patterns: usize,
}

/// The search as a value: the queue of robots and logs with its marker, the
/// configurations visited, the patterns found and their number, the depth,
/// the pattern found last with its log and its depth, and whether the search
/// still runs.
pub struct Probe {
    pub q: Seq<Option<(Seq<Pos>, u64)>>,
    pub seen: Set<Seq<Pos>>,
    pub found: Set<(int, Pos)>,
    pub count: int,
    pub depth: int,
    pub robot: int,
    pub cell: Pos,
    pub log: u64,
    pub level: int,
    pub running: bool,
}

/// The search before its first turn.
pub open spec fn start_probe(robots: Seq<Pos>) -> Probe {
    Probe {
        q: seq![Some((robots, 1u64)), None],
        seen: Set::<Seq<Pos>>::empty(),
        found: Set::<(int, Pos)>::empty(),
        count: 0,
        depth: 0,
        robot: 0,
        cell: robots[0],
        log: 1,
        level: 0,
        running: true,
    }
}

/// Robot `i` of a newly visited configuration is looked at: where its
/// pattern is new it is found, counted and becomes the pattern found last,
/// and the search stops if the depth has come to `target` or all `max`
/// patterns are found.
pub open spec fn note(m: Probe, r: Seq<Pos>, log: u64, i: int, target: int, max: int) -> Probe {
    if m.found.contains((i, r[i])) {
        m
    } else {
        Probe {
            found: m.found.insert((i, r[i])),
            count: m.count + 1,
            robot: i,
            cell: r[i],
            log: log,
            level: m.depth,
            running: !(m.depth >= target || m.count + 1 >= max),
            ..m
        }
    }
}

/// The first `n` robots of a newly visited configuration are looked at in
/// turn, as long as the search runs.
pub open spec fn note_upto(m: Probe, r: Seq<Pos>, log: u64, n: nat, target: int, max: int) -> Probe
    decreases n,
{
    if n == 0 {
        m
    } else {
        let p = note_upto(m, r, log, (n - 1) as nat, target, max);
        if p.running {
            note(p, r, log, n - 1, target, max)
        } else {
            p
        }
    }
}

/// The successors as entries of the queue.
pub open spec fn entries(succ: Seq<(Seq<Pos>, u64)>) -> Seq<Option<(Seq<Pos>, u64)>> {
    Seq::new(succ.len(), |k: int| Some(succ[k]))
}

/// One turn of the search: the front of the queue is taken. The marker ends
/// a layer, and the search where the depth then exceeds `target`. A
/// configuration visited before is dropped. A new one has its robots looked
/// at; unless that stops the search, it is visited and its successors join
/// the queue.
pub open spec fn turn(m: Probe, t: spec_fn(int, int, int) -> int, target: int, max: int) -> Probe {
    if m.q.len() == 0 {
        Probe { running: false, ..m }
    } else {
        let rest = m.q.drop_first();
        match m.q[0] {
            None => if m.depth + 1 > target {
                Probe { q: rest, depth: m.depth + 1, running: false, ..m }
            } else {
                Probe { q: rest.push(None), depth: m.depth + 1, ..m }
            },
            Some(e) => if m.seen.contains(e.0) {
                Probe { q: rest, ..m }
            } else {
                let p = note_upto(Probe { q: rest, ..m }, e.0, e.1, 4, target, max);
                if !p.running {
                    p
                } else {
                    Probe { q: rest + entries(successors_upto(t, e.0, e.1, 16)), seen: m.seen.insert(e.0), ..p }
                }
            },
        }
    }
}

/// The search after `n` turns.
pub open spec fn run(m: Probe, t: spec_fn(int, int, int) -> int, target: int, max: int, n: nat) -> Probe
    decreases n,
{
    if n == 0 {
        m
    } else {
        turn(run(m, t, target, max, (n - 1) as nat), t, target, max)
    }
}

/// The search on the board stops with its `n`th turn, and `out` is what it
/// has then.
pub open spec fn found_by(bo: &Board, target: int, n: nat, out: Outcome) -> bool {
    let m0 = start_probe(bo.robots@);
    let max = bo.h * bo.w * 4;
    let m = run(m0, bo.table(), target, max, n);
    !m.running && (forall|k: nat| k < n ==> (#[trigger] run(m0, bo.table(), target, max, k)).running) && out.robot
        == m.robot && out.cell == m.cell && out.log == m.log && out.depth == m.level && out.patterns == m.count
}

/// A board and a target have one result: two outcomes of the search on them
/// are the same.
pub proof fn lemma_search_unique(bo: &Board, target: int, n1: nat, n2: nat, o1: Outcome, o2: Outcome)
    requires
        found_by(bo, target, n1, o1),
        found_by(bo, target, n2, o2),
    ensures
        o1 == o2,
{
    let m0 = start_probe(bo.robots@);
    let max = bo.h * bo.w * 4;
    if n1 < n2 {
        assert(run(m0, bo.table(), target, max, n1).running);
    } else if n2 < n1 {
        assert(run(m0, bo.table(), target, max, n2).running);
    }
}

/// Once the search has stopped, looking at more robots changes nothing.
proof fn lemma_note_stops(m: Probe, r: Seq<Pos>, log: u64, i: nat, n: nat, target: int, max: int)
    requires
        i <= n,
        !note_upto(m, r, log, i, target, max).running,
    ensures
        note_upto(m, r, log, n, target, max) == note_upto(m, r, log, i, target, max),
    decreases n,
{
    if i < n {
        lemma_note_stops(m, r, log, i, (n - 1) as nat, target, max);
    }
}

/// What stands in the queue, as an entry of the search's value.
pub open spec fn entry_of(o: Option<State>) -> Option<(Seq<Pos>, u64)> {
    match o {
        Some(s) => Some((s.robots@, s.log)),
        None => None,
    }
}

/// The queue holds the entries of the search's value.
pub open spec fn same_queue(mq: Seq<Option<(Seq<Pos>, u64)>>, que: Seq<Option<State>>) -> bool {
    mq.len() == que.len() && forall|j: int| 0 <= j < que.len() ==> entry_of(#[trigger] que[j]) == mq[j]
}

/// The table of patterns holds the patterns of the search's value.
pub open spec fn same_found(mf: Set<(int, Pos)>, found: Seq<Vec<bool>>, h: int, w: int) -> bool {
    forall|c: int, p: Pos| 0 <= c < 4 && p.y < h && p.x < w ==> (#[trigger] hit(found, p, c) <==> mf.contains((c, p)))
}

/// Searches the configurations breadth first, up to `target` moves deep, and
/// returns the pattern, a robot on a cell, that was found last.
///
/// The outcome is that of the search as a value, turn by turn, when it stops.
/// The search goes through the configurations in the order of the number of
/// moves that lead to them, so no shorter way leads to the pattern than the
/// one by which it was found. The log holds up to 15 moves without loss: for
/// a pattern found within 15 moves it holds the moves that were made, each
/// of them legal when they are played from the board's start. With `target`
/// at most 15 the pattern is among the deepest: every pattern that `target`
/// moves can reach can be had with no more moves than this one.
#[verifier::rlimit(100)]
pub fn search<'a>(target: u8, bo: &'a Board) -> (out: Outcome)
    requires
        bo.wf(),
    ensures
        out.robot < 4,
        out.cell.y < bo.h,
        out.cell.x < bo.w,
        out.depth <= target,
        out.patterns <= bo.h * bo.w * 4,
        no_shorter(bo.table(), bo.robots@, out.robot as int, out.cell, out.depth as int),
        out.depth <= 15 ==> decode(out.log as nat).len() == out.depth && arrives(
            bo.table(),
            bo.robots@,
            decode(out.log as nat),
            out.robot as int,
            out.cell,
        ),
        target <= 15 ==> deepest(
            bo.table(),
            bo.robots@,
            bo.h as int,
            bo.w as int,
            target as int,
            out.depth as int,
        ),
        exists|n: nat| #[trigger] found_by(bo, target as int, n, out),
{
    let init = State::init_state(bo);
    let mut res: u64 = init.log;
    let mut goal: (usize, Pos) = (0, init.robots[0]);
    let mut level: usize = 0;
    let mut gone: HashSet<u64> = HashSet::new();
    let mut que: VecDeque<Option<State<'a>>> = VecDeque::new();
    let mut depth: usize = 0;
    que.push_back(Some(init));
    que.push_back(None);
    let ghost mut mark: int = 1;
    let ghost mut seen: Set<Seq<Pos>> = Set::empty();
    let ghost t = bo.table();
    let ghost start = bo.robots@;
    let mut found = blank_grid(bo.h, bo.w * 4);
    let mut found_count: usize = 0;
    assert(bo.h * bo.w * 4 <= 255 * 255 * 4 && bo.h * bo.w >= 1) by (nonlinear_arith)
        requires
            0 < bo.h <= 255,
            0 < bo.w <= 255,
    ;
    let max_pattern_num = bo.h * bo.w * 4;
    proof {
        assert(decode(1) =~= Seq::<Move>::empty());
        assert(traced(bo, init.robots@, 1, 0));
        assert(que@[0] == Some(init));
        assert forall|ms: Seq<Move>| ms.len() == 0 && (#[trigger] replay(t, start, ms)) is Some implies seen.contains(
            replay(t, start, ms)->0,
        ) || queued_upto(que@, mark, replay(t, start, ms)->0) by {
            assert(que@[0] is Some && que@[0]->0.robots@ == start);
        }
    }
    let ghost m0 = start_probe(start);
    let ghost mut m = m0;
    let ghost mut turns: nat = 0;
    proof {
        assert(que@[1] == None::<State>);
    }
    let mut running = true;
    while running
        invariant
            bo.wf(),
            m0 == start_probe(start),
            m == run(m0, t, target as int, max_pattern_num as int, turns),
            forall|k: nat| k < turns ==> (#[trigger] run(m0, t, target as int, max_pattern_num as int, k)).running,
            m.running == running,
            m.robot == goal.0,
            m.cell == goal.1,
            m.log == res,
            m.level == level,
            m.count == found_count,
            running ==> m.depth == depth,
            running ==> m.seen == seen,
            running ==> same_queue(m.q, que@),
            running ==> same_found(m.found, found@, bo.h as int, bo.w as int),
            running ==> forall|v: Seq<Pos>| #[trigger] seen.contains(v) ==> gone@.contains(key_of(v) as u64),
            t == bo.table(),
            start == bo.robots@,
            found@.len() == bo.h,
            forall|y: int| 0 <= y < bo.h ==> (#[trigger] found@[y])@.len() == bo.w * 4,
            max_pattern_num == bo.h * bo.w * 4,
            max_pattern_num <= 255 * 255 * 4,
            found_count <= max_pattern_num,
            found_count == grid_count(found@),
            running ==> found_count < max_pattern_num,
            running ==> depth <= target,
            running ==> level <= depth,
            target <= 15 ==> found_within(t, start, found@, bo.h as int, bo.w as int, level as int),
            !running && target <= 15 ==> deepest(t, start, bo.h as int, bo.w as int, target as int, level as int),
            running ==> queue_ok(bo, que@, mark, depth as int),
            running ==> seen_ok(seen, found@, bo.h as int, bo.w as int),
            running ==> forall|k: u64| #[trigger] gone@.contains(k) ==> key_known(seen, k),
            running ==> layers_done(t, start, seen, depth as int),
            running ==> layer_open(t, start, seen, que@, mark, depth as int),
            running ==> closed(t, seen, que@),
            goal.0 < 4,
            goal.1.y < bo.h,
            goal.1.x < bo.w,
            level <= target,
            no_shorter(t, start, goal.0 as int, goal.1, level as int),
            level <= 15 ==> decode(res as nat).len() == level && arrives(
                t,
                start,
                decode(res as nat),
                goal.0 as int,
                goal.1,
            ),
        decreases (if running { 1int } else { 0int }), target + 1 - depth, mark,
    {
        let ghost q0 = que@;
        match que.pop_front() {
            None => {
                // the marker never leaves the queue for good
                assert(false);
                running = false;
                proof {
                    m = turn(m, t, target as int, max_pattern_num as int);
                    turns = turns + 1;
                }
            },
            Some(None) => {
                proof {
                    assert(entry_of(q0[0]) == m.q[0]);
                    let m1 = turn(m, t, target as int, max_pattern_num as int);
                    if depth + 1 <= target {
                        assert forall|j: int| 0 <= j < q0.len() implies entry_of(#[trigger] q0.drop_first().push(None::<State>)[j])
                            == m1.q[j] by {
                            if j < q0.len() - 1 {
                                assert(entry_of(q0[j + 1]) == m.q[j + 1]);
                            }
                        }
                    }
                    m = m1;
                    turns = turns + 1;
                }
                depth += 1;
                if depth > target as usize {
                    running = false;
                    proof {
                        assert(mark == 0);
                        lemma_marker_turn(t, start, seen, q0, que@.push(None), depth - 1);
                        if target <= 15 {
                            lemma_all_visited(
                                t,
                                start,
                                seen,
                                found@,
                                bo.h as int,
                                bo.w as int,
                                target as int,
                                level as int,
                            );
                        }
                    }
                } else {
                    que.push_back(None);
                    proof {
                        assert(mark == 0);
                        assert(que@ =~= q0.drop_first().push(None::<State>));
                        lemma_marker_turn(t, start, seen, q0, que@, depth - 1);
                        mark = que@.len() - 1;
                        assert forall|i: int| 0 <= i < que@.len() && i != mark implies slot_ok(
                            bo,
                            #[trigger] que@[i],
                            depth as int,
                        ) by {
                            assert(que@[i] == q0[i + 1]);
                        }
                    }
                }
            },
            Some(Some(st)) => {
                let ghost mark0 = mark;
                proof {
                    assert(mark > 0);
                    assert(st == q0[0]->0);
                    assert(slot_ok(bo, q0[0], depth as int));
                    mark = mark - 1;
                    assert forall|i: int| 0 <= i < que@.len() && i != mark implies slot_ok(
                        bo,
                        #[trigger] que@[i],
                        if i < mark { depth as int } else { depth + 1 },
                    ) by {
                        assert(que@[i] == q0[i + 1]);
                    }
                    assert(que@[mark] == q0[mark + 1]);
                }
                let key = config_key(&st.robots);
                let ghost m_old = m;
                proof {
                    assert(entry_of(q0[0]) == m.q[0]);
                    assert forall|j: int| 0 <= j < que@.len() implies entry_of(#[trigger] que@[j]) == m.q.drop_first()[j] by {
                        assert(que@[j] == q0[j + 1]);
                        assert(entry_of(q0[j + 1]) == m.q[j + 1]);
                    }
                }
                if gone.contains(&key) {
                    proof {
                        assert(key_known(seen, key));
                        let v = choose|v: Seq<Pos>| #[trigger] seen.contains(v) && key_of(v) == key;
                        lemma_key_unique(v, st.robots@);
                        assert(seen.insert(st.robots@) =~= seen);
                        assert forall|j: int| 0 <= j < q0.len() - 1 implies que@[j] == q0[j + 1] by {}
                        lemma_state_turn(t, start, seen, seen, q0, que@, mark0, depth as int);
                        m = turn(m, t, target as int, max_pattern_num as int);
                        turns = turns + 1;
                    }
                } else {
                    let ghost m1 = Probe { q: m.q.drop_first(), ..m };
                    let ghost mut pm = m1;
                    proof {
                        if seen.contains(st.robots@) {
                            assert(gone@.contains(key_of(st.robots@) as u64));
                        }
                    }
                    let ghost trail = decode(st.log as nat);
                    proof {
                        if depth <= 15 {
                            assert(replay(t, start, trail) == Some(st.robots@));
                        }
                    }
                    let mut ok = false;
                    let mut i: usize = 0;
                    while i < 4 && !ok
                        invariant
                            i <= 4,
                            pm == note_upto(m1, st.robots@, st.log, i as nat, target as int, max_pattern_num as int),
                            pm.running == !ok,
                            pm.count == found_count,
                            pm.robot == goal.0,
                            pm.cell == goal.1,
                            pm.log == res,
                            pm.level == level,
                            pm.depth == depth,
                            pm.q == m1.q,
                            pm.seen == m1.seen,
                            same_found(pm.found, found@, bo.h as int, bo.w as int),
                            0 < bo.h <= 255,
                            0 < bo.w <= 255,
                            placed(st.robots@, bo.h as int, bo.w as int),
                            trail == decode(st.log as nat),
                            depth <= target,
                            depth <= 15 ==> trail.len() == depth && forall|c: int|
                                0 <= c < 4 ==> arrives(t, start, trail, c, #[trigger] st.robots@[c]),
                            found@.len() == bo.h,
                            forall|y: int| 0 <= y < bo.h ==> (#[trigger] found@[y])@.len() == bo.w * 4,
                            max_pattern_num == bo.h * bo.w * 4,
                            max_pattern_num <= 255 * 255 * 4,
                            found_count <= max_pattern_num,
                            found_count == grid_count(found@),
                            !ok ==> found_count < max_pattern_num,
                            level <= depth,
                            target <= 15 ==> found_within(t, start, found@, bo.h as int, bo.w as int, level as int),
                            ok && target <= 15 ==> deepest(
                                t,
                                start,
                                bo.h as int,
                                bo.w as int,
                                target as int,
                                level as int,
                            ),
                            seen_ok(seen, found@, bo.h as int, bo.w as int),
                            layers_done(t, start, seen, depth as int),
                            forall|c: int| 0 <= c < i ==> hit(found@, #[trigger] st.robots@[c], c),
                            goal.0 < 4,
                            goal.1.y < bo.h,
                            goal.1.x < bo.w,
                            level <= target,
                            no_shorter(t, start, goal.0 as int, goal.1, level as int),
                            level <= 15 ==> decode(res as nat).len() == level && arrives(
                                t,
                                start,
                                decode(res as nat),
                                goal.0 as int,
                                goal.1,
                            ),
                        decreases 4 - i,
                    {
                        let p = st.robots[i];
                        let ghost pm0 = pm;
                        let ghost found0 = found@;
                        let ghost level0 = level;
                        let fresh = !found[p.y as usize][p.x as usize * 4 + i];
                        if fresh {
                            found[p.y as usize][p.x as usize * 4 + i] = true;
                            found_count += 1;
                            res = st.log;
                            goal = (i, p);
                            level = depth;
                            if depth >= target as usize || found_count >= max_pattern_num {
                                ok = true;
                            }
                        }
                        proof {
                            assert(hit(found0, p, i as int) == !fresh);
                            pm = note(pm0, st.robots@, st.log, i as int, target as int, max_pattern_num as int);
                            if fresh {
                                lemma_pattern_new(
                                    t,
                                    start,
                                    seen,
                                    pm0.found,
                                    found0,
                                    found@,
                                    bo.h as int,
                                    bo.w as int,
                                    st.robots@,
                                    i as int,
                                    level0 as int,
                                    depth as int,
                                    target as int,
                                    trail,
                                );
                            }
                        }
                        i += 1;
                    }
                    proof {
                        if i < 4 {
                            lemma_note_stops(m1, st.robots@, st.log, i as nat, 4, target as int, max_pattern_num as int);
                        }
                        assert(m.q[0] == Some((st.robots@, st.log)));
                        assert(!m.seen.contains(st.robots@));
                        m = turn(m, t, target as int, max_pattern_num as int);
                        turns = turns + 1;
                    }
                    if ok {
                        running = false;
                    } else {
                        let next = st.enumerate_states();
                        let ghost q1 = que@;
                        proof {
                            assert forall|k: int| 0 <= k < next@.len() implies item_ok(
                                bo,
                                #[trigger] next@[k],
                                depth + 1,
                            ) by {
                                if depth + 1 <= 15 {
                                    let m = lemma_successor_move(t, st.robots@, st.log, 16, k);
                                    lemma_traced_step(bo, st.robots@, st.log, depth as nat, m.0, m.1);
                                }
                            }
                        }
                        let mut k: usize = 0;
                        while k < next.len()
                            invariant
                                k <= next@.len(),
                                queue_ok(bo, que@, mark, depth as int),
                                mark < q1.len(),
                                que@.len() == q1.len() + k,
                                forall|j: int| 0 <= j < q1.len() ==> que@[j] == q1[j],
                                forall|j: int| 0 <= j < k ==> que@[q1.len() + j] == Some(next@[j]),
                                forall|j: int| 0 <= j < next@.len() ==> item_ok(bo, #[trigger] next@[j], depth + 1),
                            decreases next@.len() - k,
                        {
                            let ghost q2 = que@;
                            que.push_back(Some(next[k]));
                            proof {
                                assert forall|i: int| 0 <= i < que@.len() && i != mark implies slot_ok(
                                    bo,
                                    #[trigger] que@[i],
                                    if i < mark { depth as int } else { depth + 1 },
                                ) by {
                                    if i < q2.len() {
                                        assert(que@[i] == q2[i]);
                                    } else {
                                        assert(que@[i] == Some(next@[k as int]));
                                    }
                                }
                                assert(que@[mark] == q2[mark]);
                            }
                            k += 1;
                        }
                        gone.insert(key);
                        proof {
                            let r0 = st.robots@;
                            assert forall|i: int, d: int|
                                0 <= i < 4 && 0 <= d < 4 && slide(t, r0, i, d) != 0 implies queued_upto(
                                que@,
                                que@.len() as int,
                                #[trigger] after(t, r0, i, d),
                            ) by {
                                let j = lemma_move_successor(t, r0, st.log, 16, i, d);
                                assert(que@[q1.len() + j] == Some(next@[j]));
                                assert(next@[j].robots@ == after(t, r0, i, d));
                            }
                            assert forall|j: int| 0 <= j < q0.len() - 1 implies que@[j] == q0[j + 1] by {
                                assert(que@[j] == q1[j]);
                            }
                            lemma_state_turn(t, start, seen, seen.insert(r0), q0, que@, mark0, depth as int);
                            assert forall|k: u64| #[trigger] gone@.contains(k) implies key_known(
                                seen.insert(r0),
                                k,
                            ) by {
                                if k == key {
                                    assert(seen.insert(r0).contains(r0));
                                } else {
                                    assert(key_known(seen, k));
                                    let v = choose|v: Seq<Pos>| #[trigger] seen.contains(v) && key_of(v) == k;
                                    assert(seen.insert(r0).contains(v));
                                }
                            }
                            assert(hit(found@, r0[0], 0) && hit(found@, r0[1], 1) && hit(found@, r0[2], 2) && hit(
                                found@,
                                r0[3],
                                3,
                            ));
                            seen = seen.insert(r0);
                            assert forall|j: int| 0 <= j < que@.len() implies entry_of(#[trigger] que@[j]) == m.q[j] by {
                                if j < q1.len() {
                                    assert(que@[j] == q1[j]);
                                    assert(entry_of(q1[j]) == m_old.q.drop_first()[j]);
                                } else {
                                    assert(que@[q1.len() + (j - q1.len())] == Some(next@[j - q1.len()]));
                                }
                            }
                            assert forall|v: Seq<Pos>| #[trigger] seen.contains(v) implies gone@.contains(
                                key_of(v) as u64,
                            ) by {}
                        }
                    }
                }
            },
        }
    }
    let out = Outcome { robot: goal.0, cell: goal.1, log: res, depth: level, patterns: found_count };
    proof {
        assert(found_by(bo, target as int, turns, out));
    }
    out
}

/// Searches as `search` does, and returns the pattern found last with the
/// moves read from the log, latest move first.
///
/// Where `target` is at most 15 the log has lost no move: then the moves
/// returned are at most `target`, each of them is legal when they are played
/// from the board's start, they leave the robot on the cell, no shorter
/// list of moves does, and no pattern that `target` moves can reach needs
/// more moves than these.
pub fn bfs<'a>(target: u8, bo: &'a Board) -> (out: ((usize, Pos), Vec<Move>))
    requires
        bo.wf(),
    ensures
        out.0.0 < 4,
        out.0.1.y < bo.h,
        out.0.1.x < bo.w,
        moves_valid(out.1@),
        target <= 15 ==> out.1@.len() <= target && arrives(
            bo.table(),
            bo.robots@,
            out.1@,
            out.0.0 as int,
            out.0.1,
        ) && no_shorter(bo.table(), bo.robots@, out.0.0 as int, out.0.1, out.1@.len() as int) && deepest(
            bo.table(),
            bo.robots@,
            bo.h as int,
            bo.w as int,
            target as int,
            out.1@.len() as int,
        ),
        exists|n: nat, o: Outcome| #[trigger]
            found_by(bo, target as int, n, o) && out.0.0 == o.robot && out.0.1 == o.cell && out.1@ == decode(
                o.log as nat,
            ),
{
    let found = search(target, bo);
    let l = log_decode(found.log);
    proof {
        let n = choose|n: nat| #[trigger] found_by(bo, target as int, n, found);
        assert(found_by(bo, target as int, n, found) && l@ == decode(found.log as nat));
    }
    ((found.robot, found.cell), l)
}

} // verus!
