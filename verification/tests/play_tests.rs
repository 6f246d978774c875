use ricochet_robots::board::Board;
use ricochet_robots::grid::Pos;
use ricochet_robots::log::{log_decode, log_push, Move};
use ricochet_robots::search::{bfs, search};
use ricochet_robots::state::State;
use std::collections::{HashSet, VecDeque};

fn open_board(h: usize, w: usize, robots: [(u8, u8); 4]) -> Board {
    let r = [
        Pos { y: robots[0].0, x: robots[0].1 },
        Pos { y: robots[1].0, x: robots[1].1 },
        Pos { y: robots[2].0, x: robots[2].1 },
        Pos { y: robots[3].0, x: robots[3].1 },
    ];
    Board::unwalled(h, w, r).unwrap()
}

#[test]
fn init_state_copies_the_robots_and_starts_an_empty_log() {
    let b = open_board(5, 5, [(0, 0), (1, 1), (2, 2), (3, 3)]);
    let s = State::init_state(&b);
    assert_eq!(s.robots, b.robots);
    assert_eq!(s.log, 1);
}

#[test]
fn robot_slides_to_the_wall() {
    let b = open_board(5, 5, [(2, 2), (0, 0), (0, 1), (1, 0)]);
    let s = State::init_state(&b);
    let down = s.move_to(0, 0).unwrap();
    assert_eq!(down.robots[0], Pos { y: 4, x: 2 });
    let right = s.move_to(0, 1).unwrap();
    assert_eq!(right.robots[0], Pos { y: 2, x: 4 });
    let up = s.move_to(0, 2).unwrap();
    assert_eq!(up.robots[0], Pos { y: 0, x: 2 });
    let left = s.move_to(0, 3).unwrap();
    assert_eq!(left.robots[0], Pos { y: 2, x: 0 });
    assert_eq!(left.robots[1..], s.robots[1..]);
    assert_eq!(down.log, 16);
    assert_eq!(left.log, 16 + 3);
}

#[test]
fn robot_stops_before_another_robot() {
    let b = open_board(5, 5, [(2, 0), (2, 3), (4, 0), (0, 4)]);
    let s = State::init_state(&b);
    let right = s.move_to(0, 1).unwrap();
    assert_eq!(right.robots[0], Pos { y: 2, x: 2 });
    let down = s.move_to(0, 0).unwrap();
    assert_eq!(down.robots[0], Pos { y: 3, x: 0 });
    assert_eq!(down.log, 16);
    let other = s.move_to(1, 3).unwrap();
    assert_eq!(other.robots[1], Pos { y: 2, x: 1 });
    assert_eq!(other.log, 16 + 4 + 3);
}

#[test]
fn no_move_where_the_robot_cannot_leave() {
    let b = open_board(5, 5, [(0, 0), (0, 1), (1, 0), (4, 4)]);
    let s = State::init_state(&b);
    assert!(s.move_to(0, 0).is_none());
    assert!(s.move_to(0, 1).is_none());
    assert!(s.move_to(0, 2).is_none());
    assert!(s.move_to(0, 3).is_none());
    assert!(s.move_to(3, 0).is_none());
    assert!(s.move_to(3, 1).is_none());
}

#[test]
fn walls_stop_a_robot() {
    let mut b = open_board(2, 2, [(0, 0), (0, 1), (1, 0), (1, 1)]);
    assert!(b.try_walls(0, 0, 1, 0));
    b.robots = [Pos { y: 0, x: 0 }, Pos { y: 0, x: 1 }, Pos { y: 1, x: 1 }, Pos { y: 1, x: 0 }];
    let s = State { bo: &b, robots: [Pos { y: 0, x: 0 }, Pos { y: 0, x: 1 }, Pos { y: 1, x: 1 }, Pos { y: 1, x: 0 }], log: 1 };
    assert!(s.move_to(0, 0).is_none());
    assert!(s.move_to(3, 2).is_none());
}

#[test]
fn moves_keep_the_robots_apart() {
    let b = open_board(4, 4, [(0, 0), (0, 3), (3, 0), (3, 3)]);
    let mut layer = vec![State::init_state(&b)];
    for _ in 0..3 {
        let mut next = vec![];
        for s in &layer {
            for t in s.enumerate_states() {
                for i in 0..4 {
                    assert!(t.robots[i].y < 4 && t.robots[i].x < 4);
                    for j in 0..i {
                        assert_ne!(t.robots[i], t.robots[j]);
                    }
                }
                next.push(t);
            }
        }
        layer = next;
    }
}

#[test]
fn successors_come_robot_by_robot_and_direction_by_direction() {
    let b = open_board(3, 3, [(0, 0), (0, 2), (2, 0), (1, 1)]);
    let s = State::init_state(&b);
    let next = s.enumerate_states();
    let logs: Vec<u64> = next.iter().map(|t| t.log).collect();
    // robot 0: down 1 cell, right 1 cell; robot 1: down, left; robot 2:
    // right, up; robot 3: all four
    assert_eq!(
        logs,
        vec![16, 17, 16 + 4, 16 + 4 + 3, 16 + 8 + 1, 16 + 8 + 2, 16 + 12, 16 + 13, 16 + 14, 16 + 15]
    );
    assert_eq!(next[0].robots[0], Pos { y: 1, x: 0 });
    assert_eq!(next[1].robots[0], Pos { y: 0, x: 1 });
    assert_eq!(next[9].robots[3], Pos { y: 1, x: 0 });
    for t in &next {
        let mut same = 0;
        for i in 0..4 {
            if t.robots[i] == s.robots[i] {
                same += 1;
            }
        }
        assert_eq!(same, 3);
    }
}

#[test]
fn log_push_shifts_four_bits() {
    assert_eq!(log_push(1, 0, 0), 16);
    assert_eq!(log_push(1, 3, 2), 16 + 12 + 2);
    assert_eq!(log_push(30, 1, 3), 30 * 16 + 4 + 3);
    assert_eq!(log_push(u64::MAX, 3, 3), u64::MAX);
    assert_eq!(log_push(1 << 60, 2, 1), 9);
}

#[test]
fn log_decode_reads_latest_first() {
    assert!(log_decode(1).is_empty());
    assert!(log_decode(0).is_empty());
    let v = log_push(log_push(log_push(1, 2, 3), 0, 1), 3, 0);
    assert_eq!(
        log_decode(v),
        vec![Move { c: 3, d: 0 }, Move { c: 0, d: 1 }, Move { c: 2, d: 3 }]
    );
}

#[test]
fn log_round_trip() {
    let moves: Vec<Move> = (0..15usize).map(|i| Move { c: (i * 7 + 1) % 4, d: (i * 5 + 2) % 4 }).collect();
    for n in 0..=15 {
        let mut v = 1u64;
        for m in &moves[..n] {
            v = log_push(v, m.c, m.d);
        }
        let mut back = log_decode(v);
        back.reverse();
        assert_eq!(back, moves[..n].to_vec());
    }
}

fn replay(b: &Board, moves: &[Move]) -> [Pos; 4] {
    let mut s = State::init_state(b);
    for m in moves.iter().rev() {
        s = s.move_to(m.c, m.d).unwrap();
        for i in 0..4 {
            for j in 0..i {
                assert_ne!(s.robots[i], s.robots[j]);
            }
        }
    }
    s.robots
}

#[test]
fn search_on_open_five_by_five() {
    let b = open_board(5, 5, [(0, 0), (1, 2), (3, 1), (4, 4)]);
    let ((robot, cell), moves) = bfs(2, &b);
    assert!(moves.len() >= 2);
    assert_eq!(moves.len(), 2);
    let end = replay(&b, &moves);
    assert_eq!(end[robot], cell);
}

#[test]
fn search_with_target_zero_stays_at_the_start() {
    let b = open_board(5, 5, [(2, 3), (1, 2), (3, 1), (4, 4)]);
    let ((robot, cell), moves) = bfs(0, &b);
    assert_eq!(robot, 0);
    assert_eq!(cell, Pos { y: 2, x: 3 });
    assert!(moves.is_empty());
}

fn least_moves(b: &Board, robot: usize, cell: Pos) -> usize {
    let mut seen: HashSet<[Pos; 4]> = HashSet::new();
    let mut queue = VecDeque::new();
    queue.push_back((b.robots, 0usize));
    seen.insert(b.robots);
    while let Some((r, n)) = queue.pop_front() {
        if r[robot] == cell {
            return n;
        }
        let s = State { bo: b, robots: r, log: 1 };
        for t in s.enumerate_states() {
            if seen.insert(t.robots) {
                queue.push_back((t.robots, n + 1));
            }
        }
    }
    panic!("the pattern cannot be reached");
}

#[test]
fn search_finds_patterns_by_shortest_paths() {
    let b = open_board(4, 4, [(0, 0), (1, 2), (2, 1), (3, 3)]);
    for target in 0..5u8 {
        let ((robot, cell), moves) = bfs(target, &b);
        let end = replay(&b, &moves);
        assert_eq!(end[robot], cell);
        assert!(moves.len() <= target as usize);
        assert_eq!(least_moves(&b, robot, cell), moves.len());
    }
}

#[test]
fn search_stops_when_every_pattern_is_found() {
    let b = open_board(1, 4, [(0, 0), (0, 1), (0, 2), (0, 3)]);
    let ((robot, cell), moves) = bfs(200, &b);
    assert!(robot < 4);
    assert!(cell.y < 1 && cell.x < 4);
    assert!(moves.is_empty());
}

#[test]
fn search_is_repeatable() {
    let b = open_board(5, 6, [(0, 5), (1, 2), (3, 1), (4, 4)]);
    let (g1, m1) = bfs(4, &b);
    let (g2, m2) = bfs(4, &b);
    assert_eq!(g1, g2);
    assert_eq!(m1, m2);
}

#[test]
fn search_reports_depth_log_and_patterns() {
    let b = open_board(5, 5, [(0, 0), (1, 2), (3, 1), (4, 4)]);
    let out = search(2, &b);
    assert_eq!(out.depth, 2);
    assert!(out.patterns <= 5 * 5 * 4);
    assert!(out.patterns >= 5);
    let moves = log_decode(out.log);
    assert_eq!(moves.len(), 2);
    let end = replay(&b, &moves);
    assert_eq!(end[out.robot], out.cell);
    let ((robot, cell), same) = bfs(2, &b);
    assert_eq!((robot, cell), (out.robot, out.cell));
    assert_eq!(same, moves);
}

#[test]
fn search_counts_every_pattern_of_a_small_board() {
    let b = open_board(2, 2, [(0, 0), (0, 1), (1, 0), (1, 1)]);
    let out = search(15, &b);
    assert!(out.patterns <= 16);
    assert!(out.depth <= 15);
    let moves = log_decode(out.log);
    assert_eq!(moves.len(), out.depth);
    let end = replay(&b, &moves);
    assert_eq!(end[out.robot], out.cell);
    assert_eq!(least_moves(&b, out.robot, out.cell), out.depth);
}

#[test]
fn search_goes_as_deep_as_any_pattern_within_the_target() {
    let b = open_board(3, 4, [(0, 0), (1, 2), (2, 1), (2, 3)]);
    for target in 0..5u8 {
        let out = search(target, &b);
        let mut deepest = 0;
        for robot in 0..4 {
            for y in 0..3u8 {
                for x in 0..4u8 {
                    let n = least_within(&b, robot, Pos { y, x }, target as usize);
                    if let Some(n) = n {
                        deepest = deepest.max(n);
                    }
                }
            }
        }
        assert_eq!(out.depth, deepest);
    }
}

fn least_within(b: &Board, robot: usize, cell: Pos, limit: usize) -> Option<usize> {
    let mut seen: HashSet<[Pos; 4]> = HashSet::new();
    let mut queue = VecDeque::new();
    queue.push_back((b.robots, 0usize));
    seen.insert(b.robots);
    while let Some((r, n)) = queue.pop_front() {
        if r[robot] == cell {
            return Some(n);
        }
        if n == limit {
            continue;
        }
        let s = State { bo: b, robots: r, log: 1 };
        for t in s.enumerate_states() {
            if seen.insert(t.robots) {
                queue.push_back((t.robots, n + 1));
            }
        }
    }
    None
}

#[test]
fn search_result_stays_on_the_board() {
    let b = open_board(6, 6, [(0, 0), (1, 2), (3, 1), (4, 4)]);
    let ((robot, cell), _moves) = bfs(3, &b);
    assert!(robot < 4);
    assert!(cell.y < 6 && cell.x < 6);
}
