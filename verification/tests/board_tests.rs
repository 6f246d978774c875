use ricochet_robots::board::{free_cell, Board, WallPos};
use ricochet_robots::grid::{flood, Pos};
use xorshift::{SeedableRng, Xorshift128};

fn corners(h: u8, w: u8) -> [Pos; 4] {
    [
        Pos { y: 0, x: 0 },
        Pos { y: 0, x: w - 1 },
        Pos { y: h - 1, x: 0 },
        Pos { y: h - 1, x: w - 1 },
    ]
}

fn seeded(a: u64, b: u64) -> Xorshift128 {
    let seed = [a, b];
    SeedableRng::from_seed(&seed[..])
}

#[test]
fn unwalled_table_holds_distances_to_the_border() {
    let b = Board::unwalled(3, 4, corners(3, 4)).unwrap();
    assert_eq!(b.h, 3);
    assert_eq!(b.w, 4);
    assert!(b.walls.is_empty());
    for y in 0..3usize {
        for x in 0..4usize {
            assert_eq!(b.walldist[y][x], [2 - y, 3 - x, y, x]);
        }
    }
}

#[test]
fn unwalled_refuses_bad_sides_and_bad_robots() {
    assert!(Board::unwalled(0, 4, corners(3, 4)).is_none());
    assert!(Board::unwalled(3, 0, corners(3, 4)).is_none());
    assert!(Board::unwalled(256, 4, corners(3, 4)).is_none());
    assert!(Board::unwalled(2, 4, corners(3, 4)).is_none());
    let mut twice = corners(3, 4);
    twice[3] = twice[0];
    assert!(Board::unwalled(3, 4, twice).is_none());
}

#[test]
fn good_board_accepts_two_by_two() {
    let b = Board::unwalled(2, 2, corners(2, 2)).unwrap();
    assert!(b.good_board());
}

#[test]
fn good_board_rejects_open_area() {
    let b = Board::unwalled(3, 3, corners(3, 3)).unwrap();
    assert!(!b.good_board());
}

#[test]
fn good_board_rejects_cut_off_cells() {
    let mut b = Board::unwalled(2, 2, corners(2, 2)).unwrap();
    b.walldist[0][0] = [0, 0, 0, 0];
    b.walldist[0][1][3] = 0;
    b.walldist[1][0][2] = 0;
    assert!(!b.good_board());
}

#[test]
fn flood_marks_only_what_the_corner_reaches() {
    let t = vec![vec![[0usize, 1, 0, 0], [0, 0, 0, 1], [0, 0, 0, 0]]];
    let seen = flood(&t, 1, 3);
    assert_eq!(seen, vec![vec![true, true, false]]);
}

#[test]
fn try_walls_keeps_a_good_wall() {
    let mut b = Board::unwalled(2, 2, corners(2, 2)).unwrap();
    assert!(b.try_walls(0, 0, 1, 0));
    assert_eq!(b.walls, vec![WallPos { y: 1, x: 0, d: 0 }]);
    assert_eq!(b.walldist[0][0], [0, 1, 0, 0]);
    assert_eq!(b.walldist[1][0], [0, 1, 0, 0]);
    assert_eq!(b.walldist[0][1], [1, 0, 0, 1]);
    assert_eq!(b.walldist[1][1], [0, 0, 1, 1]);
}

#[test]
fn try_walls_drops_both_walls_together() {
    let mut b = Board::unwalled(2, 3, corners(2, 3)).unwrap();
    // across the first column below row 0, and along row 0 before column 1:
    // the corner cell would be shut in
    assert!(!b.try_walls(0, 0, 1, 1));
    assert!(b.walls.is_empty());
    assert_eq!(b.walldist[0][0], [1, 2, 0, 0]);
}

#[test]
fn try_walls_rolls_back_when_an_open_area_remains() {
    let mut b = Board::unwalled(3, 3, corners(3, 3)).unwrap();
    assert!(!b.try_walls(1, 1, 0, 0));
    assert!(b.walls.is_empty());
    for y in 0..3usize {
        for x in 0..3usize {
            assert_eq!(b.walldist[y][x], [2 - y, 2 - x, y, x]);
        }
    }
}

#[test]
fn try_walls_rolls_back_when_a_cell_is_cut_off() {
    let mut c = Board {
        w: 2,
        h: 1,
        walls: vec![],
        walldist: vec![vec![[0, 1, 0, 0], [0, 0, 0, 1]]],
        robots: [Pos { y: 0, x: 0 }; 4],
    };
    assert!(c.good_board());
    assert!(!c.try_walls(0, 0, 0, 1));
    assert!(c.walls.is_empty());
    assert_eq!(c.walldist, vec![vec![[0, 1, 0, 0], [0, 0, 0, 1]]]);
}

#[test]
fn try_walls_without_a_wall_inside_changes_nothing() {
    let mut b = Board::unwalled(2, 2, corners(2, 2)).unwrap();
    assert!(b.try_walls(0, 0, 0, 0));
    assert!(b.walls.is_empty());
    assert_eq!(b.walldist[0][0], [1, 1, 0, 0]);
}

#[test]
fn second_wall_takes_the_shorter_distance() {
    let mut b = Board::unwalled(2, 2, corners(2, 2)).unwrap();
    assert!(b.try_walls(0, 0, 1, 0));
    assert!(b.try_walls(0, 0, 1, 0));
    assert_eq!(b.walls.len(), 2);
    assert_eq!(b.walldist[0][0], [0, 1, 0, 0]);
}

fn check_generated(b: &Board, h: usize, w: usize, budget: usize) {
    assert_eq!(b.h, h);
    assert_eq!(b.w, w);
    assert!(b.walls.len() <= 2 * budget);
    assert_eq!(b.walldist.len(), h);
    for y in 0..h {
        assert_eq!(b.walldist[y].len(), w);
        for x in 0..w {
            let c = b.walldist[y][x];
            assert!(c[0] <= h - 1 - y && c[1] <= w - 1 - x && c[2] <= y && c[3] <= x);
        }
    }
    for i in 0..4 {
        assert!((b.robots[i].y as usize) < h && (b.robots[i].x as usize) < w);
        for j in 0..i {
            assert_ne!(b.robots[i], b.robots[j]);
        }
    }
    let seen = flood(&b.walldist, h, w);
    assert!(seen.iter().all(|row| row.iter().all(|c| *c)));
    if !b.walls.is_empty() {
        assert!(b.good_board());
        for y in 0..h {
            for x in 0..w {
                let blocked = b.walldist[y][x].iter().filter(|d| **d == 0).count();
                assert!(blocked >= 2);
            }
        }
    }
}

#[test]
fn generated_boards_are_connected_and_hold_four_robots() {
    for seed in 1..40u64 {
        let b = Board::new(5, 5, seeded(seed, seed * 7 + 1), 10).unwrap();
        check_generated(&b, 5, 5, 10);
        let c = Board::new(2, 6, seeded(seed, 3), 12).unwrap();
        check_generated(&c, 2, 6, 12);
        let d = Board::new(2, 2, seeded(seed, 5), 6).unwrap();
        check_generated(&d, 2, 2, 6);
    }
}

#[test]
fn narrow_boards_take_walls() {
    let mut walls = 0;
    for seed in 1..40u64 {
        let b = Board::new(2, 2, seeded(seed, 11), 8).unwrap();
        walls += b.walls.len();
    }
    assert!(walls > 0);
}

#[test]
fn same_seed_gives_the_same_board() {
    let a = Board::new(6, 7, seeded(42, 4242), 20).unwrap();
    let b = Board::new(6, 7, seeded(42, 4242), 20).unwrap();
    assert_eq!(a.walls, b.walls);
    assert_eq!(a.walldist, b.walldist);
    assert_eq!(a.robots, b.robots);
}

#[test]
fn no_budget_means_no_walls() {
    let b = Board::new(5, 5, seeded(9, 10), 0).unwrap();
    assert!(b.walls.is_empty());
    for y in 0..5usize {
        for x in 0..5usize {
            assert_eq!(b.walldist[y][x], [4 - y, 4 - x, y, x]);
        }
    }
}

#[test]
fn new_refuses_boards_without_room() {
    assert!(Board::new(0, 5, seeded(1, 2), 3).is_none());
    assert!(Board::new(5, 0, seeded(1, 2), 3).is_none());
    assert!(Board::new(256, 5, seeded(1, 2), 3).is_none());
    assert!(Board::new(5, 256, seeded(1, 2), 3).is_none());
    assert!(Board::new(1, 3, seeded(1, 2), 3).is_none());
    assert!(Board::new(1, 4, seeded(1, 2), 0).is_some());
}

#[test]
fn is_sound_tells_boards_apart() {
    let b = Board::unwalled(3, 4, corners(3, 4)).unwrap();
    assert!(b.is_sound());
    let mut twice = Board::unwalled(3, 4, corners(3, 4)).unwrap();
    twice.robots[1] = twice.robots[0];
    assert!(!twice.is_sound());
    let mut far = Board::unwalled(3, 4, corners(3, 4)).unwrap();
    far.walldist[2][0][0] = 1;
    assert!(!far.is_sound());
    let mut short = Board::unwalled(3, 4, corners(3, 4)).unwrap();
    short.walldist[1].pop();
    assert!(!short.is_sound());
    let mut off = Board::unwalled(3, 4, corners(3, 4)).unwrap();
    off.robots[2] = Pos { y: 3, x: 0 };
    assert!(!off.is_sound());
    for seed in 1..10u64 {
        assert!(Board::new(4, 5, seeded(seed, 77), 9).unwrap().is_sound());
    }
}

#[test]
fn free_cell_looks_at_the_robots_placed_so_far() {
    let r = corners(3, 4);
    assert!(free_cell(&r, 0, Pos { y: 0, x: 0 }));
    assert!(!free_cell(&r, 1, Pos { y: 0, x: 0 }));
    assert!(free_cell(&r, 3, Pos { y: 2, x: 3 }));
    assert!(!free_cell(&r, 4, Pos { y: 2, x: 3 }));
    assert!(free_cell(&r, 4, Pos { y: 1, x: 1 }));
}
