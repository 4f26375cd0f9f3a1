//! End-to-end tests of the simulation core: the start-of-session
//! scenario, eating, dying at a wall, the no-reversal rule, the mapper,
//! the speed curve and the food spawner.

use snake_core::grid::{get_grid_number, get_grid_position, Cell, WorldPos};
use snake_core::session::{Difficulty, Dir, GameState, Session};
use snake_core::speed::compute_interval_us;

fn start(d: Difficulty) -> Session {
    let mut s = Session::new();
    s.menu_select(d);
    s
}

#[test]
fn first_tick_moves_right() {
    let mut s = start(Difficulty::Simple);
    assert_eq!(s.body.len(), 2);
    assert_eq!(s.body[0], Cell { col: 1, row: 0 });
    assert_eq!(s.body[1], Cell { col: 0, row: 0 });
    s.tick();
    assert_eq!(s.body.len(), 2);
    assert_eq!(s.body[0], Cell { col: 2, row: 0 });
    assert_eq!(s.body[1], Cell { col: 1, row: 0 });
    assert_eq!(s.score, 0);
    assert_eq!(s.state, GameState::InGame);
}

#[test]
fn eating_scores_and_grows_at_old_tail() {
    let mut s = start(Difficulty::Simple);
    assert!(s.try_place_food(Cell { col: 2, row: 0 }));
    s.tick();
    assert_eq!(s.score, 1);
    assert!(s.food.is_none());
    assert_eq!(s.body.len(), 3);
    assert_eq!(s.body[0], Cell { col: 2, row: 0 });
    assert_eq!(s.body[1], Cell { col: 1, row: 0 });
    assert_eq!(s.body[2], Cell { col: 0, row: 0 });
    assert_eq!(s.state, GameState::InGame);
}

#[test]
fn wall_hit_ends_session() {
    let mut s = start(Difficulty::Regular);
    s.change_direction(Dir::Up);
    s.tick();
    assert_eq!(s.state, GameState::Menu);
    assert!(s.game_over);
    assert!(s.velocity.is_none());
    s.cleanup_game();
    assert_eq!(s.body.len(), 0);
    assert!(s.food.is_none());
}

#[test]
fn reversal_is_ignored() {
    let mut s = start(Difficulty::Simple);
    s.change_direction(Dir::Left);
    s.tick();
    assert_eq!(s.applied, Some(Dir::Right));
    assert_eq!(s.body[0], Cell { col: 2, row: 0 });
    assert_eq!(s.state, GameState::InGame);
}

#[test]
fn right_wall_run_ends_at_boundary() {
    let mut s = start(Difficulty::Simple);
    for _ in 0..28 {
        s.tick();
        assert_eq!(s.state, GameState::InGame);
    }
    assert_eq!(s.body[0], Cell { col: 29, row: 0 });
    s.tick();
    assert_eq!(s.state, GameState::Menu);
    assert!(s.game_over);
}

#[test]
fn self_collision_ends_session() {
    let mut s = start(Difficulty::Simple);
    // grow to length 5 by feeding one cell ahead four times
    for col in 2..6 {
        assert!(s.try_place_food(Cell { col, row: 0 }));
        s.tick();
    }
    assert_eq!(s.body.len(), 6);
    assert_eq!(s.score, 4);
    // turn into the own body: down, left, up runs the head into (4, 0)
    s.change_direction(Dir::Down);
    s.tick();
    s.change_direction(Dir::Left);
    s.tick();
    s.change_direction(Dir::Up);
    s.tick();
    assert_eq!(s.state, GameState::Menu);
    assert!(s.game_over);
}

#[test]
fn tail_chase_is_not_fatal() {
    let mut s = start(Difficulty::Simple);
    // length 4: a 2x2 loop lets the head step onto the vacating tail cell
    for col in 2..4 {
        assert!(s.try_place_food(Cell { col, row: 0 }));
        s.tick();
    }
    assert_eq!(s.body.len(), 4);
    s.change_direction(Dir::Down);
    s.tick();
    s.change_direction(Dir::Left);
    s.tick();
    s.change_direction(Dir::Up);
    s.tick();
    // head has stepped onto the cell the tail vacated this very tick
    assert_eq!(s.state, GameState::InGame);
}

#[test]
fn mapper_round_trip() {
    for col in 0..30 {
        for row in 0..20 {
            let p = get_grid_position(col, row);
            let c = get_grid_number(p);
            assert_eq!(c, Cell { col, row });
        }
    }
}

#[test]
fn mapper_world_positions() {
    let p = get_grid_position(0, 0);
    assert_eq!(p, WorldPos { x: -435, y: 285 });
    let p = get_grid_position(29, 19);
    assert_eq!(p, WorldPos { x: 435, y: -285 });
    let p = get_grid_position(1, 0);
    assert_eq!(p, WorldPos { x: -405, y: 285 });
}

#[test]
fn speed_curve_start_values() {
    // 10^6 * (1 - log_600(base)) microseconds: the fixed point lands
    // within a few microseconds of the exact curve
    let s = start(Difficulty::Simple);
    assert_eq!(s.tick_us, 1000000);
    let mut s = start(Difficulty::Simple);
    s.tick();
    assert_eq!(s.tick_us, 891645); // curve: ~891644.7
    let mut s = start(Difficulty::Regular);
    s.tick();
    assert_eq!(s.tick_us, 531693); // curve: ~531693.3
    let mut s = start(Difficulty::Hard);
    s.tick();
    assert_eq!(s.tick_us, 171742); // curve: ~171741.8
}

#[test]
fn speed_clamps_to_floor() {
    // log_600(600) is exactly 1, so the raw curve hits zero at the last
    // reachable score of the simple level and the floor takes over
    assert_eq!(compute_interval_us(Difficulty::Simple, 598), 10000);
    assert_eq!(compute_interval_us(Difficulty::Hard, 598), 10000);
    assert_eq!(compute_interval_us(Difficulty::Simple, 5000), 10000);
}

#[test]
fn speed_strictly_decreases_off_floor() {
    // adjacent scores separate the interval everywhere above the floor,
    // including the high end of the reachable range
    assert_eq!(compute_interval_us(Difficulty::Simple, 23), 496810);
    assert_eq!(compute_interval_us(Difficulty::Simple, 24), 490679);
    assert_eq!(compute_interval_us(Difficulty::Simple, 498), 28502);
    assert_eq!(compute_interval_us(Difficulty::Simple, 499), 28190);
    for &d in &[Difficulty::Simple, Difficulty::Regular, Difficulty::Hard] {
        let mut last = compute_interval_us(d, 0);
        assert!(last <= 1000000);
        for score in 1..900 {
            let us = compute_interval_us(d, score);
            assert!(us >= 10000);
            if score <= 598 && last > 10000 {
                assert!(us < last);
            } else {
                assert!(us <= last);
            }
            last = us;
        }
    }
}

#[test]
fn speed_never_increases_with_score() {
    let mut s = start(Difficulty::Simple);
    let mut last = s.tick_us;
    for col in 2..28 {
        assert!(s.try_place_food(Cell { col, row: 0 }));
        s.tick();
        assert!(s.tick_us < last);
        assert!(s.tick_us >= 10000);
        last = s.tick_us;
    }
    assert_eq!(s.score, 26);
}

#[test]
fn food_spawns_on_free_cell_only() {
    let mut s = start(Difficulty::Hard);
    s.generate_foot();
    let f = s.food.expect("a free cell exists, so the spawner must place food");
    assert!(0 <= f.col && f.col < 30);
    assert!(0 <= f.row && f.row < 20);
    assert!(!s.body.contains(&f));
    // a second spawner pass leaves the live food alone
    s.generate_foot();
    assert_eq!(s.food, Some(f));
}

#[test]
fn food_rejected_on_occupied_cell() {
    let mut s = start(Difficulty::Simple);
    assert!(!s.try_place_food(Cell { col: 1, row: 0 }));
    assert!(s.food.is_none());
    assert!(s.try_place_food(Cell { col: 5, row: 5 }));
    assert_eq!(s.food, Some(Cell { col: 5, row: 5 }));
    // at most one live food at a time
    assert!(!s.try_place_food(Cell { col: 6, row: 5 }));
    assert_eq!(s.food, Some(Cell { col: 5, row: 5 }));
}

#[test]
fn new_session_resets_everything() {
    let mut s = start(Difficulty::Simple);
    assert!(s.try_place_food(Cell { col: 2, row: 0 }));
    s.tick();
    s.change_direction(Dir::Up);
    s.tick();
    assert_eq!(s.state, GameState::Menu);
    s.cleanup_game();
    s.menu_select(Difficulty::Hard);
    assert_eq!(s.score, 0);
    assert_eq!(s.body.len(), 2);
    assert_eq!(s.body[0], Cell { col: 1, row: 0 });
    assert!(s.food.is_none());
    assert!(!s.game_over);
    assert_eq!(s.velocity, Some(Dir::Right));
    assert_eq!(s.tick_us, 1000000);
    assert_eq!(s.difficulty, Difficulty::Hard);
}

#[test]
fn occupancy_tracks_body_through_a_session() {
    let mut s = start(Difficulty::Simple);
    for col in 2..10 {
        assert!(s.try_place_food(Cell { col, row: 0 }));
        s.tick();
        // every segment's cell is occupied, the cells beside the snake free
        for seg in s.body.iter() {
            assert!(s.occupied(*seg));
        }
        assert!(!s.occupied(Cell { col: 15, row: 15 }));
    }
    assert_eq!(s.body.len(), 10);
}
