use gamerobotfactory::game_state::GameState;
use gamerobotfactory::grid::Grid;
use gamerobotfactory::sim::{check_tick_ready, tick, Robot, RobotStatus, SimState, WAREHOUSE_CELL};
use std::collections::HashSet;

fn crowded_state() -> SimState {
    let mut robots = Vec::new();
    let mut id = 0u32;
    for x in 0..6 {
        for y in 0..2 {
            let mut robot = Robot::new(id, (x, y), (5 - x, 4 - y));
            if id % 5 == 3 {
                robot.status = RobotStatus::Failed;
            }
            robots.push(robot);
            id += 1;
        }
    }
    SimState::new(Grid::new(9, 7), robots)
}

#[test]
fn robots_never_share_a_cell_over_many_ticks() {
    for conveyor in [false, true] {
        let mut state = crowded_state();
        for _ in 0..200 {
            assert!(check_tick_ready(&state));
            state = tick(&state, conveyor);
            let mut seen = HashSet::new();
            for robot in &state.robots {
                assert!(seen.insert(robot.pos), "two robots on {:?}", robot.pos);
            }
        }
    }
}

#[test]
fn tick_is_deterministic() {
    let a = tick(&crowded_state(), true);
    let b = tick(&crowded_state(), true);
    let positions = |s: &SimState| s.robots.iter().map(|r| (r.pos, r.status, r.helper_assignment)).collect::<Vec<_>>();
    assert_eq!(positions(&a), positions(&b));
    assert_eq!(a.tick_count, 1);
}

#[test]
fn failed_robots_stay_put_and_failed() {
    let mut state = crowded_state();
    let failed: Vec<(u32, (i32, i32))> =
        state.robots.iter().filter(|r| r.status == RobotStatus::Failed).map(|r| (r.id, r.pos)).collect();
    for _ in 0..50 {
        state = tick(&state, true);
    }
    for (id, pos) in failed {
        let robot = state.robots.iter().find(|r| r.id == id).unwrap();
        assert_eq!(robot.pos, pos);
        assert_eq!(robot.status, RobotStatus::Failed);
    }
}

#[test]
fn jobs_are_never_queued_or_held_twice() {
    let mut game = GameState::new(SimState::new(Grid::new(9, 7), Vec::new()));
    game.set_robot_count(4);
    for station in game.sim.stations.iter_mut() {
        station.part_inventory = 0;
    }
    for _ in 0..300 {
        game.sim = tick(&game.sim, true);
        let pending = &game.sim.pending_helper_tasks;
        let held: Vec<_> = game.sim.robots.iter().filter_map(|r| r.helper_assignment).collect();
        let mut all: Vec<_> = pending.iter().copied().chain(held.iter().copied()).collect();
        let total = all.len();
        all.sort_by_key(|t| format!("{t:?}"));
        all.dedup();
        assert_eq!(all.len(), total, "a job is queued or held twice: {pending:?} {held:?}");
    }
}

#[test]
fn a_state_at_the_end_of_time_cannot_tick() {
    let mut state = SimState::new(Grid::new(3, 3), vec![Robot::new(0, WAREHOUSE_CELL, WAREHOUSE_CELL)]);
    assert!(check_tick_ready(&state));
    state.tick_count = u64::MAX;
    assert!(!check_tick_ready(&state));
}
