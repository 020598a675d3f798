use gamerobotfactory::grid::Grid;
use gamerobotfactory::sim::{
    deterministic_roll, tick, update_status, Direction, HelperTask, Product, Robot, RobotRole, RobotStatus, SimState,
    Station, Task, ASSEMBLY_TICKS, BELT_END_X, BELT_ROW, BELT_START_X, FAILURE_ODDS, HELPER_DROP_TICKS,
    HELPER_SPAWN_STAGING_CELLS, STATION_COUNT, STATION_MAX_INVENTORY, STATION_ROBOT_ROW, STATION_XS, WAREHOUSE_CELL,
    WEAR_LIMIT_TICKS,
};

fn simple_state(width: i32, height: i32) -> SimState {
    SimState::new(Grid::new(width, height), Vec::new())
}

fn roll_fraction(robot_id: u32, tick_count: u64) -> f64 {
    deterministic_roll(robot_id, tick_count) as f64 / u64::MAX as f64
}

#[test]
fn new_robot_starts_idle() {
    let robot = Robot::new(1, (0, 0), (0, 0));
    assert_eq!(robot.task, Task::Idle);
}

#[test]
fn new_robot_starts_operational_with_no_wear() {
    let robot = Robot::new(1, (0, 0), (0, 0));
    assert_eq!(robot.status, RobotStatus::Operational);
    assert_eq!(robot.worn_ticks, 0);
}

#[test]
fn worn_ticks_accumulates_only_while_working() {
    let idle = update_status(Robot::new(1, (0, 0), (0, 0)), 0);
    assert_eq!(idle.worn_ticks, 0, "Idle robots should not wear");

    let mut working = Robot::new(2, (0, 0), (0, 0));
    working.task = Task::Picking;
    let working = update_status(working, 0);
    assert_eq!(working.worn_ticks, 1, "a working robot should wear by exactly one tick");
}

#[test]
fn repairing_robot_does_not_accumulate_wear() {
    let mut robot = Robot::new(1, (0, 0), (0, 0));
    robot.task = Task::Picking;
    robot.status = RobotStatus::Repairing { remaining_ticks: 5 };
    robot.worn_ticks = 10;

    let next = update_status(robot, 0);

    assert_eq!(next.worn_ticks, 10, "wear must not accumulate while repairing");
}

#[test]
fn deterministic_roll_is_pure_and_repeatable() {
    let a = deterministic_roll(7, 1000);
    let b = deterministic_roll(7, 1000);
    assert_eq!(a, b);
}

#[test]
fn deterministic_roll_stays_within_unit_interval() {
    for tick in 0..1000u64 {
        let roll = roll_fraction(3, tick);
        assert!((0.0..=1.0).contains(&roll), "roll {roll} out of range at tick {tick}");
    }
}

#[test]
fn deterministic_roll_is_roughly_uniformly_distributed() {
    let sum: f64 = (0..10_000u64).map(|tick| roll_fraction(42, tick)).sum();
    let mean = sum / 10_000.0;
    assert!((0.4..0.6).contains(&mean), "mean {mean} is far from the expected ~0.5 for a uniform distribution");
}

#[test]
fn fully_worn_robot_fails_at_roughly_max_failure_prob_rate() {
    let max_failure_prob = 1.0 / FAILURE_ODDS as f64;
    let mut failures = 0u32;
    let samples = 20_000u64;
    for tick in 0..samples {
        let mut robot = Robot::new(1, (0, 0), (0, 0));
        robot.task = Task::Picking;
        robot.worn_ticks = WEAR_LIMIT_TICKS;
        let next = update_status(robot, tick);
        if next.status == RobotStatus::Failed {
            failures += 1;
        }
    }
    let rate = failures as f64 / samples as f64;
    let expected_range = (max_failure_prob * 0.5)..(max_failure_prob * 1.5);
    assert!(expected_range.contains(&rate), "expected a failure rate near {max_failure_prob}, got {rate}");
}

#[test]
fn failed_robot_does_not_move_even_toward_an_unreached_goal() {
    let mut state = simple_state(5, 1);
    let mut robot = Robot::new(1, (0, 0), (3, 0));
    robot.status = RobotStatus::Failed;
    state.robots.push(robot);

    let next = tick(&state, false);

    assert_eq!(next.robots[0].pos, (0, 0), "a Failed robot must not move");
}

#[test]
fn failed_robot_permanently_blocks_the_cell_for_other_robots() {
    let mut blocker = Robot::new(1, (1, 0), (2, 0));
    blocker.status = RobotStatus::Failed;
    let mover = Robot::new(2, (0, 0), (2, 0));
    let mut state = simple_state(3, 1);
    state.robots.push(blocker);
    state.robots.push(mover);

    for _ in 0..10 {
        state = tick(&state, false);
        let blocker_after = state.robots.iter().find(|r| r.id == 1).unwrap();
        let mover_after = state.robots.iter().find(|r| r.id == 2).unwrap();
        assert_eq!(blocker_after.pos, (1, 0), "a Failed robot must never move, even toward its own unreached goal");
        assert_eq!(mover_after.pos, (0, 0), "the mover can never advance into a cell permanently occupied by a Failed robot");
    }
}

#[test]
fn repairing_robot_counts_down_and_returns_to_operational() {
    let mut state = simple_state(3, 1);
    let mut robot = Robot::new(1, (0, 0), (0, 0));
    robot.status = RobotStatus::Repairing { remaining_ticks: 2 };
    robot.worn_ticks = 500;
    state.robots.push(robot);

    let after_one = tick(&state, false);
    assert_eq!(after_one.robots[0].status, RobotStatus::Repairing { remaining_ticks: 1 });

    let after_two = tick(&after_one, false);
    assert_eq!(after_two.robots[0].status, RobotStatus::Operational);
    assert_eq!(after_two.robots[0].worn_ticks, 0, "worn_ticks should reset to 0 once repair completes");
}

#[test]
fn direction_from_move_detects_four_cardinal_directions() {
    assert_eq!(Direction::from_move((0, 0), (1, 0)), Some(Direction::East));
    assert_eq!(Direction::from_move((0, 0), (-1, 0)), Some(Direction::West));
    assert_eq!(Direction::from_move((0, 0), (0, 1)), Some(Direction::North));
    assert_eq!(Direction::from_move((0, 0), (0, -1)), Some(Direction::South));
}

#[test]
fn direction_from_move_returns_none_when_positions_are_equal() {
    assert_eq!(Direction::from_move((2, 2), (2, 2)), None);
}

#[test]
fn new_robot_faces_east_by_default() {
    let robot = Robot::new(1, (0, 0), (0, 0));
    assert_eq!(robot.facing, Direction::East);
}

#[test]
fn station_new_derives_correct_cells_from_index() {
    let s0 = Station::new(0);
    assert_eq!(s0.belt_cell, (STATION_XS[0], BELT_ROW));
    assert_eq!(s0.robot_cell, (STATION_XS[0], STATION_ROBOT_ROW));
    assert_eq!(s0.part_inventory, STATION_MAX_INVENTORY);
}

#[test]
fn sim_state_new_seeds_exactly_station_count_stations_with_no_products() {
    let state = SimState::new(Grid::new(9, 7), Vec::new());
    assert_eq!(state.stations.len(), STATION_COUNT);
    assert!(state.products.is_empty());
    for (i, station) in state.stations.iter().enumerate() {
        assert_eq!(station.index, i as u8);
    }
}

#[test]
fn new_robot_defaults_to_helper_role() {
    let robot = Robot::new(1, (0, 0), (0, 0));
    assert_eq!(robot.role, RobotRole::Helper);
}

fn state_with_products(products: Vec<Product>) -> SimState {
    let mut state = SimState::new(Grid::new(9, 7), Vec::new());
    state.products = products;
    state
}

#[test]
fn product_advances_one_cell_per_tick_when_not_blocked_by_a_station() {
    let mut state = state_with_products(vec![Product::new(1, (5, BELT_ROW))]);
    state = tick(&state, true);
    assert_eq!(state.products[0].pos, (6, BELT_ROW));
}

#[test]
fn product_stops_at_its_matching_station_and_assembles_over_assembly_ticks() {
    let station_x = STATION_XS[0];
    let mut state = state_with_products(vec![Product::new(1, (station_x, BELT_ROW))]);

    state = tick(&state, true);
    assert_eq!(state.products[0].pos, (station_x, BELT_ROW), "a product being assembled must not move");
    assert_eq!(state.products[0].stage, 0, "assembly is not finished yet");
    assert_eq!(state.stations[0].part_inventory, STATION_MAX_INVENTORY - 1, "exactly one part must be used");

    for _ in 0..ASSEMBLY_TICKS - 1 {
        state = tick(&state, true);
    }
    assert_eq!(state.products[0].stage, 0, "the stage must not rise before the ASSEMBLY_TICKS-th tick");

    state = tick(&state, true);
    assert_eq!(state.products[0].stage, 1, "the stage must rise on exactly the ASSEMBLY_TICKS-th tick");
    assert_eq!(
        state.products[0].pos,
        (station_x + 1, BELT_ROW),
        "on the tick its stage rises the product moves on one cell"
    );
}

#[test]
fn product_waits_in_place_when_its_station_has_no_inventory() {
    let station_x = STATION_XS[0];
    let mut state = state_with_products(vec![Product::new(1, (station_x, BELT_ROW))]);
    state.stations[0].part_inventory = 0;

    for _ in 0..10 {
        state = tick(&state, true);
    }

    assert_eq!(state.products[0].pos, (station_x, BELT_ROW), "without parts the product must keep waiting");
    assert_eq!(state.products[0].stage, 0);
    assert_eq!(state.products[0].work_ticks_remaining, 0, "without parts no assembly countdown may start");
}

#[test]
fn product_resumes_automatically_once_inventory_is_replenished() {
    let station_x = STATION_XS[0];
    let mut state = state_with_products(vec![Product::new(1, (station_x, BELT_ROW))]);
    state.stations[0].part_inventory = 0;
    state = tick(&state, true);
    assert_eq!(state.products[0].work_ticks_remaining, 0);

    state.stations[0].part_inventory = STATION_MAX_INVENTORY;
    state = tick(&state, true);
    assert!(state.products[0].work_ticks_remaining > 0, "once restocked, assembly must resume on the same tick");
}

#[test]
fn a_stalled_product_blocks_the_one_behind_it() {
    let station_x = STATION_XS[0];
    let mut state = state_with_products(vec![
        Product::new(1, (station_x, BELT_ROW)),
        Product::new(2, (station_x - 1, BELT_ROW)),
    ]);
    state.stations[0].part_inventory = 0;

    state = tick(&state, true);

    assert_eq!(state.products.iter().find(|p| p.id == 1).unwrap().pos, (station_x, BELT_ROW));
    assert_eq!(
        state.products.iter().find(|p| p.id == 2).unwrap().pos,
        (station_x - 1, BELT_ROW),
        "with the cell ahead blocked the product behind must not move"
    );
}

#[test]
fn lower_id_wins_when_two_products_target_the_same_cell() {
    let mut state = state_with_products(vec![Product::new(2, (5, BELT_ROW)), Product::new(1, (5, BELT_ROW))]);

    state = tick(&state, true);

    let winner = state.products.iter().find(|p| p.pos == (6, BELT_ROW)).expect("exactly one product must advance");
    assert_eq!(winner.id, 1, "the lower id must win");
    let loser = state.products.iter().find(|p| p.id == 2).unwrap();
    assert_eq!(loser.pos, (5, BELT_ROW), "the higher id must stay in its cell");
}

#[test]
fn product_completing_the_final_station_and_reaching_the_belt_end_is_removed() {
    let mut state = state_with_products(vec![{
        let mut p = Product::new(1, (BELT_END_X - 1, BELT_ROW));
        p.stage = STATION_COUNT as u8;
        p
    }]);

    state = tick(&state, true);

    assert!(state.products.is_empty(), "a finished product reaching the end of the belt must leave");
}

#[test]
fn products_do_not_move_or_assemble_while_conveyor_is_off() {
    let station_x = STATION_XS[0];
    let state = state_with_products(vec![Product::new(1, (station_x, BELT_ROW))]);

    let next = tick(&state, false);

    assert_eq!(next.products[0].pos, (station_x, BELT_ROW));
    assert_eq!(next.products[0].work_ticks_remaining, 0);
    assert_eq!(next.stations[0].part_inventory, STATION_MAX_INVENTORY, "no parts may be used while the conveyor is off");
}

#[test]
fn assembly_role_robot_never_moves_even_with_conveyor_running() {
    let mut robot = Robot::new(1, (STATION_XS[0], STATION_ROBOT_ROW), (0, 0));
    robot.role = RobotRole::Assembly { station_index: 0 };
    let mut state = SimState::new(Grid::new(9, 7), vec![robot]);

    for _ in 0..20 {
        state = tick(&state, true);
    }

    assert_eq!(state.robots[0].pos, (STATION_XS[0], STATION_ROBOT_ROW), "an assembly robot must never move");
}

#[test]
fn a_depleted_station_gets_exactly_one_restock_request_queued() {
    let mut state = SimState::new(Grid::new(9, 7), Vec::new());
    state.stations[0].part_inventory = 0;

    let next = tick(&state, true);

    let assigned_count = next
        .robots
        .iter()
        .filter(|r| r.helper_assignment == Some(HelperTask::RestockStation { station_index: 0 }))
        .count();
    assert_eq!(assigned_count, 0, "with no helper the request is only queued, not assigned");
    let restock_request_count = |s: &SimState| {
        s.pending_helper_tasks.iter().filter(|t| **t == HelperTask::RestockStation { station_index: 0 }).count()
    };
    assert_eq!(restock_request_count(&next), 1, "the request must be queued exactly once");

    let after_another_tick = tick(&next, true);
    assert_eq!(
        restock_request_count(&after_another_tick),
        1,
        "a request already queued must not be queued again while the inventory stays empty"
    );
}

#[test]
fn an_idle_helper_gets_assigned_the_oldest_pending_request() {
    let mut state = SimState::new(Grid::new(9, 7), vec![Robot::new(1, WAREHOUSE_CELL, WAREHOUSE_CELL)]);
    state.stations[0].part_inventory = 0;

    let next = tick(&state, true);

    assert_eq!(next.robots[0].helper_assignment, Some(HelperTask::RestockStation { station_index: 0 }));
}

#[test]
fn helper_restocks_a_station_end_to_end() {
    let mut state = SimState::new(Grid::new(9, 7), vec![Robot::new(1, WAREHOUSE_CELL, WAREHOUSE_CELL)]);
    state.stations[0].part_inventory = 0;

    let mut restocked = false;
    for _ in 0..500 {
        state = tick(&state, true);
        if state.stations[0].part_inventory == STATION_MAX_INVENTORY {
            restocked = true;
            break;
        }
    }
    assert!(restocked, "the helper must eventually restock the station");
    assert_eq!(state.robots[0].helper_assignment, None, "the assignment must be released once the job is done");
    assert!(!state.robots[0].carrying);
}

#[test]
fn helper_drop_countdown_actually_elapses_after_arriving_and_is_not_skipped() {
    let mut robot = Robot::new(1, WAREHOUSE_CELL, WAREHOUSE_CELL);
    robot.carrying = true;
    robot.work_ticks_remaining = 0;
    robot.helper_assignment = Some(HelperTask::RestockStation { station_index: 0 });
    let mut state = SimState::new(Grid::new(9, 7), vec![robot]);
    state.stations[0].part_inventory = 0;

    let manhattan_distance = (WAREHOUSE_CELL.0 - STATION_XS[0]).abs() + (WAREHOUSE_CELL.1 - STATION_ROBOT_ROW).abs();

    let mut ticks_elapsed = 0;
    loop {
        state = tick(&state, true);
        ticks_elapsed += 1;
        if state.robots[0].helper_assignment.is_none() {
            break;
        }
        if ticks_elapsed > 100 {
            panic!("never completed");
        }
    }
    assert!(
        ticks_elapsed >= manhattan_distance as u32 + HELPER_DROP_TICKS,
        "expected at least travel({manhattan_distance}) + HELPER_DROP_TICKS({HELPER_DROP_TICKS}) ticks, got {ticks_elapsed}"
    );
}

#[test]
fn helper_delivers_a_fresh_frame_when_the_line_start_is_empty() {
    let state = SimState::new(Grid::new(9, 7), vec![Robot::new(1, WAREHOUSE_CELL, WAREHOUSE_CELL)]);
    assert!(state.products.is_empty());

    let mut state = state;
    let mut delivered = false;
    for _ in 0..500 {
        state = tick(&state, true);
        if state.products.iter().any(|p| p.pos == (BELT_START_X, BELT_ROW) && p.stage == 0) {
            delivered = true;
            break;
        }
    }
    assert!(delivered, "with the line start empty a helper must eventually deliver a fresh frame");
}

#[test]
fn assembly_robots_are_never_assigned_helper_tasks() {
    let cell = (STATION_XS[0], STATION_ROBOT_ROW);
    let mut robot = Robot::new(1, cell, cell);
    robot.role = RobotRole::Assembly { station_index: 0 };
    let mut state = SimState::new(Grid::new(9, 7), vec![robot]);
    state.stations[0].part_inventory = 0;

    let next = tick(&state, true);

    assert_eq!(next.robots[0].helper_assignment, None);
}

#[test]
fn two_simultaneously_depleted_stations_are_each_restocked_by_a_different_idle_helper() {
    let mut state = SimState::new(
        Grid::new(9, 7),
        vec![Robot::new(1, WAREHOUSE_CELL, WAREHOUSE_CELL), Robot::new(2, WAREHOUSE_CELL, WAREHOUSE_CELL)],
    );
    state.stations[0].part_inventory = 0;
    state.stations[1].part_inventory = 0;
    assert_eq!(state.stations[2].part_inventory, STATION_MAX_INVENTORY);

    let next = tick(&state, true);

    let assignment_of = |s: &SimState, id: u32| s.robots.iter().find(|r| r.id == id).unwrap().helper_assignment;
    assert_eq!(assignment_of(&next, 1), Some(HelperTask::RestockStation { station_index: 0 }));
    assert_eq!(assignment_of(&next, 2), Some(HelperTask::RestockStation { station_index: 1 }));
    assert_ne!(
        assignment_of(&next, 1),
        assignment_of(&next, 2),
        "two helpers must take different stations rather than compete for one job"
    );

    let mut state = next;
    let mut station0_done = false;
    let mut station1_done = false;
    for _ in 0..500 {
        state = tick(&state, true);
        station0_done |= state.stations[0].part_inventory == STATION_MAX_INVENTORY;
        station1_done |= state.stations[1].part_inventory == STATION_MAX_INVENTORY;
        if station0_done && station1_done {
            break;
        }
    }
    assert!(station0_done, "station 0 must eventually be restocked");
    assert!(station1_done, "station 1 must eventually be restocked");
    assert_eq!(
        state.stations[2].part_inventory, STATION_MAX_INVENTORY,
        "station 2, full from the start, must stay full"
    );
}

#[test]
fn multiple_simultaneously_idle_helpers_do_not_permanently_block_a_helper_returning_to_the_warehouse_cell() {
    let idle_cell_for = |id: u32| HELPER_SPAWN_STAGING_CELLS[id as usize % HELPER_SPAWN_STAGING_CELLS.len()];

    let mut robots = vec![Robot::new(1, (0, 6), (0, 6))];
    for id in [2u32, 3, 4, 5] {
        let cell = idle_cell_for(id);
        robots.push(Robot::new(id, cell, cell));
    }
    let mut state = SimState::new(Grid::new(9, 7), robots);
    state.stations[0].part_inventory = 0;

    let mut restocked = false;
    for _ in 0..2000 {
        state = tick(&state, true);
        if state.stations[0].part_inventory == STATION_MAX_INVENTORY {
            restocked = true;
            break;
        }
    }

    assert!(
        restocked,
        "with several helpers idle on the staging cells, the assigned helper must still reach WAREHOUSE_CELL \
         and restock the station"
    );
}
