use gamerobotfactory::belt::plan_products;
use gamerobotfactory::events::{count_repairing, newly_failed, FailureEvent};
use gamerobotfactory::logistics::run_helper_logistics;
use gamerobotfactory::sim::{
    resolve_intents, HelperTask, MoveIntent, Product, Robot, RobotRole, RobotStatus, Station, BELT_ROW, BELT_START_X,
    STATION_MAX_INVENTORY, WAREHOUSE_CELL,
};

fn standard_stations() -> Vec<Station> {
    vec![Station::new(0), Station::new(1), Station::new(2)]
}

#[test]
fn a_product_cannot_move_into_a_cell_vacated_during_the_same_tick() {
    // Product 2 (stage 0) is not at its station on column 4, so it moves on;
    // product 1 wanted column 4, taken at the start of the tick.
    let products = vec![Product::new(1, (3, BELT_ROW)), Product::new(2, (4, BELT_ROW))];
    let (after, stations) = plan_products(&products, &standard_stations());
    assert_eq!(after[0].pos, (3, BELT_ROW));
    assert_eq!(after[1].pos, (5, BELT_ROW));
    assert_eq!(stations, standard_stations());
}

#[test]
fn a_product_arriving_at_its_station_starts_assembly_on_the_next_tick() {
    let products = vec![Product::new(1, (1, BELT_ROW))];
    let (after, stations) = plan_products(&products, &standard_stations());
    assert_eq!(after[0].pos, (2, BELT_ROW));
    assert_eq!(after[0].work_ticks_remaining, 0);
    assert_eq!(stations[0].part_inventory, STATION_MAX_INVENTORY);
    let (after, stations) = plan_products(&after, &stations);
    assert_eq!(after[0].pos, (2, BELT_ROW));
    assert!(after[0].work_ticks_remaining > 0);
    assert_eq!(stations[0].part_inventory, STATION_MAX_INVENTORY - 1);
}

#[test]
fn contested_cell_goes_to_the_lowest_id_whatever_the_order() {
    let intents = vec![
        MoveIntent { mover_id: 9, from: (0, 0), to: (1, 0) },
        MoveIntent { mover_id: 3, from: (2, 0), to: (1, 0) },
        MoveIntent { mover_id: 5, from: (1, 1), to: (1, 2) },
    ];
    assert_eq!(resolve_intents(&intents), vec![(0, 0), (1, 0), (1, 2)]);
    let reversed = vec![intents[2], intents[1], intents[0]];
    assert_eq!(resolve_intents(&reversed), vec![(1, 2), (1, 0), (0, 0)]);
}

#[test]
fn idle_helpers_take_the_oldest_jobs_in_order_of_id() {
    let robots = vec![Robot::new(5, (0, 0), (0, 0)), Robot::new(2, (2, 0), (2, 0))];
    let pending = vec![HelperTask::RestockStation { station_index: 1 }];
    let (robots, _stations, _products, pending) =
        run_helper_logistics(robots, standard_stations(), Vec::new(), pending, true);
    assert_eq!(robots[1].helper_assignment, Some(HelperTask::RestockStation { station_index: 1 }));
    assert_eq!(robots[0].helper_assignment, Some(HelperTask::DeliverFrame));
    assert!(pending.is_empty());
}

#[test]
fn logistics_do_nothing_while_the_conveyor_is_stopped() {
    let robots = vec![Robot::new(1, (0, 0), (0, 0))];
    let mut stations = standard_stations();
    stations[0].part_inventory = 0;
    let (robots, stations, products, pending) = run_helper_logistics(robots, stations, Vec::new(), Vec::new(), false);
    assert_eq!(robots[0].helper_assignment, None);
    assert_eq!(stations[0].part_inventory, 0);
    assert!(products.is_empty());
    assert!(pending.is_empty());
}

#[test]
fn a_finished_frame_delivery_puts_a_fresh_frame_on_the_line_start() {
    let mut helper = Robot::new(4, (BELT_START_X, BELT_ROW), (BELT_START_X, BELT_ROW));
    helper.carrying = true;
    helper.work_ticks_remaining = 0;
    helper.helper_assignment = Some(HelperTask::DeliverFrame);
    let products = vec![Product::new(6, (5, BELT_ROW))];
    let (robots, _stations, products, pending) =
        run_helper_logistics(vec![helper], standard_stations(), products, Vec::new(), true);
    assert_eq!(products.len(), 2);
    assert_eq!(products[1], Product::new(7, (BELT_START_X, BELT_ROW)));
    assert_eq!(robots[0].helper_assignment, None);
    assert!(!robots[0].carrying);
    assert!(pending.is_empty());
}

#[test]
fn a_finished_restock_fills_the_station() {
    let mut stations = standard_stations();
    stations[2].part_inventory = 1;
    let cell = stations[2].robot_cell;
    let mut helper = Robot::new(1, cell, cell);
    helper.carrying = true;
    helper.helper_assignment = Some(HelperTask::RestockStation { station_index: 2 });
    let (robots, stations, _products, _pending) =
        run_helper_logistics(vec![helper], stations, vec![Product::new(0, (BELT_START_X, BELT_ROW))], Vec::new(), true);
    assert_eq!(stations[2].part_inventory, STATION_MAX_INVENTORY);
    assert_eq!(robots[0].helper_assignment, None);
}

#[test]
fn assembly_robots_hold_no_jobs_even_when_idle() {
    let mut assembly = Robot::new(1, WAREHOUSE_CELL, WAREHOUSE_CELL);
    assembly.role = RobotRole::Assembly { station_index: 0 };
    let (robots, _stations, _products, pending) =
        run_helper_logistics(vec![assembly], standard_stations(), Vec::new(), Vec::new(), true);
    assert_eq!(robots[0].helper_assignment, None);
    assert_eq!(pending, vec![HelperTask::DeliverFrame]);
}

#[test]
fn failures_are_reported_once_as_they_happen() {
    let before = vec![Robot::new(1, (0, 0), (0, 0)), Robot::new(2, (1, 0), (1, 0)), Robot::new(3, (2, 0), (2, 0))];
    let mut after = vec![Robot::new(1, (0, 0), (0, 0)), Robot::new(2, (1, 0), (1, 0)), Robot::new(3, (2, 0), (2, 0))];
    after[0].status = RobotStatus::Failed;
    after[2].status = RobotStatus::Repairing { remaining_ticks: 3 };
    assert_eq!(newly_failed(&before, &after), vec![1]);
    assert_eq!(newly_failed(&after, &after), Vec::<u32>::new());
    assert_eq!(count_repairing(&after), 1);
    let event = FailureEvent::failed(12, 1);
    assert_eq!(event, FailureEvent { tick: 12, robot_id: 1, event_type: "failed".to_string() });
}

#[test]
fn a_belt_tick_keeps_product_order_and_drops_products_reaching_the_end() {
    let mut leaving = Product::new(5, (6, BELT_ROW));
    leaving.stage = 3;
    let mut behind = Product::new(2, (5, BELT_ROW));
    behind.stage = 3;
    let mut early = Product::new(9, (BELT_START_X, BELT_ROW));
    early.stage = 3;
    let (after, _) = plan_products(&vec![leaving, behind, early], &standard_stations());
    let ids: Vec<u32> = after.iter().map(|p| p.id).collect();
    assert_eq!(ids, vec![2, 9]);
    // Column 6 was taken at the start of the tick, so product 2 waits.
    assert_eq!(after[0].pos, (5, BELT_ROW));
    assert_eq!(after[1].pos, (BELT_START_X + 1, BELT_ROW));
}

#[test]
fn with_no_helpers_every_need_stays_queued() {
    let mut stations = standard_stations();
    stations[1].part_inventory = 0;
    let (robots, stations, products, pending) =
        run_helper_logistics(Vec::new(), stations, Vec::new(), Vec::new(), true);
    assert!(robots.is_empty());
    assert_eq!(stations[1].part_inventory, 0);
    assert!(products.is_empty());
    assert_eq!(pending, vec![HelperTask::RestockStation { station_index: 1 }, HelperTask::DeliverFrame]);
}
