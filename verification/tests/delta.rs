use std::collections::BTreeMap;
use gamerobotfactory::delta::compute_delta;
use gamerobotfactory::protocol::{
    ConveyorView, ProductView, RobotView, StationView, WireCellId, WireDirection, WirePose, WireRobotRole, WireStatus, WireTask, PROTOCOL_VERSION,
};
use gamerobotfactory::sim::BodyPose;

fn robot_view(id: u32, x: i32) -> RobotView {
    RobotView {
        id,
        pos: WireCellId { x, y: 0 },
        pose: BodyPose::Standing.into(),
        leg_cycle_step: 0,
        task: WireTask::Idle,
        status: WireStatus::Operational,
        durability_twentieths: 20,
        path: Vec::new(),
        facing: WireDirection::East,
        carrying: false,
        role: WireRobotRole::Helper,
    }
}

fn product_view(id: u32, x: i32, stage: u8) -> ProductView {
    ProductView { id, stage, pos: WireCellId { x, y: 0 } }
}

fn running() -> ConveyorView {
    ConveyorView { running: true }
}

#[test]
fn unchanged_robots_are_omitted_from_delta() {
    let prev = vec![robot_view(1, 0)];
    let curr = vec![robot_view(1, 0)];

    let msg = compute_delta(running(), &prev, &vec![], 1, running(), &curr, &vec![], &vec![]);

    assert!(msg.conveyor.is_none());
    assert!(msg.changed_robots.is_empty());
    assert!(msg.removed_robot_ids.is_empty());
}

#[test]
fn moved_robot_is_included_in_delta() {
    let prev = vec![robot_view(1, 0)];
    let curr = vec![robot_view(1, 1)];

    let msg = compute_delta(running(), &prev, &vec![], 1, running(), &curr, &vec![], &vec![]);

    assert_eq!(msg.changed_robots, vec![robot_view(1, 1)]);
}

#[test]
fn removed_robot_id_is_reported() {
    let prev = vec![robot_view(1, 0), robot_view(2, 0)];
    let curr = vec![robot_view(1, 0)];

    let msg = compute_delta(running(), &prev, &vec![], 1, running(), &curr, &vec![], &vec![]);

    assert_eq!(msg.removed_robot_ids, vec![2]);
    assert!(msg.changed_robots.is_empty());
}

#[test]
fn new_robot_is_included_in_delta() {
    let prev = vec![robot_view(1, 0)];
    let curr = vec![robot_view(1, 0), robot_view(2, 5)];

    let msg = compute_delta(running(), &prev, &vec![], 1, running(), &curr, &vec![], &vec![]);

    assert_eq!(msg.changed_robots, vec![robot_view(2, 5)], "only the newly-added robot should appear");
    assert!(msg.removed_robot_ids.is_empty());
}

#[test]
fn conveyor_change_is_reported_only_when_it_changed() {
    let msg = compute_delta(running(), &vec![], &vec![], 1, ConveyorView { running: false }, &vec![], &vec![], &vec![]);
    assert_eq!(msg.conveyor, Some(ConveyorView { running: false }));
}

#[test]
fn changed_product_is_included_and_unchanged_is_omitted() {
    let prev_products = vec![product_view(1, 0, 0), product_view(2, 5, 1)];
    let curr_products = vec![product_view(1, 1, 0), product_view(2, 5, 1)];

    let msg = compute_delta(running(), &vec![], &prev_products, 1, running(), &vec![], &vec![], &curr_products);

    assert_eq!(msg.changed_products, vec![product_view(1, 1, 0)]);
    assert!(msg.removed_product_ids.is_empty());
}

#[test]
fn removed_product_id_is_reported() {
    let prev_products = vec![product_view(1, 0, 0)];

    let msg = compute_delta(running(), &vec![], &prev_products, 1, running(), &vec![], &vec![], &vec![]);

    assert_eq!(msg.removed_product_ids, vec![1]);
}

#[test]
fn delta_carries_version_tick_and_every_station() {
    let stations = vec![StationView {
        index: 0,
        robot_cell: WireCellId { x: 2, y: 2 },
        belt_cell: WireCellId { x: 2, y: 3 },
        part_inventory: 4,
    }];
    let msg = compute_delta(running(), &vec![], &vec![], 77, running(), &vec![], &stations, &vec![]);
    assert_eq!(msg.v, PROTOCOL_VERSION);
    assert_eq!(msg.tick, 77);
    assert_eq!(msg.stations, stations);
    assert_eq!(WirePose::from(BodyPose::Crouching), WirePose::Crouching);
}

#[test]
fn a_robot_whose_path_changed_is_sent_again() {
    let prev = vec![robot_view(1, 0)];
    let mut moved = robot_view(1, 0);
    moved.path = vec![WireCellId { x: 1, y: 0 }];
    let curr = vec![moved.clone()];
    let msg = compute_delta(running(), &prev, &vec![], 2, running(), &curr, &vec![], &vec![]);
    assert_eq!(msg.changed_robots, vec![moved]);
}

#[test]
fn applying_a_delta_to_the_previous_views_gives_the_current_views() {
    let prev_robots = vec![robot_view(1, 0), robot_view(2, 3), robot_view(3, 4)];
    let mut turned = robot_view(3, 4);
    turned.facing = WireDirection::North;
    let curr_robots = vec![robot_view(1, 0), turned, robot_view(4, 6)];
    let prev_products = vec![product_view(10, 0, 0), product_view(11, 2, 1)];
    let curr_products = vec![product_view(11, 3, 1), product_view(12, 0, 0)];

    let msg = compute_delta(
        running(),
        &prev_robots,
        &prev_products,
        5,
        ConveyorView { running: false },
        &curr_robots,
        &vec![],
        &curr_products,
    );

    let mut robots: BTreeMap<u32, RobotView> = prev_robots.iter().map(|r| (r.id, r.clone())).collect();
    for id in &msg.removed_robot_ids {
        robots.remove(id);
    }
    for r in &msg.changed_robots {
        robots.insert(r.id, r.clone());
    }
    let expected: BTreeMap<u32, RobotView> = curr_robots.iter().map(|r| (r.id, r.clone())).collect();
    assert_eq!(robots, expected);

    let mut products: BTreeMap<u32, ProductView> = prev_products.iter().map(|p| (p.id, *p)).collect();
    for id in &msg.removed_product_ids {
        products.remove(id);
    }
    for p in &msg.changed_products {
        products.insert(p.id, *p);
    }
    let expected: BTreeMap<u32, ProductView> = curr_products.iter().map(|p| (p.id, *p)).collect();
    assert_eq!(products, expected);

    let conveyor = msg.conveyor.unwrap_or(running());
    assert_eq!(conveyor, ConveyorView { running: false });
}
