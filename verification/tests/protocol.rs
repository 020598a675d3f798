use gamerobotfactory::game_state::{to_snapshot, GameState};
use gamerobotfactory::grid::Grid;
use gamerobotfactory::protocol::{
    durability_twentieths, pose_for, robot_view, WireCellId, WireDirection, WirePose, WireRobotRole, WireStatus, WireTask, PROTOCOL_VERSION,
};
use gamerobotfactory::sim::{BodyPose, Direction, Robot, RobotRole, RobotStatus, SimState, Task, WEAR_LIMIT_TICKS};

#[test]
fn robot_view_reports_operational_status_by_default() {
    let robot = Robot::new(1, (0, 0), (0, 0));
    let view = robot_view(&robot);
    assert_eq!(view.status, WireStatus::Operational);
    assert_eq!(view.durability_twentieths as f32 / 20.0, 1.0);
}

#[test]
fn robot_view_reports_repairing_status_with_remaining_ticks() {
    let mut robot = Robot::new(1, (0, 0), (0, 0));
    robot.status = RobotStatus::Repairing { remaining_ticks: 42 };

    let view = robot_view(&robot);

    assert_eq!(view.status, WireStatus::Repairing { remaining_ticks: 42 });
}

#[test]
fn robot_view_reports_path_as_wire_cells() {
    let mut robot = Robot::new(1, (0, 0), (5, 0));
    robot.path = vec![(1, 0), (2, 0)];

    let view = robot_view(&robot);

    assert_eq!(view.path, vec![WireCellId { x: 1, y: 0 }, WireCellId { x: 2, y: 0 }]);
}

#[test]
fn robot_view_reports_facing() {
    let mut robot = Robot::new(1, (0, 0), (0, 0));
    robot.facing = Direction::North;

    let view = robot_view(&robot);

    assert_eq!(view.facing, WireDirection::North);
}

#[test]
fn robot_view_pose_is_standing_when_idle_and_crouching_while_working() {
    let idle = Robot::new(1, (0, 0), (0, 0));
    assert_eq!(robot_view(&idle).pose, WirePose::Standing);

    let mut working = Robot::new(2, (0, 0), (0, 0));
    working.task = Task::Picking;
    assert_eq!(robot_view(&working).pose, WirePose::Crouching);
}

#[test]
fn to_snapshot_reflects_current_game_state() {
    let sim = SimState {
        grid: Grid::new(3, 3),
        robots: Vec::new(),
        products: Vec::new(),
        stations: Vec::new(),
        pending_helper_tasks: Vec::new(),
        tick_count: 5,
    };
    let mut state = GameState::new(sim);
    state.set_robot_count(2);
    state.toggle_conveyor();

    let snapshot = to_snapshot(&state);
    assert_eq!(snapshot.v, PROTOCOL_VERSION);
    assert_eq!(snapshot.tick, 5);
    assert!(!snapshot.conveyor.running);
    assert_eq!(snapshot.robots.len(), 2);
}

#[test]
fn robot_view_quantizes_durability_to_the_nearest_five_percent() {
    let mut robot = Robot::new(1, (0, 0), (0, 0));
    // With a wear limit of 20000 ticks, 3300 worn ticks leave 1 - 0.165 =
    // 0.835 of the durability, whose nearest five percent is 0.85.
    robot.worn_ticks = 3300;
    let view = robot_view(&robot);
    assert_eq!(view.durability_twentieths, 17);
    assert_eq!(view.durability_twentieths as f32 / 20.0, 0.85);
}

#[test]
fn durability_is_rounded_to_the_nearest_twentieth() {
    assert_eq!(durability_twentieths(0), 20);
    // 1 - 500 / 20000 = 0.975, exactly 19.5 twentieths: halves round up.
    assert_eq!(durability_twentieths(500), 20);
    assert_eq!(durability_twentieths(501), 19);
    assert_eq!(durability_twentieths(WEAR_LIMIT_TICKS), 0);
    assert_eq!(durability_twentieths(u64::MAX - 1), 0);
}

#[test]
fn durability_halves_match_single_precision_rounding() {
    for worn in (500u64..20000).step_by(1000) {
        let ratio = (worn as f32 / WEAR_LIMIT_TICKS as f32).min(1.0);
        let expected = ((1.0 - ratio) * 20.0).round();
        assert_eq!(durability_twentieths(worn) as f32, expected, "worn ticks {worn}");
    }
    assert_eq!(durability_twentieths(19500), 0);
    assert_eq!(durability_twentieths(18500), 1);
    assert_eq!(durability_twentieths(17500), 3);
}

#[test]
fn robot_view_reports_role_task_and_gait_step() {
    let mut robot = Robot::new(3, (1, 2), (1, 2));
    robot.role = RobotRole::Assembly { station_index: 2 };
    robot.task = Task::Placing;
    robot.leg_cycle_step = 7;
    robot.carrying = true;
    let view = robot_view(&robot);
    assert_eq!(view.id, 3);
    assert_eq!(view.pos, WireCellId { x: 1, y: 2 });
    assert_eq!(view.role, WireRobotRole::Assembly { station_index: 2 });
    assert_eq!(view.task, WireTask::Placing);
    assert_eq!(view.leg_cycle_step, 7);
    assert!(view.carrying);
}

#[test]
fn wire_task_converts_both_ways() {
    for task in [Task::Idle, Task::Picking, Task::Placing] {
        assert_eq!(Task::from(WireTask::from(task)), task);
    }
    assert_eq!(Task::from(WireTask::Picking), Task::Picking);
    assert_eq!(pose_for(Task::Idle), BodyPose::Standing);
    assert_eq!(pose_for(Task::Placing), BodyPose::Crouching);
}
