use gamerobotfactory::game_state::{apply_command, CommandError, Conveyor, GameState, MAX_ROBOT_COUNT};
use gamerobotfactory::grid::Grid;
use gamerobotfactory::protocol::{ClientCommand, WireTask};
use gamerobotfactory::sim::{
    Robot, RobotRole, RobotStatus, SimState, Task, HELPER_SPAWN_STAGING_CELLS, REPAIR_TICKS, STATION_COUNT,
};

fn empty_state() -> GameState {
    GameState::new(SimState::new(Grid::new(5, 5), Vec::new()))
}

fn helper_robots(state: &GameState) -> Vec<&Robot> {
    state.sim.robots.iter().filter(|r| r.role == RobotRole::Helper).collect()
}

#[test]
fn toggle_conveyor_flips_running_state() {
    let mut state = empty_state();
    assert!(state.conveyor.running);
    state.toggle_conveyor();
    assert!(!state.conveyor.running);
    state.toggle_conveyor();
    assert!(state.conveyor.running);
}

#[test]
fn set_robot_count_grows_and_shrinks() {
    let mut state = empty_state();
    state.set_robot_count(3);
    assert_eq!(helper_robots(&state).len(), 3);
    state.set_robot_count(1);
    assert_eq!(helper_robots(&state).len(), 1);
}

#[test]
fn set_robot_count_clamps_to_max() {
    let mut state = empty_state();
    state.set_robot_count(usize::MAX);
    assert_eq!(helper_robots(&state).len(), MAX_ROBOT_COUNT);
}

#[test]
fn set_robot_count_never_goes_below_one_helper() {
    let mut state = empty_state();
    state.set_robot_count(5);
    state.set_robot_count(0);
    assert_eq!(helper_robots(&state).len(), 1, "there must be at least one helper");
}

#[test]
fn game_state_new_always_creates_exactly_station_count_assembly_robots() {
    let state = empty_state();
    let assembly_count = state.sim.robots.iter().filter(|r| matches!(r.role, RobotRole::Assembly { .. })).count();
    assert_eq!(assembly_count, STATION_COUNT);
}

#[test]
fn set_robot_count_never_removes_an_assembly_robot() {
    let mut state = empty_state();
    state.set_robot_count(0);
    let assembly_count = state.sim.robots.iter().filter(|r| matches!(r.role, RobotRole::Assembly { .. })).count();
    assert_eq!(assembly_count, STATION_COUNT, "assembly robots must stay even with set_robot_count(0)");
}

#[test]
fn set_robot_count_assigns_unique_growing_ids() {
    let mut state = empty_state();
    state.set_robot_count(2);
    state.set_robot_count(1);
    state.set_robot_count(3);
    let ids: Vec<u32> = state.sim.robots.iter().map(|r| r.id).collect();
    let mut unique = ids.clone();
    unique.sort_unstable();
    unique.dedup();
    assert_eq!(ids.len(), unique.len(), "no robot id should be reused: {ids:?}");
}

#[test]
fn set_robot_count_removes_highest_id_even_out_of_vec_order() {
    let mut state = empty_state();
    state.sim.robots.push(Robot::new(5, (0, 0), (0, 0)));
    state.sim.robots.push(Robot::new(2, (0, 0), (0, 0)));

    state.set_robot_count(1);

    let remaining_ids: Vec<u32> = helper_robots(&state).iter().map(|r| r.id).collect();
    assert_eq!(remaining_ids, vec![2], "the highest-id robot (5) should be removed, not the last Vec element");
}

#[test]
fn select_robot_rejects_unknown_id() {
    let mut state = empty_state();
    state.set_robot_count(1);
    let unknown_id = helper_robots(&state)[0].id + 100;
    assert_eq!(state.select_robot(unknown_id), Err(CommandError::RobotNotFound(unknown_id)));
}

#[test]
fn select_then_release_clears_selection() {
    let mut state = empty_state();
    state.set_robot_count(1);
    let id = helper_robots(&state)[0].id;
    state.select_robot(id).unwrap();
    assert_eq!(state.selected_robot, Some(id));
    state.release_robot();
    assert_eq!(state.selected_robot, None);
}

#[test]
fn removing_selected_robot_clears_selection() {
    let mut state = empty_state();
    state.set_robot_count(2);
    let id = helper_robots(&state)[1].id;
    state.select_robot(id).unwrap();
    state.set_robot_count(1);
    assert_eq!(state.selected_robot, None);
}

#[test]
fn trigger_arm_action_sets_task_on_the_right_robot() {
    let mut state = empty_state();
    state.set_robot_count(2);
    let target_id = helper_robots(&state)[1].id;
    state.trigger_arm_action(target_id, Task::Picking).unwrap();
    assert_eq!(helper_robots(&state)[0].task, Task::Idle);
    assert_eq!(helper_robots(&state)[1].task, Task::Picking);
}

#[test]
fn trigger_arm_action_rejects_unknown_robot() {
    let mut state = empty_state();
    let err = state.trigger_arm_action(999, Task::Picking);
    assert_eq!(err, Err(CommandError::RobotNotFound(999)));
}

#[test]
fn trigger_arm_action_rejects_non_operational_robot() {
    let mut state = empty_state();
    state.set_robot_count(1);
    let id = helper_robots(&state)[0].id;
    state.sim.robots.iter_mut().find(|r| r.id == id).unwrap().status = RobotStatus::Failed;

    let err = state.trigger_arm_action(id, Task::Picking);

    assert_eq!(err, Err(CommandError::RobotNotOperational(id)));
}

#[test]
fn repair_robot_transitions_a_failed_robot_to_repairing() {
    let mut state = empty_state();
    state.set_robot_count(1);
    let id = helper_robots(&state)[0].id;
    state.sim.robots.iter_mut().find(|r| r.id == id).unwrap().status = RobotStatus::Failed;

    state.repair_robot(id).unwrap();

    assert_eq!(
        state.sim.robots.iter().find(|r| r.id == id).unwrap().status,
        RobotStatus::Repairing { remaining_ticks: REPAIR_TICKS }
    );
}

#[test]
fn repair_robot_rejects_a_non_failed_robot() {
    let mut state = empty_state();
    state.set_robot_count(1);
    let id = helper_robots(&state)[0].id;

    let err = state.repair_robot(id);

    assert_eq!(err, Err(CommandError::RobotNotFailed(id)));
}

#[test]
fn repair_robot_rejects_unknown_robot() {
    let mut state = empty_state();
    let err = state.repair_robot(999);
    assert_eq!(err, Err(CommandError::RobotNotFound(999)));
}

#[test]
fn repair_all_failed_robots_repairs_only_the_failed_ones_and_counts_them() {
    let mut state = empty_state();
    state.set_robot_count(3);
    let ids: Vec<u32> = helper_robots(&state).iter().map(|r| r.id).collect();
    state.sim.robots.iter_mut().find(|r| r.id == ids[0]).unwrap().status = RobotStatus::Failed;
    state.sim.robots.iter_mut().find(|r| r.id == ids[1]).unwrap().status = RobotStatus::Operational;
    state.sim.robots.iter_mut().find(|r| r.id == ids[2]).unwrap().status = RobotStatus::Failed;

    let repaired = state.repair_all_failed_robots();

    assert_eq!(repaired, 2);
    assert_eq!(
        state.sim.robots.iter().find(|r| r.id == ids[0]).unwrap().status,
        RobotStatus::Repairing { remaining_ticks: REPAIR_TICKS }
    );
    assert_eq!(
        state.sim.robots.iter().find(|r| r.id == ids[1]).unwrap().status,
        RobotStatus::Operational,
        "an already-Operational robot must be left alone"
    );
    assert_eq!(
        state.sim.robots.iter().find(|r| r.id == ids[2]).unwrap().status,
        RobotStatus::Repairing { remaining_ticks: REPAIR_TICKS }
    );
}

#[test]
fn repair_all_failed_robots_is_a_harmless_no_op_when_nothing_is_failed() {
    let mut state = empty_state();
    state.set_robot_count(2);

    let repaired = state.repair_all_failed_robots();

    assert_eq!(repaired, 0);
    assert!(state.sim.robots.iter().all(|r| r.status == RobotStatus::Operational));
}

#[test]
fn select_robot_works_on_a_failed_robot() {
    let mut state = empty_state();
    state.set_robot_count(1);
    let id = helper_robots(&state)[0].id;
    state.sim.robots.iter_mut().find(|r| r.id == id).unwrap().status = RobotStatus::Failed;

    state.select_robot(id).unwrap();

    assert_eq!(state.selected_robot, Some(id));
}

#[test]
fn set_robot_count_shrink_removes_highest_id_even_if_it_is_repairing() {
    let mut state = empty_state();
    state.set_robot_count(2);
    let highest_id = helper_robots(&state).iter().map(|r| r.id).max().unwrap();
    state.sim.robots.iter_mut().find(|r| r.id == highest_id).unwrap().status =
        RobotStatus::Repairing { remaining_ticks: 10 };

    state.set_robot_count(1);

    assert!(
        !state.sim.robots.iter().any(|r| r.id == highest_id),
        "a Repairing robot is not special-cased during shrink"
    );
}

#[test]
fn conveyor_default_runs() {
    assert!(Conveyor::default().running);
    assert!(Conveyor::new().running);
}

#[test]
fn new_helpers_stand_on_their_staging_cells_with_fresh_ids() {
    let mut state = empty_state();
    // The three assembly robots took ids 0, 1 and 2.
    state.set_robot_count(2);
    let helpers = helper_robots(&state);
    assert_eq!(helpers[0].id, 3);
    assert_eq!(helpers[0].pos, HELPER_SPAWN_STAGING_CELLS[3]);
    assert_eq!(helpers[1].id, 4);
    assert_eq!(helpers[1].pos, HELPER_SPAWN_STAGING_CELLS[4]);
    assert_eq!(helpers[1].goal, HELPER_SPAWN_STAGING_CELLS[4]);
}

#[test]
fn new_game_keeps_existing_assembly_robots_and_counts_ids_past_the_largest() {
    let mut robot = Robot::new(7, (2, 2), (2, 2));
    robot.role = RobotRole::Assembly { station_index: 0 };
    let mut state = GameState::new(SimState::new(Grid::new(9, 7), vec![robot]));
    assert_eq!(state.sim.robots.len(), 1);
    state.set_robot_count(1);
    assert_eq!(helper_robots(&state)[0].id, 8);
}

#[test]
fn commands_are_applied_and_refusals_reported() {
    let mut state = empty_state();
    assert!(state.accepts(ClientCommand::SetRobotCount { count: 2 }));
    assert_eq!(apply_command(&mut state, ClientCommand::SetRobotCount { count: 2 }), Ok(()));
    assert_eq!(helper_robots(&state).len(), 2);
    let id = helper_robots(&state)[0].id;
    assert_eq!(
        apply_command(&mut state, ClientCommand::TriggerArmAction { robot_id: id, task: WireTask::Placing }),
        Ok(())
    );
    assert_eq!(helper_robots(&state)[0].task, Task::Placing);
    assert_eq!(
        apply_command(&mut state, ClientCommand::RepairRobot { robot_id: id }),
        Err(CommandError::RobotNotFailed(id))
    );
    assert_eq!(
        apply_command(&mut state, ClientCommand::SelectRobot { robot_id: 999 }),
        Err(CommandError::RobotNotFound(999))
    );
    assert_eq!(apply_command(&mut state, ClientCommand::ToggleConveyor), Ok(()));
    assert!(!state.conveyor.running);
    assert!(!state.accepts(ClientCommand::Resume { session_id: 1 }));
}

#[test]
fn a_refused_command_leaves_the_game_as_it_was() {
    let mut state = empty_state();
    state.set_robot_count(1);
    let id = helper_robots(&state)[0].id;
    state.select_robot(id).unwrap();
    let before = gamerobotfactory::game_state::to_snapshot(&state);
    let refused = [
        ClientCommand::SelectRobot { robot_id: 999 },
        ClientCommand::TriggerArmAction { robot_id: 999, task: WireTask::Picking },
        ClientCommand::RepairRobot { robot_id: id },
        ClientCommand::RepairRobot { robot_id: 999 },
    ];
    for command in refused {
        assert!(state.accepts(command));
        assert!(apply_command(&mut state, command).is_err());
        let after = gamerobotfactory::game_state::to_snapshot(&state);
        assert_eq!(after.robots, before.robots);
        assert_eq!(after.conveyor, before.conveyor);
        assert_eq!(state.selected_robot, Some(id));
    }
}
