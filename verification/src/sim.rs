//! The deterministic simulation: robots moving on the grid, products
//! flowing along the conveyor belt through assembly stations, and helper
//! robots carrying parts and frames from the warehouse.
//!
//! `tick` advances the whole state by one step. It is a pure function of
//! its inputs: robots plan in parallel against a snapshot of the cells
//! occupied at the start of the tick, and conflicting moves are settled by
//! robot id, never by scheduling order.
use vstd::prelude::*;
use crate::cells::{CellId, CellSet, same_cell};
use crate::grid::{Grid, GridModel};
use crate::pathfind::{find_path, find_path_spec};
use crate::belt::{
    belt_next, belt_ready, copy_products, copy_stations, distinct_cells, distinct_product_ids, plan_products,
    plan_products_spec,
};
use crate::logistics::{
    assign_spec, complete_all, jobs_unique, lemma_logistics_keeps_jobs_unique, lemma_logistics_keeps_valid,
    logistics_ready, logistics_spec, logistics_valid, run_helper_logistics,
};
use rayon::iter::{IntoParallelRefIterator, ParallelIterator};

verus! {

/// Leg-cycle steps per full gait cycle; a robot advances one step each
/// time it moves (progress `step / LEG_CYCLE_STEPS`).
pub const LEG_CYCLE_STEPS: u8 = 10;
/// Ticks a helper keeps its current path before recomputing it.
pub const REPATH_INTERVAL: u32 = 10;
/// Working ticks after which a robot is fully worn.
pub const WEAR_LIMIT_TICKS: u64 = 20000;
/// A fully worn robot fails with probability `1 / FAILURE_ODDS` per tick.
pub const FAILURE_ODDS: u64 = 100;
/// Ticks a repair takes.
pub const REPAIR_TICKS: u32 = 100;
pub const PICK_TICKS: u32 = 20;
pub const PLACE_TICKS: u32 = 20;
/// Number of assembly stations along the belt.
pub const STATION_COUNT: usize = 3;
pub const BELT_ROW: i32 = 3;
pub const BELT_START_X: i32 = 1;
/// A product reaching this column leaves the line (is completed).
pub const BELT_END_X: i32 = 7;
/// The column of each station, by station index.
pub const STATION_XS: [i32; 3] = [2, 4, 6];
/// The row where assembly robots stand, just above the belt.
pub const STATION_ROBOT_ROW: i32 = 2;
/// Where helpers pick up parts and frames.
pub const WAREHOUSE_CELL: CellId = (4, 0);
/// Cells inside the warehouse area (but not `WAREHOUSE_CELL`) where newly
/// added helpers stand while idle, so that idle helpers never block the
/// pick-up cell.
pub const HELPER_SPAWN_STAGING_CELLS: [CellId; 6] = [(0, 0), (2, 0), (6, 0), (8, 0), (1, 1), (7, 1)];
pub const STATION_MAX_INVENTORY: u32 = 5;
/// Ticks an assembly robot works on a product at its station.
pub const ASSEMBLY_TICKS: u32 = 20;
/// Ticks a helper takes to pick up at the warehouse.
pub const HELPER_PICKUP_TICKS: u32 = 20;
/// Ticks a helper takes to drop off at its destination.
pub const HELPER_DROP_TICKS: u32 = 20;

#[derive(Debug, Clone, Copy, PartialEq, Eq, Structural)]
pub enum BodyPose {
    Standing,
    Crouching,
}

/// The direction in which a robot last actually moved.
#[derive(Debug, Clone, Copy, PartialEq, Eq, Structural)]
pub enum Direction {
    North,
    East,
    South,
    West,
}

pub open spec fn direction_of_move(from: CellId, to: CellId) -> Option<Direction> {
    let dx = to.0 - from.0;
    let dy = to.1 - from.1;
    if dx == 1 && dy == 0 {
        Some(Direction::East)
    } else if dx == -1 && dy == 0 {
        Some(Direction::West)
    } else if dx == 0 && dy == 1 {
        Some(Direction::North)
    } else if dx == 0 && dy == -1 {
        Some(Direction::South)
    } else {
        None
    }
}

impl Direction {
    /// The direction of a single orthogonal step from `from` to `to`, or
    /// `None` when `to` is not one step away (the caller keeps its facing).
    pub fn from_move(from: CellId, to: CellId) -> (d: Option<Direction>)
        ensures
            d == direction_of_move(from, to),
    {
        let dx = to.0 as i64 - from.0 as i64;
        let dy = to.1 as i64 - from.1 as i64;
        if dx == 1 && dy == 0 {
            Some(Direction::East)
        } else if dx == -1 && dy == 0 {
            Some(Direction::West)
        } else if dx == 0 && dy == 1 {
            Some(Direction::North)
        } else if dx == 0 && dy == -1 {
            Some(Direction::South)
        } else {
            None
        }
    }
}

/// The arm task a robot is performing.
#[derive(Debug, Clone, Copy, PartialEq, Eq, Structural)]
pub enum Task {
    Idle,
    Picking,
    Placing,
}

/// Whether a robot can work. A failed robot stays put until repaired; the
/// repair counts down and then returns the robot to service with no wear.
#[derive(Debug, Clone, Copy, PartialEq, Eq, Structural)]
pub enum RobotStatus {
    Operational,
    Failed,
    Repairing { remaining_ticks: u32 },
}

/// An assembly robot is fixed beside its station; a helper moves between
/// the warehouse and the stations or the start of the line.
#[derive(Debug, Clone, Copy, PartialEq, Eq, Structural)]
pub enum RobotRole {
    Assembly { station_index: u8 },
    Helper,
}

/// A delivery job for a helper.
#[derive(Debug, Clone, Copy, PartialEq, Eq, Structural)]
pub enum HelperTask {
    RestockStation { station_index: u8 },
    DeliverFrame,
}

/// The job a helper is assigned, if any.
pub type HelperAssignment = Option<HelperTask>;

#[derive(Debug)]
pub struct Robot {
    pub id: u32,
    pub pos: CellId,
    pub goal: CellId,
    pub path: Vec<CellId>,
    pub ticks_until_repath: u32,
    /// Gait progress in steps of `1 / LEG_CYCLE_STEPS`, below `LEG_CYCLE_STEPS`.
    pub leg_cycle_step: u8,
    pub task: Task,
    pub worn_ticks: u64,
    pub status: RobotStatus,
    pub facing: Direction,
    pub carrying: bool,
    pub work_ticks_remaining: u32,
    pub role: RobotRole,
    pub helper_assignment: HelperAssignment,
}

/// The value of a robot, with its path as a sequence.
pub struct RobotModel {
    pub id: u32,
    pub pos: CellId,
    pub goal: CellId,
    pub path: Seq<CellId>,
    pub ticks_until_repath: u32,
    pub leg_cycle_step: u8,
    pub task: Task,
    pub worn_ticks: u64,
    pub status: RobotStatus,
    pub facing: Direction,
    pub carrying: bool,
    pub work_ticks_remaining: u32,
    pub role: RobotRole,
    pub helper_assignment: HelperAssignment,
}

impl View for Robot {
    type V = RobotModel;

    open spec fn view(&self) -> RobotModel {
        RobotModel {
            id: self.id,
            pos: self.pos,
            goal: self.goal,
            path: self.path@,
            ticks_until_repath: self.ticks_until_repath,
            leg_cycle_step: self.leg_cycle_step,
            task: self.task,
            worn_ticks: self.worn_ticks,
            status: self.status,
            facing: self.facing,
            carrying: self.carrying,
            work_ticks_remaining: self.work_ticks_remaining,
            role: self.role,
            helper_assignment: self.helper_assignment,
        }
    }
}

/// A robot fresh from the factory: an idle, unworn, operational helper
/// facing east, with no path.
pub open spec fn new_robot_spec(id: u32, pos: CellId, goal: CellId) -> RobotModel {
    RobotModel {
        id,
        pos,
        goal,
        path: Seq::empty(),
        ticks_until_repath: 0,
        leg_cycle_step: 0,
        task: Task::Idle,
        worn_ticks: 0,
        status: RobotStatus::Operational,
        facing: Direction::East,
        carrying: false,
        work_ticks_remaining: 0,
        role: RobotRole::Helper,
        helper_assignment: None,
    }
}

impl Robot {
    pub fn new(id: u32, pos: CellId, goal: CellId) -> (r: Robot)
        ensures
            r@ == new_robot_spec(id, pos, goal),
    {
        Robot {
            id,
            pos,
            goal,
            path: Vec::new(),
            ticks_until_repath: 0,
            leg_cycle_step: 0,
            task: Task::Idle,
            worn_ticks: 0,
            status: RobotStatus::Operational,
            facing: Direction::East,
            carrying: false,
            work_ticks_remaining: 0,
            role: RobotRole::Helper,
            helper_assignment: None,
        }
    }

    /// An independent copy of the robot.
    pub fn copy(&self) -> (r: Robot)
        ensures
            r@ == self@,
    {
        Robot {
            id: self.id,
            pos: self.pos,
            goal: self.goal,
            path: crate::cells::copy_cells(&self.path),
            ticks_until_repath: self.ticks_until_repath,
            leg_cycle_step: self.leg_cycle_step,
            task: self.task,
            worn_ticks: self.worn_ticks,
            status: self.status,
            facing: self.facing,
            carrying: self.carrying,
            work_ticks_remaining: self.work_ticks_remaining,
            role: self.role,
            helper_assignment: self.helper_assignment,
        }
    }
}

impl Clone for Robot {
    fn clone(&self) -> (r: Robot)
        ensures
            r@ == self@,
    {
        self.copy()
    }
}

/// The splitmix64 finalizer applied to `(robot_id, tick_count)`: a pure,
/// well-mixed pseudo-random number, the same for the same inputs.
pub open spec fn roll_spec(robot_id: u32, tick_count: u64) -> u64 {
    let x0 = vstd::wrapping::u64_specs::wrapping_mul(robot_id as u64, 0x9E3779B97F4A7C15u64)
        ^ vstd::wrapping::u64_specs::wrapping_mul(tick_count, 0xBF58476D1CE4E5B9u64);
    let x1 = vstd::wrapping::u64_specs::wrapping_mul(x0 ^ (x0 >> 30u64), 0xBF58476D1CE4E5B9u64);
    let x2 = vstd::wrapping::u64_specs::wrapping_mul(x1 ^ (x1 >> 27u64), 0x94D049BB133111EBu64);
    x2 ^ (x2 >> 31u64)
}

/// The deterministic roll for a robot at a tick; `roll / u64::MAX` is
/// spread roughly uniformly over `[0, 1]`.
pub fn deterministic_roll(robot_id: u32, tick_count: u64) -> (x: u64)
    ensures
        x == roll_spec(robot_id, tick_count),
{
    let mut x = (robot_id as u64).wrapping_mul(0x9E3779B97F4A7C15) ^ tick_count.wrapping_mul(0xBF58476D1CE4E5B9);
    x = (x ^ (x >> 30)).wrapping_mul(0xBF58476D1CE4E5B9);
    x = (x ^ (x >> 27)).wrapping_mul(0x94D049BB133111EB);
    x ^ (x >> 31)
}

/// Wear capped at the limit.
pub open spec fn capped_wear(worn_ticks: u64) -> int {
    if worn_ticks < WEAR_LIMIT_TICKS {
        worn_ticks as int
    } else {
        WEAR_LIMIT_TICKS as int
    }
}

/// A robot with `worn_ticks` of wear fails at this tick: its roll, as a
/// fraction of `u64::MAX`, is below the wear ratio (capped at 1) divided by
/// `FAILURE_ODDS`.
pub open spec fn fails_spec(robot_id: u32, worn_ticks: u64, tick_count: u64) -> bool {
    (roll_spec(robot_id, tick_count) as int) * (WEAR_LIMIT_TICKS as int) * (FAILURE_ODDS as int) < capped_wear(worn_ticks)
        * (u64::MAX as int)
}

fn fails(robot_id: u32, worn_ticks: u64, tick_count: u64) -> (b: bool)
    ensures
        b == fails_spec(robot_id, worn_ticks, tick_count),
{
    let roll = deterministic_roll(robot_id, tick_count);
    let wear: u64 = if worn_ticks < WEAR_LIMIT_TICKS { worn_ticks } else { WEAR_LIMIT_TICKS };
    let lhs_base = roll as u128;
    assert(lhs_base * 2_000_000u128 <= 0xFFFF_FFFF_FFFF_FFFF * 2_000_000) by (nonlinear_arith)
        requires
            lhs_base <= 0xFFFF_FFFF_FFFF_FFFFu128,
    ;
    assert(wear as u128 * 0xFFFF_FFFF_FFFF_FFFFu128 <= 20000 * 0xFFFF_FFFF_FFFF_FFFF) by (nonlinear_arith)
        requires
            wear <= 20000,
    ;
    let lhs = lhs_base * ((WEAR_LIMIT_TICKS * FAILURE_ODDS) as u128);
    let rhs = (wear as u128) * (u64::MAX as u128);
    lhs < rhs
}

/// A working robot (picking or placing) wears by one tick.
pub open spec fn is_working(t: Task) -> bool {
    t == Task::Picking || t == Task::Placing
}

/// The robot's wear can grow by one this tick if it has to: an operational
/// robot that is working is not at the end of the counter.
pub open spec fn can_wear(r: RobotModel) -> bool {
    r.status == RobotStatus::Operational && is_working(r.task) ==> r.worn_ticks < u64::MAX
}

/// One tick of wear, failure and repair.
pub open spec fn update_status_spec(r: RobotModel, tick_count: u64) -> RobotModel {
    match r.status {
        RobotStatus::Operational => {
            let worn = if is_working(r.task) { (r.worn_ticks + 1) as u64 } else { r.worn_ticks };
            let status = if fails_spec(r.id, worn, tick_count) { RobotStatus::Failed } else { RobotStatus::Operational };
            RobotModel { worn_ticks: worn, status, ..r }
        },
        RobotStatus::Failed => r,
        RobotStatus::Repairing { remaining_ticks } => {
            if remaining_ticks <= 1 {
                RobotModel { worn_ticks: 0, status: RobotStatus::Operational, ..r }
            } else {
                RobotModel { status: RobotStatus::Repairing { remaining_ticks: (remaining_ticks - 1) as u32 }, ..r }
            }
        },
    }
}

/// One tick of status: an operational robot that is picking or placing
/// wears by exactly one tick, and an idle one does not wear; it stays
/// operational or fails. A failed robot stays exactly as it is. A robot
/// being repaired counts down by one, and at the end of its repair comes
/// back operational with no wear. Nothing but wear and status ever changes.
pub proof fn lemma_status_tick(r: RobotModel, tick_count: u64)
    requires
        r.worn_ticks < u64::MAX,
    ensures
        ({
            let n = update_status_spec(r, tick_count);
            &&& n == RobotModel { worn_ticks: n.worn_ticks, status: n.status, ..r }
            &&& r.status == RobotStatus::Operational ==> {
                &&& (r.task == Task::Picking || r.task == Task::Placing) ==> n.worn_ticks == r.worn_ticks + 1
                &&& r.task == Task::Idle ==> n.worn_ticks == r.worn_ticks
                &&& (n.status == RobotStatus::Operational || n.status == RobotStatus::Failed)
            }
            &&& r.status == RobotStatus::Failed ==> n == r
            &&& r.status matches RobotStatus::Repairing { remaining_ticks: k } ==> if k <= 1 {
                    n.status == RobotStatus::Operational && n.worn_ticks == 0
                } else {
                    n.status == (RobotStatus::Repairing { remaining_ticks: (k - 1) as u32 }) && n.worn_ticks
                        == r.worn_ticks
                }
        }),
{
}

/// Advances a robot's wear, failure and repair by one tick: an operational
/// robot wears while working and may fail; a failed robot waits for repair;
/// a repairing robot counts down and comes back operational with no wear.
pub fn update_status(robot: Robot, tick_count: u64) -> (r: Robot)
    requires
        can_wear(robot@),
    ensures
        r@ == update_status_spec(robot@, tick_count),
{
    let mut robot = robot;
    match robot.status {
        RobotStatus::Operational => {
            match robot.task {
                Task::Picking | Task::Placing => {
                    robot.worn_ticks = robot.worn_ticks + 1;
                },
                Task::Idle => {},
            }
            if fails(robot.id, robot.worn_ticks, tick_count) {
                robot.status = RobotStatus::Failed;
            }
        },
        RobotStatus::Failed => {},
        RobotStatus::Repairing { remaining_ticks } => {
            if remaining_ticks <= 1 {
                robot.worn_ticks = 0;
                robot.status = RobotStatus::Operational;
            } else {
                robot.status = RobotStatus::Repairing { remaining_ticks: remaining_ticks - 1 };
            }
        },
    }
    robot
}

/// A product on the belt. `stage` counts the stations it has passed;
/// while `work_ticks_remaining > 0` it is being assembled in place.
#[derive(Debug, Clone, Copy, PartialEq, Eq)]
pub struct Product {
    pub id: u32,
    pub stage: u8,
    pub pos: CellId,
    pub work_ticks_remaining: u32,
}

impl Product {
    pub fn new(id: u32, pos: CellId) -> (p: Product)
        ensures
            p == (Product { id, stage: 0, pos, work_ticks_remaining: 0 }),
    {
        Product { id, stage: 0, pos, work_ticks_remaining: 0 }
    }
}

/// An assembly station: products stop on `belt_cell`, its assembly robot
/// stands on `robot_cell`, and each assembly uses one part of inventory.
#[derive(Debug, Clone, Copy, PartialEq, Eq)]
pub struct Station {
    pub index: u8,
    pub robot_cell: CellId,
    pub belt_cell: CellId,
    pub part_inventory: u32,
}

/// The column of station `index` (`STATION_XS[index]`).
pub open spec fn station_x(index: int) -> i32 {
    if index == 0 {
        2
    } else if index == 1 {
        4
    } else {
        6
    }
}

/// Where the assembly robot of station `index` stands.
pub open spec fn station_robot_cell_spec(index: u8) -> CellId {
    (station_x(index as int), STATION_ROBOT_ROW)
}

/// A fully stocked station with the standard layout.
pub open spec fn new_station_spec(index: u8) -> Station {
    Station {
        index,
        robot_cell: (station_x(index as int), STATION_ROBOT_ROW),
        belt_cell: (station_x(index as int), BELT_ROW),
        part_inventory: STATION_MAX_INVENTORY,
    }
}

fn station_column(index: u8) -> (x: i32)
    requires
        (index as usize) < STATION_COUNT,
    ensures
        x == station_x(index as int),
{
    STATION_XS[index as usize]
}

impl Station {
    pub fn new(index: u8) -> (s: Station)
        requires
            (index as usize) < STATION_COUNT,
        ensures
            s == new_station_spec(index),
    {
        let x = station_column(index);
        Station {
            index,
            robot_cell: (x, STATION_ROBOT_ROW),
            belt_cell: (x, BELT_ROW),
            part_inventory: STATION_MAX_INVENTORY,
        }
    }
}


/// The values of a sequence of robots.
pub open spec fn models(robots: Seq<Robot>) -> Seq<RobotModel> {
    robots.map_values(|r: Robot| r@)
}

/// The whole simulation state.
#[derive(Debug)]
pub struct SimState {
    pub grid: Grid,
    pub robots: Vec<Robot>,
    pub products: Vec<Product>,
    pub stations: Vec<Station>,
    pub pending_helper_tasks: Vec<HelperTask>,
    pub tick_count: u64,
}

/// The value of a simulation state.
pub struct SimModel {
    pub grid: GridModel,
    pub robots: Seq<RobotModel>,
    pub products: Seq<Product>,
    pub stations: Seq<Station>,
    pub pending_helper_tasks: Seq<HelperTask>,
    pub tick_count: u64,
}

impl View for SimState {
    type V = SimModel;

    open spec fn view(&self) -> SimModel {
        SimModel {
            grid: self.grid@,
            robots: models(self.robots@),
            products: self.products@,
            stations: self.stations@,
            pending_helper_tasks: self.pending_helper_tasks@,
            tick_count: self.tick_count,
        }
    }
}

/// The standard stations `0 .. STATION_COUNT`, fully stocked.
pub open spec fn standard_stations() -> Seq<Station> {
    seq![new_station_spec(0), new_station_spec(1), new_station_spec(2)]
}

impl SimState {
    /// A state at tick 0 with the given robots, no products, no pending
    /// jobs, and the `STATION_COUNT` standard stations fully stocked.
    pub fn new(grid: Grid, robots: Vec<Robot>) -> (s: SimState)
        ensures
            s@.grid == grid@,
            s@.robots == models(robots@),
            s@.products == Seq::<Product>::empty(),
            s@.stations == standard_stations(),
            s@.pending_helper_tasks == Seq::<HelperTask>::empty(),
            s@.tick_count == 0,
    {
        let mut stations: Vec<Station> = Vec::new();
        stations.push(Station::new(0));
        stations.push(Station::new(1));
        stations.push(Station::new(2));
        assert(stations@ =~= standard_stations());
        SimState {
            grid,
            robots,
            products: Vec::new(),
            stations,
            pending_helper_tasks: Vec::new(),
            tick_count: 0,
        }
    }
}

/// The cells occupied by robots.
pub open spec fn occupied_spec(robots: Seq<RobotModel>) -> Set<CellId> {
    Set::new(|c: CellId| exists|i: int| 0 <= i < robots.len() && #[trigger] robots[i].pos == c)
}

/// The indices of stations where a product is being assembled right now.
pub open spec fn active_stations_spec(products: Seq<Product>, stations: Seq<Station>) -> Set<u8> {
    Set::new(
        |x: u8|
            exists|s: int| 0 <= s < stations.len() && #[trigger] stations[s].index == x && busy_station_spec(products, stations[s]),
    )
}

/// Some product is being assembled on the station's belt cell.
pub open spec fn busy_station_spec(ps: Seq<Product>, station: Station) -> bool {
    exists|p: int| 0 <= p < ps.len() && #[trigger] ps[p].pos == station.belt_cell && ps[p].work_ticks_remaining > 0
}

/// Where a helper delivers for `task`.
pub open spec fn destination_spec(task: HelperTask) -> CellId {
    match task {
        HelperTask::RestockStation { station_index } => station_robot_cell_spec(station_index),
        HelperTask::DeliverFrame => (BELT_START_X, BELT_ROW),
    }
}

/// The next step along the path toward `goal`: the path is recomputed
/// (around the cells other robots occupy) when it is empty or stale, and
/// the robot steps onto the first cell only if nobody stood there at the
/// start of the tick.
pub open spec fn advance_spec(g: GridModel, r: RobotModel, occupied: Set<CellId>) -> RobotModel {
    let r1 = if r.path.len() == 0 || r.ticks_until_repath == 0 {
        let found = find_path_spec(g, r.pos, r.goal, occupied.remove(r.pos));
        RobotModel {
            path: match found {
                Some(p) => p,
                None => Seq::empty(),
            },
            ticks_until_repath: REPATH_INTERVAL,
            ..r
        }
    } else {
        RobotModel { ticks_until_repath: (r.ticks_until_repath - 1) as u32, ..r }
    };
    if r1.path.len() > 0 && !occupied.contains(r1.path[0]) {
        RobotModel { pos: r1.path[0], path: r1.path.drop_first(), ..r1 }
    } else {
        r1
    }
}

/// Starts the pick-up or drop-off countdown at the current cell.
pub open spec fn start_countdown_spec(r: RobotModel) -> RobotModel {
    RobotModel {
        work_ticks_remaining: if r.carrying { HELPER_DROP_TICKS } else { HELPER_PICKUP_TICKS },
        carrying: true,
        ..r
    }
}

/// One tick of a helper's trip: count down pick-up or drop-off, else walk
/// toward the warehouse (empty-handed) or the destination (loaded), and
/// start the countdown on the tick it arrives.
pub open spec fn plan_helper_spec(g: GridModel, r: RobotModel, occupied: Set<CellId>) -> RobotModel {
    match r.helper_assignment {
        None => r,
        Some(task) => {
            if r.work_ticks_remaining > 0 {
                RobotModel { work_ticks_remaining: (r.work_ticks_remaining - 1) as u32, ..r }
            } else {
                let target = if r.carrying { destination_spec(task) } else { WAREHOUSE_CELL };
                if r.pos != target {
                    let r1 = if r.goal != target {
                        RobotModel { goal: target, path: Seq::empty(), ticks_until_repath: 0, ..r }
                    } else {
                        r
                    };
                    let r2 = advance_spec(g, r1, occupied);
                    if r2.pos != target {
                        r2
                    } else {
                        start_countdown_spec(r2)
                    }
                } else {
                    start_countdown_spec(r)
                }
            }
        },
    }
}

/// One robot's plan for this tick, against the snapshot `occupied`.
pub open spec fn plan_robot_spec(
    g: GridModel,
    r: RobotModel,
    occupied: Set<CellId>,
    tick_count: u64,
    conveyor_running: bool,
    active: Set<u8>,
) -> RobotModel {
    let next = update_status_spec(r, tick_count);
    if next.status != RobotStatus::Operational {
        next
    } else {
        match next.role {
            RobotRole::Assembly { station_index } => RobotModel {
                task: if active.contains(station_index) { Task::Picking } else { Task::Idle },
                ..next
            },
            RobotRole::Helper => if !conveyor_running {
                next
            } else {
                plan_helper_spec(g, next, occupied)
            },
        }
    }
}

/// A job names one of the standard stations, if it names one at all.
pub open spec fn task_valid(t: HelperTask) -> bool {
    match t {
        HelperTask::RestockStation { station_index } => (station_index as usize) < STATION_COUNT,
        HelperTask::DeliverFrame => true,
    }
}

/// An assignment is valid when its job is.
pub open spec fn assignment_valid(a: HelperAssignment) -> bool {
    match a {
        Some(t) => task_valid(t),
        None => true,
    }
}

/// A robot may take part in a tick: its wear can still grow and its job,
/// if any, is valid.
pub open spec fn robot_ready(r: RobotModel) -> bool {
    &&& can_wear(r)
    &&& assignment_valid(r.helper_assignment)
}

pub(crate) fn destination(task: HelperTask) -> (c: CellId)
    requires
        task_valid(task),
    ensures
        c == destination_spec(task),
{
    match task {
        HelperTask::RestockStation { station_index } => (station_column(station_index), STATION_ROBOT_ROW),
        HelperTask::DeliverFrame => (BELT_START_X, BELT_ROW),
    }
}

/// Moves the helper one step along its path toward `goal`; see `advance_spec`.
fn advance_along_path(grid: &Grid, robot: Robot, occupied: &CellSet) -> (r: Robot)
    ensures
        r@ == advance_spec(grid@, robot@, occupied@),
{
    let mut next = robot;
    if next.path.len() == 0 || next.ticks_until_repath == 0 {
        let mut blocked = occupied.clone();
        blocked.remove(next.pos);
        next.path = match find_path(grid, next.pos, next.goal, &blocked) {
            Some(p) => p,
            None => Vec::new(),
        };
        next.ticks_until_repath = REPATH_INTERVAL;
    } else {
        next.ticks_until_repath = next.ticks_until_repath - 1;
    }
    if next.path.len() > 0 {
        let first = next.path[0];
        if !occupied.contains(first) {
            next.pos = first;
            next.path.remove(0);
            assert(next.path@ =~= advance_spec(grid@, robot@, occupied@).path);
        }
    }
    next
}

fn start_countdown(robot: Robot) -> (r: Robot)
    ensures
        r@ == start_countdown_spec(robot@),
{
    let mut next = robot;
    next.work_ticks_remaining = if next.carrying { HELPER_DROP_TICKS } else { HELPER_PICKUP_TICKS };
    next.carrying = true;
    next
}

/// One tick of a helper's trip; see `plan_helper_spec`.
fn plan_helper(grid: &Grid, robot: Robot, occupied: &CellSet) -> (r: Robot)
    requires
        assignment_valid(robot@.helper_assignment),
    ensures
        r@ == plan_helper_spec(grid@, robot@, occupied@),
{
    let mut next = robot;
    let task = match next.helper_assignment {
        None => {
            return next;
        },
        Some(t) => t,
    };
    if next.work_ticks_remaining > 0 {
        next.work_ticks_remaining = next.work_ticks_remaining - 1;
        return next;
    }
    let target = if next.carrying { destination(task) } else { WAREHOUSE_CELL };
    if !same_cell(next.pos, target) {
        if !same_cell(next.goal, target) {
            next.goal = target;
            next.path = Vec::new();
            next.ticks_until_repath = 0;
        }
        next = advance_along_path(grid, next, occupied);
        if !same_cell(next.pos, target) {
            return next;
        }
    }
    start_countdown(next)
}

/// One robot's plan for this tick; see `plan_robot_spec`.
pub fn plan_robot(
    grid: &Grid,
    robot: &Robot,
    occupied: &CellSet,
    tick_count: u64,
    conveyor_running: bool,
    active_stations: &Vec<u8>,
) -> (r: Robot)
    requires
        robot_ready(robot@),
    ensures
        r@ == plan_robot_spec(grid@, robot@, occupied@, tick_count, conveyor_running, active_stations@.to_set()),
{
    let mut next = update_status(robot.copy(), tick_count);
    if next.status != RobotStatus::Operational {
        return next;
    }
    match next.role {
        RobotRole::Assembly { station_index } => {
            next.task = if contains_u8(active_stations, station_index) { Task::Picking } else { Task::Idle };
            next
        },
        RobotRole::Helper => {
            if !conveyor_running {
                return next;
            }
            plan_helper(grid, next, occupied)
        },
    }
}

fn contains_u8(v: &Vec<u8>, x: u8) -> (b: bool)
    ensures
        b == v@.to_set().contains(x),
{
    let mut i: usize = 0;
    while i < v.len()
        invariant
            0 <= i <= v@.len(),
            forall|j: int| 0 <= j < i ==> v@[j] != x,
        decreases v@.len() - i,
    {
        if v[i] == x {
            assert(v@.contains(x));
            return true;
        }
        i += 1;
    }
    assert(!v@.contains(x));
    false
}

/// Plans every robot for this tick in parallel with rayon's
/// `par_iter().map(..).collect::<Vec<_>>()`, each item planned by the
/// verified `plan_robot`. What is claimed of rayon: the collected vector
/// has one result per robot, in the robots' order (rayon collects indexed
/// parallel iterators in order), and each result is what `plan_robot`
/// gives for that robot. Each plan reads only the shared snapshot, so the
/// result is the same as planning the robots one after another.
#[verifier::external_body]
fn plan_all_parallel(
    grid: &Grid,
    robots: &Vec<Robot>,
    occupied: &CellSet,
    tick_count: u64,
    conveyor_running: bool,
    active_stations: &Vec<u8>,
) -> (planned: Vec<Robot>)
    requires
        forall|i: int| 0 <= i < robots@.len() ==> robot_ready(#[trigger] robots@[i]@),
    ensures
        planned@.len() == robots@.len(),
        forall|i: int|
            0 <= i < robots@.len() ==> (#[trigger] planned@[i])@ == plan_robot_spec(
                grid@,
                robots@[i]@,
                occupied@,
                tick_count,
                conveyor_running,
                active_stations@.to_set(),
            ),
{
    robots.par_iter().map(|robot| plan_robot(grid, robot, occupied, tick_count, conveyor_running, active_stations)).collect()
}

/// The intent of a robot or product to move from `from` to `to` this tick.
#[derive(Debug, Clone, Copy)]
pub struct MoveIntent {
    pub mover_id: u32,
    pub from: CellId,
    pub to: CellId,
}

/// Intent `i` wins its target cell: no intent to the same cell has a
/// smaller id.
pub open spec fn wins(intents: Seq<MoveIntent>, i: int) -> bool {
    forall|j: int| 0 <= j < intents.len() && #[trigger] intents[j].to == intents[i].to ==> intents[i].mover_id <= intents[j].mover_id
}

/// Where each mover ends up: at its target if it wins the target, back
/// where it came from otherwise.
pub open spec fn resolve_spec(intents: Seq<MoveIntent>) -> Seq<CellId> {
    Seq::new(intents.len(), |i: int| if wins(intents, i) { intents[i].to } else { intents[i].from })
}

/// Settling moves: every mover ends on its target or where it came from;
/// a mover whose id is the lowest among all movers to its target gets the
/// target; and a mover with a lower-id rival for its target stays where it
/// came from.
pub proof fn lemma_resolve_lowest_id_wins(intents: Seq<MoveIntent>)
    ensures
        resolve_spec(intents).len() == intents.len(),
        forall|i: int|
            0 <= i < intents.len() ==> #[trigger] resolve_spec(intents)[i] == intents[i].to || resolve_spec(intents)[i]
                == intents[i].from,
        forall|i: int|
            0 <= i < intents.len() && (forall|j: int|
                0 <= j < intents.len() && intents[j].to == intents[i].to ==> intents[i].mover_id <= intents[j].mover_id)
                ==> #[trigger] resolve_spec(intents)[i] == intents[i].to,
        forall|i: int, j: int|
            #![trigger intents[i], resolve_spec(intents)[j]]
            0 <= i < intents.len() && 0 <= j < intents.len() && intents[i].to == intents[j].to && intents[i].mover_id
                < intents[j].mover_id ==> resolve_spec(intents)[j] == intents[j].from,
{
    assert forall|i: int, j: int|
        #![trigger intents[i], resolve_spec(intents)[j]]
        0 <= i < intents.len() && 0 <= j < intents.len() && intents[i].to == intents[j].to && intents[i].mover_id
            < intents[j].mover_id implies resolve_spec(intents)[j] == intents[j].from by {
        assert(!wins(intents, j));
    }
}

/// A robot with no wear never fails, and more wear never makes a failure
/// less likely: whoever fails with some wear fails with more.
pub proof fn lemma_failure_grows_with_wear(robot_id: u32, w1: u64, w2: u64, tick_count: u64)
    ensures
        !fails_spec(robot_id, 0, tick_count),
        w1 <= w2 && fails_spec(robot_id, w1, tick_count) ==> fails_spec(robot_id, w2, tick_count),
{
    let roll = roll_spec(robot_id, tick_count) as int;
    assert(roll * (WEAR_LIMIT_TICKS as int) * (FAILURE_ODDS as int) >= 0) by (nonlinear_arith)
        requires
            roll >= 0,
    ;
    assert(capped_wear(w1) <= capped_wear(w2) || w1 > w2);
    if w1 <= w2 {
        assert(capped_wear(w1) * (u64::MAX as int) <= capped_wear(w2) * (u64::MAX as int)) by (nonlinear_arith)
            requires
                0 <= capped_wear(w1) <= capped_wear(w2),
        ;
    }
}

/// The direction of a one-cell move: +x faces east, -x west, +y north and
/// -y south; anything but a one-cell orthogonal move has no direction.
pub proof fn lemma_direction_of_move(from: CellId, to: CellId)
    ensures
        direction_of_move(from, to) == Some(Direction::East) <==> to.0 == from.0 + 1 && to.1 == from.1,
        direction_of_move(from, to) == Some(Direction::West) <==> to.0 == from.0 - 1 && to.1 == from.1,
        direction_of_move(from, to) == Some(Direction::North) <==> to.0 == from.0 && to.1 == from.1 + 1,
        direction_of_move(from, to) == Some(Direction::South) <==> to.0 == from.0 && to.1 == from.1 - 1,
        direction_of_move(from, to) is None <==> !crate::grid::adjacent(from, to),
{
}

/// A tick advances the clock by one and leaves the floor as it was.
pub proof fn lemma_tick_advances_clock(s: SimModel, conveyor_running: bool)
    ensures
        tick_spec(s, conveyor_running).tick_count == s.tick_count + 1 || s.tick_count == u64::MAX,
        tick_spec(s, conveyor_running).grid == s.grid,
        tick_spec(s, conveyor_running).robots.len() == s.robots.len(),
{
    lemma_tick_positions(s, conveyor_running);
}

/// Settles moves that target the same cell: the mover with the lowest id
/// takes the cell and the others stay where they were, whatever the order
/// of the intents.
pub fn resolve_intents(intents: &Vec<MoveIntent>) -> (r: Vec<CellId>)
    ensures
        r@ == resolve_spec(intents@),
{
    let mut result: Vec<CellId> = Vec::new();
    let mut i: usize = 0;
    while i < intents.len()
        invariant
            0 <= i <= intents@.len(),
            result@.len() == i,
            forall|k: int| 0 <= k < i ==> result@[k] == resolve_spec(intents@)[k],
        decreases intents@.len() - i,
    {
        let mut won = true;
        let mut j: usize = 0;
        while j < intents.len()
            invariant
                0 <= i < intents@.len(),
                0 <= j <= intents@.len(),
                won == forall|m: int| 0 <= m < j && #[trigger] intents@[m].to == intents@[i as int].to ==> intents@[i as int].mover_id <= intents@[m].mover_id,
            decreases intents@.len() - j,
        {
            if same_cell(intents[j].to, intents[i].to) && intents[j].mover_id < intents[i].mover_id {
                won = false;
            }
            j += 1;
        }
        result.push(if won { intents[i].to } else { intents[i].from });
        i += 1;
    }
    assert(result@ =~= resolve_spec(intents@));
    result
}

/// The robot after its planned move is settled: it lands on `final_pos`;
/// a robot that lost its cell drops its path to replan next tick; a robot
/// that moved advances its gait and faces the way it went.
pub open spec fn finish_move_spec(start_pos: CellId, planned: RobotModel, final_pos: CellId) -> RobotModel {
    let lost = final_pos != planned.pos;
    let r1 = if lost {
        RobotModel { pos: final_pos, path: Seq::empty(), ticks_until_repath: 0, ..planned }
    } else {
        RobotModel { pos: final_pos, ..planned }
    };
    if r1.pos != start_pos {
        RobotModel {
            leg_cycle_step: ((r1.leg_cycle_step + 1) % (LEG_CYCLE_STEPS as int)) as u8,
            facing: match direction_of_move(start_pos, r1.pos) {
                Some(d) => d,
                None => r1.facing,
            },
            ..r1
        }
    } else {
        r1
    }
}

fn finish_move(start_pos: CellId, planned: Robot, final_pos: CellId) -> (r: Robot)
    ensures
        r@ == finish_move_spec(start_pos, planned@, final_pos),
{
    let mut robot = planned;
    let lost = !same_cell(final_pos, robot.pos);
    robot.pos = final_pos;
    if lost {
        robot.path = Vec::new();
        robot.ticks_until_repath = 0;
    }
    if !same_cell(robot.pos, start_pos) {
        robot.leg_cycle_step = ((robot.leg_cycle_step as u16 + 1) % (LEG_CYCLE_STEPS as u16)) as u8;
        match Direction::from_move(start_pos, robot.pos) {
            Some(d) => {
                robot.facing = d;
            },
            None => {},
        }
    }
    assert(robot.path@ =~= finish_move_spec(start_pos, planned@, final_pos).path);
    robot
}

/// Each robot's plan for the tick, made against the snapshot of the state
/// at its start.
pub open spec fn planned_robots(s: SimModel, conveyor_running: bool) -> Seq<RobotModel> {
    Seq::new(
        s.robots.len(),
        |i: int|
            plan_robot_spec(
                s.grid,
                s.robots[i],
                occupied_spec(s.robots),
                s.tick_count,
                conveyor_running,
                active_stations_spec(s.products, s.stations),
            ),
    )
}

/// The moves the robots intend: from where they stand to where they planned.
pub open spec fn robot_intents(robots: Seq<RobotModel>, planned: Seq<RobotModel>) -> Seq<MoveIntent> {
    Seq::new(robots.len(), |i: int| MoveIntent { mover_id: robots[i].id, from: robots[i].pos, to: planned[i].pos })
}

/// The robots after their moves are settled.
pub open spec fn moved_robots(s: SimModel, conveyor_running: bool) -> Seq<RobotModel> {
    let planned = planned_robots(s, conveyor_running);
    let settled = resolve_spec(robot_intents(s.robots, planned));
    Seq::new(s.robots.len(), |i: int| finish_move_spec(s.robots[i].pos, planned[i], settled[i]))
}

/// One tick of the whole simulation: robots plan and move, the belt runs
/// while the conveyor does, helper logistics follow, and the clock advances.
pub open spec fn tick_spec(s: SimModel, conveyor_running: bool) -> SimModel {
    let moved = moved_robots(s, conveyor_running);
    let belt = if conveyor_running {
        plan_products_spec(s.products, s.stations)
    } else {
        (s.products, s.stations)
    };
    let out = logistics_spec(moved, belt.1, belt.0, s.pending_helper_tasks, conveyor_running);
    SimModel {
        grid: s.grid,
        robots: out.0,
        products: out.2,
        stations: out.1,
        pending_helper_tasks: out.3,
        tick_count: (s.tick_count + 1) as u64,
    }
}

/// A state the simulation can advance: the clock and every robot's wear
/// can still count up, products can move right, stations and jobs name
/// the standard stations, and fresh frame ids fit.
pub open spec fn tick_ready(s: SimModel) -> bool {
    &&& s.tick_count < u64::MAX
    &&& forall|i: int| 0 <= i < s.robots.len() ==> robot_ready(#[trigger] s.robots[i])
    &&& belt_ready(s.products, s.stations)
    &&& logistics_ready(s.robots, s.stations, s.products, s.pending_helper_tasks)
}

/// Planning never changes who a robot is or which job it holds.
pub proof fn lemma_plan_keeps_identity(
    g: GridModel,
    r: RobotModel,
    occupied: Set<CellId>,
    tick_count: u64,
    conveyor_running: bool,
    active: Set<u8>,
)
    ensures
        plan_robot_spec(g, r, occupied, tick_count, conveyor_running, active).id == r.id,
        plan_robot_spec(g, r, occupied, tick_count, conveyor_running, active).role == r.role,
        plan_robot_spec(g, r, occupied, tick_count, conveyor_running, active).helper_assignment
            == r.helper_assignment,
{
}

fn occupied_cells(robots: &Vec<Robot>) -> (c: CellSet)
    ensures
        c@ == occupied_spec(models(robots@)),
{
    let ghost rv = models(robots@);
    let mut c = CellSet::new();
    let mut i: usize = 0;
    while i < robots.len()
        invariant
            0 <= i <= robots@.len(),
            rv == models(robots@),
            forall|x: CellId| c@.contains(x) <==> exists|j: int| 0 <= j < i && #[trigger] rv[j].pos == x,
        decreases robots@.len() - i,
    {
        c.insert(robots[i].pos);
        proof {
            assert(rv[i as int].pos == robots@[i as int].pos);
            assert forall|x: CellId| c@.contains(x) implies exists|j: int| 0 <= j < i + 1 && #[trigger] rv[j].pos == x by {
                if x == rv[i as int].pos {
                    assert(rv[i as int].pos == x);
                }
            }
        }
        i += 1;
    }
    assert(c@ =~= occupied_spec(rv));
    c
}

fn busy_station(products: &Vec<Product>, station: Station) -> (b: bool)
    ensures
        b == busy_station_spec(products@, station),
{
    let mut i: usize = 0;
    while i < products.len()
        invariant
            0 <= i <= products@.len(),
            forall|p: int|
                0 <= p < i ==> !(#[trigger] products@[p].pos == station.belt_cell && products@[p].work_ticks_remaining
                    > 0),
        decreases products@.len() - i,
    {
        if same_cell(products[i].pos, station.belt_cell) && products[i].work_ticks_remaining > 0 {
            return true;
        }
        i += 1;
    }
    false
}

fn active_stations(products: &Vec<Product>, stations: &Vec<Station>) -> (v: Vec<u8>)
    ensures
        v@.to_set() == active_stations_spec(products@, stations@),
{
    let mut v: Vec<u8> = Vec::new();
    let mut i: usize = 0;
    while i < stations.len()
        invariant
            0 <= i <= stations@.len(),
            forall|x: u8|
                v@.contains(x) <==> exists|s: int|
                    0 <= s < i && #[trigger] stations@[s].index == x && busy_station_spec(products@, stations@[s]),
        decreases stations@.len() - i,
    {
        let st = stations[i];
        let ghost before = v@;
        if busy_station(products, st) {
            v.push(st.index);
        }
        proof {
            assert forall|x: u8| v@.contains(x) implies exists|s: int|
                0 <= s < i + 1 && #[trigger] stations@[s].index == x && busy_station_spec(products@, stations@[s]) by {
                if before.contains(x) {
                    let s = choose|s: int|
                        0 <= s < i && #[trigger] stations@[s].index == x && busy_station_spec(products@, stations@[s]);
                    assert(0 <= s < i + 1 && stations@[s].index == x);
                } else {
                    let k = choose|k: int| 0 <= k < v@.len() && v@[k] == x;
                    if k < before.len() {
                        assert(before[k] == x);
                    }
                    assert(stations@[i as int].index == x);
                }
            }
            assert forall|x: u8| (exists|s: int|
                0 <= s < i + 1 && #[trigger] stations@[s].index == x && busy_station_spec(products@, stations@[s]))
                implies v@.contains(x) by {
                let s = choose|s: int|
                    0 <= s < i + 1 && #[trigger] stations@[s].index == x && busy_station_spec(products@, stations@[s]);
                if s < i {
                    assert(before.contains(x));
                    let k = choose|k: int| 0 <= k < before.len() && before[k] == x;
                    assert(v@[k] == x);
                } else {
                    assert(v@[v@.len() - 1] == x);
                }
            }
        }
        i += 1;
    }
    assert(v@.to_set() =~= active_stations_spec(products@, stations@));
    v
}

/// The robots' part of a tick: plan against the snapshot, settle the
/// moves, and land each robot.
fn move_robots(state: &SimState, conveyor_running: bool) -> (moved: Vec<Robot>)
    requires
        tick_ready(state@),
    ensures
        models(moved@) == moved_robots(state@, conveyor_running),
{
    let ghost s = state@;
    assert forall|i: int| 0 <= i < state.robots@.len() implies robot_ready(#[trigger] state.robots@[i]@) by {
        assert(s.robots[i] == state.robots@[i]@);
    }
    let occupied = occupied_cells(&state.robots);
    let active = active_stations(&state.products, &state.stations);
    let planned = plan_all_parallel(
        &state.grid,
        &state.robots,
        &occupied,
        state.tick_count,
        conveyor_running,
        &active,
    );
    let ghost pv = planned_robots(s, conveyor_running);
    assert forall|i: int| 0 <= i < planned@.len() implies (#[trigger] planned@[i])@ == pv[i] by {}

    let n = state.robots.len();
    let mut intents: Vec<MoveIntent> = Vec::new();
    let mut i: usize = 0;
    while i < n
        invariant
            0 <= i <= n,
            n == state.robots@.len(),
            n == planned@.len(),
            s == state@,
            pv == planned_robots(s, conveyor_running),
            forall|j: int| 0 <= j < n ==> (#[trigger] planned@[j])@ == pv[j],
            intents@.len() == i,
            forall|j: int| 0 <= j < i ==> #[trigger] intents@[j] == robot_intents(s.robots, pv)[j],
        decreases n - i,
    {
        intents.push(MoveIntent { mover_id: state.robots[i].id, from: state.robots[i].pos, to: planned[i].pos });
        i += 1;
    }
    assert(intents@ =~= robot_intents(s.robots, pv));
    let settled = resolve_intents(&intents);

    let ghost mv = moved_robots(s, conveyor_running);
    let mut moved: Vec<Robot> = Vec::new();
    i = 0;
    while i < n
        invariant
            0 <= i <= n,
            n == state.robots@.len(),
            n == planned@.len(),
            s == state@,
            pv == planned_robots(s, conveyor_running),
            mv == moved_robots(s, conveyor_running),
            forall|j: int| 0 <= j < n ==> (#[trigger] planned@[j])@ == pv[j],
            settled@ == resolve_spec(robot_intents(s.robots, pv)),
            moved@.len() == i,
            forall|j: int| 0 <= j < i ==> (#[trigger] moved@[j])@ == mv[j],
        decreases n - i,
    {
        let r = finish_move(state.robots[i].pos, planned[i].copy(), settled[i]);
        moved.push(r);
        i += 1;
    }
    assert(models(moved@) =~= mv);
    moved
}

/// After the robots move and the belt runs, helper logistics can run.
proof fn lemma_logistics_ready_after_moves(s: SimModel, conveyor_running: bool)
    requires
        tick_ready(s),
    ensures
        ({
            let belt = if conveyor_running {
                plan_products_spec(s.products, s.stations)
            } else {
                (s.products, s.stations)
            };
            logistics_ready(moved_robots(s, conveyor_running), belt.1, belt.0, s.pending_helper_tasks)
        }),
{
    let mv = moved_robots(s, conveyor_running);
    let belt = if conveyor_running {
        plan_products_spec(s.products, s.stations)
    } else {
        (s.products, s.stations)
    };
    if conveyor_running {
        crate::belt::lemma_belt_keeps(s.products, s.stations);
    }
    assert forall|i: int| 0 <= i < mv.len() implies match (#[trigger] mv[i]).helper_assignment {
        Some(t) => task_valid(t),
        None => true,
    } by {
        lemma_plan_keeps_identity(
            s.grid,
            s.robots[i],
            occupied_spec(s.robots),
            s.tick_count,
            conveyor_running,
            active_stations_spec(s.products, s.stations),
        );
        assert(robot_ready(s.robots[i]));
    }
    assert forall|p: int| 0 <= p < belt.0.len() implies (#[trigger] belt.0[p]).id + mv.len() < u32::MAX by {
        if conveyor_running {
            let j = choose|j: int| 0 <= j < s.products.len() && s.products[j].id == belt.0[p].id;
            assert(s.products[j].id + s.robots.len() < u32::MAX);
        } else {
            assert(s.products[p].id + s.robots.len() < u32::MAX);
        }
    }
    assert forall|k: int| 0 <= k < belt.1.len() implies ((#[trigger] belt.1[k]).index as usize) < STATION_COUNT by {
        assert((s.stations[k].index as usize) < STATION_COUNT);
    }
}

/// Advances the simulation by exactly one tick; see `tick_spec`. Robots
/// plan in parallel against the cells occupied at the start of the tick,
/// moves to the same cell go to the lowest id, the belt runs only while
/// the conveyor runs, and the tick count goes up by one.
pub fn tick(state: &SimState, conveyor_running: bool) -> (next: SimState)
    requires
        tick_ready(state@),
    ensures
        next@ == tick_spec(state@, conveyor_running),
{
    let moved = move_robots(state, conveyor_running);
    let (products, stations) = if conveyor_running {
        plan_products(&state.products, &state.stations)
    } else {
        (copy_products(&state.products), copy_stations(&state.stations))
    };
    let pending = copy_tasks(&state.pending_helper_tasks);
    proof {
        lemma_logistics_ready_after_moves(state@, conveyor_running);
    }
    let (robots, stations, products, pending) = run_helper_logistics(
        moved,
        stations,
        products,
        pending,
        conveyor_running,
    );
    SimState {
        grid: state.grid.copy(),
        robots,
        products,
        stations,
        pending_helper_tasks: pending,
        tick_count: state.tick_count + 1,
    }
}

/// A fresh vector with the same jobs.
pub fn copy_tasks(v: &Vec<HelperTask>) -> (r: Vec<HelperTask>)
    ensures
        r@ == v@,
{
    let mut r: Vec<HelperTask> = Vec::new();
    let mut i: usize = 0;
    while i < v.len()
        invariant
            0 <= i <= v@.len(),
            r@ == v@.subrange(0, i as int),
        decreases v@.len() - i,
    {
        r.push(v[i]);
        assert(r@ =~= v@.subrange(0, i + 1));
        i += 1;
    }
    assert(r@ =~= v@);
    r
}

/// A fresh vector of copies of the robots.
pub fn copy_robots(v: &Vec<Robot>) -> (r: Vec<Robot>)
    ensures
        models(r@) == models(v@),
{
    let mut r: Vec<Robot> = Vec::new();
    let mut i: usize = 0;
    while i < v.len()
        invariant
            0 <= i <= v@.len(),
            models(r@) == models(v@.subrange(0, i as int)),
        decreases v@.len() - i,
    {
        let c = v[i].copy();
        proof {
            assert(v@.subrange(0, i + 1) =~= v@.subrange(0, i as int).push(v@[i as int]));
            assert(models(v@.subrange(0, i as int).push(v@[i as int])) =~= models(v@.subrange(0, i as int)).push(v@[i as int]@));
            assert(models(r@.push(c)) =~= models(r@).push(c@));
        }
        r.push(c);
        i += 1;
    }
    assert(v@.subrange(0, v@.len() as int) =~= v@);
    r
}

impl Clone for SimState {
    fn clone(&self) -> (s: SimState)
        ensures
            s@ == self@,
    {
        SimState {
            grid: self.grid.copy(),
            robots: copy_robots(&self.robots),
            products: crate::belt::copy_products(&self.products),
            stations: crate::belt::copy_stations(&self.stations),
            pending_helper_tasks: copy_tasks(&self.pending_helper_tasks),
            tick_count: self.tick_count,
        }
    }
}

/// No two robots stand on the same cell.
pub open spec fn distinct_positions(robots: Seq<RobotModel>) -> bool {
    forall|i: int, j: int| 0 <= i < j < robots.len() ==> (#[trigger] robots[i]).pos != (#[trigger] robots[j]).pos
}

/// No two robots share an id.
pub open spec fn distinct_ids(robots: Seq<RobotModel>) -> bool {
    forall|i: int, j: int| 0 <= i < j < robots.len() ==> (#[trigger] robots[i]).id != (#[trigger] robots[j]).id
}

/// A robot's plan either keeps it in place or takes it to a cell nobody
/// occupied at the start of the tick.
pub proof fn lemma_plan_moves_to_free_cell(
    g: GridModel,
    r: RobotModel,
    occupied: Set<CellId>,
    tick_count: u64,
    conveyor_running: bool,
    active: Set<u8>,
)
    ensures
        ({
            let p = plan_robot_spec(g, r, occupied, tick_count, conveyor_running, active);
            p.pos == r.pos || !occupied.contains(p.pos)
        }),
{
    let next = update_status_spec(r, tick_count);
    if next.status == RobotStatus::Operational && next.role == RobotRole::Helper && conveyor_running {
        match next.helper_assignment {
            Some(task) => {
                if next.work_ticks_remaining == 0 {
                    let target = if next.carrying { destination_spec(task) } else { WAREHOUSE_CELL };
                    if next.pos != target {
                        let r1 = if next.goal != target {
                            RobotModel { goal: target, path: Seq::empty(), ticks_until_repath: 0, ..next }
                        } else {
                            next
                        };
                        let a = advance_spec(g, r1, occupied);
                        assert(a.pos == r1.pos || !occupied.contains(a.pos));
                    }
                }
            },
            None => {},
        }
    }
}

/// Helper logistics never moves a robot or changes its id, status or role.
pub proof fn lemma_logistics_keeps_robots(
    robots: Seq<RobotModel>,
    st: Seq<Station>,
    ps: Seq<Product>,
    pending: Seq<HelperTask>,
    conveyor_running: bool,
)
    ensures
        logistics_spec(robots, st, ps, pending, conveyor_running).0.len() == robots.len(),
        forall|i: int|
            0 <= i < robots.len() ==> {
                let r = #[trigger] logistics_spec(robots, st, ps, pending, conveyor_running).0[i];
                r.pos == robots[i].pos && r.id == robots[i].id && r.status == robots[i].status && r.role
                    == robots[i].role && r.task == robots[i].task
            },
{
    if conveyor_running {
        let queued = crate::logistics::enqueue_requests(st, ps, pending, robots);
        let assigned = assign_spec(robots, queued);
        lemma_complete_all_keeps(assigned.0, st, ps);
    }
}

/// Finished drop-offs never move a robot or change its id, status or role.
pub proof fn lemma_complete_all_keeps(robots: Seq<RobotModel>, st: Seq<Station>, ps: Seq<Product>)
    ensures
        complete_all(robots, st, ps).0.len() == robots.len(),
        forall|i: int|
            0 <= i < robots.len() ==> {
                let r = #[trigger] complete_all(robots, st, ps).0[i];
                r.pos == robots[i].pos && r.id == robots[i].id && r.status == robots[i].status && r.role
                    == robots[i].role && r.task == robots[i].task
            },
    decreases robots.len(),
{
    if robots.len() > 0 {
        lemma_complete_all_keeps(robots.drop_last(), st, ps);
        let prev = complete_all(robots.drop_last(), st, ps);
        let out = complete_all(robots, st, ps);
        assert forall|i: int| 0 <= i < robots.len() implies {
            let r = #[trigger] out.0[i];
            r.pos == robots[i].pos && r.id == robots[i].id && r.status == robots[i].status && r.role == robots[i].role
                && r.task == robots[i].task
        } by {
            if i < robots.len() - 1 {
                assert(out.0[i] == prev.0[i]);
                assert(robots.drop_last()[i] == robots[i]);
            }
        }
    }
}

/// Where each robot stands after a tick is where its move was settled.
pub proof fn lemma_tick_positions(s: SimModel, conveyor_running: bool)
    ensures
        tick_spec(s, conveyor_running).robots.len() == s.robots.len(),
        forall|i: int|
            0 <= i < s.robots.len() ==> {
                let r = #[trigger] tick_spec(s, conveyor_running).robots[i];
                &&& r.pos == resolve_spec(robot_intents(s.robots, planned_robots(s, conveyor_running)))[i]
                &&& r.id == s.robots[i].id
                &&& r.status == planned_robots(s, conveyor_running)[i].status
                &&& r.role == s.robots[i].role
            },
{
    let mv = moved_robots(s, conveyor_running);
    let belt = if conveyor_running {
        plan_products_spec(s.products, s.stations)
    } else {
        (s.products, s.stations)
    };
    lemma_logistics_keeps_robots(mv, belt.1, belt.0, s.pending_helper_tasks, conveyor_running);
    assert forall|i: int| 0 <= i < s.robots.len() implies {
        let r = #[trigger] tick_spec(s, conveyor_running).robots[i];
        &&& r.pos == resolve_spec(robot_intents(s.robots, planned_robots(s, conveyor_running)))[i]
        &&& r.id == s.robots[i].id
        &&& r.status == planned_robots(s, conveyor_running)[i].status
        &&& r.role == s.robots[i].role
    } by {
        lemma_plan_keeps_identity(
            s.grid,
            s.robots[i],
            occupied_spec(s.robots),
            s.tick_count,
            conveyor_running,
            active_stations_spec(s.products, s.stations),
        );
        assert(tick_spec(s, conveyor_running).robots[i].pos == mv[i].pos);
    }
}

/// Robots that start a tick on distinct cells with distinct ids end it on
/// distinct cells, keeping their ids: moves are checked against the cells
/// occupied at the start of the tick, and a contested cell goes to exactly
/// one robot, the one with the lowest id.
pub proof fn lemma_tick_never_collides(s: SimModel, conveyor_running: bool)
    requires
        distinct_positions(s.robots),
        distinct_ids(s.robots),
    ensures
        tick_spec(s, conveyor_running).robots.len() == s.robots.len(),
        distinct_positions(tick_spec(s, conveyor_running).robots),
        distinct_ids(tick_spec(s, conveyor_running).robots),
{
    let planned = planned_robots(s, conveyor_running);
    let intents = robot_intents(s.robots, planned);
    let settled = resolve_spec(intents);
    let occ = occupied_spec(s.robots);
    let out = tick_spec(s, conveyor_running).robots;
    lemma_tick_positions(s, conveyor_running);
    assert forall|i: int, j: int| 0 <= i < j < out.len() implies (#[trigger] out[i]).pos != (#[trigger] out[j]).pos by {
        assert(out[i].pos == settled[i]);
        assert(out[j].pos == settled[j]);
        lemma_plan_moves_to_free_cell(
            s.grid,
            s.robots[i],
            occ,
            s.tick_count,
            conveyor_running,
            active_stations_spec(s.products, s.stations),
        );
        lemma_plan_moves_to_free_cell(
            s.grid,
            s.robots[j],
            occ,
            s.tick_count,
            conveyor_running,
            active_stations_spec(s.products, s.stations),
        );
        assert(occ.contains(s.robots[i].pos));
        assert(occ.contains(s.robots[j].pos));
        assert(s.robots[i].pos != s.robots[j].pos);
        assert(s.robots[i].id != s.robots[j].id);
        if wins(intents, i) && wins(intents, j) && intents[i].to == intents[j].to {
            assert(intents[i].mover_id <= intents[j].mover_id);
            assert(intents[j].mover_id <= intents[i].mover_id);
        }
    }
    assert forall|i: int, j: int| 0 <= i < j < out.len() implies (#[trigger] out[i]).id != (#[trigger] out[j]).id by {
        assert(s.robots[i].id != s.robots[j].id);
    }
}

/// A robot whose plan keeps it in place stays in place for the whole tick.
pub proof fn lemma_staying_robot_stays(s: SimModel, conveyor_running: bool, i: int)
    requires
        0 <= i < s.robots.len(),
        planned_robots(s, conveyor_running)[i].pos == s.robots[i].pos,
    ensures
        tick_spec(s, conveyor_running).robots[i].pos == s.robots[i].pos,
{
    lemma_tick_positions(s, conveyor_running);
}

/// An assembly robot, a failed robot, and one whose repair does not end
/// this tick all plan to stay where they are.
pub proof fn lemma_plan_stays(
    g: GridModel,
    r: RobotModel,
    occupied: Set<CellId>,
    tick_count: u64,
    conveyor_running: bool,
    active: Set<u8>,
)
    requires
        r.role is Assembly || r.status == RobotStatus::Failed || (r.status matches RobotStatus::Repairing {
            remaining_ticks,
        } && remaining_ticks > 1),
    ensures
        plan_robot_spec(g, r, occupied, tick_count, conveyor_running, active).pos == r.pos,
        r.status == RobotStatus::Failed ==> plan_robot_spec(g, r, occupied, tick_count, conveyor_running, active).status
            == RobotStatus::Failed,
{
    let next = update_status_spec(r, tick_count);
    assert(next.pos == r.pos && next.role == r.role);
}

/// A failed robot, or one whose repair does not end this tick, does not
/// move; a failed robot stays failed.
pub proof fn lemma_frozen_robots_never_move(s: SimModel, conveyor_running: bool, i: int)
    requires
        0 <= i < s.robots.len(),
        s.robots[i].status == RobotStatus::Failed || (s.robots[i].status matches RobotStatus::Repairing {
            remaining_ticks,
        } && remaining_ticks > 1),
    ensures
        tick_spec(s, conveyor_running).robots[i].pos == s.robots[i].pos,
        s.robots[i].status == RobotStatus::Failed ==> tick_spec(s, conveyor_running).robots[i].status
            == RobotStatus::Failed,
{
    lemma_plan_stays(
        s.grid,
        s.robots[i],
        occupied_spec(s.robots),
        s.tick_count,
        conveyor_running,
        active_stations_spec(s.products, s.stations),
    );
    lemma_tick_positions(s, conveyor_running);
    lemma_staying_robot_stays(s, conveyor_running, i);
}

/// Some product is being assembled, with its countdown running, on the
/// belt cell of a station with index `k`.
pub open spec fn station_busy(s: SimModel, k: u8) -> bool {
    exists|st: int, p: int|
        0 <= st < s.stations.len() && 0 <= p < s.products.len() && #[trigger] s.stations[st].index == k
            && #[trigger] s.products[p].pos == s.stations[st].belt_cell && s.products[p].work_ticks_remaining > 0
}

/// After a tick, an operational assembly robot is picking exactly when a
/// product was being assembled at its station at the start of the tick,
/// and idle otherwise.
pub proof fn lemma_assembly_robot_works_with_its_station(s: SimModel, conveyor_running: bool, i: int)
    requires
        0 <= i < s.robots.len(),
        s.robots[i].role is Assembly,
    ensures
        ({
            let r = tick_spec(s, conveyor_running).robots[i];
            let k = s.robots[i].role->station_index;
            r.status == RobotStatus::Operational ==> {
                &&& (r.task == Task::Picking <==> station_busy(s, k))
                &&& (r.task == Task::Idle <==> !station_busy(s, k))
            }
        }),
{
    let mv = moved_robots(s, conveyor_running);
    let belt = if conveyor_running {
        plan_products_spec(s.products, s.stations)
    } else {
        (s.products, s.stations)
    };
    lemma_logistics_keeps_robots(mv, belt.1, belt.0, s.pending_helper_tasks, conveyor_running);
    lemma_tick_positions(s, conveyor_running);
    let k = s.robots[i].role->station_index;
    let active = active_stations_spec(s.products, s.stations);
    assert(active.contains(k) <==> station_busy(s, k)) by {
        if active.contains(k) {
            let st = choose|st: int|
                0 <= st < s.stations.len() && #[trigger] s.stations[st].index == k && busy_station_spec(
                    s.products,
                    s.stations[st],
                );
            let p = choose|p: int|
                0 <= p < s.products.len() && #[trigger] s.products[p].pos == s.stations[st].belt_cell
                    && s.products[p].work_ticks_remaining > 0;
            assert(s.stations[st].index == k && s.products[p].pos == s.stations[st].belt_cell);
        }
        if station_busy(s, k) {
            let (st, p) = choose|st: int, p: int|
                0 <= st < s.stations.len() && 0 <= p < s.products.len() && #[trigger] s.stations[st].index == k
                    && #[trigger] s.products[p].pos == s.stations[st].belt_cell
                    && s.products[p].work_ticks_remaining > 0;
            assert(busy_station_spec(s.products, s.stations[st]));
        }
    }
    assert(tick_spec(s, conveyor_running).robots[i].task == mv[i].task);
}

/// An assembly robot never moves.
pub proof fn lemma_assembly_robots_never_move(s: SimModel, conveyor_running: bool, i: int)
    requires
        0 <= i < s.robots.len(),
        s.robots[i].role is Assembly,
    ensures
        tick_spec(s, conveyor_running).robots[i].pos == s.robots[i].pos,
{
    lemma_plan_stays(
        s.grid,
        s.robots[i],
        occupied_spec(s.robots),
        s.tick_count,
        conveyor_running,
        active_stations_spec(s.products, s.stations),
    );
    lemma_staying_robot_stays(s, conveyor_running, i);
}

/// An assembly robot is never given a helper job: one without a job still
/// has none after a tick.
pub proof fn lemma_assembly_robots_never_get_jobs(s: SimModel, conveyor_running: bool, i: int)
    requires
        0 <= i < s.robots.len(),
        s.robots[i].role is Assembly,
        s.robots[i].helper_assignment is None,
    ensures
        tick_spec(s, conveyor_running).robots[i].helper_assignment is None,
{
    lemma_plan_keeps_identity(
        s.grid,
        s.robots[i],
        occupied_spec(s.robots),
        s.tick_count,
        conveyor_running,
        active_stations_spec(s.products, s.stations),
    );
    let mv = moved_robots(s, conveyor_running);
    assert(mv[i].helper_assignment is None);
    assert(mv[i].role is Assembly);
    if conveyor_running {
        let belt = plan_products_spec(s.products, s.stations);
        let queued = crate::logistics::enqueue_requests(belt.1, belt.0, s.pending_helper_tasks, mv);
        let assigned = assign_spec(mv, queued);
        assert(!crate::logistics::is_idle_helper(mv[i]));
        assert(assigned.0[i] == mv[i]);
        crate::logistics::lemma_complete_all_shape(assigned.0, belt.1, belt.0);
    }
}

/// With the conveyor stopped, products, stations and the job queue are
/// left exactly as they were, and no robot's job changes.
pub proof fn lemma_stopped_conveyor_freezes_the_line(s: SimModel)
    ensures
        tick_spec(s, false).products == s.products,
        tick_spec(s, false).stations == s.stations,
        tick_spec(s, false).pending_helper_tasks == s.pending_helper_tasks,
        tick_spec(s, false).robots.len() == s.robots.len(),
        forall|i: int|
            0 <= i < s.robots.len() ==> (#[trigger] tick_spec(s, false).robots[i]).helper_assignment
                == s.robots[i].helper_assignment,
{
    assert forall|i: int| 0 <= i < s.robots.len() implies (#[trigger] tick_spec(s, false).robots[i]).helper_assignment
        == s.robots[i].helper_assignment by {
        lemma_plan_keeps_identity(
            s.grid,
            s.robots[i],
            occupied_spec(s.robots),
            s.tick_count,
            false,
            active_stations_spec(s.products, s.stations),
        );
    }
}

/// Every helper job is held at most once after a tick if it was before:
/// a job is queued only when nobody wants it yet, each idle helper takes a
/// different queued job, and taken jobs leave the queue.
pub proof fn lemma_tick_keeps_jobs_unique(s: SimModel, conveyor_running: bool)
    requires
        jobs_unique(s.robots, s.pending_helper_tasks),
    ensures
        jobs_unique(tick_spec(s, conveyor_running).robots, tick_spec(s, conveyor_running).pending_helper_tasks),
{
    let mv = moved_robots(s, conveyor_running);
    assert forall|i: int| 0 <= i < mv.len() implies (#[trigger] mv[i]).helper_assignment
        == s.robots[i].helper_assignment by {
        lemma_plan_keeps_identity(
            s.grid,
            s.robots[i],
            occupied_spec(s.robots),
            s.tick_count,
            conveyor_running,
            active_stations_spec(s.products, s.stations),
        );
    }
    assert(jobs_unique(mv, s.pending_helper_tasks));
    let belt = if conveyor_running {
        plan_products_spec(s.products, s.stations)
    } else {
        (s.products, s.stations)
    };
    lemma_logistics_keeps_jobs_unique(mv, belt.1, belt.0, s.pending_helper_tasks, conveyor_running);
}

fn assignment_ok(a: HelperAssignment) -> (b: bool)
    ensures
        b == assignment_valid(a),
{
    match a {
        Some(HelperTask::RestockStation { station_index }) => (station_index as usize) < STATION_COUNT,
        _ => true,
    }
}

/// Whether `tick` can run on this state; see `tick_ready`. A state that
/// is not ready would overflow a counter or name a station that does not
/// exist.
pub fn check_tick_ready(state: &SimState) -> (b: bool)
    ensures
        b == tick_ready(state@),
{
    let ghost s = state@;
    if state.tick_count == u64::MAX {
        return false;
    }
    let n = state.robots.len();
    if n >= u32::MAX as usize {
        return false;
    }
    let mut i: usize = 0;
    while i < n
        invariant
            0 <= i <= n,
            n == state.robots@.len(),
            s == state@,
            forall|j: int| 0 <= j < i ==> robot_ready(#[trigger] s.robots[j]),
        decreases n - i,
    {
        assert(s.robots[i as int] == state.robots@[i as int]@);
        let r = &state.robots[i];
        let wears = r.status == RobotStatus::Operational && (r.task == Task::Picking || r.task == Task::Placing);
        if (wears && r.worn_ticks == u64::MAX) || !assignment_ok(r.helper_assignment) {
            return false;
        }
        i += 1;
    }
    i = 0;
    while i < state.products.len()
        invariant
            0 <= i <= s.products.len(),
            s == state@,
            n == s.robots.len(),
            n < u32::MAX,
            forall|j: int| 0 <= j < i ==> (#[trigger] s.products[j]).pos.0 < i32::MAX,
            forall|j: int| 0 <= j < i ==> (#[trigger] s.products[j]).id + n < u32::MAX,
        decreases s.products.len() - i,
    {
        let p = state.products[i];
        if p.pos.0 == i32::MAX || (p.id as u64) + (n as u64) >= (u32::MAX as u64) {
            return false;
        }
        i += 1;
    }
    i = 0;
    while i < state.stations.len()
        invariant
            0 <= i <= s.stations.len(),
            s == state@,
            forall|j: int| 0 <= j < i ==> ((#[trigger] s.stations[j]).index as usize) < STATION_COUNT,
        decreases s.stations.len() - i,
    {
        if (state.stations[i].index as usize) >= STATION_COUNT {
            return false;
        }
        i += 1;
    }
    i = 0;
    while i < state.pending_helper_tasks.len()
        invariant
            0 <= i <= s.pending_helper_tasks.len(),
            s == state@,
            forall|j: int| 0 <= j < i ==> task_valid(#[trigger] s.pending_helper_tasks[j]),
        decreases s.pending_helper_tasks.len() - i,
    {
        if !assignment_ok(Some(state.pending_helper_tasks[i])) {
            return false;
        }
        i += 1;
    }
    true
}

/// The line is consistent: jobs held and queued name standard stations,
/// every station is a standard one, and every product can step right.
pub open spec fn line_valid(s: SimModel) -> bool {
    logistics_valid(s.robots, s.stations, s.products, s.pending_helper_tasks)
}

/// A tick keeps the line consistent: stations keep their indices, new jobs
/// come from stations, and products stay before the end of the belt or
/// appear on the line start.
pub proof fn lemma_tick_keeps_line_valid(s: SimModel, conveyor_running: bool)
    requires
        line_valid(s),
    ensures
        line_valid(tick_spec(s, conveyor_running)),
{
    let mv = moved_robots(s, conveyor_running);
    assert forall|i: int| 0 <= i < mv.len() implies assignment_valid((#[trigger] mv[i]).helper_assignment) by {
        lemma_plan_keeps_identity(
            s.grid,
            s.robots[i],
            occupied_spec(s.robots),
            s.tick_count,
            conveyor_running,
            active_stations_spec(s.products, s.stations),
        );
        assert(assignment_valid(s.robots[i].helper_assignment));
    }
    let belt = if conveyor_running {
        plan_products_spec(s.products, s.stations)
    } else {
        (s.products, s.stations)
    };
    if conveyor_running {
        crate::belt::lemma_belt_keeps(s.products, s.stations);
    }
    assert forall|k: int| 0 <= k < belt.1.len() implies ((#[trigger] belt.1[k]).index as usize) < STATION_COUNT by {
        assert((s.stations[k].index as usize) < STATION_COUNT);
    }
    assert forall|p: int| 0 <= p < belt.0.len() implies (#[trigger] belt.0[p]).pos.0 < i32::MAX by {
        if !conveyor_running {
            assert(s.products[p].pos.0 < i32::MAX);
        }
    }
    lemma_logistics_keeps_valid(mv, belt.1, belt.0, s.pending_helper_tasks, conveyor_running);
}

/// No station holds more parts than it can.
pub open spec fn inventory_bounded(st: Seq<Station>) -> bool {
    forall|k: int| 0 <= k < st.len() ==> (#[trigger] st[k]).part_inventory <= STATION_MAX_INVENTORY
}

/// A tick never overfills a station: assembly only uses parts, and a
/// restock fills a station exactly to `STATION_MAX_INVENTORY`.
pub proof fn lemma_tick_keeps_inventory_bounded(s: SimModel, conveyor_running: bool)
    requires
        inventory_bounded(s.stations),
    ensures
        inventory_bounded(tick_spec(s, conveyor_running).stations),
{
    let mv = moved_robots(s, conveyor_running);
    let belt = if conveyor_running {
        plan_products_spec(s.products, s.stations)
    } else {
        (s.products, s.stations)
    };
    if conveyor_running {
        crate::belt::lemma_assemble_all_uses_parts(s.products, s.stations);
        assert forall|k: int| 0 <= k < belt.1.len() implies (#[trigger] belt.1[k]).part_inventory
            <= STATION_MAX_INVENTORY by {
            assert(s.stations[k].part_inventory <= STATION_MAX_INVENTORY);
        }
        let queued = crate::logistics::enqueue_requests(belt.1, belt.0, s.pending_helper_tasks, mv);
        let assigned = assign_spec(mv, queued);
        crate::logistics::lemma_complete_all_inventory(assigned.0, belt.1, belt.0);
        let done = complete_all(assigned.0, belt.1, belt.0);
        assert forall|k: int| 0 <= k < done.1.len() implies (#[trigger] done.1[k]).part_inventory
            <= STATION_MAX_INVENTORY by {
            assert(belt.1[k].part_inventory <= STATION_MAX_INVENTORY);
        }
    }
}

/// The belt is in order: products stand on distinct cells between the line
/// start and the end column, with distinct ids; every job is held at most
/// once; and a frame delivery is only queued or held while the line start
/// is free.
pub open spec fn belt_sound(s: SimModel) -> bool {
    &&& distinct_cells(s.products)
    &&& distinct_product_ids(s.products)
    &&& forall|p: int|
        0 <= p < s.products.len() ==> BELT_START_X <= (#[trigger] s.products[p]).pos.0 < BELT_END_X
    &&& jobs_unique(s.robots, s.pending_helper_tasks)
    &&& crate::logistics::wanted(HelperTask::DeliverFrame, s.pending_helper_tasks, s.robots)
        ==> crate::logistics::line_start_empty(s.products)
}

/// Products never share a cell: a tick keeps the belt in order. Products
/// only move right onto cells free at the start of the tick, contested
/// cells go to the lowest id, and a fresh frame is only put on the line
/// start while it is free, by the one helper holding the frame delivery.
#[verifier::spinoff_prover]
pub proof fn lemma_tick_keeps_belt_sound(s: SimModel, conveyor_running: bool)
    requires
        belt_sound(s),
        forall|p: int| 0 <= p < s.products.len() ==> (#[trigger] s.products[p]).id < u32::MAX,
    ensures
        belt_sound(tick_spec(s, conveyor_running)),
        distinct_cells(tick_spec(s, conveyor_running).products),
{
    let mv = moved_robots(s, conveyor_running);
    assert forall|i: int| 0 <= i < mv.len() implies (#[trigger] mv[i]).helper_assignment
        == s.robots[i].helper_assignment by {
        lemma_plan_keeps_identity(
            s.grid,
            s.robots[i],
            occupied_spec(s.robots),
            s.tick_count,
            conveyor_running,
            active_stations_spec(s.products, s.stations),
        );
    }
    assert(jobs_unique(mv, s.pending_helper_tasks));
    let df = HelperTask::DeliverFrame;
    assert(crate::logistics::wanted(df, s.pending_helper_tasks, mv) ==> crate::logistics::wanted(
        df,
        s.pending_helper_tasks,
        s.robots,
    )) by {
        if exists|i: int| 0 <= i < mv.len() && #[trigger] mv[i].helper_assignment == Some(df) {
            let i = choose|i: int| 0 <= i < mv.len() && #[trigger] mv[i].helper_assignment == Some(df);
            assert(s.robots[i].helper_assignment == Some(df));
        }
    }
    if conveyor_running {
        let ps = s.products;
        let st = s.stations;
        let belt = plan_products_spec(ps, st);
        crate::belt::lemma_belt_never_collides(ps, st);
        crate::belt::lemma_belt_moves_right(ps, st);
        crate::belt::lemma_belt_keeps(ps, st);
        assert forall|p: int| 0 <= p < belt.0.len() implies BELT_START_X <= (#[trigger] belt.0[p]).pos.0 && belt.0[p].id
            < u32::MAX by {
            let j = choose|j: int|
                0 <= j < ps.len() && ps[j].id == belt.0[p].id && (belt.0[p].pos == ps[j].pos || belt.0[p].pos
                    == belt_next(ps[j]));
            assert(BELT_START_X <= ps[j].pos.0 < BELT_END_X);
        }
        assert(crate::logistics::line_start_empty(ps) ==> crate::logistics::line_start_empty(belt.0)) by {
            if crate::logistics::line_start_empty(ps) && !crate::logistics::line_start_empty(belt.0) {
                let p = choose|p: int| 0 <= p < belt.0.len() && #[trigger] belt.0[p].pos == crate::logistics::line_start();
                let j = choose|j: int|
                    0 <= j < ps.len() && ps[j].id == belt.0[p].id && (belt.0[p].pos == ps[j].pos || belt.0[p].pos
                        == belt_next(ps[j]));
                assert(BELT_START_X <= ps[j].pos.0 < BELT_END_X);
            }
        }
        crate::logistics::lemma_logistics_keeps_frames_apart(mv, belt.1, belt.0, s.pending_helper_tasks, true);
        let queued = crate::logistics::enqueue_requests(belt.1, belt.0, s.pending_helper_tasks, mv);
        let assigned = assign_spec(mv, queued);
        crate::logistics::lemma_complete_all_shape(assigned.0, belt.1, belt.0);
        crate::logistics::lemma_logistics_keeps_jobs_unique(mv, belt.1, belt.0, s.pending_helper_tasks, true);
        let out = tick_spec(s, conveyor_running);
        assert forall|p: int| 0 <= p < out.products.len() implies BELT_START_X <= (#[trigger] out.products[p]).pos.0
            < BELT_END_X by {
            let done = complete_all(assigned.0, belt.1, belt.0);
            assert(out.products == done.2);
            if done.2[p].pos != crate::logistics::line_start() {
                let j = choose|j: int| 0 <= j < belt.0.len() && belt.0[j] == #[trigger] done.2[p];
                assert(belt.0[j].pos.0 < BELT_END_X);
            }
        }
    } else {
        crate::logistics::lemma_logistics_keeps_jobs_unique(
            mv,
            s.stations,
            s.products,
            s.pending_helper_tasks,
            false,
        );
    }
}

/// A tick is a function of the state and the conveyor switch alone: equal
/// states give equal next states, whatever order the robots are planned in
/// (each plan reads only the snapshot taken at the start of the tick).
pub proof fn lemma_tick_deterministic(s1: SimModel, s2: SimModel, conveyor_running: bool)
    requires
        s1 == s2,
    ensures
        tick_spec(s1, conveyor_running) == tick_spec(s2, conveyor_running),
{
}

} // verus!
