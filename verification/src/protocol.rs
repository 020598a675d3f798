//! The wire vocabulary shared with clients: plain enums and cells that
//! mirror the simulation's types, the conversions between them, the views
//! of robots, products and stations, snapshots, and the commands a client
//! can send.
use vstd::prelude::*;
use crate::cells::CellId;
use crate::game_state::Conveyor;
use crate::sim::{
    capped_wear, BodyPose, Direction, Product, Robot, RobotModel, RobotRole, RobotStatus, Station, Task,
    WEAR_LIMIT_TICKS,
};

verus! {

/// The protocol version every server message carries.
pub const PROTOCOL_VERSION: u8 = 1;

#[derive(Debug, Clone, Copy, PartialEq, Eq, Structural)]
pub enum WireTask {
    Idle,
    Picking,
    Placing,
}

pub open spec fn task_from_wire(t: WireTask) -> Task {
    match t {
        WireTask::Idle => Task::Idle,
        WireTask::Picking => Task::Picking,
        WireTask::Placing => Task::Placing,
    }
}

pub open spec fn wire_from_task(t: Task) -> WireTask {
    match t {
        Task::Idle => WireTask::Idle,
        Task::Picking => WireTask::Picking,
        Task::Placing => WireTask::Placing,
    }
}

impl From<WireTask> for Task {
    fn from(t: WireTask) -> (r: Task) {
        match t {
            WireTask::Idle => Task::Idle,
            WireTask::Picking => Task::Picking,
            WireTask::Placing => Task::Placing,
        }
    }
}

impl vstd::std_specs::convert::FromSpecImpl<WireTask> for Task {
    open spec fn obeys_from_spec() -> bool {
        true
    }

    open spec fn from_spec(v: WireTask) -> Task {
        task_from_wire(v)
    }
}

impl From<Task> for WireTask {
    fn from(t: Task) -> (r: WireTask) {
        match t {
            Task::Idle => WireTask::Idle,
            Task::Picking => WireTask::Picking,
            Task::Placing => WireTask::Placing,
        }
    }
}

impl vstd::std_specs::convert::FromSpecImpl<Task> for WireTask {
    open spec fn obeys_from_spec() -> bool {
        true
    }

    open spec fn from_spec(v: Task) -> WireTask {
        wire_from_task(v)
    }
}

#[derive(Debug, Clone, Copy, PartialEq, Eq, Structural)]
pub enum WirePose {
    Standing,
    Crouching,
}

pub open spec fn wire_from_pose(p: BodyPose) -> WirePose {
    match p {
        BodyPose::Standing => WirePose::Standing,
        BodyPose::Crouching => WirePose::Crouching,
    }
}

impl From<BodyPose> for WirePose {
    fn from(p: BodyPose) -> (r: WirePose) {
        match p {
            BodyPose::Standing => WirePose::Standing,
            BodyPose::Crouching => WirePose::Crouching,
        }
    }
}

impl vstd::std_specs::convert::FromSpecImpl<BodyPose> for WirePose {
    open spec fn obeys_from_spec() -> bool {
        true
    }

    open spec fn from_spec(v: BodyPose) -> WirePose {
        wire_from_pose(v)
    }
}

/// The body pose for a task: standing while idle, crouching while working.
pub open spec fn pose_for_spec(task: Task) -> BodyPose {
    if task == Task::Idle {
        BodyPose::Standing
    } else {
        BodyPose::Crouching
    }
}

/// The body pose for a task; see `pose_for_spec`.
pub fn pose_for(task: Task) -> (p: BodyPose)
    ensures
        p == pose_for_spec(task),
{
    if task == Task::Idle {
        BodyPose::Standing
    } else {
        BodyPose::Crouching
    }
}

#[derive(Debug, Clone, Copy, PartialEq, Eq, Structural)]
pub enum WireDirection {
    North,
    East,
    South,
    West,
}

pub open spec fn wire_from_direction(d: Direction) -> WireDirection {
    match d {
        Direction::North => WireDirection::North,
        Direction::East => WireDirection::East,
        Direction::South => WireDirection::South,
        Direction::West => WireDirection::West,
    }
}

impl From<Direction> for WireDirection {
    fn from(d: Direction) -> (r: WireDirection) {
        match d {
            Direction::North => WireDirection::North,
            Direction::East => WireDirection::East,
            Direction::South => WireDirection::South,
            Direction::West => WireDirection::West,
        }
    }
}

impl vstd::std_specs::convert::FromSpecImpl<Direction> for WireDirection {
    open spec fn obeys_from_spec() -> bool {
        true
    }

    open spec fn from_spec(v: Direction) -> WireDirection {
        wire_from_direction(v)
    }
}

#[derive(Debug, Clone, Copy, PartialEq, Eq, Structural)]
pub enum WireStatus {
    Operational,
    Failed,
    Repairing { remaining_ticks: u32 },
}

pub open spec fn wire_from_status(s: RobotStatus) -> WireStatus {
    match s {
        RobotStatus::Operational => WireStatus::Operational,
        RobotStatus::Failed => WireStatus::Failed,
        RobotStatus::Repairing { remaining_ticks } => WireStatus::Repairing { remaining_ticks },
    }
}

impl From<RobotStatus> for WireStatus {
    fn from(s: RobotStatus) -> (r: WireStatus) {
        match s {
            RobotStatus::Operational => WireStatus::Operational,
            RobotStatus::Failed => WireStatus::Failed,
            RobotStatus::Repairing { remaining_ticks } => WireStatus::Repairing { remaining_ticks },
        }
    }
}

impl vstd::std_specs::convert::FromSpecImpl<RobotStatus> for WireStatus {
    open spec fn obeys_from_spec() -> bool {
        true
    }

    open spec fn from_spec(v: RobotStatus) -> WireStatus {
        wire_from_status(v)
    }
}

#[derive(Debug, Clone, Copy, PartialEq, Eq, Structural)]
pub enum WireRobotRole {
    Assembly { station_index: u8 },
    Helper,
}

pub open spec fn wire_from_role(r: RobotRole) -> WireRobotRole {
    match r {
        RobotRole::Assembly { station_index } => WireRobotRole::Assembly { station_index },
        RobotRole::Helper => WireRobotRole::Helper,
    }
}

impl From<RobotRole> for WireRobotRole {
    fn from(r: RobotRole) -> (w: WireRobotRole) {
        match r {
            RobotRole::Assembly { station_index } => WireRobotRole::Assembly { station_index },
            RobotRole::Helper => WireRobotRole::Helper,
        }
    }
}

impl vstd::std_specs::convert::FromSpecImpl<RobotRole> for WireRobotRole {
    open spec fn obeys_from_spec() -> bool {
        true
    }

    open spec fn from_spec(v: RobotRole) -> WireRobotRole {
        wire_from_role(v)
    }
}

/// A grid cell on the wire.
#[derive(Debug, Clone, Copy, PartialEq, Eq, Structural)]
pub struct WireCellId {
    pub x: i32,
    pub y: i32,
}

pub open spec fn wire_from_cell(c: CellId) -> WireCellId {
    WireCellId { x: c.0, y: c.1 }
}

impl From<CellId> for WireCellId {
    fn from(pos: CellId) -> (w: WireCellId) {
        WireCellId { x: pos.0, y: pos.1 }
    }
}

impl vstd::std_specs::convert::FromSpecImpl<CellId> for WireCellId {
    open spec fn obeys_from_spec() -> bool {
        true
    }

    open spec fn from_spec(v: CellId) -> WireCellId {
        wire_from_cell(v)
    }
}

/// The conveyor on the wire.
#[derive(Debug, Clone, Copy, PartialEq, Eq, Structural)]
pub struct ConveyorView {
    pub running: bool,
}

impl From<Conveyor> for ConveyorView {
    fn from(c: Conveyor) -> (v: ConveyorView) {
        ConveyorView { running: c.running }
    }
}

impl vstd::std_specs::convert::FromSpecImpl<Conveyor> for ConveyorView {
    open spec fn obeys_from_spec() -> bool {
        true
    }

    open spec fn from_spec(v: Conveyor) -> ConveyorView {
        ConveyorView { running: v.running }
    }
}

/// A command from a client. `Resume` only asks whether a session is still
/// within its reconnect grace period; it is answered by the session
/// registry, not applied to the game.
#[derive(Debug, Clone, Copy, PartialEq, Eq, Structural)]
pub enum ClientCommand {
    SelectRobot { robot_id: u32 },
    ReleaseRobot,
    ToggleConveyor,
    SetRobotCount { count: usize },
    TriggerArmAction { robot_id: u32, task: WireTask },
    RepairRobot { robot_id: u32 },
    Resume { session_id: u128 },
}

/// A robot as clients see it. Durability is in twentieths (steps of 5%)
/// and the gait in steps of `1 / LEG_CYCLE_STEPS`, so that a working
/// robot's view changes rarely.
#[derive(Debug, Clone, PartialEq)]
pub struct RobotView {
    pub id: u32,
    pub pos: WireCellId,
    pub pose: WirePose,
    pub leg_cycle_step: u8,
    pub task: WireTask,
    pub status: WireStatus,
    pub durability_twentieths: u8,
    pub path: Vec<WireCellId>,
    pub facing: WireDirection,
    pub carrying: bool,
    pub role: WireRobotRole,
}

/// The value of a robot view, with its path as a sequence.
pub struct RobotViewModel {
    pub id: u32,
    pub pos: WireCellId,
    pub pose: WirePose,
    pub leg_cycle_step: u8,
    pub task: WireTask,
    pub status: WireStatus,
    pub durability_twentieths: u8,
    pub path: Seq<WireCellId>,
    pub facing: WireDirection,
    pub carrying: bool,
    pub role: WireRobotRole,
}

impl View for RobotView {
    type V = RobotViewModel;

    open spec fn view(&self) -> RobotViewModel {
        RobotViewModel {
            id: self.id,
            pos: self.pos,
            pose: self.pose,
            leg_cycle_step: self.leg_cycle_step,
            task: self.task,
            status: self.status,
            durability_twentieths: self.durability_twentieths,
            path: self.path@,
            facing: self.facing,
            carrying: self.carrying,
            role: self.role,
        }
    }
}

/// The values of a sequence of robot views.
pub open spec fn view_models(vs: Seq<RobotView>) -> Seq<RobotViewModel> {
    vs.map_values(|v: RobotView| v@)
}

/// A product as clients see it.
#[derive(Debug, Clone, Copy, PartialEq, Eq, Structural)]
pub struct ProductView {
    pub id: u32,
    pub stage: u8,
    pub pos: WireCellId,
}

/// A station as clients see it.
#[derive(Debug, Clone, Copy, PartialEq, Eq, Structural)]
pub struct StationView {
    pub index: u8,
    pub robot_cell: WireCellId,
    pub belt_cell: WireCellId,
    pub part_inventory: u32,
}

/// Wear counts at which single-precision arithmetic puts `20 * (1 - wear
/// ratio)` just below an exact half, so that it rounds down: the durability
/// is reported as a client computing it in `f32` would see it.
pub open spec fn f32_half_below(wear: int) -> bool {
    wear == 14500 || wear == 18500 || wear == 19500
}

/// The remaining durability, `1 - wear ratio`, rounded to the nearest
/// twentieth, in twentieths. Halves round up, except at the wear counts of
/// `f32_half_below`, where they round down.
pub open spec fn durability_twentieths_spec(worn_ticks: u64) -> u8 {
    let wear = capped_wear(worn_ticks);
    let nearest = (20 * (WEAR_LIMIT_TICKS - wear) + WEAR_LIMIT_TICKS / 2) / (WEAR_LIMIT_TICKS as int);
    (if f32_half_below(wear) {
        nearest - 1
    } else {
        nearest
    }) as u8
}

/// The remaining durability in twentieths; see `durability_twentieths_spec`.
pub fn durability_twentieths(worn_ticks: u64) -> (d: u8)
    ensures
        d == durability_twentieths_spec(worn_ticks),
        d <= 20,
{
    let wear: u64 = if worn_ticks < WEAR_LIMIT_TICKS { worn_ticks } else { WEAR_LIMIT_TICKS };
    let nearest = (20 * (WEAR_LIMIT_TICKS - wear) + WEAR_LIMIT_TICKS / 2) / WEAR_LIMIT_TICKS;
    let d = if wear == 14500 || wear == 18500 || wear == 19500 {
        nearest - 1
    } else {
        nearest
    };
    d as u8
}

/// The cells of a path on the wire.
pub open spec fn wire_path(path: Seq<CellId>) -> Seq<WireCellId> {
    path.map_values(|c: CellId| wire_from_cell(c))
}

/// How a robot looks to clients.
pub open spec fn robot_view_spec(r: RobotModel) -> RobotViewModel {
    RobotViewModel {
        id: r.id,
        pos: wire_from_cell(r.pos),
        pose: wire_from_pose(pose_for_spec(r.task)),
        leg_cycle_step: r.leg_cycle_step,
        task: wire_from_task(r.task),
        status: wire_from_status(r.status),
        durability_twentieths: durability_twentieths_spec(r.worn_ticks),
        path: wire_path(r.path),
        facing: wire_from_direction(r.facing),
        carrying: r.carrying,
        role: wire_from_role(r.role),
    }
}

/// How a robot looks to clients; see `robot_view_spec`.
pub fn robot_view(r: &Robot) -> (v: RobotView)
    ensures
        v@ == robot_view_spec(r@),
{
    let mut path: Vec<WireCellId> = Vec::new();
    let mut i: usize = 0;
    while i < r.path.len()
        invariant
            0 <= i <= r.path@.len(),
            path@ == wire_path(r.path@.take(i as int)),
        decreases r.path@.len() - i,
    {
        path.push(WireCellId::from(r.path[i]));
        assert(path@ =~= wire_path(r.path@.take(i + 1)));
        i += 1;
    }
    assert(r.path@.take(r.path@.len() as int) =~= r.path@);
    RobotView {
        id: r.id,
        pos: WireCellId::from(r.pos),
        pose: WirePose::from(pose_for(r.task)),
        leg_cycle_step: r.leg_cycle_step,
        task: WireTask::from(r.task),
        status: WireStatus::from(r.status),
        durability_twentieths: durability_twentieths(r.worn_ticks),
        path,
        facing: WireDirection::from(r.facing),
        carrying: r.carrying,
        role: WireRobotRole::from(r.role),
    }
}

/// How a product looks to clients.
pub open spec fn product_view_spec(p: Product) -> ProductView {
    ProductView { id: p.id, stage: p.stage, pos: wire_from_cell(p.pos) }
}

/// How a product looks to clients; see `product_view_spec`.
pub fn product_view(p: Product) -> (v: ProductView)
    ensures
        v == product_view_spec(p),
{
    ProductView { id: p.id, stage: p.stage, pos: WireCellId::from(p.pos) }
}

/// How a station looks to clients.
pub open spec fn station_view_spec(s: Station) -> StationView {
    StationView {
        index: s.index,
        robot_cell: wire_from_cell(s.robot_cell),
        belt_cell: wire_from_cell(s.belt_cell),
        part_inventory: s.part_inventory,
    }
}

/// How a station looks to clients; see `station_view_spec`.
pub fn station_view(s: Station) -> (v: StationView)
    ensures
        v == station_view_spec(s),
{
    StationView {
        index: s.index,
        robot_cell: WireCellId::from(s.robot_cell),
        belt_cell: WireCellId::from(s.belt_cell),
        part_inventory: s.part_inventory,
    }
}

/// The whole visible state at one tick.
pub struct Snapshot {
    pub v: u8,
    pub tick: u64,
    pub conveyor: ConveyorView,
    pub robots: Vec<RobotView>,
    pub stations: Vec<StationView>,
    pub products: Vec<ProductView>,
}

/// The value of a snapshot.
pub struct SnapshotModel {
    pub v: u8,
    pub tick: u64,
    pub conveyor: ConveyorView,
    pub robots: Seq<RobotViewModel>,
    pub stations: Seq<StationView>,
    pub products: Seq<ProductView>,
}

impl View for Snapshot {
    type V = SnapshotModel;

    open spec fn view(&self) -> SnapshotModel {
        SnapshotModel {
            v: self.v,
            tick: self.tick,
            conveyor: self.conveyor,
            robots: view_models(self.robots@),
            stations: self.stations@,
            products: self.products@,
        }
    }
}

/// The views of robots, in order.
pub open spec fn robot_views_spec(robots: Seq<RobotModel>) -> Seq<RobotViewModel> {
    Seq::new(robots.len(), |i: int| robot_view_spec(robots[i]))
}

/// The views of products, in order.
pub open spec fn product_views_spec(ps: Seq<Product>) -> Seq<ProductView> {
    Seq::new(ps.len(), |i: int| product_view_spec(ps[i]))
}

/// The views of stations, in order.
pub open spec fn station_views_spec(st: Seq<Station>) -> Seq<StationView> {
    Seq::new(st.len(), |i: int| station_view_spec(st[i]))
}

/// The views of robots; see `robot_views_spec`.
pub fn robot_views(robots: &Vec<Robot>) -> (vs: Vec<RobotView>)
    ensures
        view_models(vs@) == robot_views_spec(crate::sim::models(robots@)),
{
    let mut vs: Vec<RobotView> = Vec::new();
    let mut i: usize = 0;
    while i < robots.len()
        invariant
            0 <= i <= robots@.len(),
            vs@.len() == i,
            forall|j: int| 0 <= j < i ==> (#[trigger] vs@[j])@ == robot_view_spec(robots@[j]@),
        decreases robots@.len() - i,
    {
        vs.push(robot_view(&robots[i]));
        i += 1;
    }
    assert(view_models(vs@) =~= robot_views_spec(crate::sim::models(robots@)));
    vs
}

/// The views of products; see `product_views_spec`.
pub fn product_views(ps: &Vec<Product>) -> (vs: Vec<ProductView>)
    ensures
        vs@ == product_views_spec(ps@),
{
    let mut vs: Vec<ProductView> = Vec::new();
    let mut i: usize = 0;
    while i < ps.len()
        invariant
            0 <= i <= ps@.len(),
            vs@.len() == i,
            forall|j: int| 0 <= j < i ==> #[trigger] vs@[j] == product_view_spec(ps@[j]),
        decreases ps@.len() - i,
    {
        vs.push(product_view(ps[i]));
        i += 1;
    }
    assert(vs@ =~= product_views_spec(ps@));
    vs
}

/// The views of stations; see `station_views_spec`.
pub fn station_views(st: &Vec<Station>) -> (vs: Vec<StationView>)
    ensures
        vs@ == station_views_spec(st@),
{
    let mut vs: Vec<StationView> = Vec::new();
    let mut i: usize = 0;
    while i < st.len()
        invariant
            0 <= i <= st@.len(),
            vs@.len() == i,
            forall|j: int| 0 <= j < i ==> #[trigger] vs@[j] == station_view_spec(st@[j]),
        decreases st@.len() - i,
    {
        vs.push(station_view(st[i]));
        i += 1;
    }
    assert(vs@ =~= station_views_spec(st@));
    vs
}

/// A robot view reports the robot's status variant for variant: failed as
/// failed, operational as operational, and a repair with its remaining
/// ticks; it also keeps the robot's id.
pub proof fn lemma_view_reports_status(r: RobotModel)
    ensures
        robot_view_spec(r).id == r.id,
        r.status == RobotStatus::Failed <==> robot_view_spec(r).status == WireStatus::Failed,
        r.status == RobotStatus::Operational <==> robot_view_spec(r).status == WireStatus::Operational,
        forall|n: u32|
            r.status == (RobotStatus::Repairing { remaining_ticks: n }) <==> robot_view_spec(r).status
                == (WireStatus::Repairing { remaining_ticks: n }),
{
}

/// A robot crouches exactly while it works, and stands while idle.
pub proof fn lemma_pose_follows_task(t: Task)
    ensures
        pose_for_spec(t) == BodyPose::Standing <==> t == Task::Idle,
        pose_for_spec(t) == BodyPose::Crouching <==> (t == Task::Picking || t == Task::Placing),
{
}

/// The reported durability is the remaining share `1 - wear / limit` (wear
/// capped at the limit) to the nearest twentieth: full with no wear, none
/// at the limit, never more than half a twentieth off, and never growing
/// with more wear.
pub proof fn lemma_durability_nearest(w1: u64, w2: u64)
    ensures
        durability_twentieths_spec(w1) <= 20,
        w1 == 0 ==> durability_twentieths_spec(w1) == 20,
        w1 >= WEAR_LIMIT_TICKS ==> durability_twentieths_spec(w1) == 0,
        ({
            let err = 20 * (WEAR_LIMIT_TICKS - capped_wear(w1)) - durability_twentieths_spec(w1) * (WEAR_LIMIT_TICKS as int);
            -(WEAR_LIMIT_TICKS as int) <= 2 * err <= WEAR_LIMIT_TICKS as int
        }),
        w1 <= w2 ==> durability_twentieths_spec(w2) <= durability_twentieths_spec(w1),
{
    let c1 = capped_wear(w1);
    let c2 = capped_wear(w2);
    let n1 = (20 * (WEAR_LIMIT_TICKS - c1) + WEAR_LIMIT_TICKS / 2) / (WEAR_LIMIT_TICKS as int);
    let n2 = (20 * (WEAR_LIMIT_TICKS - c2) + WEAR_LIMIT_TICKS / 2) / (WEAR_LIMIT_TICKS as int);
    assert(0 <= n1 <= 20);
    assert(0 <= n2 <= 20);
}

/// A task sent over the wire comes back as the same task, and a wire task
/// read and sent again is the same wire task.
pub proof fn lemma_task_round_trip(t: Task, w: WireTask)
    ensures
        task_from_wire(wire_from_task(t)) == t,
        wire_from_task(task_from_wire(w)) == w,
{
}

} // verus!
