//! The operator-facing game state: the simulation plus the conveyor switch,
//! the robot the operator has selected, and the commands that change them.
use vstd::prelude::*;
use crate::cells::CellId;
use crate::protocol::{task_from_wire, ClientCommand, ConveyorView, PROTOCOL_VERSION};
use crate::protocol::{
    product_views, product_views_spec, robot_views, robot_views_spec, station_views, station_views_spec, Snapshot,
    SnapshotModel,
};
use crate::sim::{
    lemma_tick_positions, tick_spec, distinct_ids, models, new_robot_spec, Robot, RobotModel, RobotRole, RobotStatus, SimModel, SimState, Station,
    Task, HELPER_SPAWN_STAGING_CELLS, REPAIR_TICKS,
};

verus! {

/// Whether the conveyor belt runs.
#[derive(Debug, Clone, Copy, PartialEq, Eq, Structural)]
pub struct Conveyor {
    pub running: bool,
}

impl Conveyor {
    /// A running conveyor.
    pub fn new() -> (c: Conveyor)
        ensures
            c.running,
    {
        Conveyor { running: true }
    }
}

impl Default for Conveyor {
    fn default() -> (c: Conveyor)
        ensures
            c.running,
    {
        Conveyor::new()
    }
}

/// Why a command was refused.
#[derive(Debug, Clone, Copy, PartialEq, Eq, Structural)]
pub enum CommandError {
    RobotNotFound(u32),
    RobotNotOperational(u32),
    RobotNotFailed(u32),
}

/// The most helpers the operator can ask for; larger requests are cut
/// down to this.
pub const MAX_ROBOT_COUNT: usize = 200;

/// The simulation with the operator's conveyor switch and selection.
pub struct GameState {
    pub sim: SimState,
    pub conveyor: Conveyor,
    pub selected_robot: Option<u32>,
    /// The id the next robot added will get.
    pub next_robot_id: u32,
}

/// The value of a game state; `next_robot_id` is the id the next robot
/// added will get.
pub struct GameModel {
    pub sim: SimModel,
    pub conveyor: Conveyor,
    pub selected_robot: Option<u32>,
    pub next_robot_id: u32,
}

impl View for GameState {
    type V = GameModel;

    open spec fn view(&self) -> GameModel {
        GameModel {
            sim: self.sim@,
            conveyor: self.conveyor,
            selected_robot: self.selected_robot,
            next_robot_id: self.next_robot_id,
        }
    }
}

/// The largest robot id, if there is a robot.
pub open spec fn max_robot_id(robots: Seq<RobotModel>) -> Option<u32>
    decreases robots.len(),
{
    if robots.len() == 0 {
        None
    } else {
        match max_robot_id(robots.drop_last()) {
            Some(m) => Some(if robots.last().id > m { robots.last().id } else { m }),
            None => Some(robots.last().id),
        }
    }
}

/// One past the largest robot id, or 0 with no robots.
pub open spec fn first_free_id(robots: Seq<RobotModel>) -> int {
    match max_robot_id(robots) {
        Some(m) => m + 1,
        None => 0,
    }
}

/// Some robot is an assembly robot.
pub open spec fn has_assembly(robots: Seq<RobotModel>) -> bool {
    exists|i: int| 0 <= i < robots.len() && (#[trigger] robots[i]).role is Assembly
}

/// The assembly robot of a station, standing on the station's robot cell.
pub open spec fn assembly_robot(id: u32, st: Station) -> RobotModel {
    RobotModel { role: RobotRole::Assembly { station_index: st.index }, ..new_robot_spec(id, st.robot_cell, st.robot_cell) }
}

/// A new game on a simulation with no assembly robot gets one assembly
/// robot per station, with fresh ids; otherwise the robots are kept.
pub open spec fn with_assembly_robots(g: GameModel) -> GameModel {
    if has_assembly(g.sim.robots) {
        g
    } else {
        let st = g.sim.stations;
        GameModel {
            sim: SimModel {
                robots: g.sim.robots + Seq::new(
                    st.len(),
                    |k: int| assembly_robot((g.next_robot_id + k) as u32, st[k]),
                ),
                ..g.sim
            },
            next_robot_id: (g.next_robot_id + st.len()) as u32,
            ..g
        }
    }
}

/// A new game: the conveyor runs, nothing is selected, new ids start past
/// the largest id in the simulation, and the assembly robots exist.
pub open spec fn new_game_spec(sim: SimModel) -> GameModel {
    with_assembly_robots(
        GameModel {
            sim,
            conveyor: Conveyor { running: true },
            selected_robot: None,
            next_robot_id: first_free_id(sim.robots) as u32,
        },
    )
}

/// A new game can be made: its ids fit in a `u32`.
pub open spec fn new_game_fits(sim: SimModel) -> bool {
    &&& first_free_id(sim.robots) <= u32::MAX
    &&& !has_assembly(sim.robots) ==> first_free_id(sim.robots) + sim.stations.len() <= u32::MAX
}

/// The largest id is one of the ids, and no id is larger.
pub proof fn lemma_max_robot_id(robots: Seq<RobotModel>)
    requires
        robots.len() > 0,
    ensures
        max_robot_id(robots) is Some,
        exists|i: int| 0 <= i < robots.len() && robots[i].id == max_robot_id(robots)->0,
        forall|i: int| 0 <= i < robots.len() ==> (#[trigger] robots[i]).id <= max_robot_id(robots)->0,
    decreases robots.len(),
{
    if robots.len() > 1 {
        lemma_max_robot_id(robots.drop_last());
        let m = max_robot_id(robots.drop_last())->0;
        let w = choose|i: int| 0 <= i < robots.drop_last().len() && robots.drop_last()[i].id == m;
        if robots.last().id > m {
            assert(robots[robots.len() - 1].id == max_robot_id(robots)->0);
        } else {
            assert(robots[w].id == max_robot_id(robots)->0);
        }
        assert forall|i: int| 0 <= i < robots.len() implies (#[trigger] robots[i]).id <= max_robot_id(robots)->0 by {
            if i < robots.len() - 1 {
                assert(robots.drop_last()[i].id <= m);
            }
        }
    } else {
        assert(robots[0].id == max_robot_id(robots)->0);
    }
}

fn largest_id(robots: &Vec<Robot>) -> (m: Option<u32>)
    ensures
        m == max_robot_id(models(robots@)),
{
    let ghost rv = models(robots@);
    let mut best: Option<u32> = None;
    let mut i: usize = 0;
    while i < robots.len()
        invariant
            0 <= i <= robots@.len(),
            rv == models(robots@),
            best == max_robot_id(rv.take(i as int)),
        decreases robots@.len() - i,
    {
        let id = robots[i].id;
        proof {
            assert(rv.take(i + 1).drop_last() =~= rv.take(i as int));
            assert(rv.take(i + 1).last() == rv[i as int]);
        }
        best = match best {
            Some(m) => Some(if id > m { id } else { m }),
            None => Some(id),
        };
        i += 1;
    }
    assert(rv.take(rv.len() as int) =~= rv);
    best
}

fn any_assembly(robots: &Vec<Robot>) -> (b: bool)
    ensures
        b == has_assembly(models(robots@)),
{
    let ghost rv = models(robots@);
    let mut i: usize = 0;
    while i < robots.len()
        invariant
            0 <= i <= robots@.len(),
            rv == models(robots@),
            forall|j: int| 0 <= j < i ==> !(rv[j].role is Assembly),
        decreases robots@.len() - i,
    {
        match robots[i].role {
            RobotRole::Assembly { .. } => {
                assert(rv[i as int].role is Assembly);
                return true;
            },
            RobotRole::Helper => {},
        }
        i += 1;
    }
    false
}

impl GameState {
    /// A new game on `sim`: the conveyor runs, nothing is selected, and if
    /// the simulation has no assembly robot, one is added beside each
    /// station.
    pub fn new(sim: SimState) -> (g: GameState)
        requires
            new_game_fits(sim@),
        ensures
            g@ == new_game_spec(sim@),
    {
        let next_robot_id: u32 = match largest_id(&sim.robots) {
            Some(m) => {
                proof {
                    lemma_max_robot_id(sim@.robots);
                }
                m + 1
            },
            None => 0,
        };
        let mut state = GameState { sim, conveyor: Conveyor::new(), selected_robot: None, next_robot_id };
        state.ensure_assembly_robots_exist();
        state
    }

    /// Adds one assembly robot per station when there is none yet; a game
    /// that has its assembly robots is left as it is.
    fn ensure_assembly_robots_exist(&mut self)
        requires
            !has_assembly(old(self)@.sim.robots) ==> old(self)@.next_robot_id + old(self)@.sim.stations.len()
                <= u32::MAX,
        ensures
            final(self)@ == with_assembly_robots(old(self)@),
    {
        if any_assembly(&self.sim.robots) {
            return;
        }
        let ghost g0 = self@;
        assert(g0.next_robot_id + g0.sim.stations.len() <= u32::MAX);
        let n = self.sim.stations.len();
        let mut k: usize = 0;
        while k < n
            invariant
                0 <= k <= n,
                n == g0.sim.stations.len(),
                g0.next_robot_id + n <= u32::MAX,
                self.sim.stations@ == g0.sim.stations,
                self.next_robot_id == g0.next_robot_id + k,
                models(self.sim.robots@) == g0.sim.robots + Seq::new(
                    k as nat,
                    |j: int| assembly_robot((g0.next_robot_id + j) as u32, g0.sim.stations[j]),
                ),
                self.sim.grid@ == g0.sim.grid,
                self.sim.products@ == g0.sim.products,
                self.sim.pending_helper_tasks@ == g0.sim.pending_helper_tasks,
                self.sim.tick_count == g0.sim.tick_count,
                self.conveyor == g0.conveyor,
                self.selected_robot == g0.selected_robot,
            decreases n - k,
        {
            let st = self.sim.stations[k];
            let id = self.next_robot_id;
            self.next_robot_id = self.next_robot_id + 1;
            let mut robot = Robot::new(id, st.robot_cell, st.robot_cell);
            robot.role = RobotRole::Assembly { station_index: st.index };
            assert(robot@ == assembly_robot((g0.next_robot_id + k) as u32, g0.sim.stations[k as int]));
            let ghost before = self.sim.robots@;
            self.sim.robots.push(robot);
            proof {
                let added = Seq::new(
                    (k + 1) as nat,
                    |j: int| assembly_robot((g0.next_robot_id + j) as u32, g0.sim.stations[j]),
                );
                let prev_added = Seq::new(
                    k as nat,
                    |j: int| assembly_robot((g0.next_robot_id + j) as u32, g0.sim.stations[j]),
                );
                assert(self.sim.robots@ == before.push(robot));
                assert(models(self.sim.robots@) =~= models(before).push(robot@));
                assert(added =~= prev_added.push(robot@));
                assert(models(self.sim.robots@) =~= g0.sim.robots + added);
            }
            k += 1;
        }
        assert(self@.sim =~= with_assembly_robots(g0).sim);
    }
}

/// The requested helper count, kept between 1 and `MAX_ROBOT_COUNT`.
pub open spec fn clamp_count(target: usize) -> nat {
    if target < 1 {
        1
    } else if target > MAX_ROBOT_COUNT {
        MAX_ROBOT_COUNT as nat
    } else {
        target as nat
    }
}

/// The robot is a helper.
pub open spec fn is_helper(r: RobotModel) -> bool {
    r.role == RobotRole::Helper
}

/// How many of the first `k` robots are helpers.
pub open spec fn helper_count_upto(robots: Seq<RobotModel>, k: int) -> nat
    decreases k,
{
    if k <= 0 {
        0
    } else {
        helper_count_upto(robots, k - 1) + if is_helper(robots[k - 1]) {
            1nat
        } else {
            0nat
        }
    }
}

/// How many robots are helpers.
pub open spec fn helper_count(robots: Seq<RobotModel>) -> nat {
    helper_count_upto(robots, robots.len() as int)
}

/// The idle cell of a newly added helper: `HELPER_SPAWN_STAGING_CELLS`
/// indexed by its id.
pub open spec fn staging_cell(id: u32) -> CellId {
    let k = id % 6;
    if k == 0 {
        (0, 0)
    } else if k == 1 {
        (2, 0)
    } else if k == 2 {
        (6, 0)
    } else if k == 3 {
        (8, 0)
    } else if k == 4 {
        (1, 1)
    } else {
        (7, 1)
    }
}

/// A newly added helper, standing on its staging cell.
pub open spec fn new_helper(id: u32) -> RobotModel {
    new_robot_spec(id, staging_cell(id), staging_cell(id))
}

/// `n` new helpers with consecutive ids from `next`.
pub open spec fn spawned(next: u32, n: nat) -> Seq<RobotModel> {
    Seq::new(n, |k: int| new_helper((next + k) as u32))
}

/// Among the first `k` robots, the helper with the largest id (the last
/// one among equals).
pub open spec fn top_helper_upto(robots: Seq<RobotModel>, k: int) -> Option<int>
    decreases k,
{
    if k <= 0 {
        None
    } else {
        let best = top_helper_upto(robots, k - 1);
        if is_helper(robots[k - 1]) && (best is None || robots[k - 1].id >= robots[best->0].id) {
            Some(k - 1)
        } else {
            best
        }
    }
}

/// The robots without the helper with the largest id, if there is a helper.
pub open spec fn remove_top_helper(robots: Seq<RobotModel>) -> Seq<RobotModel> {
    match top_helper_upto(robots, robots.len() as int) {
        Some(k) => robots.remove(k),
        None => robots,
    }
}

/// The robots after removing the top helper `n` times.
pub open spec fn shrink(robots: Seq<RobotModel>, n: nat) -> Seq<RobotModel>
    decreases n,
{
    if n == 0 {
        robots
    } else {
        remove_top_helper(shrink(robots, (n - 1) as nat))
    }
}

/// Some robot has this id.
pub open spec fn has_robot(robots: Seq<RobotModel>, id: u32) -> bool {
    exists|i: int| 0 <= i < robots.len() && (#[trigger] robots[i]).id == id
}

/// The game after asking for `target` helpers: helpers are added (fresh
/// ids, on their staging cells) or the helpers with the largest ids are
/// removed until the count is `target` kept within 1 ..= `MAX_ROBOT_COUNT`;
/// assembly robots are never touched, and a selection whose robot is gone
/// is cleared.
pub open spec fn set_count_spec(g: GameModel, target: usize) -> GameModel {
    let t = clamp_count(target);
    let current = helper_count(g.sim.robots);
    let robots = if current < t {
        g.sim.robots + spawned(g.next_robot_id, (t - current) as nat)
    } else {
        shrink(g.sim.robots, (current - t) as nat)
    };
    let next = if current < t {
        (g.next_robot_id + (t - current)) as u32
    } else {
        g.next_robot_id
    };
    let selected = match g.selected_robot {
        Some(s) => if has_robot(robots, s) {
            Some(s)
        } else {
            None
        },
        None => None,
    };
    GameModel { sim: SimModel { robots, ..g.sim }, next_robot_id: next, selected_robot: selected, ..g }
}

/// The new ids of a helper count change fit in a `u32`.
pub open spec fn set_count_fits(g: GameModel, target: usize) -> bool {
    helper_count(g.sim.robots) < clamp_count(target) ==> g.next_robot_id + clamp_count(target) - helper_count(
        g.sim.robots,
    ) <= u32::MAX
}

/// The first robot with this id.
pub open spec fn robot_index_from(robots: Seq<RobotModel>, id: u32, k: int) -> Option<int>
    decreases robots.len() - k,
{
    if k < 0 || k >= robots.len() {
        None
    } else if robots[k].id == id {
        Some(k)
    } else {
        robot_index_from(robots, id, k + 1)
    }
}

/// The first robot with this id, if any.
pub open spec fn robot_index(robots: Seq<RobotModel>, id: u32) -> Option<int> {
    robot_index_from(robots, id, 0)
}

/// A robot with this id is found exactly when one exists.
pub proof fn lemma_robot_index_from(robots: Seq<RobotModel>, id: u32, k: int)
    requires
        0 <= k,
    ensures
        match robot_index_from(robots, id, k) {
            Some(i) => k <= i < robots.len() && robots[i].id == id,
            None => forall|j: int| k <= j < robots.len() ==> (#[trigger] robots[j]).id != id,
        },
    decreases robots.len() - k,
{
    if k < robots.len() && robots[k].id != id {
        lemma_robot_index_from(robots, id, k + 1);
    }
}

/// The game with robot `i` replaced.
pub open spec fn with_robot(g: GameModel, i: int, r: RobotModel) -> GameModel {
    GameModel { sim: SimModel { robots: g.sim.robots.update(i, r), ..g.sim }, ..g }
}

/// Setting a robot's arm task: refused for an unknown robot, and for one
/// that is not operational; otherwise only that robot's task changes.
pub open spec fn arm_action_spec(g: GameModel, robot_id: u32, task: Task) -> (GameModel, Result<(), CommandError>) {
    match robot_index(g.sim.robots, robot_id) {
        None => (g, Err(CommandError::RobotNotFound(robot_id))),
        Some(i) => if g.sim.robots[i].status != RobotStatus::Operational {
            (g, Err(CommandError::RobotNotOperational(robot_id)))
        } else {
            (with_robot(g, i, RobotModel { task, ..g.sim.robots[i] }), Ok(()))
        },
    }
}

/// Starting a repair: refused for an unknown robot, and for one that has
/// not failed; otherwise that robot starts `REPAIR_TICKS` of repair.
pub open spec fn repair_spec(g: GameModel, robot_id: u32) -> (GameModel, Result<(), CommandError>) {
    match robot_index(g.sim.robots, robot_id) {
        None => (g, Err(CommandError::RobotNotFound(robot_id))),
        Some(i) => if g.sim.robots[i].status != RobotStatus::Failed {
            (g, Err(CommandError::RobotNotFailed(robot_id)))
        } else {
            (
                with_robot(
                    g,
                    i,
                    RobotModel { status: RobotStatus::Repairing { remaining_ticks: REPAIR_TICKS }, ..g.sim.robots[i] },
                ),
                Ok(()),
            )
        },
    }
}

/// A failed robot starts its repair; any other robot is left alone.
pub open spec fn repair_if_failed(r: RobotModel) -> RobotModel {
    if r.status == RobotStatus::Failed {
        RobotModel { status: RobotStatus::Repairing { remaining_ticks: REPAIR_TICKS }, ..r }
    } else {
        r
    }
}

/// How many of the first `k` robots have failed.
pub open spec fn failed_count_upto(robots: Seq<RobotModel>, k: int) -> nat
    decreases k,
{
    if k <= 0 {
        0
    } else {
        failed_count_upto(robots, k - 1) + if robots[k - 1].status == RobotStatus::Failed {
            1nat
        } else {
            0nat
        }
    }
}

/// How many robots have failed.
pub open spec fn failed_count(robots: Seq<RobotModel>) -> nat {
    failed_count_upto(robots, robots.len() as int)
}

fn staging_cell_of(id: u32) -> (c: CellId)
    ensures
        c == staging_cell(id),
{
    HELPER_SPAWN_STAGING_CELLS[(id % 6) as usize]
}

fn find_robot(robots: &Vec<Robot>, id: u32) -> (r: Option<usize>)
    ensures
        match r {
            Some(i) => robot_index(models(robots@), id) == Some(i as int) && i < robots@.len(),
            None => robot_index(models(robots@), id) is None,
        },
{
    let ghost rv = models(robots@);
    let mut k: usize = 0;
    while k < robots.len()
        invariant
            0 <= k <= robots@.len(),
            rv == models(robots@),
            robot_index(rv, id) == robot_index_from(rv, id, k as int),
        decreases robots@.len() - k,
    {
        if robots[k].id == id {
            return Some(k);
        }
        k += 1;
    }
    None
}

fn count_helpers(robots: &Vec<Robot>) -> (n: usize)
    ensures
        n == helper_count(models(robots@)),
{
    let ghost rv = models(robots@);
    let mut n: usize = 0;
    let mut i: usize = 0;
    while i < robots.len()
        invariant
            0 <= i <= robots@.len(),
            rv == models(robots@),
            n == helper_count_upto(rv, i as int),
            n <= i,
        decreases robots@.len() - i,
    {
        match robots[i].role {
            RobotRole::Helper => {
                n += 1;
            },
            RobotRole::Assembly { .. } => {},
        }
        i += 1;
    }
    n
}

fn top_helper(robots: &Vec<Robot>) -> (r: Option<usize>)
    ensures
        match r {
            Some(k) => top_helper_upto(models(robots@), robots@.len() as int) == Some(k as int) && k < robots@.len(),
            None => top_helper_upto(models(robots@), robots@.len() as int) is None,
        },
{
    let ghost rv = models(robots@);
    let mut best: Option<usize> = None;
    let mut i: usize = 0;
    while i < robots.len()
        invariant
            0 <= i <= robots@.len(),
            rv == models(robots@),
            match best {
                Some(k) => top_helper_upto(rv, i as int) == Some(k as int) && k < i,
                None => top_helper_upto(rv, i as int) is None,
            },
        decreases robots@.len() - i,
    {
        let helper = match robots[i].role {
            RobotRole::Helper => true,
            RobotRole::Assembly { .. } => false,
        };
        if helper {
            match best {
                None => {
                    best = Some(i);
                },
                Some(k) => {
                    if robots[i].id >= robots[k].id {
                        best = Some(i);
                    }
                },
            }
        }
        i += 1;
    }
    best
}

fn robot_exists(robots: &Vec<Robot>, id: u32) -> (b: bool)
    ensures
        b == has_robot(models(robots@), id),
{
    proof {
        lemma_robot_index_from(models(robots@), id, 0);
    }
    match find_robot(robots, id) {
        Some(i) => {
            assert(models(robots@)[i as int].id == id);
            true
        },
        None => false,
    }
}

impl GameState {
    /// Turns the conveyor on or off.
    pub fn toggle_conveyor(&mut self)
        ensures
            final(self)@ == (GameModel { conveyor: Conveyor { running: !old(self)@.conveyor.running }, ..old(self)@ }),
    {
        self.conveyor.running = !self.conveyor.running;
    }

    /// Sets the number of helpers to `target`, kept within 1 ..=
    /// `MAX_ROBOT_COUNT`; see `set_count_spec`.
    pub fn set_robot_count(&mut self, target: usize)
        requires
            set_count_fits(old(self)@, target),
        ensures
            final(self)@ == set_count_spec(old(self)@, target),
    {
        let ghost g0 = self@;
        let t: usize = if target < 1 {
            1
        } else if target > MAX_ROBOT_COUNT {
            MAX_ROBOT_COUNT
        } else {
            target
        };
        let current = count_helpers(&self.sim.robots);
        if current < t {
            let n = t - current;
            let mut k: usize = 0;
            while k < n
                invariant
                    0 <= k <= n,
                    n == clamp_count(target) - helper_count(g0.sim.robots),
                    g0.next_robot_id + n <= u32::MAX,
                    self.next_robot_id == g0.next_robot_id + k,
                    models(self.sim.robots@) == g0.sim.robots + spawned(g0.next_robot_id, k as nat),
                    self.sim.grid@ == g0.sim.grid,
                    self.sim.products@ == g0.sim.products,
                    self.sim.stations@ == g0.sim.stations,
                    self.sim.pending_helper_tasks@ == g0.sim.pending_helper_tasks,
                    self.sim.tick_count == g0.sim.tick_count,
                    self.conveyor == g0.conveyor,
                    self.selected_robot == g0.selected_robot,
                decreases n - k,
            {
                let id = self.next_robot_id;
                self.next_robot_id = self.next_robot_id + 1;
                let cell = staging_cell_of(id);
                let robot = Robot::new(id, cell, cell);
                let ghost before = self.sim.robots@;
                self.sim.robots.push(robot);
                proof {
                    assert(self.sim.robots@ == before.push(robot));
                    assert(models(self.sim.robots@) =~= models(before).push(robot@));
                    assert(spawned(g0.next_robot_id, (k + 1) as nat) =~= spawned(g0.next_robot_id, k as nat).push(
                        robot@,
                    ));
                }
                k += 1;
            }
        } else {
            let n = current - t;
            let mut k: usize = 0;
            while k < n
                invariant
                    0 <= k <= n,
                    n == helper_count(g0.sim.robots) - clamp_count(target),
                    self.next_robot_id == g0.next_robot_id,
                    models(self.sim.robots@) == shrink(g0.sim.robots, k as nat),
                    self.sim.grid@ == g0.sim.grid,
                    self.sim.products@ == g0.sim.products,
                    self.sim.stations@ == g0.sim.stations,
                    self.sim.pending_helper_tasks@ == g0.sim.pending_helper_tasks,
                    self.sim.tick_count == g0.sim.tick_count,
                    self.conveyor == g0.conveyor,
                    self.selected_robot == g0.selected_robot,
                decreases n - k,
            {
                let ghost before = self.sim.robots@;
                match top_helper(&self.sim.robots) {
                    Some(i) => {
                        self.sim.robots.remove(i);
                        proof {
                            assert(models(self.sim.robots@) =~= models(before).remove(i as int));
                        }
                    },
                    None => {},
                }
                k += 1;
            }
        }
        match self.selected_robot {
            Some(sel) => {
                if !robot_exists(&self.sim.robots, sel) {
                    self.selected_robot = None;
                }
            },
            None => {},
        }
        assert(self@.sim =~= set_count_spec(g0, target).sim);
    }

    /// Selects a robot; an unknown id is refused and changes nothing.
    pub fn select_robot(&mut self, robot_id: u32) -> (r: Result<(), CommandError>)
        ensures
            has_robot(old(self)@.sim.robots, robot_id) ==> r == Ok::<(), CommandError>(()) && final(self)@ == (
            GameModel { selected_robot: Some(robot_id), ..old(self)@ }),
            !has_robot(old(self)@.sim.robots, robot_id) ==> r == Err::<(), CommandError>(
                CommandError::RobotNotFound(robot_id),
            ) && final(self)@ == old(self)@,
    {
        if !robot_exists(&self.sim.robots, robot_id) {
            return Err(CommandError::RobotNotFound(robot_id));
        }
        self.selected_robot = Some(robot_id);
        Ok(())
    }

    /// Clears the selection.
    pub fn release_robot(&mut self)
        ensures
            final(self)@ == (GameModel { selected_robot: None, ..old(self)@ }),
    {
        self.selected_robot = None;
    }

    /// Sets the arm task of a robot; see `arm_action_spec`.
    pub fn trigger_arm_action(&mut self, robot_id: u32, task: Task) -> (r: Result<(), CommandError>)
        ensures
            (final(self)@, r) == arm_action_spec(old(self)@, robot_id, task),
    {
        let ghost g0 = self@;
        let i = match find_robot(&self.sim.robots, robot_id) {
            Some(i) => i,
            None => {
                return Err(CommandError::RobotNotFound(robot_id));
            },
        };
        if self.sim.robots[i].status != RobotStatus::Operational {
            return Err(CommandError::RobotNotOperational(robot_id));
        }
        let mut robot = self.sim.robots[i].copy();
        robot.task = task;
        let ghost before = self.sim.robots@;
        self.sim.robots.set(i, robot);
        proof {
            assert(models(self.sim.robots@) =~= models(before).update(i as int, robot@));
        }
        assert(self@.sim =~= arm_action_spec(g0, robot_id, task).0.sim);
        Ok(())
    }

    /// Starts the repair of a failed robot; see `repair_spec`.
    pub fn repair_robot(&mut self, robot_id: u32) -> (r: Result<(), CommandError>)
        ensures
            (final(self)@, r) == repair_spec(old(self)@, robot_id),
    {
        let ghost g0 = self@;
        let i = match find_robot(&self.sim.robots, robot_id) {
            Some(i) => i,
            None => {
                return Err(CommandError::RobotNotFound(robot_id));
            },
        };
        if self.sim.robots[i].status != RobotStatus::Failed {
            return Err(CommandError::RobotNotFailed(robot_id));
        }
        let mut robot = self.sim.robots[i].copy();
        robot.status = RobotStatus::Repairing { remaining_ticks: REPAIR_TICKS };
        let ghost before = self.sim.robots@;
        self.sim.robots.set(i, robot);
        proof {
            assert(models(self.sim.robots@) =~= models(before).update(i as int, robot@));
        }
        assert(self@.sim =~= repair_spec(g0, robot_id).0.sim);
        Ok(())
    }

    /// Starts the repair of every failed robot and returns how many; other
    /// robots are left alone.
    pub fn repair_all_failed_robots(&mut self) -> (n: usize)
        ensures
            n == failed_count(old(self)@.sim.robots),
            final(self)@ == (GameModel {
                sim: SimModel {
                    robots: Seq::new(
                        old(self)@.sim.robots.len(),
                        |i: int| repair_if_failed(old(self)@.sim.robots[i]),
                    ),
                    ..old(self)@.sim
                },
                ..old(self)@
            }),
    {
        let ghost g0 = self@;
        let len = self.sim.robots.len();
        let mut repaired: usize = 0;
        let mut i: usize = 0;
        while i < len
            invariant
                0 <= i <= len,
                len == g0.sim.robots.len(),
                self.sim.robots@.len() == len,
                repaired == failed_count_upto(g0.sim.robots, i as int),
                repaired <= i,
                forall|j: int| 0 <= j < i ==> (#[trigger] self.sim.robots@[j])@ == repair_if_failed(g0.sim.robots[j]),
                forall|j: int| i <= j < len ==> (#[trigger] self.sim.robots@[j])@ == g0.sim.robots[j],
                self.sim.grid@ == g0.sim.grid,
                self.sim.products@ == g0.sim.products,
                self.sim.stations@ == g0.sim.stations,
                self.sim.pending_helper_tasks@ == g0.sim.pending_helper_tasks,
                self.sim.tick_count == g0.sim.tick_count,
                self.conveyor == g0.conveyor,
                self.selected_robot == g0.selected_robot,
                self.next_robot_id == g0.next_robot_id,
            decreases len - i,
        {
            assert(self.sim.robots@[i as int]@ == g0.sim.robots[i as int]);
            if self.sim.robots[i].status == RobotStatus::Failed {
                let mut robot = self.sim.robots[i].copy();
                robot.status = RobotStatus::Repairing { remaining_ticks: REPAIR_TICKS };
                self.sim.robots.set(i, robot);
                repaired += 1;
            }
            i += 1;
        }
        assert(self@.sim.robots =~= Seq::new(g0.sim.robots.len(), |i: int| repair_if_failed(g0.sim.robots[i])));
        repaired
    }
}

/// Counting helpers over a prefix only looks at that prefix.
pub proof fn lemma_helper_count_prefix(s: Seq<RobotModel>, t: Seq<RobotModel>, k: int)
    requires
        0 <= k <= s.len(),
        k <= t.len(),
        forall|i: int| 0 <= i < k ==> s[i] == t[i],
    ensures
        helper_count_upto(s, k) == helper_count_upto(t, k),
    decreases k,
{
    if k > 0 {
        lemma_helper_count_prefix(s, t, k - 1);
    }
}

/// Helpers of a concatenation are those of both parts.
pub proof fn lemma_helper_count_concat(s: Seq<RobotModel>, t: Seq<RobotModel>)
    ensures
        helper_count(s + t) == helper_count(s) + helper_count(t),
    decreases t.len(),
{
    if t.len() == 0 {
        assert(s + t =~= s);
    } else {
        let t1 = t.drop_last();
        lemma_helper_count_concat(s, t1);
        assert((s + t).drop_last() =~= s + t1);
        lemma_helper_count_prefix(s + t, s + t1, (s + t1).len() as int);
        lemma_helper_count_prefix(t, t1, t1.len() as int);
    }
}

/// Newly added helpers are all helpers.
pub proof fn lemma_spawned_count(next: u32, n: nat)
    ensures
        helper_count(spawned(next, n)) == n,
    decreases n,
{
    if n > 0 {
        lemma_spawned_count(next, (n - 1) as nat);
        let s = spawned(next, n);
        let s1 = spawned(next, (n - 1) as nat);
        lemma_helper_count_prefix(s, s1, s1.len() as int);
    }
}

/// Removing a robot takes it out of the helper count exactly when it is
/// a helper.
pub proof fn lemma_helper_count_remove(s: Seq<RobotModel>, i: int)
    requires
        0 <= i < s.len(),
    ensures
        helper_count(s.remove(i)) + (if is_helper(s[i]) {
            1int
        } else {
            0int
        }) == helper_count(s),
    decreases s.len(),
{
    let last = s.len() - 1;
    if i == last {
        assert(s.remove(i) =~= s.drop_last());
        lemma_helper_count_prefix(s, s.drop_last(), last);
    } else {
        let init = s.drop_last();
        lemma_helper_count_remove(init, i);
        assert(s.remove(i) =~= init.remove(i).push(s[last]));
        lemma_helper_count_prefix(s.remove(i), init.remove(i), init.remove(i).len() as int);
        lemma_helper_count_prefix(s, init, last);
    }
}

/// The top helper is a helper, and there is one whenever some robot is a
/// helper.
pub proof fn lemma_top_helper(robots: Seq<RobotModel>, k: int)
    requires
        0 <= k <= robots.len(),
    ensures
        match top_helper_upto(robots, k) {
            Some(i) => 0 <= i < k && is_helper(robots[i]),
            None => helper_count_upto(robots, k) == 0,
        },
    decreases k,
{
    if k > 0 {
        lemma_top_helper(robots, k - 1);
    }
}

/// Removing the top helper `n` times, with at least `n` helpers, removes
/// exactly `n` helpers and nothing else.
pub proof fn lemma_shrink_count(robots: Seq<RobotModel>, n: nat)
    requires
        n <= helper_count(robots),
    ensures
        helper_count(shrink(robots, n)) == helper_count(robots) - n,
        shrink(robots, n).len() == robots.len() - n,
    decreases n,
{
    if n > 0 {
        lemma_shrink_count(robots, (n - 1) as nat);
        let r = shrink(robots, (n - 1) as nat);
        lemma_top_helper(r, r.len() as int);
        let k = top_helper_upto(r, r.len() as int)->0;
        lemma_helper_count_remove(r, k);
    }
}

/// Asking for `target` helpers leaves exactly `target` of them, kept
/// within 1 ..= `MAX_ROBOT_COUNT`, and every other robot (the assembly
/// robots) is kept.
pub proof fn lemma_set_count_result(g: GameModel, target: usize)
    ensures
        helper_count(set_count_spec(g, target).sim.robots) == clamp_count(target),
        set_count_spec(g, target).sim.robots.len() - helper_count(set_count_spec(g, target).sim.robots)
            == g.sim.robots.len() - helper_count(g.sim.robots),
{
    let t = clamp_count(target);
    let current = helper_count(g.sim.robots);
    if current < t {
        lemma_helper_count_concat(g.sim.robots, spawned(g.next_robot_id, (t - current) as nat));
        lemma_spawned_count(g.next_robot_id, (t - current) as nat);
    } else {
        lemma_shrink_count(g.sim.robots, (current - t) as nat);
    }
}

/// Robot ids are unique, and every one is below the id the next new robot
/// will get, so no id is ever handed out twice.
pub open spec fn ids_fresh(g: GameModel) -> bool {
    &&& distinct_ids(g.sim.robots)
    &&& forall|i: int| 0 <= i < g.sim.robots.len() ==> (#[trigger] g.sim.robots[i]).id < g.next_robot_id
}

/// The selected robot, if any, exists.
pub open spec fn selection_valid(g: GameModel) -> bool {
    match g.selected_robot {
        Some(s) => has_robot(g.sim.robots, s),
        None => true,
    }
}

/// A game that keeps its promises about ids and selection.
pub open spec fn game_ok(g: GameModel) -> bool {
    ids_fresh(g) && selection_valid(g)
}

/// Removing a robot keeps ids unique and below any bound they were below.
pub proof fn lemma_remove_keeps_ids(s: Seq<RobotModel>, k: int, bound: int)
    requires
        0 <= k < s.len(),
        distinct_ids(s),
        forall|i: int| 0 <= i < s.len() ==> (#[trigger] s[i]).id < bound,
    ensures
        distinct_ids(s.remove(k)),
        forall|i: int| 0 <= i < s.remove(k).len() ==> (#[trigger] s.remove(k)[i]).id < bound,
{
    let r = s.remove(k);
    assert forall|i: int, j: int| 0 <= i < j < r.len() implies (#[trigger] r[i]).id != (#[trigger] r[j]).id by {
        let si = if i < k { i } else { i + 1 };
        let sj = if j < k { j } else { j + 1 };
        assert(r[i] == s[si]);
        assert(r[j] == s[sj]);
    }
    assert forall|i: int| 0 <= i < r.len() implies (#[trigger] r[i]).id < bound by {
        let si = if i < k { i } else { i + 1 };
        assert(r[i] == s[si]);
    }
}

/// Removing top helpers keeps ids unique and below any bound.
pub proof fn lemma_shrink_keeps_ids(robots: Seq<RobotModel>, n: nat, bound: int)
    requires
        distinct_ids(robots),
        forall|i: int| 0 <= i < robots.len() ==> (#[trigger] robots[i]).id < bound,
    ensures
        distinct_ids(shrink(robots, n)),
        forall|i: int| 0 <= i < shrink(robots, n).len() ==> (#[trigger] shrink(robots, n)[i]).id < bound,
    decreases n,
{
    if n > 0 {
        lemma_shrink_keeps_ids(robots, (n - 1) as nat, bound);
        let r = shrink(robots, (n - 1) as nat);
        lemma_top_helper(r, r.len() as int);
        match top_helper_upto(r, r.len() as int) {
            Some(k) => lemma_remove_keeps_ids(r, k, bound),
            None => {},
        }
    }
}

/// Appending robots with consecutive ids from `next` keeps ids unique and
/// fresh.
pub proof fn lemma_append_fresh(robots: Seq<RobotModel>, added: Seq<RobotModel>, next: int)
    requires
        distinct_ids(robots),
        forall|i: int| 0 <= i < robots.len() ==> (#[trigger] robots[i]).id < next,
        forall|k: int| 0 <= k < added.len() ==> (#[trigger] added[k]).id == next + k,
    ensures
        distinct_ids(robots + added),
        forall|i: int| 0 <= i < (robots + added).len() ==> (#[trigger] (robots + added)[i]).id < next + added.len(),
{
    let all = robots + added;
    let n = robots.len();
    assert forall|i: int, j: int| 0 <= i < j < all.len() implies (#[trigger] all[i]).id != (#[trigger] all[j]).id by {
        if j >= n {
            assert(all[j] == added[j - n]);
            if i >= n {
                assert(all[i] == added[i - n]);
            } else {
                assert(all[i] == robots[i]);
            }
        } else {
            assert(all[i] == robots[i]);
            assert(all[j] == robots[j]);
        }
    }
    assert forall|i: int| 0 <= i < all.len() implies (#[trigger] all[i]).id < next + added.len() by {
        if i >= n {
            assert(all[i] == added[i - n]);
        } else {
            assert(all[i] == robots[i]);
        }
    }
}

/// A new game on robots with unique ids hands out only fresh ids and
/// selects nothing.
pub proof fn lemma_new_game_ok(sim: SimModel)
    requires
        distinct_ids(sim.robots),
        new_game_fits(sim),
    ensures
        game_ok(new_game_spec(sim)),
{
    let next = first_free_id(sim.robots);
    if sim.robots.len() > 0 {
        lemma_max_robot_id(sim.robots);
    }
    if !has_assembly(sim.robots) {
        let st = sim.stations;
        let added = Seq::new(st.len(), |k: int| assembly_robot((next + k) as u32, st[k]));
        lemma_append_fresh(sim.robots, added, next);
    }
}

/// Changing the helper count keeps ids unique and fresh and the selection
/// valid.
pub proof fn lemma_set_count_ok(g: GameModel, target: usize)
    requires
        game_ok(g),
        set_count_fits(g, target),
    ensures
        game_ok(set_count_spec(g, target)),
{
    let t = clamp_count(target);
    let current = helper_count(g.sim.robots);
    if current < t {
        let added = spawned(g.next_robot_id, (t - current) as nat);
        lemma_append_fresh(g.sim.robots, added, g.next_robot_id as int);
    } else {
        lemma_shrink_keeps_ids(g.sim.robots, (current - t) as nat, g.next_robot_id as int);
    }
}

/// Replacing a robot by one with the same id keeps the game's promises.
pub proof fn lemma_with_robot_ok(g: GameModel, i: int, r: RobotModel)
    requires
        game_ok(g),
        0 <= i < g.sim.robots.len(),
        r.id == g.sim.robots[i].id,
    ensures
        game_ok(with_robot(g, i, r)),
{
    let h = with_robot(g, i, r);
    assert forall|a: int, b: int| 0 <= a < b < h.sim.robots.len() implies (#[trigger] h.sim.robots[a]).id
        != (#[trigger] h.sim.robots[b]).id by {
        assert(h.sim.robots[a].id == g.sim.robots[a].id);
        assert(h.sim.robots[b].id == g.sim.robots[b].id);
    }
    assert forall|a: int| 0 <= a < h.sim.robots.len() implies (#[trigger] h.sim.robots[a]).id < h.next_robot_id by {
        assert(h.sim.robots[a].id == g.sim.robots[a].id);
    }
    match g.selected_robot {
        Some(sel) => {
            let w = choose|a: int| 0 <= a < g.sim.robots.len() && (#[trigger] g.sim.robots[a]).id == sel;
            assert(h.sim.robots[w].id == sel);
        },
        None => {},
    }
}

/// Arm actions and repairs keep the game's promises: they change a
/// robot's task or status, never its id.
pub proof fn lemma_commands_ok(g: GameModel, robot_id: u32, task: Task)
    requires
        game_ok(g),
    ensures
        game_ok(arm_action_spec(g, robot_id, task).0),
        game_ok(repair_spec(g, robot_id).0),
{
    lemma_robot_index_from(g.sim.robots, robot_id, 0);
    match robot_index(g.sim.robots, robot_id) {
        Some(i) => {
            lemma_with_robot_ok(g, i, RobotModel { task, ..g.sim.robots[i] });
            lemma_with_robot_ok(
                g,
                i,
                RobotModel { status: RobotStatus::Repairing { remaining_ticks: REPAIR_TICKS }, ..g.sim.robots[i] },
            );
        },
        None => {},
    }
}

/// A new game on a simulation with no assembly robot has exactly one
/// assembly robot per station, and keeps the robots it was given.
pub proof fn lemma_new_game_assembly_robots(sim: SimModel)
    requires
        !has_assembly(sim.robots),
    ensures
        new_game_spec(sim).sim.robots.len() - helper_count(new_game_spec(sim).sim.robots) == sim.stations.len(),
        new_game_spec(sim).sim.robots.subrange(0, sim.robots.len() as int) == sim.robots,
{
    let next = first_free_id(sim.robots) as u32;
    let st = sim.stations;
    let added = Seq::new(st.len(), |k: int| assembly_robot((next + k) as u32, st[k]));
    assert(new_game_spec(sim).sim.robots == sim.robots + added);
    assert forall|i: int| 0 <= i < added.len() implies (#[trigger] added[i]).role is Assembly by {}
    lemma_helper_count_concat(sim.robots, added);
    lemma_no_helpers(added, added.len() as int);
    lemma_all_helpers(sim.robots, sim.robots.len() as int);
    assert((sim.robots + added).subrange(0, sim.robots.len() as int) =~= sim.robots);
}

/// With no assembly robot, every robot is a helper.
pub proof fn lemma_all_helpers(robots: Seq<RobotModel>, k: int)
    requires
        0 <= k <= robots.len(),
        !has_assembly(robots),
    ensures
        helper_count_upto(robots, k) == k,
    decreases k,
{
    if k > 0 {
        lemma_all_helpers(robots, k - 1);
        assert(!(robots[k - 1].role is Assembly));
    }
}

/// Robots that are all assembly robots count no helper.
pub proof fn lemma_no_helpers(robots: Seq<RobotModel>, k: int)
    requires
        0 <= k <= robots.len(),
        forall|i: int| 0 <= i < robots.len() ==> (#[trigger] robots[i]).role is Assembly,
    ensures
        helper_count_upto(robots, k) == 0,
    decreases k,
{
    if k > 0 {
        lemma_no_helpers(robots, k - 1);
        assert(robots[k - 1].role is Assembly);
    }
}

/// A command applied to the game, with the refusal it may meet; see the
/// functions each command calls.
pub open spec fn apply_spec(g: GameModel, command: ClientCommand) -> (GameModel, Result<(), CommandError>) {
    match command {
        ClientCommand::SelectRobot { robot_id } => if has_robot(g.sim.robots, robot_id) {
            (GameModel { selected_robot: Some(robot_id), ..g }, Ok(()))
        } else {
            (g, Err(CommandError::RobotNotFound(robot_id)))
        },
        ClientCommand::ReleaseRobot => (GameModel { selected_robot: None, ..g }, Ok(())),
        ClientCommand::ToggleConveyor => (
            GameModel { conveyor: Conveyor { running: !g.conveyor.running }, ..g },
            Ok(()),
        ),
        ClientCommand::SetRobotCount { count } => (set_count_spec(g, count), Ok(())),
        ClientCommand::TriggerArmAction { robot_id, task } => arm_action_spec(g, robot_id, task_from_wire(task)),
        ClientCommand::RepairRobot { robot_id } => repair_spec(g, robot_id),
        ClientCommand::Resume { .. } => (g, Ok(())),
    }
}

/// The command can be applied: it is not a `Resume` (which the session
/// registry answers), and the ids it may hand out fit in a `u32`.
pub open spec fn command_fits(g: GameModel, command: ClientCommand) -> bool {
    match command {
        ClientCommand::Resume { .. } => false,
        ClientCommand::SetRobotCount { count } => set_count_fits(g, count),
        _ => true,
    }
}

impl GameState {
    /// Whether `apply_command` can take this command; see `command_fits`.
    pub fn accepts(&self, command: ClientCommand) -> (b: bool)
        ensures
            b == command_fits(self@, command),
    {
        match command {
            ClientCommand::Resume { .. } => false,
            ClientCommand::SetRobotCount { count } => {
                let t: usize = if count < 1 {
                    1
                } else if count > MAX_ROBOT_COUNT {
                    MAX_ROBOT_COUNT
                } else {
                    count
                };
                let current = count_helpers(&self.sim.robots);
                if current < t {
                    (self.next_robot_id as u64) + ((t - current) as u64) <= (u32::MAX as u64)
                } else {
                    true
                }
            },
            _ => true,
        }
    }
}

/// Applies a client command to the game; see `apply_spec`.
pub fn apply_command(state: &mut GameState, command: ClientCommand) -> (r: Result<(), CommandError>)
    requires
        command_fits(old(state)@, command),
    ensures
        (final(state)@, r) == apply_spec(old(state)@, command),
{
    match command {
        ClientCommand::SelectRobot { robot_id } => state.select_robot(robot_id),
        ClientCommand::ReleaseRobot => {
            state.release_robot();
            Ok(())
        },
        ClientCommand::ToggleConveyor => {
            state.toggle_conveyor();
            Ok(())
        },
        ClientCommand::SetRobotCount { count } => {
            state.set_robot_count(count);
            Ok(())
        },
        ClientCommand::TriggerArmAction { robot_id, task } => state.trigger_arm_action(robot_id, Task::from(task)),
        ClientCommand::RepairRobot { robot_id } => state.repair_robot(robot_id),
        ClientCommand::Resume { .. } => Ok(()),
    }
}

/// What a client is shown of the game.
pub open spec fn snapshot_spec(g: GameModel) -> SnapshotModel {
    SnapshotModel {
        v: PROTOCOL_VERSION,
        tick: g.sim.tick_count,
        conveyor: ConveyorView { running: g.conveyor.running },
        robots: robot_views_spec(g.sim.robots),
        stations: station_views_spec(g.sim.stations),
        products: product_views_spec(g.sim.products),
    }
}

/// The full visible state of the game; see `snapshot_spec`.
pub fn to_snapshot(state: &GameState) -> (s: Snapshot)
    ensures
        s@ == snapshot_spec(state@),
{
    Snapshot {
        v: PROTOCOL_VERSION,
        tick: state.sim.tick_count,
        conveyor: ConveyorView::from(state.conveyor),
        robots: robot_views(&state.sim.robots),
        stations: station_views(&state.sim.stations),
        products: product_views(&state.sim.products),
    }
}

/// Every command keeps robot ids unique and fresh and the selection valid.
pub proof fn lemma_apply_keeps_ok(g: GameModel, command: ClientCommand)
    requires
        game_ok(g),
        command_fits(g, command),
    ensures
        game_ok(apply_spec(g, command).0),
{
    match command {
        ClientCommand::SetRobotCount { count } => lemma_set_count_ok(g, count),
        ClientCommand::TriggerArmAction { robot_id, task } => lemma_commands_ok(g, robot_id, task_from_wire(task)),
        ClientCommand::RepairRobot { robot_id } => lemma_commands_ok(g, robot_id, Task::Idle),
        _ => {},
    }
}

/// Ticking the simulation keeps robot ids unique and fresh and the
/// selection valid: a tick never adds, removes or renames a robot.
pub proof fn lemma_tick_keeps_ok(g: GameModel)
    requires
        game_ok(g),
    ensures
        game_ok(GameModel { sim: tick_spec(g.sim, g.conveyor.running), ..g }),
{
    let h = GameModel { sim: tick_spec(g.sim, g.conveyor.running), ..g };
    lemma_tick_positions(g.sim, g.conveyor.running);
    assert forall|a: int, b: int| 0 <= a < b < h.sim.robots.len() implies (#[trigger] h.sim.robots[a]).id
        != (#[trigger] h.sim.robots[b]).id by {
        assert(h.sim.robots[a].id == g.sim.robots[a].id);
        assert(h.sim.robots[b].id == g.sim.robots[b].id);
    }
    assert forall|a: int| 0 <= a < h.sim.robots.len() implies (#[trigger] h.sim.robots[a]).id < h.next_robot_id by {
        assert(h.sim.robots[a].id == g.sim.robots[a].id);
    }
    match g.selected_robot {
        Some(sel) => {
            let w = choose|a: int| 0 <= a < g.sim.robots.len() && (#[trigger] g.sim.robots[a]).id == sel;
            assert(h.sim.robots[w].id == sel);
        },
        None => {},
    }
}

/// A refused command leaves the game as it was.
pub proof fn lemma_refused_command_changes_nothing(g: GameModel, command: ClientCommand)
    ensures
        apply_spec(g, command).1 is Err ==> apply_spec(g, command).0 == g,
{
}

/// An arm action only ever changes an operational robot: with ids unique,
/// for the robot `i` with the given id, a robot that is failed or being
/// repaired is refused with `RobotNotOperational` and the game is left as it
/// was; an operational robot takes the task, succeeds, and nothing else in
/// the game changes.
pub proof fn lemma_arm_action_needs_operational(g: GameModel, robot_id: u32, task: Task, i: int)
    requires
        distinct_ids(g.sim.robots),
        0 <= i < g.sim.robots.len(),
        g.sim.robots[i].id == robot_id,
    ensures
        ({
            let (h, r) = arm_action_spec(g, robot_id, task);
            &&& g.sim.robots[i].status != RobotStatus::Operational ==> r == Err::<(), CommandError>(
                CommandError::RobotNotOperational(robot_id),
            ) && h == g
            &&& g.sim.robots[i].status == RobotStatus::Operational ==> {
                &&& r == Ok::<(), CommandError>(())
                &&& h.sim.robots.len() == g.sim.robots.len()
                &&& h.sim.robots[i].task == task
                &&& h.sim.robots[i] == RobotModel { task: h.sim.robots[i].task, ..g.sim.robots[i] }
                &&& forall|j: int| 0 <= j < g.sim.robots.len() && j != i ==> h.sim.robots[j] == g.sim.robots[j]
                &&& h.sim.products == g.sim.products && h.sim.stations == g.sim.stations
                &&& h.conveyor == g.conveyor && h.selected_robot == g.selected_robot
                &&& h.next_robot_id == g.next_robot_id
            }
            &&& r is Ok ==> g.sim.robots[i].status == RobotStatus::Operational
        }),
{
    lemma_robot_index_from(g.sim.robots, robot_id, 0);
    let k = robot_index(g.sim.robots, robot_id)->0;
    if k != i {
        if k < i {
            assert(g.sim.robots[k].id != g.sim.robots[i].id);
        } else {
            assert(g.sim.robots[i].id != g.sim.robots[k].id);
        }
    }
}

/// An arm action or a repair naming no robot is refused with
/// `RobotNotFound` and leaves the game as it was.
pub proof fn lemma_unknown_robot_is_refused(g: GameModel, robot_id: u32, task: Task)
    requires
        forall|i: int| 0 <= i < g.sim.robots.len() ==> (#[trigger] g.sim.robots[i]).id != robot_id,
    ensures
        arm_action_spec(g, robot_id, task) == (g, Err::<(), CommandError>(CommandError::RobotNotFound(robot_id))),
        repair_spec(g, robot_id) == (g, Err::<(), CommandError>(CommandError::RobotNotFound(robot_id))),
{
    lemma_robot_index_from(g.sim.robots, robot_id, 0);
}

/// A repair only ever starts on a failed robot: with ids unique, for the
/// robot `i` with the given id, an operational robot or one already being
/// repaired is refused with `RobotNotFailed` and the game is left as it was
/// (a running repair keeps its remaining ticks); a failed robot starts
/// `REPAIR_TICKS` of repair, succeeds, and nothing else in the game changes.
pub proof fn lemma_repair_needs_failed(g: GameModel, robot_id: u32, i: int)
    requires
        distinct_ids(g.sim.robots),
        0 <= i < g.sim.robots.len(),
        g.sim.robots[i].id == robot_id,
    ensures
        ({
            let (h, r) = repair_spec(g, robot_id);
            &&& g.sim.robots[i].status != RobotStatus::Failed ==> r == Err::<(), CommandError>(
                CommandError::RobotNotFailed(robot_id),
            ) && h == g
            &&& g.sim.robots[i].status == RobotStatus::Failed ==> {
                &&& r == Ok::<(), CommandError>(())
                &&& h.sim.robots.len() == g.sim.robots.len()
                &&& h.sim.robots[i].status == RobotStatus::Repairing { remaining_ticks: REPAIR_TICKS }
                &&& h.sim.robots[i] == RobotModel { status: h.sim.robots[i].status, ..g.sim.robots[i] }
                &&& forall|j: int| 0 <= j < g.sim.robots.len() && j != i ==> h.sim.robots[j] == g.sim.robots[j]
                &&& h.sim.products == g.sim.products && h.sim.stations == g.sim.stations
                &&& h.conveyor == g.conveyor && h.selected_robot == g.selected_robot
                &&& h.next_robot_id == g.next_robot_id
            }
            &&& r is Ok ==> g.sim.robots[i].status == RobotStatus::Failed
        }),
{
    lemma_robot_index_from(g.sim.robots, robot_id, 0);
    let k = robot_index(g.sim.robots, robot_id)->0;
    if k != i {
        if k < i {
            assert(g.sim.robots[k].id != g.sim.robots[i].id);
        } else {
            assert(g.sim.robots[i].id != g.sim.robots[k].id);
        }
    }
}

/// A snapshot reports each robot's status as it is: failed as failed,
/// operational as operational, and a repair with its remaining ticks.
pub proof fn lemma_snapshot_reports_status(g: GameModel, i: int)
    requires
        0 <= i < g.sim.robots.len(),
    ensures
        snapshot_spec(g).robots.len() == g.sim.robots.len(),
        snapshot_spec(g).robots[i].id == g.sim.robots[i].id,
        g.sim.robots[i].status == RobotStatus::Failed <==> snapshot_spec(g).robots[i].status
            == crate::protocol::WireStatus::Failed,
        g.sim.robots[i].status == RobotStatus::Operational <==> snapshot_spec(g).robots[i].status
            == crate::protocol::WireStatus::Operational,
        forall|n: u32|
            g.sim.robots[i].status == (RobotStatus::Repairing { remaining_ticks: n }) <==> snapshot_spec(g).robots[i].status
                == (crate::protocol::WireStatus::Repairing { remaining_ticks: n }),
{
    crate::protocol::lemma_view_reports_status(g.sim.robots[i]);
}

/// Selecting succeeds exactly for a robot that exists, and then only the
/// selection changes, to that robot; otherwise it is refused with
/// `RobotNotFound` and nothing changes. Releasing clears the selection and
/// toggling flips the conveyor, each changing nothing else and never
/// failing.
pub proof fn lemma_simple_commands(g: GameModel, robot_id: u32)
    ensures
        ({
            let (h, r) = apply_spec(g, ClientCommand::SelectRobot { robot_id });
            &&& (r is Ok <==> exists|i: int| 0 <= i < g.sim.robots.len() && (#[trigger] g.sim.robots[i]).id == robot_id)
            &&& r is Ok ==> h == GameModel { selected_robot: Some(robot_id), ..g }
            &&& r is Err ==> h == g && r == Err::<(), CommandError>(CommandError::RobotNotFound(robot_id))
        }),
        apply_spec(g, ClientCommand::ReleaseRobot) == (GameModel { selected_robot: None, ..g }, Ok::<(), CommandError>(())),
        ({
            let (h, r) = apply_spec(g, ClientCommand::ToggleConveyor);
            &&& r is Ok
            &&& h.conveyor.running == !g.conveyor.running
            &&& h == GameModel { conveyor: h.conveyor, ..g }
        }),
{
}

} // verus!
