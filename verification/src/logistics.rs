//! The helpers' job queue, one tick at a time: depleted stations and an
//! empty line start raise jobs (never twice), idle helpers take the oldest
//! jobs in order of robot id, and a helper that has finished its drop-off
//! restocks its station or puts a fresh frame on the line.
use vstd::prelude::*;
use crate::cells::{CellId, same_cell};
use crate::belt::{distinct_cells, distinct_product_ids};
use crate::sim::{
    assignment_valid, destination, destination_spec, models, HelperTask, Product, Robot, RobotModel, RobotRole,
    Station, task_valid,
    BELT_ROW, BELT_START_X, STATION_COUNT, STATION_MAX_INVENTORY,
};

verus! {

/// The first cell of the belt, where fresh frames are delivered.
pub open spec fn line_start() -> CellId {
    (BELT_START_X, BELT_ROW)
}

/// The job is already queued or already assigned to some robot.
pub open spec fn wanted(t: HelperTask, pending: Seq<HelperTask>, robots: Seq<RobotModel>) -> bool {
    pending.contains(t) || exists|i: int| 0 <= i < robots.len() && #[trigger] robots[i].helper_assignment == Some(t)
}

/// A restock job for each depleted station, in station order, unless it
/// is already wanted.
pub open spec fn enqueue_restocks(st: Seq<Station>, pending: Seq<HelperTask>, robots: Seq<RobotModel>) -> Seq<HelperTask>
    decreases st.len(),
{
    if st.len() == 0 {
        pending
    } else {
        let q = enqueue_restocks(st.drop_last(), pending, robots);
        let t = HelperTask::RestockStation { station_index: st.last().index };
        if st.last().part_inventory == 0 && !wanted(t, q, robots) {
            q.push(t)
        } else {
            q
        }
    }
}

/// No product stands on the line start.
pub open spec fn line_start_empty(ps: Seq<Product>) -> bool {
    !exists|i: int| 0 <= i < ps.len() && #[trigger] ps[i].pos == line_start()
}

/// The queue after this tick's new jobs: restocks, then a frame delivery
/// when the line start is empty.
pub open spec fn enqueue_requests(
    st: Seq<Station>,
    ps: Seq<Product>,
    pending: Seq<HelperTask>,
    robots: Seq<RobotModel>,
) -> Seq<HelperTask> {
    let q = enqueue_restocks(st, pending, robots);
    if line_start_empty(ps) && !wanted(HelperTask::DeliverFrame, q, robots) {
        q.push(HelperTask::DeliverFrame)
    } else {
        q
    }
}

/// A helper with no job.
pub open spec fn is_idle_helper(r: RobotModel) -> bool {
    r.role == RobotRole::Helper && r.helper_assignment is None
}

/// Robot `j` is served before robot `i`: by id, and by position among
/// equal ids.
pub open spec fn served_before(robots: Seq<RobotModel>, j: int, i: int) -> bool {
    robots[j].id < robots[i].id || (robots[j].id == robots[i].id && j < i)
}

/// How many idle helpers among the first `k` robots are served before `i`.
pub open spec fn idle_rank_upto(robots: Seq<RobotModel>, i: int, k: int) -> nat
    decreases k,
{
    if k <= 0 {
        0
    } else {
        idle_rank_upto(robots, i, k - 1) + if is_idle_helper(robots[k - 1]) && served_before(robots, k - 1, i) {
            1nat
        } else {
            0nat
        }
    }
}

/// The place of robot `i` in the order in which idle helpers are served.
pub open spec fn idle_rank(robots: Seq<RobotModel>, i: int) -> nat {
    idle_rank_upto(robots, i, robots.len() as int)
}

/// How many of the first `k` robots are idle helpers.
pub open spec fn idle_count_upto(robots: Seq<RobotModel>, k: int) -> nat
    decreases k,
{
    if k <= 0 {
        0
    } else {
        idle_count_upto(robots, k - 1) + if is_idle_helper(robots[k - 1]) {
            1nat
        } else {
            0nat
        }
    }
}

/// The number of idle helpers.
pub open spec fn idle_count(robots: Seq<RobotModel>) -> nat {
    idle_count_upto(robots, robots.len() as int)
}

/// Idle helpers, served by id, take the oldest jobs, one each; the jobs
/// taken leave the front of the queue.
pub open spec fn assign_spec(robots: Seq<RobotModel>, pending: Seq<HelperTask>) -> (Seq<RobotModel>, Seq<HelperTask>) {
    let taken = if idle_count(robots) < pending.len() { idle_count(robots) as int } else { pending.len() as int };
    (
        Seq::new(
            robots.len(),
            |i: int|
                if is_idle_helper(robots[i]) && idle_rank(robots, i) < pending.len() {
                    RobotModel { helper_assignment: Some(pending[idle_rank(robots, i) as int]), ..robots[i] }
                } else {
                    robots[i]
                },
        ),
        pending.skip(taken),
    )
}

/// A helper has just finished dropping off its load at the destination
/// of its job.
pub open spec fn completes(r: RobotModel) -> bool {
    &&& r.role == RobotRole::Helper
    &&& r.carrying
    &&& r.work_ticks_remaining == 0
    &&& match r.helper_assignment {
        Some(t) => r.pos == destination_spec(t),
        None => false,
    }
}

/// The largest product id, if there is a product.
pub open spec fn max_product_id(ps: Seq<Product>) -> Option<u32>
    decreases ps.len(),
{
    if ps.len() == 0 {
        None
    } else {
        match max_product_id(ps.drop_last()) {
            Some(m) => Some(if ps.last().id > m { ps.last().id } else { m }),
            None => Some(ps.last().id),
        }
    }
}

/// The id of the next fresh frame: one past the largest id, or 0.
pub open spec fn next_product_id(ps: Seq<Product>) -> u32 {
    match max_product_id(ps) {
        Some(m) => (m + 1) as u32,
        None => 0,
    }
}

/// The first station at or after `k` with the given index.
pub open spec fn station_with_index_from(st: Seq<Station>, index: u8, k: int) -> Option<int>
    decreases st.len() - k,
{
    if k < 0 || k >= st.len() {
        None
    } else if st[k].index == index {
        Some(k)
    } else {
        station_with_index_from(st, index, k + 1)
    }
}

/// The effect of a finished drop-off: the station is restocked in full,
/// or a fresh frame appears on the line start; the helper is free again.
pub open spec fn complete_one(r: RobotModel, st: Seq<Station>, ps: Seq<Product>) -> (RobotModel, Seq<Station>, Seq<Product>) {
    if completes(r) {
        let freed = RobotModel { carrying: false, helper_assignment: None, ..r };
        match r.helper_assignment {
            Some(HelperTask::RestockStation { station_index }) => {
                match station_with_index_from(st, station_index, 0) {
                    Some(k) => (freed, st.update(k, Station { part_inventory: STATION_MAX_INVENTORY, ..st[k] }), ps),
                    None => (freed, st, ps),
                }
            },
            _ => (
                freed,
                st,
                ps.push(Product { id: next_product_id(ps), stage: 0, pos: line_start(), work_ticks_remaining: 0 }),
            ),
        }
    } else {
        (r, st, ps)
    }
}

/// Finished drop-offs applied robot by robot.
pub open spec fn complete_all(robots: Seq<RobotModel>, st: Seq<Station>, ps: Seq<Product>) -> (
    Seq<RobotModel>,
    Seq<Station>,
    Seq<Product>,
)
    decreases robots.len(),
{
    if robots.len() == 0 {
        (Seq::empty(), st, ps)
    } else {
        let prev = complete_all(robots.drop_last(), st, ps);
        let step = complete_one(robots.last(), prev.1, prev.2);
        (prev.0.push(step.0), step.1, step.2)
    }
}

/// One tick of helper logistics while the conveyor runs: new jobs, then
/// assignment, then finished drop-offs. With the conveyor stopped nothing
/// changes.
pub open spec fn logistics_spec(
    robots: Seq<RobotModel>,
    st: Seq<Station>,
    ps: Seq<Product>,
    pending: Seq<HelperTask>,
    conveyor_running: bool,
) -> (Seq<RobotModel>, Seq<Station>, Seq<Product>, Seq<HelperTask>) {
    if !conveyor_running {
        (robots, st, ps, pending)
    } else {
        let queued = enqueue_requests(st, ps, pending, robots);
        let assigned = assign_spec(robots, queued);
        let done = complete_all(assigned.0, st, ps);
        (done.0, done.1, done.2, assigned.1)
    }
}

/// Logistics can run: jobs and stations name standard stations, and a
/// fresh frame id fits.
pub open spec fn logistics_ready(
    robots: Seq<RobotModel>,
    st: Seq<Station>,
    ps: Seq<Product>,
    pending: Seq<HelperTask>,
) -> bool {
    &&& forall|i: int| 0 <= i < robots.len() ==> match (#[trigger] robots[i]).helper_assignment {
        Some(t) => task_valid(t),
        None => true,
    }
    &&& forall|s: int| 0 <= s < st.len() ==> ((#[trigger] st[s]).index as usize) < STATION_COUNT
    &&& forall|k: int| 0 <= k < pending.len() ==> task_valid(#[trigger] pending[k])
    &&& robots.len() < u32::MAX
    &&& forall|p: int| 0 <= p < ps.len() ==> (#[trigger] ps[p]).id + robots.len() < u32::MAX
}

fn has_assignment(r: &Robot, t: HelperTask) -> (b: bool)
    ensures
        b == (r@.helper_assignment == Some(t)),
{
    match r.helper_assignment {
        Some(u) => u == t,
        None => false,
    }
}

fn is_wanted(t: HelperTask, pending: &Vec<HelperTask>, robots: &Vec<Robot>) -> (b: bool)
    ensures
        b == wanted(t, pending@, models(robots@)),
{
    let ghost rv = models(robots@);
    let mut k: usize = 0;
    while k < pending.len()
        invariant
            0 <= k <= pending@.len(),
            forall|j: int| 0 <= j < k ==> pending@[j] != t,
        decreases pending@.len() - k,
    {
        if pending[k] == t {
            assert(pending@[k as int] == t);
            return true;
        }
        k += 1;
    }
    assert(!pending@.contains(t));
    let mut i: usize = 0;
    while i < robots.len()
        invariant
            0 <= i <= robots@.len(),
            rv == models(robots@),
            forall|j: int| 0 <= j < i ==> rv[j].helper_assignment != Some(t),
        decreases robots@.len() - i,
    {
        if has_assignment(&robots[i], t) {
            assert(rv[i as int].helper_assignment == Some(t));
            return true;
        }
        i += 1;
    }
    false
}

fn line_start_is_empty(products: &Vec<Product>) -> (b: bool)
    ensures
        b == line_start_empty(products@),
{
    let mut i: usize = 0;
    while i < products.len()
        invariant
            0 <= i <= products@.len(),
            forall|j: int| 0 <= j < i ==> products@[j].pos != line_start(),
        decreases products@.len() - i,
    {
        if same_cell(products[i].pos, (BELT_START_X, BELT_ROW)) {
            assert(products@[i as int].pos == line_start());
            return false;
        }
        i += 1;
    }
    true
}

/// Queues this tick's new jobs; see `enqueue_requests`.
fn enqueue(stations: &Vec<Station>, products: &Vec<Product>, pending: Vec<HelperTask>, robots: &Vec<Robot>) -> (q: Vec<
    HelperTask,
>)
    ensures
        q@ == enqueue_requests(stations@, products@, pending@, models(robots@)),
{
    let ghost p0 = pending@;
    let ghost rv = models(robots@);
    let mut q = pending;
    let mut i: usize = 0;
    while i < stations.len()
        invariant
            0 <= i <= stations@.len(),
            rv == models(robots@),
            q@ == enqueue_restocks(stations@.take(i as int), p0, rv),
        decreases stations@.len() - i,
    {
        let t = HelperTask::RestockStation { station_index: stations[i].index };
        if stations[i].part_inventory == 0 && !is_wanted(t, &q, robots) {
            q.push(t);
        }
        proof {
            assert(stations@.take(i + 1).drop_last() =~= stations@.take(i as int));
        }
        i += 1;
    }
    assert(stations@.take(stations@.len() as int) =~= stations@);
    if line_start_is_empty(products) && !is_wanted(HelperTask::DeliverFrame, &q, robots) {
        q.push(HelperTask::DeliverFrame);
    }
    q
}

fn is_idle(r: &Robot) -> (b: bool)
    ensures
        b == is_idle_helper(r@),
{
    match r.role {
        RobotRole::Helper => r.helper_assignment.is_none(),
        RobotRole::Assembly { .. } => false,
    }
}

fn rank_of(robots: &Vec<Robot>, i: usize) -> (n: usize)
    requires
        i < robots@.len(),
    ensures
        n == idle_rank(models(robots@), i as int),
{
    let ghost rv = models(robots@);
    let mut n: usize = 0;
    let mut j: usize = 0;
    while j < robots.len()
        invariant
            0 <= j <= robots@.len(),
            i < robots@.len(),
            rv == models(robots@),
            n == idle_rank_upto(rv, i as int, j as int),
            n <= j,
        decreases robots@.len() - j,
    {
        if is_idle(&robots[j]) && (robots[j].id < robots[i].id || (robots[j].id == robots[i].id && j < i)) {
            n += 1;
        }
        j += 1;
    }
    n
}

/// Gives idle helpers the oldest jobs; see `assign_spec`.
fn assign(robots: &Vec<Robot>, pending: &Vec<HelperTask>) -> (r: (Vec<Robot>, Vec<HelperTask>))
    ensures
        (models(r.0@), r.1@) == assign_spec(models(robots@), pending@),
        r.0@.len() == robots@.len(),
{
    let ghost rv = models(robots@);
    let ghost spec = assign_spec(rv, pending@);
    let mut out: Vec<Robot> = Vec::new();
    let mut idle: usize = 0;
    let mut i: usize = 0;
    while i < robots.len()
        invariant
            0 <= i <= robots@.len(),
            rv == models(robots@),
            spec == assign_spec(rv, pending@),
            out@.len() == i,
            forall|j: int| 0 <= j < i ==> (#[trigger] out@[j])@ == spec.0[j],
            idle == idle_count_upto(rv, i as int),
            idle <= i,
        decreases robots@.len() - i,
    {
        let mut r = robots[i].copy();
        if is_idle(&robots[i]) {
            idle += 1;
            let rank = rank_of(robots, i);
            if rank < pending.len() {
                r.helper_assignment = Some(pending[rank]);
            }
        }
        out.push(r);
        i += 1;
    }
    assert(models(out@) =~= spec.0);
    let taken = if idle < pending.len() { idle } else { pending.len() };
    let mut rest: Vec<HelperTask> = Vec::new();
    let mut k: usize = taken;
    while k < pending.len()
        invariant
            taken <= k <= pending@.len(),
            rest@ == pending@.subrange(taken as int, k as int),
        decreases pending@.len() - k,
    {
        rest.push(pending[k]);
        assert(rest@ =~= pending@.subrange(taken as int, k + 1));
        k += 1;
    }
    assert(rest@ =~= spec.1);
    (out, rest)
}

fn next_id(products: &Vec<Product>) -> (id: u32)
    requires
        forall|p: int| 0 <= p < products@.len() ==> (#[trigger] products@[p]).id < u32::MAX,
    ensures
        id == next_product_id(products@),
{
    let mut best: Option<u32> = None;
    let mut i: usize = 0;
    while i < products.len()
        invariant
            0 <= i <= products@.len(),
            best == max_product_id(products@.take(i as int)),
            forall|p: int| 0 <= p < products@.len() ==> (#[trigger] products@[p]).id < u32::MAX,
            match best {
                Some(m) => m < u32::MAX,
                None => true,
            },
        decreases products@.len() - i,
    {
        let id = products[i].id;
        proof {
            assert(products@.take(i + 1).drop_last() =~= products@.take(i as int));
        }
        best = match best {
            Some(m) => Some(if id > m { id } else { m }),
            None => Some(id),
        };
        i += 1;
    }
    assert(products@.take(products@.len() as int) =~= products@);
    match best {
        Some(m) => m + 1,
        None => 0,
    }
}

fn find_station_index(stations: &Vec<Station>, index: u8) -> (r: Option<usize>)
    ensures
        match r {
            Some(k) => station_with_index_from(stations@, index, 0) == Some(k as int) && k < stations@.len(),
            None => station_with_index_from(stations@, index, 0) is None,
        },
{
    let mut k: usize = 0;
    while k < stations.len()
        invariant
            0 <= k <= stations@.len(),
            station_with_index_from(stations@, index, 0) == station_with_index_from(stations@, index, k as int),
        decreases stations@.len() - k,
    {
        if stations[k].index == index {
            return Some(k);
        }
        k += 1;
    }
    None
}

/// Applies one robot's finished drop-off, if it has one; see `complete_one`.
fn complete(robot: &Robot, stations: &mut Vec<Station>, products: &mut Vec<Product>, budget: Ghost<int>) -> (r: Robot)
    requires
        match robot@.helper_assignment {
            Some(t) => task_valid(t),
            None => true,
        },
        1 <= budget@ <= u32::MAX,
        forall|p: int| 0 <= p < old(products)@.len() ==> (#[trigger] old(products)@[p]).id + budget@ < u32::MAX,
    ensures
        (r@, final(stations)@, final(products)@) == complete_one(robot@, old(stations)@, old(products)@),
        forall|p: int| 0 <= p < final(products)@.len() ==> (#[trigger] final(products)@[p]).id + budget@ - 1 < u32::MAX,
{
    let mut r = robot.copy();
    let task = match robot.helper_assignment {
        Some(t) => t,
        None => {
            return r;
        },
    };
    let done = match robot.role {
        RobotRole::Helper => robot.carrying && robot.work_ticks_remaining == 0 && same_cell(robot.pos, destination(task)),
        RobotRole::Assembly { .. } => false,
    };
    if !done {
        return r;
    }
    match task {
        HelperTask::RestockStation { station_index } => {
            match find_station_index(stations, station_index) {
                Some(k) => {
                    let mut s = stations[k];
                    s.part_inventory = STATION_MAX_INVENTORY;
                    stations.set(k, s);
                },
                None => {},
            }
        },
        HelperTask::DeliverFrame => {
            let ghost before = products@;
            let id = next_id(products);
            proof {
                if before.len() > 0 {
                    lemma_max_product_id(before);
                    let w = choose|i: int| 0 <= i < before.len() && before[i].id == max_product_id(before)->0;
                    assert(before[w].id + budget@ < u32::MAX);
                }
                assert(id + budget@ - 1 < u32::MAX);
            }
            products.push(Product::new(id, (BELT_START_X, BELT_ROW)));
            assert(products@.last().id == id);
        },
    }
    r.carrying = false;
    r.helper_assignment = None;
    r
}

/// The largest id is one of the ids, and no id is larger.
pub proof fn lemma_max_product_id(ps: Seq<Product>)
    requires
        ps.len() > 0,
    ensures
        max_product_id(ps) is Some,
        exists|i: int| 0 <= i < ps.len() && ps[i].id == max_product_id(ps)->0,
        forall|i: int| 0 <= i < ps.len() ==> (#[trigger] ps[i]).id <= max_product_id(ps)->0,
    decreases ps.len(),
{
    if ps.len() > 1 {
        lemma_max_product_id(ps.drop_last());
        let m = max_product_id(ps.drop_last())->0;
        let w = choose|i: int| 0 <= i < ps.drop_last().len() && ps.drop_last()[i].id == m;
        if ps.last().id > m {
            assert(ps[ps.len() - 1].id == max_product_id(ps)->0);
        } else {
            assert(ps[w].id == max_product_id(ps)->0);
        }
        assert forall|i: int| 0 <= i < ps.len() implies (#[trigger] ps[i]).id <= max_product_id(ps)->0 by {
            if i < ps.len() - 1 {
                assert(ps.drop_last()[i].id <= m);
            }
        }
    } else {
        assert(ps[0].id == max_product_id(ps)->0);
    }
}

/// Every job queued for a standard station names a standard station.
pub proof fn lemma_restocks_valid(st: Seq<Station>, pending: Seq<HelperTask>, robots: Seq<RobotModel>)
    requires
        forall|s: int| 0 <= s < st.len() ==> ((#[trigger] st[s]).index as usize) < STATION_COUNT,
        forall|k: int| 0 <= k < pending.len() ==> task_valid(#[trigger] pending[k]),
    ensures
        forall|k: int|
            0 <= k < enqueue_restocks(st, pending, robots).len() ==> task_valid(
                #[trigger] enqueue_restocks(st, pending, robots)[k],
            ),
    decreases st.len(),
{
    if st.len() > 0 {
        lemma_restocks_valid(st.drop_last(), pending, robots);
        let q = enqueue_restocks(st.drop_last(), pending, robots);
        let e = enqueue_restocks(st, pending, robots);
        assert(((st[st.len() - 1]).index as usize) < STATION_COUNT);
        assert forall|k: int| 0 <= k < e.len() implies task_valid(#[trigger] e[k]) by {
            if k < q.len() {
                assert(task_valid(q[k]));
            }
        }
    }
}

/// The helper logistics of one tick; see `logistics_spec`.
pub fn run_helper_logistics(
    robots: Vec<Robot>,
    stations: Vec<Station>,
    products: Vec<Product>,
    pending: Vec<HelperTask>,
    conveyor_running: bool,
) -> (r: (Vec<Robot>, Vec<Station>, Vec<Product>, Vec<HelperTask>))
    requires
        logistics_ready(models(robots@), stations@, products@, pending@),
    ensures
        (models(r.0@), r.1@, r.2@, r.3@) == logistics_spec(
            models(robots@),
            stations@,
            products@,
            pending@,
            conveyor_running,
        ),
{
    if !conveyor_running {
        return (robots, stations, products, pending);
    }
    let ghost rv = models(robots@);
    let ghost st0 = stations@;
    let ghost ps0 = products@;
    let q = enqueue(&stations, &products, pending, &robots);
    proof {
        lemma_restocks_valid(st0, pending@, rv);
    }
    let (assigned, rest) = assign(&robots, &q);
    let ghost av = models(assigned@);
    assert forall|i: int| 0 <= i < assigned@.len() implies match (#[trigger] assigned@[i])@.helper_assignment {
        Some(t) => task_valid(t),
        None => true,
    } by {
        assert(av[i] == assigned@[i]@);
        assert(rv[i] == robots@[i]@);
    }
    let n = assigned.len();
    let mut st = stations;
    let mut ps = products;
    let mut out: Vec<Robot> = Vec::new();
    let mut i: usize = 0;
    while i < n
        invariant
            0 <= i <= n,
            n == assigned@.len(),
            n == robots@.len(),
            n < u32::MAX,
            av == models(assigned@),
            (models(out@), st@, ps@) == complete_all(av.take(i as int), st0, ps0),
            forall|p: int| 0 <= p < ps@.len() ==> (#[trigger] ps@[p]).id + (n - i) < u32::MAX,
            forall|j: int| 0 <= j < n ==> match (#[trigger] assigned@[j])@.helper_assignment {
                Some(t) => task_valid(t),
                None => true,
            },
        decreases n - i,
    {
        let r = complete(&assigned[i], &mut st, &mut ps, Ghost((n - i) as int));
        out.push(r);
        proof {
            assert(av.take(i + 1).drop_last() =~= av.take(i as int));
            assert(av.take(i + 1).last() == assigned@[i as int]@);
            assert(models(out@) =~= models(out@).drop_last().push(r@));
        }
        i += 1;
    }
    assert(av.take(n as int) =~= av);
    (out, st, ps, rest)
}

/// Each job is held at most once: the queue has no repeats, no queued job
/// is also held by a robot, and no two robots hold the same job.
pub open spec fn jobs_unique(robots: Seq<RobotModel>, pending: Seq<HelperTask>) -> bool {
    &&& pending.no_duplicates()
    &&& forall|i: int, k: int|
        0 <= i < robots.len() && 0 <= k < pending.len() ==> (#[trigger] robots[i]).helper_assignment != Some(
            #[trigger] pending[k],
        )
    &&& forall|i: int, j: int|
        0 <= i < j < robots.len() && (#[trigger] robots[i]).helper_assignment is Some ==> robots[i].helper_assignment
            != (#[trigger] robots[j]).helper_assignment
}

/// New restock jobs are only queued when not already wanted.
pub proof fn lemma_restocks_unique(st: Seq<Station>, pending: Seq<HelperTask>, robots: Seq<RobotModel>)
    requires
        jobs_unique(robots, pending),
    ensures
        jobs_unique(robots, enqueue_restocks(st, pending, robots)),
    decreases st.len(),
{
    if st.len() > 0 {
        lemma_restocks_unique(st.drop_last(), pending, robots);
        let q = enqueue_restocks(st.drop_last(), pending, robots);
        let t = HelperTask::RestockStation { station_index: st.last().index };
        if st.last().part_inventory == 0 && !wanted(t, q, robots) {
            lemma_push_unwanted(robots, q, t);
        }
    }
}

/// Queuing a job that is not wanted keeps jobs unique.
pub proof fn lemma_push_unwanted(robots: Seq<RobotModel>, q: Seq<HelperTask>, t: HelperTask)
    requires
        jobs_unique(robots, q),
        !wanted(t, q, robots),
    ensures
        jobs_unique(robots, q.push(t)),
{
    let q2 = q.push(t);
    assert forall|a: int, b: int| 0 <= a < q2.len() && 0 <= b < q2.len() && a != b implies q2[a] != q2[b] by {
        if a == q.len() {
            assert(q.contains(q2[b]));
        } else if b == q.len() {
            assert(q.contains(q2[a]));
        }
    }
    assert forall|i: int, k: int| 0 <= i < robots.len() && 0 <= k < q2.len() implies (#[trigger] robots[i]).helper_assignment
        != Some(#[trigger] q2[k]) by {
        if k < q.len() {
            assert(q2[k] == q[k]);
        }
    }
}

/// The new jobs of a tick keep jobs unique.
pub proof fn lemma_enqueue_unique(st: Seq<Station>, ps: Seq<Product>, pending: Seq<HelperTask>, robots: Seq<RobotModel>)
    requires
        jobs_unique(robots, pending),
    ensures
        jobs_unique(robots, enqueue_requests(st, ps, pending, robots)),
{
    lemma_restocks_unique(st, pending, robots);
    let q = enqueue_restocks(st, pending, robots);
    if line_start_empty(ps) && !wanted(HelperTask::DeliverFrame, q, robots) {
        lemma_push_unwanted(robots, q, HelperTask::DeliverFrame);
    }
}

/// An idle helper's rank counts the idle helpers served before it, so it
/// is below the number of idle helpers.
pub proof fn lemma_rank_below_count(robots: Seq<RobotModel>, i: int, k: int)
    requires
        0 <= i < robots.len(),
        0 <= k <= robots.len(),
        is_idle_helper(robots[i]),
    ensures
        idle_rank_upto(robots, i, k) <= idle_count_upto(robots, k),
        k > i ==> idle_rank_upto(robots, i, k) < idle_count_upto(robots, k),
    decreases k,
{
    if k > 0 {
        lemma_rank_below_count(robots, i, k - 1);
    }
}

/// Two different idle helpers have different ranks: the one served first
/// has the smaller rank.
pub proof fn lemma_rank_order(robots: Seq<RobotModel>, i: int, j: int, k: int)
    requires
        0 <= i < robots.len(),
        0 <= j < robots.len(),
        0 <= k <= robots.len(),
        is_idle_helper(robots[j]),
        served_before(robots, j, i),
    ensures
        idle_rank_upto(robots, i, k) >= idle_rank_upto(robots, j, k) + if j < k {
            1int
        } else {
            0int
        },
    decreases k,
{
    if k > 0 {
        lemma_rank_order(robots, i, j, k - 1);
    }
}

/// Different idle helpers get different ranks.
pub proof fn lemma_ranks_distinct(robots: Seq<RobotModel>, i: int, j: int)
    requires
        0 <= i < robots.len(),
        0 <= j < robots.len(),
        i != j,
        is_idle_helper(robots[i]),
        is_idle_helper(robots[j]),
    ensures
        idle_rank(robots, i) != idle_rank(robots, j),
{
    if served_before(robots, j, i) {
        lemma_rank_order(robots, i, j, robots.len() as int);
    } else {
        assert(served_before(robots, i, j));
        lemma_rank_order(robots, j, i, robots.len() as int);
    }
}

/// Assigning jobs keeps them unique: each idle helper takes a different
/// queued job, and the jobs taken leave the queue.
pub proof fn lemma_assign_unique(robots: Seq<RobotModel>, q: Seq<HelperTask>)
    requires
        jobs_unique(robots, q),
    ensures
        jobs_unique(assign_spec(robots, q).0, assign_spec(robots, q).1),
{
    let out = assign_spec(robots, q);
    let taken = if idle_count(robots) < q.len() { idle_count(robots) as int } else { q.len() as int };
    let r2 = out.0;
    let q2 = out.1;
    assert(q2 =~= q.skip(taken));
    assert forall|a: int, b: int| 0 <= a < q2.len() && 0 <= b < q2.len() && a != b implies q2[a] != q2[b] by {
        assert(q2[a] == q[a + taken]);
        assert(q2[b] == q[b + taken]);
    }
    assert forall|i: int| 0 <= i < robots.len() && #[trigger] is_idle_helper(robots[i]) implies idle_rank(robots, i)
        < idle_count(robots) by {
        lemma_rank_below_count(robots, i, robots.len() as int);
    }
    assert forall|i: int, k: int| 0 <= i < r2.len() && 0 <= k < q2.len() implies (#[trigger] r2[i]).helper_assignment
        != Some(#[trigger] q2[k]) by {
        assert(q2[k] == q[k + taken]);
        if is_idle_helper(robots[i]) && idle_rank(robots, i) < q.len() {
            assert(idle_rank(robots, i) < taken);
        } else {
            assert(robots[i].helper_assignment != Some(q[k + taken]));
        }
    }
    assert forall|i: int, j: int|
        0 <= i < j < r2.len() && (#[trigger] r2[i]).helper_assignment is Some implies r2[i].helper_assignment
            != (#[trigger] r2[j]).helper_assignment by {
        let ni = is_idle_helper(robots[i]) && idle_rank(robots, i) < q.len();
        let nj = is_idle_helper(robots[j]) && idle_rank(robots, j) < q.len();
        if ni && nj {
            lemma_ranks_distinct(robots, i, j);
        } else if ni {
            if robots[j].helper_assignment is Some {
                assert(robots[j].helper_assignment != Some(q[idle_rank(robots, i) as int]));
            }
        } else if nj {
            assert(robots[i].helper_assignment != Some(q[idle_rank(robots, j) as int]));
        }
    }
}

/// Finished drop-offs only free robots, so jobs stay unique.
pub proof fn lemma_complete_all_unique(robots: Seq<RobotModel>, st: Seq<Station>, ps: Seq<Product>, q: Seq<HelperTask>)
    requires
        jobs_unique(robots, q),
    ensures
        jobs_unique(complete_all(robots, st, ps).0, q),
        complete_all(robots, st, ps).0.len() == robots.len(),
        forall|i: int|
            0 <= i < robots.len() ==> (#[trigger] complete_all(robots, st, ps).0[i]).helper_assignment
                == robots[i].helper_assignment || complete_all(robots, st, ps).0[i].helper_assignment is None,
    decreases robots.len(),
{
    if robots.len() > 0 {
        let init = robots.drop_last();
        assert(jobs_unique(init, q));
        lemma_complete_all_unique(init, st, ps, q);
        let prev = complete_all(init, st, ps);
        let out = complete_all(robots, st, ps);
        assert forall|i: int| 0 <= i < robots.len() implies (#[trigger] out.0[i]).helper_assignment
            == robots[i].helper_assignment || out.0[i].helper_assignment is None by {
            if i < robots.len() - 1 {
                assert(out.0[i] == prev.0[i]);
                assert(init[i] == robots[i]);
            }
        }
        assert forall|i: int, j: int|
            0 <= i < j < out.0.len() && (#[trigger] out.0[i]).helper_assignment is Some implies out.0[i].helper_assignment
                != (#[trigger] out.0[j]).helper_assignment by {
            assert(out.0[i].helper_assignment == robots[i].helper_assignment);
            if out.0[j].helper_assignment is Some {
                assert(out.0[j].helper_assignment == robots[j].helper_assignment);
            }
        }
        assert forall|i: int, k: int| 0 <= i < out.0.len() && 0 <= k < q.len() implies (#[trigger] out.0[i]).helper_assignment
            != Some(#[trigger] q[k]) by {
            if out.0[i].helper_assignment is Some {
                assert(out.0[i].helper_assignment == robots[i].helper_assignment);
            }
        }
    }
}

/// A tick of logistics keeps every job held at most once.
pub proof fn lemma_logistics_keeps_jobs_unique(
    robots: Seq<RobotModel>,
    st: Seq<Station>,
    ps: Seq<Product>,
    pending: Seq<HelperTask>,
    conveyor_running: bool,
)
    requires
        jobs_unique(robots, pending),
    ensures
        jobs_unique(
            logistics_spec(robots, st, ps, pending, conveyor_running).0,
            logistics_spec(robots, st, ps, pending, conveyor_running).3,
        ),
{
    if conveyor_running {
        lemma_enqueue_unique(st, ps, pending, robots);
        let queued = enqueue_requests(st, ps, pending, robots);
        lemma_assign_unique(robots, queued);
        let assigned = assign_spec(robots, queued);
        lemma_complete_all_unique(assigned.0, st, ps, assigned.1);
    }
}

/// Each job held is valid, each station is a standard one, each queued
/// job is valid, and each product can still step right.
pub open spec fn logistics_valid(
    robots: Seq<RobotModel>,
    st: Seq<Station>,
    ps: Seq<Product>,
    pending: Seq<HelperTask>,
) -> bool {
    &&& forall|i: int| 0 <= i < robots.len() ==> assignment_valid((#[trigger] robots[i]).helper_assignment)
    &&& forall|s: int| 0 <= s < st.len() ==> ((#[trigger] st[s]).index as usize) < STATION_COUNT
    &&& forall|k: int| 0 <= k < pending.len() ==> task_valid(#[trigger] pending[k])
    &&& forall|p: int| 0 <= p < ps.len() ==> (#[trigger] ps[p]).pos.0 < i32::MAX
}

/// Finished drop-offs only free robots, keep the stations' indices, and
/// add products only on the line start.
pub proof fn lemma_complete_all_shape(robots: Seq<RobotModel>, st: Seq<Station>, ps: Seq<Product>)
    ensures
        complete_all(robots, st, ps).0.len() == robots.len(),
        forall|i: int|
            0 <= i < robots.len() ==> (#[trigger] complete_all(robots, st, ps).0[i]).helper_assignment
                == robots[i].helper_assignment || complete_all(robots, st, ps).0[i].helper_assignment is None,
        complete_all(robots, st, ps).1.len() == st.len(),
        forall|k: int| 0 <= k < st.len() ==> (#[trigger] complete_all(robots, st, ps).1[k]).index == st[k].index,
        forall|p: int|
            0 <= p < complete_all(robots, st, ps).2.len() ==> (exists|j: int|
                0 <= j < ps.len() && ps[j] == #[trigger] complete_all(robots, st, ps).2[p])
                || complete_all(robots, st, ps).2[p].pos == line_start(),
    decreases robots.len(),
{
    if robots.len() > 0 {
        let init = robots.drop_last();
        lemma_complete_all_shape(init, st, ps);
        let prev = complete_all(init, st, ps);
        let out = complete_all(robots, st, ps);
        let r = robots.last();
        match r.helper_assignment {
            Some(HelperTask::RestockStation { station_index }) => {
                lemma_station_with_index_from(prev.1, station_index, 0);
            },
            _ => {},
        }
        assert forall|i: int| 0 <= i < robots.len() implies (#[trigger] out.0[i]).helper_assignment
            == robots[i].helper_assignment || out.0[i].helper_assignment is None by {
            if i < robots.len() - 1 {
                assert(out.0[i] == prev.0[i]);
                assert(init[i] == robots[i]);
            }
        }
        assert forall|k: int| 0 <= k < st.len() implies (#[trigger] out.1[k]).index == st[k].index by {
            assert(prev.1[k].index == st[k].index);
        }
        assert forall|p: int| 0 <= p < out.2.len() implies (exists|j: int| 0 <= j < ps.len() && ps[j] == #[trigger] out.2[p])
            || out.2[p].pos == line_start() by {
            if p < prev.2.len() {
                assert(out.2[p] == prev.2[p]);
            }
        }
    }
}

/// A station with a given index is found exactly when one exists.
pub proof fn lemma_station_with_index_from(st: Seq<Station>, index: u8, k: int)
    requires
        0 <= k,
    ensures
        match station_with_index_from(st, index, k) {
            Some(j) => k <= j < st.len() && st[j].index == index,
            None => forall|j: int| k <= j < st.len() ==> (#[trigger] st[j]).index != index,
        },
    decreases st.len() - k,
{
    if k < st.len() && st[k].index != index {
        lemma_station_with_index_from(st, index, k + 1);
    }
}

/// A tick of logistics keeps jobs and stations valid and products able to
/// step right.
pub proof fn lemma_logistics_keeps_valid(
    robots: Seq<RobotModel>,
    st: Seq<Station>,
    ps: Seq<Product>,
    pending: Seq<HelperTask>,
    conveyor_running: bool,
)
    requires
        logistics_valid(robots, st, ps, pending),
    ensures
        ({
            let out = logistics_spec(robots, st, ps, pending, conveyor_running);
            logistics_valid(out.0, out.1, out.2, out.3)
        }),
{
    if conveyor_running {
        lemma_restocks_valid(st, pending, robots);
        let queued = enqueue_requests(st, ps, pending, robots);
        assert forall|k: int| 0 <= k < queued.len() implies task_valid(#[trigger] queued[k]) by {
            let q = enqueue_restocks(st, pending, robots);
            if k < q.len() {
                assert(task_valid(q[k]));
            }
        }
        let assigned = assign_spec(robots, queued);
        assert forall|i: int| 0 <= i < assigned.0.len() implies assignment_valid(
            (#[trigger] assigned.0[i]).helper_assignment,
        ) by {
            if is_idle_helper(robots[i]) && idle_rank(robots, i) < queued.len() {
                assert(task_valid(queued[idle_rank(robots, i) as int]));
            }
        }
        let taken = if idle_count(robots) < queued.len() { idle_count(robots) as int } else { queued.len() as int };
        assert forall|k: int| 0 <= k < assigned.1.len() implies task_valid(#[trigger] assigned.1[k]) by {
            assert(assigned.1[k] == queued[k + taken]);
        }
        lemma_complete_all_shape(assigned.0, st, ps);
        let done = complete_all(assigned.0, st, ps);
        assert forall|i: int| 0 <= i < done.0.len() implies assignment_valid((#[trigger] done.0[i]).helper_assignment) by {
            assert(assignment_valid(assigned.0[i].helper_assignment));
        }
        assert forall|k: int| 0 <= k < done.1.len() implies ((#[trigger] done.1[k]).index as usize) < STATION_COUNT by {
            assert(done.1[k].index == st[k].index);
        }
        assert forall|p: int| 0 <= p < done.2.len() implies (#[trigger] done.2[p]).pos.0 < i32::MAX by {
            if done.2[p].pos != line_start() {
                let j = choose|j: int| 0 <= j < ps.len() && ps[j] == done.2[p];
                assert(ps[j].pos.0 < i32::MAX);
            }
        }
    }
}

/// Finished drop-offs either leave a station's inventory alone or fill it.
pub proof fn lemma_complete_all_inventory(robots: Seq<RobotModel>, st: Seq<Station>, ps: Seq<Product>)
    ensures
        complete_all(robots, st, ps).1.len() == st.len(),
        forall|k: int|
            0 <= k < st.len() ==> (#[trigger] complete_all(robots, st, ps).1[k]).part_inventory == st[k].part_inventory
                || complete_all(robots, st, ps).1[k].part_inventory == STATION_MAX_INVENTORY,
    decreases robots.len(),
{
    lemma_complete_all_shape(robots, st, ps);
    if robots.len() > 0 {
        let init = robots.drop_last();
        lemma_complete_all_inventory(init, st, ps);
        let prev = complete_all(init, st, ps);
        let out = complete_all(robots, st, ps);
        match robots.last().helper_assignment {
            Some(HelperTask::RestockStation { station_index }) => {
                lemma_station_with_index_from(prev.1, station_index, 0);
            },
            _ => {},
        }
        assert forall|k: int| 0 <= k < st.len() implies (#[trigger] out.1[k]).part_inventory == st[k].part_inventory
            || out.1[k].part_inventory == STATION_MAX_INVENTORY by {
            assert(prev.1[k].part_inventory == st[k].part_inventory || prev.1[k].part_inventory
                == STATION_MAX_INVENTORY);
        }
    }
}

/// The robot holds this job.
pub open spec fn holds(r: RobotModel, t: HelperTask) -> bool {
    r.helper_assignment == Some(t)
}

/// Restock jobs are the only ones queued for stations: a frame delivery in
/// the queue afterwards was in it before.
pub proof fn lemma_restocks_queue_no_frames(st: Seq<Station>, pending: Seq<HelperTask>, robots: Seq<RobotModel>)
    ensures
        enqueue_restocks(st, pending, robots).contains(HelperTask::DeliverFrame) ==> pending.contains(
            HelperTask::DeliverFrame,
        ),
    decreases st.len(),
{
    if st.len() > 0 {
        lemma_restocks_queue_no_frames(st.drop_last(), pending, robots);
        let q = enqueue_restocks(st.drop_last(), pending, robots);
        let out = enqueue_restocks(st, pending, robots);
        if out.contains(HelperTask::DeliverFrame) && out != q {
            let k = choose|k: int| 0 <= k < out.len() && out[k] == HelperTask::DeliverFrame;
            if k < q.len() {
                assert(q[k] == HelperTask::DeliverFrame);
            }
        }
    }
}

/// Finished drop-offs free exactly the robots that finished, and add a
/// product only for a finished frame delivery: with products on distinct
/// cells with distinct ids, at most one robot holding a frame delivery,
/// and the line start free whenever a robot holds one, products stay on
/// distinct cells with distinct ids, and no product is added unless the
/// holder of a frame delivery finishes it.
pub proof fn lemma_complete_all_frames(robots: Seq<RobotModel>, st: Seq<Station>, ps: Seq<Product>)
    requires
        distinct_cells(ps),
        distinct_product_ids(ps),
        forall|p: int| 0 <= p < ps.len() ==> BELT_START_X <= (#[trigger] ps[p]).pos.0,
        forall|p: int| 0 <= p < ps.len() ==> (#[trigger] ps[p]).id < u32::MAX,
        forall|i: int, j: int|
            0 <= i < j < robots.len() ==> !(holds(#[trigger] robots[i], HelperTask::DeliverFrame) && holds(
                #[trigger] robots[j],
                HelperTask::DeliverFrame,
            )),
        (exists|i: int| 0 <= i < robots.len() && holds(#[trigger] robots[i], HelperTask::DeliverFrame))
            ==> line_start_empty(ps),
    ensures
        complete_all(robots, st, ps).0.len() == robots.len(),
        forall|i: int|
            0 <= i < robots.len() ==> (#[trigger] complete_all(robots, st, ps).0[i]).helper_assignment == if completes(
                robots[i],
            ) {
                None
            } else {
                robots[i].helper_assignment
            },
        distinct_cells(complete_all(robots, st, ps).2),
        distinct_product_ids(complete_all(robots, st, ps).2),
        forall|p: int|
            0 <= p < complete_all(robots, st, ps).2.len() ==> BELT_START_X <= (#[trigger] complete_all(
                robots,
                st,
                ps,
            ).2[p]).pos.0,
        (forall|i: int|
            0 <= i < robots.len() && holds(#[trigger] robots[i], HelperTask::DeliverFrame) ==> !completes(robots[i]))
            ==> complete_all(robots, st, ps).2 == ps,
    decreases robots.len(),
{
    if robots.len() > 0 {
        let init = robots.drop_last();
        let last = robots.last();
        assert forall|i: int, j: int| 0 <= i < j < init.len() implies !(holds(
            #[trigger] init[i],
            HelperTask::DeliverFrame,
        ) && holds(#[trigger] init[j], HelperTask::DeliverFrame)) by {
            assert(init[i] == robots[i] && init[j] == robots[j]);
        }
        if exists|i: int| 0 <= i < init.len() && holds(#[trigger] init[i], HelperTask::DeliverFrame) {
            let i = choose|i: int| 0 <= i < init.len() && holds(#[trigger] init[i], HelperTask::DeliverFrame);
            assert(robots[i] == init[i]);
        }
        lemma_complete_all_frames(init, st, ps);
        let prev = complete_all(init, st, ps);
        let out = complete_all(robots, st, ps);
        assert forall|i: int| 0 <= i < robots.len() implies (#[trigger] out.0[i]).helper_assignment == if completes(
            robots[i],
        ) {
            None
        } else {
            robots[i].helper_assignment
        } by {
            if i < robots.len() - 1 {
                assert(out.0[i] == prev.0[i]);
                assert(init[i] == robots[i]);
            }
        }
        if completes(last) && holds(last, HelperTask::DeliverFrame) {
            // The only frame delivery: no earlier robot added a product.
            assert forall|i: int| 0 <= i < init.len() && holds(#[trigger] init[i], HelperTask::DeliverFrame) implies !completes(
                init[i],
            ) by {
                assert(init[i] == robots[i]);
                assert(robots[robots.len() - 1] == last);
            }
            assert(prev.2 == ps);
            assert(robots[robots.len() - 1] == last);
            assert(line_start_empty(ps));
            let fresh = Product { id: next_product_id(ps), stage: 0, pos: line_start(), work_ticks_remaining: 0 };
            assert(out.2 == ps.push(fresh));
            if ps.len() > 0 {
                lemma_max_product_id(ps);
            }
            assert forall|i: int, j: int| 0 <= i < j < out.2.len() implies (#[trigger] out.2[i]).pos
                != (#[trigger] out.2[j]).pos by {
                if j == ps.len() {
                    assert(out.2[i] == ps[i]);
                } else {
                    assert(out.2[i] == ps[i] && out.2[j] == ps[j]);
                }
            }
            assert forall|i: int, j: int| 0 <= i < j < out.2.len() implies (#[trigger] out.2[i]).id
                != (#[trigger] out.2[j]).id by {
                if j == ps.len() {
                    assert(out.2[i] == ps[i]);
                    assert(ps[i].id <= max_product_id(ps)->0);
                    let w = choose|w: int| 0 <= w < ps.len() && ps[w].id == max_product_id(ps)->0;
                    assert(ps[w].id < u32::MAX);
                    assert(out.2[j].id == max_product_id(ps)->0 + 1);
                } else {
                    assert(out.2[i] == ps[i] && out.2[j] == ps[j]);
                }
            }
            assert forall|p: int| 0 <= p < out.2.len() implies BELT_START_X <= (#[trigger] out.2[p]).pos.0 by {
                if p < ps.len() {
                    assert(out.2[p] == ps[p]);
                }
            }
        } else {
            assert(out.2 == prev.2);
            if forall|i: int|
                0 <= i < robots.len() && holds(#[trigger] robots[i], HelperTask::DeliverFrame) ==> !completes(
                    robots[i],
                ) {
                assert forall|i: int| 0 <= i < init.len() && holds(#[trigger] init[i], HelperTask::DeliverFrame) implies !completes(
                    init[i],
                ) by {
                    assert(init[i] == robots[i]);
                }
            }
        }
    }
}

/// After a tick of logistics, products are still on distinct cells with
/// distinct ids at or past the line start, and a frame delivery is only
/// ever queued or held while the line start is free.
pub proof fn lemma_logistics_keeps_frames_apart(
    robots: Seq<RobotModel>,
    st: Seq<Station>,
    ps: Seq<Product>,
    pending: Seq<HelperTask>,
    conveyor_running: bool,
)
    requires
        distinct_cells(ps),
        distinct_product_ids(ps),
        forall|p: int| 0 <= p < ps.len() ==> BELT_START_X <= (#[trigger] ps[p]).pos.0,
        forall|p: int| 0 <= p < ps.len() ==> (#[trigger] ps[p]).id < u32::MAX,
        jobs_unique(robots, pending),
        wanted(HelperTask::DeliverFrame, pending, robots) ==> line_start_empty(ps),
    ensures
        ({
            let out = logistics_spec(robots, st, ps, pending, conveyor_running);
            &&& distinct_cells(out.2)
            &&& distinct_product_ids(out.2)
            &&& forall|p: int| 0 <= p < out.2.len() ==> BELT_START_X <= (#[trigger] out.2[p]).pos.0
            &&& wanted(HelperTask::DeliverFrame, out.3, out.0) ==> line_start_empty(out.2)
        }),
{
    if conveyor_running {
        let q = enqueue_requests(st, ps, pending, robots);
        lemma_enqueue_unique(st, ps, pending, robots);
        lemma_restocks_queue_no_frames(st, pending, robots);
        let qr = enqueue_restocks(st, pending, robots);
        assert(wanted(HelperTask::DeliverFrame, q, robots) ==> line_start_empty(ps)) by {
            if q.contains(HelperTask::DeliverFrame) && !line_start_empty(ps) {
                assert(q == qr);
                assert(pending.contains(HelperTask::DeliverFrame));
            }
        }
        let assigned = assign_spec(robots, q);
        lemma_assign_unique(robots, q);
        let r2 = assigned.0;
        let q2 = assigned.1;
        let taken = if idle_count(robots) < q.len() { idle_count(robots) as int } else { q.len() as int };
        assert forall|i: int| 0 <= i < r2.len() && holds(#[trigger] r2[i], HelperTask::DeliverFrame) implies line_start_empty(
            ps,
        ) by {
            if is_idle_helper(robots[i]) && idle_rank(robots, i) < q.len() {
                assert(q[idle_rank(robots, i) as int] == HelperTask::DeliverFrame);
                assert(q.contains(HelperTask::DeliverFrame));
            } else {
                assert(holds(robots[i], HelperTask::DeliverFrame));
            }
        }
        lemma_complete_all_frames(r2, st, ps);
        let done = complete_all(r2, st, ps);
        assert(wanted(HelperTask::DeliverFrame, q2, done.0) ==> line_start_empty(done.2)) by {
            if q2.contains(HelperTask::DeliverFrame) {
                let k = choose|k: int| 0 <= k < q2.len() && q2[k] == HelperTask::DeliverFrame;
                assert(q2[k] == q[k + taken]);
                assert(q.contains(HelperTask::DeliverFrame));
                assert forall|i: int| 0 <= i < r2.len() && holds(#[trigger] r2[i], HelperTask::DeliverFrame) implies !completes(
                    r2[i],
                ) by {
                    assert(r2[i].helper_assignment != Some(q2[k]));
                }
            }
            if exists|i: int| 0 <= i < done.0.len() && #[trigger] done.0[i].helper_assignment == Some(
                HelperTask::DeliverFrame,
            ) {
                let i = choose|i: int| 0 <= i < done.0.len() && #[trigger] done.0[i].helper_assignment == Some(
                    HelperTask::DeliverFrame,
                );
                assert(!completes(r2[i]) && holds(r2[i], HelperTask::DeliverFrame));
                assert forall|j: int| 0 <= j < r2.len() && holds(#[trigger] r2[j], HelperTask::DeliverFrame) implies !completes(
                    r2[j],
                ) by {
                    if j != i {
                        if i < j {
                            assert(r2[i].helper_assignment != r2[j].helper_assignment);
                        } else {
                            assert(r2[j].helper_assignment != r2[i].helper_assignment);
                        }
                    }
                }
            }
        }
    }
}

/// No two stations share an index.
pub open spec fn distinct_station_indices(st: Seq<Station>) -> bool {
    forall|a: int, b: int| 0 <= a < b < st.len() ==> (#[trigger] st[a]).index != (#[trigger] st[b]).index
}

/// A job that is wanted stays wanted when more jobs are queued.
proof fn lemma_wanted_push(t: HelperTask, q: Seq<HelperTask>, robots: Seq<RobotModel>, u: HelperTask)
    requires
        wanted(t, q, robots),
    ensures
        wanted(t, q.push(u), robots),
{
    if q.contains(t) {
        let k = choose|k: int| 0 <= k < q.len() && q[k] == t;
        assert(q.push(u)[k] == t);
    }
}

/// Queuing restocks leaves every depleted station's restock wanted, and
/// keeps wanted whatever was wanted.
proof fn lemma_restocks_cover(st: Seq<Station>, pending: Seq<HelperTask>, robots: Seq<RobotModel>)
    ensures
        forall|s: int|
            0 <= s < st.len() && (#[trigger] st[s]).part_inventory == 0 ==> wanted(
                HelperTask::RestockStation { station_index: st[s].index },
                enqueue_restocks(st, pending, robots),
                robots,
            ),
        forall|t: HelperTask| wanted(t, pending, robots) ==> wanted(t, enqueue_restocks(st, pending, robots), robots),
    decreases st.len(),
{
    if st.len() > 0 {
        let init = st.drop_last();
        lemma_restocks_cover(init, pending, robots);
        let q = enqueue_restocks(init, pending, robots);
        let t = HelperTask::RestockStation { station_index: st.last().index };
        let pushed = st.last().part_inventory == 0 && !wanted(t, q, robots);
        assert forall|u: HelperTask| wanted(u, q, robots) implies wanted(u, enqueue_restocks(st, pending, robots), robots) by {
            if pushed {
                lemma_wanted_push(u, q, robots, t);
            }
        }
        if pushed {
            assert(q.push(t)[q.len() as int] == t);
        }
        assert forall|s: int| 0 <= s < st.len() && (#[trigger] st[s]).part_inventory == 0 implies wanted(
            HelperTask::RestockStation { station_index: st[s].index },
            enqueue_restocks(st, pending, robots),
            robots,
        ) by {
            if s < st.len() - 1 {
                assert(init[s] == st[s]);
            }
        }
    }
}

/// After this tick's new jobs, every depleted station's restock is wanted,
/// and so is a frame delivery when the line start is empty.
proof fn lemma_enqueue_covers(st: Seq<Station>, ps: Seq<Product>, pending: Seq<HelperTask>, robots: Seq<RobotModel>)
    ensures
        forall|s: int|
            0 <= s < st.len() && (#[trigger] st[s]).part_inventory == 0 ==> wanted(
                HelperTask::RestockStation { station_index: st[s].index },
                enqueue_requests(st, ps, pending, robots),
                robots,
            ),
        line_start_empty(ps) ==> wanted(HelperTask::DeliverFrame, enqueue_requests(st, ps, pending, robots), robots),
{
    lemma_restocks_cover(st, pending, robots);
    let q = enqueue_restocks(st, pending, robots);
    if line_start_empty(ps) && !wanted(HelperTask::DeliverFrame, q, robots) {
        assert forall|s: int| 0 <= s < st.len() && (#[trigger] st[s]).part_inventory == 0 implies wanted(
            HelperTask::RestockStation { station_index: st[s].index },
            enqueue_requests(st, ps, pending, robots),
            robots,
        ) by {
            lemma_wanted_push(HelperTask::RestockStation { station_index: st[s].index }, q, robots, HelperTask::DeliverFrame);
        }
        assert(q.push(HelperTask::DeliverFrame)[q.len() as int] == HelperTask::DeliverFrame);
    }
}

/// The idle helpers among the first `k` robots.
spec fn idle_set_upto(robots: Seq<RobotModel>, k: int) -> Set<int> {
    Set::new(|i: int| 0 <= i < k && is_idle_helper(robots[i]))
}

proof fn lemma_idle_set_len(robots: Seq<RobotModel>, k: int)
    requires
        0 <= k <= robots.len(),
    ensures
        idle_set_upto(robots, k).finite(),
        idle_set_upto(robots, k).len() == idle_count_upto(robots, k),
    decreases k,
{
    if k == 0 {
        assert(idle_set_upto(robots, k) =~= Set::<int>::empty());
    } else {
        lemma_idle_set_len(robots, k - 1);
        if is_idle_helper(robots[k - 1]) {
            assert(idle_set_upto(robots, k) =~= idle_set_upto(robots, k - 1).insert(k - 1));
        } else {
            assert(idle_set_upto(robots, k) =~= idle_set_upto(robots, k - 1));
        }
    }
}

/// Every place below the number of idle helpers is some idle helper's rank.
proof fn lemma_rank_taken(robots: Seq<RobotModel>, r: int)
    requires
        0 <= r < idle_count(robots),
    ensures
        exists|i: int| 0 <= i < robots.len() && is_idle_helper(robots[i]) && #[trigger] idle_rank(robots, i) == r,
{
    let n = robots.len() as int;
    let idle = idle_set_upto(robots, n);
    lemma_idle_set_len(robots, n);
    let f = |i: int| idle_rank(robots, i) as int;
    assert(vstd::relations::injective_on(f, idle)) by {
        assert forall|a: int, b: int| idle.contains(a) && idle.contains(b) && #[trigger] f(a) == #[trigger] f(b) implies a
            == b by {
            if a != b {
                lemma_ranks_distinct(robots, a, b);
            }
        }
    }
    let img = idle.map(f);
    vstd::set_lib::lemma_map_size(idle, img, f);
    let range = vstd::set_lib::set_int_range(0, idle_count(robots) as int);
    vstd::set_lib::lemma_int_range(0, idle_count(robots) as int);
    assert(img.subset_of(range)) by {
        assert forall|x: int| img.contains(x) implies range.contains(x) by {
            let i = choose|i: int| idle.contains(i) && f(i) == x;
            lemma_rank_below_count(robots, i, n);
        }
    }
    vstd::set_lib::lemma_subset_equality(img, range);
    assert(range.contains(r));
    assert(img.contains(r));
    let i = choose|i: int| idle.contains(i) && f(i) == r;
    assert(idle_rank(robots, i) == r);
}

/// Assigning jobs keeps every wanted job wanted: a queued job either stays
/// queued or goes to the idle helper of its rank, and a held job stays held.
proof fn lemma_assign_keeps_wanted(robots: Seq<RobotModel>, q: Seq<HelperTask>, t: HelperTask)
    requires
        wanted(t, q, robots),
    ensures
        wanted(t, assign_spec(robots, q).1, assign_spec(robots, q).0),
{
    let out = assign_spec(robots, q);
    let taken = if idle_count(robots) < q.len() { idle_count(robots) as int } else { q.len() as int };
    if q.contains(t) {
        let k = choose|k: int| 0 <= k < q.len() && q[k] == t;
        if k >= taken {
            assert(out.1[k - taken] == t);
        } else {
            lemma_rank_taken(robots, k);
            let i = choose|i: int| 0 <= i < robots.len() && is_idle_helper(robots[i]) && #[trigger] idle_rank(robots, i) == k;
            assert(out.0[i].helper_assignment == Some(t));
        }
    } else {
        let i = choose|i: int| 0 <= i < robots.len() && #[trigger] robots[i].helper_assignment == Some(t);
        assert(out.0[i] == robots[i]);
    }
}

/// What finished drop-offs do, robot by robot: a robot keeps its job
/// unless it completes it; stations keep their indices and are only ever
/// filled; products are only added after the existing ones; a completed
/// restock fills every station with its index (when indices are distinct),
/// and a completed delivery leaves a product on the line start.
proof fn lemma_complete_all_effects(robots: Seq<RobotModel>, st: Seq<Station>, ps: Seq<Product>)
    requires
        distinct_station_indices(st),
    ensures
        complete_all(robots, st, ps).0.len() == robots.len(),
        complete_all(robots, st, ps).1.len() == st.len(),
        forall|i: int|
            0 <= i < robots.len() ==> (#[trigger] complete_all(robots, st, ps).0[i]).helper_assignment
                == robots[i].helper_assignment || completes(robots[i]),
        forall|k: int|
            0 <= k < st.len() ==> (#[trigger] complete_all(robots, st, ps).1[k]).index == st[k].index && (complete_all(
                robots,
                st,
                ps,
            ).1[k].part_inventory == st[k].part_inventory || complete_all(robots, st, ps).1[k].part_inventory
                == STATION_MAX_INVENTORY),
        ps.len() <= complete_all(robots, st, ps).2.len(),
        forall|p: int| 0 <= p < ps.len() ==> #[trigger] complete_all(robots, st, ps).2[p] == ps[p],
        forall|i: int, k: int|
            0 <= i < robots.len() && 0 <= k < st.len() && completes(robots[i]) && #[trigger] robots[i].helper_assignment
                == Some(HelperTask::RestockStation { station_index: (#[trigger] st[k]).index }) ==> complete_all(
                robots,
                st,
                ps,
            ).1[k].part_inventory == STATION_MAX_INVENTORY,
        forall|i: int|
            0 <= i < robots.len() && completes(robots[i]) && #[trigger] robots[i].helper_assignment == Some(
                HelperTask::DeliverFrame,
            ) ==> !line_start_empty(complete_all(robots, st, ps).2),
    decreases robots.len(),
{
    if robots.len() > 0 {
        let init = robots.drop_last();
        lemma_complete_all_effects(init, st, ps);
        let prev = complete_all(init, st, ps);
        let out = complete_all(robots, st, ps);
        let r = robots.last();
        let n = robots.len() - 1;
        assert(robots[n] == r);
        assert(distinct_station_indices(prev.1)) by {
            assert forall|a: int, b: int| 0 <= a < b < prev.1.len() implies (#[trigger] prev.1[a]).index
                != (#[trigger] prev.1[b]).index by {
                assert(prev.1[a].index == st[a].index && prev.1[b].index == st[b].index);
            }
        }
        match r.helper_assignment {
            Some(HelperTask::RestockStation { station_index }) => {
                lemma_station_with_index_from(prev.1, station_index, 0);
            },
            _ => {},
        }
        assert forall|i: int| 0 <= i < robots.len() implies (#[trigger] out.0[i]).helper_assignment
            == robots[i].helper_assignment || completes(robots[i]) by {
            if i < n {
                assert(out.0[i] == prev.0[i]);
                assert(init[i] == robots[i]);
            }
        }
        assert forall|k: int| 0 <= k < st.len() implies (#[trigger] out.1[k]).index == st[k].index && (
        out.1[k].part_inventory == st[k].part_inventory || out.1[k].part_inventory == STATION_MAX_INVENTORY) by {
            assert(prev.1[k].index == st[k].index);
        }
        assert forall|p: int| 0 <= p < ps.len() implies #[trigger] out.2[p] == ps[p] by {
            assert(prev.2[p] == ps[p]);
        }
        assert forall|i: int, k: int|
            0 <= i < robots.len() && 0 <= k < st.len() && completes(robots[i]) && #[trigger] robots[i].helper_assignment
                == Some(HelperTask::RestockStation { station_index: (#[trigger] st[k]).index }) implies out.1[k].part_inventory
            == STATION_MAX_INVENTORY by {
            if i < n {
                assert(init[i] == robots[i]);
                assert(prev.1[k].part_inventory == STATION_MAX_INVENTORY);
            } else {
                assert(prev.1[k].index == st[k].index);
                let j = station_with_index_from(prev.1, st[k].index, 0)->0;
                if j != k {
                    if j < k {
                        assert(prev.1[j].index != prev.1[k].index);
                    } else {
                        assert(prev.1[k].index != prev.1[j].index);
                    }
                }
            }
        }
        assert forall|i: int|
            0 <= i < robots.len() && completes(robots[i]) && #[trigger] robots[i].helper_assignment == Some(
                HelperTask::DeliverFrame,
            ) implies !line_start_empty(out.2) by {
            if i < n {
                assert(init[i] == robots[i]);
                let p = choose|p: int| 0 <= p < prev.2.len() && #[trigger] prev.2[p].pos == line_start();
                assert(out.2[p] == prev.2[p]);
            } else {
                assert(out.2[prev.2.len() as int].pos == line_start());
            }
        }
    }
}

/// After a tick of helper logistics with the conveyor running, every
/// station without parts has its restock job queued or held by a robot,
/// and when no product stands on the line start a frame delivery is queued
/// or held (stations must have distinct indices).
pub proof fn lemma_logistics_covers_needs(
    robots: Seq<RobotModel>,
    st: Seq<Station>,
    ps: Seq<Product>,
    pending: Seq<HelperTask>,
)
    requires
        distinct_station_indices(st),
    ensures
        ({
            let out = logistics_spec(robots, st, ps, pending, true);
            &&& forall|s: int|
                0 <= s < out.1.len() && (#[trigger] out.1[s]).part_inventory == 0 ==> wanted(
                    HelperTask::RestockStation { station_index: out.1[s].index },
                    out.3,
                    out.0,
                )
            &&& line_start_empty(out.2) ==> wanted(HelperTask::DeliverFrame, out.3, out.0)
        }),
{
    let q = enqueue_requests(st, ps, pending, robots);
    let assigned = assign_spec(robots, q);
    let a = assigned.0;
    let q2 = assigned.1;
    let done = complete_all(a, st, ps);
    lemma_enqueue_covers(st, ps, pending, robots);
    lemma_complete_all_effects(a, st, ps);
    assert(a.len() == robots.len());
    // A wanted job stays wanted through the drop-offs unless it is completed.
    assert forall|t: HelperTask| wanted(t, q2, a) implies wanted(t, q2, done.0) || exists|i: int|
        0 <= i < a.len() && completes(a[i]) && #[trigger] a[i].helper_assignment == Some(t) by {
        if !q2.contains(t) {
            let i = choose|i: int| 0 <= i < a.len() && #[trigger] a[i].helper_assignment == Some(t);
            if !completes(a[i]) {
                assert(done.0[i].helper_assignment == Some(t));
            }
        }
    }
    assert forall|s: int| 0 <= s < done.1.len() && (#[trigger] done.1[s]).part_inventory == 0 implies wanted(
        HelperTask::RestockStation { station_index: done.1[s].index },
        q2,
        done.0,
    ) by {
        assert(st[s].part_inventory == 0);
        let t = HelperTask::RestockStation { station_index: st[s].index };
        lemma_assign_keeps_wanted(robots, q, t);
        if !wanted(t, q2, done.0) {
            let i = choose|i: int| 0 <= i < a.len() && completes(a[i]) && #[trigger] a[i].helper_assignment == Some(t);
            assert(done.1[s].part_inventory == STATION_MAX_INVENTORY);
        }
    }
    if line_start_empty(done.2) {
        assert(line_start_empty(ps)) by {
            if !line_start_empty(ps) {
                let p = choose|p: int| 0 <= p < ps.len() && #[trigger] ps[p].pos == line_start();
                assert(done.2[p] == ps[p]);
            }
        }
        lemma_assign_keeps_wanted(robots, q, HelperTask::DeliverFrame);
        if !wanted(HelperTask::DeliverFrame, q2, done.0) {
            let i = choose|i: int|
                0 <= i < a.len() && completes(a[i]) && #[trigger] a[i].helper_assignment == Some(HelperTask::DeliverFrame);
        }
    }
}

/// With no idle helper served before robot `i`, its rank is zero.
proof fn lemma_rank_zero(robots: Seq<RobotModel>, i: int, k: int)
    requires
        0 <= k <= robots.len(),
        forall|j: int| 0 <= j < robots.len() && is_idle_helper(#[trigger] robots[j]) ==> !served_before(robots, j, i),
    ensures
        idle_rank_upto(robots, i, k) == 0,
    decreases k,
{
    if k > 0 {
        lemma_rank_zero(robots, i, k - 1);
    }
}

/// Jobs go to idle helpers in order of id: only idle helpers get jobs; an
/// idle helper that gets a job got it only after every idle helper served
/// before it (lower id) got one, and that one's job is older; and when
/// there is a job, the first idle helper gets the oldest one. Helpers that
/// already hold a job, and assembly robots, are left as they are.
pub proof fn lemma_jobs_go_by_id(robots: Seq<RobotModel>, q: Seq<HelperTask>)
    ensures
        assign_spec(robots, q).0.len() == robots.len(),
        forall|i: int|
            0 <= i < robots.len() && !is_idle_helper(robots[i]) ==> #[trigger] assign_spec(robots, q).0[i] == robots[i],
        forall|i: int, j: int|
            #![trigger assign_spec(robots, q).0[i], assign_spec(robots, q).0[j]]
            0 <= i < robots.len() && 0 <= j < robots.len() && is_idle_helper(robots[i]) && is_idle_helper(robots[j])
                && served_before(robots, j, i) && assign_spec(robots, q).0[i].helper_assignment is Some ==> exists|a: int, b: int|
                0 <= b < a < q.len() && assign_spec(robots, q).0[j].helper_assignment == Some(q[b])
                    && assign_spec(robots, q).0[i].helper_assignment == Some(q[a]),
        forall|i: int|
            0 <= i < robots.len() && is_idle_helper(robots[i]) && q.len() > 0 && (forall|j: int|
                0 <= j < robots.len() && is_idle_helper(#[trigger] robots[j]) ==> !served_before(robots, j, i))
                ==> #[trigger] assign_spec(robots, q).0[i].helper_assignment == Some(q[0]),
{
    let out = assign_spec(robots, q);
    assert forall|i: int, j: int|
        #![trigger out.0[i], out.0[j]]
        0 <= i < robots.len() && 0 <= j < robots.len() && is_idle_helper(robots[i]) && is_idle_helper(robots[j])
            && served_before(robots, j, i) && out.0[i].helper_assignment is Some implies exists|a: int, b: int|
            0 <= b < a < q.len() && out.0[j].helper_assignment == Some(q[b]) && out.0[i].helper_assignment == Some(q[a]) by {
        lemma_rank_order(robots, i, j, robots.len() as int);
        let a = idle_rank(robots, i) as int;
        let b = idle_rank(robots, j) as int;
        assert(out.0[i].helper_assignment == Some(q[a]));
        assert(out.0[j].helper_assignment == Some(q[b]));
    }
    assert forall|i: int|
        0 <= i < robots.len() && is_idle_helper(robots[i]) && q.len() > 0 && (forall|j: int|
            0 <= j < robots.len() && is_idle_helper(#[trigger] robots[j]) ==> !served_before(robots, j, i))
            implies #[trigger] out.0[i].helper_assignment == Some(q[0]) by {
        lemma_rank_zero(robots, i, robots.len() as int);
    }
}

} // verus!
