//! Robot events worth recording: failures as they happen, and how many
//! robots are being repaired.
use vstd::prelude::*;
use crate::sim::{models, Robot, RobotModel, RobotStatus};

verus! {

/// A recorded robot event, such as a failure.
#[derive(Debug, Clone, PartialEq)]
pub struct FailureEvent {
    pub tick: u64,
    pub robot_id: u32,
    pub event_type: String,
}

impl FailureEvent {
    /// The event of robot `robot_id` failing at `tick`.
    pub fn failed(tick: u64, robot_id: u32) -> (e: FailureEvent)
        ensures
            e.tick == tick,
            e.robot_id == robot_id,
            e.event_type@ == "failed"@,
    {
        FailureEvent { tick, robot_id, event_type: "failed".to_owned() }
    }
}

/// Robot `r` failed during the last tick: it has failed now, and the robot
/// with its id was operational before.
pub open spec fn just_failed(previous: Seq<RobotModel>, r: RobotModel) -> bool {
    &&& r.status == RobotStatus::Failed
    &&& exists|j: int|
        0 <= j < previous.len() && (#[trigger] previous[j]).id == r.id && previous[j].status == RobotStatus::Operational
}

/// The ids of the robots that went from operational to failed, in the
/// order of the current robots.
pub open spec fn newly_failed_spec(previous: Seq<RobotModel>, current: Seq<RobotModel>) -> Seq<u32>
    decreases current.len(),
{
    if current.len() == 0 {
        Seq::empty()
    } else {
        let rest = newly_failed_spec(previous, current.drop_last());
        if just_failed(previous, current.last()) {
            rest.push(current.last().id)
        } else {
            rest
        }
    }
}

/// How many of the first `k` robots are being repaired.
pub open spec fn repairing_count_upto(robots: Seq<RobotModel>, k: int) -> nat
    decreases k,
{
    if k <= 0 {
        0
    } else {
        repairing_count_upto(robots, k - 1) + if robots[k - 1].status is Repairing {
            1nat
        } else {
            0nat
        }
    }
}

fn was_operational(previous: &Vec<Robot>, id: u32) -> (b: bool)
    ensures
        b == exists|j: int|
            0 <= j < previous@.len() && (#[trigger] models(previous@)[j]).id == id && models(previous@)[j].status
                == RobotStatus::Operational,
{
    let ghost pv = models(previous@);
    let mut j: usize = 0;
    while j < previous.len()
        invariant
            0 <= j <= previous@.len(),
            pv == models(previous@),
            forall|k: int| 0 <= k < j ==> !((#[trigger] pv[k]).id == id && pv[k].status == RobotStatus::Operational),
        decreases previous@.len() - j,
    {
        if previous[j].id == id && previous[j].status == RobotStatus::Operational {
            assert(pv[j as int].id == id);
            return true;
        }
        j += 1;
    }
    false
}

/// The ids of robots that failed during the last tick; see
/// `newly_failed_spec`.
pub fn newly_failed(previous: &Vec<Robot>, current: &Vec<Robot>) -> (ids: Vec<u32>)
    ensures
        ids@ == newly_failed_spec(models(previous@), models(current@)),
{
    let ghost pv = models(previous@);
    let ghost cv = models(current@);
    let mut ids: Vec<u32> = Vec::new();
    let mut i: usize = 0;
    while i < current.len()
        invariant
            0 <= i <= current@.len(),
            pv == models(previous@),
            cv == models(current@),
            ids@ == newly_failed_spec(pv, cv.take(i as int)),
        decreases current@.len() - i,
    {
        if current[i].status == RobotStatus::Failed && was_operational(previous, current[i].id) {
            ids.push(current[i].id);
        }
        proof {
            assert(cv.take(i + 1).drop_last() =~= cv.take(i as int));
            assert(cv.take(i + 1).last() == cv[i as int]);
        }
        i += 1;
    }
    assert(cv.take(cv.len() as int) =~= cv);
    ids
}

/// How many robots are being repaired.
pub fn count_repairing(robots: &Vec<Robot>) -> (n: usize)
    ensures
        n == repairing_count_upto(models(robots@), robots@.len() as int),
{
    let ghost rv = models(robots@);
    let mut n: usize = 0;
    let mut i: usize = 0;
    while i < robots.len()
        invariant
            0 <= i <= robots@.len(),
            rv == models(robots@),
            n == repairing_count_upto(rv, i as int),
            n <= i,
        decreases robots@.len() - i,
    {
        match robots[i].status {
            RobotStatus::Repairing { .. } => {
                n += 1;
            },
            _ => {},
        }
        i += 1;
    }
    n
}

/// The failure events of a tick name exactly the robots that are failed
/// now and were operational before: an id is reported when some current
/// robot with it has failed and some previous robot with it was
/// operational, and only then.
pub proof fn lemma_newly_failed_ids(previous: Seq<RobotModel>, current: Seq<RobotModel>)
    ensures
        forall|id: u32|
            newly_failed_spec(previous, current).contains(id) <==> exists|i: int|
                0 <= i < current.len() && (#[trigger] current[i]).id == id && current[i].status == RobotStatus::Failed
                    && exists|j: int|
                    0 <= j < previous.len() && (#[trigger] previous[j]).id == id && previous[j].status
                        == RobotStatus::Operational,
    decreases current.len(),
{
    if current.len() > 0 {
        let init = current.drop_last();
        lemma_newly_failed_ids(previous, init);
        let rest = newly_failed_spec(previous, init);
        let last = current.last();
        assert(current[current.len() - 1] == last);
        assert forall|id: u32|
            newly_failed_spec(previous, current).contains(id) <==> exists|i: int|
                0 <= i < current.len() && (#[trigger] current[i]).id == id && current[i].status == RobotStatus::Failed
                    && exists|j: int|
                    0 <= j < previous.len() && (#[trigger] previous[j]).id == id && previous[j].status
                        == RobotStatus::Operational by {
            if exists|i: int|
                0 <= i < init.len() && (#[trigger] init[i]).id == id && init[i].status == RobotStatus::Failed && exists|j: int|
                    0 <= j < previous.len() && (#[trigger] previous[j]).id == id && previous[j].status
                        == RobotStatus::Operational {
                let i = choose|i: int|
                    0 <= i < init.len() && (#[trigger] init[i]).id == id && init[i].status == RobotStatus::Failed
                        && exists|j: int|
                        0 <= j < previous.len() && (#[trigger] previous[j]).id == id && previous[j].status
                            == RobotStatus::Operational;
                assert(current[i] == init[i]);
            }
            if exists|i: int|
                0 <= i < current.len() && (#[trigger] current[i]).id == id && current[i].status == RobotStatus::Failed
                    && exists|j: int|
                    0 <= j < previous.len() && (#[trigger] previous[j]).id == id && previous[j].status
                        == RobotStatus::Operational {
                let i = choose|i: int|
                    0 <= i < current.len() && (#[trigger] current[i]).id == id && current[i].status == RobotStatus::Failed
                        && exists|j: int|
                        0 <= j < previous.len() && (#[trigger] previous[j]).id == id && previous[j].status
                            == RobotStatus::Operational;
                if i < init.len() {
                    assert(init[i] == current[i]);
                }
            }
            if just_failed(previous, last) {
                assert(newly_failed_spec(previous, current) == rest.push(last.id));
                if rest.contains(id) {
                    let k = choose|k: int| 0 <= k < rest.len() && rest[k] == id;
                    assert(rest.push(last.id)[k] == id);
                }
                if rest.push(last.id).contains(id) && id != last.id {
                    let k = choose|k: int| 0 <= k < rest.push(last.id).len() && rest.push(last.id)[k] == id;
                    assert(rest[k] == id);
                }
                assert(rest.push(last.id)[rest.len() as int] == last.id);
            }
        }
    }
}

} // verus!
