//! The order in which a tick's production is summed.
use vstd::prelude::*;
use crate::sim::{models, Robot, RobotModel};

verus! {

/// The ids of the robots, in order.
pub open spec fn robot_ids(robots: Seq<RobotModel>) -> Seq<u32> {
    robots.map_values(|r: RobotModel| r.id)
}

/// The ids are in ascending order.
pub open spec fn ascending(s: Seq<u32>) -> bool {
    forall|i: int, j: int| 0 <= i < j < s.len() ==> s[i] <= s[j]
}

/// The robots' ids in ascending order, each as often as it occurs: the
/// order in which a tick's production is summed, so that the sum comes out
/// the same whatever order the robots are in.
pub fn ids_ascending(robots: &Vec<Robot>) -> (ids: Vec<u32>)
    ensures
        ascending(ids@),
        ids@.to_multiset() == robot_ids(models(robots@)).to_multiset(),
{
    broadcast use vstd::seq_lib::group_to_multiset_ensures;

    let ghost all = robot_ids(models(robots@));
    let mut ids: Vec<u32> = Vec::new();
    let mut i: usize = 0;
    while i < robots.len()
        invariant
            0 <= i <= robots@.len(),
            all == robot_ids(models(robots@)),
            ascending(ids@),
            ids@.to_multiset() == all.take(i as int).to_multiset(),
        decreases robots@.len() - i,
    {
        let x = robots[i].id;
        let mut j: usize = 0;
        while j < ids.len() && ids[j] <= x
            invariant
                0 <= j <= ids@.len(),
                ascending(ids@),
                forall|k: int| 0 <= k < j ==> ids@[k] <= x,
            decreases ids@.len() - j,
        {
            j += 1;
        }
        let ghost before = ids@;
        proof {
            assert forall|k: int| j <= k < before.len() implies x < before[k] by {
                assert(x < before[j as int]);
            }
        }
        ids.insert(j, x);
        proof {
            assert forall|a: int, b: int| 0 <= a < b < ids@.len() implies ids@[a] <= ids@[b] by {
                if a < j && b < j {
                    assert(ids@[a] == before[a] && ids@[b] == before[b]);
                } else if a < j && b == j {
                    assert(ids@[a] == before[a]);
                } else if a < j {
                    assert(ids@[a] == before[a] && ids@[b] == before[b - 1]);
                } else if a == j {
                    assert(ids@[b] == before[b - 1]);
                } else {
                    assert(ids@[a] == before[a - 1] && ids@[b] == before[b - 1]);
                }
            }
            assert(all.take(i + 1) =~= all.take(i as int).push(all[i as int]));
            assert(all[i as int] == x);
            assert(ids@ == before.insert(j as int, x));
            vstd::seq_lib::to_multiset_insert(before, j as int, x);
            vstd::seq_lib::to_multiset_build(all.take(i as int), x);
        }
        i += 1;
    }
    assert(all.take(robots@.len() as int) =~= all);
    ids
}

} // verus!
