//! Deltas: what changed for clients since the previous snapshot.
use vstd::prelude::*;
use crate::protocol::{
    view_models, ConveyorView, ProductView, RobotView, RobotViewModel, StationView, WireCellId, PROTOCOL_VERSION,
};

verus! {

/// The current items the client does not have yet, in order: those not
/// equal to any previous item.
pub open spec fn fresh_items<T>(cur: Seq<T>, prev: Seq<T>) -> Seq<T>
    decreases cur.len(),
{
    if cur.len() == 0 {
        Seq::empty()
    } else {
        let rest = fresh_items(cur.drop_last(), prev);
        if prev.contains(cur.last()) {
            rest
        } else {
            rest.push(cur.last())
        }
    }
}

/// The ids of previous robots that no current robot has, in order.
pub open spec fn removed_robot_ids(prev: Seq<RobotViewModel>, cur: Seq<RobotViewModel>) -> Seq<u32>
    decreases prev.len(),
{
    if prev.len() == 0 {
        Seq::empty()
    } else {
        let rest = removed_robot_ids(prev.drop_last(), cur);
        if exists|j: int| 0 <= j < cur.len() && (#[trigger] cur[j]).id == prev.last().id {
            rest
        } else {
            rest.push(prev.last().id)
        }
    }
}

/// The ids of previous products that no current product has, in order.
pub open spec fn removed_product_ids(prev: Seq<ProductView>, cur: Seq<ProductView>) -> Seq<u32>
    decreases prev.len(),
{
    if prev.len() == 0 {
        Seq::empty()
    } else {
        let rest = removed_product_ids(prev.drop_last(), cur);
        if exists|j: int| 0 <= j < cur.len() && (#[trigger] cur[j]).id == prev.last().id {
            rest
        } else {
            rest.push(prev.last().id)
        }
    }
}

/// What changed since the previous snapshot: the conveyor only if it
/// changed, the robots and products whose views changed or are new, the
/// ids of those that are gone, and every station.
pub struct Delta {
    pub v: u8,
    pub tick: u64,
    pub conveyor: Option<ConveyorView>,
    pub changed_robots: Vec<RobotView>,
    pub removed_robot_ids: Vec<u32>,
    pub stations: Vec<StationView>,
    pub changed_products: Vec<ProductView>,
    pub removed_product_ids: Vec<u32>,
}

/// The value of a delta.
pub struct DeltaModel {
    pub v: u8,
    pub tick: u64,
    pub conveyor: Option<ConveyorView>,
    pub changed_robots: Seq<RobotViewModel>,
    pub removed_robot_ids: Seq<u32>,
    pub stations: Seq<StationView>,
    pub changed_products: Seq<ProductView>,
    pub removed_product_ids: Seq<u32>,
}

impl View for Delta {
    type V = DeltaModel;

    open spec fn view(&self) -> DeltaModel {
        DeltaModel {
            v: self.v,
            tick: self.tick,
            conveyor: self.conveyor,
            changed_robots: view_models(self.changed_robots@),
            removed_robot_ids: self.removed_robot_ids@,
            stations: self.stations@,
            changed_products: self.changed_products@,
            removed_product_ids: self.removed_product_ids@,
        }
    }
}

/// The delta between a previous and a current snapshot.
pub open spec fn delta_spec(
    previous_conveyor: ConveyorView,
    previous_robots: Seq<RobotViewModel>,
    previous_products: Seq<ProductView>,
    current_tick: u64,
    current_conveyor: ConveyorView,
    current_robots: Seq<RobotViewModel>,
    current_stations: Seq<StationView>,
    current_products: Seq<ProductView>,
) -> DeltaModel {
    DeltaModel {
        v: PROTOCOL_VERSION,
        tick: current_tick,
        conveyor: if previous_conveyor == current_conveyor {
            None
        } else {
            Some(current_conveyor)
        },
        changed_robots: fresh_items(current_robots, previous_robots),
        removed_robot_ids: removed_robot_ids(previous_robots, current_robots),
        stations: current_stations,
        changed_products: fresh_items(current_products, previous_products),
        removed_product_ids: removed_product_ids(previous_products, current_products),
    }
}

fn same_robot_view(a: &RobotView, b: &RobotView) -> (r: bool)
    ensures
        r == (a@ == b@),
{
    if !(a.id == b.id && a.pos == b.pos && a.pose == b.pose && a.leg_cycle_step == b.leg_cycle_step && a.task
        == b.task && a.status == b.status && a.durability_twentieths == b.durability_twentieths && a.facing
        == b.facing && a.carrying == b.carrying && a.role == b.role && a.path.len() == b.path.len()) {
        return false;
    }
    let mut i: usize = 0;
    while i < a.path.len()
        invariant
            0 <= i <= a.path@.len(),
            a.path@.len() == b.path@.len(),
            forall|j: int| 0 <= j < i ==> a.path@[j] == b.path@[j],
        decreases a.path@.len() - i,
    {
        if a.path[i] != b.path[i] {
            return false;
        }
        i += 1;
    }
    assert(a.path@ =~= b.path@);
    true
}

/// An independent copy of a robot view.
pub fn copy_robot_view(v: &RobotView) -> (r: RobotView)
    ensures
        r@ == v@,
{
    let mut path: Vec<WireCellId> = Vec::new();
    let mut i: usize = 0;
    while i < v.path.len()
        invariant
            0 <= i <= v.path@.len(),
            path@ == v.path@.take(i as int),
        decreases v.path@.len() - i,
    {
        path.push(v.path[i]);
        assert(path@ =~= v.path@.take(i + 1));
        i += 1;
    }
    assert(path@ =~= v.path@);
    RobotView {
        id: v.id,
        pos: v.pos,
        pose: v.pose,
        leg_cycle_step: v.leg_cycle_step,
        task: v.task,
        status: v.status,
        durability_twentieths: v.durability_twentieths,
        path,
        facing: v.facing,
        carrying: v.carrying,
        role: v.role,
    }
}

fn has_robot_view(views: &Vec<RobotView>, v: &RobotView) -> (b: bool)
    ensures
        b == view_models(views@).contains(v@),
{
    let ghost vm = view_models(views@);
    let mut j: usize = 0;
    while j < views.len()
        invariant
            0 <= j <= views@.len(),
            vm == view_models(views@),
            forall|k: int| 0 <= k < j ==> vm[k] != v@,
        decreases views@.len() - j,
    {
        if same_robot_view(&views[j], v) {
            assert(vm[j as int] == v@);
            return true;
        }
        j += 1;
    }
    false
}

fn has_robot_id(views: &Vec<RobotView>, id: u32) -> (b: bool)
    ensures
        b == exists|j: int| 0 <= j < views@.len() && (#[trigger] view_models(views@)[j]).id == id,
{
    let ghost vm = view_models(views@);
    let mut j: usize = 0;
    while j < views.len()
        invariant
            0 <= j <= views@.len(),
            vm == view_models(views@),
            forall|k: int| 0 <= k < j ==> (#[trigger] vm[k]).id != id,
        decreases views@.len() - j,
    {
        if views[j].id == id {
            assert(vm[j as int].id == id);
            return true;
        }
        j += 1;
    }
    false
}

fn has_product_view(views: &Vec<ProductView>, v: ProductView) -> (b: bool)
    ensures
        b == views@.contains(v),
{
    let mut j: usize = 0;
    while j < views.len()
        invariant
            0 <= j <= views@.len(),
            forall|k: int| 0 <= k < j ==> views@[k] != v,
        decreases views@.len() - j,
    {
        if views[j] == v {
            assert(views@[j as int] == v);
            return true;
        }
        j += 1;
    }
    false
}

fn has_product_id(views: &Vec<ProductView>, id: u32) -> (b: bool)
    ensures
        b == exists|j: int| 0 <= j < views@.len() && (#[trigger] views@[j]).id == id,
{
    let mut j: usize = 0;
    while j < views.len()
        invariant
            0 <= j <= views@.len(),
            forall|k: int| 0 <= k < j ==> (#[trigger] views@[k]).id != id,
        decreases views@.len() - j,
    {
        if views[j].id == id {
            assert(views@[j as int].id == id);
            return true;
        }
        j += 1;
    }
    false
}

/// The delta from the previous snapshot to the current one; see
/// `delta_spec`.
pub fn compute_delta(
    previous_conveyor: ConveyorView,
    previous_robots: &Vec<RobotView>,
    previous_products: &Vec<ProductView>,
    current_tick: u64,
    current_conveyor: ConveyorView,
    current_robots: &Vec<RobotView>,
    current_stations: &Vec<StationView>,
    current_products: &Vec<ProductView>,
) -> (d: Delta)
    ensures
        d@ == delta_spec(
            previous_conveyor,
            view_models(previous_robots@),
            previous_products@,
            current_tick,
            current_conveyor,
            view_models(current_robots@),
            current_stations@,
            current_products@,
        ),
{
    let conveyor = if previous_conveyor == current_conveyor { None } else { Some(current_conveyor) };
    let ghost pr = view_models(previous_robots@);
    let ghost cr = view_models(current_robots@);

    let mut changed_robots: Vec<RobotView> = Vec::new();
    let mut i: usize = 0;
    while i < current_robots.len()
        invariant
            0 <= i <= current_robots@.len(),
            pr == view_models(previous_robots@),
            cr == view_models(current_robots@),
            view_models(changed_robots@) == fresh_items(cr.take(i as int), pr),
        decreases current_robots@.len() - i,
    {
        let ghost before = changed_robots@;
        if !has_robot_view(previous_robots, &current_robots[i]) {
            changed_robots.push(copy_robot_view(&current_robots[i]));
            proof {
                assert(view_models(changed_robots@) =~= view_models(before).push(cr[i as int]));
            }
        }
        proof {
            assert(cr.take(i + 1).drop_last() =~= cr.take(i as int));
        }
        i += 1;
    }
    assert(cr.take(cr.len() as int) =~= cr);

    let mut removed_robots: Vec<u32> = Vec::new();
    i = 0;
    while i < previous_robots.len()
        invariant
            0 <= i <= previous_robots@.len(),
            pr == view_models(previous_robots@),
            cr == view_models(current_robots@),
            removed_robots@ == removed_robot_ids(pr.take(i as int), cr),
        decreases previous_robots@.len() - i,
    {
        if !has_robot_id(current_robots, previous_robots[i].id) {
            removed_robots.push(previous_robots[i].id);
        }
        proof {
            assert(pr.take(i + 1).drop_last() =~= pr.take(i as int));
        }
        i += 1;
    }
    assert(pr.take(pr.len() as int) =~= pr);

    let mut changed_products: Vec<ProductView> = Vec::new();
    i = 0;
    while i < current_products.len()
        invariant
            0 <= i <= current_products@.len(),
            changed_products@ == fresh_items(current_products@.take(i as int), previous_products@),
        decreases current_products@.len() - i,
    {
        if !has_product_view(previous_products, current_products[i]) {
            changed_products.push(current_products[i]);
        }
        proof {
            assert(current_products@.take(i + 1).drop_last() =~= current_products@.take(i as int));
        }
        i += 1;
    }
    assert(current_products@.take(current_products@.len() as int) =~= current_products@);

    let mut removed_products: Vec<u32> = Vec::new();
    i = 0;
    while i < previous_products.len()
        invariant
            0 <= i <= previous_products@.len(),
            removed_products@ == removed_product_ids(previous_products@.take(i as int), current_products@),
        decreases previous_products@.len() - i,
    {
        if !has_product_id(current_products, previous_products[i].id) {
            removed_products.push(previous_products[i].id);
        }
        proof {
            assert(previous_products@.take(i + 1).drop_last() =~= previous_products@.take(i as int));
        }
        i += 1;
    }
    assert(previous_products@.take(previous_products@.len() as int) =~= previous_products@);

    let mut stations: Vec<StationView> = Vec::new();
    i = 0;
    while i < current_stations.len()
        invariant
            0 <= i <= current_stations@.len(),
            stations@ == current_stations@.take(i as int),
        decreases current_stations@.len() - i,
    {
        stations.push(current_stations[i]);
        assert(stations@ =~= current_stations@.take(i + 1));
        i += 1;
    }
    assert(stations@ =~= current_stations@);

    Delta {
        v: PROTOCOL_VERSION,
        tick: current_tick,
        conveyor,
        changed_robots,
        removed_robot_ids: removed_robots,
        stations,
        changed_products,
        removed_product_ids: removed_products,
    }
}

/// The fresh items are exactly the current items that were not there
/// before.
pub proof fn lemma_fresh_items<T>(cur: Seq<T>, prev: Seq<T>)
    ensures
        forall|x: T| fresh_items(cur, prev).contains(x) <==> cur.contains(x) && !prev.contains(x),
    decreases cur.len(),
{
    if cur.len() > 0 {
        lemma_fresh_items(cur.drop_last(), prev);
        let rest = fresh_items(cur.drop_last(), prev);
        assert forall|x: T| fresh_items(cur, prev).contains(x) <==> cur.contains(x) && !prev.contains(x) by {
            if cur.drop_last().contains(x) {
                let k = choose|k: int| 0 <= k < cur.drop_last().len() && cur.drop_last()[k] == x;
                assert(cur[k] == x);
            }
            if cur.contains(x) && x != cur.last() {
                let k = choose|k: int| 0 <= k < cur.len() && cur[k] == x;
                assert(cur.drop_last()[k] == x);
            }
            if !prev.contains(cur.last()) {
                assert(fresh_items(cur, prev) == rest.push(cur.last()));
                if rest.contains(x) {
                    let k = choose|k: int| 0 <= k < rest.len() && rest[k] == x;
                    assert(rest.push(cur.last())[k] == x);
                }
                if rest.push(cur.last()).contains(x) && x != cur.last() {
                    let k = choose|k: int| 0 <= k < rest.push(cur.last()).len() && rest.push(cur.last())[k] == x;
                    assert(rest[k] == x);
                }
                assert(rest.push(cur.last())[rest.len() as int] == cur.last());
            }
            assert(cur[cur.len() - 1] == cur.last());
        }
    }
}

/// A previous robot's id is reported removed exactly when no current
/// robot has it.
pub proof fn lemma_removed_robot_ids(prev: Seq<RobotViewModel>, cur: Seq<RobotViewModel>)
    ensures
        forall|id: u32|
            removed_robot_ids(prev, cur).contains(id) <==> (exists|p: int| 0 <= p < prev.len() && (#[trigger] prev[p]).id
                == id) && !(exists|c: int| 0 <= c < cur.len() && (#[trigger] cur[c]).id == id),
    decreases prev.len(),
{
    if prev.len() > 0 {
        let init = prev.drop_last();
        lemma_removed_robot_ids(init, cur);
        let rest = removed_robot_ids(init, cur);
        let last = prev.last();
        assert forall|id: u32|
            removed_robot_ids(prev, cur).contains(id) <==> (exists|p: int| 0 <= p < prev.len() && (#[trigger] prev[p]).id
                == id) && !(exists|c: int| 0 <= c < cur.len() && (#[trigger] cur[c]).id == id) by {
            if exists|p: int| 0 <= p < init.len() && (#[trigger] init[p]).id == id {
                let p = choose|p: int| 0 <= p < init.len() && (#[trigger] init[p]).id == id;
                assert(prev[p].id == id);
            }
            if exists|p: int| 0 <= p < prev.len() && (#[trigger] prev[p]).id == id {
                let p = choose|p: int| 0 <= p < prev.len() && (#[trigger] prev[p]).id == id;
                if p < init.len() {
                    assert(init[p].id == id);
                }
            }
            assert(prev[prev.len() - 1] == last);
            if !(exists|j: int| 0 <= j < cur.len() && (#[trigger] cur[j]).id == last.id) {
                if rest.contains(id) {
                    let k = choose|k: int| 0 <= k < rest.len() && rest[k] == id;
                    assert(rest.push(last.id)[k] == id);
                }
                if rest.push(last.id).contains(id) && id != last.id {
                    let k = choose|k: int| 0 <= k < rest.push(last.id).len() && rest.push(last.id)[k] == id;
                    assert(rest[k] == id);
                }
                assert(rest.push(last.id)[rest.len() as int] == last.id);
            }
        }
    }
}

/// A client that keeps its previous robot views, drops the removed ids
/// and takes the changed views knows every current view: each current
/// view was either known before or is sent, only current views are sent,
/// and exactly the ids that disappeared are reported removed.
pub proof fn lemma_delta_covers_robots(
    previous_conveyor: ConveyorView,
    previous_robots: Seq<RobotViewModel>,
    previous_products: Seq<ProductView>,
    current_tick: u64,
    current_conveyor: ConveyorView,
    current_robots: Seq<RobotViewModel>,
    current_stations: Seq<StationView>,
    current_products: Seq<ProductView>,
)
    ensures
        ({
            let d = delta_spec(
                previous_conveyor,
                previous_robots,
                previous_products,
                current_tick,
                current_conveyor,
                current_robots,
                current_stations,
                current_products,
            );
            &&& forall|v: RobotViewModel|
                d.changed_robots.contains(v) <==> current_robots.contains(v) && !previous_robots.contains(v)
            &&& forall|v: ProductView|
                d.changed_products.contains(v) <==> current_products.contains(v) && !previous_products.contains(v)
            &&& forall|id: u32|
                d.removed_robot_ids.contains(id) <==> (exists|p: int|
                    0 <= p < previous_robots.len() && (#[trigger] previous_robots[p]).id == id) && !(exists|c: int|
                    0 <= c < current_robots.len() && (#[trigger] current_robots[c]).id == id)
            &&& (d.conveyor is None <==> previous_conveyor == current_conveyor)
            &&& d.stations == current_stations
        }),
{
    lemma_fresh_items(current_robots, previous_robots);
    lemma_fresh_items(current_products, previous_products);
    lemma_removed_robot_ids(previous_robots, current_robots);
}

/// A previous product's id is reported removed exactly when no current
/// product has it.
pub proof fn lemma_removed_product_ids(prev: Seq<ProductView>, cur: Seq<ProductView>)
    ensures
        forall|id: u32|
            removed_product_ids(prev, cur).contains(id) <==> (exists|p: int| 0 <= p < prev.len() && (#[trigger] prev[p]).id
                == id) && !(exists|c: int| 0 <= c < cur.len() && (#[trigger] cur[c]).id == id),
    decreases prev.len(),
{
    if prev.len() > 0 {
        let init = prev.drop_last();
        lemma_removed_product_ids(init, cur);
        let rest = removed_product_ids(init, cur);
        let last = prev.last();
        assert forall|id: u32|
            removed_product_ids(prev, cur).contains(id) <==> (exists|p: int| 0 <= p < prev.len() && (#[trigger] prev[p]).id
                == id) && !(exists|c: int| 0 <= c < cur.len() && (#[trigger] cur[c]).id == id) by {
            if exists|p: int| 0 <= p < init.len() && (#[trigger] init[p]).id == id {
                let p = choose|p: int| 0 <= p < init.len() && (#[trigger] init[p]).id == id;
                assert(prev[p].id == id);
            }
            if exists|p: int| 0 <= p < prev.len() && (#[trigger] prev[p]).id == id {
                let p = choose|p: int| 0 <= p < prev.len() && (#[trigger] prev[p]).id == id;
                if p < init.len() {
                    assert(init[p].id == id);
                }
            }
            assert(prev[prev.len() - 1] == last);
            if !(exists|j: int| 0 <= j < cur.len() && (#[trigger] cur[j]).id == last.id) {
                if rest.contains(id) {
                    let k = choose|k: int| 0 <= k < rest.len() && rest[k] == id;
                    assert(rest.push(last.id)[k] == id);
                }
                if rest.push(last.id).contains(id) && id != last.id {
                    let k = choose|k: int| 0 <= k < rest.push(last.id).len() && rest.push(last.id)[k] == id;
                    assert(rest[k] == id);
                }
                assert(rest.push(last.id)[rest.len() as int] == last.id);
            }
        }
    }
}

/// Some item of `s` has key `k`.
pub open spec fn has_key<T>(s: Seq<T>, key: spec_fn(T) -> u32, k: u32) -> bool {
    exists|i: int| 0 <= i < s.len() && key(#[trigger] s[i]) == k
}

/// No two items of `s` share a key.
pub open spec fn unique_keys<T>(s: Seq<T>, key: spec_fn(T) -> u32) -> bool {
    forall|i: int, j: int| 0 <= i < j < s.len() ==> key(#[trigger] s[i]) != key(#[trigger] s[j])
}

/// The items of `s` by their key.
pub open spec fn keyed<T>(s: Seq<T>, key: spec_fn(T) -> u32) -> Map<u32, T> {
    Map::new(|k: u32| has_key(s, key, k), |k: u32| s[choose|i: int| 0 <= i < s.len() && key(s[i]) == k])
}

/// What a client that held `held` holds after a delta: its items without
/// the removed keys, then each changed item under its key.
pub open spec fn apply_changes<T>(held: Map<u32, T>, changed: Seq<T>, removed: Seq<u32>, key: spec_fn(T) -> u32) -> Map<
    u32,
    T,
> {
    held.remove_keys(removed.to_set()).union_prefer_right(keyed(changed, key))
}

/// A robot view's key.
pub open spec fn robot_key() -> spec_fn(RobotViewModel) -> u32 {
    |v: RobotViewModel| v.id
}

/// A product view's key.
pub open spec fn product_key() -> spec_fn(ProductView) -> u32 {
    |v: ProductView| v.id
}

/// With unique keys, the item of `s` under the key of `s[i]` is `s[i]`.
proof fn lemma_keyed_at<T>(s: Seq<T>, key: spec_fn(T) -> u32, i: int)
    requires
        unique_keys(s, key),
        0 <= i < s.len(),
    ensures
        keyed(s, key).contains_key(key(s[i])),
        keyed(s, key)[key(s[i])] == s[i],
{
    assert(has_key(s, key, key(s[i])));
    let j = choose|j: int| 0 <= j < s.len() && key(s[j]) == key(s[i]);
    if j != i {
        if j < i {
            assert(key(s[j]) != key(s[i]));
        } else {
            assert(key(s[i]) != key(s[j]));
        }
    }
}

/// Keeping the previous items, dropping the removed keys and taking the
/// fresh items rebuilds the current items, when keys do not repeat.
proof fn lemma_apply_fresh<T>(prev: Seq<T>, cur: Seq<T>, removed: Seq<u32>, key: spec_fn(T) -> u32)
    requires
        unique_keys(prev, key),
        unique_keys(cur, key),
        forall|k: u32| removed.contains(k) <==> has_key(prev, key, k) && !has_key(cur, key, k),
    ensures
        apply_changes(keyed(prev, key), fresh_items(cur, prev), removed, key) == keyed(cur, key),
{
    lemma_fresh_items(cur, prev);
    let f = fresh_items(cur, prev);
    let held = keyed(prev, key);
    let lhs = apply_changes(held, f, removed, key);
    let rhs = keyed(cur, key);
    // Every fresh item is the current item under its key.
    assert forall|i: int| 0 <= i < f.len() implies has_key(cur, key, key(f[i])) && rhs[key(f[i])] == f[i]
        && !prev.contains(f[i]) by {
        assert(f.contains(f[i]));
        assert(cur.contains(f[i]) && !prev.contains(f[i]));
        let c = choose|c: int| 0 <= c < cur.len() && cur[c] == f[i];
        lemma_keyed_at(cur, key, c);
    }
    assert forall|k: u32| lhs.contains_key(k) <==> rhs.contains_key(k) by {
        if has_key(f, key, k) {
            let i = choose|i: int| 0 <= i < f.len() && key(#[trigger] f[i]) == k;
            assert(has_key(cur, key, key(f[i])));
        }
        if has_key(cur, key, k) {
            let c = choose|c: int| 0 <= c < cur.len() && key(#[trigger] cur[c]) == k;
            lemma_keyed_at(cur, key, c);
            if prev.contains(cur[c]) {
                let p = choose|p: int| 0 <= p < prev.len() && prev[p] == cur[c];
                assert(has_key(prev, key, k));
            } else {
                assert(f.contains(cur[c]));
                let i = choose|i: int| 0 <= i < f.len() && f[i] == cur[c];
                assert(has_key(f, key, k));
            }
        }
    }
    assert forall|k: u32| rhs.contains_key(k) implies lhs[k] == rhs[k] by {
        let c = choose|c: int| 0 <= c < cur.len() && key(#[trigger] cur[c]) == k;
        lemma_keyed_at(cur, key, c);
        if has_key(f, key, k) {
            let i = choose|i: int| 0 <= i < f.len() && key(f[i]) == k;
            assert(rhs[key(f[i])] == f[i]);
        } else {
            assert(!f.contains(cur[c])) by {
                if f.contains(cur[c]) {
                    let i = choose|i: int| 0 <= i < f.len() && f[i] == cur[c];
                    assert(has_key(f, key, k));
                }
            }
            assert(cur.contains(cur[c]));
            assert(prev.contains(cur[c]));
            let p = choose|p: int| 0 <= p < prev.len() && prev[p] == cur[c];
            lemma_keyed_at(prev, key, p);
            assert(has_key(cur, key, k));
            assert(!removed.to_set().contains(k));
        }
    }
    assert(lhs =~= rhs);
}

/// A client that held the previous views by id and applies the delta
/// (drops the removed ids, then takes each changed view under its id)
/// holds exactly the current views by id, for robots and for products,
/// as long as ids do not repeat within a snapshot.
pub proof fn lemma_delta_rebuilds_snapshot(
    previous_conveyor: ConveyorView,
    previous_robots: Seq<RobotViewModel>,
    previous_products: Seq<ProductView>,
    current_tick: u64,
    current_conveyor: ConveyorView,
    current_robots: Seq<RobotViewModel>,
    current_stations: Seq<StationView>,
    current_products: Seq<ProductView>,
)
    requires
        unique_keys(previous_robots, robot_key()),
        unique_keys(current_robots, robot_key()),
        unique_keys(previous_products, product_key()),
        unique_keys(current_products, product_key()),
    ensures
        ({
            let d = delta_spec(
                previous_conveyor,
                previous_robots,
                previous_products,
                current_tick,
                current_conveyor,
                current_robots,
                current_stations,
                current_products,
            );
            &&& apply_changes(keyed(previous_robots, robot_key()), d.changed_robots, d.removed_robot_ids, robot_key())
                == keyed(current_robots, robot_key())
            &&& apply_changes(
                keyed(previous_products, product_key()),
                d.changed_products,
                d.removed_product_ids,
                product_key(),
            ) == keyed(current_products, product_key())
            &&& (match d.conveyor {
                Some(c) => c,
                None => previous_conveyor,
            }) == current_conveyor
        }),
{
    lemma_removed_robot_ids(previous_robots, current_robots);
    lemma_removed_product_ids(previous_products, current_products);
    let rk = robot_key();
    let pk = product_key();
    assert forall|k: u32|
        removed_robot_ids(previous_robots, current_robots).contains(k) <==> has_key(previous_robots, rk, k) && !has_key(
            current_robots,
            rk,
            k,
        ) by {
        if has_key(previous_robots, rk, k) {
            let p = choose|p: int| 0 <= p < previous_robots.len() && rk(#[trigger] previous_robots[p]) == k;
            assert(previous_robots[p].id == k);
        }
        if exists|p: int| 0 <= p < previous_robots.len() && (#[trigger] previous_robots[p]).id == k {
            let p = choose|p: int| 0 <= p < previous_robots.len() && (#[trigger] previous_robots[p]).id == k;
            assert(rk(previous_robots[p]) == k);
        }
        if has_key(current_robots, rk, k) {
            let c = choose|c: int| 0 <= c < current_robots.len() && rk(#[trigger] current_robots[c]) == k;
            assert(current_robots[c].id == k);
        }
        if exists|c: int| 0 <= c < current_robots.len() && (#[trigger] current_robots[c]).id == k {
            let c = choose|c: int| 0 <= c < current_robots.len() && (#[trigger] current_robots[c]).id == k;
            assert(rk(current_robots[c]) == k);
        }
    }
    assert forall|k: u32|
        removed_product_ids(previous_products, current_products).contains(k) <==> has_key(previous_products, pk, k)
            && !has_key(current_products, pk, k) by {
        if has_key(previous_products, pk, k) {
            let p = choose|p: int| 0 <= p < previous_products.len() && pk(#[trigger] previous_products[p]) == k;
            assert(previous_products[p].id == k);
        }
        if exists|p: int| 0 <= p < previous_products.len() && (#[trigger] previous_products[p]).id == k {
            let p = choose|p: int| 0 <= p < previous_products.len() && (#[trigger] previous_products[p]).id == k;
            assert(pk(previous_products[p]) == k);
        }
        if has_key(current_products, pk, k) {
            let c = choose|c: int| 0 <= c < current_products.len() && pk(#[trigger] current_products[c]) == k;
            assert(current_products[c].id == k);
        }
        if exists|c: int| 0 <= c < current_products.len() && (#[trigger] current_products[c]).id == k {
            let c = choose|c: int| 0 <= c < current_products.len() && (#[trigger] current_products[c]).id == k;
            assert(pk(current_products[c]) == k);
        }
    }
    lemma_apply_fresh(previous_robots, current_robots, removed_robot_ids(previous_robots, current_robots), rk);
    lemma_apply_fresh(
        previous_products,
        current_products,
        removed_product_ids(previous_products, current_products),
        pk,
    );
}

} // verus!
