//! Shortest paths on the grid, routed around walls and around cells that
//! other robots occupy.
//!
//! The search runs breadth-first outward from the goal, layer by layer,
//! until a layer touches the start; the path then descends the layers from
//! the start back to the goal, always taking the first direction (in the
//! order +x, -x, +y, -y) that keeps it on a shortest route. The result is
//! therefore a function of its inputs alone.
use vstd::prelude::*;
use crate::cells::{CellId, CellLevels, CellSet, same_cell};
use crate::grid::{Grid, GridModel, adjacent, shift};

verus! {

/// A cell that a path to `goal` may step onto: walkable, and not blocked
/// unless it is the goal itself (whose occupant may move away).
pub open spec fn allowed(g: GridModel, blocked: Set<CellId>, goal: CellId, c: CellId) -> bool {
    g.walkable_spec(c) && (c == goal || !blocked.contains(c))
}

/// From `c`, the goal can be reached in at most `k` steps over allowed
/// cells (with `c` itself allowed, or `c` the walkable goal).
pub open spec fn within(g: GridModel, blocked: Set<CellId>, goal: CellId, c: CellId, k: nat) -> bool
    decreases k, 0nat,
{
    if k == 0 {
        c == goal && g.walkable_spec(goal)
    } else {
        within(g, blocked, goal, c, (k - 1) as nat) || (allowed(g, blocked, goal, c) && (within_dir(
            g,
            blocked,
            goal,
            c,
            0,
            (k - 1) as nat,
        ) || within_dir(g, blocked, goal, c, 1, (k - 1) as nat) || within_dir(
            g,
            blocked,
            goal,
            c,
            2,
            (k - 1) as nat,
        ) || within_dir(g, blocked, goal, c, 3, (k - 1) as nat)))
    }
}

/// The shift of `c` in direction `i` exists and is `within` `k` steps of the goal.
pub open spec fn within_dir(g: GridModel, blocked: Set<CellId>, goal: CellId, c: CellId, i: int, k: nat) -> bool
    decreases k, 1nat,
{
    match shift(c, i) {
        Some(n) => within(g, blocked, goal, n, k),
        None => false,
    }
}

/// Some neighbour of `start` is within `k` steps of the goal.
pub open spec fn near(g: GridModel, blocked: Set<CellId>, goal: CellId, start: CellId, k: nat) -> bool {
    within_dir(g, blocked, goal, start, 0, k) || within_dir(g, blocked, goal, start, 1, k) || within_dir(
        g,
        blocked,
        goal,
        start,
        2,
        k,
    ) || within_dir(g, blocked, goal, start, 3, k)
}

/// The first direction from `c` whose cell is within `m` steps of the goal (4 if none).
pub open spec fn first_dir(g: GridModel, blocked: Set<CellId>, goal: CellId, c: CellId, m: nat) -> int {
    if within_dir(g, blocked, goal, c, 0, m) {
        0
    } else if within_dir(g, blocked, goal, c, 1, m) {
        1
    } else if within_dir(g, blocked, goal, c, 2, m) {
        2
    } else if within_dir(g, blocked, goal, c, 3, m) {
        3
    } else {
        4
    }
}

/// The canonical `k`-step descent from `c` towards the goal: each step goes
/// to the first neighbour that is still within the remaining distance.
pub open spec fn descend(g: GridModel, blocked: Set<CellId>, goal: CellId, c: CellId, k: nat) -> Seq<CellId>
    decreases k,
{
    if k == 0 {
        Seq::empty()
    } else {
        let i = first_dir(g, blocked, goal, c, (k - 1) as nat);
        if i < 4 {
            let n = shift(c, i).unwrap();
            seq![n] + descend(g, blocked, goal, n, (k - 1) as nat)
        } else {
            Seq::empty()
        }
    }
}

/// The smallest `j` with `near(.., start, j)`.
pub open spec fn start_level(g: GridModel, blocked: Set<CellId>, goal: CellId, start: CellId) -> nat {
    choose|j: nat| near(g, blocked, goal, start, j) && forall|i: nat| i < j ==> !near(g, blocked, goal, start, i)
}

/// The path `find_path` returns: empty when already at the goal, the
/// canonical shortest descent when the goal is reachable, nothing otherwise.
pub open spec fn find_path_spec(g: GridModel, start: CellId, goal: CellId, blocked: Set<CellId>) -> Option<Seq<CellId>> {
    if start == goal {
        Some(Seq::empty())
    } else if exists|j: nat| near(g, blocked, goal, start, j) {
        Some(descend(g, blocked, goal, start, start_level(g, blocked, goal, start) + 1))
    } else {
        None
    }
}

/// `path` leads from `start` (excluded) to `goal` (included) one orthogonal
/// step at a time, over allowed cells.
pub open spec fn valid_path(g: GridModel, blocked: Set<CellId>, start: CellId, goal: CellId, path: Seq<CellId>) -> bool {
    &&& (path.len() == 0 ==> start == goal)
    &&& (path.len() > 0 ==> path.last() == goal && adjacent(start, path[0]))
    &&& forall|i: int| 0 <= i < path.len() ==> allowed(g, blocked, goal, #[trigger] path[i])
    &&& forall|i: int| 0 <= i < path.len() - 1 ==> adjacent(#[trigger] path[i], path[i + 1])
}

/// The direction opposite to `i`.
pub open spec fn opposite(i: int) -> int {
    if i == 0 {
        1
    } else if i == 1 {
        0
    } else if i == 2 {
        3
    } else {
        2
    }
}

proof fn lemma_shift_opposite(c: CellId, i: int)
    requires
        0 <= i < 4,
        shift(c, i) is Some,
    ensures
        shift(shift(c, i).unwrap(), opposite(i)) == Some(c),
{
}

/// `within` only holds of allowed cells.
pub proof fn lemma_within_allowed(g: GridModel, blocked: Set<CellId>, goal: CellId, c: CellId, k: nat)
    requires
        within(g, blocked, goal, c, k),
    ensures
        allowed(g, blocked, goal, c),
    decreases k,
{
    if k > 0 && within(g, blocked, goal, c, (k - 1) as nat) {
        lemma_within_allowed(g, blocked, goal, c, (k - 1) as nat);
    }
}

/// `within` grows with the step bound.
pub proof fn lemma_within_mono(g: GridModel, blocked: Set<CellId>, goal: CellId, c: CellId, a: nat, b: nat)
    requires
        a <= b,
        within(g, blocked, goal, c, a),
    ensures
        within(g, blocked, goal, c, b),
    decreases b - a,
{
    if a < b {
        lemma_within_mono(g, blocked, goal, c, a, (b - 1) as nat);
    }
}

/// Without the walkable goal, nothing is within reach.
proof fn lemma_within_needs_goal(g: GridModel, blocked: Set<CellId>, goal: CellId, c: CellId, k: nat)
    requires
        !g.walkable_spec(goal),
    ensures
        !within(g, blocked, goal, c, k),
    decreases k, 0nat,
{
    if k > 0 {
        lemma_within_needs_goal(g, blocked, goal, c, (k - 1) as nat);
        if let Some(n) = shift(c, 0) {
            lemma_within_needs_goal(g, blocked, goal, n, (k - 1) as nat);
        }
        if let Some(n) = shift(c, 1) {
            lemma_within_needs_goal(g, blocked, goal, n, (k - 1) as nat);
        }
        if let Some(n) = shift(c, 2) {
            lemma_within_needs_goal(g, blocked, goal, n, (k - 1) as nat);
        }
        if let Some(n) = shift(c, 3) {
            lemma_within_needs_goal(g, blocked, goal, n, (k - 1) as nat);
        }
        assert(!within_dir(g, blocked, goal, c, 0, (k - 1) as nat));
        assert(!within_dir(g, blocked, goal, c, 1, (k - 1) as nat));
        assert(!within_dir(g, blocked, goal, c, 2, (k - 1) as nat));
        assert(!within_dir(g, blocked, goal, c, 3, (k - 1) as nat));
    }
}

/// A cell that enters reach at step `k + 1` has a neighbour that entered at step `k`.
proof fn lemma_new_in_layer(g: GridModel, blocked: Set<CellId>, goal: CellId, c: CellId, k: nat) -> (i: int)
    requires
        within(g, blocked, goal, c, k + 1),
        !within(g, blocked, goal, c, k),
    ensures
        0 <= i < 4,
        allowed(g, blocked, goal, c),
        shift(c, i) is Some,
        within(g, blocked, goal, shift(c, i).unwrap(), k),
        k > 0 ==> !within(g, blocked, goal, shift(c, i).unwrap(), (k - 1) as nat),
{
    let i = first_dir(g, blocked, goal, c, k);
    assert(0 <= i < 4);
    let n = shift(c, i).unwrap();
    if k > 0 && within(g, blocked, goal, n, (k - 1) as nat) {
        assert(within_dir(g, blocked, goal, c, i, (k - 1) as nat));
        assert(within(g, blocked, goal, c, k));
    }
    i
}

/// When layer `k` is empty, nothing new ever comes within reach.
proof fn lemma_fixpoint(g: GridModel, blocked: Set<CellId>, goal: CellId, k: nat, j: nat, c: CellId)
    requires
        k <= j,
        forall|d: CellId| #[trigger] within(g, blocked, goal, d, k) ==> (k > 0 && within(g, blocked, goal, d, (k - 1) as nat)),
    ensures
        within(g, blocked, goal, c, j) == within(g, blocked, goal, c, k),
    decreases j, 0nat,
{
    if j > k {
        lemma_fixpoint(g, blocked, goal, k, (j - 1) as nat, c);
        if within(g, blocked, goal, c, j) && !within(g, blocked, goal, c, (j - 1) as nat) {
            let i = lemma_new_in_layer(g, blocked, goal, c, (j - 1) as nat);
            let n = shift(c, i).unwrap();
            lemma_fixpoint(g, blocked, goal, k, (j - 1) as nat, n);
            if j - 1 > k {
                lemma_fixpoint(g, blocked, goal, k, (j - 2) as nat, n);
            }
        }
        if within(g, blocked, goal, c, k) {
            lemma_within_mono(g, blocked, goal, c, k, j);
        }
    }
}

/// `c` is within exactly `l` steps of the goal and no fewer.
pub open spec fn exact_level(g: GridModel, blocked: Set<CellId>, goal: CellId, c: CellId, l: nat) -> bool {
    within(g, blocked, goal, c, l) && (l == 0 || !within(g, blocked, goal, c, (l - 1) as nat))
}

/// The descent from a cell at exact level `m` is a valid path of `m` steps.
proof fn lemma_descend_valid(g: GridModel, blocked: Set<CellId>, goal: CellId, c: CellId, m: nat)
    requires
        exact_level(g, blocked, goal, c, m),
    ensures
        descend(g, blocked, goal, c, m).len() == m,
        m > 0 ==> valid_path(g, blocked, c, goal, descend(g, blocked, goal, c, m)),
        m == 0 ==> c == goal,
    decreases m,
{
    if m > 0 {
        let i = first_dir(g, blocked, goal, c, (m - 1) as nat);
        assert(0 <= i < 4);
        let n = shift(c, i).unwrap();
        assert(within(g, blocked, goal, n, (m - 1) as nat));
        if m > 1 && within(g, blocked, goal, n, (m - 2) as nat) {
            assert(within_dir(g, blocked, goal, c, i, (m - 2) as nat));
            assert(within(g, blocked, goal, c, (m - 1) as nat));
        }
        lemma_descend_valid(g, blocked, goal, n, (m - 1) as nat);
        lemma_within_allowed(g, blocked, goal, n, (m - 1) as nat);
        crate::grid::lemma_shift_adjacent(c, n);
        let rest = descend(g, blocked, goal, n, (m - 1) as nat);
        let p = descend(g, blocked, goal, c, m);
        assert(p == seq![n] + rest);
        assert forall|k: int| 0 <= k < p.len() implies allowed(g, blocked, goal, #[trigger] p[k]) by {
            if k > 0 {
                assert(p[k] == rest[k - 1]);
            }
        }
        assert forall|k: int| 0 <= k < p.len() - 1 implies adjacent(#[trigger] p[k], p[k + 1]) by {
            if k > 0 {
                assert(p[k] == rest[k - 1]);
                assert(p[k + 1] == rest[k]);
            } else if m > 1 {
                assert(p[1] == rest[0]);
            }
        }
    }
}

/// A valid path of `len` steps puts each of its cells within the remaining
/// number of steps of the goal.
proof fn lemma_valid_path_within(g: GridModel, blocked: Set<CellId>, start: CellId, goal: CellId, path: Seq<CellId>, i: int)
    requires
        valid_path(g, blocked, start, goal, path),
        0 <= i < path.len(),
    ensures
        within(g, blocked, goal, path[i], (path.len() - 1 - i) as nat),
    decreases path.len() - i,
{
    if i == path.len() - 1 {
        assert(allowed(g, blocked, goal, path[i]));
    } else {
        lemma_valid_path_within(g, blocked, start, goal, path, i + 1);
        let c = path[i];
        let n = path[i + 1];
        assert(adjacent(c, n));
        crate::grid::lemma_shift_adjacent(c, n);
        let d = choose|d: int| 0 <= d < 4 && #[trigger] shift(c, d) == Some(n);
        let r = (path.len() - 2 - i) as nat;
        assert(within_dir(g, blocked, goal, c, d, r));
        assert(allowed(g, blocked, goal, c));
        assert(within(g, blocked, goal, c, r + 1));
    }
}

/// A valid path of `len` steps from `start` means `start` is near at `len - 1`.
proof fn lemma_valid_path_near(g: GridModel, blocked: Set<CellId>, start: CellId, goal: CellId, path: Seq<CellId>)
    requires
        valid_path(g, blocked, start, goal, path),
        path.len() > 0,
    ensures
        near(g, blocked, goal, start, (path.len() - 1) as nat),
{
    lemma_valid_path_within(g, blocked, start, goal, path, 0);
    crate::grid::lemma_shift_adjacent(start, path[0]);
    let d = choose|d: int| 0 <= d < 4 && #[trigger] shift(start, d) == Some(path[0]);
    assert(within_dir(g, blocked, goal, start, d, (path.len() - 1) as nat));
}

/// The least `near` level exists whenever some level is near.
proof fn lemma_start_level(g: GridModel, blocked: Set<CellId>, goal: CellId, start: CellId, j: nat)
    requires
        near(g, blocked, goal, start, j),
    ensures
        near(g, blocked, goal, start, start_level(g, blocked, goal, start)),
        forall|i: nat| i < start_level(g, blocked, goal, start) ==> !near(g, blocked, goal, start, i),
        start_level(g, blocked, goal, start) <= j,
    decreases j,
{
    if exists|i: nat| i < j && near(g, blocked, goal, start, i) {
        let i = choose|i: nat| i < j && near(g, blocked, goal, start, i);
        lemma_start_level(g, blocked, goal, start, i);
    } else {
        assert(near(g, blocked, goal, start, j) && forall|i: nat| i < j ==> !near(g, blocked, goal, start, i));
        let l = start_level(g, blocked, goal, start);
        if l < j {
            assert(!near(g, blocked, goal, start, l));
        }
        if l > j {
            assert(!near(g, blocked, goal, start, j));
        }
    }
}

/// Law: the path that `find_path` returns is a valid path from `start` to
/// `goal` over walkable cells that avoids blocked cells other than the goal.
pub proof fn lemma_find_path_valid(g: GridModel, start: CellId, goal: CellId, blocked: Set<CellId>, path: Seq<CellId>)
    requires
        find_path_spec(g, start, goal, blocked) == Some(path),
    ensures
        valid_path(g, blocked, start, goal, path),
{
    if start != goal {
        let j = choose|j: nat| near(g, blocked, goal, start, j);
        lemma_start_level(g, blocked, goal, start, j);
        let l = start_level(g, blocked, goal, start);
        let i = first_dir(g, blocked, goal, start, l);
        assert(0 <= i < 4);
        let n = shift(start, i).unwrap();
        assert(within_dir(g, blocked, goal, start, i, l));
        assert(within(g, blocked, goal, n, l));
        if l > 0 && within(g, blocked, goal, n, (l - 1) as nat) {
            assert(within_dir(g, blocked, goal, start, i, (l - 1) as nat));
            assert(near(g, blocked, goal, start, (l - 1) as nat));
            assert(false);
        }
        assert(exact_level(g, blocked, goal, n, l));
        lemma_descend_valid(g, blocked, goal, n, l);
        lemma_within_allowed(g, blocked, goal, n, l);
        crate::grid::lemma_shift_adjacent(start, n);
        let rest = descend(g, blocked, goal, n, l);
        assert(path == seq![n] + rest);
        assert forall|k: int| 0 <= k < path.len() implies allowed(g, blocked, goal, #[trigger] path[k]) by {
            if k > 0 {
                assert(path[k] == rest[k - 1]);
            }
        }
        assert forall|k: int| 0 <= k < path.len() - 1 implies adjacent(#[trigger] path[k], path[k + 1]) by {
            if k > 0 {
                assert(path[k] == rest[k - 1]);
                assert(path[k + 1] == rest[k]);
            } else {
                assert(path[1] == rest[0]);
            }
        }
    }
}

/// Law: no valid path from `start` to `goal` is shorter than the one
/// `find_path` returns.
pub proof fn lemma_find_path_shortest(
    g: GridModel,
    start: CellId,
    goal: CellId,
    blocked: Set<CellId>,
    path: Seq<CellId>,
    other: Seq<CellId>,
)
    requires
        find_path_spec(g, start, goal, blocked) == Some(path),
        valid_path(g, blocked, start, goal, other),
    ensures
        path.len() <= other.len(),
{
    if start != goal {
        lemma_valid_path_near(g, blocked, start, goal, other);
        lemma_start_level(g, blocked, goal, start, (other.len() - 1) as nat);
        let l = start_level(g, blocked, goal, start);
        let i = first_dir(g, blocked, goal, start, l);
        let n = shift(start, i).unwrap();
        assert(within_dir(g, blocked, goal, start, i, l));
        assert(within(g, blocked, goal, n, l));
        if l > 0 && within(g, blocked, goal, n, (l - 1) as nat) {
            assert(within_dir(g, blocked, goal, start, i, (l - 1) as nat));
            assert(near(g, blocked, goal, start, (l - 1) as nat));
            assert(false);
        }
        assert(exact_level(g, blocked, goal, n, l));
        lemma_descend_valid(g, blocked, goal, n, l);
    }
}

/// Law: `find_path` finds a path whenever some valid path exists.
pub proof fn lemma_find_path_complete(g: GridModel, start: CellId, goal: CellId, blocked: Set<CellId>, other: Seq<CellId>)
    requires
        valid_path(g, blocked, start, goal, other),
    ensures
        find_path_spec(g, start, goal, blocked) is Some,
{
    if start != goal {
        lemma_valid_path_near(g, blocked, start, goal, other);
    }
}


/// Some cell of `frontier` shifts onto `c`.
pub open spec fn touched(frontier: Seq<CellId>, c: CellId) -> bool {
    exists|j: int, e: int| 0 <= j < frontier.len() && 0 <= e < 4 && #[trigger] shift(frontier[j], e) == Some(c)
}

/// `touched`, restricted to the first `fi` frontier cells plus the first
/// `d` directions of cell `fi`.
pub open spec fn touched_upto(frontier: Seq<CellId>, fi: int, d: int, c: CellId) -> bool {
    (exists|j: int, e: int| 0 <= j < fi && 0 <= e < 4 && #[trigger] shift(frontier[j], e) == Some(c)) || (0 <= fi
        < frontier.len() && exists|e: int| 0 <= e < d && #[trigger] shift(frontier[fi], e) == Some(c))
}

/// Every cell of `levels` is within reach exactly at its recorded level, and
/// the cells within `k` steps are exactly the recorded ones.
pub open spec fn levels_inv(g: GridModel, blocked: Set<CellId>, goal: CellId, levels: Map<CellId, u64>, k: nat) -> bool {
    &&& forall|c: CellId| #[trigger] levels.contains_key(c) <==> within(g, blocked, goal, c, k)
    &&& forall|c: CellId| levels.contains_key(c) ==> exact_level(g, blocked, goal, c, #[trigger] levels[c] as nat)
}

/// `levels_inv`, with `frontier` holding exactly the cells of level `k`.
pub open spec fn layer_inv(
    g: GridModel,
    blocked: Set<CellId>,
    goal: CellId,
    levels: Map<CellId, u64>,
    frontier: Seq<CellId>,
    k: nat,
) -> bool {
    &&& levels_inv(g, blocked, goal, levels, k)
    &&& frontier.no_duplicates()
    &&& forall|c: CellId| #[trigger] frontier.contains(c) <==> (levels.contains_key(c) && levels[c] == k)
}

/// Under `levels_inv`, a recorded level is at most `k`, and a cell is within
/// `m <= k` steps exactly when it is recorded at a level of at most `m`.
proof fn lemma_levels_lookup(g: GridModel, blocked: Set<CellId>, goal: CellId, levels: Map<CellId, u64>, k: nat, c: CellId, m: nat)
    requires
        levels_inv(g, blocked, goal, levels, k),
        m <= k,
    ensures
        levels.contains_key(c) ==> levels[c] <= k,
        within(g, blocked, goal, c, m) <==> (levels.contains_key(c) && levels[c] <= m),
{
    if levels.contains_key(c) {
        let l = levels[c] as nat;
        assert(exact_level(g, blocked, goal, c, l));
        if l > k {
            lemma_within_mono(g, blocked, goal, c, k, (l - 1) as nat);
        }
        if l > m && within(g, blocked, goal, c, m) {
            lemma_within_mono(g, blocked, goal, c, m, (l - 1) as nat);
        }
        if l <= m {
            lemma_within_mono(g, blocked, goal, c, l, m);
        }
    } else {
        if within(g, blocked, goal, c, m) {
            lemma_within_mono(g, blocked, goal, c, m, k);
        }
    }
}

/// One layer of expansion turns the invariant at `k` into the invariant at `k + 1`.
proof fn lemma_expand_step(
    g: GridModel,
    blocked: Set<CellId>,
    goal: CellId,
    l0: Map<CellId, u64>,
    frontier: Seq<CellId>,
    l1: Map<CellId, u64>,
    next: Seq<CellId>,
    k: nat,
)
    requires
        layer_inv(g, blocked, goal, l0, frontier, k),
        forall|c: CellId| #[trigger] l1.contains_key(c) <==> (l0.contains_key(c) || (allowed(g, blocked, goal, c) && touched(frontier, c))),
        forall|c: CellId| l0.contains_key(c) ==> #[trigger] l1[c] == l0[c],
        forall|c: CellId| l1.contains_key(c) && !l0.contains_key(c) ==> #[trigger] l1[c] == k + 1,
        next.no_duplicates(),
        forall|c: CellId| #[trigger] next.contains(c) <==> (l1.contains_key(c) && !l0.contains_key(c)),
    ensures
        layer_inv(g, blocked, goal, l1, next, k + 1),
{
    assert forall|c: CellId| #[trigger] l1.contains_key(c) <==> within(g, blocked, goal, c, k + 1) by {
        if l0.contains_key(c) {
            lemma_within_mono(g, blocked, goal, c, k, k + 1);
        } else if l1.contains_key(c) {
            let (j, e) = choose|j: int, e: int| 0 <= j < frontier.len() && 0 <= e < 4 && #[trigger] shift(frontier[j], e) == Some(c);
            let m = frontier[j];
            assert(frontier.contains(m));
            assert(within(g, blocked, goal, m, k));
            lemma_shift_opposite(m, e);
            assert(within_dir(g, blocked, goal, c, opposite(e), k));
        }
        if within(g, blocked, goal, c, k + 1) && !within(g, blocked, goal, c, k) {
            let i = lemma_new_in_layer(g, blocked, goal, c, k);
            let n = shift(c, i).unwrap();
            lemma_levels_lookup(g, blocked, goal, l0, k, n, k);
            if k > 0 {
                lemma_levels_lookup(g, blocked, goal, l0, k, n, (k - 1) as nat);
            }
            assert(l0[n] == k);
            assert(frontier.contains(n));
            let j = choose|j: int| 0 <= j < frontier.len() && frontier[j] == n;
            lemma_shift_opposite(c, i);
            assert(shift(frontier[j], opposite(i)) == Some(c));
            assert(touched(frontier, c));
        }
    }
    assert forall|c: CellId| l1.contains_key(c) implies exact_level(g, blocked, goal, c, #[trigger] l1[c] as nat) by {
        if l0.contains_key(c) {
            assert(exact_level(g, blocked, goal, c, l0[c] as nat));
        } else {
            assert(within(g, blocked, goal, c, k + 1));
        }
    }
    assert forall|c: CellId| #[trigger] next.contains(c) <==> (l1.contains_key(c) && l1[c] == k + 1) by {
        if l0.contains_key(c) {
            lemma_levels_lookup(g, blocked, goal, l0, k, c, k);
        }
    }
}

/// The cells within reach of the goal lie inside the grid.
proof fn lemma_within_in_bounds(g: GridModel, blocked: Set<CellId>, goal: CellId, levels: Map<CellId, u64>, k: nat)
    requires
        levels_inv(g, blocked, goal, levels, k),
    ensures
        forall|c: CellId| #[trigger] levels.contains_key(c) ==> g.in_bounds_spec(c),
{
    assert forall|c: CellId| #[trigger] levels.contains_key(c) implies g.in_bounds_spec(c) by {
        lemma_within_allowed(g, blocked, goal, c, k);
    }
}

/// The number of cells of a `w` x `h` grid, or zero for an empty extent.
pub open spec fn area(g: GridModel) -> nat {
    if g.width >= 0 && g.height >= 0 {
        (g.width * g.height) as nat
    } else {
        0
    }
}

/// A finite set of in-bounds cells has at most `area` elements.
proof fn lemma_area_bound(g: GridModel, s: Set<CellId>)
    requires
        s.finite(),
        forall|c: CellId| #[trigger] s.contains(c) ==> g.in_bounds_spec(c),
    ensures
        s.len() <= area(g),
{
    let w = g.width as int;
    let h = g.height as int;
    if s.len() > 0 {
        let c0 = s.choose();
        assert(s.contains(c0));
        assert(w > 0 && h > 0);
        let f = |c: CellId| c.0 * h + c.1;
        assert(vstd::relations::injective_on(f, s)) by {
            assert forall|a: CellId, b: CellId| s.contains(a) && s.contains(b) && #[trigger] f(a) == #[trigger] f(b) implies a == b by {
                assert(g.in_bounds_spec(a) && g.in_bounds_spec(b));
                lemma_index_injective(a.0 as int, a.1 as int, b.0 as int, b.1 as int, h);
            }
        }
        vstd::set_lib::lemma_map_size(s, s.map(f), f);
        vstd::set_lib::lemma_int_range(0, w * h);
        assert(s.map(f).subset_of(vstd::set_lib::set_int_range(0, w * h))) by {
            assert forall|i: int| #[trigger] s.map(f).contains(i) implies vstd::set_lib::set_int_range(0, w * h).contains(i) by {
                let c = choose|c: CellId| s.contains(c) && f(c) == i;
                assert(g.in_bounds_spec(c));
                lemma_index_in_range(c.0 as int, c.1 as int, w, h);
            }
        }
        vstd::set_lib::lemma_len_subset(s.map(f), vstd::set_lib::set_int_range(0, w * h));
    }
}

proof fn lemma_index_injective(x1: int, y1: int, x2: int, y2: int, h: int)
    requires
        0 <= y1 < h,
        0 <= y2 < h,
        x1 * h + y1 == x2 * h + y2,
    ensures
        x1 == x2 && y1 == y2,
{
    if x1 < x2 {
        assert(x1 * h + h <= x2 * h) by (nonlinear_arith)
            requires
                x1 < x2,
                0 < h,
        ;
    } else if x2 < x1 {
        assert(x2 * h + h <= x1 * h) by (nonlinear_arith)
            requires
                x2 < x1,
                0 < h,
        ;
    }
}

proof fn lemma_index_in_range(x: int, y: int, w: int, h: int)
    requires
        0 <= x < w,
        0 <= y < h,
    ensures
        0 <= x * h + y < w * h,
{
    assert(0 <= x * h + y < w * h) by (nonlinear_arith)
        requires
            0 <= x < w,
            0 <= y < h,
    ;
}

/// `area` is far below `u64::MAX`.
proof fn lemma_area_small(g: GridModel)
    ensures
        area(g) <= 0x4000_0000_0000_0000,
{
    if g.width >= 0 && g.height >= 0 {
        let w = g.width as int;
        let h = g.height as int;
        assert(w * h <= 0x8000_0000 * 0x8000_0000) by (nonlinear_arith)
            requires
                0 <= w <= 0x7fff_ffff,
                0 <= h <= 0x7fff_ffff,
        ;
    }
}

/// Adds the allowed, not yet recorded neighbours of the cells of `frontier`
/// to `levels` at level `k + 1`, and returns them.
fn expand_layer(grid: &Grid, blocked: &CellSet, goal: CellId, frontier: &Vec<CellId>, levels: &mut CellLevels, k: u64) -> (next: Vec<CellId>)
    requires
        k < u64::MAX,
    ensures
        forall|c: CellId| #[trigger] final(levels)@.contains_key(c) <==> (old(levels)@.contains_key(c) || (allowed(grid@, blocked@, goal, c) && touched(frontier@, c))),
        forall|c: CellId| old(levels)@.contains_key(c) ==> #[trigger] final(levels)@[c] == old(levels)@[c],
        forall|c: CellId| final(levels)@.contains_key(c) && !old(levels)@.contains_key(c) ==> #[trigger] final(levels)@[c] == k + 1,
        next@.no_duplicates(),
        forall|c: CellId| #[trigger] next@.contains(c) <==> (final(levels)@.contains_key(c) && !old(levels)@.contains_key(c)),
{
    let ghost l0 = levels@;
    let mut next: Vec<CellId> = Vec::new();
    let mut fi: usize = 0;
    while fi < frontier.len()
        invariant
            0 <= fi <= frontier@.len(),
            k < u64::MAX,
            forall|c: CellId| #[trigger] levels@.contains_key(c) <==> (l0.contains_key(c) || (allowed(grid@, blocked@, goal, c) && touched_upto(frontier@, fi as int, 0, c))),
            forall|c: CellId| l0.contains_key(c) ==> #[trigger] levels@[c] == l0[c],
            forall|c: CellId| levels@.contains_key(c) && !l0.contains_key(c) ==> #[trigger] levels@[c] == k + 1,
            next@.no_duplicates(),
            forall|c: CellId| #[trigger] next@.contains(c) <==> (levels@.contains_key(c) && !l0.contains_key(c)),
        decreases frontier@.len() - fi,
    {
        let f = frontier[fi];
        let mut d: usize = 0;
        while d < 4
            invariant
                0 <= fi < frontier@.len(),
                f == frontier@[fi as int],
                0 <= d <= 4,
                k < u64::MAX,
                forall|c: CellId| #[trigger] levels@.contains_key(c) <==> (l0.contains_key(c) || (allowed(grid@, blocked@, goal, c) && touched_upto(frontier@, fi as int, d as int, c))),
                forall|c: CellId| l0.contains_key(c) ==> #[trigger] levels@[c] == l0[c],
                forall|c: CellId| levels@.contains_key(c) && !l0.contains_key(c) ==> #[trigger] levels@[c] == k + 1,
                next@.no_duplicates(),
                forall|c: CellId| #[trigger] next@.contains(c) <==> (levels@.contains_key(c) && !l0.contains_key(c)),
            decreases 4 - d,
        {
            let ghost before = levels@;
            let ghost next_before = next@;
            match grid.shifted(f, d) {
                Some(n) => {
                    if same_cell(n, goal) || !blocked.contains(n) {
                        if levels.get(n).is_none() {
                            levels.insert_new(n, k + 1);
                            next.push(n);
                            proof {
                                assert forall|a: int, b: int| 0 <= a < b < next@.len() implies next@[a] != next@[b] by {
                                    if b == next@.len() - 1 {
                                        assert(next_before.contains(next_before[a]));
                                    } else {
                                        assert(next_before[a] != next_before[b]);
                                    }
                                }
                                assert forall|c: CellId| #[trigger] next@.contains(c) <==> (levels@.contains_key(c) && !l0.contains_key(c)) by {
                                    if next@.contains(c) && c != n {
                                        let q = choose|q: int| 0 <= q < next@.len() && next@[q] == c;
                                        assert(next_before[q] == c);
                                    }
                                    if c != n && next_before.contains(c) {
                                        let q = choose|q: int| 0 <= q < next_before.len() && next_before[q] == c;
                                        assert(next@[q] == c);
                                    }
                                    if c == n {
                                        assert(next@[next@.len() - 1] == n);
                                    }
                                }
                            }
                        }
                    }
                },
                None => {},
            }
            proof {
                assert forall|c: CellId| #[trigger] levels@.contains_key(c) <==> (l0.contains_key(c) || (allowed(grid@, blocked@, goal, c) && touched_upto(frontier@, fi as int, d + 1, c))) by {
                    if touched_upto(frontier@, fi as int, d + 1, c) && !touched_upto(frontier@, fi as int, d as int, c) {
                        let e = choose|e: int| 0 <= e < d + 1 && #[trigger] shift(frontier@[fi as int], e) == Some(c);
                        assert(e == d);
                    }
                    if touched_upto(frontier@, fi as int, d as int, c) {
                        if exists|e: int| 0 <= e < d && #[trigger] shift(frontier@[fi as int], e) == Some(c) {
                            let e = choose|e: int| 0 <= e < d && #[trigger] shift(frontier@[fi as int], e) == Some(c);
                            assert(0 <= e < d + 1 && shift(frontier@[fi as int], e) == Some(c));
                        }
                    }
                    if shift(f, d as int) == Some(c) {
                        assert(0 <= d < d + 1 && shift(frontier@[fi as int], d as int) == Some(c));
                    }
                }
            }
            d += 1;
        }
        proof {
            assert forall|c: CellId| touched_upto(frontier@, fi as int, 4, c) == touched_upto(frontier@, fi + 1, 0, c) by {
                if touched_upto(frontier@, fi as int, 4, c) {
                    if exists|e: int| 0 <= e < 4 && #[trigger] shift(frontier@[fi as int], e) == Some(c) {
                        let e = choose|e: int| 0 <= e < 4 && #[trigger] shift(frontier@[fi as int], e) == Some(c);
                        assert(0 <= fi < fi + 1 && 0 <= e < 4 && shift(frontier@[fi as int], e) == Some(c));
                    } else {
                        let (j, e) = choose|j: int, e: int| 0 <= j < fi && 0 <= e < 4 && #[trigger] shift(frontier@[j], e) == Some(c);
                        assert(0 <= j < fi + 1 && 0 <= e < 4 && shift(frontier@[j], e) == Some(c));
                    }
                }
                if touched_upto(frontier@, fi + 1, 0, c) {
                    let (j, e) = choose|j: int, e: int| 0 <= j < fi + 1 && 0 <= e < 4 && #[trigger] shift(frontier@[j], e) == Some(c);
                    if j < fi {
                        assert(0 <= j < fi && 0 <= e < 4 && shift(frontier@[j], e) == Some(c));
                    } else {
                        assert(0 <= e < 4 && shift(frontier@[fi as int], e) == Some(c));
                    }
                }
            }
        }
        fi += 1;
    }
    proof {
        assert forall|c: CellId| touched_upto(frontier@, frontier@.len() as int, 0, c) == touched(frontier@, c) by {
        }
    }
    next
}

/// Whether some walkable neighbour of `c` is recorded in `levels`.
fn touches_levels(grid: &Grid, levels: &CellLevels, c: CellId) -> (b: bool)
    ensures
        b == exists|i: int| 0 <= i < 4 && #[trigger] grid@.walkable_opt(shift(c, i)) && levels@.contains_key(shift(c, i).unwrap()),
{
    let mut d: usize = 0;
    while d < 4
        invariant
            0 <= d <= 4,
            forall|i: int| 0 <= i < d ==> !(#[trigger] grid@.walkable_opt(shift(c, i)) && levels@.contains_key(shift(c, i).unwrap())),
        decreases 4 - d,
    {
        if let Some(n) = grid.shifted(c, d) {
            if levels.get(n).is_some() {
                assert(grid@.walkable_opt(shift(c, d as int)) && levels@.contains_key(shift(c, d as int).unwrap()));
                return true;
            }
        }
        d += 1;
    }
    false
}

/// The first neighbour of `cur` (in direction order) recorded at a level of
/// at most `m`: the next step of the descent.
fn step_toward(
    grid: &Grid,
    Ghost(blocked): Ghost<Set<CellId>>,
    goal: CellId,
    levels: &CellLevels,
    Ghost(k): Ghost<nat>,
    cur: CellId,
    m: u64,
) -> (r: Option<CellId>)
    requires
        levels_inv(grid@, blocked, goal, levels@, k),
        m <= k,
    ensures
        first_dir(grid@, blocked, goal, cur, m as nat) < 4 ==> r == shift(cur, first_dir(grid@, blocked, goal, cur, m as nat)),
        first_dir(grid@, blocked, goal, cur, m as nat) == 4 ==> r is None,
{
    let mut d: usize = 0;
    while d < 4
        invariant
            levels_inv(grid@, blocked, goal, levels@, k),
            m <= k,
            0 <= d <= 4,
            forall|i: int| 0 <= i < d ==> !within_dir(grid@, blocked, goal, cur, i, m as nat),
        decreases 4 - d,
    {
        proof {
            if let Some(n) = shift(cur, d as int) {
                lemma_levels_lookup(grid@, blocked, goal, levels@, k, n, m as nat);
                if within(grid@, blocked, goal, n, m as nat) {
                    lemma_within_allowed(grid@, blocked, goal, n, m as nat);
                }
            }
        }
        if let Some(n) = grid.shifted(cur, d) {
            match levels.get(n) {
                Some(l) => {
                    if l <= m {
                        assert(within_dir(grid@, blocked, goal, cur, d as int, m as nat));
                        return Some(n);
                    }
                },
                None => {},
            }
        }
        d += 1;
    }
    None
}

/// The descent of `total` steps from `start`, read off the recorded levels.
fn reconstruct_path(
    grid: &Grid,
    Ghost(blocked): Ghost<Set<CellId>>,
    goal: CellId,
    levels: &CellLevels,
    Ghost(k): Ghost<nat>,
    start: CellId,
    total: u64,
) -> (path: Vec<CellId>)
    requires
        levels_inv(grid@, blocked, goal, levels@, k),
        total <= k + 1,
    ensures
        path@ == descend(grid@, blocked, goal, start, total as nat),
{
    let mut path: Vec<CellId> = Vec::new();
    let mut cur = start;
    let mut rem = total;
    while rem > 0
        invariant
            levels_inv(grid@, blocked, goal, levels@, k),
            rem <= total <= k + 1,
            path@ + descend(grid@, blocked, goal, cur, rem as nat) == descend(grid@, blocked, goal, start, total as nat),
        decreases rem,
    {
        let m = rem - 1;
        let chosen = step_toward(grid, Ghost(blocked), goal, levels, Ghost(k), cur, m);
        match chosen {
            Some(n) => {
                let ghost before = path@;
                path.push(n);
                proof {
                    assert(descend(grid@, blocked, goal, cur, rem as nat) == seq![n] + descend(grid@, blocked, goal, n, m as nat));
                    assert(path@ + descend(grid@, blocked, goal, n, m as nat) =~= before + descend(grid@, blocked, goal, cur, rem as nat));
                }
                cur = n;
                rem = m;
            },
            None => {
                assert(descend(grid@, blocked, goal, cur, rem as nat) == Seq::<CellId>::empty());
                assert(path@ =~= path@ + descend(grid@, blocked, goal, cur, rem as nat));
                return path;
            },
        }
    }
    assert(path@ =~= path@ + descend(grid@, blocked, goal, cur, 0));
    path
}

/// Finds a shortest path from `start` to `goal`. Walls, and the cells in
/// `blocked` (occupied by other robots), are obstacles; the goal itself may
/// be entered even if it is in `blocked`, because its occupant may move away.
/// The path excludes `start` and includes `goal`; it is empty when
/// `start == goal`, and there is none when the goal cannot be reached.
/// Among several shortest paths, the one returned leaves each cell by the
/// first direction, in the order +x, -x, +y, -y, that stays on a shortest
/// route (`find_path_spec`): on an open grid from (1, 1) to (0, 0) it goes
/// through (0, 1).
pub fn find_path(grid: &Grid, start: CellId, goal: CellId, blocked: &CellSet) -> (r: Option<Vec<CellId>>)
    ensures
        match r {
            Some(p) => find_path_spec(grid@, start, goal, blocked@) == Some(p@),
            None => find_path_spec(grid@, start, goal, blocked@) is None,
        },
{
    if same_cell(start, goal) {
        return Some(Vec::new());
    }
    let ghost g = grid@;
    let ghost b = blocked@;
    let mut levels = CellLevels::new();
    let mut frontier: Vec<CellId> = Vec::new();
    if grid.is_walkable(goal) {
        levels.insert_new(goal, 0);
        frontier.push(goal);
    }
    proof {
        assert forall|c: CellId| #[trigger] levels@.contains_key(c) <==> within(g, b, goal, c, 0) by {}
        assert forall|c: CellId| levels@.contains_key(c) implies exact_level(g, b, goal, c, #[trigger] levels@[c] as nat) by {}
        assert forall|c: CellId| #[trigger] frontier@.contains(c) <==> (levels@.contains_key(c) && levels@[c] == 0) by {
            if frontier@.contains(c) {
                assert(frontier@[0] == c);
            }
            if levels@.contains_key(c) {
                assert(frontier@[0] == c);
            }
        }
    }
    let mut k: u64 = 0;
    loop
        invariant
            layer_inv(g, b, goal, levels@, frontier@, k as nat),
            forall|j: nat| j < k ==> !near(g, b, goal, start, j),
            k <= levels@.dom().len(),
            frontier@.len() > 0 ==> k < levels@.dom().len(),
            grid@ == g,
            blocked@ == b,
            start != goal,
        decreases area(g) - levels@.dom().len(), frontier@.len(),
    {
        proof {
            levels.lemma_finite();
            lemma_within_in_bounds(g, b, goal, levels@, k as nat);
            lemma_area_bound(g, levels@.dom());
            lemma_area_small(g);
            assert forall|i: int| 0 <= i < 4 implies #[trigger] within_dir(g, b, goal, start, i, k as nat) == (grid@.walkable_opt(shift(start, i)) && levels@.contains_key(shift(start, i).unwrap())) by {
                if let Some(n) = shift(start, i) {
                    if within(g, b, goal, n, k as nat) {
                        lemma_within_allowed(g, b, goal, n, k as nat);
                    }
                }
            }
        }
        if touches_levels(grid, &levels, start) {
            proof {
                let i = choose|i: int| 0 <= i < 4 && #[trigger] grid@.walkable_opt(shift(start, i)) && levels@.contains_key(shift(start, i).unwrap());
                assert(within_dir(g, b, goal, start, i, k as nat));
                assert(near(g, b, goal, start, k as nat));
                lemma_start_level(g, b, goal, start, k as nat);
                if start_level(g, b, goal, start) < k {
                    assert(!near(g, b, goal, start, start_level(g, b, goal, start)));
                }
                assert(start_level(g, b, goal, start) == k);
                assert(exists|j: nat| near(g, b, goal, start, j));
            }
            let path = reconstruct_path(grid, Ghost(b), goal, &levels, Ghost(k as nat), start, k + 1);
            assert(find_path_spec(g, start, goal, b) == Some(path@));
            return Some(path);
        }
        if frontier.len() == 0 {
            proof {
                assert forall|d: CellId| #[trigger] within(g, b, goal, d, k as nat) implies (k > 0 && within(g, b, goal, d, (k - 1) as nat)) by {
                    assert(levels@.contains_key(d));
                    assert(!frontier@.contains(d));
                    assert(exact_level(g, b, goal, d, levels@[d] as nat));
                    lemma_levels_lookup(g, b, goal, levels@, k as nat, d, k as nat);
                    if k > 0 {
                        lemma_within_mono(g, b, goal, d, levels@[d] as nat, (k - 1) as nat);
                    }
                }
                assert forall|j: nat| !near(g, b, goal, start, j) by {
                    if j >= k {
                        if near(g, b, goal, start, j) {
                            let i = choose|i: int| 0 <= i < 4 && #[trigger] within_dir(g, b, goal, start, i, j);
                            assert(0 <= i < 4 && within_dir(g, b, goal, start, i, j));
                            let n = shift(start, i).unwrap();
                            lemma_fixpoint(g, b, goal, k as nat, j, n);
                            assert(within_dir(g, b, goal, start, i, k as nat));
                        }
                    }
                }
            }
            assert(!(exists|j: nat| near(g, b, goal, start, j)));
            assert(find_path_spec(g, start, goal, b) is None);
            return None;
        }
        let ghost l0 = levels@;
        let ghost f0 = frontier@;
        let next = expand_layer(grid, blocked, goal, &frontier, &mut levels, k);
        proof {
            lemma_expand_step(g, b, goal, l0, f0, levels@, next@, k as nat);
            levels.lemma_finite();
            vstd::seq_lib::seq_to_set_is_finite(next@);
            assert(levels@.dom() =~= l0.dom() + next@.to_set());
            assert(l0.dom().disjoint(next@.to_set()));
            vstd::set_lib::lemma_set_disjoint_lens(l0.dom(), next@.to_set());
            next@.unique_seq_to_set();
            assert(f0.contains(f0[0]));
            lemma_within_in_bounds(g, b, goal, levels@, (k + 1) as nat);
            lemma_area_bound(g, levels@.dom());
        }
        frontier = next;
        k = k + 1;
    }
}

} // verus!
