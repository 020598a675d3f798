//! One tick of the conveyor belt: products at their station are assembled
//! (using up station inventory), the others move one cell along the belt,
//! and products reaching the end of the belt leave the line.
use vstd::prelude::*;
use crate::cells::{CellId, CellSet, same_cell};
use crate::sim::{
    MoveIntent, Product, Station, resolve_intents, resolve_spec, wins, ASSEMBLY_TICKS, BELT_END_X, BELT_ROW,
};

verus! {

/// Station `s` is the one that works on product `p`: the product stands on
/// the station's belt cell and has passed exactly `s.index` stations.
pub open spec fn station_matches(s: Station, p: Product) -> bool {
    s.belt_cell == p.pos && s.index == p.stage
}

/// The first station at or after position `k` that works on `p`.
pub open spec fn first_match_from(st: Seq<Station>, p: Product, k: int) -> Option<int>
    decreases st.len() - k,
{
    if k < 0 || k >= st.len() {
        None
    } else if station_matches(st[k], p) {
        Some(k)
    } else {
        first_match_from(st, p, k + 1)
    }
}

/// The first station that works on `p`, if any.
pub open spec fn first_match(st: Seq<Station>, p: Product) -> Option<int> {
    first_match_from(st, p, 0)
}

/// One product's assembly step at its station: a running assembly counts
/// down (and the product passes the station when it reaches zero); a
/// waiting product starts assembly if the station has a part, using it.
pub open spec fn assemble_spec(p: Product, st: Seq<Station>) -> (Product, Seq<Station>) {
    match first_match(st, p) {
        None => (p, st),
        Some(k) => {
            if p.work_ticks_remaining > 0 {
                let w = (p.work_ticks_remaining - 1) as u32;
                (Product { work_ticks_remaining: w, stage: if w == 0 { (p.stage + 1) as u8 } else { p.stage }, ..p }, st)
            } else if st[k].part_inventory > 0 {
                (
                    Product { work_ticks_remaining: ASSEMBLY_TICKS, ..p },
                    st.update(k, Station { part_inventory: (st[k].part_inventory - 1) as u32, ..st[k] }),
                )
            } else {
                (p, st)
            }
        },
    }
}

/// The assembly step applied to each product in order, the stations
/// carrying over from one product to the next.
pub open spec fn assemble_all(ps: Seq<Product>, st: Seq<Station>) -> (Seq<Product>, Seq<Station>)
    decreases ps.len(),
{
    if ps.len() == 0 {
        (Seq::empty(), st)
    } else {
        let prev = assemble_all(ps.drop_last(), st);
        let step = assemble_spec(ps.last(), prev.1);
        (prev.0.push(step.0), step.1)
    }
}

/// The cells of the given products.
pub open spec fn product_cells(ps: Seq<Product>) -> Set<CellId> {
    Set::new(|c: CellId| exists|i: int| 0 <= i < ps.len() && #[trigger] ps[i].pos == c)
}

/// A product holds its cell this tick: it is being assembled or it waits
/// at its station.
pub open spec fn holds_cell(p: Product, st: Seq<Station>) -> bool {
    p.work_ticks_remaining > 0 || exists|s: int| 0 <= s < st.len() && #[trigger] station_matches(st[s], p)
}

/// The cells of products that hold their cell this tick.
pub open spec fn blocked_cells(ps: Seq<Product>, st: Seq<Station>) -> Set<CellId> {
    Set::new(|c: CellId| exists|i: int| 0 <= i < ps.len() && #[trigger] ps[i].pos == c && holds_cell(ps[i], st))
}

/// The next cell along the belt.
pub open spec fn belt_next(p: Product) -> CellId {
    ((p.pos.0 + 1) as i32, BELT_ROW)
}

/// The moves of the products, in order: a product that does not hold its
/// cell asks to move one cell along the belt, unless a product stood there
/// at the start of the tick.
pub open spec fn product_intents(ps: Seq<Product>, blocked: Set<CellId>, occupied: Set<CellId>) -> Seq<MoveIntent>
    decreases ps.len(),
{
    if ps.len() == 0 {
        Seq::empty()
    } else {
        let rest = product_intents(ps.drop_last(), blocked, occupied);
        let p = ps.last();
        if !blocked.contains(p.pos) && !occupied.contains(belt_next(p)) {
            rest.push(MoveIntent { mover_id: p.id, from: p.pos, to: belt_next(p) })
        } else {
            rest
        }
    }
}

/// The last of the first `k` intents made by mover `id`.
pub open spec fn last_intent(intents: Seq<MoveIntent>, id: u32, k: int) -> Option<int>
    decreases k,
{
    if k <= 0 {
        None
    } else if intents[k - 1].mover_id == id {
        Some(k - 1)
    } else {
        last_intent(intents, id, k - 1)
    }
}

/// Each product placed where its (last) intent was settled; a product
/// without an intent stays where it is.
pub open spec fn place_products(ps: Seq<Product>, intents: Seq<MoveIntent>, settled: Seq<CellId>) -> Seq<Product> {
    Seq::new(
        ps.len(),
        |i: int|
            match last_intent(intents, ps[i].id, intents.len() as int) {
                Some(k) => Product { pos: settled[k], ..ps[i] },
                None => ps[i],
            },
    )
}

/// The products still on the belt: those before the end column.
pub open spec fn on_belt(ps: Seq<Product>) -> Seq<Product>
    decreases ps.len(),
{
    if ps.len() == 0 {
        Seq::empty()
    } else {
        let rest = on_belt(ps.drop_last());
        if ps.last().pos.0 < BELT_END_X {
            rest.push(ps.last())
        } else {
            rest
        }
    }
}

/// One tick of the belt: assembly, then moves settled by product id, then
/// the products that reached the end leave.
pub open spec fn plan_products_spec(ps: Seq<Product>, st: Seq<Station>) -> (Seq<Product>, Seq<Station>) {
    let assembled = assemble_all(ps, st);
    let updated = assembled.0;
    let stations = assembled.1;
    let intents = product_intents(updated, blocked_cells(updated, stations), product_cells(ps));
    let placed = place_products(updated, intents, resolve_spec(intents));
    (on_belt(placed), stations)
}

/// The belt can run a tick: every product can take one step to the right,
/// and a station's index can be passed (it is below `u8::MAX`).
pub open spec fn belt_ready(ps: Seq<Product>, st: Seq<Station>) -> bool {
    &&& forall|i: int| 0 <= i < ps.len() ==> (#[trigger] ps[i]).pos.0 < i32::MAX
    &&& forall|s: int| 0 <= s < st.len() ==> (#[trigger] st[s]).index < u8::MAX
}

/// A fresh vector with the same products.
pub fn copy_products(v: &Vec<Product>) -> (r: Vec<Product>)
    ensures
        r@ == v@,
{
    let mut r: Vec<Product> = Vec::new();
    let mut i: usize = 0;
    while i < v.len()
        invariant
            0 <= i <= v@.len(),
            r@ == v@.subrange(0, i as int),
        decreases v@.len() - i,
    {
        r.push(v[i]);
        assert(r@ =~= v@.subrange(0, i + 1));
        i += 1;
    }
    assert(r@ =~= v@);
    r
}

/// A fresh vector with the same stations.
pub fn copy_stations(v: &Vec<Station>) -> (r: Vec<Station>)
    ensures
        r@ == v@,
{
    let mut r: Vec<Station> = Vec::new();
    let mut i: usize = 0;
    while i < v.len()
        invariant
            0 <= i <= v@.len(),
            r@ == v@.subrange(0, i as int),
        decreases v@.len() - i,
    {
        r.push(v[i]);
        assert(r@ =~= v@.subrange(0, i + 1));
        i += 1;
    }
    assert(r@ =~= v@);
    r
}

fn find_station(st: &Vec<Station>, p: Product) -> (r: Option<usize>)
    ensures
        match r {
            Some(k) => first_match(st@, p) == Some(k as int) && k < st@.len() && station_matches(st@[k as int], p),
            None => first_match(st@, p) is None,
        },
{
    let mut k: usize = 0;
    while k < st.len()
        invariant
            0 <= k <= st@.len(),
            first_match(st@, p) == first_match_from(st@, p, k as int),
        decreases st@.len() - k,
    {
        if same_cell(st[k].belt_cell, p.pos) && st[k].index == p.stage {
            return Some(k);
        }
        k += 1;
    }
    None
}

fn assemble(p: Product, st: &mut Vec<Station>) -> (q: Product)
    requires
        forall|s: int| 0 <= s < old(st)@.len() ==> (#[trigger] old(st)@[s]).index < u8::MAX,
    ensures
        (q, final(st)@) == assemble_spec(p, old(st)@),
        final(st)@.len() == old(st)@.len(),
        forall|s: int|
            0 <= s < old(st)@.len() ==> (#[trigger] final(st)@[s]).index == old(st)@[s].index
                && final(st)@[s].belt_cell == old(st)@[s].belt_cell,
{
    let mut q = p;
    match find_station(st, p) {
        None => {},
        Some(k) => {
            if q.work_ticks_remaining > 0 {
                q.work_ticks_remaining = q.work_ticks_remaining - 1;
                if q.work_ticks_remaining == 0 {
                    assert(st@[k as int].index < u8::MAX);
                    q.stage = q.stage + 1;
                }
            } else if st[k].part_inventory > 0 {
                let mut s = st[k];
                s.part_inventory = s.part_inventory - 1;
                st.set(k, s);
                q.work_ticks_remaining = ASSEMBLY_TICKS;
            }
        },
    }
    q
}

/// A product has a station exactly when some station works on it.
pub proof fn lemma_first_match_from(st: Seq<Station>, p: Product, k: int)
    requires
        0 <= k,
    ensures
        match first_match_from(st, p, k) {
            Some(j) => k <= j < st.len() && station_matches(st[j], p),
            None => forall|s: int| k <= s < st.len() ==> !#[trigger] station_matches(st[s], p),
        },
    decreases st.len() - k,
{
    if k < st.len() && !station_matches(st[k], p) {
        lemma_first_match_from(st, p, k + 1);
    }
}

fn has_station(st: &Vec<Station>, p: Product) -> (b: bool)
    ensures
        b == exists|s: int| 0 <= s < st@.len() && #[trigger] station_matches(st@[s], p),
{
    proof {
        lemma_first_match_from(st@, p, 0);
    }
    match find_station(st, p) {
        Some(k) => {
            assert(station_matches(st@[k as int], p));
            true
        },
        None => false,
    }
}

fn find_last_intent(intents: &Vec<MoveIntent>, id: u32) -> (r: Option<usize>)
    ensures
        match r {
            Some(k) => last_intent(intents@, id, intents@.len() as int) == Some(k as int) && k < intents@.len(),
            None => last_intent(intents@, id, intents@.len() as int) is None,
        },
{
    let mut found: Option<usize> = None;
    let mut j: usize = 0;
    while j < intents.len()
        invariant
            0 <= j <= intents@.len(),
            match found {
                Some(k) => last_intent(intents@, id, j as int) == Some(k as int) && k < j,
                None => last_intent(intents@, id, j as int) is None,
            },
        decreases intents@.len() - j,
    {
        if intents[j].mover_id == id {
            found = Some(j);
        }
        j += 1;
    }
    found
}

/// One tick of the belt; see `plan_products_spec`. Products at their
/// station are assembled, the others move right unless the cell ahead was
/// taken at the start of the tick (ties go to the lower id), and products
/// that reach `BELT_END_X` leave.
pub fn plan_products(products: &Vec<Product>, stations: &Vec<Station>) -> (r: (Vec<Product>, Vec<Station>))
    requires
        belt_ready(products@, stations@),
    ensures
        (r.0@, r.1@) == plan_products_spec(products@, stations@),
{
    let ghost ps = products@;
    // The cells taken at the start of the tick.
    let mut occupied = CellSet::new();
    let mut i: usize = 0;
    while i < products.len()
        invariant
            0 <= i <= ps.len(),
            ps == products@,
            forall|c: CellId| occupied@.contains(c) <==> exists|j: int| 0 <= j < i && #[trigger] ps[j].pos == c,
        decreases ps.len() - i,
    {
        occupied.insert(products[i].pos);
        proof {
            assert forall|c: CellId| occupied@.contains(c) implies exists|j: int| 0 <= j < i + 1 && #[trigger] ps[j].pos == c by {
                if c == ps[i as int].pos {
                    assert(ps[i as int].pos == c);
                }
            }
        }
        i += 1;
    }
    assert(occupied@ =~= product_cells(ps));

    // Assembly at the stations, in product order.
    let mut st = copy_stations(stations);
    let mut updated: Vec<Product> = Vec::new();
    i = 0;
    while i < products.len()
        invariant
            0 <= i <= ps.len(),
            ps == products@,
            belt_ready(ps, stations@),
            (updated@, st@) == assemble_all(ps.take(i as int), stations@),
            updated@.len() == i,
            st@.len() == stations@.len(),
            forall|j: int| 0 <= j < i ==> (#[trigger] updated@[j]).pos == ps[j].pos && updated@[j].id == ps[j].id,
            forall|s: int| 0 <= s < st@.len() ==> (#[trigger] st@[s]).index == stations@[s].index,
        decreases ps.len() - i,
    {
        let q = assemble(products[i], &mut st);
        updated.push(q);
        proof {
            assert(ps.take(i + 1).drop_last() =~= ps.take(i as int));
        }
        i += 1;
    }
    assert(ps.take(ps.len() as int) =~= ps);
    let ghost up = updated@;

    // The cells of products that stay put this tick.
    let mut blocked = CellSet::new();
    i = 0;
    while i < updated.len()
        invariant
            0 <= i <= up.len(),
            up == updated@,
            forall|c: CellId|
                blocked@.contains(c) <==> exists|j: int| 0 <= j < i && #[trigger] up[j].pos == c && holds_cell(up[j], st@),
        decreases up.len() - i,
    {
        let q = updated[i];
        if q.work_ticks_remaining > 0 || has_station(&st, q) {
            blocked.insert(q.pos);
            proof {
                assert(holds_cell(up[i as int], st@));
            }
        }
        proof {
            assert forall|c: CellId| blocked@.contains(c) implies exists|j: int|
                0 <= j < i + 1 && #[trigger] up[j].pos == c && holds_cell(up[j], st@) by {
                if c == up[i as int].pos && holds_cell(up[i as int], st@) {
                    assert(up[i as int].pos == c);
                }
            }
        }
        i += 1;
    }
    assert(blocked@ =~= blocked_cells(up, st@));

    // The moves one cell along the belt.
    let mut intents: Vec<MoveIntent> = Vec::new();
    i = 0;
    while i < updated.len()
        invariant
            0 <= i <= up.len(),
            up == updated@,
            up.len() == ps.len(),
            belt_ready(ps, stations@),
            forall|j: int| 0 <= j < up.len() ==> (#[trigger] up[j]).pos == ps[j].pos,
            intents@ == product_intents(up.take(i as int), blocked@, occupied@),
        decreases up.len() - i,
    {
        let q = updated[i];
        assert(up[i as int].pos == ps[i as int].pos);
        let target: CellId = (q.pos.0 + 1, BELT_ROW);
        if !blocked.contains(q.pos) && !occupied.contains(target) {
            intents.push(MoveIntent { mover_id: q.id, from: q.pos, to: target });
        }
        proof {
            assert(up.take(i + 1).drop_last() =~= up.take(i as int));
        }
        i += 1;
    }
    assert(up.take(up.len() as int) =~= up);
    let settled = resolve_intents(&intents);

    // Each product where its move was settled.
    let mut placed: Vec<Product> = Vec::new();
    i = 0;
    while i < updated.len()
        invariant
            0 <= i <= up.len(),
            up == updated@,
            settled@ == resolve_spec(intents@),
            placed@.len() == i,
            forall|j: int| 0 <= j < i ==> #[trigger] placed@[j] == place_products(up, intents@, settled@)[j],
        decreases up.len() - i,
    {
        let mut q = updated[i];
        match find_last_intent(&intents, q.id) {
            Some(k) => {
                q.pos = settled[k];
            },
            None => {},
        }
        placed.push(q);
        i += 1;
    }
    let ghost pl = placed@;
    assert(pl =~= place_products(up, intents@, settled@));

    // Products that reached the end leave the line.
    let mut kept: Vec<Product> = Vec::new();
    i = 0;
    while i < placed.len()
        invariant
            0 <= i <= pl.len(),
            pl == placed@,
            kept@ == on_belt(pl.take(i as int)),
        decreases pl.len() - i,
    {
        let q = placed[i];
        if q.pos.0 < BELT_END_X {
            kept.push(q);
        }
        proof {
            assert(pl.take(i + 1).drop_last() =~= pl.take(i as int));
        }
        i += 1;
    }
    assert(pl.take(pl.len() as int) =~= pl);
    (kept, st)
}

/// Assembly keeps every product's id and cell, and every station's index
/// and belt cell.
pub proof fn lemma_assemble_all(ps: Seq<Product>, st: Seq<Station>)
    ensures
        assemble_all(ps, st).0.len() == ps.len(),
        forall|i: int|
            0 <= i < ps.len() ==> (#[trigger] assemble_all(ps, st).0[i]).id == ps[i].id
                && assemble_all(ps, st).0[i].pos == ps[i].pos,
        assemble_all(ps, st).1.len() == st.len(),
        forall|s: int|
            0 <= s < st.len() ==> (#[trigger] assemble_all(ps, st).1[s]).index == st[s].index
                && assemble_all(ps, st).1[s].belt_cell == st[s].belt_cell,
    decreases ps.len(),
{
    if ps.len() > 0 {
        lemma_assemble_all(ps.drop_last(), st);
        let prev = assemble_all(ps.drop_last(), st);
        lemma_first_match_from(prev.1, ps.last(), 0);
        let r = assemble_all(ps, st);
        assert forall|i: int| 0 <= i < ps.len() implies (#[trigger] r.0[i]).id == ps[i].id && r.0[i].pos
            == ps[i].pos by {
            if i < ps.len() - 1 {
                assert(r.0[i] == prev.0[i]);
                assert(ps.drop_last()[i] == ps[i]);
            }
        }
    }
}

/// The products left on the belt are products that were there, each before
/// the end column.
pub proof fn lemma_on_belt(ps: Seq<Product>)
    ensures
        on_belt(ps).len() <= ps.len(),
        forall|i: int|
            0 <= i < on_belt(ps).len() ==> exists|j: int| 0 <= j < ps.len() && ps[j] == #[trigger] on_belt(ps)[i],
        forall|i: int| 0 <= i < on_belt(ps).len() ==> (#[trigger] on_belt(ps)[i]).pos.0 < BELT_END_X,
    decreases ps.len(),
{
    if ps.len() > 0 {
        lemma_on_belt(ps.drop_last());
        let rest = on_belt(ps.drop_last());
        assert forall|i: int| 0 <= i < on_belt(ps).len() implies exists|j: int|
            0 <= j < ps.len() && ps[j] == #[trigger] on_belt(ps)[i] by {
            if i < rest.len() {
                let j = choose|j: int| 0 <= j < ps.drop_last().len() && ps.drop_last()[j] == rest[i];
                assert(ps[j] == on_belt(ps)[i]);
            } else {
                assert(ps[ps.len() - 1] == on_belt(ps)[i]);
            }
        }
    }
}

/// A belt tick keeps the stations' indices, and every product after it
/// carries the id of a product before it and stands before the end column.
pub proof fn lemma_belt_keeps(ps: Seq<Product>, st: Seq<Station>)
    ensures
        plan_products_spec(ps, st).1.len() == st.len(),
        forall|s: int|
            0 <= s < st.len() ==> (#[trigger] plan_products_spec(ps, st).1[s]).index == st[s].index
                && plan_products_spec(ps, st).1[s].belt_cell == st[s].belt_cell,
        forall|i: int|
            0 <= i < plan_products_spec(ps, st).0.len() ==> exists|j: int|
                0 <= j < ps.len() && ps[j].id == (#[trigger] plan_products_spec(ps, st).0[i]).id,
        forall|i: int|
            0 <= i < plan_products_spec(ps, st).0.len() ==> (#[trigger] plan_products_spec(ps, st).0[i]).pos.0
                < BELT_END_X,
{
    lemma_assemble_all(ps, st);
    let updated = assemble_all(ps, st).0;
    let stations = assemble_all(ps, st).1;
    let intents = product_intents(updated, blocked_cells(updated, stations), product_cells(ps));
    let placed = place_products(updated, intents, resolve_spec(intents));
    lemma_on_belt(placed);
    let out = on_belt(placed);
    assert forall|i: int| 0 <= i < out.len() implies exists|j: int| 0 <= j < ps.len() && ps[j].id == (
    #[trigger] out[i]).id by {
        let j = choose|j: int| 0 <= j < placed.len() && placed[j] == out[i];
        assert(placed[j].id == updated[j].id);
        assert(ps[j].id == out[i].id);
    }
}

/// Assembly only ever uses parts: no station's inventory grows.
pub proof fn lemma_assemble_all_uses_parts(ps: Seq<Product>, st: Seq<Station>)
    ensures
        assemble_all(ps, st).1.len() == st.len(),
        forall|k: int|
            0 <= k < st.len() ==> (#[trigger] assemble_all(ps, st).1[k]).part_inventory <= st[k].part_inventory,
    decreases ps.len(),
{
    if ps.len() > 0 {
        lemma_assemble_all_uses_parts(ps.drop_last(), st);
        let prev = assemble_all(ps.drop_last(), st);
        lemma_first_match_from(prev.1, ps.last(), 0);
        let out = assemble_all(ps, st);
        assert forall|k: int| 0 <= k < st.len() implies (#[trigger] out.1[k]).part_inventory <= st[k].part_inventory by {
            assert(prev.1[k].part_inventory <= st[k].part_inventory);
        }
    }
}

/// No two products stand on the same cell.
pub open spec fn distinct_cells(ps: Seq<Product>) -> bool {
    forall|i: int, j: int| 0 <= i < j < ps.len() ==> (#[trigger] ps[i]).pos != (#[trigger] ps[j]).pos
}

/// No two products share an id.
pub open spec fn distinct_product_ids(ps: Seq<Product>) -> bool {
    forall|i: int, j: int| 0 <= i < j < ps.len() ==> (#[trigger] ps[i]).id != (#[trigger] ps[j]).id
}

/// Each move of the belt is some product's step to the next cell, which
/// nobody occupied at the start of the tick; and a product that did not
/// hold its cell and had a free cell ahead made such a move.
pub proof fn lemma_product_intents(ps: Seq<Product>, blocked: Set<CellId>, occupied: Set<CellId>)
    ensures
        forall|k: int|
            0 <= k < product_intents(ps, blocked, occupied).len() ==> exists|j: int|
                0 <= j < ps.len() && #[trigger] product_intents(ps, blocked, occupied)[k] == (MoveIntent {
                    mover_id: ps[j].id,
                    from: ps[j].pos,
                    to: belt_next(ps[j]),
                }) && !occupied.contains(belt_next(ps[j])),
    decreases ps.len(),
{
    if ps.len() > 0 {
        let init = ps.drop_last();
        lemma_product_intents(init, blocked, occupied);
        let rest = product_intents(init, blocked, occupied);
        let out = product_intents(ps, blocked, occupied);
        assert forall|k: int| 0 <= k < out.len() implies exists|j: int|
            0 <= j < ps.len() && #[trigger] out[k] == (MoveIntent {
                mover_id: ps[j].id,
                from: ps[j].pos,
                to: belt_next(ps[j]),
            }) && !occupied.contains(belt_next(ps[j])) by {
            if k < rest.len() {
                assert(out[k] == rest[k]);
                let j = choose|j: int|
                    0 <= j < init.len() && #[trigger] rest[k] == (MoveIntent {
                        mover_id: init[j].id,
                        from: init[j].pos,
                        to: belt_next(init[j]),
                    }) && !occupied.contains(belt_next(init[j]));
                assert(init[j] == ps[j]);
            } else {
                assert(out[k] == (MoveIntent {
                    mover_id: ps[ps.len() - 1].id,
                    from: ps[ps.len() - 1].pos,
                    to: belt_next(ps[ps.len() - 1]),
                }));
            }
        }
    }
}

/// The last intent of a mover, when there is one, is one of the intents
/// and was made by that mover.
pub proof fn lemma_last_intent(intents: Seq<MoveIntent>, id: u32, k: int)
    requires
        0 <= k <= intents.len(),
    ensures
        match last_intent(intents, id, k) {
            Some(j) => 0 <= j < k && intents[j].mover_id == id,
            None => true,
        },
    decreases k,
{
    if k > 0 && intents[k - 1].mover_id != id {
        lemma_last_intent(intents, id, k - 1);
    }
}

/// Keeping the products on the belt keeps their cells distinct.
pub proof fn lemma_on_belt_distinct(ps: Seq<Product>)
    requires
        distinct_cells(ps),
    ensures
        distinct_cells(on_belt(ps)),
    decreases ps.len(),
{
    if ps.len() > 0 {
        let init = ps.drop_last();
        assert(distinct_cells(init)) by {
            assert forall|i: int, j: int| 0 <= i < j < init.len() implies (#[trigger] init[i]).pos
                != (#[trigger] init[j]).pos by {
                assert(init[i] == ps[i] && init[j] == ps[j]);
            }
        }
        lemma_on_belt_distinct(init);
        lemma_on_belt(init);
        let rest = on_belt(init);
        let out = on_belt(ps);
        let last = ps.last();
        if last.pos.0 < BELT_END_X {
            assert forall|i: int, j: int| 0 <= i < j < out.len() implies (#[trigger] out[i]).pos
                != (#[trigger] out[j]).pos by {
                if j == rest.len() {
                    let w = choose|w: int| 0 <= w < init.len() && init[w] == #[trigger] rest[i];
                    assert(out[i] == rest[i]);
                    assert(out[j] == last);
                    assert(ps[w] == init[w]);
                    assert(ps[ps.len() - 1] == last);
                } else {
                    assert(out[i] == rest[i] && out[j] == rest[j]);
                }
            }
        }
    }
}

/// Products on distinct cells with distinct ids are still on distinct
/// cells after a belt tick: a product only moves onto a cell that no
/// product occupied at the start of the tick, and a contested cell goes
/// to the lowest id alone.
pub proof fn lemma_belt_never_collides(ps: Seq<Product>, st: Seq<Station>)
    requires
        distinct_cells(ps),
        distinct_product_ids(ps),
    ensures
        distinct_cells(plan_products_spec(ps, st).0),
{
    lemma_assemble_all(ps, st);
    let updated = assemble_all(ps, st).0;
    let stations = assemble_all(ps, st).1;
    let occupied = product_cells(ps);
    let intents = product_intents(updated, blocked_cells(updated, stations), occupied);
    let settled = resolve_spec(intents);
    let placed = place_products(updated, intents, settled);
    lemma_product_intents(updated, blocked_cells(updated, stations), occupied);
    // Where each product ends up: its own cell, or a free cell it won.
    assert forall|i: int| 0 <= i < placed.len() implies placed[i].pos == ps[i].pos || (!occupied.contains(
        placed[i].pos,
    ) && exists|k: int|
        0 <= k < intents.len() && intents[k].mover_id == ps[i].id && wins(intents, k) && #[trigger] intents[k].to
            == placed[i].pos) by {
        lemma_last_intent(intents, updated[i].id, intents.len() as int);
        match last_intent(intents, updated[i].id, intents.len() as int) {
            Some(k) => {
                let j = choose|j: int|
                    0 <= j < updated.len() && #[trigger] intents[k] == (MoveIntent {
                        mover_id: updated[j].id,
                        from: updated[j].pos,
                        to: belt_next(updated[j]),
                    }) && !occupied.contains(belt_next(updated[j]));
                if j != i {
                    if i < j {
                        assert(ps[i].id != ps[j].id);
                    } else {
                        assert(ps[j].id != ps[i].id);
                    }
                }
                assert(j == i);
            },
            None => {},
        }
    }
    assert forall|i: int, j: int| 0 <= i < j < placed.len() implies (#[trigger] placed[i]).pos
        != (#[trigger] placed[j]).pos by {
        assert(occupied.contains(ps[i].pos)) by {
            assert(ps[i].pos == ps[i].pos);
        }
        assert(occupied.contains(ps[j].pos)) by {
            assert(ps[j].pos == ps[j].pos);
        }
        assert(ps[i].pos != ps[j].pos);
        assert(ps[i].id != ps[j].id);
        if placed[i].pos != ps[i].pos && placed[j].pos != ps[j].pos && placed[i].pos == placed[j].pos {
            let ki = choose|k: int|
                0 <= k < intents.len() && intents[k].mover_id == ps[i].id && wins(intents, k) && #[trigger] intents[k].to
                    == placed[i].pos;
            let kj = choose|k: int|
                0 <= k < intents.len() && intents[k].mover_id == ps[j].id && wins(intents, k) && #[trigger] intents[k].to
                    == placed[j].pos;
            assert(intents[ki].to == intents[kj].to);
            assert(intents[ki].mover_id <= intents[kj].mover_id);
            assert(intents[kj].mover_id <= intents[ki].mover_id);
        }
    }
    lemma_on_belt_distinct(placed);
}

/// Keeping the products on the belt keeps their ids distinct.
pub proof fn lemma_on_belt_distinct_ids(ps: Seq<Product>)
    requires
        distinct_product_ids(ps),
    ensures
        distinct_product_ids(on_belt(ps)),
    decreases ps.len(),
{
    if ps.len() > 0 {
        let init = ps.drop_last();
        assert(distinct_product_ids(init)) by {
            assert forall|i: int, j: int| 0 <= i < j < init.len() implies (#[trigger] init[i]).id
                != (#[trigger] init[j]).id by {
                assert(init[i] == ps[i] && init[j] == ps[j]);
            }
        }
        lemma_on_belt_distinct_ids(init);
        lemma_on_belt(init);
        let rest = on_belt(init);
        let out = on_belt(ps);
        let last = ps.last();
        if last.pos.0 < BELT_END_X {
            assert forall|i: int, j: int| 0 <= i < j < out.len() implies (#[trigger] out[i]).id
                != (#[trigger] out[j]).id by {
                if j == rest.len() {
                    let w = choose|w: int| 0 <= w < init.len() && init[w] == #[trigger] rest[i];
                    assert(out[i] == rest[i]);
                    assert(out[j] == last);
                    assert(ps[w] == init[w]);
                    assert(ps[ps.len() - 1] == last);
                } else {
                    assert(out[i] == rest[i] && out[j] == rest[j]);
                }
            }
        }
    }
}

/// A belt tick only moves products right along the belt: each product
/// after it is a product from before, with the same id, on the same cell
/// or on the next belt cell; and ids stay distinct.
pub proof fn lemma_belt_moves_right(ps: Seq<Product>, st: Seq<Station>)
    requires
        distinct_product_ids(ps),
    ensures
        forall|i: int|
            0 <= i < plan_products_spec(ps, st).0.len() ==> exists|j: int|
                0 <= j < ps.len() && ps[j].id == (#[trigger] plan_products_spec(ps, st).0[i]).id && (
                plan_products_spec(ps, st).0[i].pos == ps[j].pos || plan_products_spec(ps, st).0[i].pos == belt_next(
                    ps[j],
                )),
        distinct_product_ids(plan_products_spec(ps, st).0),
{
    lemma_assemble_all(ps, st);
    let updated = assemble_all(ps, st).0;
    let stations = assemble_all(ps, st).1;
    let occupied = product_cells(ps);
    let intents = product_intents(updated, blocked_cells(updated, stations), occupied);
    let settled = resolve_spec(intents);
    let placed = place_products(updated, intents, settled);
    lemma_product_intents(updated, blocked_cells(updated, stations), occupied);
    assert forall|i: int| 0 <= i < placed.len() implies placed[i].id == ps[i].id && (placed[i].pos == ps[i].pos
        || placed[i].pos == belt_next(ps[i])) by {
        lemma_last_intent(intents, updated[i].id, intents.len() as int);
        match last_intent(intents, updated[i].id, intents.len() as int) {
            Some(k) => {
                let j = choose|j: int|
                    0 <= j < updated.len() && #[trigger] intents[k] == (MoveIntent {
                        mover_id: updated[j].id,
                        from: updated[j].pos,
                        to: belt_next(updated[j]),
                    }) && !occupied.contains(belt_next(updated[j]));
                if j != i {
                    if i < j {
                        assert(ps[i].id != ps[j].id);
                    } else {
                        assert(ps[j].id != ps[i].id);
                    }
                }
            },
            None => {},
        }
    }
    assert(distinct_product_ids(placed)) by {
        assert forall|i: int, j: int| 0 <= i < j < placed.len() implies (#[trigger] placed[i]).id
            != (#[trigger] placed[j]).id by {
            assert(placed[i].id == ps[i].id && placed[j].id == ps[j].id);
        }
    }
    lemma_on_belt(placed);
    lemma_on_belt_distinct_ids(placed);
    let out = on_belt(placed);
    assert forall|i: int| 0 <= i < out.len() implies exists|j: int|
        0 <= j < ps.len() && ps[j].id == (#[trigger] out[i]).id && (out[i].pos == ps[j].pos || out[i].pos
            == belt_next(ps[j])) by {
        let j = choose|j: int| 0 <= j < placed.len() && placed[j] == out[i];
        assert(placed[j].id == ps[j].id);
    }
}

/// Whether a product is still before the end column of the belt.
pub open spec fn before_belt_end(p: Product) -> bool {
    p.pos.0 < BELT_END_X
}

/// The products that stay on the belt.
pub open spec fn stays_on_belt() -> spec_fn(Product) -> bool {
    |p: Product| before_belt_end(p)
}

/// The products of a belt tick before those at the end leave: the
/// assembled products, each placed where its move was settled.
pub open spec fn belt_placed(ps: Seq<Product>, st: Seq<Station>) -> Seq<Product> {
    let assembled = assemble_all(ps, st);
    let intents = product_intents(assembled.0, blocked_cells(assembled.0, assembled.1), product_cells(ps));
    place_products(assembled.0, intents, resolve_spec(intents))
}

/// Keeping the products on the belt is filtering by `before_belt_end`.
proof fn lemma_on_belt_is_filter(ps: Seq<Product>)
    ensures
        on_belt(ps) == ps.filter(stays_on_belt()),
    decreases ps.len(),
{
    reveal(Seq::filter);
    if ps.len() > 0 {
        lemma_on_belt_is_filter(ps.drop_last());
    }
}

/// A product whose id is unique in `ps` is kept by the filter exactly when
/// it is before the end column.
proof fn lemma_filter_keeps_id(ps: Seq<Product>, i: int)
    requires
        distinct_product_ids(ps),
        0 <= i < ps.len(),
    ensures
        (exists|j: int|
            0 <= j < ps.filter(stays_on_belt()).len() && (#[trigger] ps.filter(stays_on_belt())[j]).id == ps[i].id) == before_belt_end(ps[i]),
{
    let pred = stays_on_belt();
    let f = ps.filter(pred);
    lemma_on_belt_is_filter(ps);
    lemma_on_belt(ps);
    if before_belt_end(ps[i]) {
        ps.lemma_filter_contains(pred, i);
        let j = choose|j: int| 0 <= j < f.len() && f[j] == ps[i];
        assert(f[j].id == ps[i].id);
    } else {
        if exists|j: int| 0 <= j < f.len() && (#[trigger] f[j]).id == ps[i].id {
            let j = choose|j: int| 0 <= j < f.len() && (#[trigger] f[j]).id == ps[i].id;
            assert(f[j].pos.0 < BELT_END_X);
            let k = choose|k: int| 0 <= k < ps.len() && ps[k] == f[j];
            if k < i {
                assert(ps[k].id != ps[i].id);
            } else if k > i {
                assert(ps[i].id != ps[k].id);
            }
        }
    }
}

/// A belt tick keeps the products in their order: each product is first
/// placed on its own cell or the next belt cell, keeping its id, and then
/// exactly those before the end column stay, in order; a product leaves
/// the line exactly when it reaches the end column.
pub proof fn lemma_belt_keeps_order(ps: Seq<Product>, st: Seq<Station>)
    requires
        distinct_product_ids(ps),
    ensures
        belt_placed(ps, st).len() == ps.len(),
        forall|i: int|
            0 <= i < ps.len() ==> (#[trigger] belt_placed(ps, st)[i]).id == ps[i].id && (belt_placed(ps, st)[i].pos
                == ps[i].pos || belt_placed(ps, st)[i].pos == belt_next(ps[i])),
        plan_products_spec(ps, st).0 == belt_placed(ps, st).filter(stays_on_belt()),
        forall|i: int|
            0 <= i < ps.len() ==> (exists|j: int|
                0 <= j < plan_products_spec(ps, st).0.len() && (#[trigger] plan_products_spec(ps, st).0[j]).id
                    == ps[i].id) == before_belt_end(#[trigger] belt_placed(ps, st)[i]),
{
    lemma_assemble_all(ps, st);
    let updated = assemble_all(ps, st).0;
    let stations = assemble_all(ps, st).1;
    let occupied = product_cells(ps);
    let intents = product_intents(updated, blocked_cells(updated, stations), occupied);
    let placed = belt_placed(ps, st);
    lemma_product_intents(updated, blocked_cells(updated, stations), occupied);
    assert forall|i: int| 0 <= i < ps.len() implies (#[trigger] placed[i]).id == ps[i].id && (placed[i].pos
        == ps[i].pos || placed[i].pos == belt_next(ps[i])) by {
        lemma_last_intent(intents, updated[i].id, intents.len() as int);
        match last_intent(intents, updated[i].id, intents.len() as int) {
            Some(k) => {
                let j = choose|j: int|
                    0 <= j < updated.len() && #[trigger] intents[k] == (MoveIntent {
                        mover_id: updated[j].id,
                        from: updated[j].pos,
                        to: belt_next(updated[j]),
                    }) && !occupied.contains(belt_next(updated[j]));
                if j != i {
                    if i < j {
                        assert(ps[i].id != ps[j].id);
                    } else {
                        assert(ps[j].id != ps[i].id);
                    }
                }
            },
            None => {},
        }
    }
    assert(distinct_product_ids(placed)) by {
        assert forall|i: int, j: int| 0 <= i < j < placed.len() implies (#[trigger] placed[i]).id
            != (#[trigger] placed[j]).id by {
            assert(placed[i].id == ps[i].id && placed[j].id == ps[j].id);
        }
    }
    lemma_on_belt_is_filter(placed);
    assert(plan_products_spec(ps, st).0 == on_belt(placed));
    assert forall|i: int| 0 <= i < ps.len() implies (exists|j: int|
        0 <= j < plan_products_spec(ps, st).0.len() && (#[trigger] plan_products_spec(ps, st).0[j]).id == ps[i].id)
        == before_belt_end(#[trigger] placed[i]) by {
        lemma_filter_keeps_id(placed, i);
    }
}

} // verus!
