//! Drainage flux routing.
//!
//! Cells are processed in order of descending height, so every cell's
//! inbound flux is complete before the cell passes it on. Each land cell
//! outside any lake discharges one unit plus its accumulated inbound flux
//! to its lowest neighbour; lake members contribute nothing individually —
//! their collected inflow plus the lake's area leaves through the lake's
//! highest shore point. Routing is gated: a cell passes flux on only when
//! it has more than two neighbours and its lowest neighbour lies strictly
//! below it.
//!
//! The router's contract pins the whole result to `route_upto`, a
//! mathematical fold over the deterministic processing order, so two runs
//! on the same input return identical fields.

use vstd::pervasive::VecAdditionalExecFns;
use vstd::prelude::*;

use crate::lakes::Lake;

verus! {

/// Addition that tops out at `u64::MAX` instead of overflowing. Flux sums
/// on any realistic mesh stay far below the cap.
pub open spec fn sat(a: int, b: int) -> int {
    if a + b > u64::MAX as int {
        u64::MAX as int
    } else {
        a + b
    }
}

fn sat_add(a: u64, b: u64) -> (r: u64)
    ensures
        r == sat(a as int, b as int),
{
    if a > u64::MAX - b {
        u64::MAX
    } else {
        a + b
    }
}

/// The adjacency table is mesh-shaped for `n` cells: one non-empty
/// neighbour list per cell, every neighbour a valid cell index.
pub open spec fn adjacency_wf(adjacent: Seq<Vec<usize>>, n: int) -> bool {
    &&& adjacent.len() == n
    &&& forall|i: int, j: int|
        0 <= i < adjacent.len() && 0 <= j < adjacent[i].len() ==> (#[trigger] adjacent[i][j]) < n
    &&& forall|i: int| 0 <= i < adjacent.len() ==> #[trigger] adjacent[i].len() >= 1
}

/// Inserts cell `c` into an order held descending by height: `c` moves
/// left past every entry strictly lower than it, so equal heights keep
/// their insertion order.
pub open spec fn insert_desc(ord: Seq<usize>, c: usize, h: Seq<i64>) -> Seq<usize>
    decreases ord.len(),
{
    if ord.len() == 0 {
        seq![c]
    } else if h[ord.last() as int] < h[c as int] {
        insert_desc(ord.drop_last(), c, h).push(ord.last())
    } else {
        ord.push(c)
    }
}

/// The first `c` cells in processing order: height descending, equal
/// heights by ascending cell index.
pub open spec fn order_upto(h: Seq<i64>, c: int) -> Seq<usize>
    decreases c,
{
    if c <= 0 {
        Seq::empty()
    } else {
        insert_desc(order_upto(h, c - 1), (c - 1) as usize, h)
    }
}

/// The deterministic processing order of the flux router.
pub open spec fn descending_order(h: Seq<i64>) -> Seq<usize> {
    order_upto(h, h.len() as int)
}

/// The first lowest neighbour among `row[0..upto]`.
pub open spec fn min_neighbor(h: Seq<i64>, row: Seq<usize>, upto: int) -> usize
    decreases upto,
{
    if upto <= 1 {
        row[0]
    } else {
        let prev = min_neighbor(h, row, upto - 1);
        if h[row[upto - 1] as int] < h[prev as int] {
            row[upto - 1]
        } else {
            prev
        }
    }
}

/// One routing step at cell `p`: compute the outbound discharge and hand
/// it to the lowest neighbour, or to that neighbour's lake, when the
/// degree gate and the strict descent test pass.
pub open spec fn route_step(
    h: Seq<i64>,
    adjacent: Seq<Vec<usize>>,
    f: Seq<u64>,
    lakes: Seq<Lake>,
    assoc: Seq<Option<usize>>,
    p: int,
) -> (Seq<u64>, Seq<Lake>) {
    let row = adjacent[p]@;
    let d = min_neighbor(h, row, row.len() as int) as int;
    let out = match assoc[p] {
        Some(k) => if lakes[k as int].highest_shore_point == p {
            sat(lakes[k as int].inflow_flux as int, lakes[k as int].area as int)
        } else {
            0
        },
        None => sat(f[p] as int, 1),
    };
    if row.len() > 2 && h[d] < h[p] {
        match assoc[d] {
            Some(k) => (
                f,
                lakes.update(
                    k as int,
                    Lake {
                        inflow_flux: sat(lakes[k as int].inflow_flux as int, out) as u64,
                        ..lakes[k as int]
                    },
                ),
            ),
            None => (f.update(d, sat(f[d] as int, out) as u64), lakes),
        }
    } else {
        (f, lakes)
    }
}

/// The flux field and lake table after the first `t` cells of `ord` have
/// routed, starting from a zero field and the given lakes.
pub open spec fn route_upto(
    h: Seq<i64>,
    adjacent: Seq<Vec<usize>>,
    lakes0: Seq<Lake>,
    assoc: Seq<Option<usize>>,
    ord: Seq<usize>,
    t: int,
) -> (Seq<u64>, Seq<Lake>)
    decreases t,
{
    if t <= 0 {
        (Seq::new(h.len(), |i: int| 0u64), lakes0)
    } else {
        let prev = route_upto(h, adjacent, lakes0, assoc, ord, t - 1);
        route_step(h, adjacent, prev.0, prev.1, assoc, ord[t - 1] as int)
    }
}

/// The selected lowest neighbour is one of the row's entries.
proof fn lemma_min_neighbor_in(h: Seq<i64>, row: Seq<usize>, upto: int)
    requires
        1 <= upto <= row.len(),
    ensures
        exists|j: int| 0 <= j < upto && row[j] == min_neighbor(h, row, upto),
    decreases upto,
{
    if upto == 1 {
        assert(row[0] == min_neighbor(h, row, 1));
    } else {
        lemma_min_neighbor_in(h, row, upto - 1);
        let prev = min_neighbor(h, row, upto - 1);
        if h[row[upto - 1] as int] < h[prev as int] {
            assert(row[upto - 1] == min_neighbor(h, row, upto));
        } else {
            let j = choose|j: int| 0 <= j < upto - 1 && row[j] == min_neighbor(h, row, upto - 1);
            assert(row[j] == min_neighbor(h, row, upto));
        }
    }
}

/// Total flux recorded across all cells.
pub open spec fn sum_flux(f: Seq<u64>) -> int
    decreases f.len(),
{
    if f.len() == 0 {
        0
    } else {
        sum_flux(f.drop_last()) + f.last()
    }
}

/// Total inflow recorded across all lakes.
pub open spec fn sum_inflow(lakes: Seq<Lake>) -> int
    decreases lakes.len(),
{
    if lakes.len() == 0 {
        0
    } else {
        sum_inflow(lakes.drop_last()) + lakes.last().inflow_flux
    }
}

/// The discharge cell `p` sends downstream in the given state: zero when
/// the degree gate or the strict-descent test blocks routing.
pub open spec fn step_emission(
    h: Seq<i64>,
    adjacent: Seq<Vec<usize>>,
    f: Seq<u64>,
    lakes: Seq<Lake>,
    assoc: Seq<Option<usize>>,
    p: int,
) -> int {
    let row = adjacent[p]@;
    let d = min_neighbor(h, row, row.len() as int) as int;
    let out = match assoc[p] {
        Some(k) => if lakes[k as int].highest_shore_point == p {
            sat(lakes[k as int].inflow_flux as int, lakes[k as int].area as int)
        } else {
            0
        },
        None => sat(f[p] as int, 1),
    };
    if row.len() > 2 && h[d] < h[p] {
        out
    } else {
        0
    }
}

/// Neither the outbound discharge of `p` nor its delivery saturates in
/// the given state.
pub open spec fn step_exact(
    h: Seq<i64>,
    adjacent: Seq<Vec<usize>>,
    f: Seq<u64>,
    lakes: Seq<Lake>,
    assoc: Seq<Option<usize>>,
    p: int,
) -> bool {
    let row = adjacent[p]@;
    let d = min_neighbor(h, row, row.len() as int) as int;
    let out = match assoc[p] {
        Some(k) => if lakes[k as int].highest_shore_point == p {
            sat(lakes[k as int].inflow_flux as int, lakes[k as int].area as int)
        } else {
            0
        },
        None => sat(f[p] as int, 1),
    };
    &&& (match assoc[p] {
        Some(k) => lakes[k as int].highest_shore_point == p ==> lakes[k as int].inflow_flux
            + lakes[k as int].area <= u64::MAX,
        None => f[p] + 1 <= u64::MAX,
    })
    &&& (row.len() > 2 && h[d] < h[p] ==> match assoc[d] {
        Some(k) => lakes[k as int].inflow_flux + out <= u64::MAX,
        None => f[d] + out <= u64::MAX,
    })
}

/// Total discharge emitted by the first `t` cells of `ord`.
pub open spec fn emitted_upto(
    h: Seq<i64>,
    adjacent: Seq<Vec<usize>>,
    lakes0: Seq<Lake>,
    assoc: Seq<Option<usize>>,
    ord: Seq<usize>,
    t: int,
) -> int
    decreases t,
{
    if t <= 0 {
        0
    } else {
        let prev = route_upto(h, adjacent, lakes0, assoc, ord, t - 1);
        emitted_upto(h, adjacent, lakes0, assoc, ord, t - 1) + step_emission(
            h,
            adjacent,
            prev.0,
            prev.1,
            assoc,
            ord[t - 1] as int,
        )
    }
}

/// No addition of the first `t` routing steps saturates.
pub open spec fn exact_upto(
    h: Seq<i64>,
    adjacent: Seq<Vec<usize>>,
    lakes0: Seq<Lake>,
    assoc: Seq<Option<usize>>,
    ord: Seq<usize>,
    t: int,
) -> bool
    decreases t,
{
    if t <= 0 {
        true
    } else {
        let prev = route_upto(h, adjacent, lakes0, assoc, ord, t - 1);
        exact_upto(h, adjacent, lakes0, assoc, ord, t - 1) && step_exact(
            h,
            adjacent,
            prev.0,
            prev.1,
            assoc,
            ord[t - 1] as int,
        )
    }
}

/// Updating one cell shifts the flux total by the difference.
proof fn lemma_sum_flux_update(f: Seq<u64>, i: int, v: u64)
    requires
        0 <= i < f.len(),
    ensures
        sum_flux(f.update(i, v)) == sum_flux(f) - f[i] + v,
    decreases f.len(),
{
    if i == f.len() - 1 {
        assert(f.update(i, v).drop_last() =~= f.drop_last());
        assert(f.update(i, v).last() == v);
    } else {
        lemma_sum_flux_update(f.drop_last(), i, v);
        assert(f.update(i, v).drop_last() =~= f.drop_last().update(i, v));
        assert(f.update(i, v).last() == f.last());
    }
}

/// Updating one lake shifts the inflow total by the difference.
proof fn lemma_sum_inflow_update(lakes: Seq<Lake>, i: int, l: Lake)
    requires
        0 <= i < lakes.len(),
    ensures
        sum_inflow(lakes.update(i, l)) == sum_inflow(lakes) - lakes[i].inflow_flux + l.inflow_flux,
    decreases lakes.len(),
{
    if i == lakes.len() - 1 {
        assert(lakes.update(i, l).drop_last() =~= lakes.drop_last());
        assert(lakes.update(i, l).last() == l);
    } else {
        lemma_sum_inflow_update(lakes.drop_last(), i, l);
        assert(lakes.update(i, l).drop_last() =~= lakes.drop_last().update(i, l));
        assert(lakes.update(i, l).last() == lakes.last());
    }
}

proof fn lemma_sum_flux_zero(n: int)
    requires
        0 <= n,
    ensures
        sum_flux(Seq::new(n as nat, |i: int| 0u64)) == 0,
    decreases n,
{
    if n > 0 {
        lemma_sum_flux_zero(n - 1);
        assert(Seq::new(n as nat, |i: int| 0u64).drop_last() =~= Seq::new(
            (n - 1) as nat,
            |i: int| 0u64,
        ));
    }
}

/// Law: routing conserves discharge. As long as no addition saturates,
/// the flux and inflow totals after `t` steps equal the initial inflow
/// total plus everything emitted: each emission is recorded exactly once.
pub proof fn lemma_flux_conservation(
    h: Seq<i64>,
    adjacent: Seq<Vec<usize>>,
    lakes0: Seq<Lake>,
    assoc: Seq<Option<usize>>,
    ord: Seq<usize>,
    t: int,
)
    requires
        0 <= t <= ord.len(),
        adjacency_wf(adjacent, h.len() as int),
        assoc.len() == h.len(),
        forall|i: int| 0 <= i < ord.len() ==> (#[trigger] ord[i]) < h.len(),
        forall|i: int|
            0 <= i < assoc.len() ==> ((#[trigger] assoc[i]) matches Some(k) ==> (k as int)
                < lakes0.len()),
        exact_upto(h, adjacent, lakes0, assoc, ord, t),
    ensures
        ({
            let folded = route_upto(h, adjacent, lakes0, assoc, ord, t);
            sum_flux(folded.0) + sum_inflow(folded.1) == sum_inflow(lakes0) + emitted_upto(
                h,
                adjacent,
                lakes0,
                assoc,
                ord,
                t,
            )
        }),
        route_upto(h, adjacent, lakes0, assoc, ord, t).0.len() == h.len(),
        route_upto(h, adjacent, lakes0, assoc, ord, t).1.len() == lakes0.len(),
    decreases t,
{
    if t == 0 {
        lemma_sum_flux_zero(h.len() as int);
        assert(route_upto(h, adjacent, lakes0, assoc, ord, 0).0 =~= Seq::new(
            h.len(),
            |i: int| 0u64,
        ));
    } else {
        lemma_flux_conservation(h, adjacent, lakes0, assoc, ord, t - 1);
        let prev = route_upto(h, adjacent, lakes0, assoc, ord, t - 1);
        let p = ord[t - 1] as int;
        let row = adjacent[p]@;
        let d = min_neighbor(h, row, row.len() as int) as int;
        let out = match assoc[p] {
            Some(k) => if prev.1[k as int].highest_shore_point == p {
                sat(prev.1[k as int].inflow_flux as int, prev.1[k as int].area as int)
            } else {
                0
            },
            None => sat(prev.0[p] as int, 1),
        };
        assert(step_exact(h, adjacent, prev.0, prev.1, assoc, p));
        if row.len() > 2 && h[d] < h[p] {
            lemma_min_neighbor_in(h, row, row.len() as int);
            let j = choose|j: int|
                0 <= j < row.len() && row[j] == min_neighbor(h, row, row.len() as int);
            assert(adjacent[p][j] < h.len());
            assert(0 <= d < h.len());
            match assoc[d] {
                Some(k) => {
                    let l1 = Lake {
                        inflow_flux: sat(prev.1[k as int].inflow_flux as int, out) as u64,
                        ..prev.1[k as int]
                    };
                    lemma_sum_inflow_update(prev.1, k as int, l1);
                },
                None => {
                    lemma_sum_flux_update(prev.0, d, sat(prev.0[d] as int, out) as u64);
                },
            }
        }
    }
}

/// Splitting an insertion at the final resting position: `c` lands right
/// after the last entry at least as high as it.
proof fn lemma_insert_desc_at(ord: Seq<usize>, c: usize, h: Seq<i64>, u: int)
    requires
        0 <= u <= ord.len(),
        forall|j: int| u <= j < ord.len() ==> h[(#[trigger] ord[j]) as int] < h[c as int],
        u > 0 ==> h[ord[u - 1] as int] >= h[c as int],
    ensures
        insert_desc(ord, c, h) == ord.take(u) + seq![c] + ord.skip(u),
    decreases ord.len(),
{
    if u == ord.len() {
        if ord.len() == 0 {
            assert(insert_desc(ord, c, h) =~= ord.take(u) + seq![c] + ord.skip(u));
        } else {
            assert(h[ord.last() as int] >= h[c as int]);
            assert(insert_desc(ord, c, h) =~= ord.take(u) + seq![c] + ord.skip(u));
        }
    } else {
        assert(h[ord.last() as int] < h[c as int]);
        let p = ord.drop_last();
        lemma_insert_desc_at(p, c, h, u);
        assert(insert_desc(ord, c, h) == insert_desc(p, c, h).push(ord.last()));
        assert(p.take(u) =~= ord.take(u));
        assert((p.take(u) + seq![c] + p.skip(u)).push(ord.last()) =~= ord.take(u) + seq![c]
            + ord.skip(u));
    }
}

/// Routes accumulated drainage down the steepest-descent forest.
///
/// The returned flux field and the updated lake inflows are exactly the
/// fold of `route_step` over the cells in descending height order (equal
/// heights by ascending index), so routing is deterministic. Lake members
/// keep a flux of zero — their discharge is represented by their lake's
/// inflow and area, emitted at the lake's highest shore point — and every
/// lake field other than `inflow_flux` is left untouched.
pub fn get_flux(
    heights: &Vec<i64>,
    adjacent: &Vec<Vec<usize>>,
    lakes: &mut Vec<Lake>,
    lake_associations: &Vec<Option<usize>>,
) -> (flux: Vec<u64>)
    requires
        adjacency_wf(adjacent@, heights@.len() as int),
        lake_associations@.len() == heights@.len(),
        forall|i: int|
            0 <= i < lake_associations@.len() ==> ((#[trigger] lake_associations@[i]) matches Some(
                k,
            ) ==> (k as int) < old(lakes)@.len()),
    ensures
        ({
            let folded = route_upto(
                heights@,
                adjacent@,
                old(lakes)@,
                lake_associations@,
                descending_order(heights@),
                heights@.len() as int,
            );
            flux@ == folded.0 && final(lakes)@ == folded.1
        }),
        flux@.len() == heights@.len(),
        forall|i: int|
            0 <= i < flux@.len() && (#[trigger] lake_associations@[i]) is Some ==> flux@[i] == 0,
        final(lakes)@.len() == old(lakes)@.len(),
        forall|k: int|
            0 <= k < old(lakes)@.len() ==> {
                let l0 = old(lakes)@[k];
                let l1 = (#[trigger] final(lakes)@[k]);
                l1.water_level == l0.water_level && l1.area == l0.area
                    && l1.highest_shore_point == l0.highest_shore_point
            },
{
    let ghost h = heights@;
    let ghost assoc = lake_associations@;
    let ghost lakes0 = old(lakes)@;
    let n = heights.len();

    let mut flux: Vec<u64> = Vec::new();
    let mut z: usize = 0;
    while z < n
        invariant
            z <= n,
            flux@.len() == z as int,
            forall|i: int| 0 <= i < z ==> #[trigger] flux@[i] == 0,
        decreases n - z,
    {
        flux.push(0);
        z = z + 1;
    }
    proof {
        assert(flux@ =~= Seq::new(h.len(), |i: int| 0u64));
    }

    // processing order: height descending, equal heights by cell index
    let mut sorted: Vec<usize> = Vec::new();
    let mut c: usize = 0;
    while c < n
        invariant
            c <= n,
            sorted@.len() == c as int,
            forall|i: int| 0 <= i < c ==> (#[trigger] sorted@[i]) == i,
        decreases n - c,
    {
        sorted.push(c);
        c = c + 1;
    }
    let mut s: usize = 1;
    proof {
        if n > 0 {
            assert(order_upto(h, 0) == Seq::<usize>::empty());
            assert(order_upto(h, 1) == insert_desc(Seq::<usize>::empty(), 0usize, h));
            assert(insert_desc(Seq::<usize>::empty(), 0usize, h) =~= seq![0usize]);
            assert(sorted@.take(1) =~= seq![0usize]);
        }
    }
    while s < n
        invariant
            1 <= s <= n || n == 0,
            sorted@.len() == n as int,
            heights@ == h,
            h.len() == n as int,
            n > 0 ==> sorted@.take(s as int) == order_upto(h, s as int),
            forall|i: int| s <= i < n ==> (#[trigger] sorted@[i]) == i,
            forall|i: int| 0 <= i < sorted@.len() ==> (#[trigger] sorted@[i]) < n,
        decreases n - s,
    {
        let ghost prefix = order_upto(h, s as int);
        let cell = sorted[s];
        proof {
            assert(cell == s);
        }
        let mut u: usize = s;
        let mut stop = false;
        while u > 0 && !stop
            invariant
                u <= s < n,
                stop ==> u > 0 && h[prefix[u as int - 1] as int] >= h[cell as int],
                sorted@.len() == n as int,
                heights@ == h,
                h.len() == n as int,
                prefix == order_upto(h, s as int),
                prefix.len() == s as int,
                cell == s,
                sorted@[u as int] == cell,
                sorted@.take(u as int) == prefix.take(u as int),
                sorted@.subrange(u as int + 1, s as int + 1) == prefix.skip(u as int),
                forall|j: int|
                    u <= j < prefix.len() ==> h[(#[trigger] prefix[j]) as int] < h[cell as int],
                forall|i: int| s < i < n ==> (#[trigger] sorted@[i]) == i,
                forall|i: int| 0 <= i < sorted@.len() ==> (#[trigger] sorted@[i]) < n,
            decreases (u as int) * 2 + (if stop { 0int } else { 1int }),
        {
            let a = sorted[u - 1];
            let b = sorted[u];
            if heights[a] < heights[b] {
                let ghost pre = sorted@;
                sorted.set(u - 1, b);
                sorted.set(u, a);
                proof {
                    assert(pre.take(u as int)[u as int - 1] == prefix.take(u as int)[u as int - 1]);
                    assert(pre[u as int - 1] == prefix[u as int - 1]);
                    assert forall|i: int| 0 <= i < u as int - 1 implies sorted@[i] == prefix[i] by {
                        assert(pre.take(u as int)[i] == prefix.take(u as int)[i]);
                    }
                    assert(sorted@.take(u as int - 1) =~= prefix.take(u as int - 1));
                    assert forall|i: int|
                        u as int <= i < s as int + 1 implies sorted@[i] == prefix[i - 1] by {
                        if i > u as int {
                            assert(pre.subrange(u as int + 1, s as int + 1)[i - u as int - 1]
                                == prefix.skip(u as int)[i - u as int - 1]);
                            assert(sorted@[i] == pre[i]);
                        }
                    }
                    assert(sorted@.subrange(u as int, s as int + 1) =~= prefix.skip(u as int - 1));
                }
                u = u - 1;
            } else {
                proof {
                    assert(sorted@.take(u as int)[u as int - 1] == prefix.take(u as int)[u as int
                        - 1]);
                    assert(sorted@[u as int - 1] == prefix[u as int - 1]);
                }
                stop = true;
            }
        }
        proof {
            lemma_insert_desc_at(prefix, cell, h, u as int);
            assert(sorted@.take(s as int + 1) =~= prefix.take(u as int) + seq![cell] + prefix.skip(
                u as int,
            ));
            assert(sorted@.take(s as int + 1) == insert_desc(prefix, cell, h));
            assert(order_upto(h, s as int + 1) == insert_desc(order_upto(h, s as int), s as usize, h));
        }
        s = s + 1;
    }
    proof {
        if n > 0 {
            assert(sorted@.take(n as int) =~= sorted@);
        } else {
            assert(sorted@ =~= Seq::<usize>::empty());
            assert(sorted@ =~= descending_order(h));
        }
        assert(sorted@ == descending_order(h));
    }

    // route, upstream before downstream
    let mut t: usize = 0;
    while t < n
        invariant
            heights@ == h,
            lake_associations@ == assoc,
            lakes0 == old(lakes)@,
            h.len() == n as int,
            assoc.len() == n as int,
            sorted@.len() == n as int,
            sorted@ == descending_order(h),
            forall|i: int| 0 <= i < sorted@.len() ==> (#[trigger] sorted@[i]) < n,
            adjacency_wf(adjacent@, n as int),
            t <= n,
            flux@.len() == n as int,
            forall|i: int|
                0 <= i < n && (#[trigger] assoc[i]) is Some ==> flux@[i] == 0,
            lakes@.len() == lakes0.len(),
            forall|i: int|
                0 <= i < assoc.len() ==> ((#[trigger] assoc[i]) matches Some(k) ==> (k as int)
                    < lakes0.len()),
            forall|k: int|
                0 <= k < lakes0.len() ==> {
                    let l0 = lakes0[k];
                    let l1 = (#[trigger] lakes@[k]);
                    l1.water_level == l0.water_level && l1.area == l0.area
                        && l1.highest_shore_point == l0.highest_shore_point
                },
            (flux@, lakes@) == route_upto(h, adjacent@, lakes0, assoc, sorted@, t as int),
        decreases n - t,
    {
        let ghost state_pre = (flux@, lakes@);
        let p = sorted[t];

        // steepest descent: the lowest neighbour, first one on ties
        let row_len = adjacent[p].len();
        let mut lowest = adjacent[p][0];
        let mut j: usize = 1;
        while j < row_len
            invariant
                heights@ == h,
                h.len() == n as int,
                adjacency_wf(adjacent@, n as int),
                (p as int) < n,
                row_len == adjacent@[p as int].len(),
                1 <= j <= row_len,
                (lowest as int) < n,
                lowest == min_neighbor(h, adjacent@[p as int]@, j as int),
            decreases row_len - j,
        {
            let cand = adjacent[p][j];
            if heights[cand] < heights[lowest] {
                lowest = cand;
            }
            j = j + 1;
        }

        // discharge leaving this cell
        let out: u64 = match lake_associations[p] {
            Some(lake_id) => {
                let lake = lakes[lake_id];
                if lake.highest_shore_point == p {
                    sat_add(lake.inflow_flux, lake.area as u64)
                } else {
                    0
                }
            },
            None => sat_add(flux[p], 1),
        };

        if row_len > 2 && heights[lowest] < heights[p] {
            match lake_associations[lowest] {
                Some(lake_id) => {
                    let lake = lakes[lake_id];
                    let updated = Lake { inflow_flux: sat_add(lake.inflow_flux, out), ..lake };
                    lakes.set(lake_id, updated);
                },
                None => {
                    let grown = sat_add(flux[lowest], out);
                    flux.set(lowest, grown);
                },
            }
        }
        proof {
            let stepped = route_step(h, adjacent@, state_pre.0, state_pre.1, assoc, p as int);
            assert(flux@ =~= stepped.0);
            assert(lakes@ =~= stepped.1);
            assert(route_upto(h, adjacent@, lakes0, assoc, sorted@, t as int + 1) == stepped);
        }
        t = t + 1;
    }
    flux
}

} // verus!
