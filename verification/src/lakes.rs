//! Lake generation: a priority flood that grows lakes from strict local
//! minima, merging lakes that meet, until each finds a spill point or the
//! map border.
//!
//! The governing facts proved here: lake cells always lie strictly above
//! sea level; a lake's published area counts exactly the cells associated
//! to it (at least two of them); every live lake's highest shore point is
//! a member cell at the water level with a downhill exit or a border
//! position; every strict local minimum above sea level ends up in some
//! lake; and every lake grew out of such a minimum. Growth can fail only
//! by exhausting a shore queue, and only after a lake was seeded.

use vstd::multiset::Multiset;
use vstd::pervasive::VecAdditionalExecFns;
use vstd::prelude::*;
use vstd::set_lib::lemma_int_range;
use vstd::set_lib::lemma_len_subset;
use vstd::set_lib::set_int_range;

use crate::mesh::Mesh;
use crate::shore::ShorePoint;
use crate::shore::ShoreQueue;

verus! {

broadcast use {
    vstd::multiset::group_multiset_axioms,
    vstd::multiset::group_multiset_properties,
};

/// A lake on the map, published once growth has finished.
///
/// `inflow_flux` starts at zero and is raised only by the flux router.
#[derive(Clone, Copy, PartialEq, Eq, Structural, Debug)]
pub struct Lake {
    pub water_level: i64,
    pub area: usize,
    pub highest_shore_point: usize,
    pub inflow_flux: u64,
}

/// Growth failure: a depression's shore queue ran dry before any spill
/// point or border cell was reached, which indicates an inconsistent mesh
/// (a depression with no boundary).
#[derive(Clone, Copy, PartialEq, Eq, Structural, Debug)]
pub enum LakeError {
    ShoresExhausted,
}

/// A lake under construction: the published fields plus the queue of
/// candidate shore cells.
struct LakeBuilder {
    water_level: i64,
    area: usize,
    highest_shore_point: usize,
    shores: ShoreQueue,
}

/// The cells currently associated to lake `k`.
pub open spec fn members(assoc: Seq<Option<usize>>, k: usize) -> Set<int> {
    Set::new(|i: int| 0 <= i < assoc.len() && assoc[i] == Some(k))
}

/// Lake `k` has at least one member cell.
pub open spec fn live(assoc: Seq<Option<usize>>, k: usize) -> bool {
    exists|i: int| 0 <= i < assoc.len() && #[trigger] assoc[i] == Some(k)
}

/// Cell `i` is a strict local minimum above sea level: every neighbour is
/// strictly higher. These are exactly the seeds of lake growth.
pub open spec fn is_local_min(h: Seq<i64>, mesh: &Mesh, sea: i64, i: int) -> bool {
    &&& h[i] > sea
    &&& forall|j: int|
        0 <= j < mesh.adjacent@[i].len() ==> h[#[trigger] mesh.adjacent@[i][j] as int] > h[i]
}

/// The spill-point guarantee for a live lake `k` with water level `wl` and
/// highest shore point `hsp`: the spill cell is a member at exactly the
/// water level, and either sits on the map border or has a strictly lower
/// neighbour outside the lake.
pub open spec fn spill_ok(
    h: Seq<i64>,
    mesh: &Mesh,
    assoc: Seq<Option<usize>>,
    k: usize,
    wl: i64,
    hsp: usize,
) -> bool {
    &&& (hsp as int) < h.len()
    &&& assoc[hsp as int] == Some(k)
    &&& h[hsp as int] == wl
    &&& (mesh.border@[hsp as int] || exists|j: int|
        0 <= j < mesh.adjacent@[hsp as int].len()
            && h[#[trigger] mesh.adjacent@[hsp as int][j] as int] < wl
            && assoc[mesh.adjacent@[hsp as int][j] as int] != Some(k))
}

/// Every queued shore entry names a real cell, carries that cell's height,
/// and lies strictly above sea level.
spec fn shores_ok(q: Multiset<ShorePoint>, h: Seq<i64>, sea: i64) -> bool {
    forall|e: ShorePoint| #[trigger] q.count(e) > 0
        ==> (e.id as int) < h.len() && e.height == h[e.id as int] && e.height > sea
}

/// Per-builder bookkeeping invariant for slot `k`.
spec fn builder_ok(
    h: Seq<i64>,
    sea: i64,
    assoc: Seq<Option<usize>>,
    b: LakeBuilder,
    k: usize,
) -> bool {
    &&& shores_ok(b.shores@, h, sea)
    &&& b.area == members(assoc, k).len()
    &&& (live(assoc, k) ==> b.water_level > sea && (b.highest_shore_point as int) < h.len())
}

/// Per-cell invariant: associations point at existing lakes, and lake
/// cells lie strictly above sea level.
spec fn cells_ok(h: Seq<i64>, sea: i64, assoc: Seq<Option<usize>>, nlakes: int) -> bool {
    &&& assoc.len() == h.len()
    &&& forall|i: int|
        0 <= i < assoc.len() ==> ((#[trigger] assoc[i]) matches Some(k) ==> (k as int) < nlakes
            && h[i] > sea)
}

/// The whole-state invariant of lake growth.
spec fn state_ok(h: Seq<i64>, sea: i64, bl: Seq<LakeBuilder>, assoc: Seq<Option<usize>>) -> bool {
    &&& cells_ok(h, sea, assoc, bl.len() as int)
    &&& forall|k: int| 0 <= k < bl.len() ==> builder_ok(h, sea, assoc, #[trigger] bl[k], k as usize)
}

/// Every live lake except `except` already has its spill point.
spec fn finished_ok(
    h: Seq<i64>,
    mesh: &Mesh,
    bl: Seq<LakeBuilder>,
    assoc: Seq<Option<usize>>,
    except: int,
) -> bool {
    forall|k: int|
        0 <= k < bl.len() && k != except && live(assoc, k as usize) ==> spill_ok(
            h,
            mesh,
            assoc,
            k as usize,
            (#[trigger] bl[k]).water_level,
            bl[k].highest_shore_point,
        )
}

/// A set of integers drawn from `[0, n)` is finite and no larger than `n`.
proof fn lemma_bounded_set(s: Set<int>, n: int)
    requires
        0 <= n,
        forall|i: int| s.contains(i) ==> 0 <= i < n,
    ensures
        s.finite(),
        s.len() <= n,
{
    let r = set_int_range(0, n);
    lemma_int_range(0, n);
    assert(s.subset_of(r));
    lemma_len_subset(s, r);
}

/// Zeroing one value's multiplicity shrinks a multiset by exactly that count.
proof fn lemma_update_zero_len(m: Multiset<ShorePoint>, v: ShorePoint)
    ensures
        m.update(v, 0nat).len() == m.len() - m.count(v),
    decreases m.count(v),
{
    if m.count(v) == 0 {
        assert(m.update(v, 0nat) =~= m);
    } else {
        let m2 = m.remove(v);
        lemma_update_zero_len(m2, v);
        assert(m2.update(v, 0nat) =~= m.update(v, 0nat));
        assert(Multiset::singleton(v).subset_of(m));
        assert(m2.len() == m.len() - 1);
    }
}

/// The lakes other than `except` that currently own at least one cell.
/// First component of the termination measure of lake growth: it shrinks
/// whenever a merge dissolves a lake.
spec fn live_others(assoc: Seq<Option<usize>>, nlakes: int, except: int) -> Set<int> {
    Set::new(|k: int| 0 <= k < nlakes && k != except && live(assoc, k as usize))
}

/// The cells not owned by lake `k`. Second component of the measure: it
/// shrinks whenever the lake absorbs a previously unclaimed cell.
spec fn nonmembers(assoc: Seq<Option<usize>>, k: usize) -> Set<int> {
    Set::new(|i: int| 0 <= i < assoc.len() && assoc[i] != Some(k))
}

/// The queued entries that point at cells lake `k` already owns. Third
/// component of the measure: a pop that re-commits an own member consumes
/// such an entry and enqueues only entries for cells outside the lake.
spec fn member_entries(
    q: Multiset<ShorePoint>,
    assoc: Seq<Option<usize>>,
    k: usize,
) -> Multiset<ShorePoint> {
    q.filter(|e: ShorePoint| (e.id as int) < assoc.len() && assoc[e.id as int] == Some(k))
}

/// Effect of remapping every cell of `other` to `lake_id` on memberships,
/// liveness and cardinalities.
proof fn lemma_merge_effects(
    a1: Seq<Option<usize>>,
    a2: Seq<Option<usize>>,
    lake_id: usize,
    other: usize,
)
    requires
        a1.len() == a2.len(),
        other != lake_id,
        forall|i: int|
            0 <= i < a1.len() ==> a2[i] == (if a1[i] == Some(other) {
                Some(lake_id)
            } else {
                a1[i]
            }),
    ensures
        members(a2, lake_id) == members(a1, lake_id) + members(a1, other),
        members(a2, other) == Set::<int>::empty(),
        forall|k: usize| k != lake_id && k != other ==> members(a2, k) == members(a1, k),
        members(a2, lake_id).len() == members(a1, lake_id).len() + members(a1, other).len(),
        members(a1, lake_id).len() + members(a1, other).len() <= a1.len(),
        forall|k: usize| k != lake_id && k != other ==> (live(a2, k) <==> live(a1, k)),
        !live(a2, other),
        live(a1, lake_id) ==> live(a2, lake_id),
{
    let mk = members(a1, lake_id);
    let mo = members(a1, other);
    assert(members(a2, lake_id) =~= mk + mo);
    assert(members(a2, other) =~= Set::<int>::empty());
    assert forall|k: usize| k != lake_id && k != other implies members(a2, k) == members(
        a1,
        k,
    ) by {
        assert(members(a2, k) =~= members(a1, k));
    }
    assert(mk.disjoint(mo));
    lemma_bounded_set(mk, a1.len() as int);
    lemma_bounded_set(mo, a1.len() as int);
    vstd::set_lib::lemma_set_disjoint_lens(mk, mo);
    lemma_bounded_set(mk + mo, a1.len() as int);
    assert forall|k: usize| k != lake_id && k != other implies (live(a2, k) <==> live(
        a1,
        k,
    )) by {
        if live(a1, k) {
            let i = choose|i: int| 0 <= i < a1.len() && #[trigger] a1[i] == Some(k);
            assert(a2[i] == Some(k));
        }
        if live(a2, k) {
            let i = choose|i: int| 0 <= i < a2.len() && #[trigger] a2[i] == Some(k);
            assert(a1[i] == Some(k));
        }
    }
    if live(a1, lake_id) {
        let i = choose|i: int| 0 <= i < a1.len() && #[trigger] a1[i] == Some(lake_id);
        assert(a2[i] == Some(lake_id));
    }
    if live(a2, other) {
        let i = choose|i: int| 0 <= i < a2.len() && #[trigger] a2[i] == Some(other);
        assert(false);
    }
}

/// Effect of committing a previously unclaimed cell `i` to `lake_id`.
proof fn lemma_commit_effects(a1: Seq<Option<usize>>, i: int, lake_id: usize)
    requires
        0 <= i < a1.len(),
        a1[i] is None,
    ensures
        ({
            let a2 = a1.update(i, Some(lake_id));
            &&& members(a2, lake_id) == members(a1, lake_id).insert(i)
            &&& !members(a1, lake_id).contains(i)
            &&& members(a2, lake_id).len() == members(a1, lake_id).len() + 1
            &&& members(a2, lake_id).len() <= a1.len()
            &&& forall|k: usize| k != lake_id ==> members(a2, k) == members(a1, k)
            &&& forall|k: usize| k != lake_id ==> (live(a2, k) <==> live(a1, k))
            &&& live(a2, lake_id)
            &&& nonmembers(a2, lake_id) == nonmembers(a1, lake_id).remove(i)
            &&& nonmembers(a1, lake_id).contains(i)
            &&& nonmembers(a2, lake_id).len() < nonmembers(a1, lake_id).len()
        }),
{
    let a2 = a1.update(i, Some(lake_id));
    let mk = members(a1, lake_id);
    assert(members(a2, lake_id) =~= mk.insert(i));
    lemma_bounded_set(mk, a1.len() as int);
    lemma_bounded_set(nonmembers(a1, lake_id), a1.len() as int);
    assert(members(a2, lake_id).len() == mk.len() + 1);
    lemma_bounded_set(members(a2, lake_id), a1.len() as int);
    assert forall|k: usize| k != lake_id implies members(a2, k) == members(a1, k) by {
        assert(members(a2, k) =~= members(a1, k));
    }
    assert forall|k: usize| k != lake_id implies (live(a2, k) <==> live(a1, k)) by {
        if live(a1, k) {
            let w = choose|w: int| 0 <= w < a1.len() && #[trigger] a1[w] == Some(k);
            assert(a2[w] == Some(k));
        }
        if live(a2, k) {
            let w = choose|w: int| 0 <= w < a2.len() && #[trigger] a2[w] == Some(k);
            assert(a1[w] == Some(k));
        }
    }
    assert(a2[i] == Some(lake_id));
    assert(nonmembers(a2, lake_id) =~= nonmembers(a1, lake_id).remove(i));
}

fn empty_builder() -> (b: LakeBuilder)
    ensures
        b.water_level == 0,
        b.area == 0,
        b.highest_shore_point == 0,
        b.shores@ == Multiset::<ShorePoint>::empty(),
{
    LakeBuilder { water_level: 0, area: 0, highest_shore_point: 0, shores: ShoreQueue::new() }
}

/// Dissolves lake `other_id` into the growing lake `b` (id `lake_id`):
/// moves its shore entries over, remaps its member cells, and adds its
/// area minus one, anticipating that the merge cell is committed once more
/// by the caller.
fn merge_lakes(
    b: &mut LakeBuilder,
    lake_id: usize,
    other_id: usize,
    builders: &mut Vec<LakeBuilder>,
    assoc: &mut Vec<Option<usize>>,
)
    requires
        other_id < old(builders)@.len(),
        old(builders)@[other_id as int].area >= 1,
        old(b).area + old(builders)@[other_id as int].area <= old(assoc)@.len(),
    ensures
        final(builders)@.len() == old(builders)@.len(),
        forall|k: int|
            0 <= k < old(builders)@.len() && k != other_id ==> final(builders)@[k] == old(
                builders,
            )@[k],
        final(builders)@[other_id as int].area == 0,
        final(builders)@[other_id as int].shores@ == Multiset::<ShorePoint>::empty(),
        final(builders)@[other_id as int].water_level == 0,
        final(builders)@[other_id as int].highest_shore_point == 0,
        final(assoc)@.len() == old(assoc)@.len(),
        forall|i: int|
            0 <= i < old(assoc)@.len() ==> final(assoc)@[i] == (if old(assoc)@[i] == Some(other_id) {
                Some(lake_id)
            } else {
                old(assoc)@[i]
            }),
        final(b).water_level == old(b).water_level,
        final(b).highest_shore_point == old(b).highest_shore_point,
        final(b).area == old(b).area + old(builders)@[other_id as int].area - 1,
        final(b).shores@ == old(b).shores@.add(old(builders)@[other_id as int].shores@),
{
    let mut taken = empty_builder();
    builders.set_and_swap(other_id, &mut taken);
    b.shores.absorb(&mut taken.shores);
    let n = assoc.len();
    let ghost pre = assoc@;
    let mut j: usize = 0;
    while j < n
        invariant
            n == pre.len(),
            assoc@.len() == n,
            j <= n,
            forall|i: int|
                0 <= i < j ==> assoc@[i] == (if pre[i] == Some(other_id) {
                    Some(lake_id)
                } else {
                    pre[i]
                }),
            forall|i: int| j <= i < n ==> assoc@[i] == pre[i],
        decreases n - j,
    {
        let cur: Option<usize> = assoc[j];
        match cur {
            Some(k) => {
                if k == other_id {
                    assoc.set(j, Some(lake_id));
                }
            },
            None => {},
        }
        j = j + 1;
    }
    b.area = b.area + taken.area - 1;
}

/// Re-establishes the growth-loop invariants after one commit: given the
/// head-of-iteration invariants, the popped entry, the case taken and the
/// resulting association table, the state and spill invariants hold again.
proof fn lemma_iteration_invariants(
    h: Seq<i64>,
    sea: i64,
    mesh: &Mesh,
    builders_head: Seq<LakeBuilder>,
    builders_cur: Seq<LakeBuilder>,
    builders0: Seq<LakeBuilder>,
    b_head: LakeBuilder,
    b: LakeBuilder,
    assoc_head: Seq<Option<usize>>,
    assoc_fin: Seq<Option<usize>>,
    assoc0: Seq<Option<usize>>,
    s: ShorePoint,
    lake_id: usize,
    case_merge: bool,
    other: usize,
)
    requires
        mesh.wf(),
        mesh.cell_count() == h.len(),
        h.len() <= usize::MAX as int,
        builders0.len() <= usize::MAX as int,
        assoc_head.len() == h.len(),
        assoc_fin.len() == h.len(),
        assoc0.len() == h.len(),
        builders_head.len() == builders0.len(),
        builders_cur.len() == builders0.len(),
        (lake_id as int) < builders0.len(),
        state_ok(h, sea, builders_head.update(lake_id as int, b_head), assoc_head),
        finished_ok(h, mesh, builders_head.update(lake_id as int, b_head), assoc_head, lake_id as int),
        forall|i: int|
            0 <= i < h.len() && assoc_head[i] != assoc0[i] ==> assoc_head[i] == Some(lake_id),
        forall|k: usize|
            (k as int) < builders0.len() && k != lake_id && live(assoc_head, k)
                ==> builders_head[k as int] == builders0[k as int],
        (s.id as int) < h.len(),
        s.height == h[s.id as int],
        s.height > sea,
        case_merge ==> assoc_head[s.id as int] == Some(other) && other != lake_id && (other as int)
            < builders0.len(),
        !case_merge ==> (assoc_head[s.id as int] is None || assoc_head[s.id as int] == Some(
            lake_id,
        )),
        forall|i: int|
            0 <= i < h.len() ==> assoc_fin[i] == (if case_merge && assoc_head[i] == Some(other) {
                Some(lake_id)
            } else if i == s.id as int {
                Some(lake_id)
            } else {
                assoc_head[i]
            }),
        forall|k: int|
            0 <= k < builders0.len() && k != (lake_id as int) && (!case_merge || k != other as int)
                ==> builders_cur[k] == builders_head[k],
        case_merge ==> builders_cur[other as int].area == 0 && builders_cur[other as int].shores@
            == Multiset::<ShorePoint>::empty(),
        b.water_level == s.height,
        b.highest_shore_point == s.id,
        b.area == members(assoc_fin, lake_id).len(),
        shores_ok(b.shores@, h, sea),
    ensures
        live(assoc_fin, lake_id),
        state_ok(h, sea, builders_cur.update(lake_id as int, b), assoc_fin),
        finished_ok(h, mesh, builders_cur.update(lake_id as int, b), assoc_fin, lake_id as int),
        forall|i: int|
            0 <= i < h.len() && assoc_fin[i] != assoc0[i] ==> assoc_fin[i] == Some(lake_id),
        forall|k: usize|
            (k as int) < builders0.len() && k != lake_id && live(assoc_fin, k) ==> builders_cur[k
                as int] == builders0[k as int],
        forall|k: usize|
            k != lake_id && (!case_merge || k != other) ==> members(assoc_fin, k) == members(
                assoc_head,
                k,
            ) && (live(assoc_fin, k) <==> live(assoc_head, k)),
        case_merge ==> !live(assoc_fin, other),
{
    let bl1 = builders_head.update(lake_id as int, b_head);
    let bl2 = builders_cur.update(lake_id as int, b);
    assert(assoc_fin[s.id as int] == Some(lake_id));
    assert(live(assoc_fin, lake_id));
    // liveness and membership transfer, per lake
    assert forall|k: usize| k != lake_id && (!case_merge || k != other) implies members(
        assoc_fin,
        k,
    ) == members(assoc_head, k) && (live(assoc_fin, k) <==> live(assoc_head, k)) by {
        assert(members(assoc_fin, k) =~= members(assoc_head, k));
        if live(assoc_head, k) {
            let w = choose|w: int| 0 <= w < assoc_head.len() && #[trigger] assoc_head[w] == Some(k);
            assert(assoc_fin[w] == Some(k));
        }
        if live(assoc_fin, k) {
            let w = choose|w: int| 0 <= w < assoc_fin.len() && #[trigger] assoc_fin[w] == Some(k);
            assert(assoc_head[w] == Some(k));
        }
    }
    if case_merge {
        assert(members(assoc_fin, other) =~= Set::<int>::empty());
        if live(assoc_fin, other) {
            let w = choose|w: int| 0 <= w < assoc_fin.len() && #[trigger] assoc_fin[w] == Some(
                other,
            );
            assert(false);
        }
    }
    // the per-cell invariant
    assert(cells_ok(h, sea, assoc_fin, bl2.len() as int)) by {
        assert forall|i: int| 0 <= i < assoc_fin.len() implies ((#[trigger] assoc_fin[i]) matches
            Some(k) ==> (k as int) < bl2.len() && h[i] > sea) by {
            if assoc_fin[i] != assoc_head[i] {
                assert(assoc_fin[i] == Some(lake_id));
                if i != s.id as int {
                    assert(case_merge && assoc_head[i] == Some(other));
                    assert(h[i] > sea);
                }
            }
        }
    }
    // per-builder invariants
    assert forall|k: int| 0 <= k < bl2.len() implies builder_ok(
        h,
        sea,
        assoc_fin,
        #[trigger] bl2[k],
        k as usize,
    ) by {
        if k == lake_id as int {
            assert(bl2[k] == b);
        } else if case_merge && k == other as int {
            assert(bl2[k] == builders_cur[other as int]);
            assert(members(assoc_fin, other) =~= Set::<int>::empty());
            assert(members(assoc_fin, other).len() == 0) by {
                assert(Set::<int>::empty().len() == 0);
            }
            assert(!live(assoc_fin, other));
        } else {
            let ku = k as usize;
            assert(bl2[k] == builders_head[k]);
            assert(bl1[k] == builders_head[k]);
            assert(builder_ok(h, sea, assoc_head, bl1[k], ku));
            assert(ku != lake_id);
            assert(!case_merge || ku != other);
            assert(members(assoc_fin, ku) =~= members(assoc_head, ku));
            if live(assoc_head, ku) {
                let w = choose|w: int|
                    0 <= w < assoc_head.len() && #[trigger] assoc_head[w] == Some(ku);
                assert(assoc_fin[w] == Some(ku));
                assert(live(assoc_fin, ku));
            }
            if live(assoc_fin, ku) {
                let w = choose|w: int|
                    0 <= w < assoc_fin.len() && #[trigger] assoc_fin[w] == Some(ku);
                assert(assoc_head[w] == Some(ku));
                assert(live(assoc_head, ku));
            }
        }
    }
    // spill points of the other live lakes survive
    assert forall|k: int|
        0 <= k < bl2.len() && k != lake_id as int && live(assoc_fin, k as usize) implies spill_ok(
        h,
        mesh,
        assoc_fin,
        k as usize,
        (#[trigger] bl2[k]).water_level,
        bl2[k].highest_shore_point,
    ) by {
        let ku = k as usize;
        assert(!case_merge || k != other as int);
        assert(live(assoc_head, ku)) by {
            let w = choose|w: int| 0 <= w < assoc_fin.len() && #[trigger] assoc_fin[w] == Some(ku);
            if case_merge && assoc_head[w] == Some(other) {
                assert(assoc_fin[w] == Some(lake_id));
                assert(false);
            }
            if w == s.id as int {
                assert(assoc_fin[w] == Some(lake_id));
                assert(false);
            }
            assert(assoc_head[w] == Some(ku));
        }
        assert(bl2[k] == builders_head[k]);
        assert(bl1[k] == builders_head[k]);
        assert(spill_ok(h, mesh, assoc_head, ku, bl1[k].water_level, bl1[k].highest_shore_point));
        let hsp = bl1[k].highest_shore_point as int;
        let wl = bl1[k].water_level;
        assert(assoc_head[hsp] == Some(ku));
        assert(assoc_fin[hsp] == Some(ku));
        if !mesh.border@[hsp] {
            let j = choose|j: int|
                0 <= j < mesh.adjacent@[hsp].len() && h[#[trigger] mesh.adjacent@[hsp][j] as int]
                    < wl && assoc_head[mesh.adjacent@[hsp][j] as int] != Some(ku);
            let nb = mesh.adjacent@[hsp][j] as int;
            assert(assoc_fin[nb] != Some(ku));
            assert(0 <= j < mesh.adjacent@[hsp].len() && h[mesh.adjacent@[hsp][j] as int] < wl
                && assoc_fin[mesh.adjacent@[hsp][j] as int] != Some(ku));
        }
    }
    // only this lake gained cells
    assert forall|i: int|
        0 <= i < h.len() && assoc_fin[i] != assoc0[i] implies assoc_fin[i] == Some(lake_id) by {
        if assoc_fin[i] != assoc_head[i] {
        } else {
        }
    }
    // untouched builders of still-live lakes
    assert forall|k: usize|
        (k as int) < builders0.len() && k != lake_id && live(assoc_fin, k) implies builders_cur[k
        as int] == builders0[k as int] by {
        assert(!case_merge || k != other);
        assert(live(assoc_head, k));
    }
}

/// One growth iteration strictly shrinks the lexicographic measure
/// (live other lakes, unclaimed cells, queued entries into own cells).
proof fn lemma_measure_decrease(
    h: Seq<i64>,
    nlakes: int,
    assoc_head: Seq<Option<usize>>,
    assoc_fin: Seq<Option<usize>>,
    q_head: Multiset<ShorePoint>,
    q_drained: Multiset<ShorePoint>,
    q_fin: Multiset<ShorePoint>,
    s: ShorePoint,
    lake_id: usize,
    case_merge: bool,
    case_new: bool,
    other: usize,
)
    requires
        assoc_head.len() == h.len(),
        assoc_fin.len() == h.len(),
        h.len() <= usize::MAX as int,
        0 <= nlakes <= usize::MAX as int,
        (s.id as int) < h.len(),
        case_merge ==> assoc_head[s.id as int] == Some(other) && other != lake_id && (other as int)
            < nlakes,
        case_new <==> assoc_head[s.id as int] is None,
        !case_merge && !case_new ==> assoc_head[s.id as int] == Some(lake_id),
        forall|i: int|
            0 <= i < h.len() ==> assoc_fin[i] == (if case_merge && assoc_head[i] == Some(other) {
                Some(lake_id)
            } else if i == s.id as int {
                Some(lake_id)
            } else {
                assoc_head[i]
            }),
        q_head.count(s) > 0,
        q_drained.count(s) == 0,
        forall|e: ShorePoint| e != s ==> q_drained.count(e) == q_head.count(e),
        !case_merge && !case_new ==> member_entries(q_fin, assoc_fin, lake_id) == member_entries(
            q_drained,
            assoc_fin,
            lake_id,
        ),
    ensures
        case_merge ==> live_others(assoc_fin, nlakes, lake_id as int).len() < live_others(
            assoc_head,
            nlakes,
            lake_id as int,
        ).len(),
        !case_merge ==> live_others(assoc_fin, nlakes, lake_id as int).len() == live_others(
            assoc_head,
            nlakes,
            lake_id as int,
        ).len(),
        !case_merge && case_new ==> nonmembers(assoc_fin, lake_id).len() < nonmembers(
            assoc_head,
            lake_id,
        ).len(),
        !case_merge && !case_new ==> nonmembers(assoc_fin, lake_id).len() == nonmembers(
            assoc_head,
            lake_id,
        ).len() && member_entries(q_fin, assoc_fin, lake_id).len() < member_entries(
            q_head,
            assoc_head,
            lake_id,
        ).len(),
{
    if case_merge {
        assert forall|i: int|
            0 <= i < assoc_head.len() implies assoc_fin[i] == (if assoc_head[i] == Some(other) {
            Some(lake_id)
        } else {
            assoc_head[i]
        }) by {}
        lemma_merge_effects(assoc_head, assoc_fin, lake_id, other);
        let s1 = live_others(assoc_head, nlakes, lake_id as int);
        let s2 = live_others(assoc_fin, nlakes, lake_id as int);
        assert forall|k: int| s2.contains(k) implies s1.contains(k) && k != other as int by {
            let ku = k as usize;
            assert(live(assoc_fin, ku));
            assert(!live(assoc_fin, other));
            assert(k != other as int);
            let w = choose|w: int| 0 <= w < assoc_fin.len() && #[trigger] assoc_fin[w] == Some(ku);
            if case_merge && assoc_head[w] == Some(other) {
                assert(assoc_fin[w] == Some(lake_id));
                assert(false);
            }
            if w == s.id as int {
                assert(assoc_fin[w] == Some(lake_id));
                assert(false);
            }
            assert(assoc_head[w] == Some(ku));
            assert(live(assoc_head, ku));
        }
        assert forall|k: int| s1.contains(k) && k != other as int implies s2.contains(k) by {
            let ku = k as usize;
            assert(live(assoc_head, ku));
            let w = choose|w: int| 0 <= w < assoc_head.len() && #[trigger] assoc_head[w] == Some(
                ku,
            );
            assert(assoc_fin[w] == Some(ku));
            assert(live(assoc_fin, ku));
        }
        assert(s2 =~= s1.remove(other as int));
        assert(live(assoc_head, other)) by {
            assert(assoc_head[s.id as int] == Some(other));
        }
        assert(s1.contains(other as int));
        lemma_bounded_set(s1, nlakes);
        assert(s2.len() == s1.len() - 1);
    } else if case_new {
        lemma_commit_effects(assoc_head, s.id as int, lake_id);
        let a2 = assoc_head.update(s.id as int, Some(lake_id));
        assert(assoc_fin =~= a2);
        let s1 = live_others(assoc_head, nlakes, lake_id as int);
        let s2 = live_others(assoc_fin, nlakes, lake_id as int);
        assert forall|k: int| s2.contains(k) implies s1.contains(k) by {
            let ku = k as usize;
            assert(live(assoc_fin, ku));
            let w = choose|w: int| 0 <= w < assoc_fin.len() && #[trigger] assoc_fin[w] == Some(ku);
            if w == s.id as int {
                assert(assoc_fin[w] == Some(lake_id));
                assert(false);
            }
            assert(assoc_head[w] == Some(ku));
            assert(live(assoc_head, ku));
        }
        assert forall|k: int| s1.contains(k) implies s2.contains(k) by {
            let ku = k as usize;
            assert(live(assoc_head, ku));
            let w = choose|w: int| 0 <= w < assoc_head.len() && #[trigger] assoc_head[w] == Some(
                ku,
            );
            assert(w != s.id as int);
            assert(assoc_fin[w] == Some(ku));
            assert(live(assoc_fin, ku));
        }
        assert(s2 =~= s1);
        assert(nonmembers(a2, lake_id).len() < nonmembers(assoc_head, lake_id).len());
        assert(nonmembers(assoc_fin, lake_id) =~= nonmembers(a2, lake_id));
    } else {
        assert(assoc_fin =~= assoc_head);
        assert(assoc_fin == assoc_head);
        // the popped entry pointed into the lake, so the filtered queue shrinks
        let me1 = member_entries(q_head, assoc_head, lake_id);
        let me2 = member_entries(q_drained, assoc_head, lake_id);
        assert(me2 =~= me1.update(s, 0nat));
        lemma_update_zero_len(me1, s);
        assert(me1.count(s) == q_head.count(s));
        assert(me2.len() < me1.len());
    }
}

/// Grows lake `lake_id` by repeatedly absorbing the shore entry that pops
/// first, merging with any lake it runs into, until the committed cell has
/// a strictly lower neighbour outside the lake or sits on the map border.
/// Fails when the shore queue runs dry, which only an inconsistent mesh (a
/// depression without boundary) produces.
fn expand_lake(
    lake_id: usize,
    heights: &Vec<i64>,
    mesh: &Mesh,
    builders: &mut Vec<LakeBuilder>,
    assoc: &mut Vec<Option<usize>>,
    Ghost(sea): Ghost<i64>,
) -> (r: Result<(), LakeError>)
    requires
        mesh.wf(),
        mesh.cell_count() == heights@.len(),
        lake_id < old(builders)@.len(),
        live(old(assoc)@, lake_id),
        state_ok(heights@, sea, old(builders)@, old(assoc)@),
        finished_ok(heights@, mesh, old(builders)@, old(assoc)@, lake_id as int),
        forall|e: ShorePoint|
            old(builders)@[lake_id as int].shores@.count(e) > 0 ==> (e.id as int) < old(
                assoc,
            )@.len() && old(assoc)@[e.id as int] != Some(lake_id),
    ensures
        final(builders)@.len() == old(builders)@.len(),
        final(assoc)@.len() == old(assoc)@.len(),
        r is Err ==> final(builders)@[lake_id as int].shores@ == Multiset::<ShorePoint>::empty(),
        old(builders)@[lake_id as int].shores@.len() == 0 ==> r is Err,
        old(builders)@[lake_id as int].shores@.len() > 0 && (forall|e: ShorePoint|
            old(builders)@[lake_id as int].shores@.count(e) > 0 ==> mesh.border@[e.id as int])
            ==> r is Ok,
        r matches Ok(_) ==> {
            &&& state_ok(heights@, sea, final(builders)@, final(assoc)@)
            &&& finished_ok(heights@, mesh, final(builders)@, final(assoc)@, -1)
            &&& live(final(assoc)@, lake_id)
            &&& members(final(assoc)@, lake_id).len() >= 2
            &&& forall|i: int|
                0 <= i < old(assoc)@.len() && final(assoc)@[i] != old(assoc)@[i]
                    ==> final(assoc)@[i] == Some(lake_id)
            &&& forall|k: usize|
                (k as int) < old(builders)@.len() && k != lake_id && live(final(assoc)@, k)
                    ==> final(builders)@[k as int] == old(builders)@[k as int] && members(
                    final(assoc)@,
                    k,
                ) == members(old(assoc)@, k)
        },
{
    let ghost h = heights@;
    let ghost assoc0 = old(assoc)@;
    let ghost builders0 = old(builders)@;
    let ghost q0 = old(builders)@[lake_id as int].shores@;
    let ghost border_entry = q0.len() > 0 && (forall|e: ShorePoint|
        q0.count(e) > 0 ==> mesh.border@[e.id as int]);
    let n_cells = heights.len();
    let n_builders = builders.len();
    let mut b = empty_builder();
    builders.set_and_swap(lake_id, &mut b);
    proof {
        assert(builders@.update(lake_id as int, b) =~= builders0);
        assert(b.shores@ == builders0[lake_id as int].shores@);
        assert forall|e: ShorePoint| b.shores@.count(e) > 0 implies (e.id as int) < h.len()
            && assoc@[e.id as int] != Some(lake_id) by {
            assert(old(builders)@[lake_id as int].shores@.count(e) > 0);
            assert(old(assoc)@[e.id as int] != Some(lake_id));
            assert(cells_ok(h, sea, old(assoc)@, builders0.len() as int));
        }
    }
    loop
        invariant
            mesh.wf(),
            mesh.cell_count() == h.len(),
            heights@ == h,
            assoc0 == old(assoc)@,
            builders0 == old(builders)@,
            h.len() == n_cells as int,
            builders0.len() == n_builders as int,
            (lake_id as int) < builders@.len(),
            builders@.len() == builders0.len(),
            assoc@.len() == h.len(),
            assoc0.len() == h.len(),
            live(assoc@, lake_id),
            state_ok(h, sea, builders@.update(lake_id as int, b), assoc@),
            finished_ok(h, mesh, builders@.update(lake_id as int, b), assoc@, lake_id as int),
            forall|i: int|
                0 <= i < h.len() && assoc@[i] != assoc0[i] ==> assoc@[i] == Some(lake_id),
            forall|k: usize|
                (k as int) < builders0.len() && k != lake_id && live(assoc@, k) ==> builders@[k
                    as int] == builders0[k as int],
            members(assoc@, lake_id).len() >= 2 || (forall|e: ShorePoint|
                b.shores@.count(e) > 0 ==> (e.id as int) < h.len() && assoc@[e.id as int] != Some(
                    lake_id,
                )),
            forall|k: usize|
                k != lake_id && live(assoc@, k) ==> members(assoc@, k) == members(assoc0, k),
            q0 == old(builders)@[lake_id as int].shores@,
            border_entry == (q0.len() > 0 && (forall|e: ShorePoint|
                q0.count(e) > 0 ==> mesh.border@[e.id as int])),
            border_entry ==> b.shores@ == q0,
            q0.len() == 0 ==> b.shores@ == q0,
        decreases
                live_others(assoc@, builders0.len() as int, lake_id as int).len(),
                nonmembers(assoc@, lake_id).len(),
                member_entries(b.shores@, assoc@, lake_id).len(),
    {
        let ghost builders_head = builders@;
        let ghost b_head = b;
        let ghost bl_head = builders@.update(lake_id as int, b);
        let ghost q_head = b.shores@;
        let ghost assoc_head = assoc@;

        let s = match b.shores.pop() {
            None => {
                proof {
                    assert(b.shores@ =~= Multiset::<ShorePoint>::empty());
                    assert(!border_entry);
                }
                builders.set(lake_id, b);
                return Err(LakeError::ShoresExhausted);
            },
            Some(s) => s,
        };
        proof {
            assert(builder_ok(h, sea, assoc@, bl_head[lake_id as int], lake_id));
            assert(q_head.count(s) > 0);
            assert(q0.len() > 0) by {
                if q0.len() == 0 {
                    assert(q_head == q0);
                    assert(q_head.count(s) <= q_head.len());
                }
            }
            assert((s.id as int) < h.len() && s.height == h[s.id as int] && s.height > sea);
        }
        b.shores.drain_duplicates(s);
        let ghost q_drained = b.shores@;

        let prev: Option<usize> = assoc[s.id];
        let ghost case_merge: bool = match prev {
            Some(o) => o != lake_id,
            None => false,
        };
        let ghost case_new: bool = prev is None;
        let ghost other_g: usize = match prev {
            Some(o) => o,
            None => 0,
        };

        match prev {
            Some(other) => {
                if other != lake_id {
                    proof {
                        assert(cells_ok(h, sea, assoc@, bl_head.len() as int));
                        assert((other as int) < builders0.len());
                        assert(builder_ok(h, sea, assoc@, bl_head[other as int], other));
                        assert(live(assoc@, other));
                        let mo = members(assoc@, other);
                        let mk = members(assoc@, lake_id);
                        assert(mo.contains(s.id as int));
                        lemma_bounded_set(mo, h.len() as int);
                        assert(mo.remove(s.id as int).len() == mo.len() - 1);
                        assert(bl_head[other as int].area >= 1);
                        assert(mk.disjoint(mo));
                        lemma_bounded_set(mk, h.len() as int);
                        vstd::set_lib::lemma_set_disjoint_lens(mk, mo);
                        lemma_bounded_set(mk + mo, h.len() as int);
                        assert(b.area == mk.len());
                        assert(b.area + bl_head[other as int].area <= assoc@.len());
                        assert(builders@[other as int] == bl_head[other as int]);
                    }
                    merge_lakes(&mut b, lake_id, other, builders, assoc);
                } else {
                    proof {
                        let mk = members(assoc@, lake_id);
                        assert(mk.contains(s.id as int));
                        lemma_bounded_set(mk, h.len() as int);
                        assert(mk.remove(s.id as int).len() == mk.len() - 1);
                        assert(b.area >= 1);
                    }
                    b.area = b.area - 1;
                }
            },
            None => {},
        }
        proof {
            // the queue still satisfies the entry discipline after the
            // drain and a possible merge transfer
            assert(shores_ok(b.shores@, h, sea)) by {
                assert forall|e: ShorePoint| #[trigger] b.shores@.count(e) > 0 implies (e.id
                    as int) < h.len() && e.height == h[e.id as int] && e.height > sea by {
                    if case_merge {
                        assert(b.shores@ == q_drained.add(
                            builders_head[other_g as int].shores@,
                        ));
                        if q_drained.count(e) > 0 {
                            assert(q_head.count(e) > 0);
                        } else {
                            assert(builders_head[other_g as int].shores@.count(e) > 0);
                            assert(builder_ok(
                                h,
                                sea,
                                assoc_head,
                                bl_head[other_g as int],
                                other_g,
                            ));
                        }
                    } else {
                        assert(q_head.count(e) > 0);
                    }
                }
            }
        }
        let ghost q_mid = b.shores@;
        // commit the popped cell
        b.water_level = s.height;
        proof {
            // area bookkeeping: after the +1 below, area equals the member
            // count of the updated association table
            let a_next = assoc@.update(s.id as int, Some(lake_id));
            if case_new {
                lemma_commit_effects(assoc@, s.id as int, lake_id);
                assert(b.area + 1 == members(a_next, lake_id).len());
            } else if case_merge {
                lemma_merge_effects(assoc_head, assoc@, lake_id, other_g);
                assert(assoc@[s.id as int] == Some(lake_id));
                assert(a_next =~= assoc@);
                assert(members(a_next, lake_id) == members(assoc@, lake_id));
                assert(b.area + 1 == members(a_next, lake_id).len());
            } else {
                assert(assoc@[s.id as int] == Some(lake_id));
                assert(a_next =~= assoc@);
                assert(members(a_next, lake_id) == members(assoc@, lake_id));
                assert(b.area + 1 == members(a_next, lake_id).len());
            }
            lemma_bounded_set(members(a_next, lake_id), h.len() as int);
        }
        b.area = b.area + 1;
        b.highest_shore_point = s.id;
        assoc.set(s.id, Some(lake_id));
        proof {
            // single characterization of this iteration's association change
            assert(forall|i: int|
                0 <= i < h.len() ==> assoc@[i] == (if case_merge && assoc_head[i] == Some(
                    other_g,
                ) {
                    Some(lake_id)
                } else if i == s.id as int {
                    Some(lake_id)
                } else {
                    assoc_head[i]
                }));
        }
        let ghost assoc_commit = assoc@;
        proof {
            // from the first commit on, the lake owns at least two cells
            let mk_fin = members(assoc@, lake_id);
            let mk_head = members(assoc_head, lake_id);
            let w = choose|w: int|
                0 <= w < assoc_head.len() && #[trigger] assoc_head[w] == Some(lake_id);
            assert(mk_head.contains(w));
            lemma_bounded_set(mk_head, h.len() as int);
            assert(mk_head.remove(w).len() == mk_head.len() - 1);
            if case_new {
                lemma_commit_effects(assoc_head, s.id as int, lake_id);
                assert(assoc@ =~= assoc_head.update(s.id as int, Some(lake_id)));
                assert(mk_fin.len() == mk_head.len() + 1);
            } else if case_merge {
                lemma_merge_effects(assoc_head, assoc@, lake_id, other_g);
                let mo = members(assoc_head, other_g);
                assert(mo.contains(s.id as int));
                lemma_bounded_set(mo, h.len() as int);
                assert(mo.remove(s.id as int).len() == mo.len() - 1);
                assert(mk_fin.len() == mk_head.len() + mo.len());
            } else {
                assert(assoc@ =~= assoc_head);
                assert(q_head.count(s) > 0 && assoc_head[s.id as int] == Some(lake_id));
                assert(mk_head.len() >= 2);
                assert(mk_fin == mk_head);
            }
            assert(mk_fin.len() >= 2);
        }

        // can the lake expand past this cell?
        let row_len = mesh.adjacent[s.id].len();
        let mut all_ok = true;
        let mut t: usize = 0;
        while t < row_len
            invariant
                mesh.wf(),
                mesh.cell_count() == h.len(),
                heights@ == h,
                (s.id as int) < h.len(),
                row_len == mesh.adjacent@[s.id as int].len(),
                assoc@.len() == h.len(),
                t <= row_len,
                all_ok == (forall|j: int|
                    0 <= j < t ==> h[#[trigger] mesh.adjacent@[s.id as int][j] as int] >= s.height
                        || assoc@[mesh.adjacent@[s.id as int][j] as int] == Some(lake_id)),
            decreases row_len - t,
        {
            let nb = mesh.adjacent[s.id][t];
            let nb_mine = match assoc[nb] {
                Some(x) => x == lake_id,
                None => false,
            };
            let nb_ok = heights[nb] >= s.height || nb_mine;
            all_ok = all_ok && nb_ok;
            t = t + 1;
        }
        let expand_more = all_ok && !mesh.is_on_map_border(s.id);

        if expand_more {
            proof {
                // under the all-border hypothesis the first commit already
                // stopped, so this branch refutes it
                if border_entry {
                    assert(q_head.count(s) > 0);
                    assert(mesh.border@[s.id as int]);
                    assert(false);
                }
            }
            // enqueue the committed cell's outside neighbours and continue
            let ghost b_mid2 = b;
            let mut t2: usize = 0;
            while t2 < row_len
                invariant
                    mesh.wf(),
                    mesh.cell_count() == h.len(),
                    heights@ == h,
                    (s.id as int) < h.len(),
                    row_len == mesh.adjacent@[s.id as int].len(),
                    assoc@ == assoc_commit,
                    assoc@.len() == h.len(),
                    t2 <= row_len,
                    s.height > sea,
                    forall|j: int|
                        0 <= j < row_len ==> h[#[trigger] mesh.adjacent@[s.id as int][j] as int]
                            >= s.height || assoc@[mesh.adjacent@[s.id as int][j] as int] == Some(
                            lake_id,
                        ),
                    b.water_level == b_mid2.water_level,
                    b.area == b_mid2.area,
                    b.highest_shore_point == b_mid2.highest_shore_point,
                    shores_ok(b.shores@, h, sea),
                    member_entries(b.shores@, assoc@, lake_id) == member_entries(
                        b_mid2.shores@,
                        assoc@,
                        lake_id,
                    ),
                decreases row_len - t2,
            {
                let nb = mesh.adjacent[s.id][t2];
                let nb_mine = match assoc[nb] {
                    Some(x) => x == lake_id,
                    None => false,
                };
                if !nb_mine {
                    let ghost q_before = b.shores@;
                    let e = ShorePoint { id: nb, height: heights[nb] };
                    b.shores.push(e);
                    proof {
                        assert(h[nb as int] >= s.height);
                        assert(member_entries(b.shores@, assoc@, lake_id) =~= member_entries(
                            q_before,
                            assoc@,
                            lake_id,
                        ));
                    }
                }
                t2 = t2 + 1;
            }
            proof {
                lemma_iteration_invariants(
                    h,
                    sea,
                    mesh,
                    builders_head,
                    builders@,
                    builders0,
                    b_head,
                    b,
                    assoc_head,
                    assoc@,
                    assoc0,
                    s,
                    lake_id,
                    case_merge,
                    other_g,
                );
                lemma_measure_decrease(
                    h,
                    builders0.len() as int,
                    assoc_head,
                    assoc@,
                    q_head,
                    q_drained,
                    b.shores@,
                    s,
                    lake_id,
                    case_merge,
                    case_new,
                    other_g,
                );
                assert forall|k: usize| k != lake_id && live(assoc@, k) implies members(
                    assoc@,
                    k,
                ) == members(assoc0, k) by {
                    assert(!case_merge || k != other_g);
                    assert(live(assoc_head, k));
                }
                if !case_merge && !case_new {
                    assert(member_entries(b.shores@, assoc@, lake_id) == member_entries(
                        q_mid,
                        assoc@,
                        lake_id,
                    ));
                    assert(q_mid == q_drained);
                }
            }
        } else {
            proof {
                lemma_iteration_invariants(
                    h,
                    sea,
                    mesh,
                    builders_head,
                    builders@,
                    builders0,
                    b_head,
                    b,
                    assoc_head,
                    assoc@,
                    assoc0,
                    s,
                    lake_id,
                    case_merge,
                    other_g,
                );
                assert forall|k: usize| k != lake_id && live(assoc@, k) implies members(
                    assoc@,
                    k,
                ) == members(assoc0, k) by {
                    assert(!case_merge || k != other_g);
                    assert(live(assoc_head, k));
                }
                // the committed cell is this lake's spill point
                if !all_ok {
                    let j = choose|j: int|
                        0 <= j < row_len && !(h[#[trigger] mesh.adjacent@[s.id as int][j] as int]
                            >= s.height || assoc@[mesh.adjacent@[s.id as int][j] as int] == Some(
                            lake_id,
                        ));
                    assert(h[mesh.adjacent@[s.id as int][j] as int] < b.water_level && assoc@[
                        mesh.adjacent@[s.id as int][j] as int] != Some(lake_id));
                }
                assert(spill_ok(h, mesh, assoc@, lake_id, b.water_level, b.highest_shore_point));
            }
            builders.set(lake_id, b);
            return Ok(());
        }
    }
}


/// Well-formedness of a published lake table: every association names an
/// existing lake and a cell strictly above sea level; every lake starts
/// with zero inflow and an area that counts exactly its member cells; and
/// every live lake's highest shore point is a member cell at the water
/// level with a strictly lower outside neighbour or a border position.
///
/// Membership does not bound a cell's height by its lake's water level:
/// when heights tie, a growing lake can run into a finished lake through
/// a cell lower than that lake's level, and the commit of the merge cell
/// then sets a water level below some of the members carried over. The
/// exact height guarantee therefore lives at the spill cell, whose height
/// equals the water level.
pub open spec fn lakes_wf(
    h: Seq<i64>,
    mesh: &Mesh,
    sea: i64,
    lakes: Seq<Lake>,
    assoc: Seq<Option<usize>>,
) -> bool {
    &&& assoc.len() == h.len()
    &&& forall|i: int|
        0 <= i < assoc.len() ==> ((#[trigger] assoc[i]) matches Some(k) ==> (k as int)
            < lakes.len() && h[i] > sea)
    &&& forall|k: int| 0 <= k < lakes.len() ==> (#[trigger] lakes[k]).inflow_flux == 0
    &&& forall|k: int|
        0 <= k < lakes.len() ==> (#[trigger] lakes[k]).area == members(assoc, k as usize).len()
    &&& forall|k: int|
        0 <= k < lakes.len() && live(assoc, k as usize) ==> spill_ok(
            h,
            mesh,
            assoc,
            k as usize,
            (#[trigger] lakes[k]).water_level,
            lakes[k].highest_shore_point,
        ) && lakes[k].water_level > sea
}

/// Total area across all published lake records.
pub open spec fn sum_areas(lakes: Seq<Lake>) -> int
    decreases lakes.len(),
{
    if lakes.len() == 0 {
        0
    } else {
        sum_areas(lakes.drop_last()) + lakes.last().area
    }
}

/// The cells owned by any of the first `m` lakes.
spec fn members_below(assoc: Seq<Option<usize>>, m: int) -> Set<int> {
    Set::new(
        |i: int|
            0 <= i < assoc.len() && (assoc[i] matches Some(k) && (k as int) < m),
    )
}

proof fn lemma_sum_areas_members(lakes: Seq<Lake>, assoc: Seq<Option<usize>>, m: int)
    requires
        0 <= m <= lakes.len(),
        lakes.len() <= usize::MAX as int,
        forall|k: int|
            0 <= k < lakes.len() ==> (#[trigger] lakes[k]).area == members(assoc, k as usize).len(),
    ensures
        sum_areas(lakes.take(m)) == members_below(assoc, m).len(),
    decreases m,
{
    if m == 0 {
        assert(members_below(assoc, 0) =~= Set::<int>::empty());
        assert(Set::<int>::empty().len() == 0);
        assert(lakes.take(0) =~= Seq::<Lake>::empty());
    } else {
        lemma_sum_areas_members(lakes, assoc, m - 1);
        let a = members_below(assoc, m - 1);
        let b = members(assoc, (m - 1) as usize);
        assert(a.disjoint(b));
        lemma_bounded_set(a, assoc.len() as int);
        lemma_bounded_set(b, assoc.len() as int);
        vstd::set_lib::lemma_set_disjoint_lens(a, b);
        assert(members_below(assoc, m) =~= a + b);
        assert(lakes.take(m).drop_last() =~= lakes.take(m - 1));
        assert(lakes.take(m).last() == lakes[m - 1]);
    }
}

/// Law: lake areas count disjoint sets of cells, so the areas of all
/// published lakes sum to at most the number of cells.
pub proof fn lemma_total_area(lakes: Seq<Lake>, assoc: Seq<Option<usize>>)
    requires
        lakes.len() <= usize::MAX as int,
        forall|k: int|
            0 <= k < lakes.len() ==> (#[trigger] lakes[k]).area == members(assoc, k as usize).len(),
    ensures
        sum_areas(lakes) <= assoc.len(),
{
    lemma_sum_areas_members(lakes, assoc, lakes.len() as int);
    assert(lakes.take(lakes.len() as int) =~= lakes);
    lemma_bounded_set(members_below(assoc, lakes.len() as int), assoc.len() as int);
}

/// Law: two live lakes with the same highest shore point are the same
/// lake. The spill cell is a member of its lake, and a cell belongs to at
/// most one lake.
pub proof fn lemma_unique_outlet(
    h: Seq<i64>,
    mesh: &Mesh,
    sea: i64,
    lakes: Seq<Lake>,
    assoc: Seq<Option<usize>>,
    k1: int,
    k2: int,
)
    requires
        lakes_wf(h, mesh, sea, lakes, assoc),
        lakes.len() <= usize::MAX as int,
        0 <= k1 < lakes.len(),
        0 <= k2 < lakes.len(),
        live(assoc, k1 as usize),
        live(assoc, k2 as usize),
        lakes[k1].highest_shore_point == lakes[k2].highest_shore_point,
    ensures
        k1 == k2,
{
    let hsp = lakes[k1].highest_shore_point as int;
    assert(assoc[hsp] == Some(k1 as usize));
    assert(assoc[hsp] == Some(k2 as usize));
}

/// Generates lakes in every depression above sea level.
///
/// Seeds a lake at each strict local minimum in cell-index order and grows
/// it with `expand_lake`, then publishes one `Lake` record per seeded lake
/// id (records of lakes later dissolved by a merge stay as zero-area
/// placeholders that no association references). Fails only when a
/// depression's shore queue runs dry, which a consistent bordered mesh
/// does not produce; a mesh without any strict local minimum above sea
/// level always succeeds, with every cell unassociated.
pub fn generate_lakes(heights: &Vec<i64>, mesh: &Mesh, sea_level: i64) -> (r: Result<
    (Vec<Lake>, Vec<Option<usize>>),
    LakeError,
>)
    requires
        mesh.wf(),
        mesh.cell_count() == heights@.len(),
    ensures
        r matches Ok(out) ==> lakes_wf(heights@, mesh, sea_level, out.0@, out.1@)
            && out.0@.len() <= heights@.len() && (forall|i: int|
            0 <= i < heights@.len() && is_local_min(heights@, mesh, sea_level, i)
                ==> out.1@[i] is Some) && (forall|k: int|
            0 <= k < out.0@.len() && live(out.1@, k as usize) ==> (#[trigger] out.0@[k]).area
                >= 2) && (forall|k: usize|
            live(out.1@, k) ==> exists|i: int|
                0 <= i < heights@.len() && out.1@[i] == Some(k) && is_local_min(
                    heights@,
                    mesh,
                    sea_level,
                    i,
                )),
        r is Err ==> exists|i: int|
            0 <= i < heights@.len() && is_local_min(heights@, mesh, sea_level, i),
        (forall|i: int|
            0 <= i < heights@.len() ==> !is_local_min(heights@, mesh, sea_level, i)) ==> r is Ok,
        (forall|i2: int, j2: int|
            0 <= i2 < heights@.len() && is_local_min(heights@, mesh, sea_level, i2) && 0 <= j2
                < mesh.adjacent@[i2].len() ==> mesh.border@[(#[trigger] mesh.adjacent@[i2][j2])
                as int]) ==> r is Ok,
{
    let ghost h = heights@;
    let n = heights.len();
    let mut assoc: Vec<Option<usize>> = Vec::new();
    let mut i0: usize = 0;
    while i0 < n
        invariant
            i0 <= n,
            assoc@.len() == i0 as int,
            forall|j: int| 0 <= j < i0 ==> (#[trigger] assoc@[j]) is None,
        decreases n - i0,
    {
        assoc.push(None);
        i0 = i0 + 1;
    }
    let mut builders: Vec<LakeBuilder> = Vec::new();
    proof {
        assert forall|k: usize| !live(assoc@, k) by {
            if live(assoc@, k) {
                let w = choose|w: int| 0 <= w < assoc@.len() && #[trigger] assoc@[w] == Some(k);
                assert(false);
            }
        }
    }
    let mut i: usize = 0;
    while i < n
        invariant
            mesh.wf(),
            mesh.cell_count() == h.len(),
            heights@ == h,
            h.len() == n as int,
            i <= n,
            assoc@.len() == h.len(),
            state_ok(h, sea_level, builders@, assoc@),
            finished_ok(h, mesh, builders@, assoc@, -1),
            builders@.len() <= i as int,
            forall|k: usize| live(assoc@, k) ==> members(assoc@, k).len() >= 2,
            forall|k: usize|
                live(assoc@, k) ==> exists|i2: int|
                    0 <= i2 < h.len() && assoc@[i2] == Some(k) && is_local_min(
                        h,
                        mesh,
                        sea_level,
                        i2,
                    ),
            forall|j: int|
                0 <= j < i && is_local_min(h, mesh, sea_level, j) ==> (#[trigger] assoc@[j])
                    is Some,
        decreases n - i,
    {
        let hi = heights[i];
        let was_none = match assoc[i] {
            None => true,
            Some(_) => false,
        };
        if hi > sea_level && was_none {
            let row_len = mesh.adjacent[i].len();
            let mut all_higher = true;
            let mut t: usize = 0;
            while t < row_len
                invariant
                    mesh.wf(),
                    mesh.cell_count() == h.len(),
                    heights@ == h,
                    (i as int) < h.len(),
                    hi == h[i as int],
                    row_len == mesh.adjacent@[i as int].len(),
                    t <= row_len,
                    all_higher == (forall|j: int|
                        0 <= j < t ==> h[#[trigger] mesh.adjacent@[i as int][j] as int] > h[i
                            as int]),
                decreases row_len - t,
            {
                let nb = mesh.adjacent[i][t];
                let higher = heights[nb] > hi;
                all_higher = all_higher && higher;
                t = t + 1;
            }
            if all_higher {
                let mut q = ShoreQueue::new();
                let mut t2: usize = 0;
                while t2 < row_len
                    invariant
                        mesh.wf(),
                        mesh.cell_count() == h.len(),
                        heights@ == h,
                        (i as int) < h.len(),
                        hi == h[i as int],
                        hi > sea_level,
                        row_len == mesh.adjacent@[i as int].len(),
                        forall|j: int|
                            0 <= j < row_len ==> h[#[trigger] mesh.adjacent@[i as int][j] as int]
                                > h[i as int],
                        t2 <= row_len,
                        shores_ok(q@, h, sea_level),
                        forall|e: ShorePoint|
                            q@.count(e) > 0 ==> (e.id as int) < h.len() && h[e.id as int] > h[i
                                as int],
                        q@.len() == t2 as int,
                        forall|e: ShorePoint|
                            q@.count(e) > 0 ==> exists|j2: int|
                                0 <= j2 < row_len && (e.id as int)
                                    == (#[trigger] mesh.adjacent@[i as int][j2]) as int,
                    decreases row_len - t2,
                {
                    let nb = mesh.adjacent[i][t2];
                    q.push(ShorePoint { id: nb, height: heights[nb] });
                    t2 = t2 + 1;
                }
                let lake_id = builders.len();
                let ghost builders_pre = builders@;
                let ghost assoc_pre = assoc@;
                builders.push(
                    LakeBuilder {
                        water_level: hi,
                        area: 1,
                        highest_shore_point: i,
                        shores: q,
                    },
                );
                assoc.set(i, Some(lake_id));
                proof {
                    lemma_commit_effects(assoc_pre, i as int, lake_id);
                    let bl2 = builders@;
                    // the fresh id owns exactly the seed cell
                    assert(members(assoc_pre, lake_id) =~= Set::<int>::empty()) by {
                        assert forall|c: int| !members(assoc_pre, lake_id).contains(c) by {
                            if 0 <= c < assoc_pre.len() && assoc_pre[c] == Some(lake_id) {
                                assert(cells_ok(h, sea_level, assoc_pre, builders_pre.len() as int));
                                assert(false);
                            }
                        }
                    }
                    assert(Set::<int>::empty().len() == 0);
                    assert(members(assoc@, lake_id) == members(assoc_pre, lake_id).insert(i as int));
                    assert(members(assoc@, lake_id).len() == 1);
                    assert(state_ok(h, sea_level, bl2, assoc@)) by {
                        assert forall|k: int| 0 <= k < bl2.len() implies builder_ok(
                            h,
                            sea_level,
                            assoc@,
                            #[trigger] bl2[k],
                            k as usize,
                        ) by {
                            if k == lake_id as int {
                                assert(bl2[k].shores@ == q@);
                            } else {
                                assert(bl2[k] == builders_pre[k]);
                                assert(builder_ok(h, sea_level, assoc_pre, builders_pre[k], k as usize));
                                assert(members(assoc@, k as usize) == members(assoc_pre, k as usize));
                                assert(live(assoc@, k as usize) <==> live(assoc_pre, k as usize));
                            }
                        }
                    }
                    assert(finished_ok(h, mesh, bl2, assoc@, lake_id as int)) by {
                        assert forall|k: int|
                            0 <= k < bl2.len() && k != lake_id as int && live(assoc@, k as usize)
                                implies spill_ok(
                            h,
                            mesh,
                            assoc@,
                            k as usize,
                            (#[trigger] bl2[k]).water_level,
                            bl2[k].highest_shore_point,
                        ) by {
                            let ku = k as usize;
                            assert(live(assoc_pre, ku));
                            assert(bl2[k] == builders_pre[k]);
                            assert(spill_ok(
                                h,
                                mesh,
                                assoc_pre,
                                ku,
                                builders_pre[k].water_level,
                                builders_pre[k].highest_shore_point,
                            ));
                            let hsp = builders_pre[k].highest_shore_point as int;
                            let wl = builders_pre[k].water_level;
                            assert(assoc_pre[hsp] == Some(ku));
                            assert(hsp != i as int);
                            assert(assoc@[hsp] == Some(ku));
                            if !mesh.border@[hsp] {
                                let j = choose|j: int|
                                    0 <= j < mesh.adjacent@[hsp].len() && h[#[trigger] mesh.adjacent@[hsp][j] as int]
                                        < wl && assoc_pre[mesh.adjacent@[hsp][j] as int] != Some(ku);
                                assert(assoc@[mesh.adjacent@[hsp][j] as int] != Some(ku));
                                assert(0 <= j < mesh.adjacent@[hsp].len() && h[mesh.adjacent@[hsp][j] as int]
                                    < wl && assoc@[mesh.adjacent@[hsp][j] as int] != Some(ku));
                            }
                        }
                    }
                    assert(live(assoc@, lake_id));
                    // the fresh queue points only at cells outside the new lake
                    assert forall|e: ShorePoint|
                        builders@[lake_id as int].shores@.count(e) > 0 implies (e.id as int)
                        < assoc@.len() && assoc@[e.id as int] != Some(lake_id) by {
                        assert(q@.count(e) > 0);
                        assert(h[e.id as int] > h[i as int]);
                        if e.id as int != i as int {
                            assert(assoc@[e.id as int] == assoc_pre[e.id as int]);
                            match assoc_pre[e.id as int] {
                                Some(k2) => {
                                    assert((k2 as int) < builders_pre.len());
                                },
                                None => {},
                            }
                        }
                    }
                }
                let ghost assoc_seeded = assoc@;
                let ghost q_at_call = builders@[lake_id as int].shores@;
                match expand_lake(lake_id, heights, mesh, &mut builders, &mut assoc, Ghost(sea_level)) {
                    Ok(()) => {},
                    Err(e) => {
                        proof {
                            assert(is_local_min(h, mesh, sea_level, i as int));
                            // growth cannot fail when every neighbour of a
                            // seed sits on the border
                            assert(q_at_call.len() > 0);
                            assert(!(q_at_call.len() > 0 && (forall|e2: ShorePoint|
                                q_at_call.count(e2) > 0 ==> mesh.border@[e2.id as int])));
                            let bad = choose|e2: ShorePoint|
                                q_at_call.count(e2) > 0 && !mesh.border@[e2.id as int];
                            let j2 = choose|j2: int|
                                0 <= j2 < row_len && (bad.id as int)
                                    == (#[trigger] mesh.adjacent@[i as int][j2]) as int;
                            assert(0 <= (i as int) && (i as int) < h.len());
                            assert(0 <= j2 < mesh.adjacent@[i as int].len());
                            assert(!mesh.border@[mesh.adjacent@[i as int][j2] as int]);
                        }
                        return Err(e);
                    },
                }
                proof {
                    assert(assoc@[i as int] is Some) by {
                        if assoc@[i as int] != assoc_seeded[i as int] {
                            assert(assoc@[i as int] == Some(lake_id));
                        }
                    }
                    assert forall|k: usize| live(assoc@, k) implies members(assoc@, k).len()
                        >= 2 by {
                        if k != lake_id {
                            assert((k as int) < builders@.len());
                            assert(members(assoc@, k) == members(assoc_seeded, k));
                            let w = choose|w: int|
                                0 <= w < assoc@.len() && #[trigger] assoc@[w] == Some(k);
                            assert(members(assoc@, k).contains(w));
                            assert(assoc_seeded[w] == Some(k));
                            assert(assoc_pre[w] == Some(k));
                            assert(live(assoc_pre, k));
                            assert(members(assoc_seeded, k) == members(assoc_pre, k)) by {
                                assert(members(assoc_seeded, k) =~= members(assoc_pre, k));
                            }
                        }
                    }
                    assert(is_local_min(h, mesh, sea_level, i as int));
                    assert forall|k: usize| live(assoc@, k) implies exists|i2: int|
                        0 <= i2 < h.len() && assoc@[i2] == Some(k) && is_local_min(
                            h,
                            mesh,
                            sea_level,
                            i2,
                        ) by {
                        if k == lake_id {
                            assert(assoc_seeded[i as int] == Some(lake_id));
                            assert(assoc@[i as int] == Some(lake_id)) by {
                                if assoc@[i as int] != assoc_seeded[i as int] {
                                    assert(assoc@[i as int] == Some(lake_id));
                                }
                            }
                            assert(0 <= (i as int) && (i as int) < h.len() && assoc@[i as int]
                                == Some(k) && is_local_min(h, mesh, sea_level, i as int));
                        } else {
                            assert((k as int) < builders@.len());
                            assert(members(assoc@, k) == members(assoc_seeded, k));
                            assert(members(assoc_seeded, k) == members(assoc_pre, k)) by {
                                assert(members(assoc_seeded, k) =~= members(assoc_pre, k));
                            }
                            let w = choose|w: int|
                                0 <= w < assoc@.len() && #[trigger] assoc@[w] == Some(k);
                            assert(members(assoc@, k).contains(w));
                            assert(assoc_pre[w] == Some(k));
                            assert(live(assoc_pre, k));
                            let i2 = choose|i2: int|
                                0 <= i2 < h.len() && assoc_pre[i2] == Some(k) && is_local_min(
                                    h,
                                    mesh,
                                    sea_level,
                                    i2,
                                );
                            assert(members(assoc_pre, k).contains(i2));
                            assert(members(assoc@, k).contains(i2));
                            assert(assoc@[i2] == Some(k));
                            assert(0 <= i2 < h.len() && assoc@[i2] == Some(k) && is_local_min(
                                h,
                                mesh,
                                sea_level,
                                i2,
                            ));
                        }
                    }
                    assert forall|j: int|
                        0 <= j < i + 1 && is_local_min(h, mesh, sea_level, j) implies (
                    #[trigger] assoc@[j]) is Some by {
                        if j < i {
                            assert(assoc_seeded[j] == assoc_pre[j] || j == i as int);
                            if assoc@[j] != assoc_seeded[j] {
                                assert(assoc@[j] == Some(lake_id));
                            }
                        }
                    }
                }
            } else {
                proof {
                    let j = choose|j: int|
                        0 <= j < row_len && !(h[#[trigger] mesh.adjacent@[i as int][j] as int] > h[i
                            as int]);
                    assert(!is_local_min(h, mesh, sea_level, i as int));
                }
            }
        } else {
            proof {
                if hi <= sea_level {
                    assert(!is_local_min(h, mesh, sea_level, i as int));
                }
            }
        }
        i = i + 1;
    }
    // publish one record per lake id
    let n_builders = builders.len();
    let mut lakes: Vec<Lake> = Vec::new();
    let mut k: usize = 0;
    while k < n_builders
        invariant
            k <= n_builders,
            n_builders as int == builders@.len(),
            lakes@.len() == k as int,
            forall|k2: int|
                0 <= k2 < k ==> (#[trigger] lakes@[k2]) == (Lake {
                    water_level: builders@[k2].water_level,
                    area: builders@[k2].area,
                    highest_shore_point: builders@[k2].highest_shore_point,
                    inflow_flux: 0u64,
                }),
        decreases n_builders - k,
    {
        let wl = builders[k].water_level;
        let ar = builders[k].area;
        let hs = builders[k].highest_shore_point;
        lakes.push(Lake { water_level: wl, area: ar, highest_shore_point: hs, inflow_flux: 0 });
        k = k + 1;
    }
    proof {
        assert(lakes_wf(h, mesh, sea_level, lakes@, assoc@)) by {
            assert forall|k2: int|
                0 <= k2 < lakes@.len() && live(assoc@, k2 as usize) implies spill_ok(
                h,
                mesh,
                assoc@,
                k2 as usize,
                (#[trigger] lakes@[k2]).water_level,
                lakes@[k2].highest_shore_point,
            ) && lakes@[k2].water_level > sea_level by {
                assert(builder_ok(h, sea_level, assoc@, builders@[k2], k2 as usize));
                assert(spill_ok(
                    h,
                    mesh,
                    assoc@,
                    k2 as usize,
                    builders@[k2].water_level,
                    builders@[k2].highest_shore_point,
                ));
            }
            assert forall|k2: int| 0 <= k2 < lakes@.len() implies (#[trigger] lakes@[k2]).area
                == members(assoc@, k2 as usize).len() by {
                assert(builder_ok(h, sea_level, assoc@, builders@[k2], k2 as usize));
            }
        }
        assert forall|k2: int|
            0 <= k2 < lakes@.len() && live(assoc@, k2 as usize) implies (#[trigger] lakes@[k2]).area
            >= 2 by {
            assert(builder_ok(h, sea_level, assoc@, builders@[k2], k2 as usize));
            assert(members(assoc@, k2 as usize).len() >= 2);
        }
        assert forall|k2: usize| live(assoc@, k2) implies exists|i2: int|
            0 <= i2 < h.len() && assoc@[i2] == Some(k2) && is_local_min(
                h,
                mesh,
                sea_level,
                i2,
            ) by {}
    }
    Ok((lakes, assoc))
}

} // verus!
