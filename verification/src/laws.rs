use crate::patch::PatchView;
use crate::peer::closed_map;
use crate::peer::deps_met;
use crate::peer::integrate_complete;
use crate::peer::integrate_frame;
use crate::store::is_head;
use vstd::prelude::*;

verus! {

/// Every patch of the map sits under its own id.
pub open spec fn keyed_by_id(m: Map<Seq<u8>, PatchView>) -> bool {
    forall|id: Seq<u8>| #[trigger] m.dom().contains(id) ==> m[id].id == id
}

/// Within the batch, an id determines the patch: two entries with one id are
/// one patch.
pub open spec fn ids_consistent(vs: Seq<PatchView>) -> bool {
    forall|k1: int, k2: int|
        0 <= k1 < vs.len() && 0 <= k2 < vs.len() && (#[trigger] vs[k1]).id == (
        #[trigger] vs[k2]).id ==> vs[k1] == vs[k2]
}

/// Two batches carry the same set of patches.
pub open spec fn same_patch_set(a: Seq<PatchView>, b: Seq<PatchView>) -> bool {
    forall|pv: PatchView| a.contains(pv) <==> b.contains(pv)
}

/// `order` enumerates a dependency-closed set in dependency order over the
/// base `i0`: each patch's parents are integrated in `i0` or listed earlier.
pub open spec fn topo_ok(i0: Map<Seq<u8>, PatchView>, order: Seq<PatchView>) -> bool {
    forall|k: int, d: int|
        0 <= k < order.len() && 0 <= d < (#[trigger] order[k]).deps.len() ==> i0.dom().contains(
            #[trigger] order[k].deps[d],
        ) || exists|j: int| 0 <= j < k && (#[trigger] order[j]).id == order[k].deps[d]
}

/// The integrated map a full integration must produce: the base, plus every
/// enumerated patch under its id.
pub open spec fn extended(i0: Map<Seq<u8>, PatchView>, order: Seq<PatchView>) -> Map<
    Seq<u8>,
    PatchView,
> {
    Map::new(
        |id: Seq<u8>|
            i0.dom().contains(id) || exists|k: int|
                0 <= k < order.len() && (#[trigger] order[k].id) == id,
        |id: Seq<u8>|
            if i0.dom().contains(id) {
                i0[id]
            } else {
                order[choose|k: int| 0 <= k < order.len() && (#[trigger] order[k].id) == id]
            },
    )
}

proof fn lemma_topo_prefix(
    i0: Map<Seq<u8>, PatchView>,
    input: Seq<PatchView>,
    i1: Map<Seq<u8>, PatchView>,
    s1: Map<Seq<u8>, PatchView>,
    order: Seq<PatchView>,
    k: int,
)
    requires
        closed_map(i0),
        integrate_frame(i0, Map::empty(), input, i1, s1),
        integrate_complete(i0, Map::empty(), input, i1, s1),
        keyed_by_id(i1),
        keyed_by_id(s1),
        ids_consistent(input),
        forall|pv: PatchView| order.contains(pv) <==> input.contains(pv),
        topo_ok(i0, order),
        0 <= k < order.len(),
    ensures
        i1.dom().contains(order[k].id),
    decreases k,
{
    let pv = order[k];
    assert forall|d: int| 0 <= d < pv.deps.len() implies i1.dom().contains(
        #[trigger] pv.deps[d],
    ) by {
        if !i0.dom().contains(pv.deps[d]) {
            let j = choose|j: int| 0 <= j < k && (#[trigger] order[j]).id == pv.deps[d];
            lemma_topo_prefix(i0, input, i1, s1, order, j);
        } else {
            assert(i0.dom().contains(pv.deps[d]) && i1.dom().contains(pv.deps[d]));
        }
    }
    assert(order.contains(pv));
    assert(input.contains(pv));
    let w = choose|w: int| 0 <= w < input.len() && input[w] == pv;
    assert(i1.dom().contains(input[w].id) || s1.dom().contains(input[w].id));
    if s1.dom().contains(pv.id) && !i1.dom().contains(pv.id) {
        assert(stash_blocked_holds(i1, s1));
        let sp = s1[pv.id];
        assert(sp.id == pv.id);
        assert((Map::<Seq<u8>, PatchView>::empty()).dom().contains(pv.id) || input.contains(sp));
        let w2 = choose|w2: int| 0 <= w2 < input.len() && input[w2] == sp;
        assert(input[w2].id == input[w].id);
        assert(sp == pv);
        let d = choose|d: int|
            0 <= d < sp.deps.len() && !i1.dom().contains(#[trigger] sp.deps[d]);
        assert(i1.dom().contains(pv.deps[d]));
        assert(false);
    }
}

spec fn stash_blocked_holds(i1: Map<Seq<u8>, PatchView>, s1: Map<Seq<u8>, PatchView>) -> bool {
    crate::peer::stash_blocked(i1, s1)
}

/// A full integration: integrating a dependency-closed, dependency-orderable
/// batch into a store with an empty stash integrates all of it. The final
/// integrated map is the base extended by exactly the batch, and the stash
/// ends empty.
pub proof fn lemma_integrate_saturates(
    i0: Map<Seq<u8>, PatchView>,
    input: Seq<PatchView>,
    i1: Map<Seq<u8>, PatchView>,
    s1: Map<Seq<u8>, PatchView>,
    order: Seq<PatchView>,
)
    requires
        closed_map(i0),
        integrate_frame(i0, Map::empty(), input, i1, s1),
        integrate_complete(i0, Map::empty(), input, i1, s1),
        keyed_by_id(i1),
        keyed_by_id(s1),
        ids_consistent(input),
        forall|pv: PatchView| order.contains(pv) <==> input.contains(pv),
        topo_ok(i0, order),
    ensures
        i1 == extended(i0, order),
        s1.dom() =~= Set::<Seq<u8>>::empty(),
{
    let ext = extended(i0, order);
    assert forall|id: Seq<u8>| #[trigger] i1.dom().contains(id) implies ext.dom().contains(
        id,
    ) by {
        if !i0.dom().contains(id) {
            let pv = i1[id];
            assert(pv.id == id);
            assert(input.contains(pv));
            assert(order.contains(pv));
            let k = choose|k: int| 0 <= k < order.len() && order[k] == pv;
            assert(order[k].id == id);
        }
    }
    assert forall|id: Seq<u8>| #[trigger] ext.dom().contains(id) implies i1.dom().contains(
        id,
    ) && i1[id] == ext[id] by {
        if i0.dom().contains(id) {
            assert(i1.dom().contains(id) && i1[id] == i0[id]);
        } else {
            let k = choose|k: int| 0 <= k < order.len() && (#[trigger] order[k].id) == id;
            lemma_topo_prefix(i0, input, i1, s1, order, k);
            let pv = i1[id];
            assert(pv.id == id);
            assert(input.contains(pv));
            let c = choose|c: int| 0 <= c < order.len() && (#[trigger] order[c].id) == id;
            assert(order.contains(order[c]));
            assert(input.contains(order[c]));
            let w1 = choose|w1: int| 0 <= w1 < input.len() && input[w1] == pv;
            let w2 = choose|w2: int| 0 <= w2 < input.len() && input[w2] == order[c];
            assert(input[w1].id == input[w2].id);
            assert(pv == order[c]);
        }
    }
    assert(i1 =~= ext);
    assert forall|id: Seq<u8>| !(#[trigger] s1.dom().contains(id)) by {
        if s1.dom().contains(id) {
            let sp = s1[id];
            assert(sp.id == id);
            assert(input.contains(sp));
            assert(order.contains(sp));
            let k = choose|k: int| 0 <= k < order.len() && order[k] == sp;
            lemma_topo_prefix(i0, input, i1, s1, order, k);
            assert(i1.dom().contains(id));
            assert(false);
        }
    }
}

/// Order-independence of integration: two batches that enumerate one
/// dependency-closed patch set, integrated into one starting state with an
/// empty stash, produce one integrated map, one head set, and an empty
/// stash, whatever the order of either batch.
pub proof fn lemma_integrate_order_independent(
    i0: Map<Seq<u8>, PatchView>,
    in_a: Seq<PatchView>,
    ia: Map<Seq<u8>, PatchView>,
    sa: Map<Seq<u8>, PatchView>,
    in_b: Seq<PatchView>,
    ib: Map<Seq<u8>, PatchView>,
    sb: Map<Seq<u8>, PatchView>,
    order: Seq<PatchView>,
)
    requires
        closed_map(i0),
        integrate_frame(i0, Map::empty(), in_a, ia, sa),
        integrate_complete(i0, Map::empty(), in_a, ia, sa),
        integrate_frame(i0, Map::empty(), in_b, ib, sb),
        integrate_complete(i0, Map::empty(), in_b, ib, sb),
        keyed_by_id(ia),
        keyed_by_id(sa),
        keyed_by_id(ib),
        keyed_by_id(sb),
        ids_consistent(in_a + in_b),
        same_patch_set(in_a, in_b),
        forall|pv: PatchView| order.contains(pv) <==> in_a.contains(pv),
        topo_ok(i0, order),
    ensures
        ia == ib,
        forall|id: Seq<u8>| is_head(ia, id) <==> is_head(ib, id),
        sa.dom() =~= Set::<Seq<u8>>::empty(),
        sb.dom() =~= Set::<Seq<u8>>::empty(),
{
    assert(ids_consistent(in_a)) by {
        assert forall|k1: int, k2: int|
            0 <= k1 < in_a.len() && 0 <= k2 < in_a.len() && (#[trigger] in_a[k1]).id == (
            #[trigger] in_a[k2]).id implies in_a[k1] == in_a[k2] by {
            assert((in_a + in_b)[k1] == in_a[k1]);
            assert((in_a + in_b)[k2] == in_a[k2]);
        }
    }
    assert(ids_consistent(in_b)) by {
        assert forall|k1: int, k2: int|
            0 <= k1 < in_b.len() && 0 <= k2 < in_b.len() && (#[trigger] in_b[k1]).id == (
            #[trigger] in_b[k2]).id implies in_b[k1] == in_b[k2] by {
            assert((in_a + in_b)[in_a.len() + k1] == in_b[k1]);
            assert((in_a + in_b)[in_a.len() + k2] == in_b[k2]);
        }
    }
    lemma_integrate_saturates(i0, in_a, ia, sa, order);
    assert(forall|pv: PatchView| order.contains(pv) <==> in_b.contains(pv));
    lemma_integrate_saturates(i0, in_b, ib, sb, order);
}

proof fn lemma_integrate_single(
    i0: Map<Seq<u8>, PatchView>,
    input: Seq<PatchView>,
    i1: Map<Seq<u8>, PatchView>,
    s1: Map<Seq<u8>, PatchView>,
    p: PatchView,
)
    requires
        closed_map(i0),
        closed_map(i1),
        integrate_frame(i0, Map::empty(), input, i1, s1),
        integrate_complete(i0, Map::empty(), input, i1, s1),
        keyed_by_id(i1),
        keyed_by_id(s1),
        input.len() > 0,
        forall|k: int| 0 <= k < input.len() ==> input[k] == p,
    ensures
        i0.dom().contains(p.id) ==> i1 == i0 && s1.dom() =~= Set::<Seq<u8>>::empty(),
        (!i0.dom().contains(p.id) && deps_met(i0, p.deps)) ==> i1 == i0.insert(p.id, p)
            && s1.dom() =~= Set::<Seq<u8>>::empty(),
        (!i0.dom().contains(p.id) && !deps_met(i0, p.deps)) ==> i1 == i0 && s1 == Map::<
            Seq<u8>,
            PatchView,
        >::empty().insert(p.id, p),
{
    assert(input[0] == p);
    assert(input.contains(p));
    assert forall|pv: PatchView| input.contains(pv) implies pv == p by {
        let k = choose|k: int| 0 <= k < input.len() && input[k] == pv;
    }
    assert forall|id: Seq<u8>| #[trigger]
        i1.dom().contains(id) && !i0.dom().contains(id) implies id == p.id && i1[id] == p by {
        assert(input.contains(i1[id]));
        assert(i1[id].id == id);
    }
    assert forall|id: Seq<u8>| #[trigger] s1.dom().contains(id) implies id == p.id && s1[id]
        == p by {
        assert(input.contains(s1[id]));
        assert(s1[id].id == id);
    }
    if i0.dom().contains(p.id) {
        assert forall|id: Seq<u8>| #[trigger] i1.dom().contains(id) implies i0.dom().contains(
            id,
        ) && i1[id] == i0[id] by {
            if !i0.dom().contains(id) {
                assert(id == p.id);
                assert(false);
            }
        }
        assert(i1 =~= i0);
        assert forall|id: Seq<u8>| !(#[trigger] s1.dom().contains(id)) by {
            if s1.dom().contains(id) {
                assert(id == p.id);
                assert(i1.dom().contains(id));
                assert(false);
            }
        }
    } else if deps_met(i0, p.deps) {
        assert(i1.dom().contains(input[0].id) || s1.dom().contains(input[0].id));
        if s1.dom().contains(p.id) && !i1.dom().contains(p.id) {
            let d = choose|d: int|
                0 <= d < s1[p.id].deps.len() && !i1.dom().contains(#[trigger] s1[p.id].deps[d]);
            assert(i0.dom().contains(p.deps[d]));
            assert(i1.dom().contains(p.deps[d]));
            assert(false);
        }
        assert(i1.dom().contains(p.id));
        assert(i1[p.id] == p);
        assert(i1 =~= i0.insert(p.id, p));
        assert forall|id: Seq<u8>| !(#[trigger] s1.dom().contains(id)) by {
            if s1.dom().contains(id) {
                assert(id == p.id);
                assert(i1.dom().contains(id));
                assert(false);
            }
        }
    } else {
        let d0 = choose|d0: int|
            0 <= d0 < p.deps.len() && !i0.dom().contains(#[trigger] p.deps[d0]);
        if i1.dom().contains(p.id) {
            assert(i1[p.id] == p);
            assert(!p.deps.contains(p.id));
            assert(i1.dom().contains(p.deps[d0]));
            assert(p.deps[d0] != p.id) by {
                if p.deps[d0] == p.id {
                    assert(p.deps.contains(p.deps[d0]));
                }
            }
            assert(i0.dom().contains(p.deps[d0]));
            assert(false);
        }
        assert(i1 =~= i0);
        assert(s1.dom().contains(p.id));
        assert(s1 =~= Map::<Seq<u8>, PatchView>::empty().insert(p.id, p));
    }
}

/// Idempotence of integration: feeding one patch once or many times over,
/// into one starting state with an empty stash, has one effect. The patch is
/// integrated exactly when its id is new and its parents are integrated; it
/// is stashed when a parent is absent, and ignored when already present.
pub proof fn lemma_integrate_idempotent(
    i0: Map<Seq<u8>, PatchView>,
    in_a: Seq<PatchView>,
    ia: Map<Seq<u8>, PatchView>,
    sa: Map<Seq<u8>, PatchView>,
    in_b: Seq<PatchView>,
    ib: Map<Seq<u8>, PatchView>,
    sb: Map<Seq<u8>, PatchView>,
    p: PatchView,
)
    requires
        closed_map(i0),
        closed_map(ia),
        closed_map(ib),
        integrate_frame(i0, Map::empty(), in_a, ia, sa),
        integrate_complete(i0, Map::empty(), in_a, ia, sa),
        integrate_frame(i0, Map::empty(), in_b, ib, sb),
        integrate_complete(i0, Map::empty(), in_b, ib, sb),
        keyed_by_id(ia),
        keyed_by_id(sa),
        keyed_by_id(ib),
        keyed_by_id(sb),
        in_a.len() > 0,
        in_b.len() > 0,
        forall|k: int| 0 <= k < in_a.len() ==> in_a[k] == p,
        forall|k: int| 0 <= k < in_b.len() ==> in_b[k] == p,
    ensures
        ia == ib,
        sa == sb,
{
    lemma_integrate_single(i0, in_a, ia, sa, p);
    lemma_integrate_single(i0, in_b, ib, sb, p);
    if i0.dom().contains(p.id) {
        assert(sa =~= Map::<Seq<u8>, PatchView>::empty());
        assert(sb =~= Map::<Seq<u8>, PatchView>::empty());
    } else if deps_met(i0, p.deps) {
        assert(sa =~= Map::<Seq<u8>, PatchView>::empty());
        assert(sb =~= Map::<Seq<u8>, PatchView>::empty());
    }
}

} // verus!
