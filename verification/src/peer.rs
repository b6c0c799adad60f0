use crate::crypto::public_key_of;
use crate::crypto::signature_of;
use crate::crypto::signature_valid;
use crate::crypto::SigningKey;
use crate::patch::dedup_ids;
use crate::patch::distinct_ids;
use crate::patch::id_of;
use crate::patch::ids_seq;
use crate::patch::lemma_dedup_of_distinct;
use crate::patch::Patch;
use crate::patch::PatchView;
use crate::patch::ID;
use crate::store::heads_of;
use crate::store::is_head;
use crate::store::patches_reply;
use crate::store::store_consistent;
use crate::store::views_of;
use crate::store::ObjectStore;
use crate::Error;
use crate::PeerID;
use vstd::prelude::*;

verus! {

/// Every id in `deps` is a key of `m`.
pub open spec fn deps_met(m: Map<Seq<u8>, PatchView>, deps: Seq<Seq<u8>>) -> bool {
    forall|k: int| 0 <= k < deps.len() ==> m.dom().contains(#[trigger] deps[k])
}

/// Dependency closure: every parent of an integrated patch is integrated.
pub open spec fn closed_map(m: Map<Seq<u8>, PatchView>) -> bool {
    forall|id: Seq<u8>| #[trigger] m.dom().contains(id) ==> deps_met(m, m[id].deps)
}

/// Every patch of the map carries a valid signature.
pub open spec fn all_verified(m: Map<Seq<u8>, PatchView>) -> bool {
    forall|id: Seq<u8>| #[trigger]
        m.dom().contains(id) ==> signature_valid(m[id].author, m[id].data, m[id].sig)
}

/// Every stashed patch still waits on some parent that is not integrated.
pub open spec fn stash_blocked(
    m: Map<Seq<u8>, PatchView>,
    s: Map<Seq<u8>, PatchView>,
) -> bool {
    forall|id: Seq<u8>| #[trigger]
        s.dom().contains(id) ==> exists|k: int|
            0 <= k < s[id].deps.len() && !m.dom().contains(#[trigger] s[id].deps[k])
}

/// Every signature in a batch of patch views is valid.
pub open spec fn all_valid(vs: Seq<PatchView>) -> bool {
    forall|k: int|
        0 <= k < vs.len() ==> signature_valid(
            (#[trigger] vs[k]).author,
            vs[k].data,
            vs[k].sig,
        )
}

/// Some element of `vs` has this id.
spec fn has_id(vs: Seq<PatchView>, id: Seq<u8>) -> bool {
    exists|k: int| 0 <= k < vs.len() && (#[trigger] vs[k].id) == id
}

/// The patch view came with this call: it is an input patch, or it was in
/// the stash when the call began.
pub open spec fn from_pool(
    s0: Map<Seq<u8>, PatchView>,
    input: Seq<PatchView>,
    pv: PatchView,
) -> bool {
    (s0.dom().contains(pv.id) && s0[pv.id] == pv) || input.contains(pv)
}

/// What holds of the store after `integrate`, whether or not it succeeded:
/// the integrated set only grew, and everything new in either set is an
/// input patch or a previously stashed one; every newly integrated patch has
/// a valid signature and does not name itself as a parent.
pub open spec fn integrate_frame(
    i0: Map<Seq<u8>, PatchView>,
    s0: Map<Seq<u8>, PatchView>,
    input: Seq<PatchView>,
    i1: Map<Seq<u8>, PatchView>,
    s1: Map<Seq<u8>, PatchView>,
) -> bool {
    &&& i0.submap_of(i1)
    &&& forall|id: Seq<u8>| #[trigger]
        i1.dom().contains(id) && !i0.dom().contains(id) ==> from_pool(s0, input, i1[id])
            && !i1[id].deps.contains(id) && signature_valid(
            i1[id].author,
            i1[id].data,
            i1[id].sig,
        )
    &&& forall|id: Seq<u8>| #[trigger] s1.dom().contains(id) ==> from_pool(s0, input, s1[id])
}

/// What a successful `integrate` additionally guarantees: the two sets stay
/// disjoint, every input patch and every previously stashed patch now sits
/// in one of them, and if every stashed patch was blocked before, every
/// stashed patch is blocked after.
pub open spec fn integrate_complete(
    i0: Map<Seq<u8>, PatchView>,
    s0: Map<Seq<u8>, PatchView>,
    input: Seq<PatchView>,
    i1: Map<Seq<u8>, PatchView>,
    s1: Map<Seq<u8>, PatchView>,
) -> bool {
    &&& forall|id: Seq<u8>| #[trigger] i1.dom().contains(id) ==> !s1.dom().contains(id)
    &&& forall|k: int|
        0 <= k < input.len() ==> i1.dom().contains(#[trigger] input[k].id)
            || s1.dom().contains(input[k].id)
    &&& forall|id: Seq<u8>| #[trigger]
        s0.dom().contains(id) ==> i1.dom().contains(id) || s1.dom().contains(id)
    &&& (stash_blocked(i0, s0) ==> stash_blocked(i1, s1))
}

/// Some element of `vs` at or after position `idx` has this id.
spec fn pending(vs: Seq<PatchView>, idx: int, id: Seq<u8>) -> bool {
    exists|k: int| idx <= k < vs.len() && (#[trigger] vs[k].id) == id
}

/// Every unmet parent of the stashed patch `pv` is listed in `missing_ids`.
pub open spec fn stash_covered(
    st_i: Map<Seq<u8>, PatchView>,
    pv: PatchView,
    missing_ids: Seq<Seq<u8>>,
) -> bool {
    forall|d: int|
        0 <= d < pv.deps.len() && !st_i.dom().contains(#[trigger] pv.deps[d])
            ==> missing_ids.contains(pv.deps[d])
}

/// The bookkeeping `integrate` maintains for its missing list: no repeats,
/// nothing that was integrated when the call began, and every unmet parent
/// of a patch stashed during this call is listed.
pub open spec fn miss_inv(
    st_i: Map<Seq<u8>, PatchView>,
    st_s: Map<Seq<u8>, PatchView>,
    i0: Map<Seq<u8>, PatchView>,
    s0: Map<Seq<u8>, PatchView>,
    missing_ids: Seq<Seq<u8>>,
) -> bool {
    &&& distinct_ids(missing_ids)
    &&& forall|k: int|
        0 <= k < missing_ids.len() ==> !i0.dom().contains(#[trigger] missing_ids[k])
    &&& forall|id: Seq<u8>| #[trigger]
        st_s.dom().contains(id) && !s0.dom().contains(id) ==> stash_covered(
            st_i,
            st_s[id],
            missing_ids,
        )
}

/// The store-state invariant of `integrate`'s fixpoint: the store is well
/// formed, the integrated set stays closed and only grows, stashed patches
/// are verified, and both sets draw only on the input and the old stash.
spec fn integ_store_inv<S: ObjectStore>(
    store: S,
    i0: Map<Seq<u8>, PatchView>,
    s0: Map<Seq<u8>, PatchView>,
    inviews: Seq<PatchView>,
) -> bool {
    &&& store.inv()
    &&& store_consistent(store.integrated(), store.stashed())
    &&& closed_map(store.integrated())
    &&& all_verified(store.stashed())
    &&& i0.submap_of(store.integrated())
    &&& integrate_frame(i0, s0, inviews, store.integrated(), store.stashed())
}

/// Every id of the input or the old stash is accounted for: integrated,
/// stashed, or still queued in the batch from position `idx` on.
spec fn pool_present<S: ObjectStore>(
    store: S,
    inviews: Seq<PatchView>,
    s0: Map<Seq<u8>, PatchView>,
    batchviews: Seq<PatchView>,
    idx: int,
) -> bool {
    &&& forall|k: int|
        0 <= k < inviews.len() ==> store.integrated().dom().contains(
            (#[trigger] inviews[k]).id,
        ) || store.stashed().dom().contains(inviews[k].id) || pending(
            batchviews,
            idx,
            inviews[k].id,
        )
    &&& forall|id: Seq<u8>| #[trigger]
        s0.dom().contains(id) ==> store.integrated().dom().contains(id)
            || store.stashed().dom().contains(id) || pending(batchviews, idx, id)
}

proof fn lemma_pool_advance<S: ObjectStore>(
    st0: S,
    st1: S,
    inviews: Seq<PatchView>,
    s0: Map<Seq<u8>, PatchView>,
    bviews: Seq<PatchView>,
    idx: int,
)
    requires
        0 <= idx < bviews.len(),
        pool_present(st0, inviews, s0, bviews, idx),
        st0.integrated().dom().subset_of(st1.integrated().dom()),
        st0.stashed().dom().subset_of(st1.stashed().dom()),
        st1.integrated().dom().contains(bviews[idx].id) || st1.stashed().dom().contains(
            bviews[idx].id,
        ),
    ensures
        pool_present(st1, inviews, s0, bviews, idx + 1),
{
    assert forall|k: int|
        0 <= k < inviews.len() implies st1.integrated().dom().contains(
        (#[trigger] inviews[k]).id,
    ) || st1.stashed().dom().contains(inviews[k].id) || pending(
        bviews,
        idx + 1,
        inviews[k].id,
    ) by {
        let id = inviews[k].id;
        if pending(bviews, idx, id) && !st0.integrated().dom().contains(id)
            && !st0.stashed().dom().contains(id) {
            let w = choose|w: int| idx <= w < bviews.len() && bviews[w].id == id;
            if w > idx {
                assert(pending(bviews, idx + 1, id));
            }
        }
    }
    assert forall|id: Seq<u8>| #[trigger]
        s0.dom().contains(id) implies st1.integrated().dom().contains(id)
        || st1.stashed().dom().contains(id) || pending(bviews, idx + 1, id) by {
        if pending(bviews, idx, id) && !st0.integrated().dom().contains(id)
            && !st0.stashed().dom().contains(id) {
            let w = choose|w: int| idx <= w < bviews.len() && bviews[w].id == id;
            if w > idx {
                assert(pending(bviews, idx + 1, id));
            }
        }
    }
}

fn copy_ids(v: &Vec<ID>) -> (r: Vec<ID>)
    ensures
        r@ == v@,
{
    let mut out: Vec<ID> = Vec::new();
    let mut i: usize = 0;
    while i < v.len()
        invariant
            0 <= i <= v@.len(),
            out@ == v@.take(i as int),
        decreases v@.len() - i,
    {
        out.push(v[i]);
        proof {
            assert(out@ =~= v@.take(i + 1));
        }
        i = i + 1;
    }
    proof {
        assert(v@.take(v@.len() as int) =~= v@);
    }
    out
}

fn ids_contain(v: &Vec<ID>, id: &ID) -> (r: bool)
    ensures
        r == ids_seq(v@).contains(id@),
{
    let mut i: usize = 0;
    while i < v.len()
        invariant
            0 <= i <= v@.len(),
            forall|j: int| 0 <= j < i ==> ids_seq(v@)[j] != id@,
        decreases v@.len() - i,
    {
        if v[i] == *id {
            assert(ids_seq(v@)[i as int] == id@);
            return true;
        }
        i = i + 1;
    }
    false
}

/// A stateful holder of a signing identity, a cached head set, and an object
/// store; the DAG engine of a single participant.
pub struct Peer<S> {
    signing_key: SigningKey,
    store: S,
    heads: Vec<ID>,
}

impl<S: ObjectStore> Peer<S> {
    /// The secret signing key, as ghost bytes.
    pub closed spec fn key(&self) -> Seq<u8> {
        self.signing_key@
    }

    /// The integrated set of the owned store.
    pub closed spec fn integrated(&self) -> Map<Seq<u8>, PatchView> {
        self.store.integrated()
    }

    /// The stash of the owned store.
    pub closed spec fn stashed(&self) -> Map<Seq<u8>, PatchView> {
        self.store.stashed()
    }

    /// The cached head ids.
    pub closed spec fn cached_heads(&self) -> Seq<Seq<u8>> {
        ids_seq(self.heads@)
    }

    /// The peer invariant: the store is well formed, the integrated set is
    /// dependency-closed, every stashed patch carries a valid signature, and
    /// the cached heads equal the heads of the integrated set.
    pub closed spec fn inv(&self) -> bool {
        &&& self.store.inv()
        &&& store_consistent(self.store.integrated(), self.store.stashed())
        &&& closed_map(self.store.integrated())
        &&& all_verified(self.store.stashed())
        &&& heads_of(ids_seq(self.heads@), self.store.integrated())
    }

    /// What the peer invariant gives a caller: dependency closure of the
    /// integrated set, valid signatures throughout the stash, cached heads
    /// equal to the derived head set, stored patches keyed by their own ids,
    /// and disjointness of integrated set and stash.
    pub proof fn lemma_inv(&self)
        requires
            self.inv(),
        ensures
            self.spec_store_inv(),
            closed_map(self.integrated()),
            all_verified(self.stashed()),
            heads_of(self.cached_heads(), self.integrated()),
            forall|id: Seq<u8>| #[trigger]
                self.integrated().dom().contains(id) ==> self.integrated()[id].id == id,
            forall|id: Seq<u8>| #[trigger]
                self.stashed().dom().contains(id) ==> self.stashed()[id].id == id,
            forall|id: Seq<u8>|
                self.integrated().dom().contains(id) ==> !self.stashed().dom().contains(id),
    {
    }

    /// Builds a peer around a signing key and a store, loading the head
    /// cache from the store.
    pub fn new(signing_key: SigningKey, store: S) -> (r: Result<Self, Error>)
        requires
            store.inv(),
            store_consistent(store.integrated(), store.stashed()),
            closed_map(store.integrated()),
            all_verified(store.stashed()),
        ensures
            r is Ok,
            r matches Ok(p) ==> {
                &&& p.inv()
                &&& p.integrated() == store.integrated()
                &&& p.stashed() == store.stashed()
                &&& p.key() == signing_key@
            },
    {
        let heads = match store.heads() {
            Ok(h) => h,
            Err(e) => {
                return Err(e);
            },
        };
        Ok(Peer { signing_key, store, heads })
    }

    /// The public key under which this peer authors patches.
    pub fn peer_id(&self) -> (r: PeerID)
        ensures
            r@ == public_key_of(self.key()),
    {
        self.signing_key.public_key()
    }

    /// The cached heads: exactly the integrated patches that no integrated
    /// patch names as a parent.
    pub fn heads(&self) -> (r: &Vec<ID>)
        requires
            self.inv(),
        ensures
            heads_of(ids_seq(r@), self.integrated()),
            r@ == self.spec_heads(),
    {
        &self.heads
    }

    /// The cached head id list.
    pub closed spec fn spec_heads(&self) -> Seq<ID> {
        self.heads@
    }

    /// A shared view of the owned store.
    pub fn store(&self) -> (r: &S)
        ensures
            r.inv() == self.spec_store_inv(),
            r.integrated() == self.integrated(),
            r.stashed() == self.stashed(),
    {
        &self.store
    }

    /// Whether the owned store meets its own invariant.
    pub closed spec fn spec_store_inv(&self) -> bool {
        self.store.inv()
    }

    /// The subset of `heads` that this peer holds in neither the integrated
    /// set nor the stash: the reconciliation probe.
    pub fn missing(&self, heads: &Vec<ID>) -> (r: Result<Vec<ID>, Error>)
        requires
            self.inv(),
        ensures
            r is Ok,
            r matches Ok(m) ==> {
                &&& forall|k: int|
                    0 <= k < m@.len() ==> ids_seq(heads@).contains(#[trigger] ids_seq(m@)[k])
                        && !self.integrated().dom().contains(ids_seq(m@)[k])
                        && !self.stashed().dom().contains(ids_seq(m@)[k])
                &&& forall|j: int|
                    0 <= j < heads@.len() && !self.integrated().dom().contains(
                        #[trigger] ids_seq(heads@)[j],
                    ) && !self.stashed().dom().contains(ids_seq(heads@)[j]) ==> ids_seq(
                        m@,
                    ).contains(ids_seq(heads@)[j])
            },
    {
        let mut out: Vec<ID> = Vec::new();
        let mut i: usize = 0;
        while i < heads.len()
            invariant
                0 <= i <= heads@.len(),
                self.inv(),
                forall|k: int|
                    0 <= k < out@.len() ==> ids_seq(heads@).contains(#[trigger] ids_seq(out@)[k])
                        && !self.integrated().dom().contains(ids_seq(out@)[k])
                        && !self.stashed().dom().contains(ids_seq(out@)[k]),
                forall|j: int|
                    0 <= j < i && !self.integrated().dom().contains(#[trigger] ids_seq(heads@)[j])
                        && !self.stashed().dom().contains(ids_seq(heads@)[j]) ==> ids_seq(
                        out@,
                    ).contains(ids_seq(heads@)[j]),
            decreases heads@.len() - i,
        {
            let id = heads[i];
            let known = match self.store.contains(&id) {
                Ok(b) => b,
                Err(e) => {
                    return Err(e);
                },
            };
            if !known {
                let ghost prev = out@;
                out.push(id);
                proof {
                    assert(ids_seq(out@) =~= ids_seq(prev).push(id@));
                    assert(ids_seq(out@).last() == id@);
                    assert(ids_seq(heads@)[i as int] == id@);
                    assert forall|k: int|
                        0 <= k < ids_seq(prev).len() implies ids_seq(out@).contains(
                        #[trigger] ids_seq(prev)[k],
                    ) by {
                        assert(ids_seq(out@)[k] == ids_seq(prev)[k]);
                    }
                }
            }
            i = i + 1;
        }
        Ok(out)
    }

    /// The integrated patches among `ids`; unknown ids are silently omitted.
    pub fn patches(&self, ids: &Vec<ID>) -> (r: Result<Vec<Patch>, Error>)
        requires
            self.inv(),
        ensures
            r is Ok,
            r matches Ok(ps) ==> patches_reply(ids_seq(ids@), self.integrated(), views_of(ps@)),
    {
        self.store.patches(ids)
    }

    /// Authors a new patch whose parents are the current heads, integrates
    /// it, and makes it the sole head. Fails exactly when the derived id is
    /// already present, and then changes nothing.
    pub fn commit(&mut self, data: Vec<u8>) -> (r: Result<Patch, Error>)
        requires
            old(self).inv(),
            old(self).cached_heads().len() < 0x1_0000_0000,
            data@.len() < 0x1_0000_0000,
        ensures
            final(self).inv(),
            final(self).key() == old(self).key(),
            final(self).stashed() == old(self).stashed(),
            r is Ok <==> {
                let id = id_of(
                    public_key_of(old(self).key()),
                    old(self).cached_heads(),
                    data@,
                );
                !old(self).integrated().dom().contains(id) && !old(self).stashed().dom().contains(
                    id,
                )
            },
            r matches Ok(p) ==> {
                &&& p@.wf()
                &&& p@.author == public_key_of(old(self).key())
                &&& p@.deps == old(self).cached_heads()
                &&& p@.data == data@
                &&& p@.sig == signature_of(old(self).key(), data@)
                &&& signature_valid(p@.author, p@.data, p@.sig)
                &&& final(self).integrated() == old(self).integrated().insert(p@.id, p@)
                &&& final(self).cached_heads() == seq![p@.id]
            },
            r is Err ==> final(self).integrated() == old(self).integrated()
                && final(self).cached_heads() == old(self).cached_heads(),
            r matches Err(e) ==> e is Storage,
    {
        let parents = copy_ids(&self.heads);
        proof {
            lemma_dedup_of_distinct(ids_seq(parents@));
        }
        let patch = match Patch::new(&self.signing_key, parents, data) {
            Ok(p) => p,
            Err(_) => {
                return Err(Error::Storage);
            },
        };
        let known = match self.store.contains(patch.id()) {
            Ok(b) => b,
            Err(_) => {
                return Err(Error::Storage);
            },
        };
        if known {
            return Err(Error::Storage);
        }
        proof {
            assert forall|k: int| 0 <= k < patch@.deps.len() implies self.store.integrated(
            ).dom().contains(#[trigger] patch@.deps[k]) by {
                assert(is_head(self.store.integrated(), patch@.deps[k]));
            }
        }
        match self.store.commit(&patch) {
            Ok(()) => {},
            Err(_) => {
                return Err(Error::Storage);
            },
        }
        let mut new_heads: Vec<ID> = Vec::new();
        new_heads.push(*patch.id());
        self.heads = new_heads;
        proof {
            let i0 = old(self).integrated();
            let i1 = self.store.integrated();
            let pv = patch@;
            assert(ids_seq(self.heads@) =~= seq![pv.id]);
            assert forall|id: Seq<u8>| #[trigger] i1.dom().contains(id) implies deps_met(
                i1,
                i1[id].deps,
            ) by {
                if id == pv.id {
                    assert(forall|k: int|
                        0 <= k < pv.deps.len() ==> i0.dom().contains(#[trigger] pv.deps[k]));
                } else {
                    assert(i0.dom().contains(id) && i1[id] == i0[id]);
                    assert(deps_met(i0, i0[id].deps));
                }
            }
            assert forall|q: Seq<u8>| #[trigger] i1.dom().contains(q) implies !i1[q].deps.contains(
                pv.id,
            ) by {
                if q == pv.id {
                    if pv.deps.contains(pv.id) {
                        let k = choose|k: int| 0 <= k < pv.deps.len() && pv.deps[k] == pv.id;
                        assert(i0.dom().contains(pv.deps[k]));
                        assert(false);
                    }
                } else {
                    assert(i0.dom().contains(q));
                    if i0[q].deps.contains(pv.id) {
                        let k = choose|k: int|
                            0 <= k < i0[q].deps.len() && i0[q].deps[k] == pv.id;
                        assert(deps_met(i0, i0[q].deps));
                        assert(i0.dom().contains(pv.id));
                        assert(false);
                    }
                }
            }
            assert(is_head(i1, pv.id));
            assert forall|id: Seq<u8>| is_head(i1, id) implies ids_seq(self.heads@).contains(
                id,
            ) by {
                if id == pv.id {
                    assert(ids_seq(self.heads@)[0] == pv.id);
                } else {
                    assert(i0.dom().contains(id));
                    assert(is_head(i0, id)) by {
                        assert forall|q: Seq<u8>| #[trigger]
                            i0.dom().contains(q) implies !i0[q].deps.contains(id) by {
                            assert(i1.dom().contains(q) && i1[q] == i0[q]);
                        }
                    }
                    assert(old(self).cached_heads().contains(id));
                    let k = choose|k: int|
                        0 <= k < old(self).cached_heads().len() && old(self).cached_heads()[k]
                            == id;
                    assert(pv.deps[k] == id);
                    assert(i1[pv.id].deps.contains(id));
                    assert(false);
                }
            }
            assert(heads_of(ids_seq(self.heads@), i1));
        }
        Ok(patch)
    }

    /// Handles one patch of an `integrate` pass: verifies it, then skips,
    /// stashes or integrates it, growing the missing list with newly unmet
    /// parents. On a signature failure the head cache is refreshed from the
    /// store before the error is returned.
    #[verifier::loop_isolation(false)]
    #[verifier::rlimit(100)]
    fn integrate_one(
        &mut self,
        p: &Patch,
        missing: &mut Vec<ID>,
        changed: &mut bool,
        Ghost(i0): Ghost<Map<Seq<u8>, PatchView>>,
        Ghost(s0): Ghost<Map<Seq<u8>, PatchView>>,
        Ghost(inviews): Ghost<Seq<PatchView>>,
    ) -> (r: Result<(), Error>)
        requires
            integ_store_inv(old(self).store, i0, s0, inviews),
            miss_inv(
                old(self).store.integrated(),
                old(self).store.stashed(),
                i0,
                s0,
                ids_seq(old(missing)@),
            ),
            from_pool(s0, inviews, p@),
            old(self).store.integrated().dom().finite(),
        ensures
            final(self).signing_key == old(self).signing_key,
            integ_store_inv(final(self).store, i0, s0, inviews),
            miss_inv(
                final(self).store.integrated(),
                final(self).store.stashed(),
                i0,
                s0,
                ids_seq(final(missing)@),
            ),
            old(self).store.integrated().submap_of(final(self).store.integrated()),
            old(self).store.stashed().dom().subset_of(final(self).store.stashed().dom()),
            *old(changed) ==> *final(changed),
            !*final(changed) ==> final(self).store.integrated() == old(self).store.integrated(),
            (*final(changed) && !*old(changed)) ==> old(self).store.integrated().dom().len()
                < final(self).store.integrated().dom().len(),
            (stash_blocked(i0, s0) && !*final(changed)
                && (stash_blocked(old(self).store.integrated(), old(self).store.stashed())))
                ==> stash_blocked(
                final(self).store.integrated(),
                final(self).store.stashed(),
            ),
            final(self).store.integrated().dom().finite(),
            match r {
                Ok(()) => {
                    &&& final(self).store.integrated().dom().contains(p@.id)
                        || final(self).store.stashed().dom().contains(p@.id)
                    &&& signature_valid(p@.author, p@.data, p@.sig)
                    &&& final(self).heads == old(self).heads
                },
                Err(e) => {
                    &&& e is Verification
                    &&& !all_valid(inviews) || !all_verified(s0)
                    &&& heads_of(ids_seq(final(self).heads@), final(self).store.integrated())
                },
            },
    {
        let ghost pv = p@;
        match p.verify() {
            Ok(()) => {},
            Err(_) => {
                proof {
                    if all_valid(inviews) && all_verified(s0) {
                        if inviews.contains(pv) {
                            let k = choose|k: int| 0 <= k < inviews.len() && inviews[k] == pv;
                            assert(false);
                        } else {
                            assert(s0.dom().contains(pv.id) && s0[pv.id] == pv);
                            assert(false);
                        }
                    }
                }
                let h = match self.store.heads() {
                    Ok(h) => h,
                    Err(e) => {
                        return Err(e);
                    },
                };
                self.heads = h;
                return Err(Error::Verification);
            },
        }
        let pid = *p.id();
        let known = match self.store.contains(&pid) {
            Ok(b) => b,
            Err(e) => {
                return Err(e);
            },
        };
        if !known {
            let mut was_stashed = false;
            let dn = p.deps().len();
            let mut d: usize = 0;
            while d < dn
                invariant
                    0 <= d <= dn,
                    dn == pv.deps.len(),
                    miss_inv(
                        self.store.integrated(),
                        self.store.stashed(),
                        i0,
                        s0,
                        ids_seq(missing@),
                    ),
                    was_stashed == exists|j: int|
                        0 <= j < d && !self.store.integrated().dom().contains(
                            #[trigger] pv.deps[j],
                        ),
                    forall|j: int|
                        0 <= j < d && !self.store.integrated().dom().contains(
                            #[trigger] pv.deps[j],
                        ) ==> ids_seq(missing@).contains(pv.deps[j]),
                decreases dn - d,
            {
                let dep = p.deps().get(d);
                let integrated = match self.store.is_integrated(&dep) {
                    Ok(b) => b,
                    Err(e) => {
                        return Err(e);
                    },
                };
                if !integrated {
                    was_stashed = true;
                    if !ids_contain(&missing, &dep) {
                        let ghost prevm = missing@;
                        missing.push(dep);
                        proof {
                            assert(ids_seq(missing@) =~= ids_seq(prevm).push(dep@));
                            assert(ids_seq(missing@).last() == dep@);
                            assert forall|x: Seq<u8>| ids_seq(prevm).contains(x) implies ids_seq(
                                missing@,
                            ).contains(x) by {
                                let k = choose|k: int|
                                    0 <= k < ids_seq(prevm).len() && ids_seq(prevm)[k] == x;
                                assert(ids_seq(missing@)[k] == x);
                            }
                            assert(!i0.dom().contains(dep@));
                        }
                    }
                    proof {
                        assert(ids_seq(missing@).contains(dep@));
                        assert(pv.deps[d as int] == dep@);
                    }
                }
                d = d + 1;
            }
            if was_stashed {
                let ghost st0 = self.store;
                let ghost pre_ss = self.store.stashed();
                match self.store.stash(p) {
                    Ok(()) => {},
                    Err(e) => {
                        return Err(e);
                    },
                }
                proof {
                    assert(self.store.stashed()[pv.id] == pv);
                    assert(stash_covered(self.store.integrated(), pv, ids_seq(missing@)));
                    if stash_blocked(i0, s0) && !*changed && stash_blocked(
                        st0.integrated(),
                        pre_ss,
                    ) {
                        assert forall|id: Seq<u8>| #[trigger]
                            self.store.stashed().dom().contains(id) implies exists|k: int|
                            0 <= k < self.store.stashed()[id].deps.len()
                                && !self.store.integrated().dom().contains(
                                #[trigger] self.store.stashed()[id].deps[k],
                            ) by {
                            if id == pv.id {
                                let j = choose|j: int|
                                    0 <= j < pv.deps.len()
                                        && !self.store.integrated().dom().contains(
                                        #[trigger] pv.deps[j],
                                    );
                                assert(0 <= j < self.store.stashed()[id].deps.len()
                                    && !self.store.integrated().dom().contains(
                                    self.store.stashed()[id].deps[j],
                                ));
                            } else {
                                assert(pre_ss.dom().contains(id));
                                assert(self.store.stashed()[id] == pre_ss[id]);
                                let j = choose|j: int|
                                    0 <= j < pre_ss[id].deps.len()
                                        && !st0.integrated().dom().contains(
                                        #[trigger] pre_ss[id].deps[j],
                                    );
                                assert(0 <= j < self.store.stashed()[id].deps.len()
                                    && !self.store.integrated().dom().contains(
                                    self.store.stashed()[id].deps[j],
                                ));
                            }
                        }
                    }
                }
            } else {
                let ghost pre_i = self.store.integrated();
                proof {
                    assert(forall|j: int|
                        0 <= j < pv.deps.len() ==> self.store.integrated().dom().contains(
                            #[trigger] pv.deps[j],
                        ));
                }
                match self.store.commit(p) {
                    Ok(()) => {},
                    Err(e) => {
                        return Err(e);
                    },
                }
                *changed = true;
                proof {
                    let i1 = self.store.integrated();
                    assert(i1 == pre_i.insert(pv.id, pv));
                    assert(i1.dom() =~= pre_i.dom().insert(pv.id));
                    assert(i1.dom().len() == pre_i.dom().len() + 1);
                    assert(i1[pv.id] == pv);
                    assert forall|id: Seq<u8>| #[trigger] i1.dom().contains(id) implies deps_met(
                        i1,
                        i1[id].deps,
                    ) by {
                        if id != pv.id {
                            assert(pre_i.dom().contains(id) && i1[id] == pre_i[id]);
                            assert(deps_met(pre_i, pre_i[id].deps));
                        }
                    }
                    assert(i0.submap_of(i1)) by {
                        assert(!pre_i.dom().contains(pv.id));
                        assert forall|k: Seq<u8>| #[trigger]
                            i0.dom().contains(k) implies i1.dom().contains(k) && i0[k]
                            == i1[k] by {
                            assert(pre_i.dom().contains(k) && i0[k] == pre_i[k]);
                            assert(k != pv.id);
                        }
                    }
                    assert(!pv.deps.contains(pv.id)) by {
                        if pv.deps.contains(pv.id) {
                            let k = choose|k: int| 0 <= k < pv.deps.len() && pv.deps[k] == pv.id;
                            assert(false);
                        }
                    }
                }
            }
        }
        Ok(())
    }

    /// The DAG fixpoint. Verifies every patch; integrates each whose
    /// parents are all integrated, stashes the rest; and after every pass
    /// that integrated something, refreshes the heads and drains the stash
    /// for another pass. Returns the unmet parent ids, deduplicated in
    /// discovery order. A signature failure aborts the call; work already
    /// done stays done.
    #[verifier::loop_isolation(false)]
    #[verifier::rlimit(100)]
    pub fn integrate(&mut self, patches: Vec<Patch>) -> (r: Result<Vec<ID>, Error>)
        requires
            old(self).inv(),
        ensures
            final(self).inv(),
            closed_map(final(self).integrated()),
            heads_of(final(self).cached_heads(), final(self).integrated()),
            final(self).key() == old(self).key(),
            integrate_frame(
                old(self).integrated(),
                old(self).stashed(),
                views_of(patches@),
                final(self).integrated(),
                final(self).stashed(),
            ),
            r matches Err(e) ==> e is Verification,
            all_valid(views_of(patches@)) ==> r is Ok,
            r is Ok ==> all_valid(views_of(patches@)),
            r is Ok ==> integrate_complete(
                old(self).integrated(),
                old(self).stashed(),
                views_of(patches@),
                final(self).integrated(),
                final(self).stashed(),
            ),
            r matches Ok(m) ==> miss_inv(
                final(self).integrated(),
                final(self).stashed(),
                old(self).integrated(),
                old(self).stashed(),
                ids_seq(m@),
            ),
    {
        let ghost i0 = self.store.integrated();
        let ghost s0 = self.store.stashed();
        let ghost inviews = views_of(patches@);
        let ghost input_ids = inviews.map_values(|pv: PatchView| pv.id).to_set();
        let ghost total = i0.dom().union(s0.dom()).union(input_ids);
        proof {
            vstd::seq_lib::seq_to_set_is_finite(inviews.map_values(|pv: PatchView| pv.id));
            assert(total.finite());
            vstd::set_lib::lemma_len_subset(self.store.integrated().dom(), total);
        }
        let mut missing: Vec<ID> = Vec::new();
        let mut batch = patches;
        let mut first = true;
        loop
            invariant
                self.signing_key == old(self).signing_key,
                integ_store_inv(self.store, i0, s0, inviews),
                miss_inv(
                    self.store.integrated(),
                    self.store.stashed(),
                    i0,
                    s0,
                    ids_seq(missing@),
                ),
                forall|k: int|
                    0 <= k < batch@.len() ==> from_pool(
                        s0,
                        inviews,
                        #[trigger] views_of(batch@)[k],
                    ),
                pool_present(self.store, inviews, s0, views_of(batch@), 0),
                !first ==> all_valid(inviews),
                first ==> batch@ == patches@,
                heads_of(ids_seq(self.heads@), self.store.integrated()),
                stash_blocked(i0, s0) ==> stash_blocked(
                    self.store.integrated(),
                    self.store.stashed(),
                ),
                self.store.integrated().dom().subset_of(total),
                self.store.integrated().dom().finite(),
            decreases total.len() - self.store.integrated().dom().len(),
        {
            let ghost i_start = self.store.integrated();
            let mut changed = false;
            let mut idx: usize = 0;
            while idx < batch.len()
                invariant
                    0 <= idx <= batch@.len(),
                    self.signing_key == old(self).signing_key,
                    integ_store_inv(self.store, i0, s0, inviews),
                    miss_inv(
                        self.store.integrated(),
                        self.store.stashed(),
                        i0,
                        s0,
                        ids_seq(missing@),
                    ),
                    pool_present(self.store, inviews, s0, views_of(batch@), idx as int),
                    first ==> forall|j: int|
                        0 <= j < idx ==> signature_valid(
                            (#[trigger] inviews[j]).author,
                            inviews[j].data,
                            inviews[j].sig,
                        ),
                    !changed ==> heads_of(ids_seq(self.heads@), self.store.integrated()),
                    !changed ==> self.store.integrated() == i_start,
                    (stash_blocked(i0, s0) && !changed) ==> stash_blocked(
                        self.store.integrated(),
                        self.store.stashed(),
                    ),
                    self.store.integrated().dom().subset_of(total),
                    self.store.integrated().dom().finite(),
                    i_start.dom().subset_of(self.store.integrated().dom()),
                    changed ==> i_start.dom().len() < self.store.integrated().dom().len(),
                decreases batch@.len() - idx,
            {
                let ghost st_pre = self.store;
                let ghost pre_changed = changed;
                proof {
                    assert(views_of(batch@)[idx as int] == batch@[idx as int]@);
                }
                let p = &batch[idx];
                match self.integrate_one(
                    p,
                    &mut missing,
                    &mut changed,
                    Ghost(i0),
                    Ghost(s0),
                    Ghost(inviews),
                ) {
                    Ok(()) => {},
                    Err(e) => {
                        return Err(e);
                    },
                }
                proof {
                    lemma_pool_advance(
                        st_pre,
                        self.store,
                        inviews,
                        s0,
                        views_of(batch@),
                        idx as int,
                    );
                    assert(self.store.integrated().dom().subset_of(total)) by {
                        assert forall|id: Seq<u8>|
                            self.store.integrated().dom().contains(id) implies total.contains(
                            id,
                        ) by {
                            if !i0.dom().contains(id) {
                                let iv = self.store.integrated()[id];
                                assert(iv.id == id);
                                if inviews.contains(iv) {
                                    let k = choose|k: int|
                                        0 <= k < inviews.len() && inviews[k] == iv;
                                    assert(inviews.map_values(|q: PatchView| q.id)[k] == id);
                                    assert(inviews.map_values(|q: PatchView| q.id).contains(id));
                                }
                            }
                        }
                    }
                    if changed {
                        vstd::set_lib::lemma_len_subset(
                            i_start.dom(),
                            st_pre.integrated().dom(),
                        );
                        vstd::set_lib::lemma_len_subset(
                            st_pre.integrated().dom(),
                            self.store.integrated().dom(),
                        );
                    }
                }
                idx = idx + 1;
            }
            proof {
                if first {
                    assert(batch@ == patches@);
                    assert(all_valid(inviews));
                }
            }
            first = false;
            if changed {
                let h = match self.store.heads() {
                    Ok(h) => h,
                    Err(e) => {
                        return Err(e);
                    },
                };
                self.heads = h;
                let ghost pre_s = self.store.stashed();
                let nb = match self.store.unstash() {
                    Ok(b) => b,
                    Err(e) => {
                        return Err(e);
                    },
                };
                batch = nb;
                proof {
                    assert forall|k: int|
                        0 <= k < batch@.len() implies from_pool(
                        s0,
                        inviews,
                        #[trigger] views_of(batch@)[k],
                    ) by {
                        assert(views_of(batch@)[k] == batch@[k]@);
                    }
                    assert forall|k: int|
                        0 <= k < inviews.len() implies self.store.integrated().dom().contains(
                        (#[trigger] inviews[k]).id,
                    ) || self.store.stashed().dom().contains(inviews[k].id) || pending(
                        views_of(batch@),
                        0,
                        inviews[k].id,
                    ) by {
                        let id = inviews[k].id;
                        if pre_s.dom().contains(id) {
                            let w = choose|w: int|
                                0 <= w < batch@.len() && (#[trigger] batch@[w]@.id) == id;
                            assert(views_of(batch@)[w].id == id);
                        }
                    }
                    assert forall|id: Seq<u8>| #[trigger]
                        s0.dom().contains(id) implies self.store.integrated().dom().contains(id)
                        || self.store.stashed().dom().contains(id) || pending(
                        views_of(batch@),
                        0,
                        id,
                    ) by {
                        if pre_s.dom().contains(id) {
                            let w = choose|w: int|
                                0 <= w < batch@.len() && (#[trigger] batch@[w]@.id) == id;
                            assert(views_of(batch@)[w].id == id);
                        }
                    }
                    vstd::set_lib::lemma_len_subset(self.store.integrated().dom(), total);
                }
            } else {
                proof {
                    assert forall|k: int|
                        0 <= k < inviews.len() implies self.store.integrated().dom().contains(
                        (#[trigger] inviews[k]).id,
                    ) || self.store.stashed().dom().contains(inviews[k].id) by {
                        assert(!pending(views_of(batch@), idx as int, inviews[k].id));
                    }
                    assert forall|id: Seq<u8>| #[trigger]
                        s0.dom().contains(id) implies self.store.integrated().dom().contains(id)
                        || self.store.stashed().dom().contains(id) by {
                        assert(!pending(views_of(batch@), idx as int, id));
                    }
                }
                return Ok(missing);
            }
        }
    }
}

/// The reconciliation driver: pulls the remote's heads, asks the local peer
/// what it is missing, fetches those patches from the remote, integrates
/// them, and repeats on the unmet parents the integration reports, until
/// nothing is missing or the round budget runs out. The budget is the
/// non-progress guard: a remote that keeps the driver from converging
/// surfaces as an error rather than an endless loop. On success every head
/// of the remote's integrated set is integrated or stashed locally.
#[verifier::loop_isolation(false)]
pub fn reconcile<S: ObjectStore, T: ObjectStore>(
    local: &mut Peer<S>,
    remote: &Peer<T>,
    rounds: usize,
) -> (r: Result<(), Error>)
    requires
        old(local).inv(),
        remote.inv(),
    ensures
        final(local).inv(),
        old(local).integrated().submap_of(final(local).integrated()),
        r is Ok ==> forall|id: Seq<u8>|
            is_head(remote.integrated(), id) ==> final(local).integrated().dom().contains(id)
                || final(local).stashed().dom().contains(id),
        (forall|id: Seq<u8>|
            is_head(remote.integrated(), id) ==> old(local).integrated().dom().contains(id)
                || old(local).stashed().dom().contains(id)) ==> r is Ok,
        r matches Err(e) ==> e is Verification || e is IO,
{
    let rheads = copy_ids(remote.heads());

    let mut need = match local.missing(&rheads) {
        Ok(m) => m,
        Err(e) => {
            return Err(e);
        },
    };
    proof {
        if (forall|id: Seq<u8>|
            is_head(remote.integrated(), id) ==> old(local).integrated().dom().contains(id)
                || old(local).stashed().dom().contains(id)) && need@.len() > 0 {
            let m0 = ids_seq(need@)[0];
            assert(ids_seq(rheads@).contains(m0));
            let j = choose|j: int| 0 <= j < ids_seq(rheads@).len() && ids_seq(rheads@)[j] == m0;
            assert(is_head(remote.integrated(), m0));
            assert(false);
        }
    }
    let mut fuel = rounds;
    while need.len() > 0
        invariant
            local.inv(),
            (forall|id: Seq<u8>|
                is_head(remote.integrated(), id) ==> old(local).integrated().dom().contains(id)
                    || old(local).stashed().dom().contains(id)) ==> need@.len() == 0,
            old(local).integrated().submap_of(local.integrated()),
            forall|j: int|
                0 <= j < rheads@.len() ==> local.integrated().dom().contains(
                    #[trigger] ids_seq(rheads@)[j],
                ) || local.stashed().dom().contains(ids_seq(rheads@)[j]) || ids_seq(
                    need@,
                ).contains(ids_seq(rheads@)[j]),
        decreases fuel,
    {
        if fuel == 0 {
            return Err(Error::IO);
        }
        fuel = fuel - 1;
        let ghost pre_i = local.integrated();
        let ghost pre_s = local.stashed();
        let ghost needviews = ids_seq(need@);
        proof {
            assert(old(local).integrated().submap_of(pre_i));
        }
        let batch = match remote.patches(&need) {
            Ok(b) => b,
            Err(e) => {
                return Err(e);
            },
        };
        let res = local.integrate(batch);
        proof {
            vstd::map_lib::lemma_submap_of_trans(
                old(local).integrated(),
                pre_i,
                local.integrated(),
            );
        }
        let newneed = match res {
            Ok(m) => m,
            Err(e) => {
                return Err(e);
            },
        };
        proof {
            remote.lemma_inv();
            assert forall|j: int|
                0 <= j < rheads@.len() implies local.integrated().dom().contains(
                #[trigger] ids_seq(rheads@)[j],
            ) || local.stashed().dom().contains(ids_seq(rheads@)[j]) || ids_seq(
                newneed@,
            ).contains(ids_seq(rheads@)[j]) by {
                let id = ids_seq(rheads@)[j];
                if !pre_i.dom().contains(id) && !pre_s.dom().contains(id) && needviews.contains(
                    id,
                ) {
                    if remote.integrated().dom().contains(id) {
                        let w = choose|w: int|
                            0 <= w < views_of(batch@).len() && (#[trigger] views_of(
                                batch@,
                            )[w].id) == id;
                        assert(local.integrated().dom().contains(id)
                            || local.stashed().dom().contains(id));
                    } else {
                        assert(heads_of(ids_seq(rheads@), remote.integrated()));
                        assert(is_head(remote.integrated(), id) ==> remote.integrated(
                        ).dom().contains(id));
                        assert(!is_head(remote.integrated(), id));
                        assert(false);
                    }
                }
            }
        }
        need = newneed;
    }
    proof {
        assert forall|id: Seq<u8>|
            is_head(remote.integrated(), id) implies local.integrated().dom().contains(id)
            || local.stashed().dom().contains(id) by {
            assert(heads_of(ids_seq(rheads@), remote.integrated()));
            assert(ids_seq(rheads@).contains(id));
            let j = choose|j: int| 0 <= j < ids_seq(rheads@).len() && ids_seq(rheads@)[j] == id;
        }
    }
    Ok(())
}

} // verus!
