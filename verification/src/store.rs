use crate::patch::distinct_ids;
use crate::patch::ids_seq;
use crate::patch::Patch;
use crate::patch::PatchView;
use crate::patch::ID;
use crate::Error;
use vstd::prelude::*;

verus! {

/// The views of a sequence of patches.
pub open spec fn views_of(s: Seq<Patch>) -> Seq<PatchView> {
    s.map_values(|p: Patch| p@)
}

/// No patch id occurs twice.
pub open spec fn distinct_patch_ids(s: Seq<PatchView>) -> bool {
    forall|i: int, j: int| 0 <= i < j < s.len() ==> s[i].id != s[j].id
}

/// A sequence of patches as an id-keyed map; a later occurrence of an id
/// shadows an earlier one.
pub open spec fn map_of(s: Seq<PatchView>) -> Map<Seq<u8>, PatchView>
    decreases s.len(),
{
    if s.len() == 0 {
        Map::empty()
    } else {
        map_of(s.drop_last()).insert(s.last().id, s.last())
    }
}

pub proof fn lemma_map_of_contains(s: Seq<PatchView>, id: Seq<u8>)
    ensures
        map_of(s).dom().contains(id) <==> exists|k: int| 0 <= k < s.len() && s[k].id == id,
    decreases s.len(),
{
    if s.len() > 0 {
        lemma_map_of_contains(s.drop_last(), id);
        if map_of(s).dom().contains(id) {
            if id == s.last().id {
                assert(s[s.len() - 1].id == id);
            } else {
                let k = choose|k: int| 0 <= k < s.drop_last().len() && s.drop_last()[k].id == id;
                assert(s[k].id == id);
            }
        }
        if exists|k: int| 0 <= k < s.len() && s[k].id == id {
            let k = choose|k: int| 0 <= k < s.len() && s[k].id == id;
            if k < s.len() - 1 {
                assert(s.drop_last()[k].id == id);
            }
        }
    }
}

pub proof fn lemma_map_of_finite(s: Seq<PatchView>)
    ensures
        map_of(s).dom().finite(),
    decreases s.len(),
{
    if s.len() > 0 {
        lemma_map_of_finite(s.drop_last());
    }
}

pub proof fn lemma_map_of_index(s: Seq<PatchView>, k: int)
    requires
        0 <= k < s.len(),
        distinct_patch_ids(s),
    ensures
        map_of(s).dom().contains(s[k].id),
        map_of(s)[s[k].id] == s[k],
    decreases s.len(),
{
    if k < s.len() - 1 {
        assert(distinct_patch_ids(s.drop_last()));
        lemma_map_of_index(s.drop_last(), k);
        assert(s.drop_last()[k] == s[k]);
        assert(s[k].id != s.last().id);
    }
}

/// Whether `id` is a head of the integrated map `m`: present, and named as a
/// parent by no patch of `m`.
pub open spec fn is_head(m: Map<Seq<u8>, PatchView>, id: Seq<u8>) -> bool {
    m.dom().contains(id) && forall|q: Seq<u8>| #[trigger]
        m.dom().contains(q) ==> !m[q].deps.contains(id)
}

/// What `patches` replies to `ids` on integrated map `m`: integrated
/// patches among the asked ids, each equal to its stored patch, with one
/// reply for every asked id that is integrated.
pub open spec fn patches_reply(
    ids: Seq<Seq<u8>>,
    m: Map<Seq<u8>, PatchView>,
    ps: Seq<PatchView>,
) -> bool {
    &&& forall|k: int|
        0 <= k < ps.len() ==> ids.contains(#[trigger] ps[k].id) && m.dom().contains(ps[k].id)
            && ps[k] == m[ps[k].id]
    &&& forall|j: int|
        0 <= j < ids.len() && m.dom().contains(#[trigger] ids[j]) ==> exists|k: int|
            0 <= k < ps.len() && (#[trigger] ps[k].id) == ids[j]
}

/// What `unstash` replies when the stash held `s0`: every returned patch was
/// stashed under its id, every stashed id is returned, and no id twice.
pub open spec fn unstash_reply(s0: Map<Seq<u8>, PatchView>, ps: Seq<PatchView>) -> bool {
    &&& forall|k: int|
        0 <= k < ps.len() ==> s0.dom().contains(#[trigger] ps[k].id) && ps[k] == s0[ps[k].id]
    &&& forall|id: Seq<u8>| #[trigger]
        s0.dom().contains(id) ==> exists|k: int| 0 <= k < ps.len() && (#[trigger] ps[k].id) == id
    &&& distinct_patch_ids(ps)
}

/// Whether `h` lists exactly the heads of `m`, each once.
pub open spec fn heads_of(h: Seq<Seq<u8>>, m: Map<Seq<u8>, PatchView>) -> bool {
    &&& distinct_ids(h)
    &&& forall|k: int| 0 <= k < h.len() ==> is_head(m, #[trigger] h[k])
    &&& forall|id: Seq<u8>| is_head(m, id) ==> h.contains(id)
}

/// The identity invariants of the data model's store state: every stored
/// patch sits under its own id, both sets are finite, and no id is in both.
pub open spec fn store_consistent(
    integrated: Map<Seq<u8>, PatchView>,
    stashed: Map<Seq<u8>, PatchView>,
) -> bool {
    &&& forall|id: Seq<u8>| #[trigger]
        integrated.dom().contains(id) ==> integrated[id].id == id
    &&& forall|id: Seq<u8>| #[trigger] stashed.dom().contains(id) ==> stashed[id].id == id
    &&& forall|id: Seq<u8>| integrated.dom().contains(id) ==> !stashed.dom().contains(id)
    &&& integrated.dom().finite()
    &&& stashed.dom().finite()
}

/// Durable storage for integrated patches, their parent edges, and a stash
/// of patches whose parents are not yet all integrated.
///
/// The store is specified against two id-keyed maps: the integrated set and
/// the stash. It neither verifies signatures nor enforces causal order nor
/// de-duplicates between the two sets; those are the peer's duties, imposed
/// here as preconditions.
pub trait ObjectStore: Sized {
    /// The implementation's internal well-formedness. An implementation
    /// that states no model leaves this false, and no peer accepts it.
    open spec fn inv(&self) -> bool {
        false
    }

    /// The integrated set: id to patch.
    open spec fn integrated(&self) -> Map<Seq<u8>, PatchView> {
        Map::empty()
    }

    /// The stash: id to patch.
    open spec fn stashed(&self) -> Map<Seq<u8>, PatchView> {
        Map::empty()
    }

    /// The ids of the most recent integrated patches: those that no
    /// integrated patch names as a parent. Each appears once; order is
    /// unspecified.
    fn heads(&self) -> (r: Result<Vec<ID>, Error>)
        requires
            self.inv(),
        ensures
            r is Ok,
            store_consistent(self.integrated(), self.stashed()),
            r matches Ok(h) ==> heads_of(ids_seq(h@), self.integrated()),
    ;

    /// The integrated patches among `ids`; absent ids are silently dropped.
    /// Each returned patch carries its stored dependencies.
    fn patches(&self, ids: &Vec<ID>) -> (r: Result<Vec<Patch>, Error>)
        requires
            self.inv(),
        ensures
            r is Ok,
            r matches Ok(ps) ==> patches_reply(
                ids_seq(ids@),
                self.integrated(),
                views_of(ps@),
            ),
    ;

    /// Whether a patch with this id has been integrated.
    fn is_integrated(&self, patch_id: &ID) -> (r: Result<bool, Error>)
        requires
            self.inv(),
        ensures
            r is Ok,
            r matches Ok(b) ==> b == self.integrated().dom().contains(patch_id@),
    ;

    /// Whether a patch with this id is integrated or stashed.
    fn contains(&self, patch_id: &ID) -> (r: Result<bool, Error>)
        requires
            self.inv(),
        ensures
            r is Ok,
            r matches Ok(b) ==> b == (self.integrated().dom().contains(patch_id@)
                || self.stashed().dom().contains(patch_id@)),
    ;

    /// Integrates a patch whose parents are all integrated and whose id is
    /// not stashed. Fails exactly when the id is already integrated, and
    /// then changes nothing.
    fn commit(&mut self, patch: &Patch) -> (r: Result<(), Error>)
        requires
            old(self).inv(),
            forall|k: int|
                0 <= k < patch@.deps.len() ==> old(self).integrated().dom().contains(
                    #[trigger] patch@.deps[k],
                ),
            !old(self).stashed().dom().contains(patch@.id),
        ensures
            final(self).inv(),
            store_consistent(final(self).integrated(), final(self).stashed()),
            r is Ok <==> !old(self).integrated().dom().contains(patch@.id),
            r is Ok ==> final(self).integrated() == old(self).integrated().insert(
                patch@.id,
                patch@,
            ),
            r is Err ==> final(self).integrated() == old(self).integrated(),
            final(self).stashed() == old(self).stashed(),
            r matches Err(e) ==> e is Storage,
    ;

    /// Stashes a patch whose id is in neither set.
    fn stash(&mut self, patch: &Patch) -> (r: Result<(), Error>)
        requires
            old(self).inv(),
            !old(self).integrated().dom().contains(patch@.id),
            !old(self).stashed().dom().contains(patch@.id),
        ensures
            final(self).inv(),
            store_consistent(final(self).integrated(), final(self).stashed()),
            r is Ok,
            final(self).stashed() == old(self).stashed().insert(patch@.id, patch@),
            final(self).integrated() == old(self).integrated(),
    ;

    /// Removes every stashed patch and returns them, dependencies preserved,
    /// in unspecified order.
    fn unstash(&mut self) -> (r: Result<Vec<Patch>, Error>)
        requires
            old(self).inv(),
        ensures
            final(self).inv(),
            store_consistent(final(self).integrated(), final(self).stashed()),
            r is Ok,
            final(self).integrated() == old(self).integrated(),
            final(self).stashed() == Map::<Seq<u8>, PatchView>::empty(),
            r matches Ok(ps) ==> unstash_reply(old(self).stashed(), views_of(ps@)),
    ;
}

/// Options for configuring a concrete store backend. The reference backend
/// takes none.
#[derive(Debug, Clone)]
pub struct Options {}

impl Default for Options {
    fn default() -> (r: Self)
        ensures
            r == (Options {  }),
    {
        Options {  }
    }
}

/// The reference store: integrated patches and stash held in memory, in
/// insertion order.
pub struct MemStore {
    patches: Vec<Patch>,
    stash: Vec<Patch>,
}

impl MemStore {
    /// An empty store.
    pub fn new() -> (r: Self)
        ensures
            r.inv(),
            r.integrated() == Map::<Seq<u8>, PatchView>::empty(),
            r.stashed() == Map::<Seq<u8>, PatchView>::empty(),
    {
        let s = MemStore { patches: Vec::new(), stash: Vec::new() };
        proof {
            assert(views_of(s.patches@) =~= Seq::<PatchView>::empty());
            assert(views_of(s.stash@) =~= Seq::<PatchView>::empty());
        }
        s
    }

    /// Scans a patch list for an id.
    fn find(v: &Vec<Patch>, id: &ID) -> (r: bool)
        ensures
            r == exists|k: int| 0 <= k < v@.len() && (#[trigger] views_of(v@)[k].id) == id@,
    {
        let mut i: usize = 0;
        while i < v.len()
            invariant
                0 <= i <= v@.len(),
                forall|k: int| 0 <= k < i ==> (#[trigger] views_of(v@)[k].id) != id@,
            decreases v@.len() - i,
        {
            if v[i].id() == id {
                assert(views_of(v@)[i as int].id == id@);
                return true;
            }
            i = i + 1;
        }
        false
    }

    /// The reference store meets the data model's identity invariants.
    proof fn lemma_consistent(&self)
        requires
            self.inv(),
        ensures
            store_consistent(self.integrated(), self.stashed()),
    {
        let ps = views_of(self.patches@);
        let ss = views_of(self.stash@);
        lemma_map_of_finite(ps);
        lemma_map_of_finite(ss);
        assert forall|id: Seq<u8>| #[trigger]
            self.integrated().dom().contains(id) implies self.integrated()[id].id == id by {
            lemma_map_of_contains(ps, id);
            let k = choose|k: int| 0 <= k < ps.len() && ps[k].id == id;
            lemma_map_of_index(ps, k);
        }
        assert forall|id: Seq<u8>| #[trigger]
            self.stashed().dom().contains(id) implies self.stashed()[id].id == id by {
            lemma_map_of_contains(ss, id);
            let k = choose|k: int| 0 <= k < ss.len() && ss[k].id == id;
            lemma_map_of_index(ss, k);
        }
        assert forall|id: Seq<u8>| self.integrated().dom().contains(
            id,
        ) implies !self.stashed().dom().contains(id) by {
            lemma_map_of_contains(ps, id);
            lemma_map_of_contains(ss, id);
        }
    }
}

impl ObjectStore for MemStore {
    closed spec fn inv(&self) -> bool {
        &&& distinct_patch_ids(views_of(self.patches@))
        &&& distinct_patch_ids(views_of(self.stash@))
        &&& forall|i: int, j: int|
            0 <= i < self.patches@.len() && 0 <= j < self.stash@.len() ==> (
            #[trigger] views_of(self.patches@)[i].id) != (#[trigger] views_of(self.stash@)[j].id)
    }

    closed spec fn integrated(&self) -> Map<Seq<u8>, PatchView> {
        map_of(views_of(self.patches@))
    }

    closed spec fn stashed(&self) -> Map<Seq<u8>, PatchView> {
        map_of(views_of(self.stash@))
    }

    fn heads(&self) -> (r: Result<Vec<ID>, Error>) {
        proof {
            self.lemma_consistent();
        }
        let mut out: Vec<ID> = Vec::new();
        let mut i: usize = 0;
        let ghost m = self.integrated();
        let ghost ps = views_of(self.patches@);
        while i < self.patches.len()
            invariant
                0 <= i <= self.patches@.len(),
                self.inv(),
                m == self.integrated(),
                ps == views_of(self.patches@),
                forall|k: int| 0 <= k < out@.len() ==> is_head(m, #[trigger] ids_seq(out@)[k]),
                forall|j: int|
                    0 <= j < i && is_head(m, #[trigger] ps[j].id) ==> ids_seq(out@).contains(
                        ps[j].id,
                    ),
                forall|k: int|
                    0 <= k < out@.len() ==> exists|j: int|
                        0 <= j < i && (#[trigger] ids_seq(out@)[k]) == ps[j].id,
                distinct_ids(ids_seq(out@)),
            decreases self.patches@.len() - i,
        {
            let id = *self.patches[i].id();
            assert(ps[i as int].id == id@);
            let mut child = false;
            let mut j: usize = 0;
            while j < self.patches.len()
                invariant
                    0 <= j <= self.patches@.len(),
                    self.inv(),
                    m == self.integrated(),
                    ps == views_of(self.patches@),
                    !child ==> forall|q: int| 0 <= q < j ==> !(#[trigger] ps[q]).deps.contains(
                        id@,
                    ),
                    child ==> exists|q: int| 0 <= q < ps.len() && (#[trigger] ps[q]).deps.contains(
                        id@,
                    ),
                decreases self.patches@.len() - j,
            {
                if self.patches[j].deps().contains(&id) {
                    assert(ps[j as int].deps.contains(id@));
                    child = true;
                }
                j = j + 1;
            }
            if !child {
                proof {
                    lemma_map_of_index(ps, i as int);
                    assert forall|q: Seq<u8>| #[trigger]
                        m.dom().contains(q) implies !m[q].deps.contains(id@) by {
                        lemma_map_of_contains(ps, q);
                        let k = choose|k: int| 0 <= k < ps.len() && ps[k].id == q;
                        lemma_map_of_index(ps, k);
                    }
                    assert(is_head(m, id@));
                    assert forall|k: int| 0 <= k < out@.len() implies (#[trigger] ids_seq(out@)[k])
                        != id@ by {
                        let j0 = choose|j0: int|
                            0 <= j0 < i && (#[trigger] ids_seq(out@)[k]) == ps[j0].id;
                        assert(ps[j0].id != ps[i as int].id);
                    }
                }
                let ghost prev = out@;
                out.push(id);
                proof {
                    assert(ids_seq(out@) =~= ids_seq(prev).push(id@));
                    assert(ids_seq(out@)[ids_seq(out@).len() - 1] == id@);
                    assert forall|j0: int|
                        0 <= j0 <= i && is_head(m, #[trigger] ps[j0].id) implies ids_seq(
                        out@,
                    ).contains(ps[j0].id) by {
                        if j0 < i {
                            let k = choose|k: int|
                                0 <= k < ids_seq(prev).len() && ids_seq(prev)[k] == ps[j0].id;
                            assert(ids_seq(out@)[k] == ps[j0].id);
                        } else {
                            assert(ids_seq(out@).last() == id@);
                        }
                    }
                }
            } else {
                proof {
                    let q = choose|q: int| 0 <= q < ps.len() && (#[trigger] ps[q]).deps.contains(
                        id@,
                    );
                    lemma_map_of_index(ps, q);
                    lemma_map_of_index(ps, i as int);
                    assert(m.dom().contains(ps[q].id) && m[ps[q].id].deps.contains(id@));
                    assert(!is_head(m, id@));
                }
            }
            i = i + 1;
        }
        proof {
            assert forall|id: Seq<u8>| is_head(m, id) implies ids_seq(out@).contains(id) by {
                lemma_map_of_contains(ps, id);
                let j = choose|j: int| 0 <= j < ps.len() && ps[j].id == id;
                assert(is_head(m, ps[j].id));
                assert(ids_seq(out@).contains(ps[j].id));
            }
        }
        Ok(out)
    }

    fn patches(&self, ids: &Vec<ID>) -> (r: Result<Vec<Patch>, Error>) {
        let mut out: Vec<Patch> = Vec::new();
        let mut i: usize = 0;
        let ghost m = self.integrated();
        let ghost ps = views_of(self.patches@);
        while i < ids.len()
            invariant
                0 <= i <= ids@.len(),
                self.inv(),
                m == self.integrated(),
                ps == views_of(self.patches@),
                forall|k: int|
                    0 <= k < out@.len() ==> ids_seq(ids@).contains(#[trigger] out@[k]@.id)
                        && m.dom().contains(out@[k]@.id) && out@[k]@ == m[out@[k]@.id],
                forall|j: int|
                    0 <= j < i && m.dom().contains(#[trigger] ids_seq(ids@)[j]) ==> exists|k: int|
                        0 <= k < out@.len() && (#[trigger] out@[k]@.id) == ids_seq(ids@)[j],
            decreases ids@.len() - i,
        {
            let id = ids[i];
            let mut j: usize = 0;
            let mut found = false;
            while j < self.patches.len()
                invariant
                    0 <= j <= self.patches@.len(),
                    self.inv(),
                    m == self.integrated(),
                    ps == views_of(self.patches@),
                    forall|k: int|
                        0 <= k < out@.len() ==> ids_seq(ids@).contains(#[trigger] out@[k]@.id)
                            && m.dom().contains(out@[k]@.id) && out@[k]@ == m[out@[k]@.id],
                    !found ==> forall|q: int| 0 <= q < j ==> (#[trigger] ps[q]).id != id@,
                    found ==> exists|k: int|
                        0 <= k < out@.len() && (#[trigger] out@[k]@.id) == id@,
                    0 <= i < ids@.len() && id == ids@[i as int],
                    forall|jj: int|
                        0 <= jj < i && m.dom().contains(#[trigger] ids_seq(ids@)[jj]) ==> exists|
                            k: int,
                        | 0 <= k < out@.len() && (#[trigger] out@[k]@.id) == ids_seq(ids@)[jj],
                decreases self.patches@.len() - j,
            {
                if !found && self.patches[j].id() == &id {
                    proof {
                        assert(ps[j as int].id == id@);
                        lemma_map_of_index(ps, j as int);
                        assert(ids_seq(ids@)[i as int] == id@);
                        assert(ids_seq(ids@).contains(id@));
                    }
                    let p = self.patches[j].clone();
                    let ghost prev = out@;
                    out.push(p);
                    found = true;
                    proof {
                        assert(out@[out@.len() - 1]@ == ps[j as int]);
                        assert(out@[out@.len() - 1]@.id == id@);
                        assert(forall|k: int| 0 <= k < prev.len() ==> out@[k] == prev[k]);
                    }
                }
                j = j + 1;
            }
            proof {
                if m.dom().contains(ids_seq(ids@)[i as int]) && !found {
                    lemma_map_of_contains(ps, id@);
                    assert(false);
                }
                assert(ids_seq(ids@)[i as int] == id@);
                assert forall|jj: int|
                    0 <= jj <= i && m.dom().contains(#[trigger] ids_seq(ids@)[jj]) implies exists|
                    k: int,
                | 0 <= k < out@.len() && (#[trigger] out@[k]@.id) == ids_seq(ids@)[jj] by {
                }
            }
            i = i + 1;
        }
        proof {
            let vs = views_of(out@);
            assert forall|k: int|
                0 <= k < vs.len() implies ids_seq(ids@).contains(#[trigger] vs[k].id)
                && m.dom().contains(vs[k].id) && vs[k] == m[vs[k].id] by {
                assert(vs[k] == out@[k]@);
            }
            assert forall|j: int|
                0 <= j < ids_seq(ids@).len() && m.dom().contains(
                    #[trigger] ids_seq(ids@)[j],
                ) implies exists|k: int|
                0 <= k < vs.len() && (#[trigger] vs[k].id) == ids_seq(ids@)[j] by {
                let k = choose|k: int|
                    0 <= k < out@.len() && (#[trigger] out@[k]@.id) == ids_seq(ids@)[j];
                assert(vs[k].id == ids_seq(ids@)[j]);
            }
            assert(patches_reply(ids_seq(ids@), m, vs));
        }
        Ok(out)
    }

    fn is_integrated(&self, patch_id: &ID) -> (r: Result<bool, Error>) {
        let b = Self::find(&self.patches, patch_id);
        proof {
            lemma_map_of_contains(views_of(self.patches@), patch_id@);
        }
        Ok(b)
    }

    fn contains(&self, patch_id: &ID) -> (r: Result<bool, Error>) {
        let b1 = Self::find(&self.patches, patch_id);
        let b2 = Self::find(&self.stash, patch_id);
        proof {
            lemma_map_of_contains(views_of(self.patches@), patch_id@);
            lemma_map_of_contains(views_of(self.stash@), patch_id@);
        }
        Ok(b1 || b2)
    }

    fn commit(&mut self, patch: &Patch) -> (r: Result<(), Error>) {
        let dup = Self::find(&self.patches, patch.id());
        proof {
            lemma_map_of_contains(views_of(self.patches@), patch@.id);
        }
        if dup {
            proof {
                self.lemma_consistent();
            }
            return Err(Error::Storage);
        }
        let ghost prev = views_of(self.patches@);
        let p = patch.clone();
        self.patches.push(p);
        proof {
            assert(views_of(self.patches@) =~= prev.push(patch@));
            assert(views_of(self.patches@).drop_last() =~= prev);
            assert(self.integrated() == map_of(prev).insert(patch@.id, patch@));
            lemma_map_of_contains(views_of(old(self).stash@), patch@.id);
            assert forall|i: int, j: int|
                0 <= i < self.patches@.len() && 0 <= j < self.stash@.len() implies (
            #[trigger] views_of(self.patches@)[i].id) != (
            #[trigger] views_of(self.stash@)[j].id) by {
                if i < prev.len() {
                    assert(views_of(self.patches@)[i] == prev[i]);
                } else {
                    assert(views_of(self.patches@)[i] == patch@);
                }
            }
            self.lemma_consistent();
        }
        Ok(())
    }

    fn stash(&mut self, patch: &Patch) -> (r: Result<(), Error>) {
        let ghost prev = views_of(self.stash@);
        proof {
            lemma_map_of_contains(prev, patch@.id);
            lemma_map_of_contains(views_of(self.patches@), patch@.id);
        }
        let p = patch.clone();
        self.stash.push(p);
        proof {
            assert(views_of(self.stash@) =~= prev.push(patch@));
            assert(views_of(self.stash@).drop_last() =~= prev);
            assert(self.stashed() == map_of(prev).insert(patch@.id, patch@));
            assert forall|i: int, j: int|
                0 <= i < self.patches@.len() && 0 <= j < self.stash@.len() implies (
            #[trigger] views_of(self.patches@)[i].id) != (#[trigger] views_of(self.stash@)[j].id) by {
                if j < prev.len() {
                    assert(views_of(self.stash@)[j] == prev[j]);
                } else {
                    assert(views_of(self.stash@)[j] == patch@);
                }
            }
            self.lemma_consistent();
        }
        Ok(())
    }

    fn unstash(&mut self) -> (r: Result<Vec<Patch>, Error>) {
        let ghost prev = views_of(self.stash@);
        let mut out: Vec<Patch> = Vec::new();
        core::mem::swap(&mut out, &mut self.stash);
        proof {
            assert(views_of(self.stash@) =~= Seq::<PatchView>::empty());
            assert(views_of(out@) == prev);
            assert forall|id: Seq<u8>| #[trigger]
                map_of(prev).dom().contains(id) implies exists|k: int|
                0 <= k < out@.len() && (#[trigger] out@[k]@.id) == id by {
                lemma_map_of_contains(prev, id);
                let k = choose|k: int| 0 <= k < prev.len() && prev[k].id == id;
                assert(out@[k]@.id == id);
            }
            let vs = views_of(out@);
            assert forall|k: int| 0 <= k < vs.len() implies map_of(prev).dom().contains(
                #[trigger] vs[k].id,
            ) && vs[k] == map_of(prev)[vs[k].id] by {
                lemma_map_of_index(prev, k);
            }
            assert forall|id: Seq<u8>| #[trigger]
                map_of(prev).dom().contains(id) implies exists|k: int|
                0 <= k < vs.len() && (#[trigger] vs[k].id) == id by {
                lemma_map_of_contains(prev, id);
                let k = choose|k: int| 0 <= k < prev.len() && prev[k].id == id;
                assert(vs[k].id == id);
            }
            assert(unstash_reply(map_of(prev), vs));
            assert(self.stashed() =~= Map::<Seq<u8>, PatchView>::empty());
            self.lemma_consistent();
        }
        Ok(out)
    }
}

} // verus!
