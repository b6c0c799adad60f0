use crate::crypto::blake3_digest;
use crate::crypto::blake3_of;
use crate::crypto::public_key_of;
use crate::crypto::signature_of;
use crate::crypto::signature_valid;
use crate::crypto::verify_signature;
use crate::crypto::SigningKey;
use crate::varint::lemma_varint_decode_bound;
use crate::varint::lemma_varint_roundtrip;
use crate::varint::varint_decode;
use crate::varint::varint_encode;
use crate::varint::varint_read;
use crate::varint::varint_write;
use crate::Error;
use crate::PeerID;
use vstd::prelude::*;

verus! {

/// A 32-byte BLAKE3 digest that is the sole identity of a patch.
#[derive(Debug, Clone, Copy)]
pub struct ID(pub [u8; 32]);

impl View for ID {
    type V = Seq<u8>;

    open spec fn view(&self) -> Seq<u8> {
        self.0@
    }
}

impl PartialEq for ID {
    fn eq(&self, other: &ID) -> (r: bool) {
        let mut i: usize = 0;
        while i < 32
            invariant
                0 <= i <= 32,
                forall|j: int| 0 <= j < i ==> self.0@[j] == other.0@[j],
            decreases 32 - i,
        {
            if self.0[i] != other.0[i] {
                return false;
            }
            i = i + 1;
        }
        proof {
            assert(self.0@ =~= other.0@);
        }
        true
    }
}

impl vstd::std_specs::cmp::PartialEqSpecImpl for ID {
    open spec fn obeys_eq_spec() -> bool {
        true
    }

    open spec fn eq_spec(&self, other: &ID) -> bool {
        self@ == other@
    }
}

/// The views of a sequence of ids.
pub open spec fn ids_seq(s: Seq<ID>) -> Seq<Seq<u8>> {
    s.map_values(|id: ID| id@)
}

/// Removes repeated ids, keeping the first occurrence of each in order.
pub open spec fn dedup_ids(s: Seq<Seq<u8>>) -> Seq<Seq<u8>>
    decreases s.len(),
{
    if s.len() == 0 {
        Seq::empty()
    } else {
        let rest = dedup_ids(s.drop_last());
        if rest.contains(s.last()) {
            rest
        } else {
            rest.push(s.last())
        }
    }
}

/// No id occurs twice.
pub open spec fn distinct_ids(s: Seq<Seq<u8>>) -> bool {
    forall|i: int, j: int| 0 <= i < j < s.len() ==> s[i] != s[j]
}

pub proof fn lemma_dedup_distinct(s: Seq<Seq<u8>>)
    ensures
        distinct_ids(dedup_ids(s)),
        forall|x: Seq<u8>| dedup_ids(s).contains(x) <==> s.contains(x),
        dedup_ids(s).len() <= s.len(),
    decreases s.len(),
{
    if s.len() > 0 {
        lemma_dedup_distinct(s.drop_last());
        assert forall|x: Seq<u8>| s.contains(x) implies dedup_ids(s).contains(x) by {
            let k = choose|k: int| 0 <= k < s.len() && s[k] == x;
            if k < s.len() - 1 {
                assert(s.drop_last()[k] == x);
                assert(s.drop_last().contains(x));
                let m = choose|m: int|
                    0 <= m < dedup_ids(s.drop_last()).len() && dedup_ids(s.drop_last())[m] == x;
                assert(dedup_ids(s)[m] == x);
            } else {
                if dedup_ids(s.drop_last()).contains(x) {
                    let m = choose|m: int|
                        0 <= m < dedup_ids(s.drop_last()).len() && dedup_ids(s.drop_last())[m]
                            == x;
                    assert(dedup_ids(s)[m] == x);
                } else {
                    assert(dedup_ids(s).last() == x);
                }
            }
        }
        assert forall|x: Seq<u8>| dedup_ids(s).contains(x) implies s.contains(x) by {
            let rest = dedup_ids(s.drop_last());
            if rest.contains(x) {
                assert(s.drop_last().contains(x));
                let k = choose|k: int| 0 <= k < s.drop_last().len() && s.drop_last()[k] == x;
                assert(s[k] == x);
            } else {
                assert(x == s.last());
                assert(s[s.len() - 1] == x);
            }
        }
    }
}

/// Deduplication leaves an already duplicate-free sequence unchanged.
pub proof fn lemma_dedup_of_distinct(s: Seq<Seq<u8>>)
    requires
        distinct_ids(s),
    ensures
        dedup_ids(s) == s,
    decreases s.len(),
{
    if s.len() > 0 {
        assert(distinct_ids(s.drop_last()));
        lemma_dedup_of_distinct(s.drop_last());
        if s.drop_last().contains(s.last()) {
            let k = choose|k: int| 0 <= k < s.drop_last().len() && s.drop_last()[k] == s.last();
            assert(s[k] == s[s.len() - 1]);
            assert(false);
        }
        assert(dedup_ids(s) =~= s);
    }
}

/// The direct ancestors of a patch: a duplicate-free list of patch ids whose
/// order is the one the author recorded, the order the id derivation hashes.
#[derive(Debug)]
pub struct Deps {
    ids: Vec<ID>,
}

impl View for Deps {
    type V = Seq<Seq<u8>>;

    closed spec fn view(&self) -> Seq<Seq<u8>> {
        ids_seq(self.ids@)
    }
}

impl Deps {
    /// Every id a dependency names is 32 bytes long.
    pub proof fn lemma_entry_lens(&self)
        ensures
            forall|i: int| 0 <= i < self@.len() ==> (#[trigger] self@[i]).len() == 32,
    {
    }

    /// Wraps a list of parent ids, dropping all but the first occurrence of
    /// each.
    pub fn new(ids: Vec<ID>) -> (r: Self)
        ensures
            r@ == dedup_ids(ids_seq(ids@)),
            distinct_ids(r@),
    {
        let mut out = Deps { ids: Vec::new() };
        let mut i: usize = 0;
        proof {
            assert(ids_seq(ids@).take(0) =~= Seq::<Seq<u8>>::empty());
        }
        while i < ids.len()
            invariant
                0 <= i <= ids@.len(),
                out@ == dedup_ids(ids_seq(ids@).take(i as int)),
                distinct_ids(out@),
            decreases ids@.len() - i,
        {
            let ghost pre = ids_seq(ids@).take(i as int);
            proof {
                assert(ids_seq(ids@).take(i + 1).drop_last() =~= pre);
                assert(ids_seq(ids@).take(i + 1).last() == ids@[i as int]@);
            }
            out.insert(ids[i]);
            i = i + 1;
        }
        proof {
            assert(ids_seq(ids@).take(ids@.len() as int) =~= ids_seq(ids@));
        }
        out
    }

    /// An empty dependency list with room for `capacity` ids.
    pub fn with_capacity(capacity: usize) -> (r: Self)
        ensures
            r@ == Seq::<Seq<u8>>::empty(),
            distinct_ids(r@),
    {
        Deps { ids: Vec::with_capacity(capacity) }
    }

    /// Appends an id unless it is already present; reports whether it was
    /// added.
    pub fn insert(&mut self, value: ID) -> (r: bool)
        ensures
            final(self)@ == if old(self)@.contains(value@) {
                old(self)@
            } else {
                old(self)@.push(value@)
            },
            r == !old(self)@.contains(value@),
            distinct_ids(old(self)@) ==> distinct_ids(final(self)@),
    {
        if self.contains(&value) {
            false
        } else {
            self.ids.push(value);
            proof {
                assert(self@ =~= old(self)@.push(value@));
            }
            true
        }
    }

    /// Whether `value` is among the dependencies.
    pub fn contains(&self, value: &ID) -> (r: bool)
        ensures
            r == self@.contains(value@),
    {
        let mut i: usize = 0;
        while i < self.ids.len()
            invariant
                0 <= i <= self.ids@.len(),
                forall|j: int| 0 <= j < i ==> self.ids@[j]@ != value@,
            decreases self.ids@.len() - i,
        {
            if self.ids[i] == *value {
                assert(self@[i as int] == value@);
                return true;
            }
            i = i + 1;
        }
        assert(forall|j: int| 0 <= j < self@.len() ==> self@[j] != value@);
        false
    }

    /// The number of dependencies.
    pub fn len(&self) -> (r: usize)
        ensures
            r == self@.len(),
    {
        self.ids.len()
    }

    /// The id at position `i`.
    pub fn get(&self, i: usize) -> (r: ID)
        requires
            i < self@.len(),
        ensures
            r@ == self@[i as int],
    {
        self.ids[i]
    }

    /// The dependencies as a plain list of ids.
    pub fn to_vec(&self) -> (r: Vec<ID>)
        ensures
            ids_seq(r@) == self@,
    {
        let mut out: Vec<ID> = Vec::new();
        let mut i: usize = 0;
        while i < self.ids.len()
            invariant
                0 <= i <= self.ids@.len(),
                out@.len() == i,
                forall|j: int| 0 <= j < i ==> out@[j]@ == self.ids@[j]@,
            decreases self.ids@.len() - i,
        {
            out.push(self.ids[i]);
            i = i + 1;
        }
        proof {
            assert(ids_seq(out@) =~= self@);
        }
        out
    }
}

impl PartialEq for Deps {
    fn eq(&self, other: &Deps) -> (r: bool) {
        if self.ids.len() != other.ids.len() {
            return false;
        }
        let mut i: usize = 0;
        while i < other.ids.len()
            invariant
                0 <= i <= other.ids@.len(),
                self@.len() == other@.len(),
                forall|j: int| 0 <= j < i ==> self@.contains(other@[j]),
            decreases other.ids@.len() - i,
        {
            if !self.contains(&other.ids[i]) {
                assert(!self@.contains(other@[i as int]));
                return false;
            }
            i = i + 1;
        }
        true
    }
}

impl vstd::std_specs::cmp::PartialEqSpecImpl for Deps {
    open spec fn obeys_eq_spec() -> bool {
        true
    }

    open spec fn eq_spec(&self, other: &Deps) -> bool {
        deps_set_eq(self@, other@)
    }
}

impl Clone for Deps {
    fn clone(&self) -> (r: Self)
        ensures
            r@ == self@,
    {
        Deps { ids: self.to_vec() }
    }
}

/// Equality of dependency lists as sets: same length and every id of one
/// occurs in the other.
pub open spec fn deps_set_eq(a: Seq<Seq<u8>>, b: Seq<Seq<u8>>) -> bool {
    a.len() == b.len() && forall|j: int| 0 <= j < b.len() ==> a.contains(#[trigger] b[j])
}

/// The concatenation of a sequence of byte strings.
pub open spec fn cat(parts: Seq<Seq<u8>>) -> Seq<u8>
    decreases parts.len(),
{
    if parts.len() == 0 {
        Seq::empty()
    } else {
        parts[0] + cat(parts.drop_first())
    }
}

pub proof fn lemma_cat_push(parts: Seq<Seq<u8>>, x: Seq<u8>)
    ensures
        cat(parts.push(x)) == cat(parts) + x,
    decreases parts.len(),
{
    if parts.len() == 0 {
        let single = parts.push(x);
        assert(single.drop_first() =~= Seq::<Seq<u8>>::empty());
        assert(cat(single) == x + cat(Seq::<Seq<u8>>::empty()));
        assert(x + Seq::<u8>::empty() =~= x);
        assert(cat(parts) + x =~= x);
    } else {
        assert(parts.push(x).drop_first() =~= parts.drop_first().push(x));
        lemma_cat_push(parts.drop_first(), x);
        assert(parts.push(x)[0] == parts[0]);
        assert(cat(parts.push(x)) == parts[0] + (cat(parts.drop_first()) + x));
        assert(cat(parts) + x == (parts[0] + cat(parts.drop_first())) + x);
        assert(parts[0] + (cat(parts.drop_first()) + x) =~= (parts[0] + cat(parts.drop_first()))
            + x);
    }
}

/// The input to the id derivation: author, then each parent id in recorded
/// order, then the payload.
pub open spec fn hash_input(author: Seq<u8>, deps: Seq<Seq<u8>>, data: Seq<u8>) -> Seq<u8> {
    author + cat(deps) + data
}

/// A patch's content-derived identity: the BLAKE3 digest of the hash input.
pub open spec fn id_of(author: Seq<u8>, deps: Seq<Seq<u8>>, data: Seq<u8>) -> Seq<u8> {
    blake3_of(hash_input(author, deps, data))
}

/// The mathematical model of a patch.
#[verifier::ext_equal]
pub ghost struct PatchView {
    pub id: Seq<u8>,
    pub deps: Seq<Seq<u8>>,
    pub author: Seq<u8>,
    pub sig: Seq<u8>,
    pub data: Seq<u8>,
}

impl PatchView {
    /// Well-formedness: the id is derived from the other fields, the fixed
    /// width fields have their widths, the dependency list is duplicate-free,
    /// and both variable-length fields fit the wire framing's u32 lengths.
    pub open spec fn wf(self) -> bool {
        &&& self.id == id_of(self.author, self.deps, self.data)
        &&& self.id.len() == 32
        &&& self.author.len() == 32
        &&& self.sig.len() == 64
        &&& distinct_ids(self.deps)
        &&& forall|i: int| 0 <= i < self.deps.len() ==> (#[trigger] self.deps[i]).len() == 32
        &&& self.deps.len() < 0x1_0000_0000
        &&& self.data.len() < 0x1_0000_0000
    }
}

fn push_arr32(out: &mut Vec<u8>, b: &[u8; 32])
    ensures
        final(out)@ == old(out)@ + b@,
{
    let ghost orig = out@;
    let mut i: usize = 0;
    while i < 32
        invariant
            0 <= i <= 32,
            out@ == orig + b@.take(i as int),
        decreases 32 - i,
    {
        let ghost pre = out@;
        out.push(b[i]);
        proof {
            assert(out@ =~= orig + b@.take(i + 1));
        }
        i = i + 1;
    }
    proof {
        assert(orig + b@.take(32) =~= orig + b@);
    }
}

fn push_arr64(out: &mut Vec<u8>, b: &[u8; 64])
    ensures
        final(out)@ == old(out)@ + b@,
{
    let ghost orig = out@;
    let mut i: usize = 0;
    while i < 64
        invariant
            0 <= i <= 64,
            out@ == orig + b@.take(i as int),
        decreases 64 - i,
    {
        out.push(b[i]);
        proof {
            assert(out@ =~= orig + b@.take(i + 1));
        }
        i = i + 1;
    }
    proof {
        assert(orig + b@.take(64) =~= orig + b@);
    }
}

fn push_vec(out: &mut Vec<u8>, b: &Vec<u8>)
    ensures
        final(out)@ == old(out)@ + b@,
{
    let ghost orig = out@;
    let mut i: usize = 0;
    while i < b.len()
        invariant
            0 <= i <= b@.len(),
            out@ == orig + b@.take(i as int),
        decreases b@.len() - i,
    {
        out.push(b[i]);
        proof {
            assert(out@ =~= orig + b@.take(i + 1));
        }
        i = i + 1;
    }
    proof {
        assert(orig + b@.take(b@.len() as int) =~= orig + b@);
    }
}

fn read_arr32(bytes: &Vec<u8>, pos: usize) -> (r: [u8; 32])
    requires
        pos + 32 <= bytes@.len(),
    ensures
        r@ == bytes@.subrange(pos as int, pos as int + 32),
{
    let mut out: [u8; 32] = [0; 32];
    let n = bytes.len();
    let mut i: usize = 0;
    while i < 32
        invariant
            0 <= i <= 32,
            pos + 32 <= bytes@.len() <= usize::MAX,
            forall|j: int| 0 <= j < i ==> out@[j] == bytes@[pos + j],
        decreases 32 - i,
    {
        out[i] = bytes[pos + i];
        i = i + 1;
    }
    proof {
        assert(out@ =~= bytes@.subrange(pos as int, pos as int + 32));
    }
    out
}

fn read_arr64(bytes: &Vec<u8>, pos: usize) -> (r: [u8; 64])
    requires
        pos + 64 <= bytes@.len(),
    ensures
        r@ == bytes@.subrange(pos as int, pos as int + 64),
{
    let mut out: [u8; 64] = [0; 64];
    let n = bytes.len();
    let mut i: usize = 0;
    while i < 64
        invariant
            0 <= i <= 64,
            pos + 64 <= bytes@.len() <= usize::MAX,
            forall|j: int| 0 <= j < i ==> out@[j] == bytes@[pos + j],
        decreases 64 - i,
    {
        out[i] = bytes[pos + i];
        i = i + 1;
    }
    proof {
        assert(out@ =~= bytes@.subrange(pos as int, pos as int + 64));
    }
    out
}

fn read_vec(bytes: &Vec<u8>, pos: usize, len: usize) -> (r: Vec<u8>)
    requires
        pos + len <= bytes@.len(),
    ensures
        r@ == bytes@.subrange(pos as int, pos as int + len as int),
{
    let mut out: Vec<u8> = Vec::new();
    let n = bytes.len();
    let mut i: usize = 0;
    while i < len
        invariant
            0 <= i <= len,
            pos + len <= bytes@.len() <= usize::MAX,
            out@.len() == i,
            forall|j: int| 0 <= j < i ==> out@[j] == bytes@[pos + j],
        decreases len - i,
    {
        out.push(bytes[pos + i]);
        i = i + 1;
    }
    proof {
        assert(out@ =~= bytes@.subrange(pos as int, pos as int + len as int));
    }
    out
}

/// An immutable, signed unit of change: author identity, parent ids, opaque
/// payload, a signature over the payload, and a content-derived id.
#[derive(Debug)]
pub struct Patch {
    id: ID,
    deps: Deps,
    author: PeerID,
    sig: [u8; 64],
    data: Vec<u8>,
}

impl View for Patch {
    type V = PatchView;

    closed spec fn view(&self) -> PatchView {
        PatchView {
            id: self.id@,
            deps: self.deps@,
            author: self.author@,
            sig: self.sig@,
            data: self.data@,
        }
    }
}

fn hash_buffer(author: &[u8; 32], deps: &Deps, data: &Vec<u8>) -> (r: Vec<u8>)
    ensures
        r@ == hash_input(author@, deps@, data@),
{
    let mut out: Vec<u8> = Vec::new();
    push_arr32(&mut out, author);
    proof {
        assert(deps@.take(0) =~= Seq::<Seq<u8>>::empty());
        assert(out@ =~= author@ + cat(deps@.take(0)));
    }
    let mut i: usize = 0;
    let n = deps.len();
    while i < n
        invariant
            0 <= i <= deps@.len(),
            n == deps@.len(),
            out@ == author@ + cat(deps@.take(i as int)),
        decreases deps@.len() - i,
    {
        let id = deps.get(i);
        proof {
            lemma_cat_push(deps@.take(i as int), deps@[i as int]);
            assert(deps@.take(i + 1) =~= deps@.take(i as int).push(deps@[i as int]));
            assert(author@ + cat(deps@.take(i as int)) + id@ =~= author@ + cat(
                deps@.take(i + 1),
            ));
        }
        push_arr32(&mut out, &id.0);
        i = i + 1;
    }
    push_vec(&mut out, data);
    proof {
        assert(deps@.take(deps@.len() as int) =~= deps@);
        assert(out@ =~= hash_input(author@, deps@, data@));
    }
    out
}

impl Patch {
    /// Authors a new patch: canonicalizes the parent list, signs the payload,
    /// and derives the content id over author, parents and payload.
    pub fn new(key: &SigningKey, parents: Vec<ID>, data: Vec<u8>) -> (r: Result<Patch, Error>)
        requires
            parents@.len() < 0x1_0000_0000,
            data@.len() < 0x1_0000_0000,
        ensures
            r is Ok,
            r matches Ok(p) ==> {
                &&& p@.wf()
                &&& p@.author == public_key_of(key@)
                &&& p@.deps == dedup_ids(ids_seq(parents@))
                &&& p@.data == data@
                &&& p@.sig == signature_of(key@, data@)
                &&& signature_valid(p@.author, p@.data, p@.sig)
            },
    {
        let author = key.public_key();
        let sig = key.sign(&data);
        let ghost parents_seq = ids_seq(parents@);
        let deps = Deps::new(parents);
        proof {
            lemma_dedup_distinct(parents_seq);
        }
        let buf = hash_buffer(&author, &deps, &data);
        let digest = blake3_digest(&buf);
        let id = ID(digest);
        proof {
            deps.lemma_entry_lens();
        }
        Ok(Patch { id, deps, author, sig, data })
    }

    /// Reassembles a patch from its stored parts, as a storage backend does
    /// when it re-materializes a row. The id is taken as stored, not
    /// recomputed; stores only hold patches whose id was derived on first
    /// construction.
    pub fn from_parts(id: ID, deps: Deps, author: PeerID, sig: [u8; 64], data: Vec<u8>) -> (r:
        Patch)
        ensures
            r@ == (PatchView { id: id@, deps: deps@, author: author@, sig: sig@, data: data@ }),
    {
        Patch { id, deps, author, sig, data }
    }

    /// The content-derived identity.
    pub fn id(&self) -> (r: &ID)
        ensures
            r@ == self@.id,
    {
        &self.id
    }

    /// The direct ancestors.
    pub fn deps(&self) -> (r: &Deps)
        ensures
            r@ == self@.deps,
    {
        &self.deps
    }

    /// The author's public key.
    pub fn author(&self) -> (r: &PeerID)
        ensures
            r@ == self@.author,
    {
        &self.author
    }

    /// The opaque payload bytes.
    pub fn data(&self) -> (r: &Vec<u8>)
        ensures
            r@ == self@.data,
    {
        &self.data
    }

    /// The signature over the payload.
    pub fn sign(&self) -> (r: &[u8; 64])
        ensures
            r@ == self@.sig,
    {
        &self.sig
    }

    /// Serializes the patch in its wire framing: the two varint lengths, the
    /// signature, the author, the parent ids in recorded order, the payload.
    pub fn write(&self) -> (r: Vec<u8>)
        requires
            self@.deps.len() < 0x1_0000_0000,
            self@.data.len() < 0x1_0000_0000,
        ensures
            r@ == encode(self@),
    {
        let mut out: Vec<u8> = Vec::new();
        let dn = self.deps.len();
        let dl = self.data.len();
        varint_write(dn as u32, &mut out);
        varint_write(dl as u32, &mut out);
        proof {
            assert(out@ =~= varint_encode(self@.deps.len()) + varint_encode(self@.data.len()));
        }
        push_arr64(&mut out, &self.sig);
        push_arr32(&mut out, &self.author);
        let ghost head = out@;
        proof {
            assert(self@.deps.take(0) =~= Seq::<Seq<u8>>::empty());
            assert(out@ =~= head + cat(self@.deps.take(0)));
        }
        let mut i: usize = 0;
        while i < dn
            invariant
                0 <= i <= self@.deps.len(),
                dn == self@.deps.len(),
                out@ == head + cat(self@.deps.take(i as int)),
            decreases self@.deps.len() - i,
        {
            let id = self.deps.get(i);
            proof {
                lemma_cat_push(self@.deps.take(i as int), self@.deps[i as int]);
                assert(self@.deps.take(i + 1) =~= self@.deps.take(i as int).push(
                    self@.deps[i as int],
                ));
                assert(head + cat(self@.deps.take(i as int)) + id@ =~= head + cat(
                    self@.deps.take(i + 1),
                ));
            }
            push_arr32(&mut out, &id.0);
            i = i + 1;
        }
        proof {
            assert(self@.deps.take(self@.deps.len() as int) =~= self@.deps);
        }
        push_vec(&mut out, &self.data);
        proof {
            assert(out@ =~= encode(self@));
        }
        out
    }

    /// Parses the wire framing and recomputes the id from the parsed fields.
    /// Does not verify the signature; callers must call `verify` before
    /// trusting the patch.
    #[verifier::loop_isolation(false)]
    pub fn read(bytes: &Vec<u8>) -> (r: Result<Patch, Error>)
        ensures
            match r {
                Ok(p) => decode(bytes@) == Some(p@) && p@.wf(),
                Err(e) => decode(bytes@) is None && e is Serialization,
            },
    {
        proof {
            assert(bytes@.skip(0) =~= bytes@);
        }
        let (deps_len, pos1) = match varint_read(bytes, 0) {
            Ok(v) => v,
            Err(e) => {
                return Err(e);
            },
        };
        let (data_len, pos2) = match varint_read(bytes, pos1) {
            Ok(v) => v,
            Err(e) => {
                return Err(e);
            },
        };
        let ghost total = pos2 as int + 96 + 32 * (deps_len as int) + data_len as int;
        let n = bytes.len();
        if n - pos2 < 96 {
            return Err(Error::Serialization);
        }
        let sig = read_arr64(bytes, pos2);
        let author = read_arr32(bytes, pos2 + 64);
        let ghost raw = Seq::new(
            deps_len as nat,
            |k: int| bytes@.subrange(pos2 as int + 96 + 32 * k, pos2 as int + 96 + 32 * k + 32),
        );
        let mut deps = Deps::with_capacity(if deps_len <= 16 {
            deps_len as usize
        } else {
            16
        });
        proof {
            assert(raw.take(0) =~= Seq::<Seq<u8>>::empty());
        }
        let mut pos = pos2 + 96;
        let mut i: u32 = 0;
        while i < deps_len
            invariant
                0 <= i <= deps_len,
                pos == pos2 as int + 96 + 32 * (i as int),
                pos <= bytes@.len(),
                deps@ == dedup_ids(raw.take(i as int)),
            decreases deps_len - i,
        {
            if bytes.len() - pos < 32 {
                proof {
                    assert(32 * (i as int) + 32 <= 32 * (deps_len as int));
                    assert(bytes@.len() < total);
                }
                return Err(Error::Serialization);
            }
            let arr = read_arr32(bytes, pos);
            proof {
                assert(arr@ == raw[i as int]);
                assert(raw.take(i + 1).drop_last() =~= raw.take(i as int));
                assert(raw.take(i + 1).last() == raw[i as int]);
            }
            deps.insert(ID(arr));
            pos = pos + 32;
            i = i + 1;
        }
        proof {
            assert(raw.take(deps_len as int) =~= raw);
        }
        let dl = data_len as usize;
        if bytes.len() - pos < dl {
            proof {
                assert(bytes@.len() < total);
            }
            return Err(Error::Serialization);
        }
        let data = read_vec(bytes, pos, dl);
        let buf = hash_buffer(&author, &deps, &data);
        let digest = blake3_digest(&buf);
        let p = Patch { id: ID(digest), deps, author, sig, data };
        proof {
            assert(bytes@.len() >= total);
            lemma_dedup_distinct(raw);
            lemma_varint_decode_bound(bytes@);
            lemma_varint_decode_bound(bytes@.skip(pos1 as int));
            let dv = decode(bytes@);
            assert(dv is Some);
            assert(dv->Some_0 =~= p@);
            assert(p@.wf());
        }
        Ok(p)
    }

    /// Succeeds exactly when the signature is valid for the payload under the
    /// author's key. Does not re-check the id; `read` recomputes it.
    pub fn verify(&self) -> (r: Result<(), Error>)
        ensures
            r is Ok <==> signature_valid(self@.author, self@.data, self@.sig),
            r matches Err(e) ==> e is Verification,
    {
        if verify_signature(&self.author, &self.data, &self.sig) {
            Ok(())
        } else {
            Err(Error::Verification)
        }
    }
}

impl Clone for Patch {
    fn clone(&self) -> (r: Self)
        ensures
            r@ == self@,
    {
        let data = read_vec(&self.data, 0, self.data.len());
        proof {
            assert(data@ =~= self@.data);
        }
        let r = Patch {
            id: self.id,
            deps: self.deps.clone(),
            author: self.author,
            sig: self.sig,
            data,
        };
        proof {
            assert(r@ =~= self@);
        }
        r
    }
}

impl PartialEq for Patch {
    fn eq(&self, other: &Patch) -> (r: bool) {
        self.id == other.id && self.deps == other.deps
    }
}

impl vstd::std_specs::cmp::PartialEqSpecImpl for Patch {
    open spec fn obeys_eq_spec() -> bool {
        true
    }

    open spec fn eq_spec(&self, other: &Patch) -> bool {
        &&& self@.id == other@.id
        &&& deps_set_eq(self@.deps, other@.deps)
    }
}

/// The wire framing of a patch: varint count of parents, varint payload
/// length, 64 signature bytes, 32 author bytes, the parent ids, the payload.
pub open spec fn encode(p: PatchView) -> Seq<u8> {
    varint_encode(p.deps.len()) + varint_encode(p.data.len()) + p.sig + p.author + cat(p.deps)
        + p.data
}

/// Parses the wire framing from the front of `bytes`, ignoring anything that
/// follows it. The id is recomputed from the parsed fields, and repeated
/// parent ids collapse to their first occurrence.
pub open spec fn decode(bytes: Seq<u8>) -> Option<PatchView> {
    match varint_decode(bytes) {
        None => None,
        Some((deps_len, c1)) => match varint_decode(bytes.skip(c1 as int)) {
            None => None,
            Some((data_len, c2)) => {
                let head = c1 as int + c2 as int;
                if bytes.len() >= head + 96 + 32 * (deps_len as int) + data_len as int {
                    let sig = bytes.subrange(head, head + 64);
                    let author = bytes.subrange(head + 64, head + 96);
                    let raw = Seq::new(
                        deps_len,
                        |k: int| bytes.subrange(head + 96 + 32 * k, head + 96 + 32 * k + 32),
                    );
                    let deps = dedup_ids(raw);
                    let start = head + 96 + 32 * (deps_len as int);
                    let data = bytes.subrange(start, start + data_len as int);
                    Some(PatchView { id: id_of(author, deps, data), deps, author, sig, data })
                } else {
                    None
                }
            },
        },
    }
}

/// Concatenating 32-byte ids yields 32 bytes per id.
pub proof fn lemma_cat_len(parts: Seq<Seq<u8>>)
    requires
        forall|i: int| 0 <= i < parts.len() ==> (#[trigger] parts[i]).len() == 32,
    ensures
        cat(parts).len() == 32 * parts.len(),
    decreases parts.len(),
{
    if parts.len() > 0 {
        assert(forall|i: int|
            0 <= i < parts.drop_first().len() ==> (#[trigger] parts.drop_first()[i]).len() == 32);
        lemma_cat_len(parts.drop_first());
    }
}

/// The i-th 32-byte block of a concatenation of 32-byte ids is the i-th id.
pub proof fn lemma_cat_index(parts: Seq<Seq<u8>>, i: int)
    requires
        forall|k: int| 0 <= k < parts.len() ==> (#[trigger] parts[k]).len() == 32,
        0 <= i < parts.len(),
    ensures
        cat(parts).subrange(32 * i, 32 * i + 32) == parts[i],
    decreases i,
{
    lemma_cat_len(parts);
    if i == 0 {
        assert(cat(parts).subrange(0, 32) =~= parts[0]);
    } else {
        let rest = parts.drop_first();
        assert(forall|k: int| 0 <= k < rest.len() ==> (#[trigger] rest[k]).len() == 32);
        lemma_cat_index(rest, i - 1);
        lemma_cat_len(rest);
        assert(cat(parts).subrange(32 * i, 32 * i + 32) =~= cat(rest).subrange(
            32 * (i - 1),
            32 * (i - 1) + 32,
        ));
        assert(rest[i - 1] == parts[i]);
    }
}

/// Reading back a written patch yields the same patch: the wire framing is
/// lossless on well-formed patches, and the recomputed id agrees.
pub proof fn lemma_encode_decode(p: PatchView)
    requires
        p.wf(),
    ensures
        decode(encode(p)) == Some(p),
{
    let bytes = encode(p);
    let e1 = varint_encode(p.deps.len());
    let e2 = varint_encode(p.data.len());
    let rest1 = e2 + p.sig + p.author + cat(p.deps) + p.data;
    assert(bytes =~= e1 + rest1);
    lemma_varint_roundtrip(p.deps.len(), rest1);
    let rest2 = p.sig + p.author + cat(p.deps) + p.data;
    assert(bytes.skip(e1.len() as int) =~= e2 + rest2);
    lemma_varint_roundtrip(p.data.len(), rest2);
    lemma_cat_len(p.deps);
    let head = e1.len() as int + e2.len() as int;
    assert(bytes.len() == head + 96 + 32 * p.deps.len() + p.data.len());
    assert(bytes.subrange(head, head + 64) =~= p.sig);
    assert(bytes.subrange(head + 64, head + 96) =~= p.author);
    let raw = Seq::new(
        p.deps.len(),
        |k: int| bytes.subrange(head + 96 + 32 * k, head + 96 + 32 * k + 32),
    );
    assert forall|k: int| 0 <= k < p.deps.len() implies raw[k] == p.deps[k] by {
        lemma_cat_index(p.deps, k);
        assert(bytes.subrange(head + 96 + 32 * k, head + 96 + 32 * k + 32) =~= cat(
            p.deps,
        ).subrange(32 * k, 32 * k + 32));
    }
    assert(raw =~= p.deps);
    lemma_dedup_of_distinct(p.deps);
    let start = head + 96 + 32 * (p.deps.len() as int);
    assert(bytes.subrange(start, start + p.data.len() as int) =~= p.data);
    assert(decode(bytes)->Some_0 =~= p);
}

} // verus!
