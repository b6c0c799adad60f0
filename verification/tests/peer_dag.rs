use patchdag::crypto::SigningKey;
use patchdag::patch::Patch;
use patchdag::patch::ID;
use patchdag::peer::Peer;
use patchdag::store::MemStore;
use patchdag::store::ObjectStore;
use patchdag::Error;

fn create_peer(byte: u8) -> Peer<MemStore> {
    let key = SigningKey::from_bytes([byte; 32]);
    Peer::new(key, MemStore::new()).unwrap()
}

fn payload(s: &str) -> Vec<u8> {
    serde_json::to_vec(&s).unwrap()
}

/// ```text
///      / B - D
///     A    \
///      \ C - E - F
/// ```
fn init_patches(key: &SigningKey) -> Vec<Patch> {
    let a = Patch::new(key, vec![], payload("A")).unwrap();
    let b = Patch::new(key, vec![*a.id()], payload("B")).unwrap();
    let c = Patch::new(key, vec![*a.id()], payload("C")).unwrap();
    let d = Patch::new(key, vec![*b.id()], payload("D")).unwrap();
    let e = Patch::new(key, vec![*b.id(), *c.id()], payload("E")).unwrap();
    let f = Patch::new(key, vec![*e.id()], payload("F")).unwrap();
    vec![a, b, c, d, e, f]
}

fn run_reconcile<S: ObjectStore, T: ObjectStore>(src: &Peer<S>, dst: &mut Peer<T>) {
    patchdag::peer::reconcile(dst, src, 64).unwrap();
}

fn heads_set(p: &Peer<MemStore>) -> Vec<ID> {
    p.heads().clone()
}

fn contains_id(v: &[ID], id: &ID) -> bool {
    v.iter().any(|x| x == id)
}

#[test]
fn reconcile() {
    let mut p1 = create_peer(1);
    let mut p2 = create_peer(2);
    let key = SigningKey::from_bytes([1; 32]);
    let patches = init_patches(&key);
    p1.integrate(patches.clone()).unwrap();
    p2.integrate(patches.clone()).unwrap();
    let g = p1.commit(payload("G")).unwrap();
    let h = p2.commit(payload("H")).unwrap();
    let i = p2.commit(payload("I")).unwrap();

    run_reconcile(&p1, &mut p2);
    run_reconcile(&p2, &mut p1);

    let mut ids: Vec<ID> = patches.iter().map(|p| *p.id()).collect();
    ids.push(*g.id());
    ids.push(*h.id());
    ids.push(*i.id());
    let res1 = p1.patches(&ids).unwrap();
    let res2 = p1.patches(&ids).unwrap();
    assert_eq!(res1, res2);
}

#[test]
fn commit() {
    let key = SigningKey::from_bytes([1; 32]);
    let mut peer = Peer::new(SigningKey::from_bytes([1; 32]), MemStore::new()).unwrap();
    let patches = init_patches(&key);
    let ids: Vec<ID> = patches.iter().map(|p| *p.id()).collect();

    let missing = peer.integrate(patches.clone()).unwrap();
    let in_store = peer.patches(&ids).unwrap();

    assert_eq!(patches, in_store);
    assert!(missing.is_empty());
}

#[test]
fn missing_dep() {
    let key = SigningKey::from_bytes([1; 32]);
    let mut peer = Peer::new(SigningKey::from_bytes([1; 32]), MemStore::new()).unwrap();
    let mut patches = init_patches(&key);
    let ids: Vec<ID> = patches.iter().map(|p| *p.id()).collect();

    let removed = patches.remove(4);
    let missing = peer.integrate(patches.clone()).unwrap();
    assert_eq!(missing, vec![*removed.id()]);

    let in_store: Vec<String> = peer
        .patches(&ids)
        .unwrap()
        .into_iter()
        .map(|p| serde_json::from_slice::<String>(p.data()).unwrap())
        .collect();
    assert_eq!(in_store, vec!["A", "B", "C", "D"]);
}

#[test]
fn linear_chain_in_order() {
    let key = SigningKey::from_bytes([4; 32]);
    let mut peer = create_peer(4);
    let a = Patch::new(&key, vec![], payload("A")).unwrap();
    let b = Patch::new(&key, vec![*a.id()], payload("B")).unwrap();
    let missing = peer.integrate(vec![a.clone(), b.clone()]).unwrap();
    assert!(missing.is_empty());
    assert!(peer.store().is_integrated(a.id()).unwrap());
    assert!(peer.store().is_integrated(b.id()).unwrap());
    assert_eq!(heads_set(&peer).len(), 1);
    assert!(contains_id(&heads_set(&peer), b.id()));
}

#[test]
fn out_of_order_delivery() {
    let key = SigningKey::from_bytes([4; 32]);
    let mut peer = create_peer(4);
    let a = Patch::new(&key, vec![], payload("A")).unwrap();
    let b = Patch::new(&key, vec![*a.id()], payload("B")).unwrap();

    // b alone must not be committed, only stashed
    let missing = peer.integrate(vec![b.clone()]).unwrap();
    assert_eq!(missing, vec![*a.id()]);
    assert!(!peer.store().is_integrated(b.id()).unwrap());
    assert!(peer.store().contains(b.id()).unwrap());

    // a unblocks b through the stash fixpoint
    let missing = peer.integrate(vec![a.clone()]).unwrap();
    assert!(missing.is_empty());
    assert!(peer.store().is_integrated(a.id()).unwrap());
    assert!(peer.store().is_integrated(b.id()).unwrap());
    assert_eq!(heads_set(&peer).len(), 1);
    assert!(contains_id(&heads_set(&peer), b.id()));
}

#[test]
fn integrate_is_idempotent() {
    let key = SigningKey::from_bytes([6; 32]);
    let p = Patch::new(&key, vec![], payload("P")).unwrap();
    let mut once = create_peer(6);
    let mut thrice = create_peer(6);
    let m1 = once.integrate(vec![p.clone()]).unwrap();
    let m3 = thrice
        .integrate(vec![p.clone(), p.clone(), p.clone()])
        .unwrap();
    assert_eq!(m1, m3);
    assert_eq!(heads_set(&once), heads_set(&thrice));
    assert_eq!(
        once.patches(&vec![*p.id()]).unwrap(),
        thrice.patches(&vec![*p.id()]).unwrap()
    );
}

#[test]
fn integrate_order_independent() {
    let key = SigningKey::from_bytes([8; 32]);
    let patches = init_patches(&key);
    let mut forward = create_peer(8);
    let mut backward = create_peer(8);
    let reversed: Vec<Patch> = patches.iter().rev().cloned().collect();

    let mf = forward.integrate(patches.clone()).unwrap();
    let mb = backward.integrate(reversed).unwrap();
    assert!(mf.is_empty());
    // the missing list reflects discovery order: parents seen before their
    // patches are reported even though the fixpoint integrated them later
    for m in mb.iter() {
        assert!(backward.store().is_integrated(m).unwrap());
    }

    let hf = heads_set(&forward);
    let hb = heads_set(&backward);
    assert_eq!(hf.len(), hb.len());
    for h in hf.iter() {
        assert!(contains_id(&hb, h));
    }
    let ids: Vec<ID> = patches.iter().map(|p| *p.id()).collect();
    assert_eq!(
        forward.patches(&ids).unwrap(),
        backward.patches(&ids).unwrap()
    );
}

#[test]
fn convergence_after_bidirectional_sync() {
    let mut p1 = create_peer(1);
    let mut p2 = create_peer(2);
    let key = SigningKey::from_bytes([1; 32]);
    let patches = init_patches(&key);
    p1.integrate(patches.clone()).unwrap();
    p2.integrate(patches.clone()).unwrap();
    let g = p1.commit(payload("G")).unwrap();
    let h = p2.commit(payload("H")).unwrap();
    let i = p2.commit(payload("I")).unwrap();

    run_reconcile(&p1, &mut p2);
    run_reconcile(&p2, &mut p1);

    let mut ids: Vec<ID> = patches.iter().map(|p| *p.id()).collect();
    ids.push(*g.id());
    ids.push(*h.id());
    ids.push(*i.id());
    let r1 = p1.patches(&ids).unwrap();
    let r2 = p2.patches(&ids).unwrap();
    assert_eq!(r1.len(), ids.len());
    assert_eq!(r1, r2);

    let h1 = heads_set(&p1);
    let h2 = heads_set(&p2);
    assert_eq!(h1.len(), h2.len());
    for h in h1.iter() {
        assert!(contains_id(&h2, h));
    }
    // the heads are G and I: the two undominated tips
    assert_eq!(h1.len(), 2);
    assert!(contains_id(&h1, g.id()));
    assert!(contains_id(&h1, i.id()));
}

#[test]
fn tampered_patch_aborts_integration() {
    let key = SigningKey::from_bytes([5; 32]);
    let mut peer = create_peer(5);
    let record = Patch::new(&key, vec![], payload("T")).unwrap();
    let mut bytes = record.write();
    let last = bytes.len() - 1;
    bytes[last] ^= 1;
    let tampered = Patch::read(&bytes).unwrap();

    let r = peer.integrate(vec![tampered.clone()]);
    assert!(r.is_err());
    assert!(matches!(r.unwrap_err(), Error::Verification));
    assert!(!peer.store().contains(tampered.id()).unwrap());
}

#[test]
fn commit_updates_heads_and_store() {
    let mut peer = create_peer(3);
    let a = peer.commit(payload("one")).unwrap();
    assert_eq!(heads_set(&peer), vec![*a.id()]);
    let b = peer.commit(payload("two")).unwrap();
    assert_eq!(heads_set(&peer), vec![*b.id()]);
    assert_eq!(b.deps().len(), 1);
    assert!(b.deps().contains(a.id()));
    assert!(peer.store().is_integrated(a.id()).unwrap());
    assert!(peer.store().is_integrated(b.id()).unwrap());
    assert_eq!(*a.author(), peer.peer_id());
}

#[test]
fn store_rejects_duplicate_commit() {
    let key = SigningKey::from_bytes([2; 32]);
    let p = Patch::new(&key, vec![], payload("dup")).unwrap();
    let mut store = MemStore::new();
    store.commit(&p).unwrap();
    let again = store.commit(&p);
    assert!(again.is_err());
    assert!(matches!(again.unwrap_err(), Error::Storage));
    assert!(store.is_integrated(p.id()).unwrap());
    let _ = patchdag::store::Options::default();
}

#[test]
fn stash_and_unstash_preserve_patches() {
    let key = SigningKey::from_bytes([2; 32]);
    let a = Patch::new(&key, vec![], payload("a")).unwrap();
    let b = Patch::new(&key, vec![*a.id()], payload("b")).unwrap();
    let mut store = MemStore::new();
    store.stash(&b).unwrap();
    assert!(store.contains(b.id()).unwrap());
    assert!(!store.is_integrated(b.id()).unwrap());
    let drained = store.unstash().unwrap();
    assert_eq!(drained, vec![b.clone()]);
    assert!(!store.contains(b.id()).unwrap());
}

#[test]
fn reconcile_budget_exhaustion_is_reported() {
    let mut src = create_peer(9);
    let mut dst = create_peer(10);
    src.commit(payload("only")).unwrap();
    let r = patchdag::peer::reconcile(&mut dst, &src, 0);
    assert!(r.is_err());
    assert!(matches!(r.unwrap_err(), Error::IO));
    // with a budget the same exchange converges
    patchdag::peer::reconcile(&mut dst, &src, 4).unwrap();
    assert_eq!(heads_set(&dst), heads_set(&src));
}
