use patchdag::crypto::SigningKey;
use patchdag::patch::Patch;
use patchdag::patch::ID;
use patchdag::Error;

fn key_from(byte: u8) -> SigningKey {
    SigningKey::from_bytes([byte; 32])
}

#[test]
fn serialize_record() {
    let data = "hello world";
    let key_pair = key_from(7);
    let record = Patch::new(&key_pair, Vec::new(), data.as_bytes().to_vec()).unwrap();
    record.verify().unwrap();

    let bytes = record.write();
    let deserialized = Patch::read(&bytes).unwrap();
    deserialized.verify().unwrap();
    assert_eq!(record, deserialized);
    // equality goes by id and parents; check the remaining fields byte for byte
    assert_eq!(record.id().0, deserialized.id().0);
    assert_eq!(record.author(), deserialized.author());
    assert_eq!(record.sign().as_slice(), deserialized.sign().as_slice());
    assert_eq!(record.data(), deserialized.data());
}

#[test]
fn roundtrip_with_parents_and_long_payload() {
    let key = key_from(9);
    let a = Patch::new(&key, Vec::new(), vec![1, 2, 3]).unwrap();
    let b = Patch::new(&key, vec![*a.id()], vec![4, 5]).unwrap();
    // a payload longer than 127 bytes forces a two-byte varint length
    let payload: Vec<u8> = (0..300u32).map(|i| (i % 251) as u8).collect();
    let c = Patch::new(&key, vec![*a.id(), *b.id()], payload.clone()).unwrap();

    for p in [&a, &b, &c] {
        let bytes = p.write();
        let back = Patch::read(&bytes).unwrap();
        assert_eq!(*p, back);
        assert_eq!(p.data(), back.data());
        assert_eq!(p.author(), back.author());
        assert_eq!(p.sign().as_slice(), back.sign().as_slice());
        back.verify().unwrap();
    }
    assert_eq!(c.data().as_slice(), payload.as_slice());
    assert_eq!(c.deps().len(), 2);
}

#[test]
fn content_addressing_matches_blake3() {
    let key = key_from(3);
    let a = Patch::new(&key, Vec::new(), b"root".to_vec()).unwrap();
    let p = Patch::new(&key, vec![*a.id()], b"payload".to_vec()).unwrap();

    let mut input = Vec::new();
    input.extend_from_slice(p.author());
    input.extend_from_slice(&a.id().0);
    input.extend_from_slice(p.data());
    let digest = blake3::hash(&input);
    assert_eq!(&p.id().0, digest.as_bytes());
}

#[test]
fn author_matches_ed25519_public_key() {
    let secret = [42u8; 32];
    let key = SigningKey::from_bytes(secret);
    let expected = ed25519_dalek::SigningKey::from_bytes(&secret)
        .verifying_key()
        .to_bytes();
    assert_eq!(key.public_key(), expected);
    let p = Patch::new(&key, Vec::new(), b"x".to_vec()).unwrap();
    assert_eq!(*p.author(), expected);
}

#[test]
fn duplicate_parents_collapse() {
    let key = key_from(5);
    let a = Patch::new(&key, Vec::new(), b"a".to_vec()).unwrap();
    let once = Patch::new(&key, vec![*a.id()], b"b".to_vec()).unwrap();
    let twice = Patch::new(&key, vec![*a.id(), *a.id()], b"b".to_vec()).unwrap();
    assert_eq!(once.deps().len(), 1);
    assert_eq!(twice.deps().len(), 1);
    assert_eq!(once, twice);
    assert_eq!(once.id().0, twice.id().0);
}

#[test]
fn tampered_payload_fails_verification() {
    let key = key_from(11);
    let record = Patch::new(&key, Vec::new(), b"attack at dawn".to_vec()).unwrap();
    let mut bytes = record.write();
    let last = bytes.len() - 1;
    bytes[last] ^= 1;
    let tampered = Patch::read(&bytes).unwrap();
    assert!(tampered.verify().is_err());
    assert!(matches!(tampered.verify().unwrap_err(), Error::Verification));
    // the recomputed id differs from the untampered patch's id
    assert_ne!(record.id().0, tampered.id().0);
}

#[test]
fn truncated_framing_is_rejected() {
    let key = key_from(13);
    let record = Patch::new(&key, Vec::new(), b"payload".to_vec()).unwrap();
    let bytes = record.write();
    for cut in [0usize, 1, 2, 60, bytes.len() - 1] {
        let prefix: Vec<u8> = bytes[..cut].to_vec();
        let r = Patch::read(&prefix);
        assert!(r.is_err());
        assert!(matches!(r.unwrap_err(), Error::Serialization));
    }
}

#[test]
fn trailing_bytes_are_ignored() {
    let key = key_from(17);
    let record = Patch::new(&key, Vec::new(), b"tail".to_vec()).unwrap();
    let mut bytes = record.write();
    bytes.extend_from_slice(b"extra stream content");
    let back = Patch::read(&bytes).unwrap();
    assert_eq!(record, back);
}

#[test]
fn deps_equality_ignores_order() {
    let key = key_from(19);
    let a = Patch::new(&key, Vec::new(), b"a".to_vec()).unwrap();
    let b = Patch::new(&key, Vec::new(), b"b".to_vec()).unwrap();
    let d1 = patchdag::patch::Deps::new(vec![*a.id(), *b.id()]);
    let d2 = patchdag::patch::Deps::new(vec![*b.id(), *a.id()]);
    assert_eq!(d1, d2);
    let mut d3 = patchdag::patch::Deps::with_capacity(2);
    assert!(d3.insert(*a.id()));
    assert!(!d3.insert(*a.id()));
    assert_eq!(d3.len(), 1);
    assert!(d3.contains(a.id()));
    assert!(!d3.contains(b.id()));
    let ids = d1.to_vec();
    let first: ID = d1.get(0);
    assert_eq!(ids[0], first);
}
