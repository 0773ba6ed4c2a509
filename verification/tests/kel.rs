//! End-to-end exercises of the key-event-log core with the real
//! cryptographic backends linked.
use kel_core::crypto::KeyManager;
use kel_core::errors::KelError;
use kel_core::errors::ProcessError;
use kel_core::errors::StoreError;
use kel_core::event::EventKind;
use kel_core::event::IndexedSig;
use kel_core::event::KeyCommitment;
use kel_core::event::SigScheme;
use kel_core::event::SignedEvent;
use kel_core::event::build_rotation;
use kel_core::event::event_bytes;
use kel_core::incept;
use kel_core::load_keri_state;
use kel_core::processor::process;
use kel_core::rotate_keys;
use kel_core::store::EventStore;
use kel_core::store::QueryRange;
use kel_core::store::Receipt;
use kel_core::store::ReceiptKind;

fn blake3_digest(data: &[u8]) -> Vec<u8> {
    said::derivation::HashFunction::from(said::derivation::HashFunctionCode::Blake3_256)
        .digest(data)
}

#[test]
fn incept_establishes_declared_state() {
    let km = KeyManager::new();
    let mut store = EventStore::new();
    let (identifier, state) = incept(&km, &mut store).expect("inception");
    assert_eq!(state.sequence, 0);
    assert_eq!(state.threshold, 1);
    assert_eq!(state.identifier, identifier);
    assert_eq!(state.current_keys.len(), 1);
    assert_eq!(&state.current_keys[0].bytes, km.current_public_key());
    assert_eq!(state.next_digests.len(), 1);
    assert_eq!(state.next_digests[0], blake3_digest(km.next_public_key()));
}

#[test]
fn identifier_is_digest_of_canonical_bytes() {
    let km = KeyManager::new();
    let mut store = EventStore::new();
    let (identifier, _) = incept(&km, &mut store).expect("inception");
    let events = store.query_events(&identifier, QueryRange::All);
    assert_eq!(events.len(), 1);
    let stored = &events[0].event;
    assert!(matches!(stored.kind, EventKind::Inception));
    // The identifier certifies the event content: recomputing the digest
    // of the canonical bytes (identifier excluded) must reproduce it.
    assert_eq!(blake3_digest(&event_bytes(stored)), identifier);
}

#[test]
fn rotation_reveals_committed_keys() {
    let mut km = KeyManager::new();
    let mut store = EventStore::new();
    let (identifier, _) = incept(&km, &mut store).expect("inception");
    let revealed = km.next_public_key().clone();
    let state = rotate_keys(&mut km, &mut store, &identifier).expect("rotation");
    assert_eq!(state.sequence, 1);
    assert_eq!(state.current_keys.len(), 1);
    assert_eq!(state.current_keys[0].bytes, revealed);
    assert_eq!(km.current_public_key(), &revealed);
    // The new next-key commitment names the freshly staged key.
    assert_eq!(state.next_digests[0], blake3_digest(km.next_public_key()));
}

#[test]
fn end_to_end_incept_then_rotate() {
    let mut km = KeyManager::new();
    let mut store = EventStore::new();
    let (identifier, s0) = incept(&km, &mut store).expect("inception");
    let key_b = km.next_public_key().clone();
    assert_eq!(s0.next_digests[0], blake3_digest(&key_b));
    let s1 = rotate_keys(&mut km, &mut store, &identifier).expect("rotation");
    assert_eq!(s1.sequence, 1);
    assert_eq!(s1.current_keys[0].bytes, key_b);
    assert_eq!(s1.next_digests[0], blake3_digest(km.next_public_key()));
    // The revealed key can rotate again: the commitment round-trips.
    let s2 = rotate_keys(&mut km, &mut store, &identifier).expect("second rotation");
    assert_eq!(s2.sequence, 2);
}

#[test]
fn replay_reproduces_state() {
    let mut km = KeyManager::new();
    let mut store = EventStore::new();
    let (identifier, _) = incept(&km, &mut store).expect("inception");
    rotate_keys(&mut km, &mut store, &identifier).expect("rotation");
    let live = store.current_key_state(&identifier).expect("state");
    let events = store.query_events(&identifier, QueryRange::All);
    let replayed = kel_core::state::derive_key_state(&events)
        .expect("fold")
        .expect("state");
    assert_eq!(replayed.identifier, live.identifier);
    assert_eq!(replayed.sequence, live.sequence);
    assert_eq!(replayed.threshold, live.threshold);
    assert_eq!(replayed.last_digest, live.last_digest);
    assert_eq!(replayed.next_digests, live.next_digests);
    assert_eq!(replayed.current_keys.len(), live.current_keys.len());
    assert_eq!(replayed.current_keys[0].bytes, live.current_keys[0].bytes);
    // Every prefix replays to a state as well.
    let prefix = store.query_events(&identifier, QueryRange::BySequence(0));
    let early = kel_core::state::derive_key_state(&prefix)
        .expect("fold")
        .expect("state");
    assert_eq!(early.sequence, 0);
    // `load_keri_state` rebuilds the same snapshot.
    let loaded = load_keri_state(&store, &identifier).expect("state");
    assert_eq!(loaded.sequence, live.sequence);
    assert_eq!(loaded.last_digest, live.last_digest);
}

#[test]
fn duplicate_sequence_rejected() {
    let km = KeyManager::new();
    let mut store = EventStore::new();
    let (identifier, _) = incept(&km, &mut store).expect("inception");
    let events = store.query_events(&identifier, QueryRange::All);
    let replay = SignedEvent {
        event: kel_core::store::clone_event(&events[0].event),
        signatures: Vec::new(),
    };
    // The slot (identifier, 0) is taken: exactly one append wins.
    let second = store.append_event(replay);
    assert!(matches!(second, Err(StoreError::DuplicateSequence)));
    assert_eq!(store.query_events(&identifier, QueryRange::All).len(), 1);
}

#[test]
fn commitment_mismatch_rejected() {
    let km = KeyManager::new();
    let intruder = KeyManager::new();
    let mut store = EventStore::new();
    let (identifier, s0) = incept(&km, &mut store).expect("inception");
    // Reveal a key the inception never committed to, signed by its owner
    // so the threshold check passes.
    let wrong = KeyCommitment {
        scheme: SigScheme::Ed25519,
        bytes: intruder.current_public_key().clone(),
    };
    let event = build_rotation(
        identifier.clone(),
        s0.last_digest.clone(),
        1,
        vec![wrong],
        vec![blake3_digest(intruder.next_public_key())],
        1,
    );
    let bytes = event_bytes(&event);
    let sig = intruder.sign(&bytes).expect("signature");
    let signed = SignedEvent { event, signatures: vec![IndexedSig { index: 0, sig }] };
    let outcome = process(&mut store, &signed);
    assert!(matches!(outcome, Err(ProcessError::RotationCommitmentMismatch)));
    // The key state is unchanged before and after the attempt.
    let state = store.current_key_state(&identifier).expect("state");
    assert_eq!(state.sequence, 0);
    assert_eq!(store.query_events(&identifier, QueryRange::All).len(), 1);
}

#[test]
fn threshold_not_met_rejected() {
    let km = KeyManager::new();
    let mut store = EventStore::new();
    let (identifier, s0) = incept(&km, &mut store).expect("inception");
    let revealed = KeyCommitment {
        scheme: SigScheme::Ed25519,
        bytes: km.next_public_key().clone(),
    };
    let event = build_rotation(
        identifier.clone(),
        s0.last_digest.clone(),
        1,
        vec![revealed],
        vec![blake3_digest(km.current_public_key())],
        1,
    );
    // No signatures at all: zero distinct valid indices, threshold is 1.
    let signed = SignedEvent { event, signatures: Vec::new() };
    let outcome = process(&mut store, &signed);
    assert!(matches!(outcome, Err(ProcessError::SignatureThresholdNotMet)));
    // The rejected event never appears in a query.
    assert_eq!(store.query_events(&identifier, QueryRange::All).len(), 1);
}

#[test]
fn tampered_signature_rejected() {
    let km = KeyManager::new();
    let mut store = EventStore::new();
    let (identifier, s0) = incept(&km, &mut store).expect("inception");
    let revealed = KeyCommitment {
        scheme: SigScheme::Ed25519,
        bytes: km.next_public_key().clone(),
    };
    let event = build_rotation(
        identifier.clone(),
        s0.last_digest.clone(),
        1,
        vec![revealed],
        vec![blake3_digest(km.current_public_key())],
        1,
    );
    let bytes = event_bytes(&event);
    let mut sig = km.sign_with_next(&bytes).expect("signature");
    sig[0] ^= 0xff;
    let signed = SignedEvent { event, signatures: vec![IndexedSig { index: 0, sig }] };
    let outcome = process(&mut store, &signed);
    assert!(matches!(outcome, Err(ProcessError::SignatureThresholdNotMet)));
}

#[test]
fn broken_chain_rejected_with_sequence_error() {
    let km = KeyManager::new();
    let mut store = EventStore::new();
    let (identifier, _) = incept(&km, &mut store).expect("inception");
    let revealed = KeyCommitment {
        scheme: SigScheme::Ed25519,
        bytes: km.next_public_key().clone(),
    };
    // A previous-event digest that matches nothing breaks the chain.
    let event = build_rotation(
        identifier.clone(),
        vec![0u8; 32],
        1,
        vec![revealed],
        vec![blake3_digest(km.current_public_key())],
        1,
    );
    let bytes = event_bytes(&event);
    let sig = km.sign_with_next(&bytes).expect("signature");
    let signed = SignedEvent { event, signatures: vec![IndexedSig { index: 0, sig }] };
    let outcome = process(&mut store, &signed);
    assert!(matches!(outcome, Err(ProcessError::SequenceError)));
}

#[test]
fn rotation_without_log_is_unknown_identifier() {
    let km = KeyManager::new();
    let mut store = EventStore::new();
    let revealed = KeyCommitment {
        scheme: SigScheme::Ed25519,
        bytes: km.next_public_key().clone(),
    };
    let event = build_rotation(
        vec![7u8; 32],
        vec![0u8; 32],
        1,
        vec![revealed],
        vec![blake3_digest(km.current_public_key())],
        1,
    );
    let bytes = event_bytes(&event);
    let sig = km.sign_with_next(&bytes).expect("signature");
    let signed = SignedEvent { event, signatures: vec![IndexedSig { index: 0, sig }] };
    let outcome = process(&mut store, &signed);
    assert!(matches!(outcome, Err(ProcessError::UnknownIdentifier)));
}

#[test]
fn rotate_unknown_identifier_fails() {
    let mut km = KeyManager::new();
    let mut store = EventStore::new();
    let outcome = rotate_keys(&mut km, &mut store, &vec![9u8; 32]);
    assert!(matches!(outcome, Err(KelError::NoKeyState)));
}

#[test]
fn rejected_rotation_leaves_key_manager_unchanged() {
    let mut km = KeyManager::new();
    let mut store = EventStore::new();
    let before_current = km.current_public_key().clone();
    let before_next = km.next_public_key().clone();
    let outcome = rotate_keys(&mut km, &mut store, &vec![9u8; 32]);
    assert!(outcome.is_err());
    assert_eq!(km.current_public_key(), &before_current);
    assert_eq!(km.next_public_key(), &before_next);
}

#[test]
fn receipts_need_a_target_event() {
    let km = KeyManager::new();
    let mut store = EventStore::new();
    let (identifier, _) = incept(&km, &mut store).expect("inception");
    let stray = Receipt {
        identifier: identifier.clone(),
        sequence: 5,
        kind: ReceiptKind::NonTransferable,
        bytes: vec![1, 2, 3],
    };
    assert!(matches!(
        store.append_receipt(stray),
        Err(StoreError::UnknownTargetEvent)
    ));
    let good = Receipt {
        identifier: identifier.clone(),
        sequence: 0,
        kind: ReceiptKind::NonTransferable,
        bytes: vec![4, 5, 6],
    };
    store.append_receipt(good).expect("receipt");
    let found = store.query_receipts(&identifier, ReceiptKind::NonTransferable, QueryRange::All);
    assert_eq!(found.len(), 1);
    assert_eq!(found[0].bytes, vec![4, 5, 6]);
    let other_kind = store.query_receipts(&identifier, ReceiptKind::Transferable, QueryRange::All);
    assert_eq!(other_kind.len(), 0);
}

#[test]
fn query_ranges_select_by_sequence() {
    let mut km = KeyManager::new();
    let mut store = EventStore::new();
    let (identifier, _) = incept(&km, &mut store).expect("inception");
    rotate_keys(&mut km, &mut store, &identifier).expect("rotation");
    let all = store.query_events(&identifier, QueryRange::All);
    assert_eq!(all.len(), 2);
    assert_eq!(all[0].event.sequence, 0);
    assert_eq!(all[1].event.sequence, 1);
    let only1 = store.query_events(&identifier, QueryRange::BySequence(1));
    assert_eq!(only1.len(), 1);
    assert_eq!(only1[0].event.sequence, 1);
    let since1 = store.query_events(&identifier, QueryRange::Since(1));
    assert_eq!(since1.len(), 1);
    let none = store.query_events(&identifier, QueryRange::Since(2));
    assert_eq!(none.len(), 0);
}

#[test]
fn distinct_identifiers_keep_separate_logs() {
    let km1 = KeyManager::new();
    let km2 = KeyManager::new();
    let mut store = EventStore::new();
    let (id1, _) = incept(&km1, &mut store).expect("first inception");
    let (id2, _) = incept(&km2, &mut store).expect("second inception");
    assert_ne!(id1, id2);
    assert_eq!(store.query_events(&id1, QueryRange::All).len(), 1);
    assert_eq!(store.query_events(&id2, QueryRange::All).len(), 1);
}

#[test]
fn canonical_bytes_are_deterministic() {
    let km = KeyManager::new();
    let key = KeyCommitment {
        scheme: SigScheme::Ed25519,
        bytes: km.current_public_key().clone(),
    };
    let key2 = KeyCommitment {
        scheme: SigScheme::Ed25519,
        bytes: km.current_public_key().clone(),
    };
    let digest = blake3_digest(km.next_public_key());
    let e1 = kel_core::event::build_inception(vec![key], vec![digest.clone()], 1);
    let e2 = kel_core::event::build_inception(vec![key2], vec![digest], 1);
    assert_eq!(event_bytes(&e1), event_bytes(&e2));
    assert_eq!(e1.identifier, e2.identifier);
}
