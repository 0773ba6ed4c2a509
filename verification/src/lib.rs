//! A verified key-event-log (KEL) core: self-certifying identifiers,
//! pre-rotation key management, key-state derivation by a pure fold over
//! the ordered event chain, and an append-only event store.
//!
//! The orchestrator below drives the two supported lifecycle operations,
//! inception and rotation, through build, sign, process and persist; on
//! any rejection neither the store nor the key manager changes.
pub mod crypto;
pub mod errors;
pub mod event;
pub mod processor;
pub mod state;
pub mod store;

use vstd::prelude::*;

use crate::crypto::KeyManager;
use crate::crypto::KeyPair;
use crate::crypto::digest_bytes;
use crate::crypto::digest_of;
use crate::errors::KelError;
use crate::errors::ProcessError;
use crate::event::IndexedSig;
use crate::event::KeyCommitment;
use crate::event::KeyM;
use crate::event::SigScheme;
use crate::event::SignedEvent;
use crate::event::build_inception;
use crate::event::build_rotation;
use crate::event::event_bytes;
use crate::event::spec_inception_identifier;
use crate::processor::count_valid;
use crate::processor::index_signed;
use crate::processor::process;
use crate::processor::sig_ok;
use crate::state::KeyState;
use crate::state::StateM;
use crate::state::apply_m;
use crate::state::chain_of_m;
use crate::state::clone_bytes;
use crate::state::key_digests;
use crate::state::spec_fold;
use crate::store::EventStore;
use crate::store::StoreM;
use crate::store::events_of;
use crate::store::wf;

verus! {

/// Whether a key state is derivable for `id` from the store's log.
pub open spec fn has_derived_state(m: StoreM, id: Seq<u8>) -> bool {
    spec_fold(chain_of_m(events_of(m, id))) matches Ok(st) && st is Some
}

/// The key state derived for `id` from the store's log.
pub open spec fn the_derived_state(m: StoreM, id: Seq<u8>) -> StateM {
    spec_fold(chain_of_m(events_of(m, id))).unwrap().unwrap()
}

/// The single-key commitment a public key stands as.
pub open spec fn revealed_key(pk: Seq<u8>) -> Seq<KeyM> {
    seq![KeyM { scheme: SigScheme::Ed25519, bytes: pk }]
}

/// Rebuild the derived key state of `identifier` from the stored log, by
/// replaying the chain from sequence 0.
pub fn load_keri_state(store: &EventStore, identifier: &Vec<u8>) -> (r: Option<KeyState>)
    requires
        wf(store@),
    ensures
        r matches Some(s) ==> spec_fold(chain_of_m(events_of(store@, identifier@))) == Ok::<
            Option<StateM>,
            ProcessError,
        >(Some(s@)),
        r is None ==> !has_derived_state(store@, identifier@),
{
    store.current_key_state(identifier)
}

/// Incept a fresh self-certifying identifier: one current key, a digest
/// commitment to the pre-rotated next key, and threshold 1. The event is
/// built, signed with the current key, validated and persisted; the new
/// identifier and its derived key state are returned.
#[verifier::rlimit(100)]
pub fn incept(km: &KeyManager, store: &mut EventStore) -> (r: Result<(Vec<u8>, KeyState), KelError>)
    requires
        wf(old(store)@),
        km.wf(),
    ensures
        wf(final(store)@),
        r matches Err(_) ==> final(store)@ == old(store)@,
        r matches Ok(p) ==> p.0@ == spec_inception_identifier(
            revealed_key(km.current_pk()),
            seq![digest_of(km.next_pk())],
            1,
        ),
        r matches Ok(p) ==> p.1@.identifier == p.0@ && p.1@.sequence == 0 && p.1@.current_keys
            == revealed_key(km.current_pk()) && p.1@.next_digests == seq![digest_of(km.next_pk())]
            && p.1@.threshold == 1,
        r matches Ok(p) ==> events_of(old(store)@, p.0@).len() == 0 && events_of(
            final(store)@,
            p.0@,
        ).len() == 1 && spec_fold(chain_of_m(events_of(final(store)@, p.0@))) == Ok::<
            Option<StateM>,
            ProcessError,
        >(Some(p.1@)),
        // With a fresh identifier, only the signing backend can fail.
        r matches Err(KelError::Rejected(_)) ==> events_of(
            old(store)@,
            spec_inception_identifier(
                revealed_key(km.current_pk()),
                seq![digest_of(km.next_pk())],
                1,
            ),
        ).len() != 0,
{
    let ghost oldm = store@;
    let current = KeyCommitment {
        scheme: SigScheme::Ed25519,
        bytes: clone_bytes(km.current_public_key()),
    };
    let next_digest = digest_bytes(km.next_public_key().as_slice());
    let mut current_keys: Vec<KeyCommitment> = Vec::new();
    current_keys.push(current);
    let mut next_digests: Vec<Vec<u8>> = Vec::new();
    next_digests.push(next_digest);
    proof {
        assert(current_keys@.map_values(|k: KeyCommitment| k@) =~= revealed_key(km.current_pk()));
        assert(next_digests@.map_values(|d: Vec<u8>| d@) =~= seq![digest_of(km.next_pk())]);
    }
    let e = build_inception(current_keys, next_digests, 1);
    let ghost em = e@;
    let bytes = event_bytes(&e);
    let sig = match km.sign(bytes.as_slice()) {
        Ok(sig) => sig,
        Err(_) => {
            return Err(KelError::SigningFailed);
        },
    };
    let identifier = clone_bytes(&e.identifier);
    let mut sigs: Vec<IndexedSig> = Vec::new();
    sigs.push(IndexedSig { index: 0, sig });
    let signed = SignedEvent { event: e, signatures: sigs };
    proof {
        assert(signed@.event == em);
        assert(signed@.signatures =~= seq![signed@.signatures[0]]);
        assert(em.current_keys == revealed_key(km.current_pk()));
        assert(em.current_keys[0].bytes == km.current_pk());
        km.lemma_wf_key_lengths();
        assert(em.current_keys[0].bytes.len() == 32);
        assert(signed@.signatures[0].index == 0);
        assert(bytes@ == crate::event::spec_event_bytes(em));
        assert(crate::crypto::sig_valid(
            em.current_keys[0].bytes,
            crate::event::spec_event_bytes(em),
            signed@.signatures[0].sig,
        ));
        lemma_single_valid_signature(
            em.current_keys,
            crate::event::spec_event_bytes(em),
            signed@.signatures,
        );
    }
    match process(store, &signed) {
        Ok(ks) => {
            proof {
                let chain = chain_of_m(events_of(oldm, em.identifier));
                if events_of(oldm, em.identifier).len() != 0 {
                    // A non-empty prior log folds to a state or an error;
                    // either way an inception cannot be accepted over it.
                    match spec_fold(chain) {
                        Ok(st) => {
                            match st {
                                Some(_) => {
                                    assert(!(apply_m(st, em) is Ok));
                                    assert(false);
                                },
                                None => {
                                    lemma_fold_none_is_empty(chain);
                                    assert(false);
                                },
                            }
                        },
                        Err(_) => {
                            assert(false);
                        },
                    }
                }
                assert(chain =~= Seq::<crate::event::EventM>::empty());
                lemma_chain_push(
                    events_of(oldm, em.identifier),
                    events_of(store@, em.identifier),
                    signed@,
                );
            }
            Ok((identifier, ks))
        },
        Err(pe) => {
            proof {
                if events_of(oldm, em.identifier).len() == 0 {
                    let chain = chain_of_m(events_of(oldm, em.identifier));
                    assert(chain =~= Seq::<crate::event::EventM>::empty());
                    assert(spec_fold(chain) == Ok::<Option<StateM>, ProcessError>(None));
                    let msg = crate::event::spec_event_bytes(em);
                    assert(crate::processor::signing_threshold(None, em) == 1);
                    assert(crate::processor::threshold_met(
                        em.current_keys,
                        msg,
                        signed@.signatures,
                        1,
                    ));
                    assert(apply_m(None, em) is Ok);
                    assert(crate::processor::spec_process(oldm, signed@) is Ok);
                    assert(false);
                }
            }
            Err(KelError::Rejected(pe))
        },
    }
}

/// Rotate the keys of `identifier`: reveal the pre-committed next key as
/// current, commit a digest of a freshly staged key as the new next key,
/// sign with the revealed key, validate, persist, and only then promote
/// the key manager's pairs. On any rejection the key manager and the
/// store are unchanged: the still-valid prior key pair is never lost to
/// a rejected event.
#[verifier::rlimit(100)]
pub fn rotate_keys(km: &mut KeyManager, store: &mut EventStore, identifier: &Vec<u8>) -> (r: Result<
    KeyState,
    KelError,
>)
    requires
        wf(old(store)@),
        old(km).wf(),
    ensures
        wf(final(store)@),
        final(km).wf(),
        r matches Err(_) ==> final(store)@ == old(store)@ && final(km).current_pk() == old(
            km,
        ).current_pk() && final(km).next_pk() == old(km).next_pk(),
        r == Err::<KeyState, KelError>(KelError::NoKeyState) <==> !has_derived_state(
            old(store)@,
            identifier@,
        ),
        r == Err::<KeyState, KelError>(KelError::SequenceOverflow) <==> has_derived_state(
            old(store)@,
            identifier@,
        ) && the_derived_state(old(store)@, identifier@).sequence == u64::MAX as int,
        r matches Err(KelError::Rejected(pe)) ==> has_derived_state(
            old(store)@,
            identifier@,
        ) && the_derived_state(old(store)@, identifier@).sequence < u64::MAX as int && ((pe
            == ProcessError::SignatureThresholdNotMet && the_derived_state(
            old(store)@,
            identifier@,
        ).threshold > 1) || (pe == ProcessError::RotationCommitmentMismatch && the_derived_state(
            old(store)@,
            identifier@,
        ).threshold <= 1 && seq![digest_of(old(km).next_pk())] != the_derived_state(
            old(store)@,
            identifier@,
        ).next_digests)),
        // When the stored commitment names the key manager's pre-rotated
        // key and one signature suffices, only the signing backend can
        // stand between the caller and success.
        has_derived_state(old(store)@, identifier@) && the_derived_state(
            old(store)@,
            identifier@,
        ).sequence < u64::MAX as int && the_derived_state(old(store)@, identifier@).threshold <= 1
            && seq![digest_of(old(km).next_pk())] == the_derived_state(
            old(store)@,
            identifier@,
        ).next_digests ==> (r is Ok || r == Err::<KeyState, KelError>(KelError::SigningFailed)),
        r matches Ok(ks) ==> has_derived_state(old(store)@, identifier@) && ks@.identifier
            == identifier@ && ks@.sequence == the_derived_state(old(store)@, identifier@).sequence
            + 1 && ks@.current_keys == revealed_key(old(km).next_pk()) && key_digests(
            ks@.current_keys,
        ) == the_derived_state(old(store)@, identifier@).next_digests && ks@.next_digests == seq![
            digest_of(final(km).next_pk()),
        ] && ks@.threshold == 1 && final(km).current_pk() == old(km).next_pk() && events_of(
            final(store)@,
            identifier@,
        ).len() == events_of(old(store)@, identifier@).len() + 1 && spec_fold(
            chain_of_m(events_of(final(store)@, identifier@)),
        ) == Ok::<Option<StateM>, ProcessError>(Some(ks@)),
{
    let ghost oldm = store@;
    let ghost id = identifier@;
    let stored = store.current_key_state(identifier);
    let s = match stored {
        Some(s) => s,
        None => {
            return Err(KelError::NoKeyState);
        },
    };
    proof {
        assert(has_derived_state(oldm, id));
        assert(the_derived_state(oldm, id) == s@);
    }
    if s.sequence == u64::MAX {
        return Err(KelError::SequenceOverflow);
    }
    let ghost sm = s@;
    proof {
        lemma_derived_state_identifier(oldm, id);
        assert(sm.identifier == id);
    }
    let staged = KeyPair::fresh();
    let next_digest = digest_bytes(staged.public_key().as_slice());
    let revealed = KeyCommitment {
        scheme: SigScheme::Ed25519,
        bytes: clone_bytes(km.next_public_key()),
    };
    let mut current_keys: Vec<KeyCommitment> = Vec::new();
    current_keys.push(revealed);
    let mut next_digests: Vec<Vec<u8>> = Vec::new();
    next_digests.push(next_digest);
    proof {
        assert(current_keys@.map_values(|k: KeyCommitment| k@) =~= revealed_key(km.next_pk()));
        assert(next_digests@.map_values(|d: Vec<u8>| d@) =~= seq![digest_of(staged.spec_pk())]);
    }
    let e = build_rotation(
        clone_bytes(identifier),
        clone_bytes(&s.last_digest),
        s.sequence + 1,
        current_keys,
        next_digests,
        1,
    );
    let ghost em = e@;
    let bytes = event_bytes(&e);
    let sig = match km.sign_with_next(bytes.as_slice()) {
        Ok(sig) => sig,
        Err(_) => {
            return Err(KelError::SigningFailed);
        },
    };
    let mut sigs: Vec<IndexedSig> = Vec::new();
    sigs.push(IndexedSig { index: 0, sig });
    let signed = SignedEvent { event: e, signatures: sigs };
    proof {
        assert(signed@.event == em);
        assert(signed@.signatures =~= seq![signed@.signatures[0]]);
        assert(crate::state::rotation_extends(sm, em));
        assert(em.current_keys == revealed_key(km.next_pk()));
        assert(km.next_pk() == old(km).next_pk());
        assert(em.current_keys[0].bytes == km.next_pk());
        km.lemma_wf_key_lengths();
        assert(em.current_keys[0].bytes.len() == 32);
        assert(signed@.signatures[0].index == 0);
        assert(bytes@ == crate::event::spec_event_bytes(em));
        assert(crate::crypto::sig_valid(
            em.current_keys[0].bytes,
            crate::event::spec_event_bytes(em),
            signed@.signatures[0].sig,
        ));
        lemma_single_valid_signature(
            em.current_keys,
            crate::event::spec_event_bytes(em),
            signed@.signatures,
        );
    }
    match process(store, &signed) {
        Ok(ks) => {
            km.commit_rotation(staged);
            proof {
                assert(apply_m(Some(sm), em) == Ok::<StateM, ProcessError>(ks@));
                assert(key_digests(em.current_keys) == sm.next_digests);
                assert(key_digests(ks@.current_keys) == sm.next_digests);
                lemma_chain_push(events_of(oldm, id), events_of(store@, id), signed@);
            }
            Ok(ks)
        },
        Err(pe) => {
            proof {
                // The chain checks hold by construction and one valid
                // signature is attached, so only the threshold or the
                // commitment can have rejected the event.
                let chain = chain_of_m(events_of(oldm, id));
                assert(spec_fold(chain) == Ok::<Option<StateM>, ProcessError>(Some(sm)));
                let msg = crate::event::spec_event_bytes(em);
                assert(crate::processor::spec_process(oldm, signed@) == Err::<
                    StateM,
                    ProcessError,
                >(pe));
                assert(crate::processor::signing_threshold(Some(sm), em) == sm.threshold);
                if !crate::processor::threshold_met(
                    em.current_keys,
                    msg,
                    signed@.signatures,
                    sm.threshold,
                ) {
                    assert(pe == ProcessError::SignatureThresholdNotMet);
                    assert(count_valid(em.current_keys, msg, signed@.signatures, 1) == 1);
                    assert(sm.threshold > 1);
                } else {
                    assert(apply_m(Some(sm), em) == Err::<StateM, ProcessError>(pe));
                    assert(crate::state::rotation_extends(sm, em));
                    assert(pe == ProcessError::RotationCommitmentMismatch);
                    assert(key_digests(em.current_keys) != sm.next_digests);
                    assert(key_digests(em.current_keys) =~= seq![digest_of(old(km).next_pk())]);
                }
            }
            Err(KelError::Rejected(pe))
        },
    }
}

/// A single signature at index 0 that verifies under the single signing
/// key meets any threshold of at most one.
proof fn lemma_single_valid_signature(keys: Seq<KeyM>, msg: Seq<u8>, sigs: Seq<crate::event::SigM>)
    requires
        keys.len() == 1,
        keys[0].bytes.len() == 32,
        sigs.len() == 1,
        sigs[0].index == 0,
        crate::crypto::sig_valid(keys[0].bytes, msg, sigs[0].sig),
    ensures
        count_valid(keys, msg, sigs, 1) == 1,
        forall|t: int| t <= 1 ==> crate::processor::threshold_met(keys, msg, sigs, t),
{
    assert(sig_ok(keys, msg, sigs[0]));
    assert(index_signed(keys, msg, sigs, 0));
    assert(count_valid(keys, msg, sigs, 0) == 0);
}

/// Only the empty chain folds to no state at all.
proof fn lemma_fold_none_is_empty(es: Seq<crate::event::EventM>)
    requires
        spec_fold(es) == Ok::<Option<StateM>, ProcessError>(None),
    ensures
        es.len() == 0,
{
}

/// A derived state carries the identifier whose log it was derived from.
proof fn lemma_derived_state_identifier(m: StoreM, id: Seq<u8>)
    requires
        crate::store::wf(m),
        has_derived_state(m, id),
    ensures
        the_derived_state(m, id).identifier == id,
{
    let evs = events_of(m, id);
    let chain = chain_of_m(evs);
    crate::state::lemma_fold_chain_shape(chain);
    assert(chain.len() > 0);
    assert(evs.len() > 0);
    assert(crate::store::has_log(m, id));
    let c = crate::store::log_index(m, id);
    assert(0 <= c < m.logs.len() && m.logs[c].identifier == id);
    assert(crate::store::log_wf(m.logs[c]));
    assert(evs[0].event.identifier == id);
    assert(chain[0] == evs[0].event);
    assert(chain[0].identifier == the_derived_state(m, id).identifier);
}

/// Appending one accepted event extends the derived chain by exactly
/// that event, so the new store folds to the new state.
proof fn lemma_chain_push(
    evs_old: Seq<crate::event::SignedM>,
    evs_new: Seq<crate::event::SignedM>,
    sev: crate::event::SignedM,
)
    requires
        evs_new == evs_old.push(sev),
    ensures
        chain_of_m(evs_new) == chain_of_m(evs_old).push(sev.event),
        chain_of_m(evs_new).drop_last() == chain_of_m(evs_old),
        chain_of_m(evs_new).last() == sev.event,
{
    assert(chain_of_m(evs_new) =~= chain_of_m(evs_old).push(sev.event));
    assert(chain_of_m(evs_new).drop_last() =~= chain_of_m(evs_old));
}

} // verus!
