//! The event processor: validates an incoming signed event against the
//! identifier's derived key-state, folds it, and persists it. Successful
//! processing is the only path by which the event store is written, and a
//! rejected event is never persisted: partial application is never
//! observable.
use vstd::prelude::*;

use crate::crypto::sig_valid;
use crate::crypto::verify_sig;
use crate::errors::ProcessError;
use crate::event::IndexedSig;
use crate::event::KeyCommitment;
use crate::event::KeyM;
use crate::event::SigM;
use crate::event::SignedEvent;
use crate::event::SignedM;
use crate::event::event_bytes;
use crate::event::spec_event_bytes;
use crate::state::KeyState;
use crate::state::StateM;
use crate::state::apply_event;
use crate::state::apply_m;
use crate::state::chain_of;
use crate::state::chain_of_m;
use crate::state::derive_key_state;
use crate::state::lemma_fold_chain_shape;
use crate::state::opt_state_view;
use crate::state::opt_view;
use crate::state::spec_fold;
use crate::store::EventStore;
use crate::store::QueryRange;
use crate::store::clone_signed;
use crate::store::events_of;
use crate::store::has_event;
use crate::store::wf;

verus! {

/// Whether `s` is a usable signature over `msg`: it points at a key of
/// the signing set, that key is proper 32-byte Ed25519 material, and the
/// signature verifies under it.
pub open spec fn sig_ok(keys: Seq<KeyM>, msg: Seq<u8>, s: SigM) -> bool {
    &&& 0 <= s.index < keys.len()
    &&& keys[s.index].bytes.len() == 32
    &&& sig_valid(keys[s.index].bytes, msg, s.sig)
}

/// Whether some attached signature validly signs `msg` for key index `i`.
pub open spec fn index_signed(keys: Seq<KeyM>, msg: Seq<u8>, sigs: Seq<SigM>, i: int) -> bool {
    exists|j: int| 0 <= j < sigs.len() && (#[trigger] sigs[j]).index == i && sig_ok(keys, msg, sigs[j])
}

/// How many of the first `n` key indices have a valid attached signature:
/// signatures are counted per distinct key index, never per copy.
pub open spec fn count_valid(keys: Seq<KeyM>, msg: Seq<u8>, sigs: Seq<SigM>, n: int) -> int
    decreases n,
{
    if n <= 0 {
        0
    } else {
        count_valid(keys, msg, sigs, n - 1) + (if index_signed(keys, msg, sigs, n - 1) {
            1int
        } else {
            0int
        })
    }
}

/// Whether the distinct validly-signed key indices reach the threshold.
pub open spec fn threshold_met(keys: Seq<KeyM>, msg: Seq<u8>, sigs: Seq<SigM>, threshold: int) -> bool {
    count_valid(keys, msg, sigs, keys.len() as int) >= threshold
}

/// The threshold the signatures of `e` must reach: declared by the prior
/// key-state where one exists, and by the event itself for an inception,
/// which is self-authenticating. The signing keys are always the event's
/// own current keys: an inception declares them, and a rotation reveals
/// the keys the prior state committed to.
pub open spec fn signing_threshold(st: Option<StateM>, e: crate::event::EventM) -> int {
    match st {
        None => e.threshold,
        Some(s) => s.threshold,
    }
}

/// What processing `sev` against store `m` decides: derive the current
/// state of its identifier, check the signature threshold, then fold the
/// event; the first failed check names the rejection.
pub open spec fn spec_process(m: crate::store::StoreM, sev: SignedM) -> Result<StateM, ProcessError> {
    let es = chain_of_m(events_of(m, sev.event.identifier));
    match spec_fold(es) {
        Err(e) => Err(e),
        Ok(st) => {
            let msg = spec_event_bytes(sev.event);
            if !threshold_met(sev.event.current_keys, msg, sev.signatures, signing_threshold(st, sev.event)) {
                Err(ProcessError::SignatureThresholdNotMet)
            } else {
                apply_m(st, sev.event)
            }
        },
    }
}

/// Whether any signature in `sigs` validly signs `msg` for key index `i`,
/// whose key is `key`.
fn index_has_valid_sig(
    key: &KeyCommitment,
    msg: &Vec<u8>,
    sigs: &Vec<IndexedSig>,
    i: usize,
    Ghost(keys): Ghost<Seq<KeyM>>,
) -> (r: bool)
    requires
        0 <= i < keys.len(),
        keys[i as int] == key@,
    ensures
        r == index_signed(keys, msg@, sigs@.map_values(|s: IndexedSig| s@), i as int),
{
    let ghost sigsm = sigs@.map_values(|s: IndexedSig| s@);
    let mut j: usize = 0;
    while j < sigs.len()
        invariant
            j <= sigs@.len(),
            sigsm == sigs@.map_values(|s: IndexedSig| s@),
            0 <= i < keys.len(),
            keys[i as int] == key@,
            forall|j2: int|
                0 <= j2 < j ==> !((#[trigger] sigsm[j2]).index == i as int && sig_ok(
                    keys,
                    msg@,
                    sigsm[j2],
                )),
        decreases sigs@.len() - j,
    {
        if sigs[j].index == i as u64 && key.bytes.len() == 32 && verify_sig(
            &key.bytes,
            msg.as_slice(),
            sigs[j].sig.as_slice(),
        ) {
            assert(sig_ok(keys, msg@, sigsm[j as int]));
            return true;
        }
        j = j + 1;
    }
    false
}

/// Count the distinct key indices with a valid attached signature.
fn count_valid_signatures(
    keys: &Vec<KeyCommitment>,
    msg: &Vec<u8>,
    sigs: &Vec<IndexedSig>,
) -> (r: usize)
    ensures
        r as int == count_valid(
            keys@.map_values(|k: KeyCommitment| k@),
            msg@,
            sigs@.map_values(|s: IndexedSig| s@),
            keys@.len() as int,
        ),
{
    let ghost keysm = keys@.map_values(|k: KeyCommitment| k@);
    let ghost sigsm = sigs@.map_values(|s: IndexedSig| s@);
    let mut count: usize = 0;
    let mut i: usize = 0;
    while i < keys.len()
        invariant
            i <= keys@.len(),
            count <= i,
            keysm == keys@.map_values(|k: KeyCommitment| k@),
            sigsm == sigs@.map_values(|s: IndexedSig| s@),
            count as int == count_valid(keysm, msg@, sigsm, i as int),
        decreases keys@.len() - i,
    {
        if index_has_valid_sig(&keys[i], msg, sigs, i, Ghost(keysm)) {
            count = count + 1;
        }
        i = i + 1;
    }
    count
}

/// Validate `signed` against its identifier's derived key-state, fold it,
/// and persist it. On success the new state is returned and the event is
/// appended; on any rejection the store is exactly as it was.
pub fn process(store: &mut EventStore, signed: &SignedEvent) -> (r: Result<KeyState, ProcessError>)
    requires
        wf(old(store)@),
    ensures
        wf(final(store)@),
        r matches Ok(s) ==> spec_process(old(store)@, signed@) == Ok::<StateM, ProcessError>(s@),
        r matches Err(e) ==> spec_process(old(store)@, signed@) == Err::<StateM, ProcessError>(e)
            && final(store)@ == old(store)@,
        r is Ok ==> events_of(final(store)@, signed@.event.identifier) == events_of(
            old(store)@,
            signed@.event.identifier,
        ).push(signed@),
        r is Ok ==> (forall|id2: Seq<u8>|
            id2 != signed@.event.identifier ==> events_of(final(store)@, id2) == events_of(
                old(store)@,
                id2,
            )),
        r is Ok ==> final(store)@.receipts == old(store)@.receipts,
{
    let ghost oldm = store@;
    let ghost id = signed@.event.identifier;
    let ghost chain = chain_of_m(events_of(oldm, id));
    let evs = store.query_events(&signed.event.identifier, QueryRange::All);
    proof {
        crate::store::lemma_filter_all(events_of(oldm, id));
        assert(chain_of(evs@) =~= chain);
    }
    let st: Option<KeyState> = match derive_key_state(&evs) {
        Ok(o) => o,
        Err(e) => {
            return Err(e);
        },
    };
    let st_ref: Option<&KeyState> = match &st {
        Some(s) => Some(s),
        None => None,
    };
    proof {
        assert(opt_state_view(st_ref) == opt_view(st));
    }
    let bytes = event_bytes(&signed.event);
    let threshold: u64 = match st_ref {
        None => signed.event.threshold,
        Some(s) => s.threshold,
    };
    proof {
        assert(threshold as int == signing_threshold(opt_state_view(st_ref), signed@.event));
    }
    let count = count_valid_signatures(&signed.event.current_keys, &bytes, &signed.signatures);
    if (count as u64) < threshold {
        return Err(ProcessError::SignatureThresholdNotMet);
    }
    let new_state = match apply_event(st_ref, &signed.event) {
        Ok(s) => s,
        Err(e) => {
            return Err(e);
        },
    };
    proof {
        // The accepted event's sequence number is one past the stored
        // chain, so its slot in the store is necessarily free.
        let stm = opt_state_view(st_ref);
        if stm is Some {
            lemma_fold_chain_shape(chain);
            assert(signed@.event.sequence == chain.len());
        } else {
            assert(chain.len() == 0);
        }
        assert(chain.len() == events_of(oldm, id).len());
        assert forall|k: int| 0 <= k < events_of(oldm, id).len() implies (
        #[trigger] events_of(oldm, id)[k]).event.sequence < signed@.event.sequence by {
            assert(events_of(oldm, id)[k].event == chain[k]);
        }
        assert(!has_event(oldm, id, signed@.event.sequence));
    }
    let copy = clone_signed(signed);
    match store.append_event(copy) {
        Ok(()) => Ok(new_state),
        Err(_) => {
            proof {
                assert(false);
            }
            Err(ProcessError::SequenceError)
        },
    }
}

/// A signed event whose distinct valid signatures fall below the signing
/// threshold is always rejected with `SignatureThresholdNotMet`, before
/// the chain is even extended, so it never appears in a query.
pub proof fn lemma_threshold_not_met_rejected(m: crate::store::StoreM, sev: SignedM)
    requires
        spec_fold(chain_of_m(events_of(m, sev.event.identifier))) is Ok,
        !threshold_met(
            sev.event.current_keys,
            spec_event_bytes(sev.event),
            sev.signatures,
            signing_threshold(
                spec_fold(chain_of_m(events_of(m, sev.event.identifier))).unwrap(),
                sev.event,
            ),
        ),
    ensures
        spec_process(m, sev) == Err::<StateM, ProcessError>(ProcessError::SignatureThresholdNotMet),
{
}

/// A rotation whose revealed keys do not match the committed next-key
/// digests is never accepted by processing, whatever its signatures.
pub proof fn lemma_process_rejects_commitment_mismatch(m: crate::store::StoreM, sev: SignedM)
    requires
        spec_fold(chain_of_m(events_of(m, sev.event.identifier))) matches Ok(st) && st is Some,
        crate::state::rotation_extends(
            spec_fold(chain_of_m(events_of(m, sev.event.identifier))).unwrap().unwrap(),
            sev.event,
        ),
        crate::state::key_digests(sev.event.current_keys) != spec_fold(
            chain_of_m(events_of(m, sev.event.identifier)),
        ).unwrap().unwrap().next_digests,
    ensures
        spec_process(m, sev) is Err,
        spec_process(m, sev) == Err::<StateM, ProcessError>(ProcessError::RotationCommitmentMismatch)
            || spec_process(m, sev) == Err::<StateM, ProcessError>(
            ProcessError::SignatureThresholdNotMet,
        ),
{
}

} // verus!
