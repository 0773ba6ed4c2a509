//! Key-state derivation: a pure fold over the ordered event chain.
use vstd::prelude::*;

use crate::crypto::digest_bytes;
use crate::crypto::digest_of;
use crate::errors::ProcessError;
use crate::event::EventKind;
use crate::event::EventM;
use crate::event::KeyCommitment;
use crate::event::KeyEvent;
use crate::event::KeyM;
use crate::event::SignedEvent;
use crate::event::event_bytes;
use crate::event::spec_event_bytes;

verus! {

/// The derived, authoritative snapshot after applying events `0..=n`.
pub struct KeyState {
    pub identifier: Vec<u8>,
    pub current_keys: Vec<KeyCommitment>,
    pub next_digests: Vec<Vec<u8>>,
    pub threshold: u64,
    pub sequence: u64,
    /// Digest of the canonical bytes of the last applied event.
    pub last_digest: Vec<u8>,
}

/// Model of a key state.
pub ghost struct StateM {
    pub identifier: Seq<u8>,
    pub current_keys: Seq<KeyM>,
    pub next_digests: Seq<Seq<u8>>,
    pub threshold: int,
    pub sequence: int,
    pub last_digest: Seq<u8>,
}

impl View for KeyState {
    type V = StateM;

    open spec fn view(&self) -> StateM {
        StateM {
            identifier: self.identifier@,
            current_keys: self.current_keys@.map_values(|k: KeyCommitment| k@),
            next_digests: self.next_digests@.map_values(|d: Vec<u8>| d@),
            threshold: self.threshold as int,
            sequence: self.sequence as int,
            last_digest: self.last_digest@,
        }
    }
}

/// The digests of the given keys' public key material, in order.
pub open spec fn key_digests(ks: Seq<KeyM>) -> Seq<Seq<u8>> {
    ks.map_values(|k: KeyM| digest_of(k.bytes))
}

/// An event that may begin a log: an inception at sequence 0 with no
/// previous-event digest.
pub open spec fn inception_shape(e: EventM) -> bool {
    &&& e.kind == EventKind::Inception
    &&& e.sequence == 0
    &&& e.prior_digest is None
}

/// An event that extends `s`'s chain: a rotation for the same identifier,
/// at the next sequence number, referencing the digest of the last
/// accepted event.
pub open spec fn rotation_extends(s: StateM, e: EventM) -> bool {
    &&& e.kind == EventKind::Rotation
    &&& e.identifier == s.identifier
    &&& e.sequence == s.sequence + 1
    &&& e.prior_digest == Some(s.last_digest)
}

/// The key state an accepted event leaves behind.
pub open spec fn state_after(e: EventM) -> StateM {
    StateM {
        identifier: e.identifier,
        current_keys: e.current_keys,
        next_digests: e.next_digests,
        threshold: e.threshold,
        sequence: e.sequence,
        last_digest: digest_of(spec_event_bytes(e)),
    }
}

/// One step of key-state derivation. Signatures play no part here; they
/// are checked by the event processor before the fold is consulted.
pub open spec fn apply_m(st: Option<StateM>, e: EventM) -> Result<StateM, ProcessError> {
    match st {
        None => {
            if e.kind == EventKind::Rotation {
                Err(ProcessError::UnknownIdentifier)
            } else if inception_shape(e) {
                Ok(state_after(e))
            } else {
                Err(ProcessError::SequenceError)
            }
        },
        Some(s) => {
            if !rotation_extends(s, e) {
                Err(ProcessError::SequenceError)
            } else if key_digests(e.current_keys) != s.next_digests {
                Err(ProcessError::RotationCommitmentMismatch)
            } else {
                Ok(state_after(e))
            }
        },
    }
}

/// Fold the ordered event chain from the empty state. The fold is a pure
/// function of the chain, so replaying the same events always reproduces
/// the same state.
pub open spec fn spec_fold(es: Seq<EventM>) -> Result<Option<StateM>, ProcessError>
    decreases es.len(),
{
    if es.len() == 0 {
        Ok(None)
    } else {
        match spec_fold(es.drop_last()) {
            Ok(st) => match apply_m(st, es.last()) {
                Ok(s) => Ok(Some(s)),
                Err(e) => Err(e),
            },
            Err(e) => Err(e),
        }
    }
}

/// The events carried by a sequence of signed events, in order.
pub open spec fn chain_of(es: Seq<SignedEvent>) -> Seq<EventM> {
    es.map_values(|se: SignedEvent| se.event@)
}

/// The events carried by a sequence of signed-event models, in order.
pub open spec fn chain_of_m(es: Seq<crate::event::SignedM>) -> Seq<EventM> {
    es.map_values(|se: crate::event::SignedM| se.event)
}

/// The model of an optional state reference.
pub open spec fn opt_state_view(st: Option<&KeyState>) -> Option<StateM> {
    match st {
        Some(s) => Some(s@),
        None => None,
    }
}

/// The model of an optional state.
pub open spec fn opt_view(st: Option<KeyState>) -> Option<StateM> {
    match st {
        Some(s) => Some(s@),
        None => None,
    }
}

/// Byte-for-byte equality of two byte vectors.
pub fn bytes_eq(a: &Vec<u8>, b: &Vec<u8>) -> (r: bool)
    ensures
        r == (a@ == b@),
{
    if a.len() != b.len() {
        return false;
    }
    let mut i: usize = 0;
    while i < a.len()
        invariant
            i <= a.len(),
            a@.len() == b@.len(),
            forall|j: int| 0 <= j < i ==> a@[j] == b@[j],
        decreases a.len() - i,
    {
        if a[i] != b[i] {
            return false;
        }
        i = i + 1;
    }
    assert(a@ =~= b@);
    true
}

/// A deep copy of a byte vector.
pub fn clone_bytes(v: &Vec<u8>) -> (r: Vec<u8>)
    ensures
        r@ == v@,
{
    let mut out: Vec<u8> = Vec::new();
    let mut i: usize = 0;
    while i < v.len()
        invariant
            i <= v.len(),
            out@ == v@.subrange(0, i as int),
        decreases v.len() - i,
    {
        out.push(v[i]);
        i = i + 1;
        assert(out@ =~= v@.subrange(0, i as int));
    }
    assert(v@.subrange(0, v@.len() as int) =~= v@);
    out
}

/// A deep copy of a list of key commitments.
pub fn clone_keys(ks: &Vec<KeyCommitment>) -> (r: Vec<KeyCommitment>)
    ensures
        r@.map_values(|k: KeyCommitment| k@) == ks@.map_values(|k: KeyCommitment| k@),
{
    let mut out: Vec<KeyCommitment> = Vec::new();
    let mut i: usize = 0;
    while i < ks.len()
        invariant
            i <= ks.len(),
            out@.len() == i,
            forall|j: int| 0 <= j < i ==> #[trigger] out@[j]@ == ks@[j]@,
        decreases ks.len() - i,
    {
        out.push(KeyCommitment { scheme: ks[i].scheme, bytes: clone_bytes(&ks[i].bytes) });
        i = i + 1;
    }
    assert(out@.map_values(|k: KeyCommitment| k@) =~= ks@.map_values(|k: KeyCommitment| k@));
    out
}

/// A deep copy of a list of digests.
pub fn clone_digests(ds: &Vec<Vec<u8>>) -> (r: Vec<Vec<u8>>)
    ensures
        r@.map_values(|d: Vec<u8>| d@) == ds@.map_values(|d: Vec<u8>| d@),
{
    let mut out: Vec<Vec<u8>> = Vec::new();
    let mut i: usize = 0;
    while i < ds.len()
        invariant
            i <= ds.len(),
            out@.len() == i,
            forall|j: int| 0 <= j < i ==> #[trigger] out@[j]@ == ds@[j]@,
        decreases ds.len() - i,
    {
        out.push(clone_bytes(&ds[i]));
        i = i + 1;
    }
    assert(out@.map_values(|d: Vec<u8>| d@) =~= ds@.map_values(|d: Vec<u8>| d@));
    out
}

/// A deep copy of a key state.
pub fn clone_state(s: &KeyState) -> (r: KeyState)
    ensures
        r@ == s@,
{
    KeyState {
        identifier: clone_bytes(&s.identifier),
        current_keys: clone_keys(&s.current_keys),
        next_digests: clone_digests(&s.next_digests),
        threshold: s.threshold,
        sequence: s.sequence,
        last_digest: clone_bytes(&s.last_digest),
    }
}

/// Whether the keys' digests are exactly the committed next-key digests.
fn commitment_matches(keys: &Vec<KeyCommitment>, digs: &Vec<Vec<u8>>) -> (r: bool)
    ensures
        r == (key_digests(keys@.map_values(|k: KeyCommitment| k@)) == digs@.map_values(
            |d: Vec<u8>| d@,
        )),
{
    let ghost keysm = keys@.map_values(|k: KeyCommitment| k@);
    let ghost digsm = digs@.map_values(|d: Vec<u8>| d@);
    if keys.len() != digs.len() {
        assert(key_digests(keysm).len() != digsm.len());
        return false;
    }
    let mut i: usize = 0;
    while i < keys.len()
        invariant
            i <= keys.len(),
            keys@.len() == digs@.len(),
            keysm == keys@.map_values(|k: KeyCommitment| k@),
            digsm == digs@.map_values(|d: Vec<u8>| d@),
            forall|j: int| 0 <= j < i ==> key_digests(keysm)[j] == digsm[j],
        decreases keys.len() - i,
    {
        let d = digest_bytes(keys[i].bytes.as_slice());
        if !bytes_eq(&d, &digs[i]) {
            assert(key_digests(keysm)[i as int] != digsm[i as int]);
            return false;
        }
        i = i + 1;
    }
    assert(key_digests(keysm) =~= digsm);
    true
}

/// The state an accepted event leaves behind, as a value.
fn make_state(e: &KeyEvent) -> (r: KeyState)
    ensures
        r@ == state_after(e@),
{
    let bytes = event_bytes(e);
    let dig = digest_bytes(bytes.as_slice());
    KeyState {
        identifier: clone_bytes(&e.identifier),
        current_keys: clone_keys(&e.current_keys),
        next_digests: clone_digests(&e.next_digests),
        threshold: e.threshold,
        sequence: e.sequence,
        last_digest: dig,
    }
}

/// One derivation step: validate that `e` extends the state `st` and
/// produce the updated state, or reject it exactly as `apply_m` says.
pub fn apply_event(st: Option<&KeyState>, e: &KeyEvent) -> (r: Result<KeyState, ProcessError>)
    ensures
        r matches Ok(s2) ==> apply_m(opt_state_view(st), e@) == Ok::<StateM, ProcessError>(s2@),
        r matches Err(er) ==> apply_m(opt_state_view(st), e@) == Err::<StateM, ProcessError>(er),
{
    match st {
        None => {
            if matches!(e.kind, EventKind::Rotation) {
                Err(ProcessError::UnknownIdentifier)
            } else if e.sequence == 0 && e.prior_digest.is_none() {
                Ok(make_state(e))
            } else {
                Err(ProcessError::SequenceError)
            }
        },
        Some(s) => {
            let prior_ok = match &e.prior_digest {
                Some(d) => bytes_eq(d, &s.last_digest),
                None => false,
            };
            let chain_ok = matches!(e.kind, EventKind::Rotation) && bytes_eq(
                &e.identifier,
                &s.identifier,
            ) && e.sequence >= 1 && e.sequence - 1 == s.sequence && prior_ok;
            if !chain_ok {
                assert(!rotation_extends(s@, e@));
                Err(ProcessError::SequenceError)
            } else if !commitment_matches(&e.current_keys, &s.next_digests) {
                Err(ProcessError::RotationCommitmentMismatch)
            } else {
                Ok(make_state(e))
            }
        },
    }
}

/// Derive the key state by folding the ordered chain from the empty
/// state, rejecting at the first invalid event.
pub fn derive_key_state(events: &Vec<SignedEvent>) -> (r: Result<Option<KeyState>, ProcessError>)
    ensures
        r matches Ok(Some(s)) ==> spec_fold(chain_of(events@)) == Ok::<Option<StateM>, ProcessError>(
            Some(s@),
        ),
        r matches Ok(None) ==> spec_fold(chain_of(events@)) == Ok::<Option<StateM>, ProcessError>(
            None,
        ),
        r matches Err(er) ==> spec_fold(chain_of(events@)) == Err::<Option<StateM>, ProcessError>(
            er,
        ),
{
    let ghost chain = chain_of(events@);
    let mut st: Option<KeyState> = None;
    let mut i: usize = 0;
    while i < events.len()
        invariant
            i <= events.len(),
            chain == chain_of(events@),
            st matches Some(s) ==> spec_fold(chain.subrange(0, i as int)) == Ok::<
                Option<StateM>,
                ProcessError,
            >(Some(s@)),
            st is None ==> spec_fold(chain.subrange(0, i as int)) == Ok::<
                Option<StateM>,
                ProcessError,
            >(None),
        decreases events.len() - i,
    {
        let step = apply_event(st.as_ref(), &events[i].event);
        proof {
            assert(chain.subrange(0, i + 1).drop_last() =~= chain.subrange(0, i as int));
            assert(chain.subrange(0, i + 1).last() == events@[i as int].event@);
        }
        match step {
            Ok(s2) => {
                st = Some(s2);
            },
            Err(er) => {
                proof {
                    lemma_fold_err_prefix(chain, i + 1);
                }
                return Err(er);
            },
        }
        i = i + 1;
    }
    assert(chain.subrange(0, chain.len() as int) =~= chain);
    Ok(st)
}

/// A chain whose prefix is rejected is rejected at that prefix's error:
/// later events cannot repair it.
pub proof fn lemma_fold_err_prefix(es: Seq<EventM>, i: int)
    requires
        0 <= i <= es.len(),
        spec_fold(es.subrange(0, i)) is Err,
    ensures
        spec_fold(es) == spec_fold(es.subrange(0, i)),
    decreases es.len() - i,
{
    if i < es.len() {
        assert(es.subrange(0, i + 1).drop_last() =~= es.subrange(0, i));
        lemma_fold_err_prefix(es, i + 1);
    } else {
        assert(es.subrange(0, es.len() as int) =~= es);
    }
}

/// Immediately after a valid inception, the derived state carries exactly
/// the keys, next-key commitments and threshold the event declares, at
/// sequence 0.
pub proof fn lemma_inception_establishes_declared_state(e: EventM)
    requires
        apply_m(None, e) is Ok,
    ensures
        apply_m(None, e).unwrap().current_keys == e.current_keys,
        apply_m(None, e).unwrap().next_digests == e.next_digests,
        apply_m(None, e).unwrap().threshold == e.threshold,
        apply_m(None, e).unwrap().sequence == 0,
{
}

/// An accepted rotation reveals exactly the keys whose digests the prior
/// state had committed to: the pre-rotation commitment round-trips.
pub proof fn lemma_rotation_reveals_committed_keys(s: StateM, e: EventM)
    requires
        apply_m(Some(s), e) is Ok,
    ensures
        key_digests(apply_m(Some(s), e).unwrap().current_keys) == s.next_digests,
        apply_m(Some(s), e).unwrap().sequence == s.sequence + 1,
{
}

/// A rotation whose revealed keys do not match the committed next-key
/// digests is always rejected with `RotationCommitmentMismatch`, whatever
/// else it carries, and derivation yields no new state.
pub proof fn lemma_commitment_mismatch_rejected(s: StateM, e: EventM)
    requires
        rotation_extends(s, e),
        key_digests(e.current_keys) != s.next_digests,
    ensures
        apply_m(Some(s), e) == Err::<StateM, ProcessError>(
            ProcessError::RotationCommitmentMismatch,
        ),
{
}

/// In a chain the fold accepts, events sit at their own sequence numbers:
/// event `j` has sequence `j` and the common identifier, and the derived
/// state's sequence is the chain's length minus one.
#[verifier::rlimit(50)]
pub proof fn lemma_fold_chain_shape(es: Seq<EventM>)
    requires
        spec_fold(es) matches Ok(st) && st is Some,
    ensures
        es.len() > 0,
        spec_fold(es).unwrap().unwrap().sequence == es.len() - 1,
        forall|j: int| 0 <= j < es.len() ==> #[trigger] es[j].sequence == j,
        forall|j: int|
            0 <= j < es.len() ==> #[trigger] es[j].identifier == spec_fold(
                es,
            ).unwrap().unwrap().identifier,
    decreases es.len(),
{
    let s = spec_fold(es).unwrap().unwrap();
    let e = es.last();
    let prefix = es.drop_last();
    assert(spec_fold(prefix) is Ok);
    let st0 = spec_fold(prefix).unwrap();
    match st0 {
        Some(s0) => {
            lemma_fold_chain_shape(prefix);
            assert(apply_m(Some(s0), e) == Ok::<StateM, ProcessError>(s));
            assert(rotation_extends(s0, e));
            assert(s.sequence == s0.sequence + 1);
            assert(s.identifier == s0.identifier);
            assert(forall|j: int| 0 <= j < prefix.len() ==> #[trigger] es[j].sequence == prefix[j].sequence);
            assert(forall|j: int|
                0 <= j < prefix.len() ==> #[trigger] es[j].identifier == prefix[j].identifier);
        },
        None => {
            assert(prefix.len() == 0);
            assert(apply_m(None, e) == Ok::<StateM, ProcessError>(s));
            assert(inception_shape(e));
        },
    }
}

/// Replaying any prefix of an accepted chain succeeds: derivation can be
/// restarted from sequence 0 and recover a state at every prefix length.
pub proof fn lemma_replay_any_prefix(es: Seq<EventM>, n: int)
    requires
        0 <= n <= es.len(),
        spec_fold(es) is Ok,
    ensures
        spec_fold(es.subrange(0, n)) is Ok,
{
    if spec_fold(es.subrange(0, n)) is Err {
        lemma_fold_err_prefix(es, n);
    }
}

} // verus!
