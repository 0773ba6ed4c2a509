//! Key events, their mathematical model, and canonical serialization.
use vstd::prelude::*;

use crate::crypto::digest_bytes;
use crate::crypto::digest_of;

verus! {

/// The signing scheme a key commitment is tagged with.
#[derive(Clone, Copy, Debug, PartialEq, Eq, Structural)]
pub enum SigScheme {
    Ed25519,
}

/// Which kind of key event this is.
#[derive(Clone, Copy, Debug, PartialEq, Eq, Structural)]
pub enum EventKind {
    Inception,
    Rotation,
}

/// A signing-key commitment: public key material plus its scheme tag.
pub struct KeyCommitment {
    pub scheme: SigScheme,
    pub bytes: Vec<u8>,
}

/// Model of a key commitment.
pub ghost struct KeyM {
    pub scheme: SigScheme,
    pub bytes: Seq<u8>,
}

impl View for KeyCommitment {
    type V = KeyM;

    open spec fn view(&self) -> KeyM {
        KeyM { scheme: self.scheme, bytes: self.bytes@ }
    }
}

/// One event of a key event log.
pub struct KeyEvent {
    pub kind: EventKind,
    /// The identifier whose log this event belongs to. For an inception it
    /// is the digest of the event's own canonical bytes (self-certifying).
    pub identifier: Vec<u8>,
    /// Position in the gapless chain; 0 for inception.
    pub sequence: u64,
    /// Digest of the canonical bytes of the immediately preceding event;
    /// absent exactly for inception.
    pub prior_digest: Option<Vec<u8>>,
    /// The keys authorized to sign from this event on.
    pub current_keys: Vec<KeyCommitment>,
    /// Digests of the public keys pre-committed for the next rotation.
    pub next_digests: Vec<Vec<u8>>,
    /// How many distinct valid signatures an event signed by
    /// `current_keys` needs.
    pub threshold: u64,
}

/// Model of a key event.
pub ghost struct EventM {
    pub kind: EventKind,
    pub identifier: Seq<u8>,
    pub sequence: int,
    pub prior_digest: Option<Seq<u8>>,
    pub current_keys: Seq<KeyM>,
    pub next_digests: Seq<Seq<u8>>,
    pub threshold: int,
}

impl View for KeyEvent {
    type V = EventM;

    open spec fn view(&self) -> EventM {
        EventM {
            kind: self.kind,
            identifier: self.identifier@,
            sequence: self.sequence as int,
            prior_digest: match self.prior_digest {
                Some(d) => Some(d@),
                None => None,
            },
            current_keys: self.current_keys@.map_values(|k: KeyCommitment| k@),
            next_digests: self.next_digests@.map_values(|d: Vec<u8>| d@),
            threshold: self.threshold as int,
        }
    }
}

/// A signature bound to the index of the signing key it corresponds to
/// within the event's current-key set.
pub struct IndexedSig {
    pub index: u64,
    pub sig: Vec<u8>,
}

/// Model of an indexed signature.
pub ghost struct SigM {
    pub index: int,
    pub sig: Seq<u8>,
}

impl View for IndexedSig {
    type V = SigM;

    open spec fn view(&self) -> SigM {
        SigM { index: self.index as int, sig: self.sig@ }
    }
}

/// A key event together with its indexed signatures.
pub struct SignedEvent {
    pub event: KeyEvent,
    pub signatures: Vec<IndexedSig>,
}

/// Model of a signed event.
pub ghost struct SignedM {
    pub event: EventM,
    pub signatures: Seq<SigM>,
}

impl View for SignedEvent {
    type V = SignedM;

    open spec fn view(&self) -> SignedM {
        SignedM {
            event: self.event@,
            signatures: self.signatures@.map_values(|s: IndexedSig| s@),
        }
    }
}

/// The eight little-endian base-256 digits of `n`.
pub open spec fn u64_bytes(n: u64) -> Seq<u8> {
    seq![
        (n % 256) as u8,
        ((n / 256) % 256) as u8,
        ((n / 65536) % 256) as u8,
        ((n / 16777216) % 256) as u8,
        ((n / 4294967296) % 256) as u8,
        ((n / 1099511627776) % 256) as u8,
        ((n / 281474976710656) % 256) as u8,
        ((n / 72057594037927936) % 256) as u8,
    ]
}

/// A byte string prefixed with its length.
pub open spec fn length_prefixed(s: Seq<u8>) -> Seq<u8> {
    u64_bytes(s.len() as u64) + s
}

/// One byte for the scheme tag.
pub open spec fn scheme_byte(s: SigScheme) -> Seq<u8> {
    seq![1u8]
}

/// Canonical bytes of one key commitment.
pub open spec fn key_bytes_m(k: KeyM) -> Seq<u8> {
    scheme_byte(k.scheme) + length_prefixed(k.bytes)
}

/// Canonical bytes of a list of key commitments, in order.
pub open spec fn keys_bytes_m(ks: Seq<KeyM>) -> Seq<u8>
    decreases ks.len(),
{
    if ks.len() == 0 {
        Seq::<u8>::empty()
    } else {
        keys_bytes_m(ks.drop_last()) + key_bytes_m(ks.last())
    }
}

/// Canonical bytes of a list of digests, in order.
pub open spec fn digests_bytes_m(ds: Seq<Seq<u8>>) -> Seq<u8>
    decreases ds.len(),
{
    if ds.len() == 0 {
        Seq::<u8>::empty()
    } else {
        digests_bytes_m(ds.drop_last()) + length_prefixed(ds.last())
    }
}

/// One byte for the event kind.
pub open spec fn kind_byte(k: EventKind) -> Seq<u8> {
    match k {
        EventKind::Inception => seq![1u8],
        EventKind::Rotation => seq![2u8],
    }
}

/// Canonical bytes of the optional previous-event digest.
pub open spec fn prior_bytes_m(p: Option<Seq<u8>>) -> Seq<u8> {
    match p {
        None => seq![0u8],
        Some(d) => seq![1u8] + length_prefixed(d),
    }
}

/// The canonical, deterministic serialization of a key event: a function
/// of the event's logical content alone, so identical content always
/// yields identical bytes. An inception's identifier is excluded, since it
/// is itself the digest of these bytes.
#[verifier::opaque]
pub open spec fn spec_event_bytes(e: EventM) -> Seq<u8> {
    kind_byte(e.kind) + u64_bytes(e.sequence as u64) + u64_bytes(e.threshold as u64) + (match e.kind {
        EventKind::Inception => Seq::<u8>::empty(),
        EventKind::Rotation => length_prefixed(e.identifier),
    }) + prior_bytes_m(e.prior_digest) + u64_bytes(e.current_keys.len() as u64)
        + keys_bytes_m(e.current_keys) + u64_bytes(e.next_digests.len() as u64)
        + digests_bytes_m(e.next_digests)
}

/// The identifier an inception event with this content certifies: the
/// digest of its own canonical bytes.
pub open spec fn spec_inception_identifier(
    current_keys: Seq<KeyM>,
    next_digests: Seq<Seq<u8>>,
    threshold: int,
) -> Seq<u8> {
    digest_of(
        spec_event_bytes(
            EventM {
                kind: EventKind::Inception,
                identifier: Seq::<u8>::empty(),
                sequence: 0,
                prior_digest: None,
                current_keys: current_keys,
                next_digests: next_digests,
                threshold: threshold,
            },
        ),
    )
}

/// Append the eight little-endian base-256 digits of `n` to `out`.
fn push_u64(out: &mut Vec<u8>, n: u64)
    ensures
        final(out)@ == old(out)@ + u64_bytes(n),
{
    out.push((n % 256) as u8);
    out.push(((n / 256) % 256) as u8);
    out.push(((n / 65536) % 256) as u8);
    out.push(((n / 16777216) % 256) as u8);
    out.push(((n / 4294967296) % 256) as u8);
    out.push(((n / 1099511627776) % 256) as u8);
    out.push(((n / 281474976710656) % 256) as u8);
    out.push(((n / 72057594037927936) % 256) as u8);
    assert(out@ =~= old(out)@ + u64_bytes(n));
}

/// Append `s`, prefixed with its length, to `out`.
fn push_length_prefixed(out: &mut Vec<u8>, s: &Vec<u8>)
    ensures
        final(out)@ == old(out)@ + length_prefixed(s@),
{
    push_u64(out, s.len() as u64);
    let mut i: usize = 0;
    while i < s.len()
        invariant
            i <= s.len(),
            out@ == old(out)@ + u64_bytes(s@.len() as u64) + s@.subrange(0, i as int),
        decreases s.len() - i,
    {
        out.push(s[i]);
        i = i + 1;
        assert(out@ =~= old(out)@ + u64_bytes(s@.len() as u64) + s@.subrange(0, i as int));
    }
    assert(s@.subrange(0, s@.len() as int) =~= s@);
    assert(out@ =~= old(out)@ + length_prefixed(s@));
}

/// Append the canonical bytes of the key commitments, in order.
fn push_keys(out: &mut Vec<u8>, ks: &Vec<KeyCommitment>)
    ensures
        final(out)@ == old(out)@ + keys_bytes_m(ks@.map_values(|k: KeyCommitment| k@)),
{
    let ghost ksm = ks@.map_values(|k: KeyCommitment| k@);
    let mut i: usize = 0;
    while i < ks.len()
        invariant
            i <= ks.len(),
            ksm == ks@.map_values(|k: KeyCommitment| k@),
            out@ == old(out)@ + keys_bytes_m(ksm.subrange(0, i as int)),
        decreases ks.len() - i,
    {
        out.push(1u8);
        push_length_prefixed(out, &ks[i].bytes);
        i = i + 1;
        assert(ksm.subrange(0, i as int).drop_last() =~= ksm.subrange(0, i - 1));
        assert(out@ =~= old(out)@ + keys_bytes_m(ksm.subrange(0, i as int)));
    }
    assert(ksm.subrange(0, ksm.len() as int) =~= ksm);
}

/// Append the canonical bytes of the digests, in order.
fn push_digests(out: &mut Vec<u8>, ds: &Vec<Vec<u8>>)
    ensures
        final(out)@ == old(out)@ + digests_bytes_m(ds@.map_values(|d: Vec<u8>| d@)),
{
    let ghost dsm = ds@.map_values(|d: Vec<u8>| d@);
    let mut i: usize = 0;
    while i < ds.len()
        invariant
            i <= ds.len(),
            dsm == ds@.map_values(|d: Vec<u8>| d@),
            out@ == old(out)@ + digests_bytes_m(dsm.subrange(0, i as int)),
        decreases ds.len() - i,
    {
        push_length_prefixed(out, &ds[i]);
        i = i + 1;
        assert(dsm.subrange(0, i as int).drop_last() =~= dsm.subrange(0, i - 1));
        assert(out@ =~= old(out)@ + digests_bytes_m(dsm.subrange(0, i as int)));
    }
    assert(dsm.subrange(0, dsm.len() as int) =~= dsm);
}

/// The canonical bytes of `e`: exactly `spec_event_bytes(e@)`.
pub fn event_bytes(e: &KeyEvent) -> (r: Vec<u8>)
    ensures
        r@ == spec_event_bytes(e@),
{
    let mut out: Vec<u8> = Vec::new();
    match e.kind {
        EventKind::Inception => out.push(1u8),
        EventKind::Rotation => out.push(2u8),
    }
    push_u64(&mut out, e.sequence);
    push_u64(&mut out, e.threshold);
    match e.kind {
        EventKind::Inception => {},
        EventKind::Rotation => push_length_prefixed(&mut out, &e.identifier),
    }
    match &e.prior_digest {
        None => out.push(0u8),
        Some(d) => {
            out.push(1u8);
            push_length_prefixed(&mut out, d);
        },
    }
    push_u64(&mut out, e.current_keys.len() as u64);
    push_keys(&mut out, &e.current_keys);
    push_u64(&mut out, e.next_digests.len() as u64);
    push_digests(&mut out, &e.next_digests);
    proof {
        reveal(spec_event_bytes);
        assert(out@ =~= spec_event_bytes(e@));
    }
    out
}

/// Build an unsigned inception event from the declared keys, next-key
/// commitments and threshold; its identifier is the digest of its own
/// canonical bytes.
pub fn build_inception(
    current_keys: Vec<KeyCommitment>,
    next_digests: Vec<Vec<u8>>,
    threshold: u64,
) -> (r: KeyEvent)
    ensures
        r.kind == EventKind::Inception,
        r@.sequence == 0,
        r@.prior_digest is None,
        r@.current_keys == current_keys@.map_values(|k: KeyCommitment| k@),
        r@.next_digests == next_digests@.map_values(|d: Vec<u8>| d@),
        r@.threshold == threshold as int,
        r@.identifier == spec_inception_identifier(
            current_keys@.map_values(|k: KeyCommitment| k@),
            next_digests@.map_values(|d: Vec<u8>| d@),
            threshold as int,
        ),
{
    let mut e = KeyEvent {
        kind: EventKind::Inception,
        identifier: Vec::new(),
        sequence: 0,
        prior_digest: None,
        current_keys,
        next_digests,
        threshold,
    };
    let bytes = event_bytes(&e);
    let identifier = digest_bytes(bytes.as_slice());
    e.identifier = identifier;
    e
}

/// Build an unsigned rotation event extending the event with digest
/// `prior_digest` at position `sequence` in `identifier`'s log.
pub fn build_rotation(
    identifier: Vec<u8>,
    prior_digest: Vec<u8>,
    sequence: u64,
    current_keys: Vec<KeyCommitment>,
    next_digests: Vec<Vec<u8>>,
    threshold: u64,
) -> (r: KeyEvent)
    ensures
        r.kind == EventKind::Rotation,
        r@.identifier == identifier@,
        r@.sequence == sequence as int,
        r@.prior_digest == Some(prior_digest@),
        r@.current_keys == current_keys@.map_values(|k: KeyCommitment| k@),
        r@.next_digests == next_digests@.map_values(|d: Vec<u8>| d@),
        r@.threshold == threshold as int,
{
    KeyEvent {
        kind: EventKind::Rotation,
        identifier,
        sequence,
        prior_digest: Some(prior_digest),
        current_keys,
        next_digests,
        threshold,
    }
}

} // verus!
