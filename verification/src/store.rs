//! The append-only event store: durable record of signed events and
//! receipts, keyed by (identifier, sequence number).
use vstd::prelude::*;

use crate::errors::ProcessError;
use crate::errors::StoreError;
use crate::state::KeyState;
use crate::state::StateM;
use crate::state::bytes_eq;
use crate::state::chain_of;
use crate::state::chain_of_m;
use crate::state::derive_key_state;
use crate::state::spec_fold;
use crate::state::clone_bytes;
use crate::state::clone_keys;
use crate::state::clone_digests;
use crate::event::IndexedSig;
use crate::event::KeyEvent;
use crate::event::SignedEvent;
use crate::event::SignedM;

verus! {

/// Who issued a receipt: another self-certifying identifier with a log of
/// its own, or a fixed witness key without one.
#[derive(Clone, Copy, Debug, PartialEq, Eq, Structural)]
pub enum ReceiptKind {
    Transferable,
    NonTransferable,
}

/// Corroborating signed evidence that a witness or peer observed the
/// event at (identifier, sequence). Receipts never advance key state.
pub struct Receipt {
    pub identifier: Vec<u8>,
    pub sequence: u64,
    pub kind: ReceiptKind,
    pub bytes: Vec<u8>,
}

/// Model of a receipt.
pub ghost struct ReceiptM {
    pub identifier: Seq<u8>,
    pub sequence: int,
    pub kind: ReceiptKind,
    pub bytes: Seq<u8>,
}

impl View for Receipt {
    type V = ReceiptM;

    open spec fn view(&self) -> ReceiptM {
        ReceiptM {
            identifier: self.identifier@,
            sequence: self.sequence as int,
            kind: self.kind,
            bytes: self.bytes@,
        }
    }
}

/// Which part of a log a query asks for.
#[derive(Clone, Copy, Debug, PartialEq, Eq, Structural)]
pub enum QueryRange {
    All,
    BySequence(u64),
    Since(u64),
}

/// Whether a sequence number falls inside the queried range.
pub open spec fn in_range(r: QueryRange, seq: int) -> bool {
    match r {
        QueryRange::All => true,
        QueryRange::BySequence(n) => seq == n as int,
        QueryRange::Since(n) => seq >= n as int,
    }
}

/// All stored events of one identifier, ordered by sequence number.
pub struct IdentifierLog {
    pub identifier: Vec<u8>,
    pub events: Vec<SignedEvent>,
}

/// Model of one identifier's log.
pub ghost struct LogM {
    pub identifier: Seq<u8>,
    pub events: Seq<SignedM>,
}

impl View for IdentifierLog {
    type V = LogM;

    open spec fn view(&self) -> LogM {
        LogM {
            identifier: self.identifier@,
            events: self.events@.map_values(|se: SignedEvent| se@),
        }
    }
}

/// The event store: per-identifier logs plus a receipt journal.
pub struct EventStore {
    pub logs: Vec<IdentifierLog>,
    pub receipts: Vec<Receipt>,
}

/// Model of the store.
pub ghost struct StoreM {
    pub logs: Seq<LogM>,
    pub receipts: Seq<ReceiptM>,
}

impl View for EventStore {
    type V = StoreM;

    open spec fn view(&self) -> StoreM {
        StoreM {
            logs: self.logs@.map_values(|l: IdentifierLog| l@),
            receipts: self.receipts@.map_values(|r: Receipt| r@),
        }
    }
}

/// One log is internally consistent: every event carries the log's
/// identifier, and sequence numbers strictly increase along it.
pub open spec fn log_wf(l: LogM) -> bool {
    &&& forall|k: int| 0 <= k < l.events.len() ==> (#[trigger] l.events[k]).event.identifier
        == l.identifier
    &&& forall|k1: int, k2: int|
        0 <= k1 < k2 < l.events.len() ==> (#[trigger] l.events[k1]).event.sequence < (
        #[trigger] l.events[k2]).event.sequence
}

/// The store invariant: identifiers name at most one log, and each log is
/// internally consistent. Strict ordering makes (identifier, sequence)
/// unique, which is what serializes writers per identifier.
pub open spec fn wf(s: StoreM) -> bool {
    &&& forall|i: int, j: int|
        0 <= i < s.logs.len() && 0 <= j < s.logs.len() && i != j ==> (
        #[trigger] s.logs[i]).identifier != (#[trigger] s.logs[j]).identifier
    &&& forall|i: int| 0 <= i < s.logs.len() ==> log_wf(#[trigger] s.logs[i])
}

/// Whether some log is recorded under `id`.
pub open spec fn has_log(s: StoreM, id: Seq<u8>) -> bool {
    exists|i: int| 0 <= i < s.logs.len() && (#[trigger] s.logs[i]).identifier == id
}

/// The position of `id`'s log.
pub open spec fn log_index(s: StoreM, id: Seq<u8>) -> int {
    choose|i: int| 0 <= i < s.logs.len() && (#[trigger] s.logs[i]).identifier == id
}

/// The stored events of `id`, in sequence order; empty if none.
pub open spec fn events_of(s: StoreM, id: Seq<u8>) -> Seq<SignedM> {
    if has_log(s, id) {
        s.logs[log_index(s, id)].events
    } else {
        Seq::<SignedM>::empty()
    }
}

/// Whether an event is recorded at (identifier, sequence).
pub open spec fn has_event(s: StoreM, id: Seq<u8>, seq: int) -> bool {
    exists|k: int|
        0 <= k < events_of(s, id).len() && (#[trigger] events_of(s, id)[k]).event.sequence == seq
}

/// In a well-formed store, any log position holding `id` is the one
/// `events_of` reads.
pub proof fn lemma_log_index_unique(s: StoreM, id: Seq<u8>, i: int)
    requires
        wf(s),
        0 <= i < s.logs.len(),
        s.logs[i].identifier == id,
    ensures
        has_log(s, id),
        log_index(s, id) == i,
        events_of(s, id) == s.logs[i].events,
{
    assert(has_log(s, id));
    let c = log_index(s, id);
    assert(0 <= c < s.logs.len() && s.logs[c].identifier == id);
    if c != i {
        assert(s.logs[c].identifier != s.logs[i].identifier);
    }
}

impl EventStore {
    /// An empty store.
    pub fn new() -> (r: EventStore)
        ensures
            wf(r@),
            r@.logs.len() == 0,
            r@.receipts.len() == 0,
    {
        EventStore { logs: Vec::new(), receipts: Vec::new() }
    }

    /// Record a signed event under its (identifier, sequence) slot.
    /// Append-only: nothing is ever updated or deleted, and the write
    /// either fully succeeds or leaves the store exactly as it was, so of
    /// two appends racing for one slot exactly one succeeds and the other
    /// is rejected with `DuplicateSequence`.
    pub fn append_event(&mut self, ev: SignedEvent) -> (r: Result<(), StoreError>)
        requires
            wf(old(self)@),
        ensures
            wf(final(self)@),
            r is Ok <==> !has_event(old(self)@, ev@.event.identifier, ev@.event.sequence),
            r matches Err(e) ==> e == StoreError::DuplicateSequence && final(self)@ == old(self)@,
            r is Ok ==> final(self)@.receipts == old(self)@.receipts,
            r is Ok ==> (exists|pos: int|
                0 <= pos <= events_of(old(self)@, ev@.event.identifier).len() && events_of(
                    final(self)@,
                    ev@.event.identifier,
                ) == events_of(old(self)@, ev@.event.identifier).insert(pos, ev@)),
            r is Ok ==> (forall|id2: Seq<u8>|
                id2 != ev@.event.identifier ==> events_of(final(self)@, id2) == events_of(
                    old(self)@,
                    id2,
                )),
            r is Ok && (forall|k: int|
                0 <= k < events_of(old(self)@, ev@.event.identifier).len() ==> (
                #[trigger] events_of(old(self)@, ev@.event.identifier)[k]).event.sequence
                    < ev@.event.sequence) ==> events_of(final(self)@, ev@.event.identifier)
                == events_of(old(self)@, ev@.event.identifier).push(ev@),
    {
        let ghost oldm = self@;
        let ghost id = ev@.event.identifier;
        let n = self.logs.len();
        let mut i: usize = 0;
        while i < n
            invariant
                n == self.logs@.len(),
                i <= n,
                forall|j: int| 0 <= j < i ==> (#[trigger] self@.logs[j]).identifier != id,
                self@ == oldm,
                oldm == old(self)@,
                wf(oldm),
                ev@.event.identifier == id,
            decreases n - i,
        {
            if bytes_eq(&self.logs[i].identifier, &ev.event.identifier) {
                proof {
                    lemma_log_index_unique(oldm, id, i as int);
                }
                return self.append_into_log(i, ev);
            }
            i = i + 1;
        }
        // No log yet for this identifier: start one with this event.
        proof {
            assert(!has_log(oldm, id));
            assert(events_of(oldm, id) =~= Seq::<SignedM>::empty());
            assert(!has_event(oldm, id, ev@.event.sequence));
        }
        let identifier = clone_bytes(&ev.event.identifier);
        let mut events: Vec<SignedEvent> = Vec::new();
        events.push(ev);
        self.logs.push(IdentifierLog { identifier, events });
        proof {
            let newm = self@;
            let ln = newm.logs.len() - 1;
            assert(newm.logs[ln].identifier == id);
            assert(newm.logs[ln].events =~= Seq::<SignedM>::empty().push(ev@));
            assert(forall|j: int| 0 <= j < ln ==> newm.logs[j] == oldm.logs[j]);
            assert(log_wf(newm.logs[ln]));
            assert(wf(newm));
            lemma_log_index_unique(newm, id, ln);
            assert(events_of(newm, id) == events_of(oldm, id).insert(0, ev@)) by {
                assert(events_of(oldm, id).insert(0, ev@) =~= Seq::<SignedM>::empty().push(ev@));
            }
            assert(events_of(newm, id) == events_of(oldm, id).push(ev@)) by {
                assert(events_of(oldm, id).push(ev@) =~= Seq::<SignedM>::empty().push(ev@));
            }
            assert forall|id2: Seq<u8>| id2 != id implies events_of(newm, id2) == events_of(
                oldm,
                id2,
            ) by {
                lemma_other_logs_unchanged(oldm, newm, id, id2, ln);
            }
        }
        Ok(())
    }

    /// Insert `ev` into the log at position `i`, keeping sequence order,
    /// unless its sequence number is already taken.
    fn append_into_log(&mut self, i: usize, ev: SignedEvent) -> (r: Result<(), StoreError>)
        requires
            wf(old(self)@),
            i < old(self)@.logs.len(),
            old(self)@.logs[i as int].identifier == ev@.event.identifier,
        ensures
            wf(final(self)@),
            r is Ok <==> !has_event(old(self)@, ev@.event.identifier, ev@.event.sequence),
            r matches Err(e) ==> e == StoreError::DuplicateSequence && final(self)@ == old(self)@,
            r is Ok ==> final(self)@.receipts == old(self)@.receipts,
            r is Ok ==> (exists|pos: int|
                0 <= pos <= events_of(old(self)@, ev@.event.identifier).len() && events_of(
                    final(self)@,
                    ev@.event.identifier,
                ) == events_of(old(self)@, ev@.event.identifier).insert(pos, ev@)),
            r is Ok ==> (forall|id2: Seq<u8>|
                id2 != ev@.event.identifier ==> events_of(final(self)@, id2) == events_of(
                    old(self)@,
                    id2,
                )),
            r is Ok && (forall|k: int|
                0 <= k < events_of(old(self)@, ev@.event.identifier).len() ==> (
                #[trigger] events_of(old(self)@, ev@.event.identifier)[k]).event.sequence
                    < ev@.event.sequence) ==> events_of(final(self)@, ev@.event.identifier)
                == events_of(old(self)@, ev@.event.identifier).push(ev@),
    {
        let ghost oldm = self@;
        let ghost id = ev@.event.identifier;
        let ghost evs = oldm.logs[i as int].events;
        proof {
            lemma_log_index_unique(oldm, id, i as int);
        }
        let len = self.logs[i].events.len();
        let mut pos: usize = 0;
        while pos < len && self.logs[i].events[pos].event.sequence < ev.event.sequence
            invariant
                self@ == oldm,
                i < self.logs@.len(),
                len == evs.len(),
                evs == oldm.logs[i as int].events,
                pos <= len,
                forall|k: int| 0 <= k < pos ==> (#[trigger] evs[k]).event.sequence
                    < ev@.event.sequence,
                ev@.event.identifier == id,
            decreases len - pos,
        {
            pos = pos + 1;
        }
        if pos < len && self.logs[i].events[pos].event.sequence == ev.event.sequence {
            proof {
                assert(evs[pos as int].event.sequence == ev@.event.sequence);
                assert(has_event(oldm, id, ev@.event.sequence));
            }
            return Err(StoreError::DuplicateSequence);
        }
        proof {
            // Every stored sequence differs: before `pos` they are
            // smaller, from `pos` on they are larger.
            assert(log_wf(oldm.logs[i as int]));
            assert forall|k: int| pos <= k < len implies (#[trigger] evs[k]).event.sequence
                > ev@.event.sequence by {
                if pos < len {
                    assert(evs[pos as int].event.sequence > ev@.event.sequence);
                    if k > pos {
                        assert(evs[pos as int].event.sequence < evs[k].event.sequence);
                    }
                }
            }
            assert(!has_event(oldm, id, ev@.event.sequence));
        }
        let log = &mut self.logs[i];
        log.events.insert(pos, ev);
        proof {
            let newm = self@;
            assert(newm.logs[i as int].identifier == id);
            assert(newm.logs[i as int].events =~= evs.insert(pos as int, ev@));
            assert(forall|j: int|
                0 <= j < newm.logs.len() && j != i ==> newm.logs[j] == oldm.logs[j]);
            lemma_insert_keeps_log_wf(oldm.logs[i as int], ev@, pos as int);
            assert(log_wf(newm.logs[i as int]));
            assert(wf(newm));
            lemma_log_index_unique(newm, id, i as int);
            assert(events_of(newm, id) == events_of(oldm, id).insert(pos as int, ev@));
            if (forall|k: int| 0 <= k < evs.len() ==> (#[trigger] evs[k]).event.sequence
                < ev@.event.sequence) {
                assert(pos == len);
                assert(evs.insert(pos as int, ev@) =~= evs.push(ev@));
            }
            assert forall|id2: Seq<u8>| id2 != id implies events_of(newm, id2) == events_of(
                oldm,
                id2,
            ) by {
                lemma_other_logs_unchanged(oldm, newm, id, id2, i as int);
            }
        }
        Ok(())
    }

    /// The stored events of `identifier` whose sequence numbers fall in
    /// `range`, ordered by sequence number; finite, and rebuilt afresh on
    /// every call.
    pub fn query_events(&self, identifier: &Vec<u8>, range: QueryRange) -> (r: Vec<SignedEvent>)
        requires
            wf(self@),
        ensures
            r@.map_values(|se: SignedEvent| se@) == filter_events(
                events_of(self@, identifier@),
                range,
            ),
    {
        let ghost id = identifier@;
        let n = self.logs.len();
        let mut i: usize = 0;
        while i < n
            invariant
                n == self.logs@.len(),
                i <= n,
                forall|j: int| 0 <= j < i ==> (#[trigger] self@.logs[j]).identifier != id,
                wf(self@),
                id == identifier@,
            decreases n - i,
        {
            if bytes_eq(&self.logs[i].identifier, identifier) {
                proof {
                    lemma_log_index_unique(self@, id, i as int);
                }
                return self.query_log_events(i, identifier, range);
            }
            i = i + 1;
        }
        proof {
            assert(!has_log(self@, id));
            assert(events_of(self@, id) =~= Seq::<SignedM>::empty());
        }
        let r: Vec<SignedEvent> = Vec::new();
        assert(r@.map_values(|se: SignedEvent| se@) =~= filter_events(
            events_of(self@, id),
            range,
        ));
        r
    }

    /// Collect the events of the log at position `i` that fall in `range`.
    fn query_log_events(&self, i: usize, identifier: &Vec<u8>, range: QueryRange) -> (r: Vec<
        SignedEvent,
    >)
        requires
            wf(self@),
            i < self@.logs.len(),
            self@.logs[i as int].identifier == identifier@,
        ensures
            r@.map_values(|se: SignedEvent| se@) == filter_events(
                events_of(self@, identifier@),
                range,
            ),
    {
        let ghost id = identifier@;
        let ghost evs = self@.logs[i as int].events;
        proof {
            lemma_log_index_unique(self@, id, i as int);
        }
        let len = self.logs[i].events.len();
        let mut out: Vec<SignedEvent> = Vec::new();
        let mut k: usize = 0;
        while k < len
            invariant
                i < self.logs@.len(),
                len == evs.len(),
                evs == self@.logs[i as int].events,
                k <= len,
                out@.map_values(|se: SignedEvent| se@) == filter_events(
                    evs.subrange(0, k as int),
                    range,
                ),
            decreases len - k,
        {
            let keep = match range {
                QueryRange::All => true,
                QueryRange::BySequence(n) => self.logs[i].events[k].event.sequence == n,
                QueryRange::Since(n) => self.logs[i].events[k].event.sequence >= n,
            };
            proof {
                assert(evs.subrange(0, k + 1).drop_last() =~= evs.subrange(0, k as int));
                assert(evs.subrange(0, k + 1).last() == evs[k as int]);
            }
            if keep {
                let c = clone_signed(&self.logs[i].events[k]);
                out.push(c);
                assert(out@.map_values(|se: SignedEvent| se@) =~= filter_events(
                    evs.subrange(0, k + 1),
                    range,
                ));
            } else {
                assert(out@.map_values(|se: SignedEvent| se@) =~= filter_events(
                    evs.subrange(0, k + 1),
                    range,
                ));
            }
            k = k + 1;
        }
        assert(evs.subrange(0, evs.len() as int) =~= evs);
        out
    }

    /// The stored receipts for `identifier` of the given kind whose
    /// sequence numbers fall in `range`, in stored order.
    pub fn query_receipts(&self, identifier: &Vec<u8>, kind: ReceiptKind, range: QueryRange) -> (r:
        Vec<Receipt>)
        ensures
            r@.map_values(|x: Receipt| x@) == filter_receipts(
                self@.receipts,
                identifier@,
                kind,
                range,
            ),
    {
        let ghost rs = self@.receipts;
        let len = self.receipts.len();
        let mut out: Vec<Receipt> = Vec::new();
        let mut k: usize = 0;
        while k < len
            invariant
                len == rs.len(),
                rs == self@.receipts,
                k <= len,
                out@.map_values(|x: Receipt| x@) == filter_receipts(
                    rs.subrange(0, k as int),
                    identifier@,
                    kind,
                    range,
                ),
            decreases len - k,
        {
            let rec = &self.receipts[k];
            let keep = bytes_eq(&rec.identifier, identifier) && rec.kind == kind && (match range {
                QueryRange::All => true,
                QueryRange::BySequence(n) => rec.sequence == n,
                QueryRange::Since(n) => rec.sequence >= n,
            });
            proof {
                assert(rs.subrange(0, k + 1).drop_last() =~= rs.subrange(0, k as int));
                assert(rs.subrange(0, k + 1).last() == rs[k as int]);
            }
            if keep {
                let c = clone_receipt(rec);
                out.push(c);
                assert(out@.map_values(|x: Receipt| x@) =~= filter_receipts(
                    rs.subrange(0, k + 1),
                    identifier@,
                    kind,
                    range,
                ));
            } else {
                assert(out@.map_values(|x: Receipt| x@) =~= filter_receipts(
                    rs.subrange(0, k + 1),
                    identifier@,
                    kind,
                    range,
                ));
            }
            k = k + 1;
        }
        assert(rs.subrange(0, rs.len() as int) =~= rs);
        out
    }

    /// Attach a receipt to the stored event it references; a receipt for
    /// an (identifier, sequence) with no event yet is rejected.
    pub fn append_receipt(&mut self, receipt: Receipt) -> (r: Result<(), StoreError>)
        requires
            wf(old(self)@),
        ensures
            wf(final(self)@),
            final(self)@.logs == old(self)@.logs,
            r is Ok <==> has_event(old(self)@, receipt@.identifier, receipt@.sequence),
            r is Ok ==> final(self)@.receipts == old(self)@.receipts.push(receipt@),
            r matches Err(e) ==> e == StoreError::UnknownTargetEvent && final(self)@ == old(
                self,
            )@,
    {
        let ghost oldm = self@;
        let ghost id = receipt@.identifier;
        let found = self.contains_event(&receipt.identifier, receipt.sequence);
        if !found {
            return Err(StoreError::UnknownTargetEvent);
        }
        self.receipts.push(receipt);
        proof {
            assert(self@.logs =~= oldm.logs);
            assert(self@.receipts =~= oldm.receipts.push(receipt@));
        }
        Ok(())
    }

    /// The authoritative key state of `identifier`, recomputed on demand
    /// by folding its stored chain from sequence 0, so it is never stale
    /// relative to a completed append. `None` if the identifier has no
    /// log, or a log from which no state can be derived.
    pub fn current_key_state(&self, identifier: &Vec<u8>) -> (r: Option<KeyState>)
        requires
            wf(self@),
        ensures
            r matches Some(s) ==> spec_fold(chain_of_m(events_of(self@, identifier@))) == Ok::<
                Option<StateM>,
                ProcessError,
            >(Some(s@)),
            r is None ==> !(spec_fold(chain_of_m(events_of(self@, identifier@))) matches Ok(st)
                && st is Some),
    {
        let evs = self.query_events(identifier, QueryRange::All);
        proof {
            lemma_filter_all(events_of(self@, identifier@));
            assert(chain_of(evs@) =~= chain_of_m(events_of(self@, identifier@)));
        }
        match derive_key_state(&evs) {
            Ok(Some(s)) => Some(s),
            Ok(None) => None,
            Err(_) => None,
        }
    }

    /// Whether an event is recorded at (identifier, sequence).
    pub fn contains_event(&self, identifier: &Vec<u8>, sequence: u64) -> (r: bool)
        requires
            wf(self@),
        ensures
            r == has_event(self@, identifier@, sequence as int),
    {
        let ghost id = identifier@;
        let n = self.logs.len();
        let mut i: usize = 0;
        while i < n
            invariant
                n == self.logs@.len(),
                i <= n,
                forall|j: int| 0 <= j < i ==> (#[trigger] self@.logs[j]).identifier != id,
                wf(self@),
                id == identifier@,
            decreases n - i,
        {
            if bytes_eq(&self.logs[i].identifier, identifier) {
                proof {
                    lemma_log_index_unique(self@, id, i as int);
                }
                let ghost evs = self@.logs[i as int].events;
                let len = self.logs[i].events.len();
                let mut k: usize = 0;
                while k < len
                    invariant
                        i < self.logs@.len(),
                        len == evs.len(),
                        evs == self@.logs[i as int].events,
                        evs == events_of(self@, id),
                        id == identifier@,
                        k <= len,
                        forall|m: int| 0 <= m < k ==> (#[trigger] evs[m]).event.sequence
                            != sequence as int,
                    decreases len - k,
                {
                    if self.logs[i].events[k].event.sequence == sequence {
                        assert(events_of(self@, id)[k as int].event.sequence == sequence as int);
                        assert(has_event(self@, id, sequence as int));
                        return true;
                    }
                    k = k + 1;
                }
                assert(!has_event(self@, id, sequence as int));
                return false;
            }
            i = i + 1;
        }
        proof {
            assert(!has_log(self@, id));
            assert(events_of(self@, id) =~= Seq::<SignedM>::empty());
        }
        false
    }
}

/// A deep copy of an indexed signature.
pub fn clone_sig(s: &IndexedSig) -> (r: IndexedSig)
    ensures
        r@ == s@,
{
    IndexedSig { index: s.index, sig: clone_bytes(&s.sig) }
}

/// A deep copy of a key event.
pub fn clone_event(e: &KeyEvent) -> (r: KeyEvent)
    ensures
        r@ == e@,
{
    let prior_digest = match &e.prior_digest {
        Some(d) => Some(clone_bytes(d)),
        None => None,
    };
    KeyEvent {
        kind: e.kind,
        identifier: clone_bytes(&e.identifier),
        sequence: e.sequence,
        prior_digest,
        current_keys: clone_keys(&e.current_keys),
        next_digests: clone_digests(&e.next_digests),
        threshold: e.threshold,
    }
}

/// A deep copy of a signed event.
pub fn clone_signed(se: &SignedEvent) -> (r: SignedEvent)
    ensures
        r@ == se@,
{
    let mut sigs: Vec<IndexedSig> = Vec::new();
    let mut i: usize = 0;
    while i < se.signatures.len()
        invariant
            i <= se.signatures@.len(),
            sigs@.len() == i,
            forall|j: int| 0 <= j < i ==> #[trigger] sigs@[j]@ == se.signatures@[j]@,
        decreases se.signatures@.len() - i,
    {
        sigs.push(clone_sig(&se.signatures[i]));
        i = i + 1;
    }
    assert(sigs@.map_values(|s: IndexedSig| s@) =~= se.signatures@.map_values(
        |s: IndexedSig| s@,
    ));
    SignedEvent { event: clone_event(&se.event), signatures: sigs }
}

/// A deep copy of a receipt.
pub fn clone_receipt(x: &Receipt) -> (r: Receipt)
    ensures
        r@ == x@,
{
    Receipt {
        identifier: clone_bytes(&x.identifier),
        sequence: x.sequence,
        kind: x.kind,
        bytes: clone_bytes(&x.bytes),
    }
}

/// The events kept by a range query, in stored order.
pub open spec fn filter_events(es: Seq<SignedM>, r: QueryRange) -> Seq<SignedM>
    decreases es.len(),
{
    if es.len() == 0 {
        Seq::<SignedM>::empty()
    } else {
        let rest = filter_events(es.drop_last(), r);
        if in_range(r, es.last().event.sequence) {
            rest.push(es.last())
        } else {
            rest
        }
    }
}

/// The receipts kept by a receipt query, in stored order.
pub open spec fn filter_receipts(
    rs: Seq<ReceiptM>,
    id: Seq<u8>,
    kind: ReceiptKind,
    range: QueryRange,
) -> Seq<ReceiptM>
    decreases rs.len(),
{
    if rs.len() == 0 {
        Seq::<ReceiptM>::empty()
    } else {
        let rest = filter_receipts(rs.drop_last(), id, kind, range);
        if rs.last().identifier == id && rs.last().kind == kind && in_range(
            range,
            rs.last().sequence,
        ) {
            rest.push(rs.last())
        } else {
            rest
        }
    }
}

/// A query over the whole range returns the log as it stands.
pub proof fn lemma_filter_all(es: Seq<SignedM>)
    ensures
        filter_events(es, QueryRange::All) == es,
    decreases es.len(),
{
    if es.len() == 0 {
        assert(filter_events(es, QueryRange::All) =~= es);
    } else {
        lemma_filter_all(es.drop_last());
        assert(filter_events(es, QueryRange::All) =~= es);
    }
}

/// Sequence numbers strictly increase along a sequence of signed events.
pub open spec fn sorted_by_sequence(es: Seq<SignedM>) -> bool {
    forall|k1: int, k2: int|
        0 <= k1 < k2 < es.len() ==> (#[trigger] es[k1]).event.sequence < (
        #[trigger] es[k2]).event.sequence
}

/// Filtering keeps stored order, so what a range query returns is still
/// ordered by sequence number; every element of the result comes from the
/// filtered log.
pub proof fn lemma_filter_keeps_order(es: Seq<SignedM>, r: QueryRange)
    requires
        sorted_by_sequence(es),
    ensures
        sorted_by_sequence(filter_events(es, r)),
        forall|m: int|
            0 <= m < filter_events(es, r).len() ==> exists|k: int|
                0 <= k < es.len() && #[trigger] filter_events(es, r)[m] == es[k],
    decreases es.len(),
{
    if es.len() > 0 {
        let prefix = es.drop_last();
        assert(sorted_by_sequence(prefix));
        lemma_filter_keeps_order(prefix, r);
        let f0 = filter_events(prefix, r);
        let f = filter_events(es, r);
        assert forall|m: int| 0 <= m < f.len() implies exists|k: int|
            0 <= k < es.len() && #[trigger] f[m] == es[k] by {
            if m < f0.len() {
                let k = choose|k: int| 0 <= k < prefix.len() && #[trigger] f0[m] == prefix[k];
                assert(f[m] == es[k]);
            } else {
                assert(f[m] == es[es.len() - 1]);
            }
        }
        if in_range(r, es.last().event.sequence) {
            assert forall|m1: int, m2: int| 0 <= m1 < m2 < f.len() implies (
            #[trigger] f[m1]).event.sequence < (#[trigger] f[m2]).event.sequence by {
                if m2 < f0.len() {
                } else {
                    let k = choose|k: int| 0 <= k < prefix.len() && #[trigger] f0[m1] == prefix[k];
                    assert(prefix[k].event.sequence < es.last().event.sequence);
                }
            }
        }
    }
}

/// After a successful append the slot is taken: by `append_event`'s
/// contract any later append to the same (identifier, sequence) is
/// rejected with `DuplicateSequence` and leaves the store unchanged, so
/// of two such appends exactly one succeeds.
pub proof fn lemma_append_seals_slot(oldm: StoreM, newm: StoreM, ev: SignedM, pos: int)
    requires
        0 <= pos <= events_of(oldm, ev.event.identifier).len(),
        events_of(newm, ev.event.identifier) == events_of(oldm, ev.event.identifier).insert(
            pos,
            ev,
        ),
    ensures
        has_event(newm, ev.event.identifier, ev.event.sequence),
{
    let id = ev.event.identifier;
    assert(events_of(newm, id)[pos] == ev);
}

/// If two well-formed stores have the same logs except at one position,
/// whose log holds `id` in both, every other identifier reads the same
/// events from both.
proof fn lemma_other_logs_unchanged(oldm: StoreM, newm: StoreM, id: Seq<u8>, id2: Seq<u8>, i: int)
    requires
        wf(oldm),
        wf(newm),
        0 <= i < newm.logs.len(),
        newm.logs[i].identifier == id,
        i < oldm.logs.len() ==> oldm.logs[i].identifier == id,
        oldm.logs.len() == newm.logs.len() || oldm.logs.len() + 1 == newm.logs.len(),
        oldm.logs.len() + 1 == newm.logs.len() ==> i == newm.logs.len() - 1,
        forall|j: int| 0 <= j < oldm.logs.len() && j != i ==> oldm.logs[j] == newm.logs[j],
        id2 != id,
    ensures
        events_of(newm, id2) == events_of(oldm, id2),
{
    if has_log(oldm, id2) {
        let c = log_index(oldm, id2);
        assert(0 <= c < oldm.logs.len() && oldm.logs[c].identifier == id2);
        assert(c != i);
        assert(newm.logs[c].identifier == id2);
        lemma_log_index_unique(newm, id2, c);
        assert(events_of(newm, id2) == newm.logs[c].events);
        assert(events_of(oldm, id2) == oldm.logs[c].events);
    } else {
        if has_log(newm, id2) {
            let c = log_index(newm, id2);
            assert(0 <= c < newm.logs.len() && newm.logs[c].identifier == id2);
            assert(c != i);
            assert(c < oldm.logs.len());
            assert(oldm.logs[c].identifier == id2);
            assert(false);
        }
        assert(events_of(newm, id2) =~= events_of(oldm, id2));
    }
}

/// Inserting an event with a fresh sequence number at its ordered
/// position keeps a log well-formed.
proof fn lemma_insert_keeps_log_wf(l: LogM, ev: SignedM, pos: int)
    requires
        log_wf(l),
        ev.event.identifier == l.identifier,
        0 <= pos <= l.events.len(),
        forall|k: int| 0 <= k < pos ==> (#[trigger] l.events[k]).event.sequence < ev.event.sequence,
        forall|k: int| pos <= k < l.events.len() ==> (#[trigger] l.events[k]).event.sequence
            > ev.event.sequence,
    ensures
        log_wf(LogM { identifier: l.identifier, events: l.events.insert(pos, ev) }),
{
    let es = l.events.insert(pos, ev);
    assert(es.len() == l.events.len() + 1);
    assert forall|k: int| 0 <= k < es.len() implies (#[trigger] es[k]).event.identifier
        == l.identifier by {
        if k < pos {
            assert(es[k] == l.events[k]);
        } else if k == pos {
            assert(es[k] == ev);
        } else {
            assert(es[k] == l.events[k - 1]);
        }
    }
    assert forall|k1: int, k2: int| 0 <= k1 < k2 < es.len() implies (
    #[trigger] es[k1]).event.sequence < (#[trigger] es[k2]).event.sequence by {
        let a1 = if k1 < pos {
            l.events[k1]
        } else if k1 == pos {
            ev
        } else {
            l.events[k1 - 1]
        };
        let a2 = if k2 < pos {
            l.events[k2]
        } else if k2 == pos {
            ev
        } else {
            l.events[k2 - 1]
        };
        assert(es[k1] == a1);
        assert(es[k2] == a2);
    }
}

} // verus!
