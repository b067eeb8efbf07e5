//! The stream hub: a registry of active streams keyed by `StreamKey`,
//! processing a serialized stream of publish/unpublish/subscribe/unsubscribe
//! events and fanning every media frame out to the current subscribers of its
//! key.
//!
//! Backpressure policy: each subscriber owns a bounded delivery queue; a
//! frame that finds a subscriber's queue full is dropped for that subscriber
//! only (and counted), so one slow consumer never stalls the producer or any
//! other consumer. The alternative — blocking the producer until every
//! subscriber catches up — is deliberately rejected in favour of producer
//! liveness.

use vstd::prelude::*;
use crate::frame::{FrameView, MediaFrame};

verus! {

// ------------------------------------------------------------------
// Stream keys
// ------------------------------------------------------------------

/// Mathematical image of a stream key: the two name components as
/// character sequences.
#[verifier::ext_equal]
pub struct KeyView {
    pub app: Seq<char>,
    pub name: Seq<char>,
}

/// Composite identifier of a stream: an opaque, case-sensitive pair of an
/// application (namespace) and a stream name. Unique per active stream.
pub struct StreamKey {
    pub app: String,
    pub name: String,
}

impl View for StreamKey {
    type V = KeyView;

    open spec fn view(&self) -> KeyView {
        KeyView { app: self.app@, name: self.name@ }
    }
}

impl Clone for StreamKey {
    fn clone(&self) -> (r: Self)
        ensures
            r@ == self@,
    {
        StreamKey { app: self.app.clone(), name: self.name.clone() }
    }
}

impl StreamKey {
    pub fn new(app: String, name: String) -> (k: StreamKey)
        ensures
            k@ == (KeyView { app: app@, name: name@ }),
    {
        StreamKey { app, name }
    }

    /// Key equality decides which registry entry an event addresses.
    pub fn key_eq(&self, other: &StreamKey) -> (r: bool)
        ensures
            r == (self@ == other@),
    {
        self.app == other.app && self.name == other.name
    }
}

// ------------------------------------------------------------------
// Subscribers
// ------------------------------------------------------------------

/// Mathematical image of a subscriber: its identity, the bound of its
/// delivery queue, the queued frames in delivery order, and how many frames
/// were dropped because the queue was full.
#[verifier::ext_equal]
pub struct SubView {
    pub id: u64,
    pub capacity: nat,
    pub queue: Seq<FrameView>,
    pub dropped: u64,
}

/// One subscription: a hub-assigned identity and a bounded delivery queue
/// that the hub fills during fan-out and the consumer drains.
pub struct Subscriber {
    pub id: u64,
    pub capacity: usize,
    pub queue: Vec<MediaFrame>,
    pub dropped: u64,
}

impl View for Subscriber {
    type V = SubView;

    open spec fn view(&self) -> SubView {
        SubView {
            id: self.id,
            capacity: self.capacity as nat,
            queue: self.queue@.map_values(|f: MediaFrame| f@),
            dropped: self.dropped,
        }
    }
}

// ------------------------------------------------------------------
// Stream entries
// ------------------------------------------------------------------

/// Mathematical image of one live stream.
#[verifier::ext_equal]
pub struct EntryView {
    pub key: KeyView,
    pub producer: Option<u64>,
    pub subs: Seq<SubView>,
}

/// One live stream: its key, the identity of the producer currently holding
/// the exclusive producer slot (if any), and the current subscribers.
pub struct StreamEntry {
    pub key: StreamKey,
    pub producer: Option<u64>,
    pub subs: Vec<Subscriber>,
}

impl View for StreamEntry {
    type V = EntryView;

    open spec fn view(&self) -> EntryView {
        EntryView {
            key: self.key@,
            producer: self.producer,
            subs: self.subs@.map_values(|s: Subscriber| s@),
        }
    }
}

// ------------------------------------------------------------------
// The hub and its view
// ------------------------------------------------------------------

/// Mathematical image of the whole hub: the live entries and the next
/// subscriber identity to hand out.
#[verifier::ext_equal]
pub struct HubView {
    pub entries: Seq<EntryView>,
    pub next_sub_id: u64,
}

/// The stream hub. It is meant to be owned by a single task that feeds it a
/// serialized sequence of events, which gives the registry linearizable
/// semantics without locking.
pub struct StreamHub {
    pub entries: Vec<StreamEntry>,
    pub next_sub_id: u64,
    pub hls_enabled: bool,
}

impl View for StreamHub {
    type V = HubView;

    open spec fn view(&self) -> HubView {
        HubView {
            entries: self.entries@.map_values(|e: StreamEntry| e@),
            next_sub_id: self.next_sub_id,
        }
    }
}

// ------------------------------------------------------------------
// Well-formedness
// ------------------------------------------------------------------

pub open spec fn sub_ids_unique(subs: Seq<SubView>) -> bool {
    forall|i: int, j: int|
        0 <= i < subs.len() && 0 <= j < subs.len() && i != j ==> subs[i].id != subs[j].id
}

pub open spec fn entry_wf(e: EntryView, next_sub_id: u64) -> bool {
    &&& sub_ids_unique(e.subs)
    &&& forall|i: int| 0 <= i < e.subs.len() ==> (#[trigger] e.subs[i]).queue.len() <= e.subs[i].capacity
    &&& forall|i: int| 0 <= i < e.subs.len() ==> (#[trigger] e.subs[i]).id < next_sub_id
    &&& (e.producer is Some || e.subs.len() > 0)
}

pub open spec fn keys_unique(es: Seq<EntryView>) -> bool {
    forall|i: int, j: int|
        0 <= i < es.len() && 0 <= j < es.len() && i != j ==> es[i].key != es[j].key
}

/// Registry invariant: keys are unique (so the producer slot of a key is
/// unique), every delivery queue respects its bound, every subscriber
/// identity was assigned by the hub's counter and is unique within its
/// entry, and no entry outlives its last attachment: an entry is live iff it
/// has a producer or at least one subscriber.
pub open spec fn hub_wf(h: HubView) -> bool {
    &&& keys_unique(h.entries)
    &&& forall|i: int| 0 <= i < h.entries.len() ==> entry_wf(#[trigger] h.entries[i], h.next_sub_id)
}

// ------------------------------------------------------------------
// Spec-level lookup
// ------------------------------------------------------------------

pub open spec fn has_key(es: Seq<EntryView>, k: KeyView) -> bool {
    exists|i: int| 0 <= i < es.len() && (#[trigger] es[i]).key == k
}

pub open spec fn key_index(es: Seq<EntryView>, k: KeyView) -> int {
    choose|i: int| 0 <= i < es.len() && (#[trigger] es[i]).key == k
}

pub open spec fn entry_of(es: Seq<EntryView>, k: KeyView) -> EntryView {
    es[key_index(es, k)]
}

pub open spec fn has_sub(subs: Seq<SubView>, id: u64) -> bool {
    exists|j: int| 0 <= j < subs.len() && (#[trigger] subs[j]).id == id
}

pub open spec fn sub_index(subs: Seq<SubView>, id: u64) -> int {
    choose|j: int| 0 <= j < subs.len() && (#[trigger] subs[j]).id == id
}

/// The producer currently registered for a key, if any.
pub open spec fn producer_of(h: HubView, k: KeyView) -> Option<u64> {
    if has_key(h.entries, k) {
        entry_of(h.entries, k).producer
    } else {
        None
    }
}

/// Whether subscriber `id` is currently attached to key `k`.
pub open spec fn is_subscribed(h: HubView, k: KeyView, id: u64) -> bool {
    has_key(h.entries, k) && has_sub(entry_of(h.entries, k).subs, id)
}

/// The delivery queue of subscriber `id` on key `k` (meaningful only when
/// `is_subscribed` holds).
pub open spec fn queue_of(h: HubView, k: KeyView, id: u64) -> Seq<FrameView> {
    let subs = entry_of(h.entries, k).subs;
    subs[sub_index(subs, id)].queue
}

/// How many frames were dropped for subscriber `id` on key `k` because its
/// queue was full (meaningful only when `is_subscribed` holds).
pub open spec fn dropped_of(h: HubView, k: KeyView, id: u64) -> u64 {
    let subs = entry_of(h.entries, k).subs;
    subs[sub_index(subs, id)].dropped
}

/// With unique keys, any index holding `k` is the index `key_index` picks.
pub proof fn lemma_key_index_agrees(es: Seq<EntryView>, k: KeyView, i: int)
    requires
        keys_unique(es),
        0 <= i < es.len(),
        es[i].key == k,
    ensures
        has_key(es, k),
        key_index(es, k) == i,
{
    assert(has_key(es, k));
    let j = key_index(es, k);
    if i != j {
        assert(es[i].key != es[j].key);
    }
}

/// With unique subscriber identities, any index holding `id` is the index
/// `sub_index` picks.
pub proof fn lemma_sub_index_agrees(subs: Seq<SubView>, id: u64, j: int)
    requires
        sub_ids_unique(subs),
        0 <= j < subs.len(),
        subs[j].id == id,
    ensures
        has_sub(subs, id),
        sub_index(subs, id) == j,
{
    assert(has_sub(subs, id));
    let t = sub_index(subs, id);
    if j != t {
        assert(subs[j].id != subs[t].id);
    }
}

// ------------------------------------------------------------------
// Sequence/view plumbing
// ------------------------------------------------------------------

pub proof fn lemma_map_values_push<A, B>(s: Seq<A>, f: spec_fn(A) -> B, x: A)
    ensures
        s.push(x).map_values(f) == s.map_values(f).push(f(x)),
{
    assert(s.push(x).map_values(f) =~= s.map_values(f).push(f(x)));
}

pub proof fn lemma_map_values_update<A, B>(s: Seq<A>, f: spec_fn(A) -> B, i: int, x: A)
    requires
        0 <= i < s.len(),
    ensures
        s.update(i, x).map_values(f) == s.map_values(f).update(i, f(x)),
{
    assert(s.update(i, x).map_values(f) =~= s.map_values(f).update(i, f(x)));
}

pub proof fn lemma_map_values_remove<A, B>(s: Seq<A>, f: spec_fn(A) -> B, i: int)
    requires
        0 <= i < s.len(),
    ensures
        s.remove(i).map_values(f) == s.map_values(f).remove(i),
{
    assert(s.remove(i).map_values(f) =~= s.map_values(f).remove(i));
}

// ------------------------------------------------------------------
// Publish
// ------------------------------------------------------------------

/// Registry transition of `Publish(key, producer)`: create the entry if
/// absent, else fill the producer slot, replacing any prior producer.
pub open spec fn spec_publish(h: HubView, k: KeyView, producer: u64) -> HubView {
    if has_key(h.entries, k) {
        let i = key_index(h.entries, k);
        let e = h.entries[i];
        HubView {
            entries: h.entries.update(
                i,
                EntryView { key: e.key, producer: Some(producer), subs: e.subs },
            ),
            next_sub_id: h.next_sub_id,
        }
    } else {
        HubView {
            entries: h.entries.push(
                EntryView { key: k, producer: Some(producer), subs: Seq::empty() },
            ),
            next_sub_id: h.next_sub_id,
        }
    }
}

pub proof fn lemma_publish_preserves_wf(h: HubView, k: KeyView, producer: u64)
    requires
        hub_wf(h),
    ensures
        hub_wf(spec_publish(h, k, producer)),
{
    let h2 = spec_publish(h, k, producer);
    if has_key(h.entries, k) {
        assert forall|t: int| 0 <= t < h2.entries.len() implies entry_wf(
            #[trigger] h2.entries[t],
            h2.next_sub_id,
        ) by {
            assert(entry_wf(h.entries[t], h.next_sub_id));
        }
        assert forall|a: int, b: int|
            0 <= a < h2.entries.len() && 0 <= b < h2.entries.len() && a != b implies h2.entries[a].key
            != h2.entries[b].key by {
            assert(h2.entries[a].key == h.entries[a].key);
            assert(h2.entries[b].key == h.entries[b].key);
        }
    } else {
        let n = h.entries.len() as int;
        assert forall|t: int| 0 <= t < h2.entries.len() implies entry_wf(
            #[trigger] h2.entries[t],
            h2.next_sub_id,
        ) by {
            if t < n {
                assert(entry_wf(h.entries[t], h.next_sub_id));
            } else {
                assert(h2.entries[t].subs.len() == 0);
            }
        }
        assert forall|a: int, b: int|
            0 <= a < h2.entries.len() && 0 <= b < h2.entries.len() && a != b implies h2.entries[a].key
            != h2.entries[b].key by {
            if a < n && b < n {
                assert(h.entries[a].key != h.entries[b].key);
            } else if a == n && b < n {
                if h.entries[b].key == k {
                    assert(has_key(h.entries, k));
                }
            } else if b == n && a < n {
                if h.entries[a].key == k {
                    assert(has_key(h.entries, k));
                }
            }
        }
    }
}

// A well-formed entry stays well-formed when the id counter grows.
pub proof fn lemma_entry_wf_mono(e: EntryView, a: u64, b: u64)
    requires
        entry_wf(e, a),
        a <= b,
    ensures
        entry_wf(e, b),
{
}

// ------------------------------------------------------------------
// Subscribe
// ------------------------------------------------------------------

/// A just-registered subscription: empty queue, nothing dropped yet.
pub open spec fn fresh_sub(id: u64, capacity: nat) -> SubView {
    SubView { id, capacity, queue: Seq::empty(), dropped: 0 }
}

/// Registry transition of `Subscribe(key, capacity)`: attach a fresh
/// subscriber carrying the identity `h.next_sub_id`, creating the entry
/// (with an empty producer slot) if the key is not live yet.
pub open spec fn spec_subscribe(h: HubView, k: KeyView, capacity: nat) -> HubView {
    let id = h.next_sub_id;
    let nid = ((h.next_sub_id + 1) as u64);
    if has_key(h.entries, k) {
        let i = key_index(h.entries, k);
        let e = h.entries[i];
        HubView {
            entries: h.entries.update(
                i,
                EntryView {
                    key: e.key,
                    producer: e.producer,
                    subs: e.subs.push(fresh_sub(id, capacity)),
                },
            ),
            next_sub_id: nid,
        }
    } else {
        HubView {
            entries: h.entries.push(
                EntryView { key: k, producer: None, subs: seq![fresh_sub(id, capacity)] },
            ),
            next_sub_id: nid,
        }
    }
}

pub proof fn lemma_subscribe_preserves_wf(h: HubView, k: KeyView, capacity: nat)
    requires
        hub_wf(h),
        h.next_sub_id < u64::MAX,
    ensures
        hub_wf(spec_subscribe(h, k, capacity)),
{
    let h2 = spec_subscribe(h, k, capacity);
    let id = h.next_sub_id;
    if has_key(h.entries, k) {
        let i = key_index(h.entries, k);
        let e = h.entries[i];
        let e2 = h2.entries[i];
        assert(entry_wf(e, h.next_sub_id));
        assert(sub_ids_unique(e2.subs)) by {
            assert forall|a: int, b: int|
                0 <= a < e2.subs.len() && 0 <= b < e2.subs.len() && a != b implies e2.subs[a].id
                != e2.subs[b].id by {
                if a < e.subs.len() && b < e.subs.len() {
                    assert(e.subs[a].id != e.subs[b].id);
                } else if a == e.subs.len() {
                    assert(e.subs[b].id < id);
                } else {
                    assert(e.subs[a].id < id);
                }
            }
        }
        assert(entry_wf(e2, h2.next_sub_id)) by {
            assert forall|t: int| 0 <= t < e2.subs.len() implies (#[trigger] e2.subs[t]).queue.len()
                <= e2.subs[t].capacity && e2.subs[t].id < h2.next_sub_id by {
                if t < e.subs.len() {
                    assert(e.subs[t].queue.len() <= e.subs[t].capacity);
                    assert(e.subs[t].id < h.next_sub_id);
                }
            }
        }
        assert forall|t: int| 0 <= t < h2.entries.len() implies entry_wf(
            #[trigger] h2.entries[t],
            h2.next_sub_id,
        ) by {
            if t != i {
                lemma_entry_wf_mono(h.entries[t], h.next_sub_id, h2.next_sub_id);
            }
        }
        assert forall|a: int, b: int|
            0 <= a < h2.entries.len() && 0 <= b < h2.entries.len() && a != b implies h2.entries[a].key
            != h2.entries[b].key by {
            assert(h2.entries[a].key == h.entries[a].key);
            assert(h2.entries[b].key == h.entries[b].key);
        }
    } else {
        let n = h.entries.len() as int;
        assert forall|t: int| 0 <= t < h2.entries.len() implies entry_wf(
            #[trigger] h2.entries[t],
            h2.next_sub_id,
        ) by {
            if t < n {
                lemma_entry_wf_mono(h.entries[t], h.next_sub_id, h2.next_sub_id);
            } else {
                let e2 = h2.entries[t];
                assert(e2.subs.len() == 1);
                assert(e2.subs[0] == fresh_sub(id, capacity));
            }
        }
        assert forall|a: int, b: int|
            0 <= a < h2.entries.len() && 0 <= b < h2.entries.len() && a != b implies h2.entries[a].key
            != h2.entries[b].key by {
            if a < n && b < n {
                assert(h.entries[a].key != h.entries[b].key);
            } else if a == n && b < n {
                if h.entries[b].key == k {
                    assert(has_key(h.entries, k));
                }
            } else if b == n && a < n {
                if h.entries[a].key == k {
                    assert(has_key(h.entries, k));
                }
            }
        }
    }
}

// ------------------------------------------------------------------
// Unpublish
// ------------------------------------------------------------------

/// Registry transition of `Unpublish(key, producer)`: clear the producer
/// slot only when `producer` is the identity currently registered (a stale
/// disconnect must not clear a replacement producer's slot). If subscribers
/// remain, the entry persists with an empty slot so they keep their
/// subscription alive for a future publish; otherwise the entry is removed.
pub open spec fn spec_unpublish(h: HubView, k: KeyView, producer: u64) -> HubView {
    if producer_of(h, k) == Some(producer) {
        let i = key_index(h.entries, k);
        let e = h.entries[i];
        if e.subs.len() == 0 {
            HubView { entries: h.entries.remove(i), next_sub_id: h.next_sub_id }
        } else {
            HubView {
                entries: h.entries.update(
                    i,
                    EntryView { key: e.key, producer: None, subs: e.subs },
                ),
                next_sub_id: h.next_sub_id,
            }
        }
    } else {
        h
    }
}

pub proof fn lemma_unpublish_preserves_wf(h: HubView, k: KeyView, producer: u64)
    requires
        hub_wf(h),
    ensures
        hub_wf(spec_unpublish(h, k, producer)),
{
    let h2 = spec_unpublish(h, k, producer);
    if producer_of(h, k) == Some(producer) {
        let i = key_index(h.entries, k);
        let e = h.entries[i];
        if e.subs.len() == 0 {
            assert forall|t: int| 0 <= t < h2.entries.len() implies entry_wf(
                #[trigger] h2.entries[t],
                h2.next_sub_id,
            ) by {
                if t < i {
                    assert(h2.entries[t] == h.entries[t]);
                } else {
                    assert(h2.entries[t] == h.entries[t + 1]);
                }
            }
            assert forall|a: int, b: int|
                0 <= a < h2.entries.len() && 0 <= b < h2.entries.len() && a != b implies
                h2.entries[a].key != h2.entries[b].key by {
                let a0: int = if a < i { a } else { a + 1 };
                let b0: int = if b < i { b } else { b + 1 };
                assert(h2.entries[a] == h.entries[a0]);
                assert(h2.entries[b] == h.entries[b0]);
                assert(h.entries[a0].key != h.entries[b0].key);
            }
        } else {
            assert forall|t: int| 0 <= t < h2.entries.len() implies entry_wf(
                #[trigger] h2.entries[t],
                h2.next_sub_id,
            ) by {
                assert(entry_wf(h.entries[t], h.next_sub_id));
            }
            assert forall|a: int, b: int|
                0 <= a < h2.entries.len() && 0 <= b < h2.entries.len() && a != b implies
                h2.entries[a].key != h2.entries[b].key by {
                assert(h2.entries[a].key == h.entries[a].key);
                assert(h2.entries[b].key == h.entries[b].key);
            }
        }
    }
}

// ------------------------------------------------------------------
// Unsubscribe
// ------------------------------------------------------------------

/// Registry transition of `Unsubscribe(key, id)`: detach subscriber `id`
/// from `key`. A stale request (key not live, or `id` not attached) is an
/// idempotent no-op. If the entry is left with neither a producer nor any
/// subscriber it is removed on the spot.
pub open spec fn spec_unsubscribe(h: HubView, k: KeyView, id: u64) -> HubView {
    if is_subscribed(h, k, id) {
        let i = key_index(h.entries, k);
        let e = h.entries[i];
        let j = sub_index(e.subs, id);
        let subs2 = e.subs.remove(j);
        if subs2.len() == 0 && e.producer is None {
            HubView { entries: h.entries.remove(i), next_sub_id: h.next_sub_id }
        } else {
            HubView {
                entries: h.entries.update(
                    i,
                    EntryView { key: e.key, producer: e.producer, subs: subs2 },
                ),
                next_sub_id: h.next_sub_id,
            }
        }
    } else {
        h
    }
}

pub proof fn lemma_unsubscribe_preserves_wf(h: HubView, k: KeyView, id: u64)
    requires
        hub_wf(h),
    ensures
        hub_wf(spec_unsubscribe(h, k, id)),
{
    let h2 = spec_unsubscribe(h, k, id);
    if is_subscribed(h, k, id) {
        let i = key_index(h.entries, k);
        let e = h.entries[i];
        let j = sub_index(e.subs, id);
        let subs2 = e.subs.remove(j);
        assert(entry_wf(e, h.next_sub_id));
        assert(sub_ids_unique(subs2)) by {
            assert forall|a: int, b: int|
                0 <= a < subs2.len() && 0 <= b < subs2.len() && a != b implies subs2[a].id
                != subs2[b].id by {
                let a0: int = if a < j { a } else { a + 1 };
                let b0: int = if b < j { b } else { b + 1 };
                assert(subs2[a] == e.subs[a0]);
                assert(subs2[b] == e.subs[b0]);
                assert(e.subs[a0].id != e.subs[b0].id);
            }
        }
        if subs2.len() == 0 && e.producer is None {
            assert forall|t: int| 0 <= t < h2.entries.len() implies entry_wf(
                #[trigger] h2.entries[t],
                h2.next_sub_id,
            ) by {
                if t < i {
                    assert(h2.entries[t] == h.entries[t]);
                } else {
                    assert(h2.entries[t] == h.entries[t + 1]);
                }
            }
            assert forall|a: int, b: int|
                0 <= a < h2.entries.len() && 0 <= b < h2.entries.len() && a != b implies
                h2.entries[a].key != h2.entries[b].key by {
                let a0: int = if a < i { a } else { a + 1 };
                let b0: int = if b < i { b } else { b + 1 };
                assert(h2.entries[a] == h.entries[a0]);
                assert(h2.entries[b] == h.entries[b0]);
                assert(h.entries[a0].key != h.entries[b0].key);
            }
        } else {
            let e2 = EntryView { key: e.key, producer: e.producer, subs: subs2 };
            assert(entry_wf(e2, h2.next_sub_id)) by {
                assert forall|t: int| 0 <= t < subs2.len() implies (#[trigger] subs2[t]).queue.len()
                    <= subs2[t].capacity && subs2[t].id < h2.next_sub_id by {
                    let t0: int = if t < j { t } else { t + 1 };
                    assert(subs2[t] == e.subs[t0]);
                    assert(e.subs[t0].queue.len() <= e.subs[t0].capacity);
                    assert(e.subs[t0].id < h.next_sub_id);
                }
            }
            assert forall|t: int| 0 <= t < h2.entries.len() implies entry_wf(
                #[trigger] h2.entries[t],
                h2.next_sub_id,
            ) by {
                if t != i {
                    assert(entry_wf(h.entries[t], h.next_sub_id));
                }
            }
            assert forall|a: int, b: int|
                0 <= a < h2.entries.len() && 0 <= b < h2.entries.len() && a != b implies
                h2.entries[a].key != h2.entries[b].key by {
                assert(h2.entries[a].key == h.entries[a].key);
                assert(h2.entries[b].key == h.entries[b].key);
            }
        }
    }
}

// ------------------------------------------------------------------
// Frame fan-out
// ------------------------------------------------------------------

/// Delivery of one frame to one subscriber: append it if the bounded queue
/// has room, else drop it for this subscriber only and count the drop. The
/// producer is never blocked and no other subscriber is affected.
pub open spec fn deliver_to(s: SubView, f: FrameView) -> SubView {
    if s.queue.len() < s.capacity {
        SubView { id: s.id, capacity: s.capacity, queue: s.queue.push(f), dropped: s.dropped }
    } else if s.dropped < u64::MAX {
        SubView {
            id: s.id,
            capacity: s.capacity,
            queue: s.queue,
            dropped: (s.dropped + 1) as u64,
        }
    } else {
        s
    }
}

/// Registry transition of a frame arriving for key `k`: fan it out to every
/// current subscriber of `k`, each through `deliver_to`. A frame for a key
/// that is not live (or has no subscribers) is discarded: no buffering of an
/// unconsumed stream.
pub open spec fn spec_dispatch(h: HubView, k: KeyView, f: FrameView) -> HubView {
    if has_key(h.entries, k) {
        let i = key_index(h.entries, k);
        let e = h.entries[i];
        HubView {
            entries: h.entries.update(
                i,
                EntryView {
                    key: e.key,
                    producer: e.producer,
                    subs: e.subs.map_values(|s: SubView| deliver_to(s, f)),
                },
            ),
            next_sub_id: h.next_sub_id,
        }
    } else {
        h
    }
}

pub proof fn lemma_dispatch_preserves_wf(h: HubView, k: KeyView, f: FrameView)
    requires
        hub_wf(h),
    ensures
        hub_wf(spec_dispatch(h, k, f)),
{
    let h2 = spec_dispatch(h, k, f);
    if has_key(h.entries, k) {
        let i = key_index(h.entries, k);
        let e = h.entries[i];
        let e2 = h2.entries[i];
        assert(entry_wf(e, h.next_sub_id));
        assert(entry_wf(e2, h2.next_sub_id)) by {
            assert forall|t: int| 0 <= t < e2.subs.len() implies (#[trigger] e2.subs[t]).id
                == e.subs[t].id && e2.subs[t].queue.len() <= e2.subs[t].capacity by {
                assert(e2.subs[t] == deliver_to(e.subs[t], f));
                assert(e.subs[t].queue.len() <= e.subs[t].capacity);
            }
        }
        assert forall|t: int| 0 <= t < h2.entries.len() implies entry_wf(
            #[trigger] h2.entries[t],
            h2.next_sub_id,
        ) by {
            if t != i {
                assert(entry_wf(h.entries[t], h.next_sub_id));
            }
        }
        assert forall|a: int, b: int|
            0 <= a < h2.entries.len() && 0 <= b < h2.entries.len() && a != b implies h2.entries[a].key
            != h2.entries[b].key by {
            assert(h2.entries[a].key == h.entries[a].key);
            assert(h2.entries[b].key == h.entries[b].key);
        }
    }
}

pub proof fn lemma_map_values_insert<A, B>(s: Seq<A>, f: spec_fn(A) -> B, i: int, x: A)
    requires
        0 <= i <= s.len(),
    ensures
        s.insert(i, x).map_values(f) == s.map_values(f).insert(i, f(x)),
{
    assert(s.insert(i, x).map_values(f) =~= s.map_values(f).insert(i, f(x)));
}

// ------------------------------------------------------------------
// Consuming a delivery queue
// ------------------------------------------------------------------

/// Registry transition of a subscriber receiving the frame at the front of
/// its delivery queue (the receive side of its channel endpoint).
pub open spec fn spec_pop(h: HubView, k: KeyView, id: u64) -> HubView {
    if is_subscribed(h, k, id) && queue_of(h, k, id).len() > 0 {
        let i = key_index(h.entries, k);
        let e = h.entries[i];
        let j = sub_index(e.subs, id);
        let s = e.subs[j];
        HubView {
            entries: h.entries.update(
                i,
                EntryView {
                    key: e.key,
                    producer: e.producer,
                    subs: e.subs.update(
                        j,
                        SubView {
                            id: s.id,
                            capacity: s.capacity,
                            queue: s.queue.remove(0),
                            dropped: s.dropped,
                        },
                    ),
                },
            ),
            next_sub_id: h.next_sub_id,
        }
    } else {
        h
    }
}

/// What that receive yields: the frame delivered earliest among those still
/// queued, or nothing when the queue is empty or the subscription is gone.
pub open spec fn spec_pop_result(h: HubView, k: KeyView, id: u64) -> Option<FrameView> {
    if is_subscribed(h, k, id) && queue_of(h, k, id).len() > 0 {
        Some(queue_of(h, k, id)[0])
    } else {
        None
    }
}

pub proof fn lemma_pop_preserves_wf(h: HubView, k: KeyView, id: u64)
    requires
        hub_wf(h),
    ensures
        hub_wf(spec_pop(h, k, id)),
{
    let h2 = spec_pop(h, k, id);
    if is_subscribed(h, k, id) && queue_of(h, k, id).len() > 0 {
        let i = key_index(h.entries, k);
        let e = h.entries[i];
        let j = sub_index(e.subs, id);
        let e2 = h2.entries[i];
        assert(entry_wf(e, h.next_sub_id));
        assert(entry_wf(e2, h2.next_sub_id)) by {
            assert forall|t: int| 0 <= t < e2.subs.len() implies (#[trigger] e2.subs[t]).id
                == e.subs[t].id && e2.subs[t].queue.len() <= e2.subs[t].capacity by {
                assert(e.subs[t].queue.len() <= e.subs[t].capacity);
            }
        }
        assert forall|t: int| 0 <= t < h2.entries.len() implies entry_wf(
            #[trigger] h2.entries[t],
            h2.next_sub_id,
        ) by {
            if t != i {
                assert(entry_wf(h.entries[t], h.next_sub_id));
            }
        }
        assert forall|a: int, b: int|
            0 <= a < h2.entries.len() && 0 <= b < h2.entries.len() && a != b implies h2.entries[a].key
            != h2.entries[b].key by {
            assert(h2.entries[a].key == h.entries[a].key);
            assert(h2.entries[b].key == h.entries[b].key);
        }
    }
}

// ------------------------------------------------------------------
// The control alphabet
// ------------------------------------------------------------------

/// The hub's control-channel input alphabet: the four registry operations,
/// matched exhaustively by the command loop. Media frames do not travel on
/// the control channel: they flow on the registered producer's own frame
/// channel (see `deliver_frame`), so high-rate frame traffic never contends
/// with registry mutations.
pub enum StreamHubEvent {
    Publish { key: StreamKey, producer: u64 },
    Unpublish { key: StreamKey, producer: u64 },
    Subscribe { key: StreamKey, capacity: usize },
    Unsubscribe { key: StreamKey, id: u64 },
}

/// Mathematical image of a control event.
#[verifier::ext_equal]
pub enum EventView {
    Publish { key: KeyView, producer: u64 },
    Unpublish { key: KeyView, producer: u64 },
    Subscribe { key: KeyView, capacity: nat },
    Unsubscribe { key: KeyView, id: u64 },
}

impl View for StreamHubEvent {
    type V = EventView;

    open spec fn view(&self) -> EventView {
        match self {
            StreamHubEvent::Publish { key, producer } => EventView::Publish {
                key: key@,
                producer: *producer,
            },
            StreamHubEvent::Unpublish { key, producer } => EventView::Unpublish {
                key: key@,
                producer: *producer,
            },
            StreamHubEvent::Subscribe { key, capacity } => EventView::Subscribe {
                key: key@,
                capacity: *capacity as nat,
            },
            StreamHubEvent::Unsubscribe { key, id } => EventView::Unsubscribe {
                key: key@,
                id: *id,
            },
        }
    }
}

/// What the hub hands back to the requester of a control event.
#[derive(PartialEq, Eq, Structural, Debug)]
pub enum EventOutcome {
    Published { replaced: Option<u64> },
    Unpublished { removed: bool },
    Subscribed { id: u64 },
    Unsubscribed { removed: bool },
}

/// One step of the hub's serialized command loop, at the spec level.
pub open spec fn spec_step(h: HubView, e: EventView) -> HubView {
    match e {
        EventView::Publish { key, producer } => spec_publish(h, key, producer),
        EventView::Unpublish { key, producer } => spec_unpublish(h, key, producer),
        EventView::Subscribe { key, capacity } => spec_subscribe(h, key, capacity),
        EventView::Unsubscribe { key, id } => spec_unsubscribe(h, key, id),
    }
}

/// The index of the subscriber carrying `id`, if it is attached.
fn find_sub(subs: &Vec<Subscriber>, id: u64) -> (r: Option<usize>)
    ensures
        match r {
            Some(j) => j < subs@.len() && subs@.map_values(|s: Subscriber| s@)[j as int].id == id,
            None => !has_sub(subs@.map_values(|s: Subscriber| s@), id),
        },
{
    let mut j: usize = 0;
    while j < subs.len()
        invariant
            j <= subs.len(),
            forall|t: int| 0 <= t < j ==> (#[trigger] subs@[t]).id != id,
        decreases subs.len() - j,
    {
        if subs[j].id == id {
            return Some(j);
        }
        j = j + 1;
    }
    None
}

impl StreamHub {
    pub open spec fn wf(&self) -> bool {
        hub_wf(self@)
    }

    /// A fresh hub with no live streams.
    pub fn new() -> (hub: StreamHub)
        ensures
            hub@.entries.len() == 0,
            hub@.next_sub_id == 0,
            hub.wf(),
            !hub.hls_flag(),
    {
        StreamHub { entries: Vec::new(), next_sub_id: 0, hls_enabled: false }
    }

    pub open spec fn hls_flag(&self) -> bool {
        self.hls_enabled
    }

    /// Whether the derived-stream egress stage is active. A pass-through
    /// configuration value for the service composition, not hub logic.
    pub fn hls_enabled(&self) -> (r: bool)
        ensures
            r == self.hls_flag(),
    {
        self.hls_enabled
    }

    /// Toggle the derived-stream egress stage. Leaves the registry untouched.
    pub fn set_hls_enabled(&mut self, enabled: bool)
        ensures
            final(self).hls_flag() == enabled,
            final(self)@ == old(self)@,
    {
        self.hls_enabled = enabled;
    }

    /// Number of live entries in the registry: the probe through which entry
    /// cleanup is observable.
    pub fn stream_count(&self) -> (n: usize)
        ensures
            n == self@.entries.len(),
    {
        self.entries.len()
    }

    /// The index of the entry for `key`, if one is live.
    fn find_entry(&self, key: &StreamKey) -> (r: Option<usize>)
        ensures
            match r {
                Some(i) => i < self@.entries.len() && self@.entries[i as int].key == key@,
                None => !has_key(self@.entries, key@),
            },
    {
        let mut i: usize = 0;
        while i < self.entries.len()
            invariant
                i <= self.entries.len(),
                forall|j: int| 0 <= j < i ==> (#[trigger] self@.entries[j]).key != key@,
            decreases self.entries.len() - i,
        {
            if self.entries[i].key.key_eq(key) {
                return Some(i);
            }
            i = i + 1;
        }
        None
    }

    /// Apply `Publish(key, producer)`. If the key is new, a fresh entry is
    /// created with this producer; if the key is live, the producer slot is
    /// filled — replacing (and returning) any prior producer, so a producer
    /// reconnecting after a timeout can resume without manual intervention.
    /// Duplicate publish is therefore not an error.
    pub fn publish(&mut self, key: StreamKey, producer: u64) -> (replaced: Option<u64>)
        requires
            old(self).wf(),
        ensures
            final(self)@ == spec_publish(old(self)@, key@, producer),
            replaced == producer_of(old(self)@, key@),
            producer_of(final(self)@, key@) == Some(producer),
            final(self).wf(),
    {
        proof {
            lemma_publish_preserves_wf(old(self)@, key@, producer);
        }
        match self.find_entry(&key) {
            Some(i) => {
                proof {
                    lemma_key_index_agrees(old(self)@.entries, key@, i as int);
                }
                let e = &mut self.entries[i];
                let replaced = e.producer;
                e.producer = Some(producer);
                proof {
                    lemma_map_values_update(
                        old(self).entries@,
                        |en: StreamEntry| en@,
                        i as int,
                        self.entries@[i as int],
                    );
                    assert(self@ =~~= spec_publish(old(self)@, key@, producer));
                    lemma_key_index_agrees(self@.entries, key@, i as int);
                }
                replaced
            },
            None => {
                let n = self.entries.len();
                self.entries.push(StreamEntry { key, producer: Some(producer), subs: Vec::new() });
                proof {
                    lemma_map_values_push(
                        old(self).entries@,
                        |en: StreamEntry| en@,
                        self.entries@[n as int],
                    );
                    assert(self@ =~~= spec_publish(old(self)@, key@, producer));
                    lemma_key_index_agrees(self@.entries, key@, n as int);
                }
                None
            },
        }
    }

    /// Apply `Subscribe(key, capacity)`: register a new subscriber with a
    /// bounded delivery queue of `capacity` frames, creating the entry (with
    /// no producer yet) if the key is not live. Returns the fresh
    /// `SubscriberId` the requester must present to unsubscribe. A
    /// subscriber sees only frames delivered after this call: no backlog is
    /// replayed.
    pub fn subscribe(&mut self, key: StreamKey, capacity: usize) -> (id: u64)
        requires
            old(self).wf(),
            old(self).next_sub_id < u64::MAX,
        ensures
            final(self)@ == spec_subscribe(old(self)@, key@, capacity as nat),
            id == old(self)@.next_sub_id,
            final(self).wf(),
            is_subscribed(final(self)@, key@, id),
            queue_of(final(self)@, key@, id) == Seq::<FrameView>::empty(),
    {
        proof {
            lemma_subscribe_preserves_wf(old(self)@, key@, capacity as nat);
        }
        let id = self.next_sub_id;
        self.next_sub_id = id + 1;
        let sub = Subscriber { id, capacity, queue: Vec::new(), dropped: 0 };
        match self.find_entry(&key) {
            Some(i) => {
                proof {
                    lemma_key_index_agrees(old(self)@.entries, key@, i as int);
                }
                let e = &mut self.entries[i];
                let ghost old_subs = e.subs@;
                e.subs.push(sub);
                proof {
                    lemma_map_values_push(old_subs, |s: Subscriber| s@, self.entries@[i as int].subs@[old_subs.len() as int]);
                    lemma_map_values_update(
                        old(self).entries@,
                        |en: StreamEntry| en@,
                        i as int,
                        self.entries@[i as int],
                    );
                    assert(self@ =~~= spec_subscribe(old(self)@, key@, capacity as nat));
                    lemma_key_index_agrees(self@.entries, key@, i as int);
                    lemma_sub_index_agrees(
                        self@.entries[i as int].subs,
                        id,
                        self@.entries[i as int].subs.len() - 1,
                    );
                }
                id
            },
            None => {
                let n = self.entries.len();
                let mut subs: Vec<Subscriber> = Vec::new();
                subs.push(sub);
                self.entries.push(StreamEntry { key, producer: None, subs });
                proof {
                    lemma_map_values_push(
                        old(self).entries@,
                        |en: StreamEntry| en@,
                        self.entries@[n as int],
                    );
                    assert(self@ =~~= spec_subscribe(old(self)@, key@, capacity as nat));
                    lemma_key_index_agrees(self@.entries, key@, n as int);
                    lemma_sub_index_agrees(self@.entries[n as int].subs, id, 0);
                }
                id
            },
        }
    }

    /// Apply `Unpublish(key, producer)`: clear the producer slot only when
    /// `producer` matches the registered identity — a stale request (from a
    /// producer already replaced, or for a key that is not live) is an
    /// idempotent no-op, not an error. Remaining subscribers keep the entry
    /// alive with an empty slot; if none remain the entry is removed.
    /// Returns whether a producer was actually unregistered.
    pub fn unpublish(&mut self, key: &StreamKey, producer: u64) -> (removed: bool)
        requires
            old(self).wf(),
        ensures
            final(self)@ == spec_unpublish(old(self)@, key@, producer),
            removed == (producer_of(old(self)@, key@) == Some(producer)),
            producer_of(final(self)@, key@) != Some(producer),
            final(self).wf(),
    {
        proof {
            lemma_unpublish_preserves_wf(old(self)@, key@, producer);
        }
        match self.find_entry(key) {
            None => {
                assert(producer_of(old(self)@, key@) is None);
                false
            },
            Some(i) => {
                proof {
                    lemma_key_index_agrees(old(self)@.entries, key@, i as int);
                }
                let matches_current = match self.entries[i].producer {
                    Some(p) => p == producer,
                    None => false,
                };
                if matches_current {
                    if self.entries[i].subs.len() == 0 {
                        self.entries.remove(i);
                        proof {
                            lemma_map_values_remove(
                                old(self).entries@,
                                |en: StreamEntry| en@,
                                i as int,
                            );
                            assert(self@ =~~= spec_unpublish(old(self)@, key@, producer));
                            if has_key(self@.entries, key@) {
                                let t = key_index(self@.entries, key@);
                                assert(0 <= t < self@.entries.len() && self@.entries[t].key
                                    == key@);
                                let t0: int = if t < i as int { t } else { t + 1 };
                                assert(old(self)@.entries[t0].key == key@);
                                lemma_key_index_agrees(old(self)@.entries, key@, t0);
                            }
                        }
                        true
                    } else {
                        let e = &mut self.entries[i];
                        e.producer = None;
                        proof {
                            lemma_map_values_update(
                                old(self).entries@,
                                |en: StreamEntry| en@,
                                i as int,
                                self.entries@[i as int],
                            );
                            assert(self@ =~~= spec_unpublish(old(self)@, key@, producer));
                            lemma_key_index_agrees(self@.entries, key@, i as int);
                        }
                        true
                    }
                } else {
                    false
                }
            },
        }
    }

    /// Apply `Unsubscribe(key, id)`: detach the subscriber that `subscribe`
    /// returned `id` for. A stale request is an idempotent no-op. If the
    /// entry is left with neither a producer nor any subscriber it is
    /// removed on the spot. After this call no frame can reach `id` again:
    /// the subscriber and its queue are gone from the registry.
    pub fn unsubscribe(&mut self, key: &StreamKey, id: u64) -> (removed: bool)
        requires
            old(self).wf(),
        ensures
            final(self)@ == spec_unsubscribe(old(self)@, key@, id),
            removed == is_subscribed(old(self)@, key@, id),
            !is_subscribed(final(self)@, key@, id),
            final(self).wf(),
    {
        proof {
            lemma_unsubscribe_preserves_wf(old(self)@, key@, id);
        }
        match self.find_entry(key) {
            None => {
                false
            },
            Some(i) => {
                proof {
                    lemma_key_index_agrees(old(self)@.entries, key@, i as int);
                }
                match find_sub(&self.entries[i].subs, id) {
                    None => {
                        false
                    },
                    Some(j) => {
                        proof {
                            lemma_sub_index_agrees(
                                old(self)@.entries[i as int].subs,
                                id,
                                j as int,
                            );
                        }
                        let remove_entry: bool;
                        {
                            let e = &mut self.entries[i];
                            e.subs.remove(j);
                            remove_entry = e.subs.len() == 0 && e.producer.is_none();
                        }
                        proof {
                            lemma_map_values_remove(
                                old(self).entries@[i as int].subs@,
                                |s: Subscriber| s@,
                                j as int,
                            );
                            lemma_map_values_update(
                                old(self).entries@,
                                |en: StreamEntry| en@,
                                i as int,
                                self.entries@[i as int],
                            );
                        }
                        let ghost v1 = self.entries@;
                        if remove_entry {
                            self.entries.remove(i);
                            proof {
                                lemma_map_values_remove(v1, |en: StreamEntry| en@, i as int);
                                assert(self@.entries =~= old(self)@.entries.remove(i as int));
                                assert(self@ =~~= spec_unsubscribe(old(self)@, key@, id));
                                if has_key(self@.entries, key@) {
                                    let t = key_index(self@.entries, key@);
                                    assert(0 <= t < self@.entries.len() && self@.entries[t].key
                                        == key@);
                                    let t0: int = if t < i as int { t } else { t + 1 };
                                    assert(old(self)@.entries[t0].key == key@);
                                    lemma_key_index_agrees(old(self)@.entries, key@, t0);
                                }
                            }
                        } else {
                            proof {
                                assert(self@ =~~= spec_unsubscribe(old(self)@, key@, id));
                                lemma_key_index_agrees(self@.entries, key@, i as int);
                                let subs2 = self@.entries[i as int].subs;
                                if has_sub(subs2, id) {
                                    let t = sub_index(subs2, id);
                                    assert(0 <= t < subs2.len() && subs2[t].id == id);
                                    let t0: int = if t < j as int { t } else { t + 1 };
                                    let old_subs = old(self)@.entries[i as int].subs;
                                    assert(subs2[t] == old_subs[t0]);
                                    assert(old_subs[t0].id != old_subs[j as int].id);
                                }
                            }
                        }
                        true
                    },
                }
            },
        }
    }

    /// Fan a frame for `key` out to every current subscriber of `key`: each
    /// subscriber with room in its bounded queue receives the frame appended
    /// in arrival order; a subscriber whose queue is full has the frame
    /// dropped for it alone, and its drop counter stepped. The producer is
    /// never blocked, and a frame for a key with no live entry is discarded.
    pub fn deliver_frame(&mut self, key: &StreamKey, frame: &MediaFrame)
        requires
            old(self).wf(),
        ensures
            final(self)@ == spec_dispatch(old(self)@, key@, frame@),
            final(self).wf(),
    {
        proof {
            lemma_dispatch_preserves_wf(old(self)@, key@, frame@);
        }
        match self.find_entry(key) {
            None => {
            },
            Some(i) => {
                proof {
                    lemma_key_index_agrees(old(self)@.entries, key@, i as int);
                }
                let mut entry = self.entries.remove(i);
                let ghost old_subs = entry@.subs;
                let ghost k0 = entry.key@;
                let ghost p0 = entry.producer;
                let mut j: usize = 0;
                while j < entry.subs.len()
                    invariant
                        j <= entry.subs.len(),
                        entry.subs@.len() == old_subs.len(),
                        entry.key@ == k0,
                        entry.producer == p0,
                        forall|t: int|
                            0 <= t < j ==> entry@.subs[t] == deliver_to(old_subs[t], frame@),
                        forall|t: int| j <= t < old_subs.len() ==> entry@.subs[t] == old_subs[t],
                    decreases entry.subs.len() - j,
                {
                    let ghost subs_pre = entry.subs@;
                    {
                        let s = &mut entry.subs[j];
                        let ghost q_pre = s.queue@;
                        if s.queue.len() < s.capacity {
                            s.queue.push(frame.clone());
                            proof {
                                lemma_map_values_push(
                                    q_pre,
                                    |f: MediaFrame| f@,
                                    s.queue@[q_pre.len() as int],
                                );
                                assert(s@ == deliver_to(subs_pre[j as int]@, frame@));
                            }
                        } else if s.dropped < u64::MAX {
                            s.dropped = s.dropped + 1;
                            proof {
                                assert(s@ == deliver_to(subs_pre[j as int]@, frame@));
                            }
                        } else {
                            proof {
                                assert(s@ == deliver_to(subs_pre[j as int]@, frame@));
                            }
                        }
                    }
                    proof {
                        lemma_map_values_update(
                            subs_pre,
                            |s: Subscriber| s@,
                            j as int,
                            entry.subs@[j as int],
                        );
                        assert(entry.subs@ == subs_pre.update(j as int, entry.subs@[j as int]));
                        assert(subs_pre[j as int]@ == old_subs[j as int]);
                        assert(entry.subs@[j as int]@ == deliver_to(old_subs[j as int], frame@));
                        assert(entry@.subs == subs_pre.map_values(|s: Subscriber| s@).update(
                            j as int,
                            entry.subs@[j as int]@,
                        ));
                    }
                    j = j + 1;
                }
                proof {
                    assert(entry@.subs =~= old_subs.map_values(|s: SubView| deliver_to(s, frame@)));
                }
                self.entries.insert(i, entry);
                proof {
                    lemma_map_values_remove(old(self).entries@, |en: StreamEntry| en@, i as int);
                    lemma_map_values_insert(
                        old(self).entries@.remove(i as int),
                        |en: StreamEntry| en@,
                        i as int,
                        self.entries@[i as int],
                    );
                    assert(self@.entries =~= old(self)@.entries.update(
                        i as int,
                        self@.entries[i as int],
                    ));
                    assert(self@ =~~= spec_dispatch(old(self)@, key@, frame@));
                }
            },
        }
    }

    /// Receive side of subscriber `id`'s delivery queue on `key`: take the
    /// earliest still-queued frame, or nothing when the queue is empty or
    /// the subscription is not live. Frames come out in exactly the order
    /// `deliver_frame` appended them.
    pub fn pop_frame(&mut self, key: &StreamKey, id: u64) -> (r: Option<MediaFrame>)
        requires
            old(self).wf(),
        ensures
            final(self)@ == spec_pop(old(self)@, key@, id),
            r matches Some(f) ==> spec_pop_result(old(self)@, key@, id) == Some(f@),
            r is None ==> spec_pop_result(old(self)@, key@, id) is None,
            final(self).wf(),
    {
        proof {
            lemma_pop_preserves_wf(old(self)@, key@, id);
        }
        match self.find_entry(key) {
            None => None,
            Some(i) => {
                proof {
                    lemma_key_index_agrees(old(self)@.entries, key@, i as int);
                }
                match find_sub(&self.entries[i].subs, id) {
                    None => None,
                    Some(j) => {
                        proof {
                            lemma_sub_index_agrees(
                                old(self)@.entries[i as int].subs,
                                id,
                                j as int,
                            );
                        }
                        let mut popped: Option<MediaFrame> = None;
                        {
                            let e = &mut self.entries[i];
                            if e.subs[j].queue.len() > 0 {
                                let ghost subs_pre = e.subs@;
                                {
                                    let s = &mut e.subs[j];
                                    let ghost q_pre = s.queue@;
                                    let f = s.queue.remove(0);
                                    proof {
                                        lemma_map_values_remove(q_pre, |fr: MediaFrame| fr@, 0);
                                        assert(s@.queue == q_pre.map_values(
                                            |fr: MediaFrame| fr@,
                                        ).remove(0));
                                    }
                                    popped = Some(f);
                                }
                                proof {
                                    lemma_map_values_update(
                                        subs_pre,
                                        |s: Subscriber| s@,
                                        j as int,
                                        e.subs@[j as int],
                                    );
                                }
                            }
                        }
                        proof {
                            lemma_map_values_update(
                                old(self).entries@,
                                |en: StreamEntry| en@,
                                i as int,
                                self.entries@[i as int],
                            );
                            if popped is Some {
                                assert(self@ =~~= spec_pop(old(self)@, key@, id));
                            } else {
                                assert(self@.entries =~= old(self)@.entries);
                                assert(self@ =~~= old(self)@);
                            }
                        }
                        popped
                    },
                }
            },
        }
    }

    /// The producer identity currently holding the slot for `key`, if any.
    pub fn current_producer(&self, key: &StreamKey) -> (r: Option<u64>)
        requires
            self.wf(),
        ensures
            r == producer_of(self@, key@),
    {
        match self.find_entry(key) {
            None => None,
            Some(i) => {
                proof {
                    lemma_key_index_agrees(self@.entries, key@, i as int);
                }
                self.entries[i].producer
            },
        }
    }

    /// Whether subscriber `id` is currently attached to `key`.
    pub fn is_subscriber(&self, key: &StreamKey, id: u64) -> (r: bool)
        requires
            self.wf(),
        ensures
            r == is_subscribed(self@, key@, id),
    {
        match self.find_entry(key) {
            None => false,
            Some(i) => {
                proof {
                    lemma_key_index_agrees(self@.entries, key@, i as int);
                }
                match find_sub(&self.entries[i].subs, id) {
                    None => false,
                    Some(j) => {
                        proof {
                            lemma_sub_index_agrees(self@.entries[i as int].subs, id, j as int);
                        }
                        true
                    },
                }
            },
        }
    }

    /// How many subscribers `key` currently has (zero when it is not live).
    pub fn subscriber_count(&self, key: &StreamKey) -> (n: usize)
        requires
            self.wf(),
        ensures
            has_key(self@.entries, key@) ==> n == entry_of(self@.entries, key@).subs.len(),
            !has_key(self@.entries, key@) ==> n == 0,
    {
        match self.find_entry(key) {
            None => 0,
            Some(i) => {
                proof {
                    lemma_key_index_agrees(self@.entries, key@, i as int);
                }
                self.entries[i].subs.len()
            },
        }
    }

    /// How many frames were dropped for subscriber `id` on `key` because its
    /// queue was full, or nothing when the subscription is not live.
    pub fn dropped_count(&self, key: &StreamKey, id: u64) -> (r: Option<u64>)
        requires
            self.wf(),
        ensures
            is_subscribed(self@, key@, id) ==> r == Some(dropped_of(self@, key@, id)),
            !is_subscribed(self@, key@, id) ==> r is None,
    {
        match self.find_entry(key) {
            None => None,
            Some(i) => {
                proof {
                    lemma_key_index_agrees(self@.entries, key@, i as int);
                }
                match find_sub(&self.entries[i].subs, id) {
                    None => None,
                    Some(j) => {
                        proof {
                            lemma_sub_index_agrees(self@.entries[i as int].subs, id, j as int);
                        }
                        Some(self.entries[i].subs[j].dropped)
                    },
                }
            },
        }
    }

    /// Apply one control event, dispatching on the tagged union exhaustively.
    /// This is the hub's whole command-loop step: the composition layer only
    /// has to feed it events in arrival order.
    pub fn handle_event(&mut self, event: StreamHubEvent) -> (out: EventOutcome)
        requires
            old(self).wf(),
            old(self).next_sub_id < u64::MAX,
        ensures
            final(self)@ == spec_step(old(self)@, event@),
            final(self).wf(),
            event@ matches EventView::Publish { key, .. } ==> out == (EventOutcome::Published {
                replaced: producer_of(old(self)@, key),
            }),
            event@ matches EventView::Unpublish { key, producer } ==> out
                == (EventOutcome::Unpublished {
                removed: producer_of(old(self)@, key) == Some(producer),
            }),
            event@ matches EventView::Subscribe { .. } ==> out == (EventOutcome::Subscribed {
                id: old(self)@.next_sub_id,
            }),
            event@ matches EventView::Unsubscribe { key, id } ==> out
                == (EventOutcome::Unsubscribed { removed: is_subscribed(old(self)@, key, id) }),
    {
        match event {
            StreamHubEvent::Publish { key, producer } => {
                let replaced = self.publish(key, producer);
                EventOutcome::Published { replaced }
            },
            StreamHubEvent::Unpublish { key, producer } => {
                let removed = self.unpublish(&key, producer);
                EventOutcome::Unpublished { removed }
            },
            StreamHubEvent::Subscribe { key, capacity } => {
                let id = self.subscribe(key, capacity);
                EventOutcome::Subscribed { id }
            },
            StreamHubEvent::Unsubscribe { key, id } => {
                let removed = self.unsubscribe(&key, id);
                EventOutcome::Unsubscribed { removed }
            },
        }
    }
}

} // verus!
