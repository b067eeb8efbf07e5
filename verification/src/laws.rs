//! The guarantees the hub gives, stated over the registry's mathematical
//! model and proved once for every reachable state: producer exclusivity,
//! subscriber isolation under fan-out, per-subscriber frame order, the
//! impossibility of delivery after unsubscribe, survival of subscriptions
//! across producer churn, and entry cleanup.

use vstd::prelude::*;
use crate::frame::FrameView;
use crate::hub::{
    HubView, KeyView, EventView, hub_wf, entry_wf, has_key, key_index, entry_of, has_sub,
    sub_index, producer_of, is_subscribed, queue_of, fresh_sub, deliver_to, spec_publish,
    spec_unpublish, spec_subscribe, spec_unsubscribe, spec_dispatch, spec_step,
    lemma_key_index_agrees, lemma_sub_index_agrees, lemma_publish_preserves_wf,
    lemma_unpublish_preserves_wf, lemma_subscribe_preserves_wf, lemma_unsubscribe_preserves_wf,
    lemma_dispatch_preserves_wf,
};

verus! {

/// Every control event — whatever its kind and arguments — carries a
/// well-formed registry to a well-formed registry, so the invariant holds
/// along any event history the command loop consumes.
pub proof fn lemma_step_preserves_wf(h: HubView, e: EventView)
    requires
        hub_wf(h),
        h.next_sub_id < u64::MAX,
    ensures
        hub_wf(spec_step(h, e)),
{
    match e {
        EventView::Publish { key, producer } => lemma_publish_preserves_wf(h, key, producer),
        EventView::Unpublish { key, producer } => lemma_unpublish_preserves_wf(h, key, producer),
        EventView::Subscribe { key, capacity } => lemma_subscribe_preserves_wf(h, key, capacity),
        EventView::Unsubscribe { key, id } => lemma_unsubscribe_preserves_wf(h, key, id),
    }
}

/// A producer blip never costs a subscription: unpublishing leaves every
/// subscriber of the key attached, its queue untouched, waiting for the next
/// producer.
pub proof fn lemma_unpublish_keeps_subscribers(h: HubView, k: KeyView, p: u64, id: u64)
    requires
        hub_wf(h),
        is_subscribed(h, k, id),
    ensures
        is_subscribed(spec_unpublish(h, k, p), k, id),
        queue_of(spec_unpublish(h, k, p), k, id) == queue_of(h, k, id),
{
    let h1 = spec_unpublish(h, k, p);
    lemma_unpublish_preserves_wf(h, k, p);
    if producer_of(h, k) == Some(p) {
        let i = key_index(h.entries, k);
        let e = h.entries[i];
        assert(entry_wf(e, h.next_sub_id));
        let j = sub_index(e.subs, id);
        assert(0 <= j < e.subs.len() && e.subs[j].id == id);
        assert(h1.entries[i].key == k);
        lemma_key_index_agrees(h1.entries, k, i);
        lemma_sub_index_agrees(h1.entries[i].subs, id, j);
    }
}

/// Exclusivity, structural half: a well-formed registry holds at most one
/// entry — hence at most one producer slot — for any key, at any instant.
pub proof fn lemma_producer_exclusive(h: HubView, k: KeyView, i: int, j: int)
    requires
        hub_wf(h),
        0 <= i < h.entries.len(),
        0 <= j < h.entries.len(),
        h.entries[i].key == k,
        h.entries[j].key == k,
    ensures
        i == j,
{
    if i != j {
        assert(h.entries[i].key != h.entries[j].key);
    }
}

/// Exclusivity under replacement: after two publishes for the same key, the
/// later producer alone holds the slot.
pub proof fn lemma_publish_replaces(h: HubView, k: KeyView, p1: u64, p2: u64)
    requires
        hub_wf(h),
    ensures
        producer_of(spec_publish(spec_publish(h, k, p1), k, p2), k) == Some(p2),
{
    let h1 = spec_publish(h, k, p1);
    let h2 = spec_publish(h1, k, p2);
    lemma_publish_preserves_wf(h, k, p1);
    lemma_publish_preserves_wf(h1, k, p2);
    if has_key(h.entries, k) {
        let i = key_index(h.entries, k);
        assert(h1.entries[i].key == k);
        lemma_key_index_agrees(h1.entries, k, i);
        assert(h2.entries[i].key == k);
        lemma_key_index_agrees(h2.entries, k, i);
    } else {
        let n = h.entries.len() as int;
        assert(h1.entries[n].key == k);
        lemma_key_index_agrees(h1.entries, k, n);
        assert(h2.entries[n].key == k);
        lemma_key_index_agrees(h2.entries, k, n);
    }
}

/// Subscriber isolation: what fan-out does to one subscriber is a function
/// of that subscriber's own queue alone. In particular a subscriber with
/// room receives the frame whatever the state — full, slow, or otherwise —
/// of every other subscriber of the key; and fan-out is a total transition,
/// so no subscriber's state can block the producer.
pub proof fn lemma_subscriber_isolation(h: HubView, k: KeyView, f: FrameView, j: int)
    requires
        hub_wf(h),
        has_key(h.entries, k),
        0 <= j < entry_of(h.entries, k).subs.len(),
    ensures
        entry_of(spec_dispatch(h, k, f).entries, k).subs.len() == entry_of(h.entries, k).subs.len(),
        entry_of(spec_dispatch(h, k, f).entries, k).subs[j] == deliver_to(
            entry_of(h.entries, k).subs[j],
            f,
        ),
        entry_of(h.entries, k).subs[j].queue.len() < entry_of(h.entries, k).subs[j].capacity
            ==> entry_of(spec_dispatch(h, k, f).entries, k).subs[j].queue == entry_of(
            h.entries,
            k,
        ).subs[j].queue.push(f),
{
    let i = key_index(h.entries, k);
    let h2 = spec_dispatch(h, k, f);
    lemma_dispatch_preserves_wf(h, k, f);
    assert(h2.entries[i].key == k);
    lemma_key_index_agrees(h2.entries, k, i);
}

/// Order preservation: a subscriber with room for them receives consecutive
/// frames appended in exactly the order the producer emitted them (and
/// `pop_frame` takes from the front, so they are received in that order).
pub proof fn lemma_order_preserved(h: HubView, k: KeyView, f1: FrameView, f2: FrameView, j: int)
    requires
        hub_wf(h),
        has_key(h.entries, k),
        0 <= j < entry_of(h.entries, k).subs.len(),
        entry_of(h.entries, k).subs[j].queue.len() + 2 <= entry_of(h.entries, k).subs[j].capacity,
    ensures
        ({
            let h2 = spec_dispatch(spec_dispatch(h, k, f1), k, f2);
            entry_of(h2.entries, k).subs[j].queue == entry_of(h.entries, k).subs[j].queue.push(
                f1,
            ).push(f2)
        }),
{
    let h1 = spec_dispatch(h, k, f1);
    let i = key_index(h.entries, k);
    lemma_subscriber_isolation(h, k, f1, j);
    lemma_dispatch_preserves_wf(h, k, f1);
    assert(h1.entries[i].key == k);
    lemma_key_index_agrees(h1.entries, k, i);
    lemma_subscriber_isolation(h1, k, f2, j);
}

/// No ghost delivery: once `Unsubscribe(key, id)` has been applied, `id` is
/// detached, and a frame dispatched afterwards — even one already in flight
/// toward the fan-out step — cannot reach `id`: no queue belonging to `id`
/// exists for that key any more. This is structural, not a race outcome.
pub proof fn lemma_no_ghost_delivery(h: HubView, k: KeyView, id: u64, f: FrameView)
    requires
        hub_wf(h),
    ensures
        !is_subscribed(spec_unsubscribe(h, k, id), k, id),
        !is_subscribed(spec_dispatch(spec_unsubscribe(h, k, id), k, f), k, id),
{
    let h1 = spec_unsubscribe(h, k, id);
    let h2 = spec_dispatch(h1, k, f);
    lemma_unsubscribe_preserves_wf(h, k, id);
    if is_subscribed(h, k, id) {
        let i = key_index(h.entries, k);
        let e = h.entries[i];
        let j = sub_index(e.subs, id);
        let subs2 = e.subs.remove(j);
        assert(entry_wf(e, h.next_sub_id));
        assert(!has_sub(subs2, id)) by {
            if has_sub(subs2, id) {
                let t = sub_index(subs2, id);
                assert(0 <= t < subs2.len() && subs2[t].id == id);
                let t0: int = if t < j {
                    t
                } else {
                    t + 1
                };
                assert(subs2[t] == e.subs[t0]);
                assert(e.subs[t0].id != e.subs[j].id);
            }
        }
        if subs2.len() == 0 && e.producer is None {
            assert(!has_key(h1.entries, k)) by {
                if has_key(h1.entries, k) {
                    let t = key_index(h1.entries, k);
                    assert(0 <= t < h1.entries.len() && h1.entries[t].key == k);
                    let t0: int = if t < i {
                        t
                    } else {
                        t + 1
                    };
                    assert(h1.entries[t] == h.entries[t0]);
                    assert(h.entries[t0].key != h.entries[i].key);
                }
            }
            assert(h2 == h1);
        } else {
            lemma_key_index_agrees(h1.entries, k, i);
            lemma_dispatch_preserves_wf(h1, k, f);
            assert(h2.entries[i].key == k);
            lemma_key_index_agrees(h2.entries, k, i);
            assert(!has_sub(h2.entries[i].subs, id)) by {
                if has_sub(h2.entries[i].subs, id) {
                    let t = sub_index(h2.entries[i].subs, id);
                    assert(h2.entries[i].subs[t] == deliver_to(h1.entries[i].subs[t], f));
                    assert(h1.entries[i].subs[t].id == id);
                    assert(has_sub(h1.entries[i].subs, id));
                }
            }
        }
    } else {
        assert(h1 == h);
        if has_key(h1.entries, k) {
            let i = key_index(h1.entries, k);
            lemma_dispatch_preserves_wf(h1, k, f);
            assert(h2.entries[i].key == k);
            lemma_key_index_agrees(h2.entries, k, i);
            assert(!has_sub(h2.entries[i].subs, id)) by {
                if has_sub(h2.entries[i].subs, id) {
                    let t = sub_index(h2.entries[i].subs, id);
                    assert(h2.entries[i].subs[t] == deliver_to(h1.entries[i].subs[t], f));
                    assert(h1.entries[i].subs[t].id == id);
                    assert(has_sub(h1.entries[i].subs, id));
                }
            }
        } else {
            assert(h2 == h1);
        }
    }
}

/// Survival across producer churn: a subscription taken out before any
/// producer exists stays alive, and the first frame the later producer
/// emits lands in that subscriber's queue.
pub proof fn lemma_survives_producer_churn(
    h: HubView,
    k: KeyView,
    capacity: nat,
    p: u64,
    f: FrameView,
)
    requires
        hub_wf(h),
        h.next_sub_id < u64::MAX,
        capacity >= 1,
        !has_key(h.entries, k),
    ensures
        ({
            let id = h.next_sub_id;
            let h3 = spec_dispatch(spec_publish(spec_subscribe(h, k, capacity), k, p), k, f);
            &&& is_subscribed(h3, k, id)
            &&& queue_of(h3, k, id) == seq![f]
        }),
{
    let id = h.next_sub_id;
    let h1 = spec_subscribe(h, k, capacity);
    let h2 = spec_publish(h1, k, p);
    let h3 = spec_dispatch(h2, k, f);
    let n = h.entries.len() as int;
    lemma_subscribe_preserves_wf(h, k, capacity);
    assert(h1.entries[n].key == k);
    lemma_key_index_agrees(h1.entries, k, n);
    lemma_publish_preserves_wf(h1, k, p);
    assert(h2.entries[n].key == k);
    lemma_key_index_agrees(h2.entries, k, n);
    lemma_dispatch_preserves_wf(h2, k, f);
    assert(h3.entries[n].key == k);
    lemma_key_index_agrees(h3.entries, k, n);
    assert(h1.entries[n].subs == seq![fresh_sub(id, capacity)]);
    assert(h2.entries[n].subs == h1.entries[n].subs);
    assert(h3.entries[n].subs[0] == deliver_to(fresh_sub(id, capacity), f));
    assert(h3.entries[n].subs[0].id == id);
    assert(entry_wf(h3.entries[n], h3.next_sub_id));
    lemma_sub_index_agrees(h3.entries[n].subs, id, 0);
    assert(queue_of(h3, k, id) =~= seq![f]);
}

/// Cleanup, invariant half: a well-formed registry holds no entry with
/// neither a producer nor a subscriber — such an entry is removed the
/// instant it arises.
pub proof fn lemma_no_empty_entries(h: HubView, i: int)
    requires
        hub_wf(h),
        0 <= i < h.entries.len(),
    ensures
        h.entries[i].producer is Some || h.entries[i].subs.len() > 0,
{
    assert(entry_wf(h.entries[i], h.next_sub_id));
}

/// Cleanup, transition half: once the last subscriber detaches and the
/// producer unpublishes, the key's entry is gone from the registry.
pub proof fn lemma_cleanup(h: HubView, k: KeyView, id: u64, p: u64)
    requires
        hub_wf(h),
        is_subscribed(h, k, id),
        entry_of(h.entries, k).subs.len() == 1,
        producer_of(h, k) == Some(p),
    ensures
        !has_key(spec_unpublish(spec_unsubscribe(h, k, id), k, p).entries, k),
{
    let h1 = spec_unsubscribe(h, k, id);
    let h2 = spec_unpublish(h1, k, p);
    let i = key_index(h.entries, k);
    let e = h.entries[i];
    lemma_unsubscribe_preserves_wf(h, k, id);
    assert(h1.entries[i].key == k);
    lemma_key_index_agrees(h1.entries, k, i);
    assert(producer_of(h1, k) == Some(p));
    assert(h1.entries[i].subs.len() == 0);
    assert(!has_key(h2.entries, k)) by {
        if has_key(h2.entries, k) {
            let t = key_index(h2.entries, k);
            assert(0 <= t < h2.entries.len() && h2.entries[t].key == k);
            let t0: int = if t < i {
                t
            } else {
                t + 1
            };
            assert(h2.entries[t] == h1.entries[t0]);
            assert(h1.entries[t0].key != h1.entries[i].key);
        }
    }
}

} // verus!
