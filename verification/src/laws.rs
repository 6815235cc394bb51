//! Laws of the replay semantics: how the inventory after a slice relates to
//! the events inside it.

use crate::model::{
    apply_event, deleted_ids, entry_of, inventory_after, is_insertion, prefix_to, transfer_id,
    EventType, EventView, ObjView,
};
use vstd::prelude::*;

verus! {

/// Whether an event concerns the identifier `id`: it inserts, deletes or
/// wraps the object with that identifier. User events concern nothing.
pub open spec fn event_touches(e: EventView, id: Seq<u8>) -> bool {
    match e.kind {
        EventType::TransferToAddress | EventType::TransferToObject | EventType::FreezeObject =>
            transfer_id(e) == id,
        EventType::DeleteObjectID => e.payload == id,
        EventType::WrappedObject => e.recipient == id,
        EventType::User => false,
    }
}

/// A replay step leaves every identifier its event does not touch exactly
/// as it was: neither its liveness nor its entry changes.
pub proof fn lemma_apply_untouched(inv: Map<Seq<u8>, ObjView>, e: EventView, id: Seq<u8>)
    requires
        !event_touches(e, id),
    ensures
        apply_event(inv, e).dom().contains(id) == inv.dom().contains(id),
        inv.dom().contains(id) ==> apply_event(inv, e)[id] == inv[id],
{
}

/// Replay is deterministic: the inventory after a slice is a function of
/// the slice alone, so two replays of the same slice yield the same
/// inventory.
pub proof fn lemma_replay_deterministic(log1: Seq<EventView>, log2: Seq<EventView>)
    requires
        log1 == log2,
    ensures
        inventory_after(log1) == inventory_after(log2),
{
}

/// Prefix monotonicity: extending the replayed prefix by events that do
/// not touch an identifier changes nothing about it — it is live in the
/// longer prefix's inventory exactly when it is live in the shorter one's,
/// and with the same owner, type and value.
pub proof fn lemma_prefix_monotonic(log: Seq<EventView>, end1: int, end2: int, id: Seq<u8>)
    requires
        0 <= end1 <= end2 <= log.len(),
        forall|i: int| end1 <= i < end2 ==> !event_touches(#[trigger] log[i], id),
    ensures
        inventory_after(prefix_to(log, end2)).dom().contains(id) == inventory_after(
            prefix_to(log, end1),
        ).dom().contains(id),
        inventory_after(prefix_to(log, end1)).dom().contains(id) ==> inventory_after(
            prefix_to(log, end2),
        )[id] == inventory_after(prefix_to(log, end1))[id],
    decreases end2 - end1,
{
    if end1 < end2 {
        lemma_prefix_monotonic(log, end1, end2 - 1, id);
        assert(prefix_to(log, end2).drop_last() =~= prefix_to(log, end2 - 1));
        assert(prefix_to(log, end2).last() == log[end2 - 1]);
        lemma_apply_untouched(inventory_after(prefix_to(log, end2 - 1)), log[end2 - 1], id);
    }
}

/// The last event touching an identifier decides its fate in the replayed
/// slice: a delete or wrap leaves it out of the inventory, a transfer or
/// freeze leaves it in with exactly that event's value, type and owner.
pub proof fn lemma_last_touch_decides(log: Seq<EventView>, j: int, id: Seq<u8>)
    requires
        0 <= j < log.len(),
        event_touches(log[j], id),
        forall|i: int| j < i < log.len() ==> !event_touches(#[trigger] log[i], id),
    ensures
        (log[j].kind == EventType::DeleteObjectID || log[j].kind == EventType::WrappedObject)
            ==> !inventory_after(log).dom().contains(id),
        is_insertion(log[j].kind) ==> inventory_after(log).dom().contains(id) && inventory_after(
            log,
        )[id] == entry_of(log[j]),
{
    let p = prefix_to(log, j + 1);
    assert(p.drop_last() =~= prefix_to(log, j));
    assert(p.last() == log[j]);
    lemma_prefix_monotonic(log, j + 1, log.len() as int, id);
    assert(prefix_to(log, log.len() as int) =~= log);
}

/// Delete overrides: when a delete event for an identifier comes after its
/// last transfer or freeze within the slice, the identifier is absent from
/// the resulting inventory.
pub proof fn lemma_delete_wins(log: Seq<EventView>, j: int)
    requires
        0 <= j < log.len(),
        log[j].kind == EventType::DeleteObjectID,
        forall|i: int| j < i < log.len() ==> !event_touches(#[trigger] log[i], log[j].payload),
    ensures
        !inventory_after(log).dom().contains(log[j].payload),
{
    lemma_last_touch_decides(log, j, log[j].payload);
}

/// Reappearance: a transfer or freeze after a delete of the same
/// identifier makes it live again, with the new owner, type and value.
pub proof fn lemma_transfer_revives(log: Seq<EventView>, j: int)
    requires
        0 <= j < log.len(),
        is_insertion(log[j].kind),
        forall|i: int| j < i < log.len() ==> !event_touches(#[trigger] log[i], transfer_id(log[j])),
    ensures
        inventory_after(log).dom().contains(transfer_id(log[j])),
        inventory_after(log)[transfer_id(log[j])] == entry_of(log[j]),
{
    lemma_last_touch_decides(log, j, transfer_id(log[j]));
}

/// Wrap removal: after a wrap event for an identifier not touched again
/// within the slice, the identifier is absent from the inventory — so it
/// appears neither among the transferred identifiers of a tail including
/// the wrap nor in any owner query over a prefix including it.
pub proof fn lemma_wrap_removes(log: Seq<EventView>, j: int)
    requires
        0 <= j < log.len(),
        log[j].kind == EventType::WrappedObject,
        forall|i: int| j < i < log.len() ==> !event_touches(#[trigger] log[i], log[j].recipient),
    ensures
        !inventory_after(log).dom().contains(log[j].recipient),
{
    lemma_last_touch_decides(log, j, log[j].recipient);
}

/// The delete events of a slice, in order, duplicates kept.
pub open spec fn delete_events(log: Seq<EventView>) -> Seq<EventView> {
    log.filter(|e: EventView| e.kind == EventType::DeleteObjectID)
}

/// The payloads of a sequence of events, in order.
pub open spec fn payloads(s: Seq<EventView>) -> Seq<Seq<u8>> {
    s.map_values(|e: EventView| e.payload)
}

/// The deleted-identifier listing is suffix-only and unfiltered: it equals
/// the delete events of the slice, kept in order with duplicates, each
/// mapped to the identifier it names.
pub proof fn lemma_deleted_ids_unfiltered(log: Seq<EventView>)
    ensures
        deleted_ids(log) == payloads(delete_events(log)),
    decreases log.len(),
{
    reveal(Seq::filter);
    if log.len() == 0 {
        assert(deleted_ids(log) =~= payloads(delete_events(log)));
    } else {
        lemma_deleted_ids_unfiltered(log.drop_last());
        if log.last().kind == EventType::DeleteObjectID {
            assert(delete_events(log) == delete_events(log.drop_last()).push(log.last()));
            assert(payloads(delete_events(log)) =~= payloads(delete_events(log.drop_last())).push(
                log.last().payload,
            ));
        } else {
            assert(delete_events(log) == delete_events(log.drop_last()));
        }
    }
}

} // verus!
