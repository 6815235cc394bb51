//! Data model of the event log and its mathematical replay semantics.
//!
//! An [`Event`] is one record of the append-only log. The spec functions
//! here define, over sequences of event views, what the replay of a log
//! slice means: `inventory_after` is the map of live objects after folding
//! a slice, and `deleted_ids` is the sequence of identifiers named by
//! delete events, in log order.

use vstd::prelude::*;

verus! {

/// Length in bytes of an object identifier (the fixed-size prefix of a
/// serialized object from which its identity is read).
pub const ID_LENGTH: usize = 20;

/// Length in bytes of an account address.
pub const ADDRESS_LENGTH: usize = 20;

/// The kind of a log record. The first five kinds are emitted by ordinary
/// domain logic; `WrappedObject` is a synthetic marker emitted only by this
/// engine, kept as a distinct variant so that it can never collide with an
/// ordinary kind.
#[derive(Clone, Copy, PartialEq, Eq, Structural, Debug)]
pub enum EventType {
    TransferToAddress,
    TransferToObject,
    FreezeObject,
    DeleteObjectID,
    User,
    WrappedObject,
}

/// Who holds a live object.
#[derive(Debug)]
pub enum Owner {
    /// Owned directly by an account address.
    AddressOwner(Vec<u8>),
    /// Owned by another object, named by its address.
    ObjectOwner(Vec<u8>),
    /// Frozen: immutable and spendable by every address.
    SharedImmutable,
}

/// Spec-level mirror of [`Owner`].
pub enum OwnerView {
    AddressOwner(Seq<u8>),
    ObjectOwner(Seq<u8>),
    SharedImmutable,
}

impl View for Owner {
    type V = OwnerView;

    open spec fn view(&self) -> OwnerView {
        match self {
            Owner::AddressOwner(a) => OwnerView::AddressOwner(a@),
            Owner::ObjectOwner(a) => OwnerView::ObjectOwner(a@),
            Owner::SharedImmutable => OwnerView::SharedImmutable,
        }
    }
}

/// One record of the append-only event log.
///
/// The meaning of `recipient` and `payload` depends on `kind`:
/// - transfers: `recipient` is the receiving address, `payload` the
///   serialized object bytes (whose fixed-length prefix is its identifier);
/// - freezes: `payload` as for transfers, `recipient` unused;
/// - deletes: `payload` is the deleted identifier itself, `recipient` unused;
/// - wraps: `recipient` is the wrapped identifier, `payload` unused;
/// - user events: neither field is read by the engine.
#[derive(Debug)]
pub struct Event {
    pub recipient: Vec<u8>,
    pub kind: EventType,
    pub type_tag: u64,
    pub payload: Vec<u8>,
}

/// Spec-level mirror of [`Event`].
pub struct EventView {
    pub recipient: Seq<u8>,
    pub kind: EventType,
    pub type_tag: u64,
    pub payload: Seq<u8>,
}

impl View for Event {
    type V = EventView;

    open spec fn view(&self) -> EventView {
        EventView {
            recipient: self.recipient@,
            kind: self.kind,
            type_tag: self.type_tag,
            payload: self.payload@,
        }
    }
}

/// A live object as the inventory records it: its last-known serialized
/// snapshot, static type, and owner.
#[derive(Debug)]
pub struct OwnedObj {
    pub value: Vec<u8>,
    pub type_tag: u64,
    pub owner: Owner,
}

/// Spec-level mirror of [`OwnedObj`].
pub struct ObjView {
    pub value: Seq<u8>,
    pub type_tag: u64,
    pub owner: OwnerView,
}

impl View for OwnedObj {
    type V = ObjView;

    open spec fn view(&self) -> ObjView {
        ObjView { value: self.value@, type_tag: self.type_tag, owner: self.owner@ }
    }
}

/// The views of a sequence of events.
pub open spec fn log_view(events: Seq<Event>) -> Seq<EventView> {
    events.map_values(|e: Event| e@)
}

/// Whether `kind` records a transfer or a freeze: the kinds that insert an
/// entry into the inventory.
pub open spec fn is_insertion(kind: EventType) -> bool {
    kind == EventType::TransferToAddress || kind == EventType::TransferToObject || kind
        == EventType::FreezeObject
}

/// The identifier of the object a transfer or freeze event carries: the
/// fixed-length prefix of its serialized payload.
pub open spec fn transfer_id(e: EventView) -> Seq<u8> {
    e.payload.take(ID_LENGTH as int)
}

/// The owner an insertion event assigns.
pub open spec fn owner_of(e: EventView) -> OwnerView {
    match e.kind {
        EventType::TransferToAddress => OwnerView::AddressOwner(e.recipient),
        EventType::TransferToObject => OwnerView::ObjectOwner(e.recipient),
        _ => OwnerView::SharedImmutable,
    }
}

/// The inventory entry an insertion event creates.
pub open spec fn entry_of(e: EventView) -> ObjView {
    ObjView { value: e.payload, type_tag: e.type_tag, owner: owner_of(e) }
}

/// One step of the replay: how a single event changes the live inventory.
/// A transfer or freeze inserts (overwriting any earlier entry for the same
/// identifier), a delete or wrap removes, a user event changes nothing.
pub open spec fn apply_event(inv: Map<Seq<u8>, ObjView>, e: EventView) -> Map<Seq<u8>, ObjView> {
    match e.kind {
        EventType::TransferToAddress | EventType::TransferToObject | EventType::FreezeObject => inv
            .insert(transfer_id(e), entry_of(e)),
        EventType::DeleteObjectID => inv.remove(e.payload),
        EventType::WrappedObject => inv.remove(e.recipient),
        EventType::User => inv,
    }
}

/// The live inventory after replaying a whole log slice, left to right.
pub open spec fn inventory_after(log: Seq<EventView>) -> Map<Seq<u8>, ObjView>
    decreases log.len(),
{
    if log.len() == 0 {
        Map::empty()
    } else {
        apply_event(inventory_after(log.drop_last()), log.last())
    }
}

/// Structural well-formedness of one event: the fields the engine reads
/// have the lengths a correct upstream emitter gives them. A log breaking
/// this is malformed, and replaying it is a fatal emitter bug upstream.
pub open spec fn event_wf(e: EventView) -> bool {
    match e.kind {
        EventType::TransferToAddress | EventType::TransferToObject => e.payload.len() >= ID_LENGTH
            && e.recipient.len() == ADDRESS_LENGTH,
        EventType::FreezeObject => e.payload.len() >= ID_LENGTH,
        EventType::DeleteObjectID => e.payload.len() == ID_LENGTH,
        EventType::WrappedObject => e.recipient.len() == ID_LENGTH,
        EventType::User => true,
    }
}

/// Every event of the slice is well-formed.
pub open spec fn log_wf(log: Seq<EventView>) -> bool {
    forall|i: int| 0 <= i < log.len() ==> event_wf(#[trigger] log[i])
}

/// Every wrap event of the slice names an identifier that is live at that
/// point of the replay. A wrap naming a dead identifier is an internal
/// consistency violation: wraps are emitted only by this engine, for
/// objects it has seen live.
pub open spec fn wraps_resolvable(log: Seq<EventView>) -> bool {
    forall|i: int|
        0 <= i < log.len() && (#[trigger] log[i]).kind == EventType::WrappedObject
            ==> inventory_after(log.take(i)).dom().contains(log[i].recipient)
}

/// The identifiers named by the delete events of a slice, in log order,
/// with duplicates kept and nothing filtered.
pub open spec fn deleted_ids(log: Seq<EventView>) -> Seq<Seq<u8>>
    decreases log.len(),
{
    if log.len() == 0 {
        Seq::empty()
    } else {
        let rest = deleted_ids(log.drop_last());
        if log.last().kind == EventType::DeleteObjectID {
            rest.push(log.last().payload)
        } else {
            rest
        }
    }
}

/// The tail of a log strictly after position `begin`: the events whose
/// index is greater than `begin`; empty when `begin` is at or past the
/// last index.
pub open spec fn suffix_from(log: Seq<EventView>, begin: int) -> Seq<EventView> {
    if begin < 0 {
        log
    } else if begin + 1 >= log.len() {
        Seq::empty()
    } else {
        log.subrange(begin + 1, log.len() as int)
    }
}

/// The prefix of a log before position `end`.
pub open spec fn prefix_to(log: Seq<EventView>, end: int) -> Seq<EventView> {
    log.take(end)
}

/// Whether an inventory entry answers a query for owner `addr` and type
/// `type_tag`: the type must match exactly, and the owner must be either
/// that very address or shared-immutable, which every address may spend.
pub open spec fn obj_matches(obj: ObjView, addr: Seq<u8>, type_tag: u64) -> bool {
    obj.type_tag == type_tag && (obj.owner == OwnerView::AddressOwner(addr) || obj.owner
        == OwnerView::SharedImmutable)
}

/// The set of object values an inventory holds for owner `addr` and type
/// `type_tag`.
pub open spec fn matching_values(inv: Map<Seq<u8>, ObjView>, addr: Seq<u8>, type_tag: u64) -> Set<
    Seq<u8>,
> {
    Set::new(
        |v: Seq<u8>|
            exists|k: Seq<u8>|
                inv.dom().contains(k) && (#[trigger] inv[k]).value == v && obj_matches(
                    inv[k],
                    addr,
                    type_tag,
                ),
    )
}

} // verus!
