//! The executable replay engine: the inventory builder and the queries
//! over log slices.

use crate::model::{
    deleted_ids, entry_of, event_wf, inventory_after, log_view, log_wf, matching_values,
    obj_matches, prefix_to, suffix_from, transfer_id, wraps_resolvable, Event, EventType,
    EventView, ObjView, OwnedObj, Owner, OwnerView, ADDRESS_LENGTH, ID_LENGTH,
};
use vstd::prelude::*;

verus! {

/// Copies a byte vector.
fn clone_bytes(v: &Vec<u8>) -> (r: Vec<u8>)
    ensures
        r@ == v@,
{
    let mut r: Vec<u8> = Vec::new();
    let mut i: usize = 0;
    while i < v.len()
        invariant
            i <= v.len(),
            r@ == v@.take(i as int),
        decreases v.len() - i,
    {
        r.push(v[i]);
        proof {
            assert(r@ =~= v@.take(i + 1 as int));
        }
        i = i + 1;
    }
    proof {
        assert(r@ =~= v@);
    }
    r
}

/// Whether two byte vectors hold the same bytes.
fn bytes_eq(a: &Vec<u8>, b: &Vec<u8>) -> (r: bool)
    ensures
        r == (a@ == b@),
{
    if a.len() != b.len() {
        return false;
    }
    let mut i: usize = 0;
    while i < a.len()
        invariant
            i <= a.len(),
            a@.len() == b@.len(),
            forall|j: int| 0 <= j < i ==> a@[j] == b@[j],
        decreases a.len() - i,
    {
        if a[i] != b[i] {
            return false;
        }
        i = i + 1;
    }
    proof {
        assert(a@ =~= b@);
    }
    true
}

/// The first `n` bytes of a vector.
fn take_prefix(v: &Vec<u8>, n: usize) -> (r: Vec<u8>)
    requires
        n <= v@.len(),
    ensures
        r@ == v@.take(n as int),
{
    let mut r: Vec<u8> = Vec::new();
    let mut i: usize = 0;
    while i < n
        invariant
            i <= n,
            n <= v@.len(),
            r@ == v@.take(n as int).take(i as int),
        decreases n - i,
    {
        r.push(v[i]);
        proof {
            assert(r@ =~= v@.take(n as int).take(i + 1 as int));
        }
        i = i + 1;
    }
    proof {
        assert(r@ =~= v@.take(n as int));
    }
    r
}

/// Appends a byte vector to a vector of byte vectors, tracked through the
/// nested view.
fn push_bytes(r: &mut Vec<Vec<u8>>, v: Vec<u8>)
    ensures
        final(r).deep_view() == old(r).deep_view().push(v@),
{
    let ghost before = r.deep_view();
    let ghost vv = v@;
    r.push(v);
    proof {
        assert(r.deep_view().len() == before.push(vv).len());
        assert forall|x: int| 0 <= x < r.deep_view().len() implies r.deep_view()[x] == before.push(
            vv,
        )[x] by {
            if x < before.len() {
                assert(r@[x] == old(r)@[x]);
            } else {
                assert(r.deep_view()[x] =~= vv);
            }
        }
        assert(r.deep_view() =~= before.push(vv));
    }
}

/// One inventory slot: an object identifier and the entry it owns.
#[derive(Debug)]
pub struct InvEntry {
    pub id: Vec<u8>,
    pub obj: OwnedObj,
}

/// Spec-level mirror of [`InvEntry`].
pub struct InvEntryView {
    pub id: Seq<u8>,
    pub obj: ObjView,
}

impl View for InvEntry {
    type V = InvEntryView;

    open spec fn view(&self) -> InvEntryView {
        InvEntryView { id: self.id@, obj: self.obj@ }
    }
}

/// The map an entry sequence denotes: later entries overwrite earlier ones.
pub open spec fn entries_to_map(s: Seq<InvEntryView>) -> Map<Seq<u8>, ObjView>
    decreases s.len(),
{
    if s.len() == 0 {
        Map::empty()
    } else {
        entries_to_map(s.drop_last()).insert(s.last().id, s.last().obj)
    }
}

/// No two entries share an identifier.
pub open spec fn ids_distinct(s: Seq<InvEntryView>) -> bool {
    forall|i: int, j: int| 0 <= i < j < s.len() ==> (#[trigger] s[i]).id != (#[trigger] s[j]).id
}

/// Some entry of `s` carries the identifier `k`.
pub open spec fn has_id(s: Seq<InvEntryView>, k: Seq<u8>) -> bool {
    exists|i: int| 0 <= i < s.len() && (#[trigger] s[i]).id == k
}

/// An identifier is in the denoted map's domain exactly when some entry
/// carries it.
proof fn lemma_entries_dom(s: Seq<InvEntryView>, k: Seq<u8>)
    ensures
        entries_to_map(s).dom().contains(k) == has_id(s, k),
    decreases s.len(),
{
    if s.len() == 0 {
        assert(!has_id(s, k));
    } else {
        let d = s.drop_last();
        lemma_entries_dom(d, k);
        if s.last().id == k {
            assert(s[s.len() - 1].id == k);
            assert(has_id(s, k));
        } else {
            if has_id(d, k) {
                let i = choose|i: int| 0 <= i < d.len() && (#[trigger] d[i]).id == k;
                assert(s[i].id == k);
                assert(has_id(s, k));
            }
            if has_id(s, k) {
                let i = choose|i: int| 0 <= i < s.len() && (#[trigger] s[i]).id == k;
                assert(i < s.len() - 1);
                assert(d[i].id == k);
                assert(has_id(d, k));
            }
        }
    }
}

/// With distinct identifiers, the denoted map sends each entry's identifier
/// to that entry's object.
proof fn lemma_entries_at(s: Seq<InvEntryView>, i: int)
    requires
        ids_distinct(s),
        0 <= i < s.len(),
    ensures
        entries_to_map(s).dom().contains(s[i].id),
        entries_to_map(s)[s[i].id] == s[i].obj,
    decreases s.len(),
{
    if i < s.len() - 1 {
        let d = s.drop_last();
        assert(d[i] == s[i]);
        lemma_entries_at(d, i);
        assert(s.last().id != s[i].id);
    }
}

/// Removing the entry at `i` removes exactly its identifier from the
/// denoted map.
proof fn lemma_entries_remove(s: Seq<InvEntryView>, i: int)
    requires
        ids_distinct(s),
        0 <= i < s.len(),
    ensures
        ids_distinct(s.remove(i)),
        !has_id(s.remove(i), s[i].id),
        entries_to_map(s.remove(i)) == entries_to_map(s).remove(s[i].id),
    decreases s.len(),
{
    let s2 = s.remove(i);
    assert forall|a: int, b: int| 0 <= a < b < s2.len() implies (#[trigger] s2[a]).id != (
    #[trigger] s2[b]).id by {
        let a0 = if a < i {
            a
        } else {
            a + 1
        };
        let b0 = if b < i {
            b
        } else {
            b + 1
        };
        assert(s2[a] == s[a0]);
        assert(s2[b] == s[b0]);
    }
    if has_id(s2, s[i].id) {
        let j = choose|j: int| 0 <= j < s2.len() && (#[trigger] s2[j]).id == s[i].id;
        let j0 = if j < i {
            j
        } else {
            j + 1
        };
        assert(s2[j] == s[j0]);
        assert(false);
    }
    if i == s.len() - 1 {
        assert(s2 =~= s.drop_last());
        lemma_entries_dom(s.drop_last(), s[i].id);
        if has_id(s.drop_last(), s[i].id) {
            let j = choose|j: int|
                0 <= j < s.drop_last().len() && (#[trigger] s.drop_last()[j]).id == s[i].id;
            assert(s[j].id == s[i].id);
            assert(false);
        }
        assert(entries_to_map(s2) =~= entries_to_map(s).remove(s[i].id));
    } else {
        let d = s.drop_last();
        assert forall|a: int, b: int| 0 <= a < b < d.len() implies (#[trigger] d[a]).id != (
        #[trigger] d[b]).id by {
            assert(d[a] == s[a]);
            assert(d[b] == s[b]);
        }
        lemma_entries_remove(d, i);
        assert(s2.drop_last() =~= d.remove(i));
        assert(s2.last() == s.last());
        assert(d[i] == s[i]);
        assert(s.last().id != s[i].id);
        assert(entries_to_map(s2) == entries_to_map(d.remove(i)).insert(
            s.last().id,
            s.last().obj,
        ));
        assert(entries_to_map(s2) =~= entries_to_map(s).remove(s[i].id));
    }
}

/// The live inventory: one entry per currently live object identifier.
/// It is recomputed from a log slice on every query and never outlives one.
pub struct Inventory {
    entries: Vec<InvEntry>,
}

impl Inventory {
    /// The views of the entries, in storage order.
    pub closed spec fn entries_view(&self) -> Seq<InvEntryView> {
        self.entries@.map_values(|e: InvEntry| e@)
    }

    /// The map of live objects this inventory represents.
    pub closed spec fn as_map(&self) -> Map<Seq<u8>, ObjView> {
        entries_to_map(self.entries_view())
    }

    /// Internal consistency: identifiers are unique, and each entry's
    /// identifier is the fixed-length prefix of its serialized value.
    pub closed spec fn wf(&self) -> bool {
        &&& ids_distinct(self.entries_view())
        &&& forall|i: int|
            0 <= i < self.entries_view().len() ==> (#[trigger] self.entries_view()[i]).obj.value.take(
                ID_LENGTH as int,
            ) == self.entries_view()[i].id
    }

    /// An empty inventory.
    pub fn new() -> (inv: Inventory)
        ensures
            inv.wf(),
            inv.as_map() == Map::<Seq<u8>, ObjView>::empty(),
    {
        let inv = Inventory { entries: Vec::new() };
        proof {
            assert(inv.entries_view() =~= Seq::<InvEntryView>::empty());
        }
        inv
    }

    /// The storage position of the entry carrying `id`, if one does.
    fn position_of(&self, id: &Vec<u8>) -> (r: Option<usize>)
        ensures
            match r {
                Some(i) => i < self.entries_view().len() && self.entries_view()[i as int].id
                    == id@,
                None => !has_id(self.entries_view(), id@),
            },
    {
        let mut j: usize = 0;
        while j < self.entries.len()
            invariant
                j <= self.entries.len(),
                forall|i: int| 0 <= i < j ==> (#[trigger] self.entries_view()[i]).id != id@,
            decreases self.entries.len() - j,
        {
            if bytes_eq(&self.entries[j].id, id) {
                return Some(j);
            }
            j = j + 1;
        }
        proof {
            if has_id(self.entries_view(), id@) {
                let i = choose|i: int|
                    0 <= i < self.entries_view().len() && (#[trigger] self.entries_view()[i]).id
                        == id@;
                assert(false);
            }
        }
        None
    }

    /// Removes the entry carrying `id`; a no-op when none does.
    fn remove_id(&mut self, id: &Vec<u8>)
        requires
            old(self).wf(),
        ensures
            final(self).wf(),
            final(self).as_map() == old(self).as_map().remove(id@),
            !has_id(final(self).entries_view(), id@),
    {
        let ghost s = self.entries_view();
        match self.position_of(id) {
            Some(i) => {
                self.entries.remove(i);
                proof {
                    assert(self.entries_view() =~= s.remove(i as int));
                    lemma_entries_remove(s, i as int);
                    assert forall|a: int|
                        0 <= a < self.entries_view().len() implies (
                    #[trigger] self.entries_view()[a]).obj.value.take(ID_LENGTH as int)
                        == self.entries_view()[a].id by {
                        let a0 = if a < i as int {
                            a
                        } else {
                            a + 1
                        };
                        assert(self.entries_view()[a] == s[a0]);
                    }
                }
            },
            None => {
                proof {
                    lemma_entries_dom(s, id@);
                    assert(self.as_map() =~= old(self).as_map().remove(id@));
                }
            },
        }
    }

    /// Inserts an entry for `id`, overwriting any earlier entry with the
    /// same identifier: last write wins.
    fn upsert(&mut self, id: Vec<u8>, obj: OwnedObj)
        requires
            old(self).wf(),
            obj@.value.take(ID_LENGTH as int) == id@,
        ensures
            final(self).wf(),
            final(self).as_map() == old(self).as_map().insert(id@, obj@),
    {
        self.remove_id(&id);
        let ghost s = self.entries_view();
        let ghost idv = id@;
        let ghost objv = obj@;
        self.entries.push(InvEntry { id, obj });
        proof {
            assert(self.entries_view() =~= s.push(InvEntryView { id: idv, obj: objv }));
            assert(self.entries_view().drop_last() =~= s);
            assert forall|a: int, b: int| 0 <= a < b < self.entries_view().len() implies (
            #[trigger] self.entries_view()[a]).id != (#[trigger] self.entries_view()[b]).id by {
                if b == self.entries_view().len() - 1 {
                    assert(s[a].id != idv);
                }
            }
            assert(self.as_map() =~= old(self).as_map().insert(idv, objv));
        }
    }

    /// Whether an object with identifier `id` is live.
    pub fn contains(&self, id: &Vec<u8>) -> (r: bool)
        ensures
            r == self.as_map().dom().contains(id@),
    {
        let r = self.position_of(id);
        proof {
            lemma_entries_dom(self.entries_view(), id@);
            if r is Some {
                let i = r->Some_0;
                assert(self.entries_view()[i as int].id == id@);
                assert(has_id(self.entries_view(), id@));
            }
        }
        r.is_some()
    }

    /// The identifiers of all live objects, without duplicates.
    pub fn ids(&self) -> (r: Vec<Vec<u8>>)
        requires
            self.wf(),
        ensures
            r.deep_view().no_duplicates(),
            r.deep_view().to_set() == self.as_map().dom(),
    {
        let ghost ev = self.entries_view();
        let ghost idseq = ev.map_values(|e: InvEntryView| e.id);
        let mut r: Vec<Vec<u8>> = Vec::new();
        let mut j: usize = 0;
        proof {
            assert(r.deep_view() =~~= idseq.take(0));
        }
        while j < self.entries.len()
            invariant
                self.wf(),
                j <= self.entries.len(),
                ev == self.entries_view(),
                idseq == ev.map_values(|e: InvEntryView| e.id),
                r.deep_view() == idseq.take(j as int),
            decreases self.entries.len() - j,
        {
            let idc = clone_bytes(&self.entries[j].id);
            proof {
                assert(idc@ == ev[j as int].id);
                assert(idseq[j as int] == ev[j as int].id);
                assert(idseq.take(j + 1 as int) =~= idseq.take(j as int).push(idseq[j as int]));
            }
            push_bytes(&mut r, idc);
            j = j + 1;
        }
        proof {
            assert(idseq.take(idseq.len() as int) =~= idseq);
            assert forall|a: int, b: int| 0 <= a < b < idseq.len() implies idseq[a] != idseq[b] by {
                assert(ev[a].id != ev[b].id);
            }
            assert forall|k: Seq<u8>|
                idseq.to_set().contains(k) == self.as_map().dom().contains(k) by {
                lemma_entries_dom(ev, k);
                if idseq.contains(k) {
                    let i = choose|i: int| 0 <= i < idseq.len() && idseq[i] == k;
                    assert(ev[i].id == k);
                    assert(has_id(ev, k));
                }
                if has_id(ev, k) {
                    let i = choose|i: int| 0 <= i < ev.len() && (#[trigger] ev[i]).id == k;
                    assert(idseq[i] == k);
                    assert(idseq.contains(k));
                }
            }
            assert(idseq.to_set() =~= self.as_map().dom());
        }
        r
    }

    /// The serialized values of the live objects that a query for owner
    /// `addr` and type `type_tag` answers with: objects of exactly that
    /// type owned by that address, and shared-immutable objects of that
    /// type, which every address may spend.
    pub fn values_for(&self, addr: &Vec<u8>, type_tag: u64) -> (r: Vec<Vec<u8>>)
        requires
            self.wf(),
        ensures
            r.deep_view().no_duplicates(),
            r.deep_view().to_set() == matching_values(self.as_map(), addr@, type_tag),
    {
        let ghost ev = self.entries_view();
        let mut r: Vec<Vec<u8>> = Vec::new();
        let mut j: usize = 0;
        while j < self.entries.len()
            invariant
                self.wf(),
                j <= self.entries.len(),
                ev == self.entries_view(),
                forall|i: int|
                    0 <= i < j && obj_matches((#[trigger] ev[i]).obj, addr@, type_tag)
                        ==> r.deep_view().contains(ev[i].obj.value),
                forall|v: Seq<u8>|
                    r.deep_view().contains(v) ==> exists|i: int|
                        0 <= i < j && (#[trigger] ev[i]).obj.value == v && obj_matches(
                            ev[i].obj,
                            addr@,
                            type_tag,
                        ),
                r.deep_view().no_duplicates(),
            decreases self.entries.len() - j,
        {
            let e = &self.entries[j];
            let type_ok = e.obj.type_tag == type_tag;
            let owner_ok = match &e.obj.owner {
                Owner::AddressOwner(a) => bytes_eq(a, addr),
                Owner::ObjectOwner(_) => false,
                Owner::SharedImmutable => true,
            };
            if type_ok && owner_ok {
                proof {
                    assert(obj_matches(ev[j as int].obj, addr@, type_tag));
                    if r.deep_view().contains(ev[j as int].obj.value) {
                        let i = choose|i: int|
                            0 <= i < j && (#[trigger] ev[i]).obj.value == ev[j as int].obj.value
                                && obj_matches(ev[i].obj, addr@, type_tag);
                        assert(ev[i].id == ev[i].obj.value.take(ID_LENGTH as int));
                        assert(ev[j as int].id == ev[j as int].obj.value.take(ID_LENGTH as int));
                        assert(ev[i].id == ev[j as int].id);
                        assert(false);
                    }
                }
                let ghost before = r.deep_view();
                let vc = clone_bytes(&e.obj.value);
                proof {
                    assert(vc@ == ev[j as int].obj.value);
                }
                push_bytes(&mut r, vc);
                proof {
                    assert(r.deep_view() == before.push(ev[j as int].obj.value));
                    assert(r.deep_view()[before.len() as int] == ev[j as int].obj.value);
                    assert forall|i: int|
                        0 <= i < j + 1 && obj_matches(
                            (#[trigger] ev[i]).obj,
                            addr@,
                            type_tag,
                        ) implies r.deep_view().contains(ev[i].obj.value) by {
                        if i < j {
                            let x = choose|x: int|
                                0 <= x < before.len() && before[x] == ev[i].obj.value;
                            assert(r.deep_view()[x] == ev[i].obj.value);
                        } else {
                            assert(r.deep_view()[before.len() as int] == ev[i].obj.value);
                        }
                    }
                    assert forall|v: Seq<u8>| r.deep_view().contains(v) implies exists|i: int|
                        0 <= i < j + 1 && (#[trigger] ev[i]).obj.value == v && obj_matches(
                            ev[i].obj,
                            addr@,
                            type_tag,
                        ) by {
                        let x = choose|x: int|
                            0 <= x < r.deep_view().len() && r.deep_view()[x] == v;
                        if x < before.len() {
                            assert(before[x] == v);
                            assert(before.contains(v));
                        } else {
                            assert(v == ev[j as int].obj.value);
                            assert(0 <= j < j + 1 && ev[j as int].obj.value == v && obj_matches(
                                ev[j as int].obj,
                                addr@,
                                type_tag,
                            ));
                        }
                    }
                    assert forall|a: int, b: int|
                        0 <= a < b < r.deep_view().len() implies r.deep_view()[a] != r.deep_view()[
                        b] by {
                        if b < before.len() {
                            assert(before[a] != before[b]);
                        } else {
                            if r.deep_view()[a] == ev[j as int].obj.value {
                                assert(before[a] == ev[j as int].obj.value);
                                assert(before.contains(ev[j as int].obj.value));
                                assert(false);
                            }
                        }
                    }
                }
            } else {
                proof {
                    assert(!obj_matches(ev[j as int].obj, addr@, type_tag));
                }
            }
            j = j + 1;
        }
        proof {
            assert forall|v: Seq<u8>|
                r.deep_view().to_set().contains(v) == matching_values(
                    self.as_map(),
                    addr@,
                    type_tag,
                ).contains(v) by {
                if r.deep_view().contains(v) {
                    let i = choose|i: int|
                        0 <= i < ev.len() && (#[trigger] ev[i]).obj.value == v && obj_matches(
                            ev[i].obj,
                            addr@,
                            type_tag,
                        );
                    lemma_entries_at(ev, i);
                    assert(self.as_map().dom().contains(ev[i].id) && self.as_map()[ev[i].id]
                        == ev[i].obj);
                }
                if matching_values(self.as_map(), addr@, type_tag).contains(v) {
                    let k = choose|k: Seq<u8>|
                        self.as_map().dom().contains(k) && (#[trigger] self.as_map()[k]).value == v
                            && obj_matches(self.as_map()[k], addr@, type_tag);
                    lemma_entries_dom(ev, k);
                    let i = choose|i: int| 0 <= i < ev.len() && (#[trigger] ev[i]).id == k;
                    lemma_entries_at(ev, i);
                    assert(ev[i].obj == self.as_map()[k]);
                    assert(r.deep_view().contains(v));
                }
            }
            assert(r.deep_view().to_set() =~= matching_values(self.as_map(), addr@, type_tag));
        }
        r
    }
}

/// Replays the log slice `[start, end)` with the engine's consistency
/// checks done at run time: `None` when the slice holds a malformed record
/// or wraps an identifier that is not live within the slice, `Some` of the
/// inventory of live objects otherwise — transfers and freezes insert
/// entries with last-write-wins overwriting, deletes and wraps remove
/// them, user events change nothing.
pub fn try_global_inventory(events: &Vec<Event>, start: usize, end: usize) -> (r: Option<Inventory>)
    requires
        start <= end <= events@.len(),
    ensures
        (r is Some) <==> (log_wf(log_view(events@).subrange(start as int, end as int))
            && wraps_resolvable(log_view(events@).subrange(start as int, end as int))),
        r is Some ==> (r->Some_0).wf() && (r->Some_0).as_map() == inventory_after(
            log_view(events@).subrange(start as int, end as int),
        ),
{
    let ghost lv = log_view(events@);
    let ghost whole = lv.subrange(start as int, end as int);
    let mut inv = Inventory::new();
    let mut i: usize = start;
    proof {
        assert(lv.subrange(start as int, start as int) =~= Seq::<EventView>::empty());
    }
    while i < end
        invariant
            start <= i <= end,
            end <= events@.len(),
            lv == log_view(events@),
            whole == lv.subrange(start as int, end as int),
            log_wf(lv.subrange(start as int, i as int)),
            wraps_resolvable(lv.subrange(start as int, i as int)),
            inv.wf(),
            inv.as_map() == inventory_after(lv.subrange(start as int, i as int)),
        decreases end - i,
    {
        let e = &events[i];
        let ghost sub1 = lv.subrange(start as int, i as int);
        let ghost sub2 = lv.subrange(start as int, i + 1 as int);
        proof {
            assert(whole[i - start] == e@);
            assert(sub2.drop_last() =~= sub1);
            assert(sub2.last() == e@);
        }
        let structurally_ok = match e.kind {
            EventType::TransferToAddress | EventType::TransferToObject => e.payload.len()
                >= ID_LENGTH && e.recipient.len() == ADDRESS_LENGTH,
            EventType::FreezeObject => e.payload.len() >= ID_LENGTH,
            EventType::DeleteObjectID => e.payload.len() == ID_LENGTH,
            EventType::WrappedObject => e.recipient.len() == ID_LENGTH,
            EventType::User => true,
        };
        if !structurally_ok {
            proof {
                assert(!event_wf(whole[i - start]));
                if log_wf(whole) {
                    assert(event_wf(whole[i - start]));
                }
            }
            return None;
        }
        proof {
            assert(event_wf(e@));
        }
        match e.kind {
            EventType::TransferToAddress => {
                let id = take_prefix(&e.payload, ID_LENGTH);
                let obj = OwnedObj {
                    value: clone_bytes(&e.payload),
                    type_tag: e.type_tag,
                    owner: Owner::AddressOwner(clone_bytes(&e.recipient)),
                };
                proof {
                    assert(obj@ == entry_of(e@));
                    assert(id@ == transfer_id(e@));
                }
                inv.upsert(id, obj);
            },
            EventType::TransferToObject => {
                let id = take_prefix(&e.payload, ID_LENGTH);
                let obj = OwnedObj {
                    value: clone_bytes(&e.payload),
                    type_tag: e.type_tag,
                    owner: Owner::ObjectOwner(clone_bytes(&e.recipient)),
                };
                proof {
                    assert(obj@ == entry_of(e@));
                    assert(id@ == transfer_id(e@));
                }
                inv.upsert(id, obj);
            },
            EventType::FreezeObject => {
                let id = take_prefix(&e.payload, ID_LENGTH);
                let obj = OwnedObj {
                    value: clone_bytes(&e.payload),
                    type_tag: e.type_tag,
                    owner: Owner::SharedImmutable,
                };
                proof {
                    assert(obj@ == entry_of(e@));
                    assert(id@ == transfer_id(e@));
                }
                inv.upsert(id, obj);
            },
            EventType::DeleteObjectID => {
                inv.remove_id(&e.payload);
            },
            EventType::WrappedObject => {
                if !inv.contains(&e.recipient) {
                    proof {
                        assert(whole.take(i - start) =~= sub1);
                        if wraps_resolvable(whole) {
                            assert(inventory_after(whole.take(i - start)).dom().contains(
                                whole[i - start].recipient,
                            ));
                        }
                    }
                    return None;
                }
                proof {
                    assert(inventory_after(sub1).dom().contains(e@.recipient));
                }
                inv.remove_id(&e.recipient);
            },
            EventType::User => {},
        }
        proof {
            assert forall|j: int| 0 <= j < sub2.len() implies event_wf(#[trigger] sub2[j]) by {
                if j < sub1.len() {
                    assert(sub2[j] == sub1[j]);
                } else {
                    assert(sub2[j] == e@);
                }
            }
            assert forall|j: int|
                0 <= j < sub2.len() && (#[trigger] sub2[j]).kind
                    == EventType::WrappedObject implies inventory_after(sub2.take(j)).dom().contains(
                sub2[j].recipient,
            ) by {
                assert(sub2.take(j) =~= sub1.take(j));
                if j < sub1.len() {
                    assert(sub2[j] == sub1[j]);
                    assert(sub1.take(sub1.len() as int) =~= sub1);
                } else {
                    assert(sub2[j] == e@);
                    assert(sub1.take(j) =~= sub1);
                }
            }
        }
        i = i + 1;
    }
    Some(inv)
}

/// Replays the log slice `[start, end)` and returns the inventory of
/// objects live at its end. The slice must be well-formed — a malformed
/// record, or a wrap of an identifier that is not live, is an upstream
/// emitter bug, not an input this engine accepts; hosts that cannot vouch
/// for a slice use [`try_global_inventory`] instead.
pub fn get_global_inventory(events: &Vec<Event>, start: usize, end: usize) -> (inv: Inventory)
    requires
        start <= end <= events@.len(),
        log_wf(log_view(events@).subrange(start as int, end as int)),
        wraps_resolvable(log_view(events@).subrange(start as int, end as int)),
    ensures
        inv.wf(),
        inv.as_map() == inventory_after(log_view(events@).subrange(start as int, end as int)),
{
    match try_global_inventory(events, start, end) {
        Some(inv) => inv,
        None => {
            proof {
                assert(false);
            }
            Inventory::new()
        },
    }
}

/// The identifiers named by delete events strictly after log position
/// `tx_begin_idx`, in log order, with duplicates kept and nothing filtered
/// — including identifiers that never belonged to a transferred object.
pub fn deleted_object_ids(events: &Vec<Event>, tx_begin_idx: usize) -> (r: Vec<Vec<u8>>)
    ensures
        r.deep_view() == deleted_ids(suffix_from(log_view(events@), tx_begin_idx as int)),
{
    let ghost lv = log_view(events@);
    let ghost sfx = suffix_from(lv, tx_begin_idx as int);
    let len = events.len();
    let start = if tx_begin_idx < len {
        tx_begin_idx + 1
    } else {
        len
    };
    proof {
        assert(sfx =~= lv.subrange(start as int, len as int));
    }
    let mut r: Vec<Vec<u8>> = Vec::new();
    let mut i: usize = start;
    proof {
        assert(r.deep_view() =~= deleted_ids(lv.subrange(start as int, start as int)));
    }
    while i < len
        invariant
            start <= i <= len,
            len == events@.len(),
            lv == log_view(events@),
            r.deep_view() == deleted_ids(lv.subrange(start as int, i as int)),
        decreases len - i,
    {
        let e = &events[i];
        proof {
            assert(lv.subrange(start as int, i + 1 as int).drop_last() =~= lv.subrange(
                start as int,
                i as int,
            ));
            assert(lv.subrange(start as int, i + 1 as int).last() == e@);
        }
        if e.kind == EventType::DeleteObjectID {
            push_bytes(&mut r, clone_bytes(&e.payload));
        }
        i = i + 1;
    }
    proof {
        assert(r.deep_view() == deleted_ids(sfx));
    }
    r
}

/// The identifiers of the objects live after replaying the events strictly
/// after log position `tx_begin_idx`: the objects transferred or frozen in
/// that tail and neither deleted nor wrapped afterwards within it. An
/// object transferred and then deleted inside the tail does not appear.
pub fn transferred_object_ids(events: &Vec<Event>, tx_begin_idx: usize) -> (r: Vec<Vec<u8>>)
    requires
        log_wf(suffix_from(log_view(events@), tx_begin_idx as int)),
        wraps_resolvable(suffix_from(log_view(events@), tx_begin_idx as int)),
    ensures
        r.deep_view().no_duplicates(),
        r.deep_view().to_set() == inventory_after(
            suffix_from(log_view(events@), tx_begin_idx as int),
        ).dom(),
{
    let ghost lv = log_view(events@);
    let ghost sfx = suffix_from(lv, tx_begin_idx as int);
    let len = events.len();
    let start = if tx_begin_idx < len {
        tx_begin_idx + 1
    } else {
        len
    };
    proof {
        assert(sfx =~= lv.subrange(start as int, len as int));
    }
    let inv = get_global_inventory(events, start, len);
    inv.ids()
}

/// The transferred-identifier query with the engine's consistency checks
/// done at run time: `None` when the tail strictly after `tx_begin_idx` is
/// malformed or wraps an identifier that is not live within it, otherwise
/// `Some` of what [`transferred_object_ids`] returns. For hosts that
/// cannot vouch for the tail themselves.
pub fn try_transferred_object_ids(events: &Vec<Event>, tx_begin_idx: usize) -> (r: Option<
    Vec<Vec<u8>>,
>)
    ensures
        (r is Some) <==> (log_wf(suffix_from(log_view(events@), tx_begin_idx as int))
            && wraps_resolvable(suffix_from(log_view(events@), tx_begin_idx as int))),
        r is Some ==> (r->Some_0).deep_view().no_duplicates() && (
        r->Some_0).deep_view().to_set() == inventory_after(
            suffix_from(log_view(events@), tx_begin_idx as int),
        ).dom(),
{
    let ghost lv = log_view(events@);
    let ghost sfx = suffix_from(lv, tx_begin_idx as int);
    let len = events.len();
    let start = if tx_begin_idx < len {
        tx_begin_idx + 1
    } else {
        len
    };
    proof {
        assert(sfx =~= lv.subrange(start as int, len as int));
    }
    match try_global_inventory(events, start, len) {
        Some(inv) => Some(inv.ids()),
        None => None,
    }
}

/// The serialized values, owned by `addr` or shared-immutable and of type
/// `type_tag` exactly, among the objects live after replaying the log
/// prefix before position `tx_end_index`.
pub fn get_inventory(addr: &Vec<u8>, type_tag: u64, tx_end_index: usize, events: &Vec<Event>) -> (r:
    Vec<Vec<u8>>)
    requires
        tx_end_index <= events@.len(),
        log_wf(prefix_to(log_view(events@), tx_end_index as int)),
        wraps_resolvable(prefix_to(log_view(events@), tx_end_index as int)),
    ensures
        r.deep_view().no_duplicates(),
        r.deep_view().to_set() == matching_values(
            inventory_after(prefix_to(log_view(events@), tx_end_index as int)),
            addr@,
            type_tag,
        ),
{
    let ghost lv = log_view(events@);
    proof {
        assert(prefix_to(lv, tx_end_index as int) =~= lv.subrange(0, tx_end_index as int));
    }
    let inv = get_global_inventory(events, 0, tx_end_index);
    inv.values_for(addr, type_tag)
}

/// How many events the log holds, system events included.
pub fn num_events(events: &Vec<Event>) -> (n: u64)
    ensures
        n == events@.len(),
{
    events.len() as u64
}

/// Appends the synthetic wrap marker for `wrapped_id` to the log. The
/// marker's type and payload are placeholders that no consumer inspects:
/// only the wrapped identifier matters.
pub fn emit_wrapped_object_event(events: &mut Vec<Event>, wrapped_id: Vec<u8>)
    requires
        wrapped_id@.len() == ID_LENGTH,
    ensures
        log_view(final(events)@) == log_view(old(events)@).push(
            (EventView {
                recipient: wrapped_id@,
                kind: EventType::WrappedObject,
                type_tag: 0,
                payload: Seq::empty(),
            }),
        ),
{
    let ghost idv = wrapped_id@;
    let marker = Event {
        recipient: wrapped_id,
        kind: EventType::WrappedObject,
        type_tag: 0,
        payload: Vec::new(),
    };
    proof {
        assert(marker@ == (EventView {
            recipient: idv,
            kind: EventType::WrappedObject,
            type_tag: 0,
            payload: Seq::empty(),
        }));
    }
    events.push(marker);
    proof {
        assert(log_view(events@) =~= log_view(old(events)@).push(
            (EventView {
                recipient: idv,
                kind: EventType::WrappedObject,
                type_tag: 0,
                payload: Seq::empty(),
            }),
        ));
    }
}

/// Placeholder kept for symmetry with the host's real delete operation:
/// an actual deletion is recorded by the caller's own domain logic emitting
/// a delete event, so this mutates no inventory and emits nothing.
pub fn delete_object_for_testing(events: &mut Vec<Event>)
    ensures
        final(events)@ == old(events)@,
{
}

} // verus!
