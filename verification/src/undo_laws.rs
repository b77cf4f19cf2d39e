//! What an undo promises: the recorded inverse of an edit puts back what the edit took.

use crate::clientid::ClientId;
use crate::commute::{
    body, born, created, lemma_effect, lemma_writes_concat, lemma_writes_one, lemma_writes_two,
    register_own, slot_written, WriteV,
};
use crate::counter::{tally_of, CounterV};
use crate::element::ElementV;
use crate::elementid::{derived_id, ElementId, ElementKind};
use crate::inverse::{lemma_first_index, picks_of, put_pick};
use crate::list::{list_delete, list_insert, ListV};
use crate::list_laws::{
    law_delete_removes_only_its_item, law_insert_lands_at_its_index, law_order_has_no_repeats,
    law_revival_takes_its_place, lemma_live_no_dup,
};
use crate::map::{live_value, slot_wins};
use crate::op::{OpKindV, OpV};
use crate::order::order;
use crate::register::RegisterV;
use crate::sequence::{lemma_live_in_items, list_live, list_place, list_values};
use crate::stamp::{stamp_lt, Stamp};
use crate::text::{
    law_revived_run_takes_its_place, run_is_new, text_delete, text_insert, text_of,
};
use crate::tree::{ContainerV, TreeV};
use crate::undo::{latest_of, others, HistoryV, IntentionV, Landing, StepV};
use crate::xml::{element_node_id, fragment_node_id};
use vstd::prelude::*;

verus! {

/// The key of a slot that an op writes, and what it writes there.
pub open spec fn slot_write(op: OpV) -> Option<(Seq<u8>, Option<ElementV>)> {
    match op.kind {
        OpKindV::RegisterSet { key, value } => Some(
            (
                key,
                Some(
                    ElementV::Register(
                        RegisterV {
                            id: derived_id(op.target, key, ElementKind::Register),
                            value,
                            stamp: op.stamp,
                        },
                    ),
                ),
            ),
        ),
        OpKindV::MapSet { key, value } => Some((key, Some(ElementV::Scalar(value)))),
        OpKindV::MapDelete { key } => Some((key, None)),
        OpKindV::CounterInc { key, .. } => Some(
            (key, Some(ElementV::Counter(derived_id(op.target, key, ElementKind::Counter)))),
        ),
        OpKindV::CounterDec { key, .. } => Some(
            (key, Some(ElementV::Counter(derived_id(op.target, key, ElementKind::Counter)))),
        ),
        OpKindV::MapCreate { key } => Some(
            (key, Some(ContainerV::LwwMap.handle(ContainerV::LwwMap.child_id(op.target, key)))),
        ),
        OpKindV::ListCreate { key } => Some(
            (key, Some(ContainerV::List.handle(ContainerV::List.child_id(op.target, key)))),
        ),
        OpKindV::TextCreate { key } => Some(
            (key, Some(ContainerV::Text.handle(ContainerV::Text.child_id(op.target, key)))),
        ),
        OpKindV::XmlElementCreate { key, tag } => Some(
            (key, Some(ElementV::XmlElement(element_node_id(op.target, key, tag)))),
        ),
        OpKindV::XmlFragmentCreate { key } => Some(
            (key, Some(ElementV::XmlFragment(fragment_node_id(op.target, key)))),
        ),
        _ => None,
    }
}

/// Materialising a container leaves the slots of maps that are here alone.
proof fn lemma_born_keeps(p: TreeV, id: ElementId, c: ContainerV, map: ElementId)
    requires
        p.maps.dom().contains(map),
    ensures
        p.writes(born(id, c)).maps.dom().contains(map),
        p.writes(born(id, c)).maps[map] == p.maps[map],
{
    reveal_with_fuel(TreeV::writes, 6);
    let ws = born(id, c);
    match c {
        ContainerV::LwwMap => {
            assert(ws.drop_last() =~= Seq::empty());
        },
        ContainerV::List => {
            assert(ws.drop_last() =~= Seq::empty());
        },
        ContainerV::Text => {
            assert(ws.drop_last() =~= Seq::empty());
        },
        ContainerV::XmlElement(_) => {
            let a = ws.drop_last();
            let b = a.drop_last();
            let c = b.drop_last();
            let d = c.drop_last();
            assert(d.drop_last() =~= Seq::empty());
        },
        ContainerV::XmlFragment => {
            let a = ws.drop_last();
            let b = a.drop_last();
            assert(b.drop_last() =~= Seq::empty());
        },
    }
}

/// What a slot holds after a create there.
proof fn lemma_created_slot(
    p: TreeV,
    map: ElementId,
    key: Seq<u8>,
    stamp: Stamp,
    c: ContainerV,
)
    requires
        p.maps.dom().contains(map),
    ensures
        p.writes(created(map, key, stamp, c)).maps.dom().contains(map),
        p.writes(created(map, key, stamp, c)).maps[map].id == p.maps[map].id,
        p.writes(created(map, key, stamp, c)).slot(map, key) == Some(
            slot_written(p.slot(map, key), Some(c.handle(c.child_id(map, key))), stamp),
        ),
{
    let child = c.child_id(map, key);
    let slot = WriteV::Slot { map, key, value: Some(c.handle(child)), stamp };
    let link = WriteV::Link { child, parent: map };
    lemma_born_keeps(p, child, c, map);
    lemma_writes_concat(p, born(child, c), seq![slot, link]);
    lemma_writes_two(p.writes(born(child, c)), slot, link);
}

/// What a slot holds after an op that writes it.
pub(crate) proof fn lemma_slot_after(t: TreeV, op: OpV)
    requires
        t.takes(op),
        slot_write(op) is Some,
    ensures
        ({
            let (key, value) = slot_write(op)->Some_0;
            let u = t.apply_kind(op.target, op.kind, op.stamp, op.id.client);
            &&& u.maps.dom().contains(op.target)
            &&& u.maps[op.target].id == t.maps[op.target].id
            &&& u.slot(op.target, key) == Some(
                slot_written(t.slot(op.target, key), value, op.stamp),
            )
        }),
{
    let (key, value) = slot_write(op)->Some_0;
    let u = t.apply_kind(op.target, op.kind, op.stamp, op.id.client);
    let p = t.plain();
    let raise = WriteV::Raise { stamp: op.stamp, span: crate::identity::spec_span(op.kind) };
    let ws = body(op.target, op.kind, op.stamp, op.id.client, t.owner_of(op));
    lemma_effect(t, op);
    lemma_writes_concat(p, seq![raise], ws);
    lemma_writes_one(p, raise);
    let q = p.write(raise);
    assert(u.plain() == q.writes(ws));
    assert(q.slot(op.target, key) == t.slot(op.target, key));
    match op.kind {
        OpKindV::MapCreate { key } => lemma_created_slot(
            q,
            op.target,
            key,
            op.stamp,
            ContainerV::LwwMap,
        ),
        OpKindV::ListCreate { key } => lemma_created_slot(
            q,
            op.target,
            key,
            op.stamp,
            ContainerV::List,
        ),
        OpKindV::TextCreate { key } => lemma_created_slot(
            q,
            op.target,
            key,
            op.stamp,
            ContainerV::Text,
        ),
        OpKindV::XmlElementCreate { key, tag } => lemma_created_slot(
            q,
            op.target,
            key,
            op.stamp,
            ContainerV::XmlElement(tag),
        ),
        OpKindV::XmlFragmentCreate { key } => lemma_created_slot(
            q,
            op.target,
            key,
            op.stamp,
            ContainerV::XmlFragment,
        ),
        OpKindV::CounterInc { .. } => {
            lemma_writes_two(q, ws[0], ws[1]);
        },
        OpKindV::CounterDec { .. } => {
            lemma_writes_two(q, ws[0], ws[1]);
        },
        _ => {
            lemma_writes_one(q, ws[0]);
        },
    }
    let v = q.writes(ws);
    assert(u.plain().maps.dom().contains(op.target));
    assert(v.slot(op.target, key) == u.slot(op.target, key));
}

impl TreeV {
    /// Whether what a slot holds is what its key derives: the register, the counter or the
    /// container that an op there makes, under its own id.
    pub open spec fn slot_own(self, map: ElementId, key: Seq<u8>) -> bool {
        &&& register_own(map, key, self.slot(map, key))
        &&& match live_value(self.slot(map, key)) {
            Some(ElementV::Counter(id)) => id == derived_id(map, key, ElementKind::Counter),
            Some(ElementV::LwwMap(id)) => id == derived_id(map, key, ElementKind::LwwMap),
            Some(ElementV::List(id)) => id == derived_id(map, key, ElementKind::List),
            Some(ElementV::Text(id)) => id == derived_id(map, key, ElementKind::Text),
            Some(ElementV::XmlElement(id)) => self.xml_elements.dom().contains(id) && id
                == element_node_id(map, key, self.xml_elements[id].tag),
            Some(ElementV::XmlFragment(id)) => id == fragment_node_id(map, key),
            _ => true,
        }
    }
}

/// Whether a slot holds again what it held: the value, or the element.
pub open spec fn restores(was: Option<ElementV>, now: Option<ElementV>) -> bool {
    match was {
        Some(ElementV::Register(r)) => now matches Some(ElementV::Register(x)) && x.id == r.id
            && x.value == r.value,
        _ => now == was,
    }
}

/// An undo puts a slot back: the inverse recorded of a slot write, landing later than the
/// write, leaves in the slot what was there before it.
pub proof fn law_undo_restores_a_slot(t: TreeV, edit: OpV, undo: OpV)
    requires
        t.takes(edit),
        slot_write(edit) is Some,
        t.maps[edit.target].id == edit.target,
        t.slot_own(edit.target, slot_write(edit)->Some_0.0),
        undo.target == edit.target,
        t.slot_inverse(edit.target, slot_write(edit)->Some_0.0) == Some(
            (StepV::Op { target: undo.target, kind: undo.kind }),
        ),
        stamp_lt(edit.stamp, undo.stamp),
        slot_wins(t.slot(edit.target, slot_write(edit)->Some_0.0), edit.stamp),
    ensures
        ({
            let key = slot_write(edit)->Some_0.0;
            let u = t.apply_kind(edit.target, edit.kind, edit.stamp, edit.id.client);
            let v = u.apply_kind(undo.target, undo.kind, undo.stamp, undo.id.client);
            restores(live_value(t.slot(edit.target, key)), live_value(v.slot(edit.target, key)))
        }),
{
    let (key, value) = slot_write(edit)->Some_0;
    let u = t.apply_kind(edit.target, edit.kind, edit.stamp, edit.id.client);
    lemma_slot_after(t, edit);
    let s = u.slot(edit.target, key)->Some_0;
    assert(register_own(edit.target, key, Some(s)));
    assert(u.takes(undo));
    lemma_slot_after(u, undo);
    crate::stamp::law_stamp_order_is_total(edit.stamp, undo.stamp, edit.stamp);
}

/// An undo cancels a count: a count and the opposite count by the same author leave the
/// counter where it was, where neither direction's tally wraps.
pub proof fn law_undo_cancels_a_count(c: CounterV, author: ClientId, amount: u32)
    requires
        tally_of(c.tallies, author).inc + amount <= u32::MAX,
        tally_of(c.tallies, author).dec + amount <= u32::MAX,
    ensures
        ({
            let t = tally_of(c.tallies, author);
            let after = crate::counter::tallies_dec(
                crate::counter::tallies_inc(c.tallies, author, amount),
                author,
                amount,
            );
            let u = tally_of(after, author);
            &&& u.inc - u.dec == t.inc - t.dec
            &&& forall|other: ClientId|
                other != author ==> #[trigger] tally_of(after, other) == tally_of(c.tallies, other)
        }),
{
}

/// An undo takes an insert out again: an item inserted at an index and deleted leaves the
/// values of the list as they were.
pub proof fn law_undo_removes_an_insert(l: ListV, id: Stamp, value: ElementV, index: nat)
    requires
        l.places.dom().finite(),
        index <= list_live(l).len(),
        !l.places.dom().contains(id),
        !l.items.dom().contains(id),
        forall|y: Stamp| #[trigger] l.places.dom().contains(y) ==> l.places[y].parent != Some(id),
    ensures
        list_live(list_delete(list_insert(l, id, value, list_place(l, index, None)), id))
            == list_live(l),
        list_values(list_delete(list_insert(l, id, value, list_place(l, index, None)), id))
            == list_values(l),
{
    law_insert_lands_at_its_index(l, id, value, index);
    let m = list_insert(l, id, value, list_place(l, index, None));
    let n = list_delete(m, id);
    let s = list_live(l);
    assert(list_live(m)[index as int] == id);
    assert(m.places.dom().finite());
    law_delete_removes_only_its_item(m, index as int);
    assert(s.insert(index as int, id).remove(index as int) =~= s);
    assert(n.items =~= l.items);
    assert(list_values(n) =~= list_values(l));
}

/// An undo puts a deleted item back: what it revives, under a new id, stands where the item
/// stood, and the values of the list are as they were.
pub proof fn law_undo_revives_an_item(t: TreeV, list: ElementId, i: int, id: Stamp)
    requires
        t.lists.dom().contains(list),
        t.lists[list].places.dom().finite(),
        0 <= i < list_live(t.lists[list]).len(),
        t.lists[list].items[list_live(t.lists[list])[i]].value is Scalar,
        !t.lists[list].places.dom().contains(id),
        !t.lists[list].items.dom().contains(id),
        forall|y: Stamp| #[trigger]
            t.lists[list].places.dom().contains(y) ==> t.lists[list].places[y].parent != Some(id)
                && stamp_lt(y, id),
    ensures
        ({
            let l = t.lists[list];
            let gone = list_live(l)[i];
            t.list_delete_inverse(list, gone) matches Some(
                StepV::ReviveItem { list: to, anchor, value, was },
            ) && to == list && was == gone && list_values(
                list_insert(list_delete(l, gone), id, ElementV::Scalar(value), anchor),
            ) == list_values(l)
        }),
{
    let l = t.lists[list];
    let gone = list_live(l)[i];
    let e = l.items[gone].value;
    lemma_live_in_items(l, order(l.places), i);
    law_revival_takes_its_place(l, i, id, e);
    assert(list_values(l).update(i, e) =~= list_values(l));
}

/// Live ids next to each other stand where they stand.
proof fn lemma_picks(l: ListV, i: int, k: nat)
    requires
        l.places.dom().finite(),
        0 <= i,
        i + k <= list_live(l).len(),
    ensures
        picks_of(l, list_live(l).subrange(i, i + k)) == Seq::new(
            k,
            |j: int| ((i + j) as nat, list_live(l)[i + j]),
        ),
    decreases k,
{
    let u = list_live(l);
    let ids = u.subrange(i, i + k);
    if k == 0 {
        assert(picks_of(l, ids) =~= Seq::new(k, |j: int| ((i + j) as nat, u[i + j])));
    } else {
        let n = (k - 1) as nat;
        assert(ids.drop_last() =~= u.subrange(i, i + n));
        lemma_picks(l, i, n);
        law_order_has_no_repeats(l.places);
        lemma_live_no_dup(l, order(l.places));
        lemma_first_index(u, u[i + n], i + n);
        let rest = picks_of(l, ids.drop_last());
        assert(put_pick(rest, ((i + n) as nat, u[i + n])) == rest.push(
            ((i + n) as nat, u[i + n]),
        ));
        assert(picks_of(l, ids) =~= Seq::new(k, |j: int| ((i + j) as nat, u[i + j])));
    }
}

/// What puts codepoints that stand next to each other back is a run as long as they are.
pub(crate) proof fn lemma_cut_inverse(t: TreeV, text: ElementId, i: int, k: nat)
    requires
        t.texts.dom().contains(text),
        t.texts[text].places.dom().finite(),
        0 <= i,
        0 < k,
        i + k <= list_live(t.texts[text]).len(),
    ensures
        t.text_delete_inverse(
            text,
            list_live(t.texts[text]).subrange(i, i + k),
        ) matches Some(StepV::ReviveRun { text: to, s, .. }) && to == text && s.len() == k,
{
    lemma_picks(t.texts[text], i, k);
}

/// An undo puts deleted text back: what it revives of codepoints that stood next to each
/// other, as a run of its own, stands where they stood, and the text is as it was.
pub proof fn law_undo_revives_a_run(t: TreeV, text: ElementId, i: int, k: nat, stamp: Stamp)
    requires
        t.texts.dom().contains(text),
        t.texts[text].places.dom().finite(),
        0 <= i,
        0 < k,
        i + k <= list_live(t.texts[text]).len(),
        run_is_new(t.texts[text], stamp, k),
        forall|y: Stamp| #[trigger]
            t.texts[text].places.dom().contains(y) ==> stamp_lt(y, stamp.spec_run_member(0)),
    ensures
        ({
            let l = t.texts[text];
            let gone = list_live(l).subrange(i, i + k);
            t.text_delete_inverse(text, gone) matches Some(
                StepV::ReviveRun { text: to, anchor, s, was },
            ) && to == text && was == gone && text_of(
                text_insert(text_delete(l, gone), stamp, s, anchor),
            ) == text_of(l)
        }),
{
    let l = t.texts[text];
    let u = list_live(l);
    let gone = u.subrange(i, i + k);
    lemma_picks(l, i, k);
    let picks = picks_of(l, gone);
    assert(picks.map_values(|p: (nat, Stamp)| p.1) =~= gone);
    assert(picks.map_values(|p: (nat, Stamp)| text_of(l)[p.0 as int]) =~= text_of(l).subrange(
        i,
        i + k,
    ));
    law_revived_run_takes_its_place(l, i, k, stamp);
}

// --- the history ---

/// An undo takes its origin's latest intention and leaves every other one where it was.
pub proof fn law_an_undo_takes_the_latest_of_its_origin(h: HistoryV, origin: Seq<u8>)
    ensures
        h.can(origin, Landing::Undo) <==> exists|i: int|
            0 <= i < h.undo.len() && (#[trigger] h.undo[i]).origin == origin,
        h.can(origin, Landing::Undo) ==> exists|i: int|
            0 <= i < h.undo.len() && h.undo[i].origin == origin && (forall|j: int|
                i < j < h.undo.len() ==> (#[trigger] h.undo[j]).origin != origin) && h.taken(
                origin,
                Landing::Undo,
            ).undo == #[trigger] h.undo.remove(i),
        h.taken(origin, Landing::Undo).redo == h.redo,
        !h.can(origin, Landing::Undo) ==> h.taken(origin, Landing::Undo) == h,
{
    lemma_latest_of(h.undo, origin);
    if let Some(i) = latest_of(h.undo, origin) {
        assert(h.taken(origin, Landing::Undo).undo == h.undo.remove(i));
    }
}

/// A redo takes its origin's latest undone intention and leaves every other one.
pub proof fn law_a_redo_takes_the_latest_of_its_origin(h: HistoryV, origin: Seq<u8>)
    ensures
        h.can(origin, Landing::Redo) <==> exists|i: int|
            0 <= i < h.redo.len() && (#[trigger] h.redo[i]).origin == origin,
        h.can(origin, Landing::Redo) ==> exists|i: int|
            0 <= i < h.redo.len() && h.redo[i].origin == origin && (forall|j: int|
                i < j < h.redo.len() ==> (#[trigger] h.redo[j]).origin != origin) && h.taken(
                origin,
                Landing::Redo,
            ).redo == #[trigger] h.redo.remove(i),
        h.taken(origin, Landing::Redo).undo == h.undo,
        !h.can(origin, Landing::Redo) ==> h.taken(origin, Landing::Redo) == h,
{
    lemma_latest_of(h.redo, origin);
    if let Some(i) = latest_of(h.redo, origin) {
        assert(h.taken(origin, Landing::Redo).redo == h.redo.remove(i));
    }
}

proof fn lemma_latest_of(s: Seq<IntentionV>, origin: Seq<u8>)
    ensures
        match latest_of(s, origin) {
            Some(i) => 0 <= i < s.len() && s[i].origin == origin && forall|j: int|
                i < j < s.len() ==> (#[trigger] s[j]).origin != origin,
            None => forall|j: int| 0 <= j < s.len() ==> (#[trigger] s[j]).origin != origin,
        },
    decreases s.len(),
{
    if s.len() > 0 && s.last().origin != origin {
        let h = s.drop_last();
        lemma_latest_of(h, origin);
        assert forall|j: int| 0 <= j < s.len() - 1 implies #[trigger] s[j] == h[j] by {}
        assert(s[s.len() - 1].origin != origin);
    }
}

/// A new edit becomes its origin's latest intention, whole, and drops what that origin had
/// undone. What others did and undid stays.
pub proof fn law_a_new_edit_drops_what_its_origin_undid(
    h: HistoryV,
    origin: Seq<u8>,
    atomic: bool,
    it: IntentionV,
)
    requires
        h.origin == Some(origin),
        h.open.len() > 0,
        h.landing == Landing::Undo,
        !h.replaying,
    ensures
        ({
            let c = h.close(atomic);
            &&& c.undo.len() == h.undo.len() + 1
            &&& c.undo.drop_last() == h.undo
            &&& c.undo.last().origin == origin
            &&& c.undo.last().steps == h.open
            &&& c.undo.last().atomic == atomic
            &&& c.open.len() == 0
            &&& c.redo.contains(it) <==> h.redo.contains(it) && it.origin != origin
        }),
{
    assert(h.close(atomic).undo.drop_last() =~= h.undo);
    lemma_others(h.redo, origin, it);
}

proof fn lemma_others(s: Seq<IntentionV>, origin: Seq<u8>, it: IntentionV)
    ensures
        others(s, origin).contains(it) <==> s.contains(it) && it.origin != origin,
    decreases s.len(),
{
    if s.len() > 0 {
        let h = s.drop_last();
        let rest = others(h, origin);
        let all = others(s, origin);
        lemma_others(h, origin, it);
        if all.contains(it) {
            let i = all.index_of(it);
            if i < rest.len() {
                assert(rest[i] == it);
                assert(s[h.index_of(it)] == it);
            } else {
                assert(s[s.len() - 1] == it);
            }
        }
        if s.contains(it) && it.origin != origin {
            let i = s.index_of(it);
            if i < h.len() {
                assert(h[i] == it);
                assert(all[rest.index_of(it)] == it);
            } else {
                assert(all[rest.len() as int] == it);
            }
        }
    }
}

} // verus!
