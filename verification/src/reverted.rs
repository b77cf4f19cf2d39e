//! What an undo right after an edit leaves: what was read before it.

use crate::anchor::Anchor;
use crate::annot::Placement;
use crate::clientid::ClientId;
use crate::commute::register_own;
use crate::converge::{lemma_wet_kind, wet};
use crate::diff_laws::{count_reads, slot_reads, tag_reads};
use crate::doc::DocV;
use crate::edits::{
    alike_but, goes_in, law_a_deleted_annotation_is_gone, law_an_annotation_says_what_it_was_given,
    law_an_emitted_edit_touches_only_its_place, lemma_counted, lemma_edited, nowhere, op_of,
    overwrites, passes, reached, tallied, PlaceV,
};
use crate::element::ElementV;
use crate::elementid::{derived_id, ElementId, ElementKind};
use crate::identity::{root_element, spec_ranged_id, spec_span};
use crate::list::{list_delete, list_insert};
use crate::map::live_value;
use crate::mint::law_mints_clear_the_record;
use crate::op::OpKindV;
use crate::order::order;
use crate::ranged::{RangeAnchor, RangedInitV};
use crate::replay::step_target;
use crate::scalar::ScalarV;
use crate::sequence::{lemma_live_in_items, list_live, list_place, list_values};
use crate::stamp::{stamp_lt, Stamp, LAMPORT_STATE_CEILING};
use crate::text::{
    law_text_insert_lands_at_its_index, lemma_cut, run_ids, run_is_new, text_delete, text_insert,
    text_of,
};
use crate::tree::TreeV;
use crate::treemove::link_of;
use crate::undo::StepV;
use crate::undo_laws::{
    law_undo_removes_an_insert, law_undo_restores_a_slot, law_undo_revives_a_run,
    law_undo_revives_an_item, lemma_cut_inverse, lemma_slot_after,
};
use crate::undone::{lemma_one_revived, lemma_one_undone, records};
use vstd::prelude::*;

verus! {

/// Whether there is room, after an edit, for one more of a container.
pub open spec fn has_room(d: DocV, target: ElementId, kind: OpKindV, to: ElementId) -> bool {
    let e = d.begun().emitted(target, kind);
    &&& e.tree.materialised(to)
    &&& forall|k: OpKindV| spec_span(k) <= 1 ==> (#[trigger] e.mint(to, k)) is Some
}

proof fn lemma_none_under(t: TreeV, id: ElementId, fuel: nat)
    ensures
        !t.under_any(id, Seq::empty(), fuel),
    decreases fuel,
{
    if fuel > 0 && id != root_element() {
        if let Some(p) = link_of(t.parents, id) {
            lemma_none_under(t, p, (fuel - 1) as nat);
        }
    }
}

/// One action that removes nothing is a plan as it is.
proof fn lemma_plan_one(t: TreeV, step: StepV)
    requires
        t.removes(step) is None,
    ensures
        t.plan(seq![step]) == seq![step],
{
    let one = seq![step];
    reveal(TreeV::plan);
    assert(one.reverse() =~= one);
    assert(one.drop_last() =~= Seq::empty());
    assert(t.removed_by(Seq::empty()) =~= Seq::empty());
    assert(t.removed_by(one) =~= Seq::empty());
    lemma_none_under(t, step_target(step), t.parents.dom().len() + 1);
    assert(t.kept_steps(Seq::empty(), Seq::empty()) =~= Seq::empty());
    assert(t.kept_steps(one, Seq::empty()) =~= one);
}

/// States that read alike with a third read alike with each other.
proof fn lemma_alike_through(t: TreeV, u: TreeV, v: TreeV, at: PlaceV)
    requires
        alike_but(t, u, at),
        alike_but(u, v, at),
    ensures
        alike_but(t, v, at),
{
    assert forall|m: ElementId, k: Seq<u8>|
        t.maps.dom().contains(m) && at.slot != Some((m, k)) implies #[trigger] slot_reads(v, m, k)
        == slot_reads(t, m, k) by {
        assert(slot_reads(u, m, k) == slot_reads(t, m, k));
        assert(u.maps.dom().contains(m));
    }
    assert forall|c: ElementId| at.count != Some(c) implies #[trigger] count_reads(v, c)
        == count_reads(t, c) by {
        assert(count_reads(u, c) == count_reads(t, c));
    }
    assert forall|x: ElementId| t.xml_elements.dom().contains(x) implies #[trigger] tag_reads(v, x)
        == tag_reads(t, x) by {
        assert(tag_reads(u, x) == tag_reads(t, x));
        assert(u.xml_elements.dom().contains(x));
    }
    assert forall|l: ElementId| #[trigger]
        t.lists.dom().contains(l) && at.list != Some(l) implies v.lists.dom().contains(l) by {
        assert(u.lists.dom().contains(l));
    }
}

/// After an edit, a later edit at the same place is stamped later.
proof fn lemma_later(d: DocV, target: ElementId, kind: OpKindV, to: ElementId, back: OpKindV)
    requires
        d.mint(target, kind) is Some,
        d.emitted(target, kind).mint(to, back) is Some,
    ensures
        d.emitted(target, kind).mint(to, back)->Some_0.lamport > d.mint(
            target,
            kind,
        )->Some_0.lamport,
        d.emitted(target, kind).client == d.client,
{
    let e = d.emitted(target, kind);
    let s = d.mint(target, kind)->Some_0;
    law_mints_clear_the_record(e, to, back);
    law_mints_clear_the_record(d, target, kind);
    lemma_edited(d, target, kind);
    reveal(DocV::mint);
    reveal(DocV::emitted);
    lemma_recorded(d.tree, target, kind, s, d.client);
}

/// A replica's record reaches the stamp of what it just edited.
proof fn lemma_recorded(t: TreeV, target: ElementId, kind: OpKindV, s: Stamp, author: ClientId)
    requires
        0 < s.lamport,
        s.lamport + spec_span(kind) - 1 <= LAMPORT_STATE_CEILING,
    ensures
        ({
            let hw = t.apply_kind(target, kind, s, author).high_water;
            hw.dom().contains(s.client) && hw[s.client] >= s.lamport
        }),
{
    lemma_wet_kind(t, t.high_water, target, kind, s, author);
    assert(wet(t, t.high_water) == t);
    reveal(TreeV::record);
}

/// Whether an op sets, deletes or makes what is at a key, and does not count there.
pub open spec fn writes_key(kind: OpKindV, key: Seq<u8>) -> bool {
    match kind {
        OpKindV::RegisterSet { key: k, .. } => k == key,
        OpKindV::MapSet { key: k, .. } => k == key,
        OpKindV::MapDelete { key: k } => k == key,
        OpKindV::MapCreate { key: k } => k == key,
        OpKindV::ListCreate { key: k } => k == key,
        OpKindV::TextCreate { key: k } => k == key,
        OpKindV::XmlElementCreate { key: k, .. } => k == key,
        OpKindV::XmlFragmentCreate { key: k } => k == key,
        _ => false,
    }
}

/// Undoing what was written at a key puts back what was read there: nothing, the scalar, or
/// the register with the value it had. Nothing else moves.
pub proof fn law_undoing_a_write_restores_what_was_read(
    d: DocV,
    origin: Seq<u8>,
    map: ElementId,
    key: Seq<u8>,
    kind: OpKindV,
)
    requires
        records(d, origin),
        writes_key(kind, key),
        goes_in(d.begun(), map, kind),
        overwrites(d.begun(), map, key, kind),
        d.tree.maps[map].id == map,
        register_own(map, key, d.tree.slot(map, key)),
        slot_reads(d.tree, map, key) matches Some(x) ==> x is Scalar || x is Register,
        has_room(d, map, kind, map),
        d.history.current_element(map) == map,
    ensures
        d.after_edit(map, kind).after_undo(origin) matches Some(u) && alike_but(
            d.tree,
            u.tree,
            PlaceV { slot: Some((map, key)), ..nowhere() },
        ) && match slot_reads(d.tree, map, key) {
            Some(ElementV::Register(r)) => slot_reads(u.tree, map, key) matches Some(
                ElementV::Register(x),
            ) && x.value == r.value && x.id == r.id,
            other => slot_reads(u.tree, map, key) == other,
        },
{
    let t = d.tree;
    let b = d.begun();
    let e = b.emitted(map, kind);
    let s = b.mint(map, kind)->Some_0;
    let op = op_of(b, map, kind);
    let back = match live_value(t.slot(map, key)) {
        None => OpKindV::MapDelete { key },
        Some(ElementV::Scalar(value)) => OpKindV::MapSet { key, value },
        Some(ElementV::Register(r)) => OpKindV::RegisterSet { key, value: r.value },
        _ => arbitrary(),
    };
    assert(t.maps.dom().contains(map));
    assert(slot_reads(t, map, key) == live_value(t.slot(map, key)));
    assert(t.inverse(map, kind, s) =~= seq![StepV::Op { target: map, kind: back }]);
    assert(e.mint(map, back) is Some);
    lemma_plan_one(e.tree, StepV::Op { target: map, kind: back });
    lemma_one_undone(d, origin, map, kind, map, back);
    lemma_later(b, map, kind, map, back);
    law_mints_clear_the_record(b, map, kind);
    let undo = op_of(e, map, back);
    law_undo_restores_a_slot(t, op, undo);
    lemma_edited(b, map, kind);
    lemma_edited(e, map, back);
    lemma_slot_after(t, op);
    let at = PlaceV { slot: Some((map, key)), ..nowhere() };
    law_an_emitted_edit_touches_only_its_place(b, map, kind);
    assert(register_own(map, key, e.tree.slot(map, key)));
    assert(e.tree.takes(undo));
    lemma_slot_after(e.tree, undo);
    law_an_emitted_edit_touches_only_its_place(e, map, back);
    lemma_alike_through(t, e.tree, e.emitted(map, back).tree, at);
    let v = e.emitted(map, back).tree;
    assert(slot_reads(v, map, key) == live_value(v.slot(map, key)));
}

/// Undoing a count puts the counter back at what it read. What its author has counted fits
/// the tally both ways.
pub proof fn law_undoing_a_count_restores_what_was_read(
    d: DocV,
    origin: Seq<u8>,
    map: ElementId,
    key: Seq<u8>,
    amount: u32,
    up: bool,
)
    requires
        records(d, origin),
        ({
            let id = derived_id(map, key, ElementKind::Counter);
            let kind = if up {
                OpKindV::CounterInc { key, amount }
            } else {
                OpKindV::CounterDec { key, amount }
            };
            &&& goes_in(d.begun(), map, kind)
            &&& slot_reads(d.tree, map, key) == Some(ElementV::Counter(id))
            &&& d.tree.counters.dom().contains(id) ==> d.tree.counters[id].tallies.dom().finite()
            &&& tallied(d.tree, id, d.client).inc + amount <= u32::MAX
            &&& tallied(d.tree, id, d.client).dec + amount <= u32::MAX
            &&& has_room(d, map, kind, map)
        }),
        d.history.current_element(map) == map,
    ensures
        ({
            let id = derived_id(map, key, ElementKind::Counter);
            let kind = if up {
                OpKindV::CounterInc { key, amount }
            } else {
                OpKindV::CounterDec { key, amount }
            };
            d.after_edit(map, kind).after_undo(origin) matches Some(u) && count_reads(u.tree, id)
                == count_reads(d.tree, id)
        }),
{
    let t = d.tree;
    let b = d.begun();
    let id = derived_id(map, key, ElementKind::Counter);
    let kind = if up {
        OpKindV::CounterInc { key, amount }
    } else {
        OpKindV::CounterDec { key, amount }
    };
    let back = if up {
        OpKindV::CounterDec { key, amount }
    } else {
        OpKindV::CounterInc { key, amount }
    };
    let e = b.emitted(map, kind);
    let s = b.mint(map, kind)->Some_0;
    assert(t.holds_counter(map, key));
    assert(t.inverse(map, kind, s) =~= seq![StepV::Op { target: map, kind: back }]);
    assert(e.mint(map, back) is Some);
    lemma_plan_one(e.tree, StepV::Op { target: map, kind: back });
    lemma_one_undone(d, origin, map, kind, map, back);
    lemma_later(b, map, kind, map, back);
    lemma_edited(b, map, kind);
    lemma_edited(e, map, back);
    lemma_counted(t, op_of(b, map, kind), key, amount, up);
    let undo = op_of(e, map, back);
    lemma_slot_after(t, op_of(b, map, kind));
    lemma_counted(e.tree, undo, key, amount, !up);
}

/// Undoing an insert into a list puts the list back as it read. Nothing else moves.
pub proof fn law_undoing_an_insert_restores_what_was_read(
    d: DocV,
    origin: Seq<u8>,
    list: ElementId,
    index: nat,
    value: ScalarV,
)
    requires
        records(d, origin),
        d.tree.lists.dom().contains(list),
        index <= list_live(d.tree.lists[list]).len(),
        forall|anchor: Anchor|
            (#[trigger] d.begun().mint(list, OpKindV::ListInsert { value, anchor })) is Some
                && passes(
                d.begun(),
                list,
                OpKindV::ListInsert { value, anchor },
                d.tree.lists[list],
            ) && has_room(d, list, OpKindV::ListInsert { value, anchor }, list),
        forall|p: Placement| #[trigger]
            d.tree.placement_index.dom().contains(p) ==> p.list != list,
        d.history.current_element(list) == list,
        forall|id: Stamp| #[trigger] d.history.current(list, id) == id,
    ensures
        d.begun().with_item(list, index, value).ended().after_undo(origin) matches Some(u)
            && u.tree.lists.dom().contains(list) && list_values(u.tree.lists[list]) == list_values(
            d.tree.lists[list],
        ) && alike_but(d.tree, u.tree, PlaceV { list: Some(list), ..nowhere() }),
{
    let t = d.tree;
    let b = d.begun();
    let l = t.lists[list];
    let anchor = list_place(l, index, None);
    let kind = OpKindV::ListInsert { value, anchor };
    let e = b.emitted(list, kind);
    let s = b.mint(list, kind)->Some_0;
    let back = OpKindV::ListDelete { id: s };
    assert(passes(b, list, kind, l));
    assert(t.inverse(list, kind, s) =~= seq![StepV::Op { target: list, kind: back }]);
    assert(e.mint(list, back) is Some);
    law_mints_clear_the_record(b, list, kind);
    lemma_edited(b, list, kind);
    law_an_emitted_edit_touches_only_its_place(b, list, kind);
    reveal(TreeV::record);
    reveal(TreeV::list_insert);
    assert(e.tree.lists[list] == list_insert(l, s, ElementV::Scalar(value), anchor));
    assert(e.tree.lists[list].items[s].value == ElementV::Scalar(value));
    lemma_plan_one(e.tree, StepV::Op { target: list, kind: back });
    lemma_one_undone(d, origin, list, kind, list, back);
    lemma_edited(e, list, back);
    reveal(TreeV::list_delete);
    assert(e.tree.placement_index == t.placement_index);
    assert(!t.placement_index.dom().contains(Placement { list, stamp: s }));
    law_an_emitted_edit_touches_only_its_place(e, list, back);
    lemma_alike_through(
        t,
        e.tree,
        e.emitted(list, back).tree,
        PlaceV { list: Some(list), ..nowhere() },
    );
    law_undo_removes_an_insert(l, s, ElementV::Scalar(value), index);
}

/// Undoing an insert into a text puts the text back as it read. Nothing else moves.
pub proof fn law_undoing_typed_text_restores_what_was_read(
    d: DocV,
    origin: Seq<u8>,
    text: ElementId,
    index: nat,
    s: Seq<char>,
)
    requires
        records(d, origin),
        d.tree.texts.dom().contains(text),
        index <= list_live(d.tree.texts[text]).len(),
        s.len() > 0,
        forall|anchor: Anchor|
            (#[trigger] d.begun().mint(text, OpKindV::TextInsert { s, anchor })) is Some && passes(
                d.begun(),
                text,
                OpKindV::TextInsert { s, anchor },
                d.tree.texts[text],
            ) && has_room(d, text, OpKindV::TextInsert { s, anchor }, text),
        d.history.current_element(text) == text,
        forall|id: Stamp| #[trigger] d.history.current(text, id) == id,
    ensures
        d.begun().with_chars(text, index, s).ended().after_undo(origin) matches Some(u)
            && u.tree.texts.dom().contains(text) && text_of(u.tree.texts[text]) == text_of(
            d.tree.texts[text],
        ) && alike_but(d.tree, u.tree, PlaceV { text: Some(text), ..nowhere() }),
{
    let t = d.tree;
    let b = d.begun();
    let l = t.texts[text];
    let anchor = list_place(l, index, None);
    let kind = OpKindV::TextInsert { s, anchor };
    let e = b.emitted(text, kind);
    let stamp = b.mint(text, kind)->Some_0;
    let ids = run_ids(stamp, s.len());
    let back = OpKindV::TextDelete { ids };
    assert(passes(b, text, kind, l));
    assert(t.inverse(text, kind, stamp) =~= seq![StepV::Op { target: text, kind: back }]);
    assert(e.mint(text, back) is Some);
    law_mints_clear_the_record(b, text, kind);
    lemma_edited(b, text, kind);
    law_an_emitted_edit_touches_only_its_place(b, text, kind);
    reveal(TreeV::record);
    reveal(DocV::mint);
    let m = text_insert(l, stamp, s, anchor);
    assert(e.tree.texts[text] == m);
    assert(ids.map_values(|id: Stamp| d.history.current(text, id)) =~= ids);
    lemma_plan_one(e.tree, StepV::Op { target: text, kind: back });
    lemma_one_undone(d, origin, text, kind, text, back);
    lemma_edited(e, text, back);
    law_an_emitted_edit_touches_only_its_place(e, text, back);
    lemma_alike_through(
        t,
        e.tree,
        e.emitted(text, back).tree,
        PlaceV { text: Some(text), ..nowhere() },
    );
    assert(run_is_new(l, stamp, s.len()));
    law_text_insert_lands_at_its_index(l, stamp, s, index);
    let k = s.len();
    let live = list_live(m);
    let i = index as int;
    assert(live.subrange(i, i + k) =~= ids);
    lemma_cut(m, i, k);
    let n = text_delete(m, ids);
    assert(list_live(n) =~= list_live(l));
    assert forall|x: int| 0 <= x < list_live(n).len() implies #[trigger] text_of(n)[x] == text_of(
        l,
    )[x] by {
        let y = if x < i { x } else { x + k };
        assert(list_live(n)[x] == live[y]);
        lemma_live_in_items(n, order(n.places), x);
        assert(text_of(n)[x] == text_of(m)[y]);
    }
    assert(text_of(n) =~= text_of(l));
}

/// Undoing the deletion of an item puts the list back as it read: the value comes back where
/// it stood. Nothing else moves.
pub proof fn law_undoing_a_deletion_restores_what_was_read(
    d: DocV,
    origin: Seq<u8>,
    list: ElementId,
    index: nat,
)
    requires
        records(d, origin),
        d.tree.lists.dom().contains(list),
        d.tree.lists[list].places.dom().finite(),
        index < list_live(d.tree.lists[list]).len(),
        list_values(d.tree.lists[list])[index as int] is Scalar,
        ({
            let kind = OpKindV::ListDelete {
                id: list_live(d.tree.lists[list])[index as int],
            };
            &&& goes_in(d.begun(), list, kind)
            &&& passes(d.begun(), list, kind, d.tree.lists[list])
            &&& has_room(d, list, kind, list)
        }),
        d.history.current_element(list) == list,
    ensures
        d.begun().without_item(list, index).ended().after_undo(origin) matches Some(u)
            && u.tree.lists.dom().contains(list) && list_values(u.tree.lists[list]) == list_values(
            d.tree.lists[list],
        ) && alike_but(d.tree, u.tree, PlaceV { list: Some(list), ..nowhere() }),
{
    let t = d.tree;
    let b = d.begun();
    let l = t.lists[list];
    let gone = list_live(l)[index as int];
    let kind = OpKindV::ListDelete { id: gone };
    let e = b.emitted(list, kind);
    let s = b.mint(list, kind)->Some_0;
    lemma_live_in_items(l, order(l.places), index as int);
    let step = t.list_delete_inverse(list, gone)->Some_0;
    let anchor = step->ReviveItem_anchor;
    let value = step->ReviveItem_value;
    let back = OpKindV::ListInsert { value, anchor };
    assert(t.inverse(list, kind, s) =~= seq![step]);
    assert(e.mint(list, back) is Some);
    lemma_plan_one(e.tree, step);
    lemma_one_revived(d, origin, list, kind, step, list, back);
    law_mints_clear_the_record(b, list, kind);
    lemma_later(b, list, kind, list, back);
    lemma_edited(b, list, kind);
    lemma_edited(e, list, back);
    law_an_emitted_edit_touches_only_its_place(b, list, kind);
    reveal(TreeV::record);
    reveal(TreeV::list_insert);
    reveal(TreeV::list_delete);
    assert(e.tree.lists[list] == list_delete(l, gone));
    let now = e.mint(list, back)->Some_0;
    law_an_emitted_edit_touches_only_its_place(e, list, back);
    lemma_alike_through(
        t,
        e.tree,
        e.emitted(list, back).tree,
        PlaceV { list: Some(list), ..nowhere() },
    );
    assert forall|y: Stamp| #[trigger] l.places.dom().contains(y) implies l.places[y].parent
        != Some(now) && stamp_lt(y, now) by {
        assert(reached(b, list, kind, y));
    }
    law_undo_revives_an_item(t, list, index as int, now);
}

/// Undoing the deletion of codepoints puts the text back as it read. Nothing else moves.
pub proof fn law_undoing_a_cut_restores_what_was_read(
    d: DocV,
    origin: Seq<u8>,
    text: ElementId,
    index: nat,
    count: nat,
)
    requires
        records(d, origin),
        d.tree.texts.dom().contains(text),
        d.tree.texts[text].places.dom().finite(),
        0 < count,
        index + count <= list_live(d.tree.texts[text]).len(),
        ({
            let ids = list_live(d.tree.texts[text]).subrange(index as int, (index + count) as int);
            let kind = OpKindV::TextDelete { ids };
            &&& d.begun().mint(text, kind) is Some
            &&& passes(d.begun(), text, kind, d.tree.texts[text])
            &&& d.begun().emitted(text, kind).tree.materialised(text)
            &&& forall|k: OpKindV|
                spec_span(k) <= count ==> (#[trigger] d.begun().emitted(text, kind).mint(
                    text,
                    k,
                )) is Some
        }),
        d.history.current_element(text) == text,
    ensures
        d.begun().without_chars(text, index, count).ended().after_undo(origin) matches Some(u)
            && u.tree.texts.dom().contains(text) && text_of(u.tree.texts[text]) == text_of(
            d.tree.texts[text],
        ) && alike_but(d.tree, u.tree, PlaceV { text: Some(text), ..nowhere() }),
{
    let t = d.tree;
    let b = d.begun();
    let l = t.texts[text];
    let ids = list_live(l).subrange(index as int, (index + count) as int);
    assert(b.char_ids(text, index, count) =~= ids);
    let kind = OpKindV::TextDelete { ids };
    let e = b.emitted(text, kind);
    let s = b.mint(text, kind)->Some_0;
    lemma_cut_inverse(t, text, index as int, count);
    let step = t.text_delete_inverse(text, ids)->Some_0;
    let anchor = step->ReviveRun_anchor;
    let put = step->ReviveRun_s;
    let back = OpKindV::TextInsert { s: put, anchor };
    assert(t.inverse(text, kind, s) =~= seq![step]);
    assert(e.mint(text, back) is Some);
    lemma_plan_one(e.tree, step);
    lemma_one_revived(d, origin, text, kind, step, text, back);
    law_mints_clear_the_record(b, text, kind);
    lemma_later(b, text, kind, text, back);
    lemma_edited(b, text, kind);
    lemma_edited(e, text, back);
    law_an_emitted_edit_touches_only_its_place(b, text, kind);
    reveal(TreeV::record);
    assert(e.tree.texts[text] == text_delete(l, ids));
    let now = e.mint(text, back)->Some_0;
    law_an_emitted_edit_touches_only_its_place(e, text, back);
    lemma_alike_through(
        t,
        e.tree,
        e.emitted(text, back).tree,
        PlaceV { text: Some(text), ..nowhere() },
    );
    reveal(DocV::mint);
    assert forall|y: Stamp| #[trigger] l.places.dom().contains(y) implies stamp_lt(
        y,
        now.spec_run_member(0),
    ) by {
        assert(reached(b, text, kind, y));
    }
    assert(run_is_new(l, now, count));
    law_undo_revives_a_run(t, text, index as int, count, now);
}

/// Undoing a change of an annotation's payload puts the payload back.
pub proof fn law_undoing_a_payload_restores_what_was_said(
    d: DocV,
    origin: Seq<u8>,
    id: ElementId,
    value: ScalarV,
)
    requires
        records(d, origin),
        d.tree.ranged.dom().contains(id),
        d.tree.ranged[id].payload is Scalar,
        ({
            let kind = OpKindV::RangedSetPayload { id, payload: value };
            &&& goes_in(d.begun(), root_element(), kind)
            &&& reached(d.begun(), root_element(), kind, d.tree.ranged[id].payload->Scalar_stamp)
            &&& has_room(d, root_element(), kind, root_element())
        }),
        d.history.current_element(root_element()) == root_element(),
        d.history.current_element(id) == id,
    ensures
        ({
            let kind = OpKindV::RangedSetPayload { id, payload: value };
            let was = d.tree.ranged[id];
            d.after_edit(root_element(), kind).after_undo(origin) matches Some(u)
                && u.tree.ranged.dom().contains(id) && u.tree.ranged[id].start == was.start
                && u.tree.ranged[id].end == was.end && u.tree.ranged[id].name == was.name
                && u.tree.ranged[id].tombstone == was.tombstone && u.tree.ranged[id].payload is Scalar
                && u.tree.ranged[id].payload->Scalar_value == was.payload->Scalar_value
        }),
{
    let kind = OpKindV::RangedSetPayload { id, payload: value };
    let root = root_element();
    let b = d.begun();
    let e = b.emitted(root, kind);
    let s = b.mint(root, kind)->Some_0;
    let back = OpKindV::RangedSetPayload { id, payload: d.tree.ranged[id].payload->Scalar_value };
    assert(d.tree.inverse(root, kind, s) =~= seq![StepV::Op { target: root, kind: back }]);
    assert(e.mint(root, back) is Some);
    lemma_plan_one(e.tree, StepV::Op { target: root, kind: back });
    lemma_one_undone(d, origin, root, kind, root, back);
    lemma_later(b, root, kind, root, back);
    law_mints_clear_the_record(b, root, kind);
    lemma_edited(b, root, kind);
    lemma_edited(e, root, back);
    reveal(TreeV::record);
    reveal(TreeV::ranged_set);
}

/// Undoing an annotation deletes it.
pub proof fn law_undoing_an_annotation_deletes_it(
    d: DocV,
    origin: Seq<u8>,
    start: RangeAnchor,
    end: RangeAnchor,
    payload: RangedInitV,
    name: Option<Seq<u8>>,
)
    requires
        records(d, origin),
        ({
            let kind = OpKindV::RangedCreate { start, end, payload, name };
            &&& goes_in(d.begun(), root_element(), kind)
            &&& has_room(d, root_element(), kind, root_element())
            &&& d.history.current_element(
                spec_ranged_id(d.begun().stamp_for(root_element(), kind)),
            ) == spec_ranged_id(d.begun().stamp_for(root_element(), kind))
        }),
        d.history.current_element(root_element()) == root_element(),
    ensures
        ({
            let kind = OpKindV::RangedCreate { start, end, payload, name };
            let id = spec_ranged_id(d.begun().stamp_for(root_element(), kind));
            d.after_edit(root_element(), kind).after_undo(origin) matches Some(u)
                && u.tree.ranged.dom().contains(id) && u.tree.ranged[id].tombstone && alike_but(
                d.tree,
                u.tree,
                nowhere(),
            )
        }),
{
    let kind = OpKindV::RangedCreate { start, end, payload, name };
    let root = root_element();
    let b = d.begun();
    let e = b.emitted(root, kind);
    let s = b.mint(root, kind)->Some_0;
    let id = spec_ranged_id(s);
    let back = OpKindV::RangedDelete { id };
    assert(d.tree.inverse(root, kind, s) =~= seq![StepV::Op { target: root, kind: back }]);
    assert(e.mint(root, back) is Some);
    lemma_plan_one(e.tree, StepV::Op { target: root, kind: back });
    lemma_one_undone(d, origin, root, kind, root, back);
    law_an_annotation_says_what_it_was_given(b, start, end, payload, name);
    law_a_deleted_annotation_is_gone(e, id);
    let v = e.emitted(root, back).tree;
    let at = PlaceV { note: Some(id), ..nowhere() };
    assert(alike_but(d.tree, e.tree, at));
    lemma_alike_through(d.tree, e.tree, v, at);
    assert(!d.tree.ranged.dom().contains(id));
}

/// Undoing a revocation grants the same again.
pub proof fn law_undoing_a_revocation_grants_again(d: DocV, origin: Seq<u8>, id: ElementId)
    requires
        records(d, origin),
        goes_in(d.begun(), root_element(), OpKindV::AclRevoke { id }),
        has_room(d, root_element(), OpKindV::AclRevoke { id }, root_element()),
        d.history.current_element(root_element()) == root_element(),
    ensures
        d.after_edit(root_element(), OpKindV::AclRevoke { id }).after_undo(origin) matches Some(u)
            && exists|now: ElementId| #[trigger]
            u.tree.acl.dom().contains(now) && u.tree.acl[now].subject == d.tree.acl[id].subject
                && u.tree.acl[now].grant == d.tree.acl[id].grant && u.tree.acl[now].effect
                == d.tree.acl[id].effect && u.tree.acl[now].path == d.tree.acl[id].path
                && u.tree.acl[now].grantor == d.tree.acl[id].grantor && (
            !d.tree.acl.dom().contains(now) ==> u.tree.acl[now].revokers.len() == 0),
{
    let kind = OpKindV::AclRevoke { id };
    let root = root_element();
    let b = d.begun();
    let e = b.emitted(root, kind);
    let s = b.mint(root, kind)->Some_0;
    let was = d.tree.acl[id];
    let step = StepV::Regrant {
        target: root,
        subject: was.subject,
        grant: was.grant,
        effect: was.effect,
        path: was.path,
        grantor: was.grantor,
        was: id,
    };
    let back = OpKindV::AclGrant {
        subject: was.subject,
        grant: was.grant,
        effect: was.effect,
        path: was.path,
        grantor: was.grantor,
    };
    assert(d.tree.inverse(root, kind, s) =~= seq![step]);
    assert(e.mint(root, back) is Some);
    lemma_plan_one(e.tree, step);
    lemma_one_revived(d, origin, root, kind, step, root, back);
    lemma_edited(b, root, kind);
    lemma_edited(e, root, back);
    reveal(TreeV::record);
    reveal(TreeV::acl_grant);
    reveal(TreeV::acl_revoke);
    let v = e.emitted(root, back).tree;
    assert(v.acl.dom().contains(id));
}

} // verus!
