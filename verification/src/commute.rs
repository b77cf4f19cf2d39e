//! Concurrent ops commute: what each op writes, and why the order of two that neither
//! waits on the other does not show.

use crate::anchor::Anchor;
use crate::annot::{AclEntryV, PayloadV, Placement, RangedEntryV};
use crate::clientid::ClientId;
use crate::converge::{lemma_raised, lemma_record, raised};
use crate::counter::{tallies_dec, tallies_inc, tally_of, wrap_add, CounterV, Tally};
use crate::doc::DocV;
use crate::element::ElementV;
use crate::elementid::{derived_id, ElementId, ElementKind};
use crate::identity::{
    spec_acl_id, spec_payload_id, spec_ranged_id, spec_span, spec_xml_child_id,
};
use crate::list::{list_delete, list_insert, ListV};
use crate::list_laws::{law_insert_and_delete_commute, law_inserts_commute};
use crate::list_state::empty_list;
use crate::map::{
    live_value, register_evicts, set_evicts, slot_at, slot_delete, slot_set, slot_set_register,
    slot_wins, MapV, SlotV,
};
use crate::map_laws::{law_deletes_commute, law_set_and_delete_commute, law_sets_commute};
use crate::op::{OpKindV, OpV};
use crate::ranged::{RangeAnchor, RangedInitV};
use crate::register::RegisterV;
use crate::scalar::ScalarV;
use crate::stamp::{stamp_lt, Stamp};
use crate::text::{char_item, insert_upto, run_anchor, text_delete};
use crate::tree::{empty_map, or_insert, Claim, ContainerV, TreeV};
use crate::treemove::{link_of, MovesV};
use crate::xml::{node_attrs_id, node_children_id, XmlElementV, XmlFragment};
use vstd::prelude::*;

verus! {

/// One cell of the state written.
pub enum WriteV {
    /// A slot set, or deleted where there is no value.
    Slot { map: ElementId, key: Seq<u8>, value: Option<ElementV>, stamp: Stamp },
    Tally { id: ElementId, author: ClientId, amount: u32, up: bool },
    NewMap { id: ElementId },
    NewList { id: ElementId },
    NewText { id: ElementId },
    NewElement { id: ElementId, tag: Seq<u8> },
    NewFragment { id: ElementId },
    /// What a container hangs off and was created under.
    Link { child: ElementId, parent: ElementId },
    /// What a movable node hangs off.
    Home { child: ElementId, parent: ElementId },
    /// What a movable node was created under.
    Base { child: ElementId, parent: ElementId },
    Place { node: ElementId, at: Placement },
    /// Which node owns a placement.
    Hold { at: Placement, node: ElementId },
    Await { node: ElementId },
    Placed { node: ElementId },
    ListPut { list: ElementId, id: Stamp, value: ElementV, anchor: Anchor },
    ListDrop { list: ElementId, id: Stamp },
    TextPut { text: ElementId, id: Stamp, value: ElementV, anchor: Anchor },
    TextDrop { text: ElementId, id: Stamp },
    Note { id: ElementId, entry: RangedEntryV },
    NoteSet { id: ElementId, value: ScalarV, stamp: Stamp },
    NoteDrop { id: ElementId },
    Grant { id: ElementId, entry: AclEntryV },
    Revoke { id: ElementId, author: ClientId },
    /// A reservation of stamps recorded.
    Raise { stamp: Stamp, span: nat },
}

pub open spec fn counted(
    counters: Map<ElementId, CounterV>,
    id: ElementId,
    author: ClientId,
    amount: u32,
    up: bool,
) -> Map<ElementId, CounterV> {
    let m = or_insert(counters, id, CounterV { id, tallies: Map::empty(), displaced: false });
    let tallies = if up {
        tallies_inc(m[id].tallies, author, amount)
    } else {
        tallies_dec(m[id].tallies, author, amount)
    };
    m.insert(id, CounterV { tallies, ..m[id] })
}

/// The slot after a write.
pub open spec fn slot_written(s: Option<SlotV>, value: Option<ElementV>, stamp: Stamp) -> SlotV {
    match value {
        Some(v) => slot_set(s, v, stamp),
        None => slot_delete(s, stamp),
    }
}

pub open spec fn maps_after(m: Map<ElementId, MapV>, w: WriteV) -> Map<ElementId, MapV> {
    match w {
        WriteV::Slot { map, key, value, stamp } => if m.dom().contains(map) {
            let slots = m[map].slots;
            m.insert(
                map,
                MapV {
                    slots: slots.insert(key, slot_written(slot_at(slots, key), value, stamp)),
                    ..m[map]
                },
            )
        } else {
            m
        },
        WriteV::NewMap { id } => or_insert(m, id, empty_map(id)),
        _ => m,
    }
}

pub open spec fn lists_after(m: Map<ElementId, ListV>, w: WriteV) -> Map<ElementId, ListV> {
    match w {
        WriteV::ListPut { list, id, value, anchor } => if m.dom().contains(list) {
            m.insert(list, list_insert(m[list], id, value, anchor))
        } else {
            m
        },
        WriteV::ListDrop { list, id } => if m.dom().contains(list) {
            m.insert(list, list_delete(m[list], id))
        } else {
            m
        },
        WriteV::NewList { id } => or_insert(m, id, empty_list(id)),
        _ => m,
    }
}

pub open spec fn texts_after(m: Map<ElementId, ListV>, w: WriteV) -> Map<ElementId, ListV> {
    match w {
        WriteV::TextPut { text, id, value, anchor } => if m.dom().contains(text) {
            m.insert(text, list_insert(m[text], id, value, anchor))
        } else {
            m
        },
        WriteV::TextDrop { text, id } => if m.dom().contains(text) {
            m.insert(text, list_delete(m[text], id))
        } else {
            m
        },
        WriteV::NewText { id } => or_insert(m, id, empty_list(id)),
        _ => m,
    }
}

pub open spec fn counters_after(m: Map<ElementId, CounterV>, w: WriteV) -> Map<
    ElementId,
    CounterV,
> {
    match w {
        WriteV::Tally { id, author, amount, up } => counted(m, id, author, amount, up),
        _ => m,
    }
}

pub open spec fn elements_after(m: Map<ElementId, XmlElementV>, w: WriteV) -> Map<
    ElementId,
    XmlElementV,
> {
    match w {
        WriteV::NewElement { id, tag } => or_insert(m, id, XmlElementV { tag, displaced: false }),
        _ => m,
    }
}

pub open spec fn fragments_after(m: Map<ElementId, XmlFragment>, w: WriteV) -> Map<
    ElementId,
    XmlFragment,
> {
    match w {
        WriteV::NewFragment { id } => or_insert(m, id, XmlFragment { displaced: false }),
        _ => m,
    }
}

pub open spec fn links_after(m: Map<ElementId, ElementId>, w: WriteV) -> Map<ElementId, ElementId> {
    match w {
        WriteV::Link { child, parent } => m.insert(child, parent),
        WriteV::Home { child, parent } => m.insert(child, parent),
        _ => m,
    }
}

pub open spec fn bases_after(m: Map<ElementId, ElementId>, w: WriteV) -> Map<ElementId, ElementId> {
    match w {
        WriteV::Link { child, parent } => m.insert(child, parent),
        WriteV::Base { child, parent } => m.insert(child, parent),
        _ => m,
    }
}

pub open spec fn placements_after(m: Map<ElementId, Seq<Placement>>, w: WriteV) -> Map<
    ElementId,
    Seq<Placement>,
> {
    match w {
        WriteV::Place { node, at } => m.insert(
            node,
            if m.dom().contains(node) {
                m[node].push(at)
            } else {
                Seq::empty().push(at)
            },
        ),
        _ => m,
    }
}

pub open spec fn index_after(m: Map<Placement, ElementId>, w: WriteV) -> Map<Placement, ElementId> {
    match w {
        WriteV::Hold { at, node } => m.insert(at, node),
        _ => m,
    }
}

pub open spec fn awaiting_after(s: Set<ElementId>, w: WriteV) -> Set<ElementId> {
    match w {
        WriteV::Await { node } => s.insert(node),
        WriteV::Placed { node } => s.remove(node),
        _ => s,
    }
}

/// An annotation whose payload was written: the later write stands, and a container is
/// not replaced.
pub open spec fn entry_set(e: RangedEntryV, value: ScalarV, stamp: Stamp) -> RangedEntryV {
    match e.payload {
        PayloadV::Scalar { stamp: last, .. } if stamp_lt(last, stamp) => RangedEntryV {
            payload: PayloadV::Scalar { value, stamp },
            ..e
        },
        _ => e,
    }
}

pub open spec fn ranged_after(m: Map<ElementId, RangedEntryV>, w: WriteV) -> Map<
    ElementId,
    RangedEntryV,
> {
    match w {
        WriteV::Note { id, entry } => or_insert(m, id, entry),
        WriteV::NoteSet { id, value, stamp } => if m.dom().contains(id) {
            m.insert(id, entry_set(m[id], value, stamp))
        } else {
            m
        },
        WriteV::NoteDrop { id } => if m.dom().contains(id) {
            m.insert(id, RangedEntryV { tombstone: true, ..m[id] })
        } else {
            m
        },
        _ => m,
    }
}

pub open spec fn acl_after(m: Map<ElementId, AclEntryV>, w: WriteV) -> Map<ElementId, AclEntryV> {
    match w {
        WriteV::Grant { id, entry } => or_insert(m, id, entry),
        WriteV::Revoke { id, author } => if m.dom().contains(id) {
            m.insert(id, AclEntryV { revokers: m[id].revokers.insert(author), ..m[id] })
        } else {
            m
        },
        _ => m,
    }
}

pub open spec fn figures_after(m: Map<ClientId, u64>, w: WriteV) -> Map<ClientId, u64> {
    match w {
        WriteV::Raise { stamp, span } => raised(m, stamp, span),
        _ => m,
    }
}

impl TreeV {
    /// The state but for what displacement says: which containers have lost their slot,
    /// and which losses are still to be reported.
    pub open spec fn plain(self) -> TreeV {
        TreeV {
            maps: self.maps.map_values(|m: MapV| MapV { displaced: false, ..m }),
            lists: self.lists.map_values(|l: ListV| ListV { displaced: false, ..l }),
            texts: self.texts.map_values(|l: ListV| ListV { displaced: false, ..l }),
            counters: self.counters.map_values(|c: CounterV| CounterV { displaced: false, ..c }),
            xml_elements: self.xml_elements.map_values(
                |x: XmlElementV| XmlElementV { displaced: false, ..x },
            ),
            xml_fragments: self.xml_fragments.map_values(
                |x: XmlFragment| XmlFragment { displaced: false },
            ),
            orphans: Seq::empty(),
            ..self
        }
    }

    /// After one write.
    pub open spec fn write(self, w: WriteV) -> TreeV {
        TreeV {
            maps: maps_after(self.maps, w),
            lists: lists_after(self.lists, w),
            texts: texts_after(self.texts, w),
            counters: counters_after(self.counters, w),
            xml_elements: elements_after(self.xml_elements, w),
            xml_fragments: fragments_after(self.xml_fragments, w),
            parents: links_after(self.parents, w),
            moves: MovesV { base: bases_after(self.moves.base, w), ..self.moves },
            placements: placements_after(self.placements, w),
            placement_index: index_after(self.placement_index, w),
            revealed: awaiting_after(self.revealed, w),
            ranged: ranged_after(self.ranged, w),
            acl: acl_after(self.acl, w),
            high_water: figures_after(self.high_water, w),
            ..self
        }
    }

    /// After writes, in turn.
    pub open spec fn writes(self, ws: Seq<WriteV>) -> TreeV
        decreases ws.len(),
    {
        if ws.len() == 0 {
            self
        } else {
            self.writes(ws.drop_last()).write(ws.last())
        }
    }

    /// Whether what a write goes into is here.
    pub open spec fn admits(self, w: WriteV) -> bool {
        match w {
            WriteV::Slot { map, .. } => self.maps.dom().contains(map),
            WriteV::ListPut { list, .. } => self.lists.dom().contains(list),
            WriteV::ListDrop { list, .. } => self.lists.dom().contains(list),
            WriteV::TextPut { text, .. } => self.texts.dom().contains(text),
            WriteV::TextDrop { text, .. } => self.texts.dom().contains(text),
            WriteV::NoteSet { id, .. } => self.ranged.dom().contains(id),
            WriteV::NoteDrop { id } => self.ranged.dom().contains(id),
            WriteV::Revoke { id, .. } => self.acl.dom().contains(id),
            _ => true,
        }
    }
}

/// Whether two writes to one cell do not contradict each other: values under one key at
/// different stamps, items under different ids, and the same new entry under one id.
pub open spec fn apart(v: WriteV, w: WriteV) -> bool {
    match (v, w) {
        (
            WriteV::Slot { map: m, key: k, stamp: s, .. },
            WriteV::Slot { map: n, key: l, stamp: t, .. },
        ) => m == n && k == l ==> s != t,
        (WriteV::NewElement { id: a, tag: x }, WriteV::NewElement { id: b, tag: y }) => a == b ==> x
            == y,
        (WriteV::Link { child: a, parent: x }, WriteV::Link { child: b, parent: y }) => a == b
            ==> x == y,
        (WriteV::Link { child: a, parent: x }, WriteV::Home { child: b, parent: y }) => a == b
            ==> x == y,
        (WriteV::Link { child: a, parent: x }, WriteV::Base { child: b, parent: y }) => a == b
            ==> x == y,
        (WriteV::Home { child: a, parent: x }, WriteV::Link { child: b, parent: y }) => a == b
            ==> x == y,
        (WriteV::Home { child: a, parent: x }, WriteV::Home { child: b, parent: y }) => a == b
            ==> x == y,
        (WriteV::Base { child: a, parent: x }, WriteV::Link { child: b, parent: y }) => a == b
            ==> x == y,
        (WriteV::Base { child: a, parent: x }, WriteV::Base { child: b, parent: y }) => a == b
            ==> x == y,
        (WriteV::Place { node: a, .. }, WriteV::Place { node: b, .. }) => a != b,
        (WriteV::Hold { at: a, .. }, WriteV::Hold { at: b, .. }) => a != b,
        (WriteV::Hold { at, .. }, WriteV::ListDrop { list, id }) => at != (Placement {
            list,
            stamp: id,
        }),
        (WriteV::ListDrop { list, id }, WriteV::Hold { at, .. }) => at != (Placement {
            list,
            stamp: id,
        }),
        (WriteV::Await { node: a }, WriteV::Placed { node: b }) => a != b,
        (WriteV::Placed { node: a }, WriteV::Await { node: b }) => a != b,
        (
            WriteV::ListPut { list: l, id: a, .. },
            WriteV::ListPut { list: m, id: b, .. },
        ) => l == m ==> a != b,
        (WriteV::ListPut { list: l, id: a, .. }, WriteV::ListDrop { list: m, id: b }) => l == m
            ==> a != b,
        (WriteV::ListDrop { list: l, id: a }, WriteV::ListPut { list: m, id: b, .. }) => l == m
            ==> a != b,
        (
            WriteV::TextPut { text: l, id: a, .. },
            WriteV::TextPut { text: m, id: b, .. },
        ) => l == m ==> a != b,
        (WriteV::TextPut { text: l, id: a, .. }, WriteV::TextDrop { text: m, id: b }) => l == m
            ==> a != b,
        (WriteV::TextDrop { text: l, id: a }, WriteV::TextPut { text: m, id: b, .. }) => l == m
            ==> a != b,
        (WriteV::Note { id: a, .. }, WriteV::Note { id: b, .. }) => a != b,
        (
            WriteV::NoteSet { id: a, stamp: s, .. },
            WriteV::NoteSet { id: b, stamp: t, .. },
        ) => a == b ==> s != t,
        (WriteV::Grant { id: a, entry: x }, WriteV::Grant { id: b, entry: y }) => a == b ==> x == y,
        _ => true,
    }
}

// --- two writes ---

proof fn lemma_maps_commute(m: Map<ElementId, MapV>, v: WriteV, w: WriteV)
    requires
        v matches WriteV::Slot { map, .. } ==> m.dom().contains(map),
        w matches WriteV::Slot { map, .. } ==> m.dom().contains(map),
        apart(v, w),
    ensures
        maps_after(maps_after(m, v), w) == maps_after(maps_after(m, w), v),
{
    let x = maps_after(maps_after(m, v), w);
    let y = maps_after(maps_after(m, w), v);
    if let WriteV::Slot { map, key: k, value: a, stamp: s } = v {
        if let WriteV::Slot { map: n, key: l, value: b, stamp: r } = w {
            if map == n && k == l {
                let slot = slot_at(m[map].slots, k);
                match (a, b) {
                    (Some(p), Some(q)) => law_sets_commute(slot, p, s, q, r),
                    (Some(p), None) => law_set_and_delete_commute(slot, p, s, r),
                    (None, Some(q)) => law_set_and_delete_commute(slot, q, r, s),
                    (None, None) => law_deletes_commute(slot, s, r),
                }
            }
            if map == n {
                assert(x[map].slots =~= y[map].slots);
            }
        }
    }
    assert(x =~= y);
}

proof fn lemma_lists_commute(m: Map<ElementId, ListV>, v: WriteV, w: WriteV)
    requires
        v matches WriteV::ListPut { list, .. } ==> m.dom().contains(list),
        w matches WriteV::ListPut { list, .. } ==> m.dom().contains(list),
        v matches WriteV::ListDrop { list, .. } ==> m.dom().contains(list),
        w matches WriteV::ListDrop { list, .. } ==> m.dom().contains(list),
        apart(v, w),
    ensures
        lists_after(lists_after(m, v), w) == lists_after(lists_after(m, w), v),
{
    let x = lists_after(lists_after(m, v), w);
    let y = lists_after(lists_after(m, w), v);
    match (v, w) {
        (
            WriteV::ListPut { list: l, id: a, value: p, anchor: c },
            WriteV::ListPut { list: n, id: b, value: q, anchor: d },
        ) => {
            if l == n {
                law_inserts_commute(m[l], a, p, c, b, q, d);
            }
        },
        (
            WriteV::ListPut { list: l, id: a, value: p, anchor: c },
            WriteV::ListDrop { list: n, id: b },
        ) => {
            if l == n {
                law_insert_and_delete_commute(m[l], a, p, c, b);
            }
        },
        (
            WriteV::ListDrop { list: n, id: b },
            WriteV::ListPut { list: l, id: a, value: p, anchor: c },
        ) => {
            if l == n {
                law_insert_and_delete_commute(m[l], a, p, c, b);
            }
        },
        (WriteV::ListDrop { list: l, id: a }, WriteV::ListDrop { list: n, id: b }) => {
            if l == n {
                assert(x[l].items =~= y[l].items);
            }
        },
        _ => {},
    }
    assert(x =~= y);
}

proof fn lemma_texts_commute(m: Map<ElementId, ListV>, v: WriteV, w: WriteV)
    requires
        v matches WriteV::TextPut { text, .. } ==> m.dom().contains(text),
        w matches WriteV::TextPut { text, .. } ==> m.dom().contains(text),
        v matches WriteV::TextDrop { text, .. } ==> m.dom().contains(text),
        w matches WriteV::TextDrop { text, .. } ==> m.dom().contains(text),
        apart(v, w),
    ensures
        texts_after(texts_after(m, v), w) == texts_after(texts_after(m, w), v),
{
    let x = texts_after(texts_after(m, v), w);
    let y = texts_after(texts_after(m, w), v);
    match (v, w) {
        (
            WriteV::TextPut { text: l, id: a, value: p, anchor: c },
            WriteV::TextPut { text: n, id: b, value: q, anchor: d },
        ) => {
            if l == n {
                law_inserts_commute(m[l], a, p, c, b, q, d);
            }
        },
        (
            WriteV::TextPut { text: l, id: a, value: p, anchor: c },
            WriteV::TextDrop { text: n, id: b },
        ) => {
            if l == n {
                law_insert_and_delete_commute(m[l], a, p, c, b);
            }
        },
        (
            WriteV::TextDrop { text: n, id: b },
            WriteV::TextPut { text: l, id: a, value: p, anchor: c },
        ) => {
            if l == n {
                law_insert_and_delete_commute(m[l], a, p, c, b);
            }
        },
        (WriteV::TextDrop { text: l, id: a }, WriteV::TextDrop { text: n, id: b }) => {
            if l == n {
                assert(x[l].items =~= y[l].items);
            }
        },
        _ => {},
    }
    assert(x =~= y);
}

proof fn lemma_notes_commute(m: Map<ElementId, RangedEntryV>, v: WriteV, w: WriteV)
    requires
        v matches WriteV::NoteSet { id, .. } ==> m.dom().contains(id),
        w matches WriteV::NoteSet { id, .. } ==> m.dom().contains(id),
        v matches WriteV::NoteDrop { id, .. } ==> m.dom().contains(id),
        w matches WriteV::NoteDrop { id, .. } ==> m.dom().contains(id),
        apart(v, w),
    ensures
        ranged_after(ranged_after(m, v), w) == ranged_after(ranged_after(m, w), v),
{
    assert(ranged_after(ranged_after(m, v), w) =~= ranged_after(ranged_after(m, w), v));
}

proof fn lemma_grants_commute(m: Map<ElementId, AclEntryV>, v: WriteV, w: WriteV)
    requires
        v matches WriteV::Revoke { id, .. } ==> m.dom().contains(id),
        w matches WriteV::Revoke { id, .. } ==> m.dom().contains(id),
        apart(v, w),
    ensures
        acl_after(acl_after(m, v), w) == acl_after(acl_after(m, w), v),
{
    let x = acl_after(acl_after(m, v), w);
    let y = acl_after(acl_after(m, w), v);
    if let WriteV::Revoke { id: a, .. } = v {
        if let WriteV::Revoke { id: b, .. } = w {
            if a == b {
                assert(x[a].revokers =~= y[a].revokers);
            }
        }
    }
    assert(x =~= y);
}

proof fn lemma_wrap(a: u32, b: u32, c: u32)
    ensures
        wrap_add(wrap_add(a, b), c) == wrap_add(wrap_add(a, c), b),
{
}

proof fn lemma_tallies_commute(
    m: Map<ElementId, CounterV>,
    a: ElementId,
    x: ClientId,
    p: u32,
    u: bool,
    b: ElementId,
    y: ClientId,
    q: u32,
    v: bool,
)
    ensures
        counted(counted(m, a, x, p, u), b, y, q, v) == counted(counted(m, b, y, q, v), a, x, p, u),
{
    let l = counted(counted(m, a, x, p, u), b, y, q, v);
    let r = counted(counted(m, b, y, q, v), a, x, p, u);
    if a == b {
        let t = or_insert(m, a, CounterV { id: a, tallies: Map::empty(), displaced: false })[a].tallies;
        if x == y {
            lemma_wrap(tally_of(t, x).inc, p, q);
            lemma_wrap(tally_of(t, x).dec, p, q);
        }
        assert(l[a].tallies =~= r[a].tallies);
    }
    assert(l =~= r);
}

proof fn lemma_small_parts_commute(t: TreeV, v: WriteV, w: WriteV)
    requires
        apart(v, w),
    ensures
        counters_after(counters_after(t.counters, v), w) == counters_after(
            counters_after(t.counters, w),
            v,
        ),
        elements_after(elements_after(t.xml_elements, v), w) == elements_after(
            elements_after(t.xml_elements, w),
            v,
        ),
        fragments_after(fragments_after(t.xml_fragments, v), w) == fragments_after(
            fragments_after(t.xml_fragments, w),
            v,
        ),
        links_after(links_after(t.parents, v), w) == links_after(links_after(t.parents, w), v),
        bases_after(bases_after(t.moves.base, v), w) == bases_after(
            bases_after(t.moves.base, w),
            v,
        ),
        placements_after(placements_after(t.placements, v), w) == placements_after(
            placements_after(t.placements, w),
            v,
        ),
        index_after(index_after(t.placement_index, v), w) == index_after(
            index_after(t.placement_index, w),
            v,
        ),
        awaiting_after(awaiting_after(t.revealed, v), w) == awaiting_after(
            awaiting_after(t.revealed, w),
            v,
        ),
        figures_after(figures_after(t.high_water, v), w) == figures_after(
            figures_after(t.high_water, w),
            v,
        ),
{
    if let WriteV::Tally { id: a, author: p, amount: n, up: u } = v {
        if let WriteV::Tally { id: b, author: q, amount: m, up: d } = w {
            lemma_tallies_commute(t.counters, a, p, n, u, b, q, m, d);
        }
    }
    if let WriteV::Raise { stamp: a, span: m } = v {
        if let WriteV::Raise { stamp: b, span: n } = w {
            lemma_raised(t.high_water, a, m, b, n);
        }
    }
    assert(elements_after(elements_after(t.xml_elements, v), w) =~= elements_after(
        elements_after(t.xml_elements, w),
        v,
    ));
    assert(fragments_after(fragments_after(t.xml_fragments, v), w) =~= fragments_after(
        fragments_after(t.xml_fragments, w),
        v,
    ));
    assert(links_after(links_after(t.parents, v), w) =~= links_after(links_after(t.parents, w), v));
    assert(bases_after(bases_after(t.moves.base, v), w) =~= bases_after(
        bases_after(t.moves.base, w),
        v,
    ));
    assert(placements_after(placements_after(t.placements, v), w) =~= placements_after(
        placements_after(t.placements, w),
        v,
    ));
    assert(index_after(index_after(t.placement_index, v), w) =~= index_after(
        index_after(t.placement_index, w),
        v,
    ));
    assert(awaiting_after(awaiting_after(t.revealed, v), w) =~= awaiting_after(
        awaiting_after(t.revealed, w),
        v,
    ));
}

/// Two writes that stand apart commute.
proof fn lemma_commute(t: TreeV, v: WriteV, w: WriteV)
    requires
        t.admits(v),
        t.admits(w),
        apart(v, w),
    ensures
        t.write(v).write(w) == t.write(w).write(v),
{
    lemma_maps_commute(t.maps, v, w);
    lemma_lists_commute(t.lists, v, w);
    lemma_texts_commute(t.texts, v, w);
    lemma_notes_commute(t.ranged, v, w);
    lemma_grants_commute(t.acl, v, w);
    lemma_small_parts_commute(t, v, w);
}

/// What a write goes into stays once it is here.
proof fn lemma_still_admits(t: TreeV, v: WriteV, w: WriteV)
    requires
        t.admits(v),
    ensures
        t.write(w).admits(v),
{
}

/// A write past a run of writes it stands apart from.
proof fn lemma_past(t: TreeV, v: WriteV, ws: Seq<WriteV>)
    requires
        t.admits(v),
        forall|i: int| 0 <= i < ws.len() ==> t.admits(#[trigger] ws[i]) && apart(v, ws[i]),
    ensures
        t.write(v).writes(ws) == t.writes(ws).write(v),
        t.writes(ws).admits(v),
    decreases ws.len(),
{
    if ws.len() > 0 {
        let h = ws.drop_last();
        let w = ws.last();
        assert forall|i: int| 0 <= i < h.len() implies t.admits(#[trigger] h[i]) && apart(
            v,
            h[i],
        ) by {
            assert(h[i] == ws[i]);
        }
        lemma_past(t, v, h);
        assert(t.admits(ws[ws.len() - 1]) && apart(v, ws[ws.len() - 1]));
        lemma_admits_after(t, w, h);
        lemma_commute(t.writes(h), v, w);
        lemma_still_admits(t.writes(h), v, w);
    }
}

proof fn lemma_admits_after(t: TreeV, v: WriteV, ws: Seq<WriteV>)
    requires
        t.admits(v),
    ensures
        t.writes(ws).admits(v),
    decreases ws.len(),
{
    if ws.len() > 0 {
        lemma_admits_after(t, v, ws.drop_last());
        lemma_still_admits(t.writes(ws.drop_last()), v, ws.last());
    }
}

/// Two runs of writes that stand apart commute.
pub(crate) proof fn lemma_runs_commute(t: TreeV, vs: Seq<WriteV>, ws: Seq<WriteV>)
    requires
        forall|i: int| 0 <= i < vs.len() ==> t.admits(#[trigger] vs[i]),
        forall|i: int| 0 <= i < ws.len() ==> t.admits(#[trigger] ws[i]),
        forall|i: int, j: int|
            0 <= i < vs.len() && 0 <= j < ws.len() ==> apart(#[trigger] vs[i], #[trigger] ws[j]),
    ensures
        t.writes(vs).writes(ws) == t.writes(ws).writes(vs),
    decreases vs.len(),
{
    if vs.len() > 0 {
        let h = vs.drop_last();
        let v = vs.last();
        assert forall|i: int| 0 <= i < h.len() implies t.admits(#[trigger] h[i]) by {
            assert(h[i] == vs[i]);
        }
        assert forall|i: int, j: int| 0 <= i < h.len() && 0 <= j < ws.len() implies apart(
            #[trigger] h[i],
            #[trigger] ws[j],
        ) by {
            assert(h[i] == vs[i]);
        }
        lemma_runs_commute(t, h, ws);
        let u = t.writes(h);
        assert(v == vs[vs.len() - 1]);
        lemma_admits_after(t, v, h);
        assert forall|i: int| 0 <= i < ws.len() implies u.admits(#[trigger] ws[i]) && apart(
            v,
            ws[i],
        ) by {
            lemma_admits_after(t, ws[i], h);
        }
        lemma_past(u, v, ws);
    }
}

// --- what an op writes ---

/// What materialising a container writes.
pub open spec fn born(id: ElementId, c: ContainerV) -> Seq<WriteV> {
    match c {
        ContainerV::LwwMap => seq![WriteV::NewMap { id }],
        ContainerV::List => seq![WriteV::NewList { id }],
        ContainerV::Text => seq![WriteV::NewText { id }],
        ContainerV::XmlElement(tag) => seq![
            WriteV::NewElement { id, tag },
            WriteV::NewMap { id: node_attrs_id(id) },
            WriteV::NewList { id: node_children_id(id) },
            WriteV::Link { child: node_attrs_id(id), parent: id },
            WriteV::Link { child: node_children_id(id), parent: id },
        ],
        ContainerV::XmlFragment => seq![
            WriteV::NewFragment { id },
            WriteV::NewList { id: node_children_id(id) },
            WriteV::Link { child: node_children_id(id), parent: id },
        ],
    }
}

/// What creating a container at a key writes.
pub open spec fn created(
    map: ElementId,
    key: Seq<u8>,
    stamp: Stamp,
    c: ContainerV,
) -> Seq<WriteV> {
    let child = c.child_id(map, key);
    born(child, c) + seq![
        WriteV::Slot { map, key, value: Some(c.handle(child)), stamp },
        WriteV::Link { child, parent: map },
    ]
}

/// What counting at a key writes.
pub open spec fn counting(
    map: ElementId,
    key: Seq<u8>,
    author: ClientId,
    amount: u32,
    up: bool,
    stamp: Stamp,
) -> Seq<WriteV> {
    let id = derived_id(map, key, ElementKind::Counter);
    seq![
        WriteV::Tally { id, author, amount, up },
        WriteV::Slot { map, key, value: Some(ElementV::Counter(id)), stamp },
    ]
}

/// What a new annotation writes.
pub open spec fn noted(
    start: RangeAnchor,
    end: RangeAnchor,
    payload: RangedInitV,
    name: Option<Seq<u8>>,
    stamp: Stamp,
) -> Seq<WriteV> {
    let id = spec_ranged_id(stamp);
    match payload {
        RangedInitV::Scalar(value) => seq![
            WriteV::Note {
                id,
                entry: RangedEntryV {
                    start,
                    end,
                    payload: PayloadV::Scalar { value, stamp },
                    name,
                    tombstone: false,
                },
            },
        ],
        RangedInitV::Composite(kind) => {
            let pid = spec_payload_id(id, kind);
            let note = WriteV::Note {
                id,
                entry: RangedEntryV {
                    start,
                    end,
                    payload: PayloadV::Composite { kind },
                    name,
                    tombstone: false,
                },
            };
            match TreeV::payload_container(kind) {
                Some(c) => born(pid, c) + seq![WriteV::Link { child: pid, parent: id }, note],
                None => seq![note],
            }
        },
    }
}

/// What a movable child is.
pub open spec fn child_container(tag: Option<Seq<u8>>) -> ContainerV {
    match tag {
        Some(t) => ContainerV::XmlElement(t),
        None => ContainerV::Text,
    }
}

/// What inserting a movable child writes, under the node that owns the sequence.
pub open spec fn bearing(
    list: ElementId,
    tag: Option<Seq<u8>>,
    anchor: Anchor,
    stamp: Stamp,
    owner: Option<ElementId>,
) -> Seq<WriteV> {
    let c = child_container(tag);
    let child = spec_xml_child_id(list, stamp, c.kind());
    let at = Placement { list, stamp };
    born(child, c) + seq![
        WriteV::Home { child, parent: list },
        WriteV::Hold { at, node: child },
        WriteV::ListPut { list, id: stamp, value: c.handle(child), anchor },
        WriteV::Place { node: child, at },
        WriteV::Placed { node: child },
    ] + match owner {
        Some(o) => seq![WriteV::Base { child, parent: o }],
        None => Seq::empty(),
    }
}

/// What an op writes beside its reservation, where it settles no placement. `owner` is
/// what its target hangs off.
pub open spec fn body(
    target: ElementId,
    kind: OpKindV,
    stamp: Stamp,
    author: ClientId,
    owner: Option<ElementId>,
) -> Seq<WriteV> {
    match kind {
        OpKindV::RegisterSet { key, value } => seq![
            WriteV::Slot {
                map: target,
                key,
                value: Some(
                    ElementV::Register(
                        RegisterV {
                            id: derived_id(target, key, ElementKind::Register),
                            value,
                            stamp,
                        },
                    ),
                ),
                stamp,
            },
        ],
        OpKindV::CounterInc { key, amount } => counting(target, key, author, amount, true, stamp),
        OpKindV::CounterDec { key, amount } => counting(target, key, author, amount, false, stamp),
        OpKindV::MapSet { key, value } => seq![
            WriteV::Slot { map: target, key, value: Some(ElementV::Scalar(value)), stamp },
        ],
        OpKindV::MapDelete { key } => seq![WriteV::Slot { map: target, key, value: None, stamp }],
        OpKindV::MapCreate { key } => created(target, key, stamp, ContainerV::LwwMap),
        OpKindV::ListCreate { key } => created(target, key, stamp, ContainerV::List),
        OpKindV::TextCreate { key } => created(target, key, stamp, ContainerV::Text),
        OpKindV::XmlElementCreate { key, tag } => created(
            target,
            key,
            stamp,
            ContainerV::XmlElement(tag),
        ),
        OpKindV::XmlFragmentCreate { key } => created(target, key, stamp, ContainerV::XmlFragment),
        OpKindV::ListInsert { value, anchor } => seq![
            WriteV::ListPut { list: target, id: stamp, value: ElementV::Scalar(value), anchor },
        ],
        OpKindV::ListDelete { id } => seq![WriteV::ListDrop { list: target, id }],
        OpKindV::TextInsert { s, anchor } => run_puts(target, stamp, s, anchor),
        OpKindV::TextDelete { ids } => run_drops(target, ids),
        OpKindV::RangedCreate { start, end, payload, name } => noted(
            start,
            end,
            payload,
            name,
            stamp,
        ),
        OpKindV::RangedSetPayload { id, payload } => seq![
            WriteV::NoteSet { id, value: payload, stamp },
        ],
        OpKindV::RangedDelete { id } => seq![WriteV::NoteDrop { id }],
        OpKindV::AclGrant { subject, grant, effect, path, grantor } => seq![
            WriteV::Grant {
                id: spec_acl_id(stamp),
                entry: AclEntryV { subject, grant, effect, path, grantor, revokers: Set::empty() },
            },
        ],
        OpKindV::AclRevoke { id } => seq![WriteV::Revoke { id, author }],
        OpKindV::XmlInsertChild { tag, anchor } => bearing(target, tag, anchor, stamp, owner),
        OpKindV::XmlReveal { node, tag } => born(node, child_container(tag)) + seq![
            WriteV::Await { node },
        ],
        OpKindV::XmlMove { .. } => Seq::empty(),
    }
}

/// The items of a run of codepoints.
pub open spec fn run_puts(text: ElementId, stamp: Stamp, s: Seq<char>, anchor: Anchor) -> Seq<
    WriteV,
> {
    Seq::new(
        s.len(),
        |i: int|
            WriteV::TextPut {
                text,
                id: stamp.spec_run_member(i as u64),
                value: char_item(s[i]),
                anchor: run_anchor(stamp, anchor, i),
            },
    )
}

pub open spec fn run_drops(text: ElementId, ids: Seq<Stamp>) -> Seq<WriteV> {
    ids.map_values(|id: Stamp| WriteV::TextDrop { text, id })
}

/// Everything an op writes, where its target hangs off `owner`.
pub open spec fn effect(op: OpV, owner: Option<ElementId>) -> Seq<WriteV> {
    seq![WriteV::Raise { stamp: op.stamp, span: spec_span(op.kind) }] + body(
        op.target,
        op.kind,
        op.stamp,
        op.id.client,
        owner,
    )
}

/// Whether a register in a slot is the slot's own, set by the write the slot stands at.
pub open spec fn register_own(map: ElementId, key: Seq<u8>, s: Option<SlotV>) -> bool {
    s matches Some(x) ==> (x.value matches Some(ElementV::Register(r)) ==> r.stamp == x.stamp
        && r.id == derived_id(map, key, ElementKind::Register))
}

impl TreeV {
    /// Whether an op lands in this state and settles no placement of a movable node: what
    /// it goes into is here, and what it makes is not.
    pub open spec fn takes(self, op: OpV) -> bool {
        match op.kind {
            OpKindV::RegisterSet { key, .. } => self.maps.dom().contains(op.target)
                && self.maps[op.target].id == op.target && register_own(
                op.target,
                key,
                self.slot(op.target, key),
            ),
            OpKindV::CounterInc { .. } => self.maps.dom().contains(op.target),
            OpKindV::CounterDec { .. } => self.maps.dom().contains(op.target),
            OpKindV::MapSet { .. } => self.maps.dom().contains(op.target),
            OpKindV::MapDelete { .. } => self.maps.dom().contains(op.target),
            OpKindV::MapCreate { .. } => self.maps.dom().contains(op.target),
            OpKindV::ListCreate { .. } => self.maps.dom().contains(op.target),
            OpKindV::TextCreate { .. } => self.maps.dom().contains(op.target),
            OpKindV::XmlElementCreate { .. } => self.maps.dom().contains(op.target),
            OpKindV::XmlFragmentCreate { .. } => self.maps.dom().contains(op.target),
            OpKindV::ListInsert { .. } => self.lists.dom().contains(op.target),
            OpKindV::ListDelete { id } => self.lists.dom().contains(op.target)
                && !self.placement_index.dom().contains(Placement { list: op.target, stamp: id }),
            OpKindV::TextInsert { .. } => self.texts.dom().contains(op.target),
            OpKindV::TextDelete { .. } => self.texts.dom().contains(op.target),
            OpKindV::RangedCreate { .. } => !self.ranged.dom().contains(spec_ranged_id(op.stamp)),
            OpKindV::RangedSetPayload { id, .. } => self.ranged.dom().contains(id),
            OpKindV::RangedDelete { id } => self.ranged.dom().contains(id),
            OpKindV::AclGrant { .. } => true,
            OpKindV::AclRevoke { id } => self.acl.dom().contains(id),
            OpKindV::XmlInsertChild { tag, .. } => {
                let child = spec_xml_child_id(op.target, op.stamp, child_container(tag).kind());
                &&& self.lists.dom().contains(op.target)
                &&& !self.placement_index.dom().contains(
                    Placement { list: op.target, stamp: op.stamp },
                )
                &&& op.target != child
                &&& op.target != node_attrs_id(child)
                &&& op.target != node_children_id(child)
            },
            OpKindV::XmlReveal { node, .. } => self.node_handle(node) is None,
            OpKindV::XmlMove { .. } => false,
        }
    }

    /// What an op's target hangs off.
    pub open spec fn owner_of(self, op: OpV) -> Option<ElementId> {
        link_of(self.parents, op.target)
    }
}

/// Whether a write says what an id hangs off.
pub open spec fn relinks(w: WriteV, id: ElementId) -> bool {
    match w {
        WriteV::Link { child, .. } => child == id,
        WriteV::Home { child, .. } => child == id,
        _ => false,
    }
}

/// Whether a write makes a movable node of an id.
pub open spec fn bears(w: WriteV, id: ElementId) -> bool {
    match w {
        WriteV::NewElement { id: x, .. } => x == id,
        WriteV::NewText { id: x } => x == id,
        _ => false,
    }
}

/// Whether some writes leave alone what an op reads: what a new child's sequence hangs
/// off, and whether a node to reveal is here.
pub open spec fn leave_alone(ws: Seq<WriteV>, op: OpV) -> bool {
    match op.kind {
        OpKindV::XmlInsertChild { .. } => forall|i: int|
            0 <= i < ws.len() ==> !relinks(#[trigger] ws[i], op.target),
        OpKindV::XmlReveal { node, .. } => forall|i: int|
            0 <= i < ws.len() ==> !bears(#[trigger] ws[i], node),
        _ => true,
    }
}

/// Whether what two runs of writes write stands apart.
pub open spec fn all_apart(vs: Seq<WriteV>, ws: Seq<WriteV>) -> bool {
    forall|i: int, j: int|
        0 <= i < vs.len() && 0 <= j < ws.len() ==> apart(#[trigger] vs[i], #[trigger] ws[j])
}

impl TreeV {
    /// Whether two ops stand apart: what they write does, and neither writes what the
    /// other reads.
    pub open spec fn apart(self, a: OpV, b: OpV) -> bool {
        let x = effect(a, self.owner_of(a));
        let y = effect(b, self.owner_of(b));
        all_apart(x, y) && leave_alone(x, b) && leave_alone(y, a)
    }
}

// --- an op is what it writes ---

pub(crate) proof fn lemma_writes_concat(t: TreeV, a: Seq<WriteV>, b: Seq<WriteV>)
    ensures
        t.writes(a + b) == t.writes(a).writes(b),
    decreases b.len(),
{
    if b.len() == 0 {
        assert(a + b =~= a);
    } else {
        assert((a + b).drop_last() =~= a + b.drop_last());
        lemma_writes_concat(t, a, b.drop_last());
    }
}

pub(crate) proof fn lemma_writes_one(t: TreeV, w: WriteV)
    ensures
        t.writes(seq![w]) == t.write(w),
{
    assert(seq![w].drop_last() =~= Seq::empty());
    assert(t.writes(Seq::empty()) == t);
}

proof fn lemma_writes_push(t: TreeV, ws: Seq<WriteV>, w: WriteV)
    ensures
        t.writes(ws.push(w)) == t.writes(ws).write(w),
{
    assert(ws.push(w).drop_last() =~= ws);
}

pub(crate) proof fn lemma_writes_two(t: TreeV, v: WriteV, w: WriteV)
    ensures
        t.writes(seq![v, w]) == t.write(v).write(w),
{
    lemma_writes_one(t, v);
    assert(seq![v, w] =~= seq![v].push(w));
    lemma_writes_push(t, seq![v], w);
}

/// Marking something displaced does not show.
proof fn lemma_plain_displaced(t: TreeV, e: ElementV, to: bool)
    ensures
        t.with_displaced(e, to).plain() == t.plain(),
{
    reveal(TreeV::with_displaced);
    let u = t.with_displaced(e, to);
    assert(u.plain().maps =~= t.plain().maps);
    assert(u.plain().lists =~= t.plain().lists);
    assert(u.plain().texts =~= t.plain().texts);
    assert(u.plain().counters =~= t.plain().counters);
    assert(u.plain().xml_elements =~= t.plain().xml_elements);
    assert(u.plain().xml_fragments =~= t.plain().xml_fragments);
}

proof fn lemma_plain_evicted(t: TreeV, prior: Option<ElementV>, out: Option<ElementV>)
    ensures
        t.with_evicted(out).plain() == t.plain(),
        t.with_orphan(prior, out).plain() == t.plain(),
{
    reveal(TreeV::with_evicted);
    reveal(TreeV::with_orphan);
    if let Some(e) = out {
        lemma_plain_displaced(t, e, true);
    }
}

/// A slot replaced, without what displacement says.
proof fn lemma_plain_slot(
    t: TreeV,
    map: ElementId,
    key: Seq<u8>,
    value: Option<ElementV>,
    stamp: Stamp,
)
    requires
        t.maps.dom().contains(map),
    ensures
        t.with_slot(map, key, slot_written(t.slot(map, key), value, stamp)).plain()
            == t.plain().write(WriteV::Slot { map, key, value, stamp }),
{
    let u = t.with_slot(map, key, slot_written(t.slot(map, key), value, stamp));
    assert(u.plain().maps =~= maps_after(
        t.plain().maps,
        WriteV::Slot { map, key, value, stamp },
    ));
}

proof fn lemma_plain_register(
    t: TreeV,
    map: ElementId,
    key: Seq<u8>,
    v: ScalarV,
    stamp: Stamp,
)
    requires
        t.maps.dom().contains(map),
        t.maps[map].id == map,
        register_own(map, key, t.slot(map, key)),
    ensures
        t.register_set(map, key, v, stamp).plain() == t.plain().write(
            WriteV::Slot {
                map,
                key,
                value: Some(
                    ElementV::Register(
                        RegisterV {
                            id: derived_id(map, key, ElementKind::Register),
                            value: v,
                            stamp,
                        },
                    ),
                ),
                stamp,
            },
        ),
{
    reveal(TreeV::register_set);
    let s = t.slot(map, key);
    let id = derived_id(map, key, ElementKind::Register);
    let out = register_evicts(s, stamp);
    let slot = slot_set_register(s, id, v, stamp);
    let e = ElementV::Register(RegisterV { id, value: v, stamp });
    assert(slot == slot_set(s, e, stamp));
    lemma_plain_slot(t, map, key, Some(e), stamp);
    let u = t.with_slot(map, key, slot);
    lemma_plain_evicted(u, None, out);
    lemma_plain_evicted(u.with_evicted(out), live_value(s), out);
}

proof fn lemma_plain_set(t: TreeV, map: ElementId, key: Seq<u8>, v: ScalarV, stamp: Stamp)
    requires
        t.maps.dom().contains(map),
    ensures
        t.map_set(map, key, v, stamp).plain() == t.plain().write(
            WriteV::Slot { map, key, value: Some(ElementV::Scalar(v)), stamp },
        ),
        t.map_delete(map, key, stamp).plain() == t.plain().write(
            WriteV::Slot { map, key, value: None, stamp },
        ),
{
    reveal(TreeV::map_set);
    reveal(TreeV::map_delete);
    let s = t.slot(map, key);
    let e = ElementV::Scalar(v);
    let out = set_evicts(s, e, stamp);
    lemma_plain_slot(t, map, key, Some(e), stamp);
    let u = t.with_slot(map, key, slot_set(s, e, stamp));
    lemma_plain_evicted(u, None, out);
    lemma_plain_evicted(u.with_evicted(out), live_value(s), out);
    let out = if slot_wins(s, stamp) {
        live_value(s)
    } else {
        None
    };
    lemma_plain_slot(t, map, key, None, stamp);
    let u = t.with_slot(map, key, slot_delete(s, stamp));
    lemma_plain_evicted(u, None, out);
    lemma_plain_evicted(u.with_evicted(out), live_value(s), out);
}

proof fn lemma_plain_install(t: TreeV, map: ElementId, key: Seq<u8>, e: ElementV, stamp: Stamp)
    requires
        t.maps.dom().contains(map),
    ensures
        t.install_handle(map, key, e, stamp).plain() == t.plain().write(
            WriteV::Slot { map, key, value: Some(e), stamp },
        ),
{
    reveal(TreeV::install_handle);
    let s = t.slot(map, key);
    let slot = slot_set(s, e, stamp);
    let out = set_evicts(s, e, stamp);
    let won = slot.value matches Some(v) && v.same_handle(e);
    lemma_plain_slot(t, map, key, Some(e), stamp);
    let u = t.with_slot(map, key, slot);
    lemma_plain_evicted(u, None, out);
    let u2 = u.with_evicted(out);
    lemma_plain_evicted(u2, live_value(s), out);
    lemma_plain_displaced(u2.with_orphan(live_value(s), out), e, !won);
}

proof fn lemma_plain_registered(t: TreeV, id: ElementId, c: ContainerV)
    ensures
        t.with_registered(id, c).plain() == t.plain().writes(born(id, c)),
        t.maps.dom().subset_of(t.with_registered(id, c).maps.dom()),
{
    reveal(TreeV::with_registered);
    let p = t.plain();
    let u = t.with_registered(id, c).plain();
    match c {
        ContainerV::LwwMap => {
            lemma_writes_one(p, WriteV::NewMap { id });
            assert(u.maps =~= p.write(WriteV::NewMap { id }).maps);
        },
        ContainerV::List => {
            lemma_writes_one(p, WriteV::NewList { id });
            assert(u.lists =~= p.write(WriteV::NewList { id }).lists);
        },
        ContainerV::Text => {
            lemma_writes_one(p, WriteV::NewText { id });
            assert(u.texts =~= p.write(WriteV::NewText { id }).texts);
        },
        ContainerV::XmlElement(tag) => {
            let a = WriteV::NewElement { id, tag };
            let b = WriteV::NewMap { id: node_attrs_id(id) };
            let c = WriteV::NewList { id: node_children_id(id) };
            let d = WriteV::Link { child: node_attrs_id(id), parent: id };
            let e = WriteV::Link { child: node_children_id(id), parent: id };
            lemma_writes_two(p, a, b);
            assert(seq![a, b, c] =~= seq![a, b].push(c));
            lemma_writes_push(p, seq![a, b], c);
            assert(seq![a, b, c, d] =~= seq![a, b, c].push(d));
            lemma_writes_push(p, seq![a, b, c], d);
            assert(seq![a, b, c, d, e] =~= seq![a, b, c, d].push(e));
            lemma_writes_push(p, seq![a, b, c, d], e);
            let v = p.write(a).write(b).write(c).write(d).write(e);
            assert(u.maps =~= v.maps);
            assert(u.lists =~= v.lists);
            assert(u.xml_elements =~= v.xml_elements);
        },
        ContainerV::XmlFragment => {
            let a = WriteV::NewFragment { id };
            let b = WriteV::NewList { id: node_children_id(id) };
            let c = WriteV::Link { child: node_children_id(id), parent: id };
            lemma_writes_two(p, a, b);
            assert(seq![a, b, c] =~= seq![a, b].push(c));
            lemma_writes_push(p, seq![a, b], c);
            let v = p.write(a).write(b).write(c);
            assert(u.lists =~= v.lists);
            assert(u.xml_fragments =~= v.xml_fragments);
        },
    }
}

proof fn lemma_plain_link(t: TreeV, child: ElementId, parent: ElementId)
    ensures
        t.with_link(child, parent).plain() == t.plain().write(WriteV::Link { child, parent }),
{
}

proof fn lemma_plain_create(
    t: TreeV,
    map: ElementId,
    key: Seq<u8>,
    stamp: Stamp,
    c: ContainerV,
)
    requires
        t.maps.dom().contains(map),
    ensures
        t.create_container(map, key, stamp, c).plain() == t.plain().writes(
            created(map, key, stamp, c),
        ),
{
    reveal(TreeV::create_container);
    let child = c.child_id(map, key);
    let e = c.handle(child);
    lemma_plain_registered(t, child, c);
    let u = t.with_registered(child, c);
    lemma_plain_install(u, map, key, e, stamp);
    let v = u.install_handle(map, key, e, stamp);
    lemma_plain_link(v, child, map);
    let slot = WriteV::Slot { map, key, value: Some(e), stamp };
    let link = WriteV::Link { child, parent: map };
    lemma_writes_concat(t.plain(), born(child, c), seq![slot, link]);
    lemma_writes_two(t.plain().writes(born(child, c)), slot, link);
}

proof fn lemma_plain_count(
    t: TreeV,
    map: ElementId,
    key: Seq<u8>,
    author: ClientId,
    amount: u32,
    up: bool,
    stamp: Stamp,
)
    requires
        t.maps.dom().contains(map),
    ensures
        t.count(map, key, author, amount, up, stamp).plain() == t.plain().writes(
            counting(map, key, author, amount, up, stamp),
        ),
{
    reveal(TreeV::count);
    let id = derived_id(map, key, ElementKind::Counter);
    let tally = WriteV::Tally { id, author, amount, up };
    let slot = WriteV::Slot { map, key, value: Some(ElementV::Counter(id)), stamp };
    let u = TreeV { counters: counted(t.counters, id, author, amount, up), ..t };
    assert(u.plain().counters =~= counted(t.plain().counters, id, author, amount, up));
    assert(u.plain() == t.plain().write(tally));
    lemma_plain_install(u, map, key, ElementV::Counter(id), stamp);
    lemma_writes_two(t.plain(), tally, slot);
}

proof fn lemma_plain_noted(
    t: TreeV,
    start: RangeAnchor,
    end: RangeAnchor,
    payload: RangedInitV,
    name: Option<Seq<u8>>,
    stamp: Stamp,
)
    requires
        !t.ranged.dom().contains(spec_ranged_id(stamp)),
    ensures
        t.ranged_create(start, end, payload, name, stamp).plain() == t.plain().writes(
            noted(start, end, payload, name, stamp),
        ),
{
    reveal(TreeV::ranged_create);
    reveal(TreeV::with_payload);
    reveal(TreeV::with_registered);
    let id = spec_ranged_id(stamp);
    let p = t.plain();
    match payload {
        RangedInitV::Scalar(value) => {
            lemma_writes_one(p, noted(start, end, payload, name, stamp)[0]);
        },
        RangedInitV::Composite(kind) => {
            let entry = RangedEntryV {
                start,
                end,
                payload: PayloadV::Composite { kind },
                name,
                tombstone: false,
            };
            let note = WriteV::Note { id, entry };
            let pid = spec_payload_id(id, kind);
            match TreeV::payload_container(kind) {
                Some(c) => {
                    lemma_plain_registered(t, pid, c);
                    let u = t.with_registered(pid, c);
                    lemma_plain_link(u, pid, id);
                    let link = WriteV::Link { child: pid, parent: id };
                    lemma_writes_concat(p, born(pid, c), seq![link, note]);
                    lemma_writes_two(p.writes(born(pid, c)), link, note);
                    assert(u.ranged == t.ranged);
                },
                None => {
                    lemma_writes_one(p, note);
                },
            }
        },
    }
}

proof fn lemma_plain_puts(
    t: TreeV,
    text: ElementId,
    stamp: Stamp,
    s: Seq<char>,
    anchor: Anchor,
    n: nat,
)
    requires
        t.texts.dom().contains(text),
        n <= s.len(),
    ensures
        (TreeV {
            texts: t.texts.insert(text, insert_upto(t.texts[text], stamp, s, anchor, n)),
            ..t
        }).plain() == t.plain().writes(run_puts(text, stamp, s, anchor).take(n as int)),
    decreases n,
{
    let ws = run_puts(text, stamp, s, anchor);
    let u = TreeV {
        texts: t.texts.insert(text, insert_upto(t.texts[text], stamp, s, anchor, n)),
        ..t
    };
    if n == 0 {
        assert(ws.take(0) =~= Seq::empty());
        assert(u.texts =~= t.texts);
    } else {
        let m = (n - 1) as nat;
        lemma_plain_puts(t, text, stamp, s, anchor, m);
        assert(ws.take(n as int) =~= ws.take(m as int).push(ws[m as int]));
        lemma_writes_push(t.plain(), ws.take(m as int), ws[m as int]);
        let v = TreeV {
            texts: t.texts.insert(text, insert_upto(t.texts[text], stamp, s, anchor, m)),
            ..t
        };
        assert(u.plain().texts =~= texts_after(v.plain().texts, ws[m as int]));
    }
}

proof fn lemma_plain_drops(t: TreeV, text: ElementId, ids: Seq<Stamp>)
    requires
        t.texts.dom().contains(text),
    ensures
        (TreeV { texts: t.texts.insert(text, text_delete(t.texts[text], ids)), ..t }).plain()
            == t.plain().writes(run_drops(text, ids)),
    decreases ids.len(),
{
    let ws = run_drops(text, ids);
    let u = TreeV { texts: t.texts.insert(text, text_delete(t.texts[text], ids)), ..t };
    if ids.len() == 0 {
        assert(ws =~= Seq::empty());
        assert(u.texts =~= t.texts);
    } else {
        let h = ids.drop_last();
        lemma_plain_drops(t, text, h);
        assert(ws =~= run_drops(text, h).push(WriteV::TextDrop { text, id: ids.last() }));
        lemma_writes_push(t.plain(), run_drops(text, h), WriteV::TextDrop { text, id: ids.last() });
        let v = TreeV { texts: t.texts.insert(text, text_delete(t.texts[text], h)), ..t };
        assert(u.plain().texts =~= texts_after(
            v.plain().texts,
            WriteV::TextDrop { text, id: ids.last() },
        ));
    }
}

/// A movable child inserted where no node holds the place.
proof fn lemma_plain_bearing(
    t: TreeV,
    list: ElementId,
    tag: Option<Seq<u8>>,
    anchor: Anchor,
    stamp: Stamp,
)
    requires
        t.lists.dom().contains(list),
        !t.placement_index.dom().contains(Placement { list, stamp }),
        ({
            let child = spec_xml_child_id(list, stamp, child_container(tag).kind());
            list != child && list != node_attrs_id(child) && list != node_children_id(child)
        }),
    ensures
        t.insert_child(list, tag, anchor, stamp).plain() == t.plain().writes(
            bearing(list, tag, anchor, stamp, link_of(t.parents, list)),
        ),
{
    reveal(TreeV::insert_child);
    reveal(TreeV::with_born);
    reveal(TreeV::with_claim);
    reveal(TreeV::with_seat);
    reveal(TreeV::with_birth_placed);
    reveal(TreeV::with_owner);
    let c = child_container(tag);
    let child = spec_xml_child_id(list, stamp, c.kind());
    let at = Placement { list, stamp };
    let p = t.plain();
    lemma_plain_registered(t, child, c);
    lemma_registered_apart(t, child, c, list);
    let home = WriteV::Home { child, parent: list };
    let hold = WriteV::Hold { at, node: child };
    let put = WriteV::ListPut { list, id: stamp, value: c.handle(child), anchor };
    let place = WriteV::Place { node: child, at };
    let placed = WriteV::Placed { node: child };
    let t1 = t.with_born(list, child, c);
    let q1 = p.writes(born(child, c)).write(home);
    assert(t1.plain() == q1);
    assert(t1.claim_of(at, child) == Claim::Fresh);
    let t2 = t1.with_claim(at, child);
    assert(t2.plain() == q1.write(hold));
    let t3 = t2.with_seat(Claim::Fresh, at, c.handle(child), anchor);
    assert(t3.plain().lists =~= q1.write(hold).write(put).lists);
    assert(t3.plain() == q1.write(hold).write(put));
    let t4 = t3.with_birth_placed(Claim::Fresh, at, child);
    assert(t4.plain() == q1.write(hold).write(put).write(place).write(placed));
    let ws = seq![home, hold, put, place, placed];
    let b = p.writes(born(child, c));
    lemma_writes_two(b, home, hold);
    assert(seq![home, hold, put] =~= seq![home, hold].push(put));
    lemma_writes_push(b, seq![home, hold], put);
    assert(seq![home, hold, put, place] =~= seq![home, hold, put].push(place));
    lemma_writes_push(b, seq![home, hold, put], place);
    assert(ws =~= seq![home, hold, put, place].push(placed));
    lemma_writes_push(b, seq![home, hold, put, place], placed);
    lemma_writes_concat(p, born(child, c), ws);
    assert(t4.plain() == p.writes(born(child, c) + ws));
    assert(link_of(t4.parents, list) == link_of(t.parents, list));
    match link_of(t.parents, list) {
        Some(o) => {
            let base = WriteV::Base { child, parent: o };
            lemma_writes_concat(p, born(child, c) + ws, seq![base]);
            lemma_writes_one(t4.plain(), base);
        },
        None => {
            assert(born(child, c) + ws + Seq::empty() =~= born(child, c) + ws);
        },
    }
}

/// Registering a container touches nothing of the placements, and links only its parts.
proof fn lemma_registered_apart(t: TreeV, id: ElementId, c: ContainerV, x: ElementId)
    requires
        x != node_attrs_id(id),
        x != node_children_id(id),
    ensures
        t.with_registered(id, c).placement_index == t.placement_index,
        link_of(t.with_registered(id, c).parents, x) == link_of(t.parents, x),
        t.lists.dom().subset_of(t.with_registered(id, c).lists.dom()),
{
    reveal(TreeV::with_registered);
}

/// A node revealed that is not here.
proof fn lemma_plain_revealed(t: TreeV, node: ElementId, tag: Option<Seq<u8>>)
    requires
        t.node_handle(node) is None,
    ensures
        t.reveal_node(node, tag).plain() == t.plain().writes(
            born(node, child_container(tag)) + seq![WriteV::Await { node }],
        ),
{
    reveal(TreeV::reveal_node);
    let c = child_container(tag);
    lemma_plain_registered(t, node, c);
    let await_it = WriteV::Await { node };
    lemma_writes_concat(t.plain(), born(node, c), seq![await_it]);
    lemma_writes_one(t.plain().writes(born(node, c)), await_it);
}

/// An op that settles no placement does what it writes.
pub(crate) proof fn lemma_effect(t: TreeV, op: OpV)
    requires
        t.takes(op),
    ensures
        t.apply_kind(op.target, op.kind, op.stamp, op.id.client).plain() == t.plain().writes(
            effect(op, t.owner_of(op)),
        ),
{
    let raise = WriteV::Raise { stamp: op.stamp, span: spec_span(op.kind) };
    let ws = body(op.target, op.kind, op.stamp, op.id.client, t.owner_of(op));
    lemma_writes_concat(t.plain(), seq![raise], ws);
    lemma_writes_one(t.plain(), raise);
    lemma_record(t, op.stamp, spec_span(op.kind));
    let u = t.record(op.stamp, spec_span(op.kind));
    let p = u.plain();
    assert(p == t.plain().write(raise));
    lemma_body(u, op);
}

/// The same, once the op's reservation is recorded.
proof fn lemma_body(u: TreeV, op: OpV)
    requires
        u.takes(op),
    ensures
        folded(u, op).plain() == u.plain().writes(
            body(op.target, op.kind, op.stamp, op.id.client, u.owner_of(op)),
        ),
{
    let p = u.plain();
    let ws = body(op.target, op.kind, op.stamp, op.id.client, u.owner_of(op));
    match op.kind {
        OpKindV::RegisterSet { key, value } => {
            lemma_plain_register(u, op.target, key, value, op.stamp);
            lemma_writes_one(p, ws[0]);
        },
        OpKindV::CounterInc { key, amount } => lemma_plain_count(
            u,
            op.target,
            key,
            op.id.client,
            amount,
            true,
            op.stamp,
        ),
        OpKindV::CounterDec { key, amount } => lemma_plain_count(
            u,
            op.target,
            key,
            op.id.client,
            amount,
            false,
            op.stamp,
        ),
        OpKindV::MapSet { key, value } => {
            lemma_plain_set(u, op.target, key, value, op.stamp);
            lemma_writes_one(p, ws[0]);
        },
        OpKindV::MapDelete { key } => {
            lemma_plain_set(u, op.target, key, arbitrary(), op.stamp);
            lemma_writes_one(p, ws[0]);
        },
        OpKindV::MapCreate { key } => lemma_plain_create(
            u,
            op.target,
            key,
            op.stamp,
            ContainerV::LwwMap,
        ),
        OpKindV::ListCreate { key } => lemma_plain_create(
            u,
            op.target,
            key,
            op.stamp,
            ContainerV::List,
        ),
        OpKindV::TextCreate { key } => lemma_plain_create(
            u,
            op.target,
            key,
            op.stamp,
            ContainerV::Text,
        ),
        OpKindV::XmlElementCreate { key, tag } => lemma_plain_create(
            u,
            op.target,
            key,
            op.stamp,
            ContainerV::XmlElement(tag),
        ),
        OpKindV::XmlFragmentCreate { key } => lemma_plain_create(
            u,
            op.target,
            key,
            op.stamp,
            ContainerV::XmlFragment,
        ),
        OpKindV::ListInsert { value, anchor } => {
            reveal(TreeV::list_insert);
            lemma_writes_one(p, ws[0]);
            assert(folded(u, op).plain().lists =~= p.write(ws[0]).lists);
        },
        OpKindV::ListDelete { id } => {
            reveal(TreeV::list_delete);
            lemma_writes_one(p, ws[0]);
            assert(folded(u, op).plain().lists =~= p.write(ws[0]).lists);
        },
        OpKindV::TextInsert { s, anchor } => {
            lemma_plain_puts(u, op.target, op.stamp, s, anchor, s.len());
            assert(ws.take(s.len() as int) =~= ws);
        },
        OpKindV::TextDelete { ids } => lemma_plain_drops(u, op.target, ids),
        OpKindV::RangedCreate { start, end, payload, name } => lemma_plain_noted(
            u,
            start,
            end,
            payload,
            name,
            op.stamp,
        ),
        OpKindV::RangedSetPayload { id, payload } => {
            reveal(TreeV::ranged_set);
            lemma_writes_one(p, ws[0]);
            assert(folded(u, op).plain().ranged =~= p.write(ws[0]).ranged);
        },
        OpKindV::RangedDelete { id } => {
            reveal(TreeV::ranged_delete);
            lemma_writes_one(p, ws[0]);
        },
        OpKindV::AclGrant { .. } => {
            reveal(TreeV::acl_grant);
            lemma_writes_one(p, ws[0]);
        },
        OpKindV::AclRevoke { id } => {
            reveal(TreeV::acl_revoke);
            lemma_writes_one(p, ws[0]);
        },
        OpKindV::XmlInsertChild { tag, anchor } => lemma_plain_bearing(
            u,
            op.target,
            tag,
            anchor,
            op.stamp,
        ),
        OpKindV::XmlReveal { node, tag } => lemma_plain_revealed(u, node, tag),
        OpKindV::XmlMove { .. } => {},
    }
}

/// What an op does past recording its reservation.
spec fn folded(u: TreeV, op: OpV) -> TreeV {
    let target = op.target;
    let stamp = op.stamp;
    let author = op.id.client;
    match op.kind {
        OpKindV::RegisterSet { key, value } => u.register_set(target, key, value, stamp),
        OpKindV::CounterInc { key, amount } => u.count(target, key, author, amount, true, stamp),
        OpKindV::CounterDec { key, amount } => u.count(target, key, author, amount, false, stamp),
        OpKindV::MapSet { key, value } => u.map_set(target, key, value, stamp),
        OpKindV::MapDelete { key } => u.map_delete(target, key, stamp),
        OpKindV::MapCreate { key } => u.create_container(target, key, stamp, ContainerV::LwwMap),
        OpKindV::ListCreate { key } => u.create_container(target, key, stamp, ContainerV::List),
        OpKindV::TextCreate { key } => u.create_container(target, key, stamp, ContainerV::Text),
        OpKindV::XmlElementCreate { key, tag } => u.create_container(
            target,
            key,
            stamp,
            ContainerV::XmlElement(tag),
        ),
        OpKindV::XmlFragmentCreate { key } => u.create_container(
            target,
            key,
            stamp,
            ContainerV::XmlFragment,
        ),
        OpKindV::ListInsert { value, anchor } => u.list_insert(
            target,
            stamp,
            ElementV::Scalar(value),
            anchor,
        ),
        OpKindV::ListDelete { id } => u.list_delete(target, id),
        OpKindV::TextInsert { s, anchor } => TreeV {
            texts: u.texts.insert(
                target,
                insert_upto(u.texts[target], stamp, s, anchor, s.len()),
            ),
            ..u
        },
        OpKindV::TextDelete { ids } => TreeV {
            texts: u.texts.insert(target, text_delete(u.texts[target], ids)),
            ..u
        },
        OpKindV::RangedCreate { start, end, payload, name } => u.ranged_create(
            start,
            end,
            payload,
            name,
            stamp,
        ),
        OpKindV::RangedSetPayload { id, payload } => u.ranged_set(id, payload, stamp),
        OpKindV::RangedDelete { id } => u.ranged_delete(id),
        OpKindV::AclGrant { subject, grant, effect, path, grantor } => u.acl_grant(
            spec_acl_id(stamp),
            AclEntryV { subject, grant, effect, path, grantor, revokers: Set::empty() },
        ),
        OpKindV::AclRevoke { id } => u.acl_revoke(id, author),
        OpKindV::XmlInsertChild { tag, anchor } => u.insert_child(target, tag, anchor, stamp),
        OpKindV::XmlReveal { node, tag } => u.reveal_node(node, tag),
        OpKindV::XmlMove { .. } => u,
    }
}

// --- an op still lands after another ---

/// Whether a register written to a slot is the slot's own.
pub open spec fn regular(w: WriteV) -> bool {
    w matches WriteV::Slot { map, key, value: Some(ElementV::Register(r)), stamp } ==> r.stamp
        == stamp && r.id == derived_id(map, key, ElementKind::Register)
}

proof fn lemma_born_regular(id: ElementId, c: ContainerV, i: int)
    requires
        0 <= i < born(id, c).len(),
    ensures
        !(born(id, c)[i] is Slot),
        regular(born(id, c)[i]),
{
}

pub(crate) proof fn lemma_effect_regular(op: OpV, owner: Option<ElementId>, i: int)
    requires
        0 <= i < effect(op, owner).len(),
    ensures
        regular(effect(op, owner)[i]),
{
    let ws = body(op.target, op.kind, op.stamp, op.id.client, owner);
    if i > 0 {
        let j = i - 1;
        assert(effect(op, owner)[i] == ws[j]);
        match op.kind {
            OpKindV::MapCreate { key } => lemma_created_regular(
                op.target,
                key,
                op.stamp,
                ContainerV::LwwMap,
                j,
            ),
            OpKindV::ListCreate { key } => lemma_created_regular(
                op.target,
                key,
                op.stamp,
                ContainerV::List,
                j,
            ),
            OpKindV::TextCreate { key } => lemma_created_regular(
                op.target,
                key,
                op.stamp,
                ContainerV::Text,
                j,
            ),
            OpKindV::XmlElementCreate { key, tag } => lemma_created_regular(
                op.target,
                key,
                op.stamp,
                ContainerV::XmlElement(tag),
                j,
            ),
            OpKindV::XmlFragmentCreate { key } => lemma_created_regular(
                op.target,
                key,
                op.stamp,
                ContainerV::XmlFragment,
                j,
            ),
            OpKindV::RangedCreate { payload, .. } => {
                if let RangedInitV::Composite(kind) = payload {
                    let id = spec_payload_id(spec_ranged_id(op.stamp), kind);
                    if let Some(c) = TreeV::payload_container(kind) {
                        if j < born(id, c).len() {
                            lemma_born_regular(id, c, j);
                        }
                    }
                }
            },
            OpKindV::XmlInsertChild { tag, .. } => {
                let c = child_container(tag);
                let child = spec_xml_child_id(op.target, op.stamp, c.kind());
                if j < born(child, c).len() {
                    lemma_born_regular(child, c, j);
                }
            },
            OpKindV::XmlReveal { node, tag } => {
                let c = child_container(tag);
                if j < born(node, c).len() {
                    lemma_born_regular(node, c, j);
                }
            },
            _ => {},
        }
    }
}

proof fn lemma_created_regular(
    map: ElementId,
    key: Seq<u8>,
    stamp: Stamp,
    c: ContainerV,
    i: int,
)
    requires
        0 <= i < created(map, key, stamp, c).len(),
    ensures
        regular(created(map, key, stamp, c)[i]),
{
    let child = c.child_id(map, key);
    if i < born(child, c).len() {
        lemma_born_regular(child, c, i);
    }
}

/// What displacement says has no part in whether an op lands.
pub(crate) proof fn lemma_plain_takes(t: TreeV, op: OpV)
    ensures
        t.plain().takes(op) == t.takes(op),
{
}

/// Writes that stand apart from an op's own, and leave alone what it reads, leave it
/// landing and doing what it did.
proof fn lemma_takes_after(t: TreeV, ws: Seq<WriteV>, op: OpV)
    requires
        t.takes(op),
        leave_alone(ws, op),
        all_apart(ws, effect(op, t.owner_of(op))),
        forall|i: int| 0 <= i < ws.len() ==> regular(#[trigger] ws[i]),
    ensures
        t.writes(ws).takes(op),
        op.kind is XmlInsertChild ==> t.writes(ws).owner_of(op) == t.owner_of(op),
    decreases ws.len(),
{
    if ws.len() > 0 {
        let h = ws.drop_last();
        assert forall|i: int| 0 <= i < h.len() implies #[trigger] h[i] == ws[i] by {}
        assert forall|i: int| 0 <= i < h.len() implies regular(#[trigger] h[i]) by {
            assert(h[i] == ws[i]);
        }
        assert(all_apart(h, effect(op, t.owner_of(op)))) by {
            assert forall|i: int, j: int|
                0 <= i < h.len() && 0 <= j < effect(op, t.owner_of(op)).len() implies apart(
                #[trigger] h[i],
                #[trigger] effect(op, t.owner_of(op))[j],
            ) by {
                assert(h[i] == ws[i]);
            }
        }
        assert(leave_alone(h, op));
        lemma_takes_after(t, h, op);
        let w = ws.last();
        assert(w == ws[ws.len() - 1]);
        assert(regular(w));
        match op.kind {
            OpKindV::RangedCreate { .. } => {
                lemma_note_written(op, t.owner_of(op));
                let j = choose|j: int|
                    0 <= j < effect(op, t.owner_of(op)).len() && (#[trigger] effect(
                        op,
                        t.owner_of(op),
                    )[j]) is Note && effect(op, t.owner_of(op))[j]->Note_id == spec_ranged_id(
                        op.stamp,
                    );
                assert(apart(ws[ws.len() - 1], effect(op, t.owner_of(op))[j]));
            },
            OpKindV::XmlInsertChild { tag, .. } => {
                let c = child_container(tag);
                let child = spec_xml_child_id(op.target, op.stamp, c.kind());
                let n = born(child, c).len() as int;
                let hold = WriteV::Hold {
                    at: Placement { list: op.target, stamp: op.stamp },
                    node: child,
                };
                assert(effect(op, t.owner_of(op))[n + 2] == hold);
                assert(apart(ws[ws.len() - 1], effect(op, t.owner_of(op))[n + 2]));
                assert(!relinks(ws[ws.len() - 1], op.target));
            },
            OpKindV::ListDelete { id } => {
                let drop = WriteV::ListDrop { list: op.target, id };
                assert(effect(op, t.owner_of(op))[1] == drop);
                assert(apart(ws[ws.len() - 1], effect(op, t.owner_of(op))[1]));
            },
            OpKindV::XmlReveal { node, .. } => {
                assert(!bears(ws[ws.len() - 1], node));
            },
            _ => {},
        }
    }
}

/// Every write of an op that lands goes into something that is here.
pub(crate) proof fn lemma_admitted(t: TreeV, op: OpV, owner: Option<ElementId>, i: int)
    requires
        t.takes(op),
        0 <= i < effect(op, owner).len(),
    ensures
        t.admits(effect(op, owner)[i]),
{
    let ws = body(op.target, op.kind, op.stamp, op.id.client, owner);
    if i > 0 {
        let j = i - 1;
        assert(effect(op, owner)[i] == ws[j]);
        match op.kind {
            OpKindV::MapCreate { key } => {
                assert(created(op.target, key, op.stamp, ContainerV::LwwMap)[j] == ws[j]);
            },
            OpKindV::RangedCreate { payload, .. } => {
                if let RangedInitV::Composite(kind) = payload {
                    let id = spec_payload_id(spec_ranged_id(op.stamp), kind);
                    if let Some(c) = TreeV::payload_container(kind) {
                        if j < born(id, c).len() {
                            assert(ws[j] == born(id, c)[j]);
                        }
                    }
                }
            },
            _ => {},
        }
    }
}

/// The op that an annotation comes from writes its note.
pub(crate) proof fn lemma_note_written(op: OpV, owner: Option<ElementId>)
    requires
        op.kind is RangedCreate,
    ensures
        exists|i: int|
            0 <= i < effect(op, owner).len() && (#[trigger] effect(op, owner)[i]) is Note && effect(
                op,
                owner,
            )[i]->Note_id == spec_ranged_id(op.stamp),
{
    let ws = body(op.target, op.kind, op.stamp, op.id.client, owner);
    let n = ws.len() - 1;
    assert(ws.len() > 0);
    assert(effect(op, owner)[n + 1] == ws[n]);
    assert(ws[n] is Note);
}

// --- laws ---

/// Concurrent ops commute: two ops that both land, settle no placement and stand apart
/// leave the same state whichever comes first. What displacement says is left out: it is
/// worked out from the slots.
pub proof fn law_concurrent_ops_commute(t: TreeV, a: OpV, b: OpV)
    requires
        t.takes(a),
        t.takes(b),
        t.apart(a, b),
    ensures
        t.apply_kind(a.target, a.kind, a.stamp, a.id.client).apply_kind(
            b.target,
            b.kind,
            b.stamp,
            b.id.client,
        ).plain() == t.apply_kind(b.target, b.kind, b.stamp, b.id.client).apply_kind(
            a.target,
            a.kind,
            a.stamp,
            a.id.client,
        ).plain(),
{
    let p = t.plain();
    let x = effect(a, t.owner_of(a));
    let y = effect(b, t.owner_of(b));
    assert(all_apart(y, x)) by {
        assert forall|i: int, j: int| 0 <= i < y.len() && 0 <= j < x.len() implies apart(
            #[trigger] y[i],
            #[trigger] x[j],
        ) by {
            lemma_apart_both_ways(x[j], y[i]);
        }
    }
    lemma_in_turn(t, a, b);
    lemma_in_turn(t, b, a);
    lemma_plain_takes(t, a);
    lemma_plain_takes(t, b);
    assert forall|i: int| 0 <= i < x.len() implies p.admits(#[trigger] x[i]) by {
        lemma_admitted(p, a, t.owner_of(a), i);
    }
    assert forall|i: int| 0 <= i < y.len() implies p.admits(#[trigger] y[i]) by {
        lemma_admitted(p, b, t.owner_of(b), i);
    }
    lemma_runs_commute(p, x, y);
}

/// Standing apart does not depend on which write is named first.
proof fn lemma_apart_both_ways(v: WriteV, w: WriteV)
    ensures
        apart(v, w) == apart(w, v),
{
}

/// Only a new child's effect depends on what its target hangs off.
pub(crate) proof fn lemma_same_effect(op: OpV, x: Option<ElementId>, y: Option<ElementId>)
    requires
        op.kind is XmlInsertChild ==> x == y,
    ensures
        effect(op, x) == effect(op, y),
{
}

/// Two ops in turn do what they write, in turn.
proof fn lemma_in_turn(t: TreeV, a: OpV, b: OpV)
    requires
        t.takes(a),
        t.takes(b),
        all_apart(effect(a, t.owner_of(a)), effect(b, t.owner_of(b))),
        leave_alone(effect(a, t.owner_of(a)), b),
    ensures
        t.apply_kind(a.target, a.kind, a.stamp, a.id.client).apply_kind(
            b.target,
            b.kind,
            b.stamp,
            b.id.client,
        ).plain() == t.plain().writes(effect(a, t.owner_of(a))).writes(effect(b, t.owner_of(b))),
{
    let ws = effect(a, t.owner_of(a));
    let u = t.apply_kind(a.target, a.kind, a.stamp, a.id.client);
    lemma_effect(t, a);
    assert forall|i: int| 0 <= i < ws.len() implies regular(#[trigger] ws[i]) by {
        lemma_effect_regular(a, t.owner_of(a), i);
    }
    let p = t.plain();
    assert(p.owner_of(b) == t.owner_of(b));
    lemma_plain_takes(t, b);
    lemma_takes_after(p, ws, b);
    assert(u.plain() == p.writes(ws));
    assert(u.owner_of(b) == u.plain().owner_of(b));
    lemma_plain_takes(u, b);
    lemma_effect(u, b);
    lemma_same_effect(b, u.owner_of(b), t.owner_of(b));
}

impl DocV {
    /// The replica but for what displacement says.
    pub open spec fn plain(self) -> DocV {
        DocV { tree: self.tree.plain(), ..self }
    }
}

/// Replicas converge: one that folds two concurrent ops in either order has seen the same
/// ops, has the same clocks and holds the same state.
pub proof fn law_replicas_converge(d: DocV, a: OpV, b: OpV)
    requires
        d.tree.takes(a),
        d.tree.takes(b),
        d.tree.apart(a, b),
    ensures
        d.applied(a).applied(b).plain() == d.applied(b).applied(a).plain(),
{
    law_concurrent_ops_commute(d.tree, a, b);
    let x = d.applied(a).applied(b);
    let y = d.applied(b).applied(a);
    assert(x.seen =~= y.seen);
    assert(x.zone_clocks =~= y.zone_clocks);
}

// --- edits of what is there ---

/// Whether an op edits what is there, and makes no container, annotation or grant.
pub open spec fn edits_in_place(kind: OpKindV) -> bool {
    match kind {
        OpKindV::RegisterSet { .. } => true,
        OpKindV::CounterInc { .. } => true,
        OpKindV::CounterDec { .. } => true,
        OpKindV::MapSet { .. } => true,
        OpKindV::MapDelete { .. } => true,
        OpKindV::ListInsert { .. } => true,
        OpKindV::ListDelete { .. } => true,
        OpKindV::TextInsert { .. } => true,
        OpKindV::TextDelete { .. } => true,
        OpKindV::RangedSetPayload { .. } => true,
        OpKindV::RangedDelete { .. } => true,
        OpKindV::AclRevoke { .. } => true,
        _ => false,
    }
}

/// The ids of the items an op puts in.
pub open spec fn puts(op: OpV) -> Set<Stamp> {
    match op.kind {
        OpKindV::ListInsert { .. } => set![op.stamp],
        OpKindV::TextInsert { s, .. } => Set::new(
            |x: Stamp|
                exists|i: int| 0 <= i < s.len() && x == #[trigger] op.stamp.spec_run_member(i as u64),
        ),
        _ => Set::empty(),
    }
}

/// The ids of the items an op takes out.
pub open spec fn drops(op: OpV) -> Set<Stamp> {
    match op.kind {
        OpKindV::ListDelete { id } => set![id],
        OpKindV::TextDelete { ids } => ids.to_set(),
        _ => Set::empty(),
    }
}

/// Whether a write is one an edit in place makes.
pub open spec fn in_place(op: OpV, w: WriteV) -> bool {
    match w {
        WriteV::Raise { .. } => true,
        WriteV::Slot { stamp, .. } => stamp == op.stamp,
        WriteV::Tally { .. } => true,
        WriteV::ListPut { list, id, .. } => list == op.target && puts(op).contains(id),
        WriteV::ListDrop { list, id } => list == op.target && drops(op).contains(id),
        WriteV::TextPut { id, .. } => puts(op).contains(id),
        WriteV::TextDrop { id, .. } => drops(op).contains(id),
        WriteV::NoteSet { stamp, .. } => stamp == op.stamp,
        WriteV::NoteDrop { .. } => true,
        WriteV::Revoke { .. } => true,
        _ => false,
    }
}

pub(crate) proof fn lemma_in_place(op: OpV, owner: Option<ElementId>, i: int)
    requires
        edits_in_place(op.kind),
        0 <= i < effect(op, owner).len(),
    ensures
        in_place(op, effect(op, owner)[i]),
{
    let ws = body(op.target, op.kind, op.stamp, op.id.client, owner);
    if i > 0 {
        assert(effect(op, owner)[i] == ws[i - 1]);
        match op.kind {
            OpKindV::TextInsert { s, anchor } => {
                assert(ws[i - 1] == run_puts(op.target, op.stamp, s, anchor)[i - 1]);
                let j = i - 1;
                assert(puts(op).contains(op.stamp.spec_run_member(j as u64)));
            },
            OpKindV::TextDelete { ids } => {
                assert(ids.to_set().contains(ids[i - 1]));
            },
            _ => {},
        }
    }
}

/// Edits of what is there stand apart where their stamps differ and neither speaks of an
/// item that the other puts in, as no two ops of which neither knew the other do. So, by
/// the law above, they commute.
pub proof fn law_edits_in_place_stand_apart(t: TreeV, a: OpV, b: OpV)
    requires
        edits_in_place(a.kind),
        edits_in_place(b.kind),
        a.stamp != b.stamp,
        puts(a).disjoint(puts(b)),
        puts(a).disjoint(drops(b)),
        drops(a).disjoint(puts(b)),
    ensures
        t.apart(a, b),
{
    let x = effect(a, t.owner_of(a));
    let y = effect(b, t.owner_of(b));
    assert forall|i: int, j: int| 0 <= i < x.len() && 0 <= j < y.len() implies apart(
        #[trigger] x[i],
        #[trigger] y[j],
    ) by {
        lemma_in_place(a, t.owner_of(a), i);
        lemma_in_place(b, t.owner_of(b), j);
        if let WriteV::ListPut { id, .. } = x[i] {
            assert(!puts(b).contains(id) && !drops(b).contains(id));
        }
        if let WriteV::TextPut { id, .. } = x[i] {
            assert(!puts(b).contains(id) && !drops(b).contains(id));
        }
        if let WriteV::ListDrop { id, .. } = x[i] {
            assert(!puts(b).contains(id));
        }
        if let WriteV::TextDrop { id, .. } = x[i] {
            assert(!puts(b).contains(id));
        }
    }
}

} // verus!
