//! What reading a snapshot back gives: everything a replica's bytes spell, with what they
//! leave out worked out again.

use crate::annot::{AclEntry, AclEntryV, GroupKey, PayloadV, Placement, Places, RangedEntry, RangedEntryV};
use crate::clientid::ClientId;
use crate::counter::{law_counter_state_round_trip, Counter, CounterV};
use crate::doc::{holds_op, op_at, DocV, Document};
use crate::element::ElementV;
use crate::elementid::{law_kind_tags_round_trip, ElementId};
use crate::format::{
    enc_acl_effect, enc_acl_grant, enc_acl_subject, enc_bool, enc_bytes, enc_kind, enc_op, enc_ops,
    enc_opt_bytes, enc_range_anchor, enc_scalar, enc_stamp, enc_u32, enc_u64, enc_u8, fits_u32,
    exactly, lemma_concat_assoc, op_carried, op_fits, position_carried, DecodeError, Parsed,
};
use crate::list::{list_set_away, List, ListV};
use crate::list::SeqKey;
use crate::list_state::{as_written, law_list_state_round_trip, list_carried, list_fits};
use crate::load::{
    parse_acl_record, parse_payload, parse_placement_record, parse_ranged_record, parse_record,
    parse_revokers, parse_section, place_step, record_step, revoker_step, LoadV, PlacesV, Section,
};
use crate::many::{enc_many, lemma_fold_reads_back, parse_fold};
use crate::map::{slots_view, LwwMap, MapV, Slot, SlotV};
use crate::map_state::{
    as_spelled, enc_map, installed, law_map_state_round_trip, map_fits, parse_map, reads_as,
    slot_carried, DecodedMapV,
};
use crate::op::{ops_view, OpId, OpV};
use crate::rebuild::links_end;
use crate::ranged::spec_is_composite_payload_kind;
use crate::registry::{Held, Registry};
use crate::roundtrip::{
    law_op_log_round_trip, rt_acl_effect, rt_acl_grant, rt_acl_subject, rt_bytes, rt_client,
    rt_element_id, rt_opt_bytes, rt_range_anchor, rt_scalar, rt_stamp, rt_take, rt_u32, rt_u64,
    rt_u8,
};
use crate::snapshot::{
    and_section, assembled, empty_load, made_whole, parse_contents, parse_head, parse_held,
    parse_load, parse_state, resolved_load, HeadV,
};
use crate::stamp::{Stamp, LAMPORT_STATE_CEILING};
use crate::state::{
    acl_enc, acl_fits, client_enc, counter_enc, enc_acl, enc_held, enc_payload, enc_placed, enc_ranged,
    enc_registries, enc_relations, enc_state, framed_enc, group_enc, held_ids, is_spelled,
    link_enc, list_enc, map_enc, move_enc, op_id_enc, placed_enc, placement_enc, ranged_enc, ranged_fits,
    registries_fit, relations_fit, section, spelled_places, state_fits, text_enc, water_enc,
    xml_element_enc, xml_fragment_enc, zone_enc, STATE_VERSION,
};
use crate::table::{
    lemma_entry, lemma_ordered, lemma_ordered_exists, lemma_push_set, lemma_size, lemma_take,
    ordered, rises, seq_keys, seq_map, sorted, Key, Table,
};
use crate::text::{is_char_item, only_chars, Text};
use crate::tree::{empty_map, Tree, TreeV};
use crate::treemove::{MoveEdge, MovesV};
use crate::xml::{node_attrs_id, node_children_id, XmlElement, XmlElementV, XmlFragment};
use vstd::prelude::*;

verus! {

// --- what the bytes spell ---

impl TreeV {
    /// Whether a node's placements are spelled out, this one among them.
    pub open spec fn spells(self, node: ElementId, p: Placement) -> bool {
        self.placements.dom().contains(node) && is_spelled(self, self.placements[node])
            && self.placements[node].contains(p)
    }

    /// The state as its bytes have it: every container in its place with every node at
    /// home, only the placements that are spelled out, and nothing of what a reader works
    /// out.
    pub open spec fn written(self) -> TreeV {
        TreeV {
            maps: self.maps.map_values(|m: MapV| MapV { displaced: false, ..m }),
            lists: self.lists.map_values(|l: ListV| as_written(l)),
            texts: self.texts.map_values(|l: ListV| as_written(l)),
            counters: self.counters.map_values(|c: CounterV| CounterV { displaced: false, ..c }),
            xml_elements: self.xml_elements.map_values(
                |x: XmlElementV| XmlElementV { displaced: false, ..x },
            ),
            xml_fragments: self.xml_fragments.map_values(
                |x: XmlFragment| XmlFragment { displaced: false },
            ),
            parents: self.parents,
            moves: MovesV::empty(),
            placements: self.written_places(),
            placement_index: self.written_index(),
            ranged: self.ranged,
            acl: self.acl,
            revealed: Set::empty(),
            orphans: Seq::empty(),
            high_water: self.high_water,
        }
    }

    pub open spec fn written_places(self) -> Map<ElementId, Seq<Placement>> {
        Map::new(
            |n: ElementId|
                self.placements.dom().contains(n) && is_spelled(self, self.placements[n]),
            |n: ElementId| ordered::<Placement>(self.placements[n].to_set()),
        )
    }

    pub open spec fn written_index(self) -> Map<Placement, ElementId> {
        Map::new(
            |p: Placement| exists|n: ElementId| #[trigger] self.spells(n, p),
            |p: Placement| choose|n: ElementId| #[trigger] self.spells(n, p),
        )
    }

    /// The moves in stamp order.
    pub open spec fn move_log(self) -> Seq<(Stamp, MoveEdge)> {
        ordered::<Stamp>(self.moves.log.dom()).map_values(|s: Stamp| (s, self.moves.log[s]))
    }
}

/// The ops that wait, in order of author and sequence number.
pub open spec fn held_in_order(ops: Seq<OpV>) -> Seq<OpV> {
    ordered::<OpId>(held_ids(ops)).map_values(|id: OpId| op_at(ops, id)->Some_0)
}

impl DocV {
    /// What a replica's bytes spell of it, but for the ops that wait.
    pub open spec fn written(self) -> LoadV {
        LoadV {
            zone_clocks: self.zone_clocks,
            tree: self.tree.written(),
            decoded: Seq::empty(),
            log: self.tree.move_log(),
            seen: self.seen,
            resolved: self.resolved,
        }
    }

    pub open spec fn head(self) -> HeadV {
        HeadV { client: self.client, lamport: self.lamport, seq: self.seq }
    }
}

// --- what can be read back ---

impl TreeV {
    /// Whether every live slot's handle and every node's names something registered.
    pub open spec fn handles_resolve(self) -> bool {
        self.items_resolve() && forall|m: ElementId, k: Seq<u8>|
            self.maps.dom().contains(m) && #[trigger] self.maps[m].slots.dom().contains(k)
                ==> self.slot_resolves(self.maps[m].slots[k])
    }

    pub open spec fn slot_resolves(self, s: SlotV) -> bool {
        s.value matches Some(e) ==> self.has_element(e)
    }

    /// Whether every XML node has its attributes and its children.
    pub open spec fn nodes_whole(self) -> bool {
        &&& forall|x: ElementId| #[trigger]
            self.xml_elements.dom().contains(x) ==> self.maps.dom().contains(node_attrs_id(x))
                && self.lists.dom().contains(node_children_id(x))
        &&& forall|x: ElementId| #[trigger]
            self.xml_fragments.dom().contains(x) ==> self.lists.dom().contains(node_children_id(x))
    }

    /// Whether no two nodes claim one placement.
    pub open spec fn places_apart(self) -> bool {
        forall|a: ElementId, b: ElementId, p: Placement| #[trigger]
            self.spells(a, p) && #[trigger] self.spells(b, p) ==> a == b
    }

    /// Whether an annotation has a form in the bytes, and its container is here.
    pub open spec fn ranged_carried(self, id: ElementId, e: RangedEntryV) -> bool {
        position_carried(e.start.pos) && position_carried(e.end.pos) && match e.payload {
            PayloadV::Scalar { stamp, .. } => stamp.offset == 0,
            PayloadV::Composite { kind } => spec_is_composite_payload_kind(kind)
                && self.has_payload(id, kind),
        }
    }

    /// Whether the bytes carry every stamp, and no figure is past the clock's ceiling.
    pub open spec fn carried(self) -> bool {
        &&& forall|l: ElementId| #[trigger] self.lists.dom().contains(l) ==> list_carried(self.lists[l])
        &&& forall|l: ElementId| #[trigger] self.texts.dom().contains(l) ==> list_carried(self.texts[l])
        &&& forall|m: ElementId, k: Seq<u8>|
            self.maps.dom().contains(m) && #[trigger] self.maps[m].slots.dom().contains(k)
                ==> slot_carried(self.maps[m].slots[k])
        &&& forall|s: Stamp| #[trigger] self.moves.log.dom().contains(s) ==> s.offset == 0
        &&& forall|n: ElementId, p: Placement| #[trigger] self.spells(n, p) ==> p.stamp.offset == 0
        &&& forall|r: ElementId| #[trigger]
            self.ranged.dom().contains(r) ==> self.ranged_carried(r, self.ranged[r])
        &&& forall|c: ClientId| #[trigger]
            self.high_water.dom().contains(c) ==> self.high_water[c] <= LAMPORT_STATE_CEILING
    }

    /// Whether the state can be read back: every handle names something here, links end,
    /// and the bytes carry every stamp.
    pub open spec fn readable(self) -> bool {
        &&& self.handles_resolve()
        &&& self.nodes_whole()
        &&& self.places_apart()
        &&& self.carried()
        &&& links_end(self.parents)
    }
}

impl DocV {
    pub open spec fn readable(self) -> bool {
        &&& self.tree.readable()
        &&& self.lamport <= LAMPORT_STATE_CEILING
        &&& forall|z: u32| #[trigger]
            self.zone_clocks.dom().contains(z) ==> self.zone_clocks[z] <= LAMPORT_STATE_CEILING
        &&& forall|i: int| 0 <= i < self.buffer.len() ==> op_carried(#[trigger] self.buffer[i])
    }
}

// --- sections ---

/// A section's records read back, where each step reads its record.
proof fn lemma_section_reads_back<T>(
    which: Section,
    s: Seq<T>,
    enc: spec_fn(T) -> Seq<u8>,
    accs: Seq<LoadV>,
    rest: Seq<u8>,
)
    requires
        fits_u32(s.len()),
        accs.len() == s.len() + 1,
        forall|i: int, r: Seq<u8>|
            0 <= i < s.len() ==> #[trigger] parse_record(which, accs[i], enc(s[i]) + r) == Ok::<
                (LoadV, Seq<u8>),
                DecodeError,
            >((accs[i + 1], r)),
    ensures
        parse_section(which, accs[0], section(s, enc) + rest) == Ok::<
            (LoadV, Seq<u8>),
            DecodeError,
        >((accs.last(), rest)),
{
    reveal(parse_section);
    let a = enc_u32(s.len() as u32);
    let b = enc_many(s, enc);
    lemma_concat_assoc(a, b, rest);
    rt_u32(s.len() as u32, b + rest);
    let step = record_step(which);
    assert forall|i: int, r: Seq<u8>| 0 <= i < s.len() implies #[trigger] step(
        accs[i],
        enc(s[i]) + r,
    ) == Ok::<(LoadV, Seq<u8>), DecodeError>((accs[i + 1], r)) by {
        assert(parse_record(which, accs[i], enc(s[i]) + r) == Ok::<(LoadV, Seq<u8>), DecodeError>(
            (accs[i + 1], r),
        ));
    }
    lemma_fold_reads_back(s, enc, accs, step, rest);
}

/// The map that entries spell, each value as it is read.
spec fn read_map<K: Key, V, W>(s: Seq<(K, V)>, f: spec_fn(V) -> W) -> Map<K::V, W> {
    seq_map::<K, V>(s).map_values(f)
}

/// A section of a table's entries read back: the load with the whole map in it.
proof fn lemma_table_reads_back<K: Key, V, W>(
    which: Section,
    s: Seq<(K, V)>,
    enc: spec_fn((K, V)) -> Seq<u8>,
    f: spec_fn(V) -> W,
    put: spec_fn(Map<K::V, W>) -> LoadV,
    rest: Seq<u8>,
)
    requires
        sorted(s),
        fits_u32(s.len()),
        forall|i: int, m: Map<K::V, W>, r: Seq<u8>|
            0 <= i < s.len() && !m.dom().contains(s[i].0@) ==> #[trigger] parse_record(
                which,
                put(m),
                enc(s[i]) + r,
            ) == Ok::<(LoadV, Seq<u8>), DecodeError>((put(m.insert(s[i].0@, f(s[i].1))), r)),
    ensures
        parse_section(which, put(Map::empty()), section(s, enc) + rest) == Ok::<
            (LoadV, Seq<u8>),
            DecodeError,
        >((put(read_map(s, f)), rest)),
{
    let accs = Seq::new(s.len() + 1, |i: int| put(read_map(s.take(i), f)));
    assert forall|i: int, r: Seq<u8>| 0 <= i < s.len() implies #[trigger] parse_record(
        which,
        accs[i],
        enc(s[i]) + r,
    ) == Ok::<(LoadV, Seq<u8>), DecodeError>((accs[i + 1], r)) by {
        lemma_take::<K, V>(s, i);
        let m = read_map(s.take(i), f);
        assert(!m.dom().contains(s[i].0@));
        assert(read_map(s.take(i + 1), f) =~= m.insert(s[i].0@, f(s[i].1)));
        assert(parse_record(which, put(m), enc(s[i]) + r) == Ok::<(LoadV, Seq<u8>), DecodeError>(
            (put(m.insert(s[i].0@, f(s[i].1))), r),
        ));
    }
    lemma_section_reads_back(which, s, enc, accs, rest);
    assert(read_map(s.take(0), f) =~= Map::empty());
    assert(s.take(s.len() as int) =~= s);
}

// --- records ---

proof fn rt_payload(t: TreeV, id: ElementId, e: RangedEntryV, rest: Seq<u8>)
    requires
        t.ranged_carried(id, e),
        ranged_fits(e),
    ensures
        parse_payload(t, id, enc_payload(e.payload) + rest) == Ok::<
            (PayloadV, Seq<u8>),
            DecodeError,
        >((e.payload, rest)),
{
    match e.payload {
        PayloadV::Scalar { value, stamp } => {
            let a = enc_scalar(value);
            let b = enc_stamp(stamp);
            lemma_concat_assoc(enc_u8(0) + a, b, rest);
            lemma_concat_assoc(enc_u8(0), a, b + rest);
            rt_u8(0, a + (b + rest));
            rt_scalar(value, b + rest);
            rt_stamp(stamp, rest);
        },
        PayloadV::Composite { kind } => {
            let a = enc_kind(kind);
            lemma_concat_assoc(enc_u8(1), a, rest);
            rt_u8(1, a + rest);
            rt_u8(kind.spec_tag(), rest);
            law_kind_tags_round_trip(kind, kind.spec_tag());
        },
    }
}

proof fn rt_ranged(l: LoadV, id: ElementId, e: RangedEntryV, rest: Seq<u8>)
    requires
        l.tree.ranged_carried(id, e),
        ranged_fits(e),
        !l.tree.ranged.dom().contains(id),
    ensures
        parse_ranged_record(l, enc_ranged(id, e) + rest) == Ok::<(LoadV, Seq<u8>), DecodeError>(
            (l.with_tree(TreeV { ranged: l.tree.ranged.insert(id, e), ..l.tree }), rest),
        ),
{
    reveal(parse_ranged_record);
    let a = enc_range_anchor(e.start);
    let b = enc_range_anchor(e.end);
    let c = enc_payload(e.payload);
    let n = enc_opt_bytes(e.name);
    let t = enc_bool(e.tombstone);
    let r5 = t + rest;
    let r4 = n + r5;
    let r3 = c + r4;
    let r2 = b + r3;
    let r1 = a + r2;
    let x1 = id.bytes() + a;
    let x2 = x1 + b;
    let x3 = x2 + c;
    lemma_concat_assoc(x3 + n, t, rest);
    lemma_concat_assoc(x3, n, r5);
    lemma_concat_assoc(x2, c, r4);
    lemma_concat_assoc(x1, b, r3);
    lemma_concat_assoc(id.bytes(), a, r2);
    rt_element_id(id, r1);
    rt_range_anchor(e.start, r2);
    rt_range_anchor(e.end, r3);
    rt_payload(l.tree, id, e, r4);
    rt_opt_bytes(e.name, r5, "optional bytes present-flag");
    rt_u8(if e.tombstone { 1 } else { 0 }, rest);
}

proof fn rt_revokers(c: Set<ClientId>, rest: Seq<u8>)
    requires
        c.finite(),
        fits_u32(ordered::<ClientId>(c).len()),
    ensures
        parse_revokers(
            enc_u32(ordered::<ClientId>(c).len() as u32) + (enc_many(
                ordered::<ClientId>(c),
                client_enc(),
            ) + rest),
        ) == Ok::<(Set<ClientId>, Seq<u8>), DecodeError>((c, rest)),
{
    let q = ordered::<ClientId>(c);
    lemma_ordered_exists::<ClientId>(c);
    rt_u32(q.len() as u32, enc_many(q, client_enc()) + rest);
    let accs = Seq::new(q.len() + 1, |i: int| q.take(i).to_set());
    assert forall|i: int, r: Seq<u8>| 0 <= i < q.len() implies #[trigger] revoker_step()(
        accs[i],
        client_enc()(q[i]) + r,
    ) == Ok::<(Set<ClientId>, Seq<u8>), DecodeError>((accs[i + 1], r)) by {
        rt_client(q[i], r);
        assert(q.take(i + 1) =~= q.take(i).push(q[i]));
        lemma_push_set(q.take(i), q[i]);
    }
    lemma_fold_reads_back(q, client_enc(), accs, revoker_step(), rest);
    assert(q.take(0).to_set() =~= Set::empty());
    assert(q.take(q.len() as int) =~= q);
}

proof fn rt_acl(l: LoadV, id: ElementId, e: AclEntryV, rest: Seq<u8>)
    requires
        acl_fits(e),
        e.revokers.finite(),
        !l.tree.acl.dom().contains(id),
    ensures
        parse_acl_record(l, enc_acl(id, e) + rest) == Ok::<(LoadV, Seq<u8>), DecodeError>(
            (l.with_tree(TreeV { acl: l.tree.acl.insert(id, e), ..l.tree }), rest),
        ),
{
    reveal(parse_acl_record);
    let q = ordered::<ClientId>(e.revokers);
    let a = enc_acl_subject(e.subject);
    let b = enc_acl_grant(e.grant);
    let c = enc_acl_effect(e.effect);
    let p = enc_bytes(e.path);
    let g = e.grantor.bytes();
    let n = enc_u32(q.len() as u32);
    let m = enc_many(q, client_enc());
    let r6 = n + (m + rest);
    let r5 = g + r6;
    let r4 = p + r5;
    let r3 = c + r4;
    let r2 = b + r3;
    let r1 = a + r2;
    let x1 = id.bytes() + a;
    let x2 = x1 + b;
    let x3 = x2 + c;
    let x4 = x3 + p;
    let x5 = x4 + g;
    lemma_concat_assoc(x5 + n, m, rest);
    lemma_concat_assoc(x5, n, m + rest);
    lemma_concat_assoc(x4, g, r6);
    lemma_concat_assoc(x3, p, r5);
    lemma_concat_assoc(x2, c, r4);
    lemma_concat_assoc(x1, b, r3);
    lemma_concat_assoc(id.bytes(), a, r2);
    rt_element_id(id, r1);
    rt_acl_subject(e.subject, r2);
    rt_acl_grant(e.grant, r3);
    rt_acl_effect(e.effect, r4);
    rt_bytes(e.path, r5);
    rt_client(e.grantor, r6);
    rt_revokers(e.revokers, rest);
}

// --- one section each ---

proof fn lemma_zone_clocks(t: Table<u32, u64>, l: LoadV, rest: Seq<u8>)
    requires
        t.wf(),
        fits_u32(t.entries@.len()),
        forall|z: u32| #[trigger] t@.dom().contains(z) ==> t@[z] <= LAMPORT_STATE_CEILING,
        l.zone_clocks == Map::<u32, u64>::empty(),
    ensures
        parse_section(Section::ZoneClocks, l, section(t.entries@, zone_enc()) + rest) == Ok::<
            (LoadV, Seq<u8>),
            DecodeError,
        >((LoadV { zone_clocks: t@, ..l }, rest)),
{
    let s = t.entries@;
    let f = |n: u64| n;
    let put = |m: Map<u32, u64>| LoadV { zone_clocks: m, ..l };
    assert forall|i: int, m: Map<u32, u64>, r: Seq<u8>|
        0 <= i < s.len() && !m.dom().contains(s[i].0@) implies #[trigger] parse_record(
        Section::ZoneClocks,
        put(m),
        zone_enc()(s[i]) + r,
    ) == Ok::<(LoadV, Seq<u8>), DecodeError>((put(m.insert(s[i].0@, f(s[i].1))), r)) by {
        lemma_entry::<u32, u64>(s, i);
        let (z, n) = s[i];
        lemma_concat_assoc(enc_u32(z), enc_u64(n), r);
        rt_u32(z, enc_u64(n) + r);
        rt_u64(n, r);
    }
    lemma_table_reads_back::<u32, u64, u64>(Section::ZoneClocks, s, zone_enc(), f, put, rest);
    assert(read_map(s, f) =~= t@);
    assert(put(Map::empty()) == l);
}

proof fn lemma_high_water(t: Table<ClientId, u64>, l: LoadV, rest: Seq<u8>)
    requires
        t.wf(),
        fits_u32(t.entries@.len()),
        forall|c: ClientId| #[trigger] t@.dom().contains(c) ==> t@[c] <= LAMPORT_STATE_CEILING,
        l.tree.high_water == Map::<ClientId, u64>::empty(),
    ensures
        parse_section(Section::HighWater, l, section(t.entries@, water_enc()) + rest) == Ok::<
            (LoadV, Seq<u8>),
            DecodeError,
        >((l.with_tree(TreeV { high_water: t@, ..l.tree }), rest)),
{
    let s = t.entries@;
    let f = |n: u64| n;
    let put = |m: Map<ClientId, u64>| l.with_tree(TreeV { high_water: m, ..l.tree });
    assert forall|i: int, m: Map<ClientId, u64>, r: Seq<u8>|
        0 <= i < s.len() && !m.dom().contains(s[i].0@) implies #[trigger] parse_record(
        Section::HighWater,
        put(m),
        water_enc()(s[i]) + r,
    ) == Ok::<(LoadV, Seq<u8>), DecodeError>((put(m.insert(s[i].0@, f(s[i].1))), r)) by {
        lemma_entry::<ClientId, u64>(s, i);
        let (c, n) = s[i];
        lemma_concat_assoc(c.bytes(), enc_u64(n), r);
        rt_client(c, enc_u64(n) + r);
        rt_u64(n, r);
    }
    lemma_table_reads_back::<ClientId, u64, u64>(Section::HighWater, s, water_enc(), f, put, rest);
    assert(read_map(s, f) =~= t@);
    assert(put(Map::empty()) == l);
}

proof fn lemma_counters(t: Registry<Counter>, l: LoadV, rest: Seq<u8>)
    requires
        t.wf(),
        fits_u32(t.table.entries@.len()),
        forall|i: int|
            0 <= i < t.table.entries@.len() ==>
                fits_u32((#[trigger] t.table.entries@[i]).1.entries.entries@.len()),
        l.tree.counters == Map::<ElementId, CounterV>::empty(),
    ensures
        parse_section(Section::Counters, l, section(t.table.entries@, counter_enc()) + rest) == Ok::<
            (LoadV, Seq<u8>),
            DecodeError,
        >((
            l.with_tree(
                TreeV { counters: t@.map_values(|c: CounterV| CounterV { displaced: false, ..c }), ..l.tree },
            ),
            rest,
        )),
{
    let s = t.table.entries@;
    let f = |c: Counter| CounterV { displaced: false, ..c@ };
    let put = |m: Map<ElementId, CounterV>| l.with_tree(TreeV { counters: m, ..l.tree });
    assert forall|i: int, m: Map<ElementId, CounterV>, r: Seq<u8>|
        0 <= i < s.len() && !m.dom().contains(s[i].0@) implies #[trigger] parse_record(
        Section::Counters,
        put(m),
        counter_enc()(s[i]) + r,
    ) == Ok::<(LoadV, Seq<u8>), DecodeError>((put(m.insert(s[i].0@, f(s[i].1))), r)) by {
        lemma_entry::<ElementId, Counter>(s, i);
        law_counter_state_round_trip(s[i].1, r);
    }
    lemma_table_reads_back::<ElementId, Counter, CounterV>(
        Section::Counters,
        s,
        counter_enc(),
        f,
        put,
        rest,
    );
    assert(read_map(s, f) =~= t@.map_values(|c: CounterV| CounterV { displaced: false, ..c }));
    assert(put(Map::empty()) == l);
}

proof fn lemma_lists(t: Registry<List>, l: LoadV, rest: Seq<u8>)
    requires
        t.wf(),
        fits_u32(t.table.entries@.len()),
        forall|i: int|
            0 <= i < t.table.entries@.len() ==>
                list_fits((#[trigger] t.table.entries@[i]).1@, t.table.entries@[i].1.dead@),
        forall|x: ElementId| #[trigger] t@.dom().contains(x) ==> list_carried(t@[x]),
        l.tree.lists == Map::<ElementId, ListV>::empty(),
    ensures
        parse_section(Section::Lists, l, section(t.table.entries@, list_enc()) + rest) == Ok::<
            (LoadV, Seq<u8>),
            DecodeError,
        >((l.with_tree(TreeV { lists: t@.map_values(|x: ListV| as_written(x)), ..l.tree }), rest)),
{
    let s = t.table.entries@;
    let f = |x: List| as_written(x@);
    let put = |m: Map<ElementId, ListV>| l.with_tree(TreeV { lists: m, ..l.tree });
    assert forall|i: int, m: Map<ElementId, ListV>, r: Seq<u8>|
        0 <= i < s.len() && !m.dom().contains(s[i].0@) implies #[trigger] parse_record(
        Section::Lists,
        put(m),
        list_enc()(s[i]) + r,
    ) == Ok::<(LoadV, Seq<u8>), DecodeError>((put(m.insert(s[i].0@, f(s[i].1))), r)) by {
        lemma_entry::<ElementId, List>(s, i);
        assert(t@.dom().contains(s[i].0) && t@[s[i].0] == s[i].1@);
        law_list_state_round_trip(s[i].1, r);
    }
    lemma_table_reads_back::<ElementId, List, ListV>(Section::Lists, s, list_enc(), f, put, rest);
    assert(read_map(s, f) =~= t@.map_values(|x: ListV| as_written(x)));
    assert(put(Map::empty()) == l);
}

proof fn lemma_texts(t: Registry<Text>, l: LoadV, rest: Seq<u8>)
    requires
        t.wf(),
        fits_u32(t.table.entries@.len()),
        forall|i: int|
            0 <= i < t.table.entries@.len() ==>
                list_fits((#[trigger] t.table.entries@[i]).1@, t.table.entries@[i].1.seq.dead@),
        forall|x: ElementId| #[trigger] t@.dom().contains(x) ==> list_carried(t@[x]),
        l.tree.texts == Map::<ElementId, ListV>::empty(),
    ensures
        parse_section(Section::Texts, l, section(t.table.entries@, text_enc()) + rest) == Ok::<
            (LoadV, Seq<u8>),
            DecodeError,
        >((l.with_tree(TreeV { texts: t@.map_values(|x: ListV| as_written(x)), ..l.tree }), rest)),
{
    let s = t.table.entries@;
    let f = |x: Text| as_written(x@);
    let put = |m: Map<ElementId, ListV>| l.with_tree(TreeV { texts: m, ..l.tree });
    assert forall|i: int, m: Map<ElementId, ListV>, r: Seq<u8>|
        0 <= i < s.len() && !m.dom().contains(s[i].0@) implies #[trigger] parse_record(
        Section::Texts,
        put(m),
        text_enc()(s[i]) + r,
    ) == Ok::<(LoadV, Seq<u8>), DecodeError>((put(m.insert(s[i].0@, f(s[i].1))), r)) by {
        lemma_entry::<ElementId, Text>(s, i);
        assert(t@.dom().contains(s[i].0) && t@[s[i].0] == s[i].1@);
        law_list_state_round_trip(s[i].1.seq, r);
        assert(only_chars(as_written(s[i].1@))) by {
            assert forall|id: Stamp| #[trigger]
                as_written(s[i].1@).items.dom().contains(id) implies is_char_item(
                as_written(s[i].1@).items[id].value,
            ) by {
                assert(s[i].1@.items.dom().contains(id));
            }
        }
    }
    lemma_table_reads_back::<ElementId, Text, ListV>(Section::Texts, s, text_enc(), f, put, rest);
    assert(read_map(s, f) =~= t@.map_values(|x: ListV| as_written(x)));
    assert(put(Map::empty()) == l);
}

proof fn lemma_xml_elements(t: Registry<XmlElement>, l: LoadV, rest: Seq<u8>)
    requires
        t.wf(),
        fits_u32(t.table.entries@.len()),
        forall|i: int|
            0 <= i < t.table.entries@.len() ==>
                fits_u32((#[trigger] t.table.entries@[i]).1.tag@.len()),
        forall|x: ElementId|
            #[trigger] t@.dom().contains(x) ==>
                l.tree.maps.dom().contains(node_attrs_id(x))
                    && l.tree.lists.dom().contains(node_children_id(x)),
        l.tree.xml_elements == Map::<ElementId, XmlElementV>::empty(),
    ensures
        parse_section(Section::XmlElements, l, section(t.table.entries@, xml_element_enc()) + rest) == Ok::<
            (LoadV, Seq<u8>),
            DecodeError,
        >((
            l.with_tree(
                TreeV { xml_elements: t@.map_values(|x: XmlElementV| XmlElementV { displaced: false, ..x }), ..l.tree },
            ),
            rest,
        )),
{
    let s = t.table.entries@;
    let f = |x: XmlElement| XmlElementV { displaced: false, ..x@ };
    let put = |m: Map<ElementId, XmlElementV>| l.with_tree(TreeV { xml_elements: m, ..l.tree });
    assert forall|i: int, m: Map<ElementId, XmlElementV>, r: Seq<u8>|
        0 <= i < s.len() && !m.dom().contains(s[i].0@) implies #[trigger] parse_record(
        Section::XmlElements,
        put(m),
        xml_element_enc()(s[i]) + r,
    ) == Ok::<(LoadV, Seq<u8>), DecodeError>((put(m.insert(s[i].0@, f(s[i].1))), r)) by {
        lemma_entry::<ElementId, XmlElement>(s, i);
        assert(t@.dom().contains(s[i].0));
        let tag = s[i].1.tag@;
        lemma_concat_assoc(s[i].0.bytes(), enc_bytes(tag), r);
        rt_element_id(s[i].0, enc_bytes(tag) + r);
        rt_bytes(tag, r);
    }
    lemma_table_reads_back::<ElementId, XmlElement, XmlElementV>(
        Section::XmlElements,
        s,
        xml_element_enc(),
        f,
        put,
        rest,
    );
    assert(read_map(s, f) =~= t@.map_values(|x: XmlElementV| XmlElementV { displaced: false, ..x }));
    assert(put(Map::empty()) == l);
}

proof fn lemma_xml_fragments(t: Registry<XmlFragment>, l: LoadV, rest: Seq<u8>)
    requires
        t.wf(),
        fits_u32(t.table.entries@.len()),
        forall|x: ElementId|
            #[trigger] t@.dom().contains(x) ==> l.tree.lists.dom().contains(node_children_id(x)),
        l.tree.xml_fragments == Map::<ElementId, XmlFragment>::empty(),
    ensures
        parse_section(Section::XmlFragments, l, section(t.table.entries@, xml_fragment_enc()) + rest) == Ok::<
            (LoadV, Seq<u8>),
            DecodeError,
        >((
            l.with_tree(
                TreeV { xml_fragments: t@.map_values(|x: XmlFragment| XmlFragment { displaced: false }), ..l.tree },
            ),
            rest,
        )),
{
    let s = t.table.entries@;
    let f = |x: XmlFragment| XmlFragment { displaced: false };
    let put = |m: Map<ElementId, XmlFragment>| l.with_tree(TreeV { xml_fragments: m, ..l.tree });
    assert forall|i: int, m: Map<ElementId, XmlFragment>, r: Seq<u8>|
        0 <= i < s.len() && !m.dom().contains(s[i].0@) implies #[trigger] parse_record(
        Section::XmlFragments,
        put(m),
        xml_fragment_enc()(s[i]) + r,
    ) == Ok::<(LoadV, Seq<u8>), DecodeError>((put(m.insert(s[i].0@, f(s[i].1))), r)) by {
        lemma_entry::<ElementId, XmlFragment>(s, i);
        assert(t@.dom().contains(s[i].0));
        rt_element_id(s[i].0, r);
    }
    lemma_table_reads_back::<ElementId, XmlFragment, XmlFragment>(
        Section::XmlFragments,
        s,
        xml_fragment_enc(),
        f,
        put,
        rest,
    );
    assert(read_map(s, f) =~= t@.map_values(|x: XmlFragment| XmlFragment { displaced: false }));
    assert(put(Map::empty()) == l);
}

proof fn lemma_parents(t: Table<ElementId, ElementId>, l: LoadV, rest: Seq<u8>)
    requires
        t.wf(),
        fits_u32(t.entries@.len()),
        l.tree.parents == Map::<ElementId, ElementId>::empty(),
    ensures
        parse_section(Section::Parents, l, section(t.entries@, link_enc()) + rest) == Ok::<
            (LoadV, Seq<u8>),
            DecodeError,
        >((l.with_tree(TreeV { parents: t@, ..l.tree }), rest)),
{
    let s = t.entries@;
    let f = |p: ElementId| p;
    let put = |m: Map<ElementId, ElementId>| l.with_tree(TreeV { parents: m, ..l.tree });
    assert forall|i: int, m: Map<ElementId, ElementId>, r: Seq<u8>|
        0 <= i < s.len() && !m.dom().contains(s[i].0@) implies #[trigger] parse_record(
        Section::Parents,
        put(m),
        link_enc()(s[i]) + r,
    ) == Ok::<(LoadV, Seq<u8>), DecodeError>((put(m.insert(s[i].0@, f(s[i].1))), r)) by {
        lemma_entry::<ElementId, ElementId>(s, i);
        let (c, p) = s[i];
        lemma_concat_assoc(c.bytes(), p.bytes(), r);
        rt_element_id(c, p.bytes() + r);
        rt_element_id(p, r);
    }
    lemma_table_reads_back::<ElementId, ElementId, ElementId>(
        Section::Parents,
        s,
        link_enc(),
        f,
        put,
        rest,
    );
    assert(read_map(s, f) =~= t@);
    assert(put(Map::empty()) == l);
}

proof fn lemma_seen(t: Table<OpId, ()>, l: LoadV, rest: Seq<u8>)
    requires
        t.wf(),
        fits_u32(t.entries@.len()),
        l.seen == Set::<OpId>::empty(),
    ensures
        parse_section(Section::Seen, l, section(t.entries@, op_id_enc()) + rest) == Ok::<
            (LoadV, Seq<u8>),
            DecodeError,
        >((LoadV { seen: t@.dom(), ..l }, rest)),
{
    let s = t.entries@;
    let f = |u: ()| u;
    let put = |m: Map<OpId, ()>| LoadV { seen: m.dom(), ..l };
    assert forall|i: int, m: Map<OpId, ()>, r: Seq<u8>|
        0 <= i < s.len() && !m.dom().contains(s[i].0@) implies #[trigger] parse_record(
        Section::Seen,
        put(m),
        op_id_enc()(s[i]) + r,
    ) == Ok::<(LoadV, Seq<u8>), DecodeError>((put(m.insert(s[i].0@, f(s[i].1))), r)) by {
        lemma_entry::<OpId, ()>(s, i);
        let id = s[i].0;
        lemma_concat_assoc(id.client.bytes(), enc_u64(id.seq), r);
        rt_client(id.client, enc_u64(id.seq) + r);
        rt_u64(id.seq, r);
        assert(m.insert(id, ()).dom() =~= m.dom().insert(id));
    }
    lemma_table_reads_back::<OpId, (), ()>(Section::Seen, s, op_id_enc(), f, put, rest);
    assert(read_map(s, f).dom() =~= t@.dom());
    assert(put(Map::empty()) == l) by {
        assert(Map::<OpId, ()>::empty().dom() =~= Set::empty());
    }
}

proof fn lemma_resolved(t: Table<GroupKey, ()>, l: LoadV, rest: Seq<u8>)
    requires
        t.wf(),
        fits_u32(t.entries@.len()),
        l.resolved == Set::<GroupKey>::empty(),
    ensures
        parse_section(Section::Resolved, l, section(t.entries@, group_enc()) + rest) == Ok::<
            (LoadV, Seq<u8>),
            DecodeError,
        >((LoadV { resolved: t@.dom(), ..l }, rest)),
{
    let s = t.entries@;
    let f = |u: ()| u;
    let put = |m: Map<GroupKey, ()>| LoadV { resolved: m.dom(), ..l };
    assert forall|i: int, m: Map<GroupKey, ()>, r: Seq<u8>|
        0 <= i < s.len() && !m.dom().contains(s[i].0@) implies #[trigger] parse_record(
        Section::Resolved,
        put(m),
        group_enc()(s[i]) + r,
    ) == Ok::<(LoadV, Seq<u8>), DecodeError>((put(m.insert(s[i].0@, f(s[i].1))), r)) by {
        lemma_entry::<GroupKey, ()>(s, i);
        let key = s[i].0;
        lemma_concat_assoc(key.client.bytes(), enc_u64(key.tx.0), r);
        rt_client(key.client, enc_u64(key.tx.0) + r);
        rt_u64(key.tx.0, r);
        assert(m.insert(key, ()).dom() =~= m.dom().insert(key));
    }
    lemma_table_reads_back::<GroupKey, (), ()>(Section::Resolved, s, group_enc(), f, put, rest);
    assert(read_map(s, f).dom() =~= t@.dom());
    assert(put(Map::empty()) == l) by {
        assert(Map::<GroupKey, ()>::empty().dom() =~= Set::empty());
    }
}

proof fn lemma_ranged(t: Registry<RangedEntry>, l: LoadV, rest: Seq<u8>)
    requires
        t.wf(),
        fits_u32(t.table.entries@.len()),
        forall|i: int|
            0 <= i < t.table.entries@.len() ==> ranged_fits((#[trigger] t.table.entries@[i]).1@),
        forall|x: ElementId| #[trigger] t@.dom().contains(x) ==> l.tree.ranged_carried(x, t@[x]),
        l.tree.ranged == Map::<ElementId, RangedEntryV>::empty(),
    ensures
        parse_section(Section::Ranged, l, section(t.table.entries@, ranged_enc()) + rest) == Ok::<
            (LoadV, Seq<u8>),
            DecodeError,
        >((l.with_tree(TreeV { ranged: t@, ..l.tree }), rest)),
{
    let s = t.table.entries@;
    let f = |e: RangedEntry| e@;
    let put = |m: Map<ElementId, RangedEntryV>| l.with_tree(TreeV { ranged: m, ..l.tree });
    assert forall|i: int, m: Map<ElementId, RangedEntryV>, r: Seq<u8>|
        0 <= i < s.len() && !m.dom().contains(s[i].0@) implies #[trigger] parse_record(
        Section::Ranged,
        put(m),
        ranged_enc()(s[i]) + r,
    ) == Ok::<(LoadV, Seq<u8>), DecodeError>((put(m.insert(s[i].0@, f(s[i].1))), r)) by {
        lemma_entry::<ElementId, RangedEntry>(s, i);
        assert(t@.dom().contains(s[i].0) && t@[s[i].0] == s[i].1@);
        rt_ranged(put(m), s[i].0, s[i].1@, r);
    }
    lemma_table_reads_back::<ElementId, RangedEntry, RangedEntryV>(
        Section::Ranged,
        s,
        ranged_enc(),
        f,
        put,
        rest,
    );
    assert(read_map(s, f) =~= t@);
    assert(put(Map::empty()) == l);
}

proof fn lemma_acl(t: Registry<AclEntry>, l: LoadV, rest: Seq<u8>)
    requires
        t.wf(),
        fits_u32(t.table.entries@.len()),
        forall|i: int|
            0 <= i < t.table.entries@.len() ==> acl_fits((#[trigger] t.table.entries@[i]).1@),
        l.tree.acl == Map::<ElementId, AclEntryV>::empty(),
    ensures
        parse_section(Section::Acl, l, section(t.table.entries@, acl_enc()) + rest) == Ok::<
            (LoadV, Seq<u8>),
            DecodeError,
        >((l.with_tree(TreeV { acl: t@, ..l.tree }), rest)),
{
    let s = t.table.entries@;
    let f = |e: AclEntry| e@;
    let put = |m: Map<ElementId, AclEntryV>| l.with_tree(TreeV { acl: m, ..l.tree });
    assert forall|i: int, m: Map<ElementId, AclEntryV>, r: Seq<u8>|
        0 <= i < s.len() && !m.dom().contains(s[i].0@) implies #[trigger] parse_record(
        Section::Acl,
        put(m),
        acl_enc()(s[i]) + r,
    ) == Ok::<(LoadV, Seq<u8>), DecodeError>((put(m.insert(s[i].0@, f(s[i].1))), r)) by {
        lemma_entry::<ElementId, AclEntry>(s, i);
        lemma_size::<ClientId, ()>(s[i].1.revokers.entries@);
        rt_acl(put(m), s[i].0, s[i].1@, r);
    }
    lemma_table_reads_back::<ElementId, AclEntry, AclEntryV>(
        Section::Acl,
        s,
        acl_enc(),
        f,
        put,
        rest,
    );
    assert(read_map(s, f) =~= t@);
    assert(put(Map::empty()) == l);
}

// --- maps ---

/// A map as its bytes spell it.
spec fn map_as_spelled(m: LwwMap) -> DecodedMapV {
    DecodedMapV {
        id: m.id,
        slots: m.slots.entries@.map_values(|e: (Vec<u8>, Slot)| as_spelled(e.0@, e.1@)),
    }
}

spec fn maps_as_spelled(s: Seq<(ElementId, LwwMap)>) -> Seq<DecodedMapV> {
    s.map_values(|e: (ElementId, LwwMap)| map_as_spelled(e.1))
}

/// Whether the bytes carry every slot of a map.
spec fn slots_carried(m: MapV) -> bool {
    forall|k: Seq<u8>| #[trigger] m.slots.dom().contains(k) ==> slot_carried(m.slots[k])
}

proof fn rt_map(m: LwwMap, rest: Seq<u8>)
    requires
        m.wf(),
        map_fits(m.slots.entries@),
        slots_carried(m@),
    ensures
        parse_map(enc_map(m.id, m.slots.entries@) + rest) == Ok::<
            (DecodedMapV, Seq<u8>),
            DecodeError,
        >((map_as_spelled(m), rest)),
        reads_as(map_as_spelled(m).slots, m.slots.entries@),
{
    let e = m.slots.entries@;
    assert forall|i: int| 0 <= i < e.len() implies slot_carried((#[trigger] e[i]).1@) by {
        lemma_entry::<Vec<u8>, Slot>(e, i);
        assert(m@.slots.dom().contains(e[i].0@));
        assert(m@.slots[e[i].0@] == e[i].1@);
    }
    law_map_state_round_trip(m, rest);
    let d = parse_map(enc_map(m.id, e) + rest)->Ok_0.0;
    assert(d.slots =~= map_as_spelled(m).slots);
}

proof fn lemma_maps(t: Registry<LwwMap>, l: LoadV, rest: Seq<u8>)
    requires
        t.wf(),
        fits_u32(t.table.entries@.len()),
        forall|i: int|
            0 <= i < t.table.entries@.len() ==> map_fits(
                (#[trigger] t.table.entries@[i]).1.slots.entries@,
            ),
        forall|x: ElementId| #[trigger] t@.dom().contains(x) ==> slots_carried(t@[x]),
        l.tree.maps == Map::<ElementId, MapV>::empty(),
        l.decoded == Seq::<DecodedMapV>::empty(),
    ensures
        parse_section(Section::Maps, l, section(t.table.entries@, map_enc()) + rest) == Ok::<
            (LoadV, Seq<u8>),
            DecodeError,
        >(
            (
                LoadV {
                    tree: TreeV {
                        maps: t@.map_values(|m: MapV| empty_map(m.id)),
                        ..l.tree
                    },
                    decoded: maps_as_spelled(t.table.entries@),
                    ..l
                },
                rest,
            ),
        ),
{
    let s = t.table.entries@;
    let f = |m: LwwMap| empty_map(m.id);
    let accs = Seq::new(
        s.len() + 1,
        |i: int|
            LoadV {
                tree: TreeV { maps: read_map(s.take(i), f), ..l.tree },
                decoded: maps_as_spelled(s.take(i)),
                ..l
            },
    );
    assert forall|i: int, r: Seq<u8>| 0 <= i < s.len() implies #[trigger] parse_record(
        Section::Maps,
        accs[i],
        map_enc()(s[i]) + r,
    ) == Ok::<(LoadV, Seq<u8>), DecodeError>((accs[i + 1], r)) by {
        lemma_entry::<ElementId, LwwMap>(s, i);
        lemma_take::<ElementId, LwwMap>(s, i);
        assert(t@.dom().contains(s[i].0) && t@[s[i].0] == s[i].1@);
        rt_map(s[i].1, r);
        let m = read_map(s.take(i), f);
        assert(read_map(s.take(i + 1), f) =~= m.insert(s[i].0, f(s[i].1)));
        assert(maps_as_spelled(s.take(i + 1)) =~= maps_as_spelled(s.take(i)).push(
            map_as_spelled(s[i].1),
        ));
    }
    lemma_section_reads_back(Section::Maps, s, map_enc(), accs, rest);
    assert(read_map(s.take(0), f) =~= Map::empty());
    assert(maps_as_spelled(s.take(0)) =~= Seq::empty());
    assert(s.take(s.len() as int) =~= s);
    assert(read_map(s, f) =~= t@.map_values(|m: MapV| empty_map(m.id)));
    assert(accs[0] == l);
}

/// The tree with the first `n` slots of a map installed in it.
spec fn with_slots(t: TreeV, m: LwwMap, n: int) -> TreeV {
    TreeV {
        maps: t.maps.insert(
            m.id,
            MapV {
                id: m.id,
                slots: slots_view(seq_map::<Vec<u8>, Slot>(m.slots.entries@.take(n))),
                displaced: false,
            },
        ),
        ..t
    }
}

proof fn lemma_slots_install(t: TreeV, m: LwwMap, n: int)
    requires
        m.wf(),
        map_fits(m.slots.entries@),
        slots_carried(m@),
        t.maps.dom().contains(m.id),
        t.maps[m.id] == empty_map(m.id),
        forall|k: Seq<u8>| #[trigger] m@.slots.dom().contains(k) ==> t.slot_resolves(m@.slots[k]),
        0 <= n <= m.slots.entries@.len(),
    ensures
        t.slots_installed(m.id, map_as_spelled(m).slots.take(n)) == Ok::<TreeV, DecodeError>(
            with_slots(t, m, n),
        ),
    decreases n,
{
    let e = m.slots.entries@;
    let ds = map_as_spelled(m).slots;
    if n == 0 {
        assert(slots_view(seq_map::<Vec<u8>, Slot>(e.take(0))) =~= Map::empty());
        assert(with_slots(t, m, 0).maps =~= t.maps);
    } else {
        let i = n - 1;
        lemma_slots_install(t, m, i);
        rt_map(m, Seq::empty());
        lemma_entry::<Vec<u8>, Slot>(e, i);
        lemma_take::<Vec<u8>, Slot>(e, i);
        assert(ds.take(n).drop_last() =~= ds.take(i));
        assert(ds.take(n).last() == ds[i]);
        assert(ds[i] == as_spelled(e[i].0@, e[i].1@) && installed(ds[i]) == e[i].1@);
        let key = e[i].0@;
        assert(m@.slots.dom().contains(key));
        assert(m@.slots[key] == e[i].1@);
        let u = with_slots(t, m, i);
        assert(t.slot_resolves(m@.slots[key]));
        assert(u.maps.dom() =~= t.maps.dom());
        assert(u.slot_resolves(m@.slots[key]));
        let a = seq_map::<Vec<u8>, Slot>(e.take(i));
        assert(slots_view(a.insert(key, e[i].1)) =~= slots_view(a).insert(key, e[i].1@));
        assert(u.with_slot(m.id, key, e[i].1@).maps =~= with_slots(t, m, n).maps);
    }
}

/// The tree with the first `n` of some maps whole.
spec fn with_maps(t: TreeV, s: Seq<(ElementId, LwwMap)>, n: int) -> TreeV {
    TreeV {
        maps: t.maps.union_prefer_right(
            read_map(s.take(n), |m: LwwMap| MapV { displaced: false, ..m@ }),
        ),
        ..t
    }
}

proof fn lemma_maps_install(r: Registry<LwwMap>, t: TreeV, n: int)
    requires
        r.wf(),
        forall|i: int|
            0 <= i < r.table.entries@.len() ==> map_fits(
                (#[trigger] r.table.entries@[i]).1.slots.entries@,
            ),
        forall|x: ElementId| #[trigger] r@.dom().contains(x) ==> slots_carried(r@[x]),
        t.maps == r@.map_values(|m: MapV| empty_map(m.id)),
        forall|x: ElementId, k: Seq<u8>|
            r@.dom().contains(x) && #[trigger] r@[x].slots.dom().contains(k) ==> t.slot_resolves(
                r@[x].slots[k],
            ),
        0 <= n <= r.table.entries@.len(),
    ensures
        t.maps_installed(maps_as_spelled(r.table.entries@).take(n)) == Ok::<TreeV, DecodeError>(
            with_maps(t, r.table.entries@, n),
        ),
    decreases n,
{
    let s = r.table.entries@;
    let ds = maps_as_spelled(s);
    let f = |m: LwwMap| MapV { displaced: false, ..m@ };
    if n == 0 {
        assert(read_map(s.take(0), f) =~= Map::empty());
        assert(with_maps(t, s, 0).maps =~= t.maps);
    } else {
        let i = n - 1;
        lemma_maps_install(r, t, i);
        lemma_entry::<ElementId, LwwMap>(s, i);
        lemma_take::<ElementId, LwwMap>(s, i);
        assert(ds.take(n).drop_last() =~= ds.take(i));
        assert(ds.take(n).last() == map_as_spelled(s[i].1));
        let id = s[i].0;
        let m = s[i].1;
        assert(r@.dom().contains(id) && r@[id] == m@);
        let u = with_maps(t, s, i);
        assert(u.maps.dom() =~= t.maps.dom()) by {
            assert forall|x: ElementId| #[trigger] read_map(s.take(i), f).dom().contains(x) implies
                t.maps.dom().contains(x) by {
                let j = choose|j: int| 0 <= j < i && (#[trigger] s.take(i)[j]).0@ == x;
                assert(s[j] == s.take(i)[j]);
                lemma_entry::<ElementId, LwwMap>(s, j);
            }
        }
        assert(u.maps[id] == t.maps[id]);
        assert(t.maps[id] == empty_map(m.id));
        assert forall|k: Seq<u8>| #[trigger] m@.slots.dom().contains(k) implies u.slot_resolves(
            m@.slots[k],
        ) by {
            assert(r@[id].slots.dom().contains(k));
            assert(t.slot_resolves(r@[id].slots[k]));
        }
        let all = m.slots.entries@;
        lemma_slots_install(u, m, all.len() as int);
        assert(all.take(all.len() as int) =~= all);
        let spelled = map_as_spelled(m).slots;
        assert(spelled.take(all.len() as int) =~= spelled);
        let a = read_map(s.take(i), f);
        assert(read_map(s.take(n), f) =~= a.insert(id, f(m)));
        assert(with_slots(u, m, all.len() as int).maps =~= with_maps(t, s, n).maps);
    }
}

// --- moves ---

proof fn lemma_moves(t: Table<Stamp, MoveEdge>, l: LoadV, rest: Seq<u8>)
    requires
        t.wf(),
        fits_u32(t.entries@.len()),
        forall|x: Stamp| #[trigger] t@.dom().contains(x) ==> x.offset == 0,
        l.log == Seq::<(Stamp, MoveEdge)>::empty(),
    ensures
        parse_section(Section::Moves, l, section(t.entries@, move_enc()) + rest) == Ok::<
            (LoadV, Seq<u8>),
            DecodeError,
        >((LoadV { log: t.entries@, ..l }, rest)),
{
    let s = t.entries@;
    let accs = Seq::new(s.len() + 1, |i: int| LoadV { log: s.take(i), ..l });
    assert forall|i: int, r: Seq<u8>| 0 <= i < s.len() implies #[trigger] parse_record(
        Section::Moves,
        accs[i],
        move_enc()(s[i]) + r,
    ) == Ok::<(LoadV, Seq<u8>), DecodeError>((accs[i + 1], r)) by {
        lemma_entry::<Stamp, MoveEdge>(s, i);
        let (x, e) = s[i];
        assert(t@.dom().contains(x));
        let a = enc_stamp(x);
        let b = e.child.bytes();
        let c = e.parent.bytes();
        lemma_concat_assoc(a + b, c, r);
        lemma_concat_assoc(a, b, c + r);
        rt_stamp(x, b + (c + r));
        rt_element_id(e.child, c + r);
        rt_element_id(e.parent, r);
        assert(s.take(i + 1) =~= s.take(i).push(s[i]));
    }
    lemma_section_reads_back(Section::Moves, s, move_enc(), accs, rest);
    assert(s.take(0) =~= Seq::empty());
    assert(s.take(s.len() as int) =~= s);
    assert(accs[0] == l);
}

/// A table's entries are its map's in key order.
proof fn lemma_log_in_order(t: Table<Stamp, MoveEdge>)
    requires
        t.wf(),
    ensures
        t.entries@ == ordered::<Stamp>(t@.dom()).map_values(|x: Stamp| (x, t@[x])),
{
    let s = t.entries@;
    lemma_ordered::<Stamp, MoveEdge>(s);
    let q = ordered::<Stamp>(t@.dom()).map_values(|x: Stamp| (x, t@[x]));
    assert(q.len() == seq_keys(s).len());
    assert forall|i: int| 0 <= i < s.len() implies #[trigger] s[i] == q[i] by {
        lemma_entry::<Stamp, MoveEdge>(s, i);
        assert(seq_keys(s)[i] == s[i].0);
    }
    assert(s =~= q);
}

// --- placements ---

/// Which entries are spelled out, and in which order.
pub(crate) proof fn lemma_spelled(t: TreeV, s: Seq<(ElementId, Places)>)
    requires
        sorted(s),
    ensures
        forall|i: int|
            0 <= i < spelled_places(t, s).len() ==> is_spelled_entry(
                t,
                s,
                #[trigger] spelled_places(t, s)[i],
            ),
        forall|j: int|
            0 <= j < s.len() && is_spelled(t, (#[trigger] s[j]).1@) ==> spelled_places(
                t,
                s,
            ).contains((s[j].0, s[j].1@)),
        forall|i: int, k: int|
            0 <= i < k < spelled_places(t, s).len() ==> ElementId::before(
                (#[trigger] spelled_places(t, s)[i]).0,
                (#[trigger] spelled_places(t, s)[k]).0,
            ),
    decreases s.len(),
{
    let q = spelled_places(t, s);
    if s.len() > 0 {
        let u = s.drop_last();
        let p = spelled_places(t, u);
        crate::table::lemma_drop_last::<ElementId, Places>(s);
        lemma_spelled(t, u);
        let n = s.len() - 1;
        let e = (s[n].0, s[n].1@);
        assert forall|i: int| 0 <= i < q.len() implies is_spelled_entry(t, s, #[trigger] q[i]) by {
            if i < p.len() {
                assert(q[i] == p[i]);
                let j = choose|j: int|
                    0 <= j < u.len() && p[i] == ((#[trigger] u[j]).0, u[j].1@);
                assert(s[j] == u[j]);
            } else {
                assert(q[i] == (s[n].0, s[n].1@));
            }
        }
        assert forall|j: int| 0 <= j < s.len() && is_spelled(t, (#[trigger] s[j]).1@) implies
            q.contains((s[j].0, s[j].1@)) by {
            if j < n {
                assert(u[j] == s[j]);
                let i = p.index_of((u[j].0, u[j].1@));
                assert(q[i] == p[i]);
            } else {
                assert(q.last() == e);
                assert(q[q.len() - 1] == e);
            }
        }
        assert forall|i: int, k: int| 0 <= i < k < q.len() implies ElementId::before(
            (#[trigger] q[i]).0,
            (#[trigger] q[k]).0,
        ) by {
            assert(q[i] == p[i]);
            if k < p.len() {
                assert(q[k] == p[k]);
            } else {
                assert(q[k] == e);
                let j = choose|j: int|
                    0 <= j < u.len() && p[i] == ((#[trigger] u[j]).0, u[j].1@);
                assert(s[j] == u[j]);
                assert(ElementId::before(s[j].0@, s[n].0@));
            }
        }
    }
}

pub open spec fn is_spelled_entry(
    t: TreeV,
    s: Seq<(ElementId, Places)>,
    e: (ElementId, Seq<Placement>),
) -> bool {
    is_spelled(t, e.1) && exists|j: int| 0 <= j < s.len() && e == ((#[trigger] s[j]).0, s[j].1@)
}

/// A node's placements read into an index that has none of them.
proof fn rt_places(
    node: ElementId,
    index: Map<Placement, ElementId>,
    q: Seq<Placement>,
    rest: Seq<u8>,
)
    requires
        rises::<Placement>(q),
        forall|i: int|
            0 <= i < q.len() ==> (#[trigger] q[i]).stamp.offset == 0 && !index.dom().contains(q[i]),
    ensures
        parse_fold(
            enc_many(q, placement_enc()) + rest,
            q.len(),
            PlacesV { index, places: Seq::empty() },
            place_step(node),
        ) == Ok::<(PlacesV, Seq<u8>), DecodeError>(
            (
                PlacesV {
                    index: index.union_prefer_right(
                        Map::new(|p: Placement| q.contains(p), |p: Placement| node),
                    ),
                    places: q,
                },
                rest,
            ),
        ),
{
    let accs = Seq::new(
        q.len() + 1,
        |i: int|
            PlacesV {
                index: index.union_prefer_right(
                    Map::new(|p: Placement| q.take(i).contains(p), |p: Placement| node),
                ),
                places: q.take(i),
            },
    );
    assert forall|i: int, r: Seq<u8>| 0 <= i < q.len() implies #[trigger] place_step(node)(
        accs[i],
        placement_enc()(q[i]) + r,
    ) == Ok::<(PlacesV, Seq<u8>), DecodeError>((accs[i + 1], r)) by {
        let p = q[i];
        lemma_concat_assoc(p.list.bytes(), enc_stamp(p.stamp), r);
        rt_element_id(p.list, enc_stamp(p.stamp) + r);
        rt_stamp(p.stamp, r);
        assert(!q.take(i).contains(p)) by {
            if q.take(i).contains(p) {
                let j = q.take(i).index_of(p);
                assert(q[j] == p);
                assert(Placement::before(q[j], q[i]));
            }
        }
        assert(!accs[i].index.dom().contains(p));
        assert(q.take(i + 1) =~= q.take(i).push(p));
        assert(accs[i].index.insert(p, node) =~= accs[i + 1].index) by {
            assert forall|x: Placement| #[trigger] q.take(i + 1).contains(x) <==> q.take(
                i,
            ).contains(x) || x == p by {
                lemma_push_contains(q.take(i), p, x);
            }
        }
    }
    lemma_fold_reads_back(q, placement_enc(), accs, place_step(node), rest);
    assert(accs[0].index =~= index);
    assert(accs[0].places =~= Seq::empty());
    assert(q.take(q.len() as int) =~= q);
}

proof fn lemma_push_contains<A>(s: Seq<A>, a: A, x: A)
    ensures
        s.push(a).contains(x) <==> s.contains(x) || x == a,
{
    if s.contains(x) {
        let i = s.index_of(x);
        assert(s.push(a)[i] == x);
    }
    if x == a {
        assert(s.push(a)[s.len() as int] == x);
    }
    if s.push(a).contains(x) && x != a {
        let i = s.push(a).index_of(x);
        assert(s[i] == x);
    }
}

/// Whether one of the first `n` spelled nodes is this one.
spec fn spelled_before(q: Seq<(ElementId, Seq<Placement>)>, n: int, node: ElementId) -> bool {
    exists|i: int| 0 <= i < n && (#[trigger] q[i]).0 == node
}

/// The load with the placements of the first `n` spelled nodes.
spec fn placed_upto(t: TreeV, q: Seq<(ElementId, Seq<Placement>)>, l: LoadV, n: int) -> LoadV {
    let places = t.written_places();
    let index = t.written_index();
    l.with_tree(
        TreeV {
            placements: Map::new(
                |x: ElementId| places.dom().contains(x) && spelled_before(q, n, x),
                |x: ElementId| places[x],
            ),
            placement_index: Map::new(
                |p: Placement| index.dom().contains(p) && spelled_before(q, n, index[p]),
                |p: Placement| index[p],
            ),
            ..l.tree
        },
    )
}

/// The next spelled node's record.
proof fn lemma_placed_step(
    t: TreeV,
    q: Seq<(ElementId, Seq<Placement>)>,
    l: LoadV,
    i: int,
    rest: Seq<u8>,
)
    requires
        0 <= i < q.len(),
        forall|j: int, k: int|
            0 <= j < k < q.len() ==> ElementId::before((#[trigger] q[j]).0, (#[trigger] q[k]).0),
        t.placements.dom().contains(q[i].0),
        t.placements[q[i].0] == q[i].1,
        is_spelled(t, q[i].1),
        t.places_apart(),
        forall|n: ElementId, p: Placement| #[trigger] t.spells(n, p) ==> p.stamp.offset == 0,
        fits_u32(ordered::<Placement>(q[i].1.to_set()).len()),
    ensures
        parse_placement_record(placed_upto(t, q, l, i), enc_placed(q[i].0, q[i].1) + rest) == Ok::<
            (LoadV, Seq<u8>),
            DecodeError,
        >((placed_upto(t, q, l, i + 1), rest)),
{
    let (node, ps) = q[i];
    let o = ordered::<Placement>(ps.to_set());
    lemma_ordered_exists::<Placement>(ps.to_set());
    let a = enc_u32(o.len() as u32);
    let b = enc_many(o, placement_enc());
    lemma_concat_assoc(node.bytes() + a, b, rest);
    lemma_concat_assoc(node.bytes(), a, b + rest);
    rt_element_id(node, a + (b + rest));
    rt_u32(o.len() as u32, b + rest);
    let before = placed_upto(t, q, l, i).tree;
    let after = placed_upto(t, q, l, i + 1).tree;
    assert forall|p: Placement| #[trigger] o.contains(p) <==> t.spells(node, p) by {
        assert(o.contains(p) <==> o.to_set().contains(p));
        assert(ps.contains(p) <==> ps.to_set().contains(p));
    }
    assert(!spelled_before(q, i, node));
    assert forall|p: Placement| #[trigger] t.spells(node, p) implies t.written_index()[p]
        == node by {
        let n = t.written_index()[p];
        assert(t.spells(n, p));
    }
    assert forall|x: ElementId| #[trigger] spelled_before(q, i + 1, x) <==> spelled_before(q, i, x)
        || x == node by {
        if spelled_before(q, i, x) {
            let j = choose|j: int| 0 <= j < i && (#[trigger] q[j]).0 == x;
            assert(0 <= j < i + 1 && q[j].0 == x);
        }
        if x == node {
            assert(q[i].0 == x);
        }
    }
    assert forall|j: int| 0 <= j < o.len() implies (#[trigger] o[j]).stamp.offset == 0
        && !before.placement_index.dom().contains(o[j]) by {
        assert(o.contains(o[j]));
        assert(t.spells(node, o[j]));
    }
    rt_places(node, before.placement_index, o, rest);
    let index = before.placement_index.union_prefer_right(
        Map::new(|p: Placement| o.contains(p), |p: Placement| node),
    );
    assert(index =~= after.placement_index) by {
        assert forall|p: Placement| #[trigger] index.dom().contains(p)
            <==> after.placement_index.dom().contains(p) by {
            if o.contains(p) {
                assert(t.spells(node, p));
                assert(t.written_index().dom().contains(p));
            }
            if after.placement_index.dom().contains(p) && t.written_index()[p] == node {
                let n = choose|n: ElementId| #[trigger] t.spells(n, p);
                assert(t.spells(node, p));
            }
        }
        assert forall|p: Placement| #[trigger] index.dom().contains(p) implies index[p]
            == after.placement_index[p] by {
            if o.contains(p) {
                assert(t.spells(node, p));
            }
        }
    }
    assert(before.placements.insert(node, o) =~= after.placements);
}

proof fn lemma_placements(t: Tree, l: LoadV, rest: Seq<u8>)
    requires
        t.placements.wf(),
        fits_u32(t.placements.table.entries@.len()),
        forall|i: int|
            0 <= i < t.placements.table.entries@.len() ==> fits_u32(
                ordered::<Placement>((#[trigger] t.placements.table.entries@[i]).1@.to_set()).len(),
            ),
        t@.places_apart(),
        forall|n: ElementId, p: Placement| #[trigger] t@.spells(n, p) ==> p.stamp.offset == 0,
        l.tree.placements == Map::<ElementId, Seq<Placement>>::empty(),
        l.tree.placement_index == Map::<Placement, ElementId>::empty(),
    ensures
        parse_section(
            Section::Placements,
            l,
            section(spelled_places(t@, t.placements.table.entries@), placed_enc()) + rest,
        ) == Ok::<(LoadV, Seq<u8>), DecodeError>(
            (
                l.with_tree(
                    TreeV {
                        placements: t@.written_places(),
                        placement_index: t@.written_index(),
                        ..l.tree
                    },
                ),
                rest,
            ),
        ),
{
    let s = t.placements.table.entries@;
    let q = spelled_places(t@, s);
    lemma_spelled(t@, s);
    lemma_fewer_spelled(t@, s);
    let accs = Seq::new(q.len() + 1, |i: int| placed_upto(t@, q, l, i));
    assert forall|i: int, r: Seq<u8>| 0 <= i < q.len() implies #[trigger] parse_record(
        Section::Placements,
        accs[i],
        placed_enc()(q[i]) + r,
    ) == Ok::<(LoadV, Seq<u8>), DecodeError>((accs[i + 1], r)) by {
        assert(is_spelled_entry(t@, s, q[i]));
        let j = choose|j: int| 0 <= j < s.len() && q[i] == ((#[trigger] s[j]).0, s[j].1@);
        lemma_entry::<ElementId, Places>(s, j);
        assert(t@.placements.dom().contains(s[j].0) && t@.placements[s[j].0] == s[j].1@);
        lemma_placed_step(t@, q, l, i, r);
    }
    lemma_section_reads_back(Section::Placements, q, placed_enc(), accs, rest);
    let first = placed_upto(t@, q, l, 0).tree;
    assert(first.placements =~= Map::empty());
    assert(first.placement_index =~= Map::empty());
    assert(accs[0] == l);
    let last = placed_upto(t@, q, l, q.len() as int).tree;
    assert forall|n: ElementId| t@.placements.dom().contains(n) && is_spelled(
        t@,
        t@.placements[n],
    ) implies #[trigger] spelled_before(q, q.len() as int, n) by {
        assert(t.placements.table@.dom().contains(n));
        let j = crate::table::index_of::<ElementId, Places>(s, n);
        assert(s[j].0@ == n);
        lemma_entry::<ElementId, Places>(s, j);
        assert(q.contains((s[j].0, s[j].1@)));
        let i = q.index_of((s[j].0, s[j].1@));
        assert(q[i].0 == n);
    }
    assert(last.placements =~= t@.written_places());
    assert(last.placement_index =~= t@.written_index()) by {
        assert forall|p: Placement| #[trigger] t@.written_index().dom().contains(p) implies
            spelled_before(q, q.len() as int, t@.written_index()[p]) by {
            let n = t@.written_index()[p];
            assert(t@.spells(n, p));
        }
    }
}

proof fn lemma_fewer_spelled(t: TreeV, s: Seq<(ElementId, Places)>)
    ensures
        spelled_places(t, s).len() <= s.len(),
    decreases s.len(),
{
    if s.len() > 0 {
        lemma_fewer_spelled(t, s.drop_last());
    }
}

// --- all the sections ---

/// The tree with another's containers registered in it, the maps still empty.
spec fn registered(t: TreeV, u: TreeV) -> TreeV {
    TreeV {
        counters: t.written().counters,
        lists: t.written().lists,
        texts: t.written().texts,
        maps: t.maps.map_values(|m: MapV| empty_map(m.id)),
        xml_elements: t.written().xml_elements,
        xml_fragments: t.written().xml_fragments,
        ..u
    }
}

/// The six sections that hold the containers.
spec fn parse_registries(l: LoadV, s: Seq<u8>) -> Parsed<LoadV> {
    let b = and_section(parse_section(Section::Counters, l, s), Section::Lists);
    let c = and_section(and_section(b, Section::Texts), Section::Maps);
    and_section(and_section(c, Section::XmlElements), Section::XmlFragments)
}

proof fn lemma_registries(t: Tree, l: LoadV, rest: Seq<u8>)
    requires
        t.sound(),
        registries_fit(t),
        t@.carried(),
        t@.nodes_whole(),
        l.tree == (TreeV { high_water: l.tree.high_water, ..TreeV::bare() }),
        l.decoded == Seq::<DecodedMapV>::empty(),
    ensures
        parse_registries(l, enc_registries(t) + rest) == Ok::<(LoadV, Seq<u8>), DecodeError>(
            (
                LoadV {
                    tree: registered(t@, l.tree),
                    decoded: maps_as_spelled(t.maps.table.entries@),
                    ..l
                },
                rest,
            ),
        ),
{
    let a = section(t.counters.table.entries@, counter_enc());
    let b = section(t.lists.table.entries@, list_enc());
    let c = section(t.texts.table.entries@, text_enc());
    let d = section(t.maps.table.entries@, map_enc());
    let e = section(t.xml_elements.table.entries@, xml_element_enc());
    let f = section(t.xml_fragments.table.entries@, xml_fragment_enc());
    let r5 = f + rest;
    let r4 = e + r5;
    let r3 = d + r4;
    let r2 = c + r3;
    let r1 = b + r2;
    lemma_concat_assoc(a + b + c + d + e, f, rest);
    lemma_concat_assoc(a + b + c + d, e, r5);
    lemma_concat_assoc(a + b + c, d, r4);
    lemma_concat_assoc(a + b, c, r3);
    lemma_concat_assoc(a, b, r2);
    let w = t@.written();
    lemma_counters(t.counters, l, r1);
    let l1 = l.with_tree(TreeV { counters: w.counters, ..l.tree });
    lemma_lists(t.lists, l1, r2);
    let l2 = l1.with_tree(TreeV { lists: w.lists, ..l1.tree });
    lemma_texts(t.texts, l2, r3);
    let l3 = l2.with_tree(TreeV { texts: w.texts, ..l2.tree });
    assert forall|x: ElementId| #[trigger] t.maps@.dom().contains(x) implies slots_carried(
        t.maps@[x],
    ) by {
        assert(t@.maps.dom().contains(x));
        assert forall|k: Seq<u8>| #[trigger] t.maps@[x].slots.dom().contains(k) implies slot_carried(
            t.maps@[x].slots[k],
        ) by {
            assert(t@.maps[x].slots.dom().contains(k));
        }
    }
    lemma_maps(t.maps, l3, r4);
    let l4 = LoadV {
        tree: TreeV { maps: t@.maps.map_values(|m: MapV| empty_map(m.id)), ..l3.tree },
        decoded: maps_as_spelled(t.maps.table.entries@),
        ..l3
    };
    assert(l4.tree.maps.dom() =~= t@.maps.dom());
    assert(l4.tree.lists.dom() =~= t@.lists.dom());
    assert forall|x: ElementId| #[trigger] t.xml_elements@.dom().contains(x) implies
        l4.tree.maps.dom().contains(node_attrs_id(x)) && l4.tree.lists.dom().contains(
        node_children_id(x),
    ) by {
        assert(t@.xml_elements.dom().contains(x));
    }
    lemma_xml_elements(t.xml_elements, l4, r5);
    let l5 = l4.with_tree(TreeV { xml_elements: w.xml_elements, ..l4.tree });
    assert forall|x: ElementId| #[trigger] t.xml_fragments@.dom().contains(x) implies
        l5.tree.lists.dom().contains(node_children_id(x)) by {
        assert(t@.xml_fragments.dom().contains(x));
    }
    lemma_xml_fragments(t.xml_fragments, l5, rest);
}

/// The four sections that hold the moves, the placements, the annotations and the grants.
spec fn parse_relations(l: LoadV, s: Seq<u8>) -> Parsed<LoadV> {
    let a = and_section(parse_section(Section::Moves, l, s), Section::Placements);
    and_section(and_section(a, Section::Ranged), Section::Acl)
}

/// The bytes of those four.
spec fn enc_four(t: Tree) -> Seq<u8> {
    section(t.moves.log.entries@, move_enc()) + section(
        spelled_places(t@, t.placements.table.entries@),
        placed_enc(),
    ) + section(t.ranged.table.entries@, ranged_enc()) + section(t.acl.table.entries@, acl_enc())
}

proof fn lemma_relations(t: Tree, l: LoadV, rest: Seq<u8>)
    requires
        t.sound(),
        relations_fit(t),
        t@.carried(),
        t@.places_apart(),
        l.tree == registered(t@, TreeV { high_water: l.tree.high_water, ..TreeV::bare() }),
        l.log == Seq::<(Stamp, MoveEdge)>::empty(),
    ensures
        parse_relations(l, enc_four(t) + rest) == Ok::<(LoadV, Seq<u8>), DecodeError>(
            (
                LoadV {
                    tree: TreeV {
                        placements: t@.written_places(),
                        placement_index: t@.written_index(),
                        ranged: t@.ranged,
                        acl: t@.acl,
                        ..l.tree
                    },
                    log: t@.move_log(),
                    ..l
                },
                rest,
            ),
        ),
{
    let a = section(t.moves.log.entries@, move_enc());
    let b = section(spelled_places(t@, t.placements.table.entries@), placed_enc());
    let c = section(t.ranged.table.entries@, ranged_enc());
    let d = section(t.acl.table.entries@, acl_enc());
    let r3 = d + rest;
    let r2 = c + r3;
    let r1 = b + r2;
    lemma_concat_assoc(a + b + c, d, rest);
    lemma_concat_assoc(a + b, c, r3);
    lemma_concat_assoc(a, b, r2);
    assert forall|x: Stamp| #[trigger] t.moves.log@.dom().contains(x) implies x.offset == 0 by {
        assert(t@.moves.log.dom().contains(x));
    }
    lemma_moves(t.moves.log, l, r1);
    lemma_log_in_order(t.moves.log);
    assert(t.moves.log.entries@ == t@.move_log());
    let l1 = LoadV { log: t@.move_log(), ..l };
    lemma_placements(t, l1, r2);
    let l2 = l1.with_tree(
        TreeV {
            placements: t@.written_places(),
            placement_index: t@.written_index(),
            ..l1.tree
        },
    );
    assert(l2.tree.maps.dom() =~= t@.maps.dom());
    assert(l2.tree.lists.dom() =~= t@.lists.dom());
    assert(l2.tree.texts.dom() =~= t@.texts.dom());
    assert forall|x: ElementId| #[trigger] t.ranged@.dom().contains(x) implies
        l2.tree.ranged_carried(x, t.ranged@[x]) by {
        assert(t@.ranged.dom().contains(x));
    }
    lemma_ranged(t.ranged, l2, r3);
    let l3 = l2.with_tree(TreeV { ranged: t@.ranged, ..l2.tree });
    lemma_acl(t.acl, l3, rest);
}

/// Handles resolve in the tree with the containers registered where they did before.
proof fn lemma_has_element(t: TreeV, u: TreeV, e: ElementV)
    requires
        u.counters.dom() == t.counters.dom(),
        u.maps.dom() == t.maps.dom(),
        u.lists.dom() == t.lists.dom(),
        u.texts.dom() == t.texts.dom(),
        u.xml_elements.dom() == t.xml_elements.dom(),
        u.xml_fragments.dom() == t.xml_fragments.dom(),
    ensures
        u.has_element(e) == t.has_element(e),
{
}

/// The read slots go in, and every handle is good.
proof fn lemma_handles(t: Tree, l: LoadV, rest: Seq<u8>)
    requires
        t.sound(),
        registries_fit(t),
        t@.carried(),
        t@.handles_resolve(),
        l.tree == registered(t@, l.tree),
        l.decoded == maps_as_spelled(t.maps.table.entries@),
    ensures
        resolved_load(Ok((l, rest))) == Ok::<(LoadV, Seq<u8>), DecodeError>(
            (l.with_tree(TreeV { maps: t@.written().maps, ..l.tree }), rest),
        ),
{
    let u = l.tree;
    let s = t.maps.table.entries@;
    assert(u.counters.dom() =~= t@.counters.dom());
    assert(u.maps.dom() =~= t@.maps.dom());
    assert(u.lists.dom() =~= t@.lists.dom());
    assert(u.texts.dom() =~= t@.texts.dom());
    assert(u.xml_elements.dom() =~= t@.xml_elements.dom());
    assert(u.xml_fragments.dom() =~= t@.xml_fragments.dom());
    assert forall|x: ElementId| #[trigger] t.maps@.dom().contains(x) implies slots_carried(
        t.maps@[x],
    ) by {
        assert(t@.maps.dom().contains(x));
        assert forall|k: Seq<u8>| #[trigger] t.maps@[x].slots.dom().contains(k) implies slot_carried(
            t.maps@[x].slots[k],
        ) by {
            assert(t@.maps[x].slots.dom().contains(k));
        }
    }
    assert forall|x: ElementId, k: Seq<u8>|
        t.maps@.dom().contains(x) && #[trigger] t.maps@[x].slots.dom().contains(
            k,
        ) implies u.slot_resolves(t.maps@[x].slots[k]) by {
        assert(t@.maps[x].slots.dom().contains(k));
        assert(t@.slot_resolves(t@.maps[x].slots[k]));
        if let Some(e) = t@.maps[x].slots[k].value {
            lemma_has_element(t@, u, e);
        }
    }
    lemma_maps_install(t.maps, u, s.len() as int);
    let ds = maps_as_spelled(s);
    assert(ds.take(s.len() as int) =~= ds);
    assert(s.take(s.len() as int) =~= s);
    let v = with_maps(u, s, s.len() as int);
    assert(v.maps =~= t@.written().maps);
    assert(v.maps.dom() =~= t@.maps.dom());
    assert forall|x: ElementId, id: Stamp|
        v.lists.dom().contains(x) && #[trigger] v.lists[x].items.dom().contains(
            id,
        ) implies v.has_element(v.lists[x].items[id].value) by {
        assert(t@.lists.dom().contains(x));
        assert(t@.lists[x].items.dom().contains(id));
        assert(v.lists[x].items[id].value == t@.lists[x].items[id].value);
        lemma_has_element(t@, v, t@.lists[x].items[id].value);
    }
    assert(v.items_resolve());
}

// --- the ops that wait ---

/// Some ops by id, framed, are those ops framed.
proof fn lemma_framed(ops: Seq<OpV>, ids: Seq<OpId>)
    ensures
        enc_many(ids, framed_enc(ops)) == enc_ops(
            ids.map_values(|id: OpId| op_at(ops, id)->Some_0),
        ),
    decreases ids.len(),
{
    let q = ids.map_values(|id: OpId| op_at(ops, id)->Some_0);
    if ids.len() > 0 {
        lemma_framed(ops, ids.skip(1));
        assert(q.skip(1) =~= ids.skip(1).map_values(|id: OpId| op_at(ops, id)->Some_0));
    }
}

/// An op found by its id is one of the ops.
pub(crate) proof fn lemma_op_at(ops: Seq<OpV>, id: OpId)
    requires
        holds_op(ops, id),
    ensures
        op_at(ops, id) matches Some(op) && op.id == id && ops.contains(op),
    decreases ops.len(),
{
    let t = ops.skip(1);
    if ops[0].id == id {
        assert(ops.contains(ops[0]));
    } else {
        let i = choose|i: int| 0 <= i < ops.len() && (#[trigger] ops[i]).id == id;
        assert(t[i - 1].id == id);
        lemma_op_at(t, id);
        let op = op_at(t, id)->Some_0;
        let j = t.index_of(op);
        assert(ops[j + 1] == op);
    }
}

/// The ids that some ops have are finitely many.
pub(crate) proof fn lemma_held_finite(ops: Seq<OpV>)
    ensures
        held_ids(ops).finite(),
{
    let q = ops.map_values(|op: OpV| op.id);
    assert(held_ids(ops) =~= q.to_set()) by {
        assert forall|id: OpId| held_ids(ops).contains(id) <==> q.to_set().contains(id) by {
            if holds_op(ops, id) {
                let i = choose|i: int| 0 <= i < ops.len() && (#[trigger] ops[i]).id == id;
                assert(q[i] == id);
            }
            if q.contains(id) {
                let i = q.index_of(id);
                assert(ops[i].id == id);
            }
        }
    }
    vstd::seq_lib::seq_to_set_is_finite(q);
}

/// The waiting ops read back, each once, in order of author and sequence number.
proof fn lemma_held(ops: Seq<OpV>, rest: Seq<u8>)
    requires
        fits_u32(enc_held(ops).len()),
        forall|i: int|
            0 <= i < ops.len() ==> op_fits(#[trigger] ops[i]) && fits_u32(enc_op(ops[i]).len())
                && op_carried(ops[i]),
    ensures
        parse_held(enc_bytes(enc_held(ops)) + rest) == Ok::<(Seq<OpV>, Seq<u8>), DecodeError>(
            (held_in_order(ops), rest),
        ),
{
    let ids = ordered::<OpId>(held_ids(ops));
    let q = held_in_order(ops);
    lemma_held_finite(ops);
    lemma_ordered_exists::<OpId>(held_ids(ops));
    lemma_framed(ops, ids);
    assert forall|i: int| 0 <= i < q.len() implies op_fits(#[trigger] q[i]) && fits_u32(
        enc_op(q[i]).len(),
    ) && op_carried(q[i]) by {
        assert(ids.to_set().contains(ids[i]));
        lemma_op_at(ops, ids[i]);
        let j = ops.index_of(q[i]);
        assert(ops[j] == q[i]);
    }
    law_op_log_round_trip(q);
    let b = enc_held(ops);
    reveal(enc_bytes);
    let n = enc_u32(b.len() as u32);
    lemma_concat_assoc(n, b, rest);
    rt_u32(b.len() as u32, b + rest);
    rt_take(b, rest, b.len());
}

// --- laws ---

/// The bytes between a snapshot's head and what follows its sections.
spec fn enc_body(d: Document, rest: Seq<u8>) -> Seq<u8> {
    section(d.zone_clocks.entries@, zone_enc()) + (section(
        d.tree.high_water.entries@,
        water_enc(),
    ) + (enc_registries(d.tree) + (enc_relations(d.tree) + (section(d.seen.entries@, op_id_enc())
        + (section(d.resolved_tx.entries@, group_enc()) + rest)))))
}

/// The bytes of a snapshot, part after part.
proof fn lemma_in_turn(d: Document, rest: Seq<u8>)
    ensures
        enc_state(d) + rest == enc_u8(STATE_VERSION) + (d.client.bytes() + (enc_u64(d.lamport) + (
        enc_u64(d.seq) + enc_body(d, enc_bytes(enc_held(ops_view(d.buffer@))) + rest)))),
{
    let t = d.tree;
    let v = enc_u8(STATE_VERSION);
    let c = d.client.bytes();
    let n = enc_u64(d.lamport);
    let q = enc_u64(d.seq);
    let z = section(d.zone_clocks.entries@, zone_enc());
    let h = section(t.high_water.entries@, water_enc());
    let a = enc_registries(t);
    let b = enc_relations(t);
    let s = section(d.seen.entries@, op_id_enc());
    let g = section(d.resolved_tx.entries@, group_enc());
    let k = enc_bytes(enc_held(ops_view(d.buffer@)));
    let r5 = g + (k + rest);
    let r4 = s + r5;
    let r3 = b + r4;
    let r2 = a + r3;
    let r1 = h + r2;
    let body = z + r1;
    let x4 = v + c + n + q;
    let x5 = x4 + z;
    let x6 = x5 + h;
    let x7 = x6 + a;
    let x8 = x7 + b;
    let x9 = x8 + s;
    lemma_concat_assoc(x9 + g, k, rest);
    lemma_concat_assoc(x9, g, k + rest);
    lemma_concat_assoc(x8, s, r5);
    lemma_concat_assoc(x7, b, r4);
    lemma_concat_assoc(x6, a, r3);
    lemma_concat_assoc(x5, h, r2);
    lemma_concat_assoc(x4, z, r1);
    lemma_concat_assoc(v + c + n, q, body);
    lemma_concat_assoc(v + c, n, q + body);
    lemma_concat_assoc(v, c, n + (q + body));
}

proof fn lemma_head(d: Document, rest: Seq<u8>)
    requires
        d.lamport <= LAMPORT_STATE_CEILING,
    ensures
        parse_head(
            enc_u8(STATE_VERSION) + (d.client.bytes() + (enc_u64(d.lamport) + (enc_u64(d.seq)
                + rest))),
        ) == Ok::<(HeadV, Seq<u8>), DecodeError>((d@.head(), rest)),
{
    let n = enc_u64(d.lamport);
    let q = enc_u64(d.seq);
    rt_u8(STATE_VERSION, d.client.bytes() + (n + (q + rest)));
    rt_client(d.client, n + (q + rest));
    rt_u64(d.lamport, q + rest);
    rt_u64(d.seq, rest);
}

/// Everything but the ops that wait.
proof fn lemma_load(d: Document, rest: Seq<u8>)
    requires
        d.wf(),
        state_fits(d),
        d@.readable(),
    ensures
        parse_load(enc_body(d, rest)) matches Ok((l, r)) && r == rest && (LoadV {
            decoded: Seq::empty(),
            ..l
        }) == d@.written(),
{
    let t = d.tree;
    let z = section(d.zone_clocks.entries@, zone_enc());
    let h = section(t.high_water.entries@, water_enc());
    let p = section(t.parents.entries@, link_enc());
    let s = section(d.seen.entries@, op_id_enc());
    let g = section(d.resolved_tx.entries@, group_enc());
    let r5 = g + rest;
    let r4 = s + r5;
    let r3 = p + r4;
    let r2 = enc_four(t) + r3;
    let r1 = enc_registries(t) + r2;
    let r0 = h + r1;
    lemma_concat_assoc(enc_four(t), p, r4);
    assert(enc_relations(t) == enc_four(t) + p);
    let l0 = empty_load();
    assert forall|x: u32| #[trigger] d.zone_clocks@.dom().contains(x) implies d.zone_clocks@[x]
        <= LAMPORT_STATE_CEILING by {
        assert(d@.zone_clocks.dom().contains(x));
    }
    lemma_zone_clocks(d.zone_clocks, l0, r0);
    let l1 = LoadV { zone_clocks: d.zone_clocks@, ..l0 };
    assert forall|c: ClientId| #[trigger] t.high_water@.dom().contains(c) implies t.high_water@[c]
        <= LAMPORT_STATE_CEILING by {
        assert(t@.high_water.dom().contains(c));
    }
    lemma_high_water(t.high_water, l1, r1);
    let l2 = l1.with_tree(TreeV { high_water: t.high_water@, ..l1.tree });
    lemma_registries(t, l2, r2);
    let l3 = LoadV {
        tree: registered(t@, l2.tree),
        decoded: maps_as_spelled(t.maps.table.entries@),
        ..l2
    };
    lemma_relations(t, l3, r3);
    let l4 = LoadV {
        tree: TreeV {
            placements: t@.written_places(),
            placement_index: t@.written_index(),
            ranged: t@.ranged,
            acl: t@.acl,
            ..l3.tree
        },
        log: t@.move_log(),
        ..l3
    };
    assert(parse_contents(z + r0) == Ok::<(LoadV, Seq<u8>), DecodeError>((l4, r3)));
    lemma_handles(t, l4, r3);
    let l5 = l4.with_tree(TreeV { maps: t@.written().maps, ..l4.tree });
    lemma_parents(t.parents, l5, r4);
    let l6 = l5.with_tree(TreeV { parents: t@.parents, ..l5.tree });
    lemma_seen(d.seen, l6, r5);
    let l7 = LoadV { seen: d.seen@.dom(), ..l6 };
    lemma_resolved(d.resolved_tx, l7, rest);
    let l8 = LoadV { resolved: d.resolved_tx@.dom(), ..l7 };
    assert(parse_load(z + r0) == Ok::<(LoadV, Seq<u8>), DecodeError>((l8, rest)));
    assert(l8.tree == t@.written());
}

/// A snapshot loses nothing: its bytes read back as the replica assembled from everything
/// they spell. Every slot, item, tally, tag, annotation, grant, link, move and clock, the
/// ids of the ops applied, the groups settled and the ops that wait are in that; which
/// containers are displaced, which nodes moved away and how far the stamps reach are
/// worked out from it.
pub proof fn law_a_snapshot_reads_back(d: Document, rest: Seq<u8>)
    requires
        d.wf(),
        state_fits(d),
        d@.readable(),
    ensures
        parse_state(enc_state(d) + rest) == match assembled(
            d@.head(),
            d@.written(),
            held_in_order(d@.buffer),
        ) {
            Err(e) => Err(e),
            Ok(x) => Ok::<(DocV, Seq<u8>), DecodeError>((x, rest)),
        },
{
    let buf = ops_view(d.buffer@);
    let tail = enc_bytes(enc_held(buf)) + rest;
    lemma_in_turn(d, rest);
    lemma_head(d, enc_body(d, tail));
    lemma_load(d, tail);
    let l = parse_load(enc_body(d, tail))->Ok_0.0;
    assert forall|i: int| 0 <= i < buf.len() implies op_fits(#[trigger] buf[i]) && fits_u32(
        enc_op(buf[i]).len(),
    ) && op_carried(buf[i]) by {
        assert(buf[i] == d.buffer@[i]@);
        assert(d@.buffer[i] == buf[i]);
    }
    lemma_held(buf, rest);
    let ops = held_in_order(buf);
    lemma_same_load(d@.head(), l, d@.written(), ops);
}

/// The maps that were still to be filled say nothing of the replica assembled.
proof fn lemma_same_load(h: HeadV, a: LoadV, b: LoadV, ops: Seq<OpV>)
    requires
        (LoadV { decoded: Seq::empty(), ..a }) == b,
    ensures
        assembled(h, a, ops) == assembled(h, b, ops),
{
    assert(a.tree == b.tree && a.log == b.log && a.seen == b.seen && a.resolved == b.resolved
        && a.zone_clocks == b.zone_clocks);
}

// --- what reading back keeps ---

impl TreeV {
    /// What the containers hold, with the annotations and the grants.
    pub open spec fn contents(self) -> TreeV {
        TreeV {
            maps: self.written().maps,
            lists: self.written().lists,
            texts: self.written().texts,
            counters: self.written().counters,
            xml_elements: self.written().xml_elements,
            xml_fragments: self.written().xml_fragments,
            ranged: self.ranged,
            acl: self.acl,
            ..TreeV::bare()
        }
    }
}

/// Whether two states hold the same registries, annotations and grants.
pub open spec fn same_stores(a: TreeV, b: TreeV) -> bool {
    &&& a.maps == b.maps
    &&& a.lists == b.lists
    &&& a.texts == b.texts
    &&& a.counters == b.counters
    &&& a.xml_elements == b.xml_elements
    &&& a.xml_fragments == b.xml_fragments
    &&& a.ranged == b.ranged
    &&& a.acl == b.acl
}

proof fn lemma_flags_keep(t: TreeV)
    ensures
        t.with_flags().contents() == t.contents(),
{
    let u = t.with_flags();
    assert(u.contents().maps =~= t.contents().maps);
    assert(u.contents().lists =~= t.contents().lists);
    assert(u.contents().texts =~= t.contents().texts);
    assert(u.contents().counters =~= t.contents().counters);
    assert(u.contents().xml_elements =~= t.contents().xml_elements);
    assert(u.contents().xml_fragments =~= t.contents().xml_fragments);
}

pub(crate) proof fn lemma_recorded_keeps(t: TreeV, ops: Seq<OpV>)
    ensures
        same_stores(t.recorded(ops), t),
    decreases ops.len(),
{
    reveal(TreeV::record);
    if ops.len() > 0 {
        lemma_recorded_keeps(t, ops.drop_last());
    }
}

proof fn lemma_births_in_keeps(t: TreeV, list: ElementId, ids: Seq<Stamp>)
    ensures
        same_stores(t.births_in(list, ids), t),
    decreases ids.len(),
{
    if ids.len() > 0 {
        lemma_births_in_keeps(t, list, ids.drop_last());
    }
}

proof fn lemma_births_over_keeps(t: TreeV, owners: Seq<ElementId>)
    ensures
        same_stores(t.births_over(owners), t),
    decreases owners.len(),
{
    if owners.len() > 0 {
        lemma_births_over_keeps(t, owners.drop_last());
        let u = t.births_over(owners.drop_last());
        let list = node_children_id(owners.last());
        lemma_births_in_keeps(u, list, ordered::<SeqKey>(u.lists[list].items.dom()));
    }
}

pub(crate) proof fn lemma_based_born_keeps(t: TreeV, nodes: Seq<ElementId>)
    ensures
        same_stores(t.based_born(nodes), t),
    decreases nodes.len(),
{
    if nodes.len() > 0 {
        lemma_based_born_keeps(t, nodes.drop_last());
    }
}

pub(crate) proof fn lemma_based_unplaced_keeps(t: TreeV, nodes: Seq<ElementId>)
    ensures
        same_stores(t.based_unplaced(nodes), t),
    decreases nodes.len(),
{
    if nodes.len() > 0 {
        lemma_based_unplaced_keeps(t, nodes.drop_last());
    }
}

pub(crate) proof fn lemma_based_nested_keeps(t: TreeV, nodes: Seq<ElementId>)
    ensures
        same_stores(t.based_nested(nodes), t),
    decreases nodes.len(),
{
    if nodes.len() > 0 {
        lemma_based_nested_keeps(t, nodes.drop_last());
    }
}

pub(crate) proof fn lemma_log_keeps(t: TreeV, log: Seq<(Stamp, MoveEdge)>)
    ensures
        same_stores(t.with_log(log), t),
    decreases log.len(),
{
    if log.len() > 0 {
        lemma_log_keeps(t, log.drop_last());
    }
}

proof fn lemma_only_keeps(
    t: TreeV,
    places: Seq<Placement>,
    list: ElementId,
    live: Option<Stamp>,
)
    ensures
        t.with_only(places, list, live).contents() == t.contents(),
    decreases places.len(),
{
    if places.len() > 0 {
        lemma_only_keeps(t, places.drop_last(), list, live);
        let u = t.with_only(places.drop_last(), list, live);
        let p = places.last();
        let away = !(p.list == list && live == Some(p.stamp));
        let v = u.with_away(p, away);
        if u.lists.dom().contains(p.list) {
            let l = u.lists[p.list];
            assert(as_written(list_set_away(l, p.stamp, away)).items =~= as_written(l).items);
        }
        assert(v.contents().lists =~= u.contents().lists);
    }
}

pub(crate) proof fn lemma_settle_keeps(t: TreeV, tree: Map<ElementId, ElementId>, nodes: Seq<ElementId>)
    ensures
        t.settle_all(tree, nodes).contents() == t.contents(),
    decreases nodes.len(),
{
    reveal(TreeV::settle);
    if nodes.len() > 0 {
        lemma_settle_keeps(t, tree, nodes.drop_last());
        let u = t.settle_all(tree, nodes.drop_last());
        let node = nodes.last();
        if tree.dom().contains(node) {
            let list = node_children_id(tree[node]);
            let places = u.placements[node];
            let live = if u.any_tombstoned(places) {
                None
            } else {
                crate::tree::latest_in(places, list)
            };
            lemma_only_keeps(u, places, list, live);
        }
    }
}

proof fn lemma_restored_keeps(t: TreeV, log: Seq<(Stamp, MoveEdge)>)
    ensures
        t.restored(log).contents() == t.contents(),
{
    reveal(TreeV::with_births);
    reveal(TreeV::reseeded);
    reveal(TreeV::with_unplaced);
    reveal(TreeV::refold);
    let elements = ordered::<ElementId>(t.xml_elements.dom());
    lemma_births_over_keeps(t, elements);
    let t1 = t.births_over(elements);
    lemma_births_over_keeps(t1, ordered::<ElementId>(t.xml_fragments.dom()));
    let t2 = t.with_births();
    assert(same_stores(t2, t));
    let b1 = t2.based_born(ordered::<ElementId>(t2.placements.dom()));
    lemma_based_born_keeps(t2, ordered::<ElementId>(t2.placements.dom()));
    let b2 = b1.based_unplaced(ordered::<ElementId>(t2.xml_elements.dom()));
    lemma_based_unplaced_keeps(b1, ordered::<ElementId>(t2.xml_elements.dom()));
    let b3 = b2.based_unplaced(ordered::<ElementId>(t2.texts.dom()));
    lemma_based_unplaced_keeps(b2, ordered::<ElementId>(t2.texts.dom()));
    lemma_based_nested_keeps(b3, ordered::<ElementId>(t2.parents.dom()));
    let t3 = t2.reseeded();
    assert(same_stores(t3, t));
    let t4 = t3.with_unplaced();
    lemma_log_keeps(t4, log);
    let t5 = t4.with_log(log);
    assert(t5.contents() == t.contents());
    lemma_settle_keeps(t5, t5.moves.tree(), ordered::<ElementId>(t5.placements.dom()));
}

/// What a replica's containers hold survives a snapshot: every slot, item, tally and tag,
/// every annotation and every grant of the state that a reader makes whole is the
/// replica's own.
pub proof fn law_a_snapshot_keeps_the_contents(d: DocV)
    ensures
        made_whole(d.written(), held_in_order(d.buffer)).contents() == d.tree.contents(),
{
    let l = d.written();
    let ops = held_in_order(d.buffer);
    let w = l.tree;
    assert(w.contents() == d.tree.contents()) by {
        assert(w.contents().maps =~= d.tree.contents().maps);
        assert(w.contents().counters =~= d.tree.contents().counters);
        assert(w.contents().xml_elements =~= d.tree.contents().xml_elements);
        assert(w.contents().xml_fragments =~= d.tree.contents().xml_fragments);
        assert forall|x: ElementId| #[trigger] d.tree.lists.dom().contains(x) implies as_written(
            as_written(d.tree.lists[x]),
        ) == as_written(d.tree.lists[x]) by {
            let v = as_written(d.tree.lists[x]);
            assert(as_written(v).items =~= v.items);
        }
        assert forall|x: ElementId| #[trigger] d.tree.texts.dom().contains(x) implies as_written(
            as_written(d.tree.texts[x]),
        ) == as_written(d.tree.texts[x]) by {
            let v = as_written(d.tree.texts[x]);
            assert(as_written(v).items =~= v.items);
        }
        assert(w.contents().lists =~= d.tree.contents().lists);
        assert(w.contents().texts =~= d.tree.contents().texts);
    }
    lemma_flags_keep(w);
    let a = w.with_flags().with_floor(l.log);
    assert(a.contents() == w.with_flags().contents());
    lemma_recorded_keeps(a, ops);
    let b = a.recorded(ops);
    assert(b.contents() == a.contents());
    lemma_restored_keeps(b, l.log);
}

/// Bytes behind a snapshot are refused.
pub proof fn law_trailing_bytes_are_refused(d: Document, rest: Seq<u8>)
    requires
        d.wf(),
        state_fits(d),
        d@.readable(),
        parse_state(enc_state(d)) is Ok,
        rest.len() > 0,
    ensures
        exactly(parse_state(enc_state(d) + rest)) == Err::<DocV, DecodeError>(
            DecodeError::TrailingBytes,
        ),
{
    law_a_snapshot_reads_back(d, rest);
    law_a_snapshot_reads_back(d, Seq::empty());
    assert(enc_state(d) + Seq::<u8>::empty() =~= enc_state(d));
}

} // verus!
