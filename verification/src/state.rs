//! A replica's state as bytes: every container, the links between them, the stamps that
//! decide merges, the ids of the ops applied, and the ops that wait.
//!
//! Every section is a count and its records in key order, so equal states encode
//! identically.

use crate::annot::{
    AclEntry, AclEntryV, GroupKey, Payload, PayloadV, Placement, Places, RangedEntry, RangedEntryV,
};
use crate::clientid::ClientId;
use crate::codec::{
    encode_op, len_u32, put_acl_effect, put_acl_grant, put_acl_subject, put_bytes, put_client,
    put_element_id, put_opt_bytes, put_range_anchor, put_raw, put_scalar, put_stamp, put_u32,
    put_u64, put_u8,
};
use crate::counter::{enc_counter, Counter};
use crate::doc::Document;
use crate::elementid::ElementId;
use crate::format::{
    acl_grant_fits, acl_subject_fits, enc_acl_effect, enc_acl_grant, enc_acl_subject, enc_bool,
    enc_bytes, enc_kind, enc_op, enc_opt_bytes, enc_range_anchor, enc_scalar, enc_stamp, enc_u32,
    enc_u64, enc_u8, fits_u32, lemma_concat_assoc, op_fits, opt_fits, scalar_fits,
};
use crate::list::List;
use crate::list_state::{enc_list, list_fits};
use crate::many::{enc_many, lemma_enc_many_none, lemma_enc_many_take};
use crate::map::LwwMap;
use crate::map_state::{enc_map, map_fits};
use crate::op::{ops_view, Op, OpId, OpV};
use crate::stamp::Stamp;
use crate::table::{lemma_entry, lemma_ordered, ordered, seq_keys, Key, Table};
use crate::text::Text;
use crate::tree::{Tree, TreeV};
use crate::treemove::MoveEdge;
use crate::xml::{XmlElement, XmlFragment};
use vstd::prelude::*;

verus! {

/// The version of the format: a reader takes no other.
pub const STATE_VERSION: u8 = 14;

// --- records ---

pub open spec fn zone_enc() -> spec_fn((u32, u64)) -> Seq<u8> {
    |e: (u32, u64)| enc_u32(e.0) + enc_u64(e.1)
}

pub open spec fn water_enc() -> spec_fn((ClientId, u64)) -> Seq<u8> {
    |e: (ClientId, u64)| e.0.bytes() + enc_u64(e.1)
}

pub open spec fn counter_enc() -> spec_fn((ElementId, Counter)) -> Seq<u8> {
    |e: (ElementId, Counter)| enc_counter(e.1.id, e.1.entries.entries@)
}

pub open spec fn list_enc() -> spec_fn((ElementId, List)) -> Seq<u8> {
    |e: (ElementId, List)| enc_list(e.1@, e.1.dead@)
}

pub open spec fn text_enc() -> spec_fn((ElementId, Text)) -> Seq<u8> {
    |e: (ElementId, Text)| enc_list(e.1@, e.1.seq.dead@)
}

pub open spec fn map_enc() -> spec_fn((ElementId, LwwMap)) -> Seq<u8> {
    |e: (ElementId, LwwMap)| enc_map(e.1.id, e.1.slots.entries@)
}

pub open spec fn xml_element_enc() -> spec_fn((ElementId, XmlElement)) -> Seq<u8> {
    |e: (ElementId, XmlElement)| e.0.bytes() + enc_bytes(e.1.tag@)
}

pub open spec fn xml_fragment_enc() -> spec_fn((ElementId, XmlFragment)) -> Seq<u8> {
    |e: (ElementId, XmlFragment)| e.0.bytes()
}

pub open spec fn move_enc() -> spec_fn((Stamp, MoveEdge)) -> Seq<u8> {
    |e: (Stamp, MoveEdge)| enc_stamp(e.0) + e.1.child.bytes() + e.1.parent.bytes()
}

pub open spec fn placement_enc() -> spec_fn(Placement) -> Seq<u8> {
    |p: Placement| p.list.bytes() + enc_stamp(p.stamp)
}

/// A node and its placements, in key order.
pub open spec fn enc_placed(node: ElementId, places: Seq<Placement>) -> Seq<u8> {
    let q = ordered::<Placement>(places.to_set());
    node.bytes() + enc_u32(q.len() as u32) + enc_many(q, placement_enc())
}

pub open spec fn placed_enc() -> spec_fn((ElementId, Seq<Placement>)) -> Seq<u8> {
    |e: (ElementId, Seq<Placement>)| enc_placed(e.0, e.1)
}

pub open spec fn enc_payload(p: PayloadV) -> Seq<u8> {
    match p {
        PayloadV::Scalar { value, stamp } => enc_u8(0) + enc_scalar(value) + enc_stamp(stamp),
        PayloadV::Composite { kind } => enc_u8(1) + enc_kind(kind),
    }
}

pub open spec fn enc_ranged(id: ElementId, e: RangedEntryV) -> Seq<u8> {
    id.bytes() + enc_range_anchor(e.start) + enc_range_anchor(e.end) + enc_payload(e.payload)
        + enc_opt_bytes(e.name) + enc_bool(e.tombstone)
}

pub open spec fn ranged_enc() -> spec_fn((ElementId, RangedEntry)) -> Seq<u8> {
    |e: (ElementId, RangedEntry)| enc_ranged(e.0, e.1@)
}

pub open spec fn client_enc() -> spec_fn(ClientId) -> Seq<u8> {
    |c: ClientId| c.bytes()
}

pub open spec fn enc_acl(id: ElementId, e: AclEntryV) -> Seq<u8> {
    let q = ordered::<ClientId>(e.revokers);
    id.bytes() + enc_acl_subject(e.subject) + enc_acl_grant(e.grant) + enc_acl_effect(e.effect)
        + enc_bytes(e.path) + e.grantor.bytes() + enc_u32(q.len() as u32) + enc_many(
        q,
        client_enc(),
    )
}

pub open spec fn acl_enc() -> spec_fn((ElementId, AclEntry)) -> Seq<u8> {
    |e: (ElementId, AclEntry)| enc_acl(e.0, e.1@)
}

pub open spec fn link_enc() -> spec_fn((ElementId, ElementId)) -> Seq<u8> {
    |e: (ElementId, ElementId)| e.0.bytes() + e.1.bytes()
}

pub open spec fn op_id_enc() -> spec_fn((OpId, ())) -> Seq<u8> {
    |e: (OpId, ())| e.0.client.bytes() + enc_u64(e.0.seq)
}

pub open spec fn group_enc() -> spec_fn((GroupKey, ())) -> Seq<u8> {
    |e: (GroupKey, ())| e.0.client.bytes() + enc_u64(e.0.tx.0)
}

/// A count, then the records of some entries.
pub open spec fn section<T>(s: Seq<T>, enc: spec_fn(T) -> Seq<u8>) -> Seq<u8> {
    enc_u32(s.len() as u32) + enc_many(s, enc)
}

/// Whether a node's placements have to be spelled out: it has moved, or a placement of it
/// was deleted. Otherwise its one placement can be read off its sequence.
pub open spec fn is_spelled(t: TreeV, places: Seq<Placement>) -> bool {
    places.len() > 1 || t.any_tombstoned(places)
}

/// The placements spelled out among some entries.
pub open spec fn spelled_places(t: TreeV, s: Seq<(ElementId, Places)>) -> Seq<
    (ElementId, Seq<Placement>),
>
    decreases s.len(),
{
    if s.len() == 0 {
        Seq::empty()
    } else {
        let rest = spelled_places(t, s.drop_last());
        if is_spelled(t, s.last().1@) {
            rest.push((s.last().0, s.last().1@))
        } else {
            rest
        }
    }
}

/// The ops that wait, framed, in order of author and sequence number.
pub open spec fn held_ids(ops: Seq<OpV>) -> Set<OpId> {
    Set::new(|id: OpId| crate::doc::holds_op(ops, id))
}

pub open spec fn framed_enc(ops: Seq<OpV>) -> spec_fn(OpId) -> Seq<u8> {
    |id: OpId| enc_bytes(enc_op(crate::doc::op_at(ops, id)->Some_0))
}

pub open spec fn enc_held(ops: Seq<OpV>) -> Seq<u8> {
    enc_many(ordered::<OpId>(held_ids(ops)), framed_enc(ops))
}

/// The containers.
pub open spec fn enc_registries(t: Tree) -> Seq<u8> {
    section(t.counters.table.entries@, counter_enc()) + section(
        t.lists.table.entries@,
        list_enc(),
    ) + section(t.texts.table.entries@, text_enc()) + section(t.maps.table.entries@, map_enc())
        + section(t.xml_elements.table.entries@, xml_element_enc()) + section(
        t.xml_fragments.table.entries@,
        xml_fragment_enc(),
    )
}

/// The moves, the placements, the annotations, the grants and the links.
pub open spec fn enc_relations(t: Tree) -> Seq<u8> {
    section(t.moves.log.entries@, move_enc()) + section(
        spelled_places(t@, t.placements.table.entries@),
        placed_enc(),
    ) + section(t.ranged.table.entries@, ranged_enc()) + section(t.acl.table.entries@, acl_enc())
        + section(t.parents.entries@, link_enc())
}

/// A replica's state.
pub open spec fn enc_state(d: Document) -> Seq<u8> {
    enc_u8(STATE_VERSION) + d.client.bytes() + enc_u64(d.lamport) + enc_u64(d.seq) + section(
        d.zone_clocks.entries@,
        zone_enc(),
    ) + section(d.tree.high_water.entries@, water_enc()) + enc_registries(d.tree) + enc_relations(
        d.tree,
    ) + section(d.seen.entries@, op_id_enc()) + section(d.resolved_tx.entries@, group_enc())
        + enc_bytes(enc_held(ops_view(d.buffer@)))
}

// --- what fits ---

pub open spec fn registries_fit(t: Tree) -> bool {
    &&& fits_u32(t.counters.table.entries@.len())
    &&& forall|i: int|
        0 <= i < t.counters.table.entries@.len() ==> fits_u32(
            (#[trigger] t.counters.table.entries@[i]).1.entries.entries@.len(),
        )
    &&& fits_u32(t.lists.table.entries@.len())
    &&& forall|i: int|
        0 <= i < t.lists.table.entries@.len() ==> list_fits(
            (#[trigger] t.lists.table.entries@[i]).1@,
            t.lists.table.entries@[i].1.dead@,
        )
    &&& fits_u32(t.texts.table.entries@.len())
    &&& forall|i: int|
        0 <= i < t.texts.table.entries@.len() ==> list_fits(
            (#[trigger] t.texts.table.entries@[i]).1@,
            t.texts.table.entries@[i].1.seq.dead@,
        )
    &&& fits_u32(t.maps.table.entries@.len())
    &&& forall|i: int|
        0 <= i < t.maps.table.entries@.len() ==> map_fits(
            (#[trigger] t.maps.table.entries@[i]).1.slots.entries@,
        )
    &&& fits_u32(t.xml_elements.table.entries@.len())
    &&& forall|i: int|
        0 <= i < t.xml_elements.table.entries@.len() ==> fits_u32(
            (#[trigger] t.xml_elements.table.entries@[i]).1.tag@.len(),
        )
    &&& fits_u32(t.xml_fragments.table.entries@.len())
}

pub open spec fn ranged_fits(e: RangedEntryV) -> bool {
    opt_fits(e.name) && (e.payload matches PayloadV::Scalar { value, .. } ==> scalar_fits(value))
}

pub open spec fn acl_fits(e: AclEntryV) -> bool {
    acl_subject_fits(e.subject) && acl_grant_fits(e.grant) && fits_u32(e.path.len()) && fits_u32(
        ordered::<ClientId>(e.revokers).len(),
    )
}

pub open spec fn relations_fit(t: Tree) -> bool {
    &&& fits_u32(t.moves.log.entries@.len())
    &&& fits_u32(t.placements.table.entries@.len())
    &&& forall|i: int|
        0 <= i < t.placements.table.entries@.len() ==> fits_u32(
            ordered::<Placement>(
                (#[trigger] t.placements.table.entries@[i]).1@.to_set(),
            ).len(),
        )
    &&& fits_u32(t.ranged.table.entries@.len())
    &&& forall|i: int|
        0 <= i < t.ranged.table.entries@.len() ==> ranged_fits(
            (#[trigger] t.ranged.table.entries@[i]).1@,
        )
    &&& fits_u32(t.acl.table.entries@.len())
    &&& forall|i: int|
        0 <= i < t.acl.table.entries@.len() ==> acl_fits((#[trigger] t.acl.table.entries@[i]).1@)
    &&& fits_u32(t.parents.entries@.len())
}

/// Whether every count and length of a replica fits its prefix, and every op that waits
/// has an encoding.
pub open spec fn state_fits(d: Document) -> bool {
    &&& fits_u32(d.zone_clocks.entries@.len())
    &&& fits_u32(d.tree.high_water.entries@.len())
    &&& registries_fit(d.tree)
    &&& relations_fit(d.tree)
    &&& fits_u32(d.seen.entries@.len())
    &&& fits_u32(d.resolved_tx.entries@.len())
    &&& fits_u32(enc_held(ops_view(d.buffer@)).len())
    &&& forall|i: int|
        0 <= i < d.buffer@.len() ==> op_fits((#[trigger] d.buffer@[i])@) && fits_u32(
            enc_op(d.buffer@[i]@).len(),
        )
}

// --- writing sections ---

/// The next record of a section laid down.
proof fn lemma_next<T>(
    start: Seq<u8>,
    s: Seq<T>,
    i: int,
    enc: spec_fn(T) -> Seq<u8>,
    before: Seq<u8>,
    after: Seq<u8>,
)
    requires
        0 <= i < s.len(),
        before == start + enc_u32(s.len() as u32) + enc_many(s.take(i), enc),
        after == before + enc(s[i]),
    ensures
        after == start + enc_u32(s.len() as u32) + enc_many(s.take(i + 1), enc),
{
    lemma_enc_many_take(s, i, enc);
    lemma_concat_assoc(start + enc_u32(s.len() as u32), enc_many(s.take(i), enc), enc(s[i]));
}

proof fn lemma_first<T>(start: Seq<u8>, s: Seq<T>, enc: spec_fn(T) -> Seq<u8>)
    ensures
        start + enc_u32(s.len() as u32) == start + enc_u32(s.len() as u32) + enc_many(
            s.take(0),
            enc,
        ),
{
    lemma_enc_many_none(s, enc);
    assert(start + enc_u32(s.len() as u32) + Seq::<u8>::empty() =~= start + enc_u32(
        s.len() as u32,
    ));
}

proof fn lemma_last<T>(start: Seq<u8>, s: Seq<T>, enc: spec_fn(T) -> Seq<u8>)
    ensures
        start + enc_u32(s.len() as u32) + enc_many(s.take(s.len() as int), enc) == start + section(
            s,
            enc,
        ),
{
    assert(s.take(s.len() as int) =~= s);
    lemma_concat_assoc(start, enc_u32(s.len() as u32), enc_many(s, enc));
}

fn put_zone_clocks(out: &mut Vec<u8>, t: &Table<u32, u64>)
    requires
        fits_u32(t.entries@.len()),
    ensures
        final(out)@ == old(out)@ + section(t.entries@, zone_enc()),
{
    let ghost start = out@;
    let ghost s = t.entries@;
    put_u32(out, len_u32(t.entries.len()));
    let mut i: usize = 0;
    proof {
        lemma_first(start, s, zone_enc());
    }
    while i < t.entries.len()
        invariant
            s == t.entries@,
            i <= s.len(),
            out@ == start + enc_u32(s.len() as u32) + enc_many(s.take(i as int), zone_enc()),
        decreases s.len() - i,
    {
        let ghost before = out@;
        put_u32(out, t.entries[i].0);
        put_u64(out, t.entries[i].1);
        proof {
            lemma_concat_assoc(before, enc_u32(s[i as int].0), enc_u64(s[i as int].1));
            lemma_next(start, s, i as int, zone_enc(), before, out@);
        }
        i += 1;
    }
    proof {
        lemma_last(start, s, zone_enc());
    }
}

fn put_high_water(out: &mut Vec<u8>, t: &Table<ClientId, u64>)
    requires
        fits_u32(t.entries@.len()),
    ensures
        final(out)@ == old(out)@ + section(t.entries@, water_enc()),
{
    let ghost start = out@;
    let ghost s = t.entries@;
    put_u32(out, len_u32(t.entries.len()));
    let mut i: usize = 0;
    proof {
        lemma_first(start, s, water_enc());
    }
    while i < t.entries.len()
        invariant
            s == t.entries@,
            i <= s.len(),
            out@ == start + enc_u32(s.len() as u32) + enc_many(s.take(i as int), water_enc()),
        decreases s.len() - i,
    {
        let ghost before = out@;
        put_client(out, &t.entries[i].0);
        put_u64(out, t.entries[i].1);
        proof {
            lemma_concat_assoc(before, s[i as int].0.bytes(), enc_u64(s[i as int].1));
            lemma_next(start, s, i as int, water_enc(), before, out@);
        }
        i += 1;
    }
    proof {
        lemma_last(start, s, water_enc());
    }
}

fn put_counters(out: &mut Vec<u8>, t: &Tree)
    requires
        t.wf(),
        registries_fit(*t),
    ensures
        final(out)@ == old(out)@ + section(t.counters.table.entries@, counter_enc()),
{
    let ghost start = out@;
    let ghost s = t.counters.table.entries@;
    put_u32(out, len_u32(t.counters.table.entries.len()));
    let mut i: usize = 0;
    proof {
        lemma_first(start, s, counter_enc());
    }
    while i < t.counters.table.entries.len()
        invariant
            t.wf(),
            registries_fit(*t),
            s == t.counters.table.entries@,
            i <= s.len(),
            out@ == start + enc_u32(s.len() as u32) + enc_many(s.take(i as int), counter_enc()),
        decreases s.len() - i,
    {
        let ghost before = out@;
        proof {
            t.counters.lemma_at(i as int);
            assert(fits_u32(t.counters.table.entries@[i as int].1.entries.entries@.len()));
        }
        t.counters.table.entries[i].1.encode_state_into(out);
        proof {
            lemma_next(start, s, i as int, counter_enc(), before, out@);
        }
        i += 1;
    }
    proof {
        lemma_last(start, s, counter_enc());
    }
}

fn put_lists(out: &mut Vec<u8>, t: &Tree)
    requires
        t.wf(),
        registries_fit(*t),
    ensures
        final(out)@ == old(out)@ + section(t.lists.table.entries@, list_enc()),
{
    let ghost start = out@;
    let ghost s = t.lists.table.entries@;
    put_u32(out, len_u32(t.lists.table.entries.len()));
    let mut i: usize = 0;
    proof {
        lemma_first(start, s, list_enc());
    }
    while i < t.lists.table.entries.len()
        invariant
            t.wf(),
            registries_fit(*t),
            s == t.lists.table.entries@,
            i <= s.len(),
            out@ == start + enc_u32(s.len() as u32) + enc_many(s.take(i as int), list_enc()),
        decreases s.len() - i,
    {
        let ghost before = out@;
        proof {
            t.lists.lemma_at(i as int);
            assert(list_fits(
                t.lists.table.entries@[i as int].1@,
                t.lists.table.entries@[i as int].1.dead@,
            ));
        }
        t.lists.table.entries[i].1.encode_state_into(out);
        proof {
            lemma_next(start, s, i as int, list_enc(), before, out@);
        }
        i += 1;
    }
    proof {
        lemma_last(start, s, list_enc());
    }
}

fn put_texts(out: &mut Vec<u8>, t: &Tree)
    requires
        t.wf(),
        registries_fit(*t),
    ensures
        final(out)@ == old(out)@ + section(t.texts.table.entries@, text_enc()),
{
    let ghost start = out@;
    let ghost s = t.texts.table.entries@;
    put_u32(out, len_u32(t.texts.table.entries.len()));
    let mut i: usize = 0;
    proof {
        lemma_first(start, s, text_enc());
    }
    while i < t.texts.table.entries.len()
        invariant
            t.wf(),
            registries_fit(*t),
            s == t.texts.table.entries@,
            i <= s.len(),
            out@ == start + enc_u32(s.len() as u32) + enc_many(s.take(i as int), text_enc()),
        decreases s.len() - i,
    {
        let ghost before = out@;
        proof {
            t.texts.lemma_at(i as int);
            assert(list_fits(
                t.texts.table.entries@[i as int].1@,
                t.texts.table.entries@[i as int].1.seq.dead@,
            ));
        }
        t.texts.table.entries[i].1.encode_state_into(out);
        proof {
            lemma_next(start, s, i as int, text_enc(), before, out@);
        }
        i += 1;
    }
    proof {
        lemma_last(start, s, text_enc());
    }
}

fn put_maps(out: &mut Vec<u8>, t: &Tree)
    requires
        t.wf(),
        registries_fit(*t),
    ensures
        final(out)@ == old(out)@ + section(t.maps.table.entries@, map_enc()),
{
    let ghost start = out@;
    let ghost s = t.maps.table.entries@;
    put_u32(out, len_u32(t.maps.table.entries.len()));
    let mut i: usize = 0;
    proof {
        lemma_first(start, s, map_enc());
    }
    while i < t.maps.table.entries.len()
        invariant
            t.wf(),
            registries_fit(*t),
            s == t.maps.table.entries@,
            i <= s.len(),
            out@ == start + enc_u32(s.len() as u32) + enc_many(s.take(i as int), map_enc()),
        decreases s.len() - i,
    {
        let ghost before = out@;
        proof {
            t.maps.lemma_at(i as int);
            assert(map_fits(t.maps.table.entries@[i as int].1.slots.entries@));
        }
        t.maps.table.entries[i].1.encode_state_into(out);
        proof {
            lemma_next(start, s, i as int, map_enc(), before, out@);
        }
        i += 1;
    }
    proof {
        lemma_last(start, s, map_enc());
    }
}

fn put_xml_elements(out: &mut Vec<u8>, t: &Tree)
    requires
        t.wf(),
        registries_fit(*t),
    ensures
        final(out)@ == old(out)@ + section(t.xml_elements.table.entries@, xml_element_enc()),
{
    let ghost start = out@;
    let ghost s = t.xml_elements.table.entries@;
    put_u32(out, len_u32(t.xml_elements.table.entries.len()));
    let mut i: usize = 0;
    proof {
        lemma_first(start, s, xml_element_enc());
    }
    while i < t.xml_elements.table.entries.len()
        invariant
            t.wf(),
            registries_fit(*t),
            s == t.xml_elements.table.entries@,
            i <= s.len(),
            out@ == start + enc_u32(s.len() as u32) + enc_many(
                s.take(i as int),
                xml_element_enc(),
            ),
        decreases s.len() - i,
    {
        let ghost before = out@;
        proof {
            assert(fits_u32(t.xml_elements.table.entries@[i as int].1.tag@.len()));
        }
        let (id, x) = &t.xml_elements.table.entries[i];
        put_element_id(out, id);
        put_bytes(out, x.tag.as_slice());
        proof {
            lemma_concat_assoc(before, id.bytes(), enc_bytes(x.tag@));
            lemma_next(start, s, i as int, xml_element_enc(), before, out@);
        }
        i += 1;
    }
    proof {
        lemma_last(start, s, xml_element_enc());
    }
}

fn put_xml_fragments(out: &mut Vec<u8>, t: &Tree)
    requires
        t.wf(),
        registries_fit(*t),
    ensures
        final(out)@ == old(out)@ + section(t.xml_fragments.table.entries@, xml_fragment_enc()),
{
    let ghost start = out@;
    let ghost s = t.xml_fragments.table.entries@;
    put_u32(out, len_u32(t.xml_fragments.table.entries.len()));
    let mut i: usize = 0;
    proof {
        lemma_first(start, s, xml_fragment_enc());
    }
    while i < t.xml_fragments.table.entries.len()
        invariant
            s == t.xml_fragments.table.entries@,
            i <= s.len(),
            out@ == start + enc_u32(s.len() as u32) + enc_many(
                s.take(i as int),
                xml_fragment_enc(),
            ),
        decreases s.len() - i,
    {
        let ghost before = out@;
        put_element_id(out, &t.xml_fragments.table.entries[i].0);
        proof {
            lemma_next(start, s, i as int, xml_fragment_enc(), before, out@);
        }
        i += 1;
    }
    proof {
        lemma_last(start, s, xml_fragment_enc());
    }
}

fn put_registries(out: &mut Vec<u8>, t: &Tree)
    requires
        t.wf(),
        registries_fit(*t),
    ensures
        final(out)@ == old(out)@ + enc_registries(*t),
{
    let ghost start = out@;
    put_counters(out, t);
    put_lists(out, t);
    put_texts(out, t);
    put_maps(out, t);
    put_xml_elements(out, t);
    put_xml_fragments(out, t);
    proof {
        let a = section(t.counters.table.entries@, counter_enc());
        let b = section(t.lists.table.entries@, list_enc());
        let c = section(t.texts.table.entries@, text_enc());
        let d = section(t.maps.table.entries@, map_enc());
        let e = section(t.xml_elements.table.entries@, xml_element_enc());
        let f = section(t.xml_fragments.table.entries@, xml_fragment_enc());
        assert(start + a + b + c + d + e + f =~= start + (a + b + c + d + e + f));
    }
}

fn put_moves(out: &mut Vec<u8>, t: &Tree)
    requires
        relations_fit(*t),
    ensures
        final(out)@ == old(out)@ + section(t.moves.log.entries@, move_enc()),
{
    let ghost start = out@;
    let ghost s = t.moves.log.entries@;
    put_u32(out, len_u32(t.moves.log.entries.len()));
    let mut i: usize = 0;
    proof {
        lemma_first(start, s, move_enc());
    }
    while i < t.moves.log.entries.len()
        invariant
            s == t.moves.log.entries@,
            i <= s.len(),
            out@ == start + enc_u32(s.len() as u32) + enc_many(s.take(i as int), move_enc()),
        decreases s.len() - i,
    {
        let ghost before = out@;
        let (stamp, e) = &t.moves.log.entries[i];
        put_stamp(out, stamp);
        put_element_id(out, &e.child);
        put_element_id(out, &e.parent);
        proof {
            let a = enc_stamp(*stamp);
            let b = e.child.bytes();
            let c = e.parent.bytes();
            assert(before + a + b + c =~= before + (a + b + c));
            lemma_next(start, s, i as int, move_enc(), before, out@);
        }
        i += 1;
    }
    proof {
        lemma_last(start, s, move_enc());
    }
}

/// A node's placements in key order.
fn places_in_order(places: &Vec<Placement>) -> (out: Vec<Placement>)
    ensures
        out@ == ordered::<Placement>(places@.to_set()),
{
    let mut t: Table<Placement, ()> = Table::new();
    let mut i: usize = 0;
    proof {
        assert(places@.take(0).to_set() =~= Set::empty());
        assert(t@.dom() =~= Set::empty());
    }
    while i < places.len()
        invariant
            t.wf(),
            i <= places@.len(),
            t@.dom() == places@.take(i as int).to_set(),
        decreases places@.len() - i,
    {
        proof {
            assert(places@.take(i + 1) =~= places@.take(i as int).push(places@[i as int]));
            crate::table::lemma_push_set(places@.take(i as int), places@[i as int]);
        }
        t.insert(places[i], ());
        proof {
            assert(t@.dom() =~= places@.take(i + 1).to_set());
        }
        i += 1;
    }
    proof {
        assert(places@.take(i as int) =~= places@);
    }
    keys_of(&t)
}

/// A table's keys in order.
fn keys_of<K: Key + Copy>(t: &Table<K, ()>) -> (out: Vec<K>)
    requires
        t.wf(),
    ensures
        out@.map_values(|k: K| k@) == ordered::<K>(t@.dom()),
        out@.len() == t.entries@.len(),
        forall|i: int| 0 <= i < out@.len() ==> (#[trigger] out@[i]) == t.entries@[i].0,
{
    let mut out: Vec<K> = Vec::new();
    let ghost e = t.entries@;
    let mut i: usize = 0;
    while i < t.entries.len()
        invariant
            e == t.entries@,
            i <= e.len(),
            out@.len() == i,
            forall|j: int| 0 <= j < i ==> (#[trigger] out@[j]) == e[j].0,
        decreases e.len() - i,
    {
        out.push(t.entries[i].0);
        i += 1;
    }
    proof {
        lemma_ordered::<K, ()>(e);
        assert(out@.map_values(|k: K| k@) =~= seq_keys(e));
    }
    out
}

fn put_placed(out: &mut Vec<u8>, node: ElementId, places: &Vec<Placement>)
    requires
        fits_u32(ordered::<Placement>(places@.to_set()).len()),
    ensures
        final(out)@ == old(out)@ + enc_placed(node, places@),
{
    let ghost start = out@;
    let q = places_in_order(places);
    let ghost s = q@;
    put_element_id(out, &node);
    let ghost mid = out@;
    put_u32(out, len_u32(q.len()));
    let mut i: usize = 0;
    proof {
        lemma_first(mid, s, placement_enc());
    }
    while i < q.len()
        invariant
            s == q@,
            i <= s.len(),
            out@ == mid + enc_u32(s.len() as u32) + enc_many(s.take(i as int), placement_enc()),
        decreases s.len() - i,
    {
        let ghost before = out@;
        put_element_id(out, &q[i].list);
        put_stamp(out, &q[i].stamp);
        proof {
            lemma_concat_assoc(before, s[i as int].list.bytes(), enc_stamp(s[i as int].stamp));
            lemma_next(mid, s, i as int, placement_enc(), before, out@);
        }
        i += 1;
    }
    proof {
        lemma_last(mid, s, placement_enc());
        let a = node.bytes();
        let b = enc_u32(s.len() as u32);
        let c = enc_many(s, placement_enc());
        assert((start + a) + (b + c) =~= start + (a + b + c));
    }
}

fn put_placements(out: &mut Vec<u8>, t: &Tree)
    requires
        t.wf(),
        relations_fit(*t),
    ensures
        final(out)@ == old(out)@ + section(
            spelled_places(t@, t.placements.table.entries@),
            placed_enc(),
        ),
{
    let ghost start = out@;
    let ghost e = t.placements.table.entries@;
    let mut n: usize = 0;
    let mut body: Vec<u8> = Vec::new();
    let mut i: usize = 0;
    proof {
        assert(e.take(0) =~= Seq::empty());
        assert(body@ =~= enc_many(spelled_places(t@, e.take(0)), placed_enc()));
    }
    while i < t.placements.table.entries.len()
        invariant
            t.wf(),
            relations_fit(*t),
            e == t.placements.table.entries@,
            i <= e.len(),
            n == spelled_places(t@, e.take(i as int)).len(),
            n <= i,
            body@ == enc_many(spelled_places(t@, e.take(i as int)), placed_enc()),
        decreases e.len() - i,
    {
        let (node, places) = &t.placements.table.entries[i];
        let ghost done = spelled_places(t@, e.take(i as int));
        proof {
            assert(e.take(i + 1).drop_last() =~= e.take(i as int));
            assert(e.take(i + 1).last() == e[i as int]);
            assert(fits_u32(ordered::<Placement>(e[i as int].1@.to_set()).len()));
        }
        if places.at.len() > 1 || t.any_tombstoned(&places.at) {
            put_placed(&mut body, *node, &places.at);
            proof {
                let x = (*node, places@);
                let more = done.push(x);
                assert(more.take(n as int) =~= done);
                assert(more.take(n + 1) =~= more);
                lemma_enc_many_take(more, n as int, placed_enc());
            }
            n += 1;
        }
        i += 1;
    }
    proof {
        assert(e.take(i as int) =~= e);
    }
    put_u32(out, len_u32(n));
    put_raw(out, body.as_slice());
    proof {
        lemma_concat_assoc(start, enc_u32(n as u32), body@);
    }
}

fn put_payload(out: &mut Vec<u8>, p: &Payload)
    requires
        p@ matches PayloadV::Scalar { value, .. } ==> scalar_fits(value),
    ensures
        final(out)@ == old(out)@ + enc_payload(p@),
{
    let ghost start = out@;
    match p {
        Payload::Scalar { value, stamp } => {
            put_u8(out, 0);
            put_scalar(out, value);
            put_stamp(out, stamp);
            proof {
                let a = enc_u8(0);
                let b = enc_scalar(value@);
                let c = enc_stamp(*stamp);
                assert(start + a + b + c =~= start + (a + b + c));
            }
        },
        Payload::Composite { kind } => {
            put_u8(out, 1);
            put_u8(out, kind.tag());
            proof {
                lemma_concat_assoc(start, enc_u8(1), enc_kind(*kind));
            }
        },
    }
}

fn put_bool(out: &mut Vec<u8>, b: bool)
    ensures
        final(out)@ == old(out)@ + enc_bool(b),
{
    put_u8(
        out,
        if b {
            1
        } else {
            0
        },
    );
}

fn put_ranged(out: &mut Vec<u8>, t: &Tree)
    requires
        t.wf(),
        relations_fit(*t),
    ensures
        final(out)@ == old(out)@ + section(t.ranged.table.entries@, ranged_enc()),
{
    let ghost start = out@;
    let ghost s = t.ranged.table.entries@;
    put_u32(out, len_u32(t.ranged.table.entries.len()));
    let mut i: usize = 0;
    proof {
        lemma_first(start, s, ranged_enc());
    }
    while i < t.ranged.table.entries.len()
        invariant
            relations_fit(*t),
            s == t.ranged.table.entries@,
            i <= s.len(),
            out@ == start + enc_u32(s.len() as u32) + enc_many(s.take(i as int), ranged_enc()),
        decreases s.len() - i,
    {
        let ghost before = out@;
        let (id, e) = &t.ranged.table.entries[i];
        proof {
            assert(ranged_fits(t.ranged.table.entries@[i as int].1@));
        }
        put_element_id(out, id);
        put_range_anchor(out, &e.start);
        put_range_anchor(out, &e.end);
        put_payload(out, &e.payload);
        put_opt_bytes(out, &e.name);
        put_bool(out, e.tombstone);
        proof {
            let v = e@;
            let a = id.bytes();
            let b = enc_range_anchor(v.start);
            let c = enc_range_anchor(v.end);
            let d = enc_payload(v.payload);
            let f = enc_opt_bytes(v.name);
            let g = enc_bool(v.tombstone);
            assert(before + a + b + c + d + f + g =~= before + (a + b + c + d + f + g));
            lemma_next(start, s, i as int, ranged_enc(), before, out@);
        }
        i += 1;
    }
    proof {
        lemma_last(start, s, ranged_enc());
    }
}

fn put_revokers(out: &mut Vec<u8>, t: &Table<ClientId, ()>)
    requires
        t.wf(),
        fits_u32(ordered::<ClientId>(t@.dom()).len()),
    ensures
        final(out)@ == old(out)@ + section(ordered::<ClientId>(t@.dom()), client_enc()),
{
    let ghost start = out@;
    let ghost s = ordered::<ClientId>(t@.dom());
    proof {
        lemma_ordered::<ClientId, ()>(t.entries@);
    }
    put_u32(out, len_u32(t.entries.len()));
    let mut i: usize = 0;
    proof {
        lemma_first(start, s, client_enc());
    }
    while i < t.entries.len()
        invariant
            t.wf(),
            s == seq_keys(t.entries@),
            i <= s.len(),
            out@ == start + enc_u32(s.len() as u32) + enc_many(s.take(i as int), client_enc()),
        decreases s.len() - i,
    {
        let ghost before = out@;
        put_client(out, &t.entries[i].0);
        proof {
            lemma_next(start, s, i as int, client_enc(), before, out@);
        }
        i += 1;
    }
    proof {
        lemma_last(start, s, client_enc());
    }
}

fn put_acl(out: &mut Vec<u8>, t: &Tree)
    requires
        t.wf(),
        relations_fit(*t),
    ensures
        final(out)@ == old(out)@ + section(t.acl.table.entries@, acl_enc()),
{
    let ghost start = out@;
    let ghost s = t.acl.table.entries@;
    put_u32(out, len_u32(t.acl.table.entries.len()));
    let mut i: usize = 0;
    proof {
        lemma_first(start, s, acl_enc());
    }
    while i < t.acl.table.entries.len()
        invariant
            t.wf(),
            relations_fit(*t),
            s == t.acl.table.entries@,
            i <= s.len(),
            out@ == start + enc_u32(s.len() as u32) + enc_many(s.take(i as int), acl_enc()),
        decreases s.len() - i,
    {
        let ghost before = out@;
        let (id, e) = &t.acl.table.entries[i];
        proof {
            t.acl.lemma_at(i as int);
            assert(acl_fits(t.acl.table.entries@[i as int].1@));
        }
        put_element_id(out, id);
        put_acl_subject(out, &e.subject);
        put_acl_grant(out, &e.grant);
        put_acl_effect(out, e.effect);
        put_bytes(out, e.path.as_slice());
        put_client(out, &e.grantor);
        put_revokers(out, &e.revokers);
        proof {
            let v = e@;
            let q = ordered::<ClientId>(v.revokers);
            let a = id.bytes();
            let b = enc_acl_subject(v.subject);
            let c = enc_acl_grant(v.grant);
            let d = enc_acl_effect(v.effect);
            let f = enc_bytes(v.path);
            let g = v.grantor.bytes();
            let h = enc_u32(q.len() as u32);
            let k = enc_many(q, client_enc());
            assert(before + a + b + c + d + f + g + (h + k) =~= before + (a + b + c + d + f + g + h
                + k));
            lemma_next(start, s, i as int, acl_enc(), before, out@);
        }
        i += 1;
    }
    proof {
        lemma_last(start, s, acl_enc());
    }
}

fn put_parents(out: &mut Vec<u8>, t: &Tree)
    requires
        relations_fit(*t),
    ensures
        final(out)@ == old(out)@ + section(t.parents.entries@, link_enc()),
{
    let ghost start = out@;
    let ghost s = t.parents.entries@;
    put_u32(out, len_u32(t.parents.entries.len()));
    let mut i: usize = 0;
    proof {
        lemma_first(start, s, link_enc());
    }
    while i < t.parents.entries.len()
        invariant
            s == t.parents.entries@,
            i <= s.len(),
            out@ == start + enc_u32(s.len() as u32) + enc_many(s.take(i as int), link_enc()),
        decreases s.len() - i,
    {
        let ghost before = out@;
        put_element_id(out, &t.parents.entries[i].0);
        put_element_id(out, &t.parents.entries[i].1);
        proof {
            lemma_concat_assoc(before, s[i as int].0.bytes(), s[i as int].1.bytes());
            lemma_next(start, s, i as int, link_enc(), before, out@);
        }
        i += 1;
    }
    proof {
        lemma_last(start, s, link_enc());
    }
}

fn put_relations(out: &mut Vec<u8>, t: &Tree)
    requires
        t.wf(),
        relations_fit(*t),
    ensures
        final(out)@ == old(out)@ + enc_relations(*t),
{
    let ghost start = out@;
    put_moves(out, t);
    put_placements(out, t);
    put_ranged(out, t);
    put_acl(out, t);
    put_parents(out, t);
    proof {
        let a = section(t.moves.log.entries@, move_enc());
        let b = section(spelled_places(t@, t.placements.table.entries@), placed_enc());
        let c = section(t.ranged.table.entries@, ranged_enc());
        let d = section(t.acl.table.entries@, acl_enc());
        let e = section(t.parents.entries@, link_enc());
        assert(start + a + b + c + d + e =~= start + (a + b + c + d + e));
    }
}

fn put_seen(out: &mut Vec<u8>, t: &Table<OpId, ()>)
    requires
        fits_u32(t.entries@.len()),
    ensures
        final(out)@ == old(out)@ + section(t.entries@, op_id_enc()),
{
    let ghost start = out@;
    let ghost s = t.entries@;
    put_u32(out, len_u32(t.entries.len()));
    let mut i: usize = 0;
    proof {
        lemma_first(start, s, op_id_enc());
    }
    while i < t.entries.len()
        invariant
            s == t.entries@,
            i <= s.len(),
            out@ == start + enc_u32(s.len() as u32) + enc_many(s.take(i as int), op_id_enc()),
        decreases s.len() - i,
    {
        let ghost before = out@;
        put_client(out, &t.entries[i].0.client);
        put_u64(out, t.entries[i].0.seq);
        proof {
            lemma_concat_assoc(before, s[i as int].0.client.bytes(), enc_u64(s[i as int].0.seq));
            lemma_next(start, s, i as int, op_id_enc(), before, out@);
        }
        i += 1;
    }
    proof {
        lemma_last(start, s, op_id_enc());
    }
}

fn put_resolved(out: &mut Vec<u8>, t: &Table<GroupKey, ()>)
    requires
        fits_u32(t.entries@.len()),
    ensures
        final(out)@ == old(out)@ + section(t.entries@, group_enc()),
{
    let ghost start = out@;
    let ghost s = t.entries@;
    put_u32(out, len_u32(t.entries.len()));
    let mut i: usize = 0;
    proof {
        lemma_first(start, s, group_enc());
    }
    while i < t.entries.len()
        invariant
            s == t.entries@,
            i <= s.len(),
            out@ == start + enc_u32(s.len() as u32) + enc_many(s.take(i as int), group_enc()),
        decreases s.len() - i,
    {
        let ghost before = out@;
        put_client(out, &t.entries[i].0.client);
        put_u64(out, t.entries[i].0.tx.0);
        proof {
            lemma_concat_assoc(before, s[i as int].0.client.bytes(), enc_u64(s[i as int].0.tx.0));
            lemma_next(start, s, i as int, group_enc(), before, out@);
        }
        i += 1;
    }
    proof {
        lemma_last(start, s, group_enc());
    }
}

impl Document {
    /// The ids of the ops that wait, in order.
    fn held_in_order(&self) -> (out: Vec<OpId>)
        ensures
            out@ == ordered::<OpId>(held_ids(self@.buffer)),
            forall|i: int|
                0 <= i < out@.len() ==> crate::doc::holds_op(self@.buffer, #[trigger] out@[i]),
    {
        let mut t: Table<OpId, ()> = Table::new();
        let ghost b = self@.buffer;
        let mut i: usize = 0;
        while i < self.buffer.len()
            invariant
                b == self@.buffer,
                t.wf(),
                i <= self.buffer@.len(),
                forall|id: OpId| #[trigger] t@.dom().contains(id) ==> crate::doc::holds_op(b, id),
                forall|j: int| 0 <= j < i ==> t@.dom().contains((#[trigger] b[j]).id),
            decreases self.buffer@.len() - i,
        {
            proof {
                assert(b[i as int] == self.buffer@[i as int]@);
            }
            t.insert(self.buffer[i].id, ());
            i += 1;
        }
        let out = keys_of(&t);
        proof {
            assert(t@.dom() =~= held_ids(b)) by {
                assert forall|id: OpId| held_ids(b).contains(id) implies t@.dom().contains(id) by {
                    let j = choose|j: int| 0 <= j < b.len() && (#[trigger] b[j]).id == id;
                    assert(t@.dom().contains(b[j].id));
                }
            }
            assert(out@.map_values(|k: OpId| k@) =~= out@);
            assert forall|i: int| 0 <= i < out@.len() implies crate::doc::holds_op(
                b,
                #[trigger] out@[i],
            ) by {
                lemma_entry::<OpId, ()>(t.entries@, i);
            }
        }
        out
    }

    /// The op that waits with this id.
    fn held_op(&self, id: OpId) -> (op: &Op)
        requires
            crate::doc::holds_op(self@.buffer, id),
        ensures
            crate::doc::op_at(self@.buffer, id) == Some(op@),
            exists|i: int| 0 <= i < self.buffer@.len() && #[trigger] self.buffer@[i] == *op,
    {
        let ghost s = self@.buffer;
        let mut i: usize = 0;
        proof {
            assert(s.skip(0) =~= s);
            let j = choose|j: int| 0 <= j < s.len() && (#[trigger] s[j]).id == id;
            assert(self.buffer@.len() > 0);
        }
        while i < self.buffer.len() - 1 && self.buffer[i].id != id
            invariant
                s == self@.buffer,
                i < self.buffer@.len(),
                crate::doc::holds_op(s, id),
                forall|j: int| 0 <= j < i ==> (#[trigger] s[j]).id != id,
                crate::doc::op_at(s, id) == crate::doc::op_at(s.skip(i as int), id),
            decreases self.buffer@.len() - i,
        {
            proof {
                assert(s[i as int] == self.buffer@[i as int]@);
                assert(s.skip(i as int)[0] == s[i as int]);
                assert(s.skip(i as int).skip(1) =~= s.skip(i + 1));
            }
            i += 1;
        }
        proof {
            let j = choose|j: int| 0 <= j < s.len() && (#[trigger] s[j]).id == id;
            assert(s[i as int] == self.buffer@[i as int]@);
            assert(j >= i);
            assert(s[i as int].id == id);
            assert(s.skip(i as int)[0] == s[i as int]);
        }
        &self.buffer[i]
    }

    /// The ops that wait, framed.
    fn encode_held(&self) -> (out: Vec<u8>)
        requires
            self.wf(),
            state_fits(*self),
        ensures
            out@ == enc_held(self@.buffer),
    {
        let ids = self.held_in_order();
        let ghost enc = framed_enc(self@.buffer);
        let mut out: Vec<u8> = Vec::new();
        let mut i: usize = 0;
        proof {
            lemma_enc_many_none(ids@, enc);
            assert(out@ =~= Seq::empty());
        }
        while i < ids.len()
            invariant
                self.wf(),
                state_fits(*self),
                enc == framed_enc(self@.buffer),
                i <= ids@.len(),
                forall|j: int|
                    0 <= j < ids@.len() ==> crate::doc::holds_op(self@.buffer, #[trigger] ids@[j]),
                out@ == enc_many(ids@.take(i as int), enc),
            decreases ids@.len() - i,
        {
            proof {
                assert(crate::doc::holds_op(self@.buffer, ids@[i as int]));
            }
            let op = self.held_op(ids[i]);
            proof {
                let k = choose|k: int| 0 <= k < self.buffer@.len() && #[trigger] self.buffer@[k]
                    == *op;
                assert(op_fits(self.buffer@[k]@));
                lemma_enc_many_take(ids@, i as int, enc);
            }
            let body = encode_op(op);
            put_bytes(&mut out, body.as_slice());
            i += 1;
        }
        proof {
            assert(ids@.take(i as int) =~= ids@);
        }
        out
    }

    /// The whole replica as a self-contained snapshot.
    pub fn encode_state(&self) -> (out: Vec<u8>)
        requires
            self.wf(),
            state_fits(*self),
        ensures
            out@ == enc_state(*self),
    {
        let mut out: Vec<u8> = Vec::new();
        put_u8(&mut out, STATE_VERSION);
        proof {
            assert(Seq::<u8>::empty() + enc_u8(STATE_VERSION) =~= enc_u8(STATE_VERSION));
        }
        put_client(&mut out, &self.client);
        put_u64(&mut out, self.lamport);
        put_u64(&mut out, self.seq);
        put_zone_clocks(&mut out, &self.zone_clocks);
        put_high_water(&mut out, &self.tree.high_water);
        put_registries(&mut out, &self.tree);
        put_relations(&mut out, &self.tree);
        put_seen(&mut out, &self.seen);
        put_resolved(&mut out, &self.resolved_tx);
        let held = self.encode_held();
        put_bytes(&mut out, held.as_slice());
        out
    }
}

} // verus!
