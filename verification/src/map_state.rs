//! A map's state as bytes: its id and every slot, live or tombstoned, in key order.
//!
//! Leaves are inline; a composite is a kind-tagged reference to its id. A slot spells
//! out the create its key retains only where the slot does not already imply it.

use crate::codec::{
    len_u32, put_bytes, put_element_id, put_scalar, put_stamp, put_u32, put_u8, reads_view, Cursor,
    DecodeError,
};
use crate::element::{opt_element, spec_handle, Element, ElementV};
use crate::elementid::{ElementId, ElementKind};
use crate::format::{
    enc_bytes, enc_kind, enc_scalar, enc_stamp, enc_u32, enc_u8, fits_u32, lemma_concat_assoc,
    parse_bytes, parse_element_id, parse_scalar, parse_stamp, parse_u32, parse_u8, scalar_fits,
    Parsed,
};
use crate::map::{
    create_lt, slots_view, spec_create_of, spec_higher, ContainerCreate, LwwMap, Slot, SlotV,
};
use crate::register::{enc_register, parse_register, rt_register, Register};
use crate::roundtrip::{rt_bytes, rt_element_id, rt_scalar, rt_stamp, rt_u32, rt_u8};
use crate::stamp::Stamp;
use crate::table::{lemma_take, seq_map, sorted, Key};
use vstd::prelude::*;

verus! {

/// A slot with nothing to spell out but its value.
pub const SLOT_LIVE: u8 = 0;

/// A tombstone on a key that retains no create.
pub const SLOT_LEAF_TOMB: u8 = 1;

/// A tombstone over a retained create.
pub const SLOT_CONTAINER_TOMB: u8 = 2;

/// A live slot whose key retains a create that is not the slot's own.
pub const SLOT_LIVE_SHADOW: u8 = 3;

/// A slot's value: a tag byte, the kind's, then the leaf inline or the handle's id.
#[verifier::opaque]
pub open spec fn enc_slot_value(v: ElementV) -> Seq<u8> {
    match v {
        ElementV::Scalar(s) => enc_u8(0) + enc_scalar(s),
        ElementV::Register(r) => enc_u8(1) + enc_register(r),
        ElementV::Counter(id) => enc_u8(2) + id.bytes(),
        ElementV::LwwMap(id) => enc_u8(3) + id.bytes(),
        ElementV::List(id) => enc_u8(4) + id.bytes(),
        ElementV::Text(id) => enc_u8(5) + id.bytes(),
        ElementV::XmlElement(id) => enc_u8(6) + id.bytes(),
        ElementV::XmlFragment(id) => enc_u8(7) + id.bytes(),
    }
}

/// The create a slot has to spell out: the one its key retains, unless the slot's own
/// value is that create.
pub open spec fn spelled(slot: SlotV) -> Option<ContainerCreate> {
    if slot.value is Some && slot.container == spec_create_of(slot.value, slot.stamp) {
        None
    } else {
        slot.container
    }
}

pub open spec fn enc_create(c: ContainerCreate) -> Seq<u8> {
    enc_stamp(c.stamp) + enc_kind(c.kind)
}

/// What follows a slot's key and stamp: a presence tag, the create it spells out, and
/// its value.
#[verifier::opaque]
pub open spec fn enc_slot_body(slot: SlotV) -> Seq<u8> {
    match (slot.value, spelled(slot)) {
        (Some(v), None) => enc_u8(SLOT_LIVE) + enc_slot_value(v),
        (Some(v), Some(c)) => enc_u8(SLOT_LIVE_SHADOW) + enc_create(c) + enc_slot_value(v),
        (None, None) => enc_u8(SLOT_LEAF_TOMB),
        (None, Some(c)) => enc_u8(SLOT_CONTAINER_TOMB) + enc_create(c),
    }
}

pub open spec fn enc_slot(key: Seq<u8>, slot: SlotV) -> Seq<u8> {
    enc_bytes(key) + enc_stamp(slot.stamp) + enc_slot_body(slot)
}

pub open spec fn enc_slots(s: Seq<(Vec<u8>, Slot)>) -> Seq<u8>
    decreases s.len(),
{
    if s.len() == 0 {
        Seq::empty()
    } else {
        enc_slot(s[0].0@, s[0].1@) + enc_slots(s.skip(1))
    }
}

pub open spec fn enc_map(id: ElementId, s: Seq<(Vec<u8>, Slot)>) -> Seq<u8> {
    id.bytes() + enc_u32(s.len() as u32) + enc_slots(s)
}

/// Whether every length in a slot fits its prefix.
pub open spec fn slot_fits(key: Seq<u8>, slot: SlotV) -> bool {
    fits_u32(key.len()) && match slot.value {
        Some(ElementV::Scalar(s)) => scalar_fits(s),
        Some(ElementV::Register(r)) => scalar_fits(r.value),
        _ => true,
    }
}

/// Whether the encoding carries the whole slot: stamps with offset zero, a retained
/// create of a container kind, and, for a live container, a retained create that ranks
/// at least as high as the slot's own.
pub open spec fn slot_carried(slot: SlotV) -> bool {
    &&& slot.stamp.offset == 0
    &&& (slot.container matches Some(c) ==> c.stamp.offset == 0 && c.kind.spec_is_container())
    &&& (slot.value matches Some(ElementV::Register(r)) ==> r.stamp.offset == 0)
    &&& retains_own(slot)
}

/// A live container's key retains a create at least as high as the container's own.
pub open spec fn retains_own(slot: SlotV) -> bool {
    spec_create_of(slot.value, slot.stamp) matches Some(own) ==> (slot.container matches Some(c)
        && !create_lt(c, own))
}

/// Whether every slot fits.
pub open spec fn map_fits(s: Seq<(Vec<u8>, Slot)>) -> bool {
    fits_u32(s.len()) && forall|i: int| 0 <= i < s.len() ==> slot_fits((#[trigger] s[i]).0@, s[i].1@)
}

/// A slot read from a snapshot: a composite is still a reference, and `container` is
/// what the slot spelled out.
pub struct DecodedSlot {
    pub key: Vec<u8>,
    pub stamp: Stamp,
    pub value: Option<Element>,
    pub container: Option<ContainerCreate>,
}

/// A read slot, by value.
pub struct DecodedSlotV {
    pub key: Seq<u8>,
    pub stamp: Stamp,
    pub value: Option<ElementV>,
    pub container: Option<ContainerCreate>,
}

impl View for DecodedSlot {
    type V = DecodedSlotV;

    open spec fn view(&self) -> DecodedSlotV {
        DecodedSlotV {
            key: self.key@,
            stamp: self.stamp,
            value: opt_element(self.value),
            container: self.container,
        }
    }
}

/// A map read from a snapshot.
pub struct DecodedMap {
    pub id: ElementId,
    pub slots: Vec<DecodedSlot>,
}

/// A read map, by value.
pub struct DecodedMapV {
    pub id: ElementId,
    pub slots: Seq<DecodedSlotV>,
}

/// Read slots, by value.
pub open spec fn decoded_view(s: Seq<DecodedSlot>) -> Seq<DecodedSlotV> {
    s.map_values(|d: DecodedSlot| d@)
}

impl View for DecodedMap {
    type V = DecodedMapV;

    open spec fn view(&self) -> DecodedMapV {
        DecodedMapV { id: self.id, slots: decoded_view(self.slots@) }
    }
}

#[verifier::opaque]
pub open spec fn parse_slot_value(s: Seq<u8>) -> Parsed<ElementV> {
    match parse_u8(s) {
        Err(e) => Err(e),
        Ok((0u8, r)) => match parse_scalar(r) {
            Err(e) => Err(e),
            Ok((v, r)) => Ok((ElementV::Scalar(v), r)),
        },
        Ok((1u8, r)) => match parse_register(r) {
            Err(e) => Err(e),
            Ok((v, r)) => Ok((ElementV::Register(v), r)),
        },
        Ok((tag, r)) => match ElementKind::spec_from_tag(tag) {
            None => Err(DecodeError::BadTag { what: "map slot value", tag }),
            Some(kind) => match parse_element_id(r) {
                Err(e) => Err(e),
                Ok((id, r)) => Ok((spec_handle(kind, id)->Some_0, r)),
            },
        },
    }
}

pub open spec fn parse_create(s: Seq<u8>) -> Parsed<ContainerCreate> {
    match parse_stamp(s) {
        Err(e) => Err(e),
        Ok((stamp, r)) => match parse_u8(r) {
            Err(e) => Err(e),
            Ok((tag, r)) => match ElementKind::spec_from_tag(tag) {
                Some(kind) if kind.spec_is_container() => Ok((ContainerCreate { stamp, kind }, r)),
                _ => Err(DecodeError::BadTag { what: "retained container kind", tag }),
            },
        },
    }
}

pub open spec fn parse_live(s: Seq<u8>, container: Option<ContainerCreate>) -> Parsed<
    (Option<ElementV>, Option<ContainerCreate>),
> {
    match parse_slot_value(s) {
        Err(e) => Err(e),
        Ok((v, r)) => Ok(((Some(v), container), r)),
    }
}

#[verifier::opaque]
pub open spec fn parse_slot_body(s: Seq<u8>) -> Parsed<
    (Option<ElementV>, Option<ContainerCreate>),
> {
    match parse_u8(s) {
        Err(e) => Err(e),
        Ok((0u8, r)) => parse_live(r, None),
        Ok((1u8, r)) => Ok(((None, None), r)),
        Ok((2u8, r)) => match parse_create(r) {
            Err(e) => Err(e),
            Ok((c, r)) => Ok(((None, Some(c)), r)),
        },
        Ok((3u8, r)) => match parse_create(r) {
            Err(e) => Err(e),
            Ok((c, r)) => parse_live(r, Some(c)),
        },
        Ok((tag, _)) => Err(DecodeError::BadTag { what: "map slot tombstone", tag }),
    }
}

pub open spec fn parse_slot(s: Seq<u8>) -> Parsed<DecodedSlotV> {
    match parse_bytes(s) {
        Err(e) => Err(e),
        Ok((key, r)) => match parse_stamp(r) {
            Err(e) => Err(e),
            Ok((stamp, r)) => match parse_slot_body(r) {
                Err(e) => Err(e),
                Ok(((value, container), r)) => Ok(
                    (DecodedSlotV { key, stamp, value, container }, r),
                ),
            },
        },
    }
}

pub open spec fn parse_slots(s: Seq<u8>, n: nat) -> Parsed<Seq<DecodedSlotV>>
    decreases n,
{
    if n == 0 {
        Ok((Seq::empty(), s))
    } else {
        match parse_slot(s) {
            Err(e) => Err(e),
            Ok((x, r)) => match parse_slots(r, (n - 1) as nat) {
                Err(e) => Err(e),
                Ok((xs, r)) => Ok((seq![x] + xs, r)),
            },
        }
    }
}

pub open spec fn parse_map(s: Seq<u8>) -> Parsed<DecodedMapV> {
    match parse_element_id(s) {
        Err(e) => Err(e),
        Ok((id, r)) => match parse_u32(r) {
            Err(e) => Err(e),
            Ok((n, r)) => match parse_slots(r, n as nat) {
                Err(e) => Err(e),
                Ok((slots, r)) => Ok((DecodedMapV { id, slots }, r)),
            },
        },
    }
}

/// The slot a read slot installs.
pub open spec fn installed(d: DecodedSlotV) -> SlotV {
    SlotV {
        stamp: d.stamp,
        value: d.value,
        container: spec_higher(d.container, spec_create_of(d.value, d.stamp)),
    }
}

/// The slots that read slots install, in order.
pub open spec fn install_all(s: Seq<DecodedSlotV>) -> Map<Seq<u8>, SlotV>
    decreases s.len(),
{
    if s.len() == 0 {
        Map::empty()
    } else {
        install_all(s.drop_last()).insert(s.last().key, installed(s.last()))
    }
}

// --- encoding and decoding ---

pub(crate) fn put_slot_value(out: &mut Vec<u8>, v: &Element)
    requires
        v@ matches ElementV::Scalar(s) ==> scalar_fits(s),
        v@ matches ElementV::Register(r) ==> scalar_fits(r.value),
    ensures
        final(out)@ == old(out)@ + enc_slot_value(v@),
{
    broadcast use lemma_concat_assoc;

    reveal(enc_slot_value);
    put_u8(out, v.kind().tag());
    match v {
        Element::Scalar(s) => put_scalar(out, s),
        Element::Register(r) => r.encode_state_into(out),
        Element::Counter(id) => put_element_id(out, id),
        Element::LwwMap(id) => put_element_id(out, id),
        Element::List(id) => put_element_id(out, id),
        Element::Text(id) => put_element_id(out, id),
        Element::XmlElement(id) => put_element_id(out, id),
        Element::XmlFragment(id) => put_element_id(out, id),
    }
}

fn put_create(out: &mut Vec<u8>, c: &ContainerCreate)
    ensures
        final(out)@ == old(out)@ + enc_create(*c),
{
    broadcast use lemma_concat_assoc;

    put_stamp(out, &c.stamp);
    put_u8(out, c.kind.tag());
}

/// The create a slot has to spell out.
fn to_spell(slot: &Slot) -> (r: Option<ContainerCreate>)
    ensures
        r == spelled(slot@),
{
    match (&slot.value, slot.container) {
        (Some(v), Some(c)) => {
            if v.is_container() && c.stamp == slot.stamp && c.kind == v.kind() {
                None
            } else {
                Some(c)
            }
        },
        (_, c) => c,
    }
}

fn put_slot_body(out: &mut Vec<u8>, key: &Vec<u8>, slot: &Slot)
    requires
        slot_fits(key@, slot@),
    ensures
        final(out)@ == old(out)@ + enc_slot_body(slot@),
{
    broadcast use lemma_concat_assoc;

    reveal(enc_slot_body);
    match (&slot.value, to_spell(slot)) {
        (Some(v), None) => {
            put_u8(out, SLOT_LIVE);
            put_slot_value(out, v);
        },
        (Some(v), Some(c)) => {
            put_u8(out, SLOT_LIVE_SHADOW);
            put_create(out, &c);
            put_slot_value(out, v);
        },
        (None, None) => put_u8(out, SLOT_LEAF_TOMB),
        (None, Some(c)) => {
            put_u8(out, SLOT_CONTAINER_TOMB);
            put_create(out, &c);
        },
    }
}

fn read_slot_value(cur: &mut Cursor) -> (r: Result<Element, DecodeError>)
    ensures
        reads_view(r, parse_slot_value(old(cur).rest@), final(cur).rest@),
{
    reveal(parse_slot_value);
    let tag: u8 = cur.u8()?;
    if tag == 0 {
        return Ok(Element::Scalar(cur.scalar()?));
    }
    if tag == 1 {
        return Ok(Element::Register(Register::decode_state_from(cur)?));
    }
    match ElementKind::from_tag(tag) {
        None => Err(DecodeError::BadTag { what: "map slot value", tag }),
        Some(kind) => {
            let id = cur.element_id()?;
            match Element::handle(kind, id) {
                Some(e) => Ok(e),
                None => Err(DecodeError::BadTag { what: "map slot value", tag }),
            }
        },
    }
}

fn read_create(cur: &mut Cursor) -> (r: Result<ContainerCreate, DecodeError>)
    ensures
        crate::codec::reads(r, parse_create(old(cur).rest@), final(cur).rest@),
{
    let stamp = cur.stamp()?;
    let tag: u8 = cur.u8()?;
    match ElementKind::from_tag(tag) {
        Some(kind) => {
            if kind.is_container() {
                return Ok(ContainerCreate { stamp, kind });
            }
        },
        None => {},
    }
    Err(DecodeError::BadTag { what: "retained container kind", tag })
}

fn read_slot(cur: &mut Cursor) -> (r: Result<DecodedSlot, DecodeError>)
    ensures
        reads_view(r, parse_slot(old(cur).rest@), final(cur).rest@),
{
    reveal(parse_slot_body);
    let key = cur.bytes()?;
    let stamp = cur.stamp()?;
    match cur.u8()? {
        SLOT_LIVE => {
            let v = read_slot_value(cur)?;
            Ok(DecodedSlot { key, stamp, value: Some(v), container: None })
        },
        SLOT_LEAF_TOMB => Ok(DecodedSlot { key, stamp, value: None, container: None }),
        SLOT_CONTAINER_TOMB => {
            let c = read_create(cur)?;
            Ok(DecodedSlot { key, stamp, value: None, container: Some(c) })
        },
        SLOT_LIVE_SHADOW => {
            let c = read_create(cur)?;
            let v = read_slot_value(cur)?;
            Ok(DecodedSlot { key, stamp, value: Some(v), container: Some(c) })
        },
        tag => Err(DecodeError::BadTag { what: "map slot tombstone", tag }),
    }
}

impl LwwMap {
    /// Append this map's state to `out`, slots in key order so equal states encode
    /// identically.
    pub fn encode_state_into(&self, out: &mut Vec<u8>)
        requires
            self.wf(),
            map_fits(self.slots.entries@),
        ensures
            final(out)@ == old(out)@ + enc_map(self.id, self.slots.entries@),
    {
        broadcast use lemma_concat_assoc;

        let ghost start = out@;
        let ghost s = self.slots.entries@;
        put_element_id(out, &self.id);
        put_u32(out, len_u32(self.slots.entries.len()));
        let mut i: usize = 0;
        proof {
            assert(s.skip(0) =~= s);
        }
        while i < self.slots.entries.len()
            invariant
                s == self.slots.entries@,
                map_fits(s),
                i <= s.len(),
                out@ + enc_slots(s.skip(i as int)) == start + enc_map(self.id, s),
            decreases s.len() - i,
        {
            proof {
                assert(s.skip(i as int).skip(1) =~= s.skip(i + 1));
                assert(s.skip(i as int)[0] == s[i as int]);
                assert(slot_fits(s[i as int].0@, s[i as int].1@));
            }
            let (key, slot) = &self.slots.entries[i];
            put_bytes(out, key.as_slice());
            put_stamp(out, &slot.stamp);
            put_slot_body(out, key, slot);
            i += 1;
        }
        proof {
            assert(s.skip(i as int) =~= Seq::empty());
            assert(out@ + enc_slots(Seq::empty()) =~= out@);
        }
    }

    /// Read a map's id and slots from `cur`, advancing it.
    pub(crate) fn decode_state_from(cur: &mut Cursor) -> (r: Result<DecodedMap, DecodeError>)
        ensures
            reads_view(r, parse_map(old(cur).rest@), final(cur).rest@),
    {
        let ghost all = cur.rest@;
        let id = cur.element_id()?;
        let count: u32 = cur.u32()?;
        let ghost start = cur.rest@;
        let mut slots: Vec<DecodedSlot> = Vec::new();
        let mut i: u32 = 0;
        proof {
            assert(decoded_view(slots@) =~= Seq::empty());
            if let Ok((rest, _)) = parse_slots(start, count as nat) {
                assert(Seq::<DecodedSlotV>::empty() + rest =~= rest);
            }
        }
        while i < count
            invariant
                i <= count,
                all == old(cur).rest@,
                parse_map(all) == match parse_slots(start, count as nat) {
                    Err(e) => Err::<(DecodedMapV, Seq<u8>), DecodeError>(e),
                    Ok((slots, r)) => Ok((DecodedMapV { id, slots }, r)),
                },
                match parse_slots(cur.rest@, (count - i) as nat) {
                    Ok((xs, r)) => parse_slots(start, count as nat) == Ok::<
                        (Seq<DecodedSlotV>, Seq<u8>),
                        DecodeError,
                    >((decoded_view(slots@) + xs, r)),
                    Err(e) => parse_slots(start, count as nat) == Err::<
                        (Seq<DecodedSlotV>, Seq<u8>),
                        DecodeError,
                    >(e),
                },
            decreases count - i,
        {
            let ghost done = decoded_view(slots@);
            let slot = read_slot(cur)?;
            let ghost sv = slot@;
            slots.push(slot);
            i += 1;
            proof {
                assert(decoded_view(slots@) =~= done.push(sv));
                if let Ok((xs, _)) = parse_slots(cur.rest@, (count - i) as nat) {
                    assert(done + (seq![sv] + xs) =~= decoded_view(slots@) + xs);
                }
            }
        }
        proof {
            assert(decoded_view(slots@) + Seq::<DecodedSlotV>::empty() =~= decoded_view(slots@));
        }
        Ok(DecodedMap { id, slots })
    }
}

// --- laws ---

pub proof fn rt_slot_value(v: ElementV, rest: Seq<u8>)
    requires
        v matches ElementV::Scalar(s) ==> scalar_fits(s),
        v matches ElementV::Register(r) ==> scalar_fits(r.value) && r.stamp.offset == 0,
    ensures
        parse_slot_value(enc_slot_value(v) + rest) == Ok::<(ElementV, Seq<u8>), DecodeError>(
            (v, rest),
        ),
{
    broadcast use {lemma_concat_assoc, rt_u8, rt_scalar, rt_register, rt_element_id};

    reveal(enc_slot_value);
    reveal(parse_slot_value);
}

proof fn rt_create(c: ContainerCreate, rest: Seq<u8>)
    requires
        c.stamp.offset == 0,
        c.kind.spec_is_container(),
    ensures
        parse_create(enc_create(c) + rest) == Ok::<(ContainerCreate, Seq<u8>), DecodeError>(
            (c, rest),
        ),
{
    broadcast use {lemma_concat_assoc, rt_u8, rt_stamp};

}

proof fn rt_slot_body(key: Seq<u8>, slot: SlotV, rest: Seq<u8>)
    requires
        slot_fits(key, slot),
        slot_carried(slot),
    ensures
        parse_slot_body(enc_slot_body(slot) + rest) == Ok::<
            ((Option<ElementV>, Option<ContainerCreate>), Seq<u8>),
            DecodeError,
        >(((slot.value, spelled(slot)), rest)),
{
    reveal(enc_slot_body);
    reveal(parse_slot_body);
    match (slot.value, spelled(slot)) {
        (Some(v), None) => {
            rt_slot_value(v, rest);
            lemma_concat_assoc(enc_u8(SLOT_LIVE), enc_slot_value(v), rest);
            rt_u8(SLOT_LIVE, enc_slot_value(v) + rest);
        },
        (Some(v), Some(c)) => {
            let tail = enc_slot_value(v) + rest;
            rt_slot_value(v, rest);
            rt_create(c, tail);
            lemma_concat_assoc(enc_u8(SLOT_LIVE_SHADOW) + enc_create(c), enc_slot_value(v), rest);
            lemma_concat_assoc(enc_u8(SLOT_LIVE_SHADOW), enc_create(c), tail);
            rt_u8(SLOT_LIVE_SHADOW, enc_create(c) + tail);
        },
        (None, None) => rt_u8(SLOT_LEAF_TOMB, rest),
        (None, Some(c)) => {
            rt_create(c, rest);
            lemma_concat_assoc(enc_u8(SLOT_CONTAINER_TOMB), enc_create(c), rest);
            rt_u8(SLOT_CONTAINER_TOMB, enc_create(c) + rest);
        },
    }
}

/// A slot as its bytes spell it.
pub open spec fn as_spelled(key: Seq<u8>, slot: SlotV) -> DecodedSlotV {
    DecodedSlotV { key, stamp: slot.stamp, value: slot.value, container: spelled(slot) }
}

/// Whether read slots are those of a map, one for one, and install them.
pub open spec fn reads_as(ds: Seq<DecodedSlotV>, s: Seq<(Vec<u8>, Slot)>) -> bool {
    ds.len() == s.len() && forall|i: int|
        0 <= i < s.len() ==> #[trigger] ds[i] == as_spelled(s[i].0@, s[i].1@) && installed(ds[i])
            == s[i].1@
}

/// A slot's bytes read back as the slot.
pub proof fn law_slot_round_trip(key: Seq<u8>, slot: SlotV, rest: Seq<u8>)
    requires
        slot_fits(key, slot),
        slot_carried(slot),
    ensures
        parse_slot(enc_slot(key, slot) + rest) == Ok::<(DecodedSlotV, Seq<u8>), DecodeError>(
            (as_spelled(key, slot), rest),
        ),
        installed(as_spelled(key, slot)) == slot,
{
    broadcast use {lemma_concat_assoc, rt_bytes, rt_stamp};

    rt_slot_body(key, slot, rest);
}

proof fn lemma_slots_read_back(s: Seq<(Vec<u8>, Slot)>, rest: Seq<u8>)
    requires
        map_fits(s),
        forall|i: int| 0 <= i < s.len() ==> slot_carried((#[trigger] s[i]).1@),
    ensures
        parse_slots(enc_slots(s) + rest, s.len()) matches Ok((ds, r)) && r == rest && reads_as(ds, s),
    decreases s.len(),
{
    if s.len() == 0 {
        assert(enc_slots(s) + rest =~= rest);
    } else {
        let t = s.skip(1);
        assert forall|i: int| 0 <= i < t.len() implies slot_fits((#[trigger] t[i]).0@, t[i].1@)
            && slot_carried(t[i].1@) by {
            assert(t[i] == s[i + 1]);
        }
        lemma_slots_read_back(t, rest);
        let tail = enc_slots(t) + rest;
        assert(slot_fits(s[0].0@, s[0].1@) && slot_carried(s[0].1@));
        law_slot_round_trip(s[0].0@, s[0].1@, tail);
        lemma_concat_assoc(enc_slot(s[0].0@, s[0].1@), enc_slots(t), rest);
        let (ds, r) = parse_slots(tail, t.len())->Ok_0;
        let (d, _) = parse_slot(enc_slots(s) + rest)->Ok_0;
        let all = seq![d] + ds;
        assert(parse_slots(enc_slots(s) + rest, s.len()) == Ok::<
            (Seq<DecodedSlotV>, Seq<u8>),
            DecodeError,
        >((all, rest)));
        assert forall|i: int| 0 <= i < s.len() implies #[trigger] all[i] == as_spelled(
            s[i].0@,
            s[i].1@,
        ) && installed(all[i]) == s[i].1@ by {
            if i > 0 {
                assert(all[i] == ds[i - 1]);
                assert(s[i] == t[i - 1]);
            }
        }
    }
}

proof fn lemma_install_all(s: Seq<(Vec<u8>, Slot)>, ds: Seq<DecodedSlotV>, n: int)
    requires
        sorted(s),
        reads_as(ds, s),
        0 <= n <= s.len(),
    ensures
        install_all(ds.take(n)) == slots_view(seq_map::<Vec<u8>, Slot>(s.take(n))),
    decreases n,
{
    if n == 0 {
        assert(slots_view(seq_map::<Vec<u8>, Slot>(s.take(0))) =~= Map::empty());
    } else {
        lemma_install_all(s, ds, n - 1);
        assert(ds.take(n).drop_last() =~= ds.take(n - 1));
        lemma_take::<Vec<u8>, Slot>(s, n - 1);
        let m = seq_map::<Vec<u8>, Slot>(s.take(n - 1));
        assert(slots_view(m.insert(s[n - 1].0@, s[n - 1].1)) =~= slots_view(m).insert(
            s[n - 1].0@,
            s[n - 1].1@,
        ));
    }
}

/// A map's bytes read back, slot by slot, as the map's id and slots.
pub proof fn law_map_state_round_trip(m: LwwMap, rest: Seq<u8>)
    requires
        m.wf(),
        map_fits(m.slots.entries@),
        forall|i: int|
            0 <= i < m.slots.entries@.len() ==> slot_carried((#[trigger] m.slots.entries@[i]).1@),
    ensures
        parse_map(enc_map(m.id, m.slots.entries@) + rest) matches Ok((d, r)) && r == rest && d.id
            == m.id && install_all(d.slots) == m@.slots && reads_as(d.slots, m.slots.entries@),
{
    broadcast use {lemma_concat_assoc, rt_element_id, rt_u32};

    let s = m.slots.entries@;
    lemma_slots_read_back(s, rest);
    let (ds, _) = parse_slots(enc_slots(s) + rest, s.len())->Ok_0;
    lemma_install_all(s, ds, s.len() as int);
    assert(ds.take(s.len() as int) =~= ds);
    assert(s.take(s.len() as int) =~= s);
}

/// Two replicas' maps with equal slots have equal bytes.
pub proof fn law_equal_maps_encode_identically(a: LwwMap, b: LwwMap)
    requires
        a.wf(),
        b.wf(),
        a.id == b.id,
        a@.slots == b@.slots,
    ensures
        enc_map(a.id, a.slots.entries@) == enc_map(b.id, b.slots.entries@),
{
    lemma_equal_slots(a.slots.entries@, b.slots.entries@);
}

proof fn lemma_equal_slots(a: Seq<(Vec<u8>, Slot)>, b: Seq<(Vec<u8>, Slot)>)
    requires
        sorted(a),
        sorted(b),
        slots_view(seq_map::<Vec<u8>, Slot>(a)) == slots_view(seq_map::<Vec<u8>, Slot>(b)),
    ensures
        a.len() == b.len(),
        enc_slots(a) == enc_slots(b),
{
    crate::map_laws::lemma_same_entries(a, b);
    lemma_enc_slots_ext(a, b);
}

proof fn lemma_enc_slots_ext(a: Seq<(Vec<u8>, Slot)>, b: Seq<(Vec<u8>, Slot)>)
    requires
        a.len() == b.len(),
        forall|i: int| 0 <= i < a.len() ==> (#[trigger] a[i]).0@ == b[i].0@ && a[i].1@ == b[i].1@,
    ensures
        enc_slots(a) == enc_slots(b),
    decreases a.len(),
{
    if a.len() > 0 {
        let x = a.skip(1);
        let y = b.skip(1);
        assert forall|i: int| 0 <= i < x.len() implies (#[trigger] x[i]).0@ == y[i].0@ && x[i].1@
            == y[i].1@ by {
            assert(x[i] == a[i + 1] && y[i] == b[i + 1]);
        }
        assert(a[0].0@ == b[0].0@);
        lemma_enc_slots_ext(x, y);
    }
}

} // verus!
