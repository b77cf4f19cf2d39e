//! Reading a replica's state section by section.

use crate::annot::{
    AclEntry, AclEntryV, GroupKey, Payload, PayloadV, Placement, Places, RangedEntry, RangedEntryV,
};
use crate::bytes::opt_bytes;
use crate::clientid::ClientId;
use crate::codec::{Cursor, DecodeError};
use crate::counter::{parse_counter, Counter};
use crate::element::{Element, ElementV};
use crate::elementid::{ElementId, ElementKind};
use crate::format::{
    parse_acl_effect, parse_acl_grant, parse_acl_subject, parse_bytes, parse_client,
    parse_composite_payload_kind, parse_element_id, parse_opt_bytes, parse_range_anchor,
    parse_scalar, parse_stamp, parse_u32, parse_u64, parse_u8, Parsed,
};
use crate::identity::{payload_id, spec_payload_id};
use crate::list::{List, SeqKey, Node};
use crate::list_state::parse_list;
use crate::many::parse_fold;
use crate::map::LwwMap;
use crate::map_state::{
    decoded_view, installed, parse_map, DecodedMap, DecodedMapV, DecodedSlot, DecodedSlotV,
};
use crate::op::{OpId, TxId};
use crate::registry::Registry;
use crate::stamp::{Stamp, LAMPORT_STATE_CEILING};
use crate::table::{lemma_entry, Key, Table};
use crate::text::{parse_text_state, Text};
use crate::tree::{empty_map, Tree, TreeV};
use crate::treemove::MoveEdge;
use crate::xml::{node_attrs_id, node_children_id, XmlElement, XmlElementV, XmlFragment};
use vstd::prelude::*;

verus! {

/// What has been read of a snapshot: the state so far, the maps whose slots are still to
/// be installed, and the moves still to be replayed.
pub struct Loading {
    pub zone_clocks: Table<u32, u64>,
    pub tree: Tree,
    pub decoded: Vec<DecodedMap>,
    pub log: Vec<(Stamp, MoveEdge)>,
    pub seen: Table<OpId, ()>,
    pub resolved: Table<GroupKey, ()>,
}

/// The same, by value.
#[verifier::ext_equal]
pub struct LoadV {
    pub zone_clocks: Map<u32, u64>,
    pub tree: TreeV,
    pub decoded: Seq<DecodedMapV>,
    pub log: Seq<(Stamp, MoveEdge)>,
    pub seen: Set<OpId>,
    pub resolved: Set<GroupKey>,
}

/// Read maps, by value.
pub open spec fn maps_view(s: Seq<DecodedMap>) -> Seq<DecodedMapV> {
    s.map_values(|m: DecodedMap| m@)
}

impl View for Loading {
    type V = LoadV;

    open spec fn view(&self) -> LoadV {
        LoadV {
            zone_clocks: self.zone_clocks@,
            tree: self.tree@,
            decoded: maps_view(self.decoded@),
            log: self.log@,
            seen: self.seen@.dom(),
            resolved: self.resolved@.dom(),
        }
    }
}

/// The sections of a snapshot.
#[derive(Clone, Copy, PartialEq, Eq, Debug, Structural)]
pub enum Section {
    ZoneClocks,
    HighWater,
    Counters,
    Lists,
    Texts,
    Maps,
    XmlElements,
    XmlFragments,
    Moves,
    Placements,
    Ranged,
    Acl,
    Parents,
    Seen,
    Resolved,
}

/// What a malformed snapshot is refused with.
pub open spec fn bad(what: &'static str) -> DecodeError {
    DecodeError::BadTag { what, tag: 0 }
}

impl TreeV {
    /// Nothing at all, not even the root.
    pub open spec fn bare() -> TreeV {
        TreeV { maps: Map::empty(), ..TreeV::empty() }
    }

    /// Whether a handle names something registered. A leaf is its own.
    pub open spec fn has_element(self, e: ElementV) -> bool {
        match e {
            ElementV::Scalar(_) => true,
            ElementV::Register(_) => true,
            ElementV::Counter(id) => self.counters.dom().contains(id),
            ElementV::LwwMap(id) => self.maps.dom().contains(id),
            ElementV::List(id) => self.lists.dom().contains(id),
            ElementV::Text(id) => self.texts.dom().contains(id),
            ElementV::XmlElement(id) => self.xml_elements.dom().contains(id),
            ElementV::XmlFragment(id) => self.xml_fragments.dom().contains(id),
        }
    }

    /// Whether an annotation's payload container is registered.
    pub open spec fn has_payload(self, id: ElementId, kind: ElementKind) -> bool {
        match kind {
            ElementKind::LwwMap => self.maps.dom().contains(spec_payload_id(id, kind)),
            ElementKind::List => self.lists.dom().contains(spec_payload_id(id, kind)),
            ElementKind::Text => self.texts.dom().contains(spec_payload_id(id, kind)),
            _ => false,
        }
    }

    /// Whether every sequence node's handle names something registered.
    pub open spec fn items_resolve(self) -> bool {
        forall|l: ElementId, s: Stamp|
            self.lists.dom().contains(l) && #[trigger] self.lists[l].items.dom().contains(s)
                ==> self.has_element(self.lists[l].items[s].value)
    }
}

impl LoadV {
    pub open spec fn with_tree(self, tree: TreeV) -> LoadV {
        LoadV { tree, ..self }
    }
}

// --- records ---

pub open spec fn parse_zone_clock(l: LoadV, s: Seq<u8>) -> Parsed<LoadV> {
    match parse_u32(s) {
        Err(e) => Err(e),
        Ok((zone, r)) => match parse_u64(r) {
            Err(e) => Err(e),
            Ok((n, r)) => if n > LAMPORT_STATE_CEILING {
                Err(bad("document: zone clock"))
            } else if l.zone_clocks.dom().contains(zone) {
                Err(bad("document: duplicate zone clock"))
            } else {
                Ok((LoadV { zone_clocks: l.zone_clocks.insert(zone, n), ..l }, r))
            },
        },
    }
}

pub open spec fn parse_water(l: LoadV, s: Seq<u8>) -> Parsed<LoadV> {
    match parse_client(s) {
        Err(e) => Err(e),
        Ok((c, r)) => match parse_u64(r) {
            Err(e) => Err(e),
            Ok((n, r)) => if n > LAMPORT_STATE_CEILING {
                Err(bad("document: stamp high-water"))
            } else if l.tree.high_water.dom().contains(c) {
                Err(bad("document: duplicate stamp high-water"))
            } else {
                Ok(
                    (
                        l.with_tree(
                            TreeV { high_water: l.tree.high_water.insert(c, n), ..l.tree },
                        ),
                        r,
                    ),
                )
            },
        },
    }
}

pub open spec fn parse_counter_record(l: LoadV, s: Seq<u8>) -> Parsed<LoadV> {
    match parse_counter(s) {
        Err(e) => Err(e),
        Ok((c, r)) => if l.tree.counters.dom().contains(c.id) {
            Err(bad("document: duplicate registry id"))
        } else {
            Ok(
                (
                    l.with_tree(TreeV { counters: l.tree.counters.insert(c.id, c), ..l.tree }),
                    r,
                ),
            )
        },
    }
}

pub open spec fn parse_list_record(l: LoadV, s: Seq<u8>) -> Parsed<LoadV> {
    match parse_list(s) {
        Err(e) => Err(e),
        Ok((x, r)) => if l.tree.lists.dom().contains(x.id) {
            Err(bad("document: duplicate list id"))
        } else {
            Ok((l.with_tree(TreeV { lists: l.tree.lists.insert(x.id, x), ..l.tree }), r))
        },
    }
}

pub open spec fn parse_text_record(l: LoadV, s: Seq<u8>) -> Parsed<LoadV> {
    match parse_text_state(s) {
        Err(e) => Err(e),
        Ok((x, r)) => if l.tree.texts.dom().contains(x.id) {
            Err(bad("document: duplicate registry id"))
        } else {
            Ok((l.with_tree(TreeV { texts: l.tree.texts.insert(x.id, x), ..l.tree }), r))
        },
    }
}

/// A map is registered empty; its slots are installed once everything they may name is.
pub open spec fn parse_map_record(l: LoadV, s: Seq<u8>) -> Parsed<LoadV> {
    match parse_map(s) {
        Err(e) => Err(e),
        Ok((m, r)) => if l.tree.maps.dom().contains(m.id) {
            Err(bad("document: duplicate map id"))
        } else {
            Ok(
                (
                    LoadV {
                        tree: TreeV {
                            maps: l.tree.maps.insert(m.id, empty_map(m.id)),
                            ..l.tree
                        },
                        decoded: l.decoded.push(m),
                        ..l
                    },
                    r,
                ),
            )
        },
    }
}

pub open spec fn parse_xml_element_record(l: LoadV, s: Seq<u8>) -> Parsed<LoadV> {
    match parse_element_id(s) {
        Err(e) => Err(e),
        Ok((id, r)) => match parse_bytes(r) {
            Err(e) => Err(e),
            Ok((tag, r)) => if !l.tree.maps.dom().contains(node_attrs_id(id)) {
                Err(bad("xml element: missing attrs map"))
            } else if !l.tree.lists.dom().contains(node_children_id(id)) {
                Err(bad("xml element: missing children list"))
            } else if l.tree.xml_elements.dom().contains(id) {
                Err(bad("document: duplicate xml element id"))
            } else {
                Ok(
                    (
                        l.with_tree(
                            TreeV {
                                xml_elements: l.tree.xml_elements.insert(
                                    id,
                                    XmlElementV { tag, displaced: false },
                                ),
                                ..l.tree
                            },
                        ),
                        r,
                    ),
                )
            },
        },
    }
}

pub open spec fn parse_xml_fragment_record(l: LoadV, s: Seq<u8>) -> Parsed<LoadV> {
    match parse_element_id(s) {
        Err(e) => Err(e),
        Ok((id, r)) => if !l.tree.lists.dom().contains(node_children_id(id)) {
            Err(bad("xml fragment: missing children list"))
        } else if l.tree.xml_fragments.dom().contains(id) {
            Err(bad("document: duplicate xml fragment id"))
        } else {
            Ok(
                (
                    l.with_tree(
                        TreeV {
                            xml_fragments: l.tree.xml_fragments.insert(
                                id,
                                XmlFragment { displaced: false },
                            ),
                            ..l.tree
                        },
                    ),
                    r,
                ),
            )
        },
    }
}

pub open spec fn parse_move_record(l: LoadV, s: Seq<u8>) -> Parsed<LoadV> {
    match parse_stamp(s) {
        Err(e) => Err(e),
        Ok((stamp, r)) => match parse_element_id(r) {
            Err(e) => Err(e),
            Ok((child, r)) => match parse_element_id(r) {
                Err(e) => Err(e),
                Ok((parent, r)) => Ok(
                    (LoadV { log: l.log.push((stamp, MoveEdge { child, parent })), ..l }, r),
                ),
            },
        },
    }
}

/// A node's placements so far, and which node owns each placement.
pub struct PlacesV {
    pub index: Map<Placement, ElementId>,
    pub places: Seq<Placement>,
}

pub open spec fn parse_place(node: ElementId, p: PlacesV, s: Seq<u8>) -> Parsed<PlacesV> {
    match parse_element_id(s) {
        Err(e) => Err(e),
        Ok((list, r)) => match parse_stamp(r) {
            Err(e) => Err(e),
            Ok((stamp, r)) => {
                let at = Placement { list, stamp };
                if p.index.dom().contains(at) {
                    Err(bad("document: duplicate placement"))
                } else {
                    Ok((PlacesV { index: p.index.insert(at, node), places: p.places.push(at) }, r))
                }
            },
        },
    }
}

pub open spec fn place_step(node: ElementId) -> spec_fn(PlacesV, Seq<u8>) -> Parsed<PlacesV> {
    |p: PlacesV, s: Seq<u8>| parse_place(node, p, s)
}

pub open spec fn parse_placement_record(l: LoadV, s: Seq<u8>) -> Parsed<LoadV> {
    match parse_element_id(s) {
        Err(e) => Err(e),
        Ok((node, r)) => match parse_u32(r) {
            Err(e) => Err(e),
            Ok((n, r)) => match parse_fold(
                r,
                n as nat,
                PlacesV { index: l.tree.placement_index, places: Seq::empty() },
                place_step(node),
            ) {
                Err(e) => Err(e),
                Ok((p, r)) => if l.tree.placements.dom().contains(node) {
                    Err(bad("document: duplicate placement node"))
                } else {
                    Ok(
                        (
                            l.with_tree(
                                TreeV {
                                    placement_index: p.index,
                                    placements: l.tree.placements.insert(node, p.places),
                                    ..l.tree
                                },
                            ),
                            r,
                        ),
                    )
                },
            },
        },
    }
}

/// An annotation's payload. A composite one names a container that has to be here.
pub open spec fn parse_payload(t: TreeV, id: ElementId, s: Seq<u8>) -> Parsed<PayloadV> {
    match parse_u8(s) {
        Err(e) => Err(e),
        Ok((0u8, r)) => match parse_scalar(r) {
            Err(e) => Err(e),
            Ok((value, r)) => match parse_stamp(r) {
                Err(e) => Err(e),
                Ok((stamp, r)) => Ok((PayloadV::Scalar { value, stamp }, r)),
            },
        },
        Ok((1u8, r)) => match parse_composite_payload_kind(r) {
            Err(e) => Err(e),
            Ok((kind, r)) => if t.has_payload(id, kind) {
                Ok((PayloadV::Composite { kind }, r))
            } else {
                Err(bad("ranged composite payload: missing container"))
            },
        },
        Ok((tag, _)) => Err(DecodeError::BadTag { what: "ranged element payload flavor", tag }),
    }
}

pub open spec fn parse_flag(s: Seq<u8>) -> Parsed<bool> {
    match parse_u8(s) {
        Err(e) => Err(e),
        Ok((0u8, r)) => Ok((false, r)),
        Ok((1u8, r)) => Ok((true, r)),
        Ok((tag, _)) => Err(DecodeError::BadTag { what: "ranged element tombstone flag", tag }),
    }
}

#[verifier::opaque]
pub open spec fn parse_ranged_record(l: LoadV, s: Seq<u8>) -> Parsed<LoadV> {
    match parse_element_id(s) {
        Err(e) => Err(e),
        Ok((id, r)) => match parse_range_anchor(r) {
            Err(e) => Err(e),
            Ok((start, r)) => match parse_range_anchor(r) {
                Err(e) => Err(e),
                Ok((end, r)) => match parse_payload(l.tree, id, r) {
                    Err(e) => Err(e),
                    Ok((payload, r)) => match parse_opt_bytes(r) {
                        Err(e) => Err(e),
                        Ok((name, r)) => match parse_flag(r) {
                            Err(e) => Err(e),
                            Ok((tombstone, r)) => if l.tree.ranged.dom().contains(id) {
                                Err(bad("document: duplicate ranged element"))
                            } else {
                                Ok(
                                    (
                                        l.with_tree(
                                            TreeV {
                                                ranged: l.tree.ranged.insert(
                                                    id,
                                                    RangedEntryV {
                                                        start,
                                                        end,
                                                        payload,
                                                        name,
                                                        tombstone,
                                                    },
                                                ),
                                                ..l.tree
                                            },
                                        ),
                                        r,
                                    ),
                                )
                            },
                        },
                    },
                },
            },
        },
    }
}

pub open spec fn parse_revoker(c: Set<ClientId>, s: Seq<u8>) -> Parsed<Set<ClientId>> {
    match parse_client(s) {
        Err(e) => Err(e),
        Ok((x, r)) => Ok((c.insert(x), r)),
    }
}

pub open spec fn revoker_step() -> spec_fn(Set<ClientId>, Seq<u8>) -> Parsed<Set<ClientId>> {
    |c: Set<ClientId>, s: Seq<u8>| parse_revoker(c, s)
}

pub open spec fn parse_revokers(s: Seq<u8>) -> Parsed<Set<ClientId>> {
    match parse_u32(s) {
        Err(e) => Err(e),
        Ok((n, r)) => parse_fold(r, n as nat, Set::<ClientId>::empty(), revoker_step()),
    }
}

#[verifier::opaque]
pub open spec fn parse_acl_record(l: LoadV, s: Seq<u8>) -> Parsed<LoadV> {
    match parse_element_id(s) {
        Err(e) => Err(e),
        Ok((id, r)) => match parse_acl_subject(r) {
            Err(e) => Err(e),
            Ok((subject, r)) => match parse_acl_grant(r) {
                Err(e) => Err(e),
                Ok((grant, r)) => match parse_acl_effect(r) {
                    Err(e) => Err(e),
                    Ok((effect, r)) => match parse_bytes(r) {
                        Err(e) => Err(e),
                        Ok((path, r)) => match parse_client(r) {
                            Err(e) => Err(e),
                            Ok((grantor, r)) => match parse_revokers(r) {
                                Err(e) => Err(e),
                                Ok((revokers, r)) => if l.tree.acl.dom().contains(id) {
                                    Err(bad("document: duplicate acl tuple"))
                                } else {
                                    Ok(
                                        (
                                            l.with_tree(
                                                TreeV {
                                                    acl: l.tree.acl.insert(
                                                        id,
                                                        AclEntryV {
                                                            subject,
                                                            grant,
                                                            effect,
                                                            path,
                                                            grantor,
                                                            revokers,
                                                        },
                                                    ),
                                                    ..l.tree
                                                },
                                            ),
                                            r,
                                        ),
                                    )
                                },
                            },
                        },
                    },
                },
            },
        },
    }
}

pub open spec fn parse_parent_record(l: LoadV, s: Seq<u8>) -> Parsed<LoadV> {
    match parse_element_id(s) {
        Err(e) => Err(e),
        Ok((child, r)) => match parse_element_id(r) {
            Err(e) => Err(e),
            Ok((parent, r)) => if l.tree.parents.dom().contains(child) {
                Err(bad("document: duplicate parent link"))
            } else {
                Ok(
                    (
                        l.with_tree(
                            TreeV { parents: l.tree.parents.insert(child, parent), ..l.tree },
                        ),
                        r,
                    ),
                )
            },
        },
    }
}

pub open spec fn parse_seen_record(l: LoadV, s: Seq<u8>) -> Parsed<LoadV> {
    match parse_client(s) {
        Err(e) => Err(e),
        Ok((client, r)) => match parse_u64(r) {
            Err(e) => Err(e),
            Ok((seq, r)) => if l.seen.contains(OpId { client, seq }) {
                Err(bad("document: duplicate seen op"))
            } else {
                Ok((LoadV { seen: l.seen.insert(OpId { client, seq }), ..l }, r))
            },
        },
    }
}

pub open spec fn parse_resolved_record(l: LoadV, s: Seq<u8>) -> Parsed<LoadV> {
    match parse_client(s) {
        Err(e) => Err(e),
        Ok((client, r)) => match parse_u64(r) {
            Err(e) => Err(e),
            Ok((n, r)) => {
                let key = GroupKey { client, tx: TxId(n) };
                if l.resolved.contains(key) {
                    Err(bad("document: duplicate resolved group key"))
                } else {
                    Ok((LoadV { resolved: l.resolved.insert(key), ..l }, r))
                }
            },
        },
    }
}

/// One record of a section.
pub open spec fn parse_record(which: Section, l: LoadV, s: Seq<u8>) -> Parsed<LoadV> {
    match which {
        Section::ZoneClocks => parse_zone_clock(l, s),
        Section::HighWater => parse_water(l, s),
        Section::Counters => parse_counter_record(l, s),
        Section::Lists => parse_list_record(l, s),
        Section::Texts => parse_text_record(l, s),
        Section::Maps => parse_map_record(l, s),
        Section::XmlElements => parse_xml_element_record(l, s),
        Section::XmlFragments => parse_xml_fragment_record(l, s),
        Section::Moves => parse_move_record(l, s),
        Section::Placements => parse_placement_record(l, s),
        Section::Ranged => parse_ranged_record(l, s),
        Section::Acl => parse_acl_record(l, s),
        Section::Parents => parse_parent_record(l, s),
        Section::Seen => parse_seen_record(l, s),
        Section::Resolved => parse_resolved_record(l, s),
    }
}

pub open spec fn record_step(which: Section) -> spec_fn(LoadV, Seq<u8>) -> Parsed<LoadV> {
    |l: LoadV, s: Seq<u8>| parse_record(which, l, s)
}

/// A whole section: a count and its records.
#[verifier::opaque]
pub open spec fn parse_section(which: Section, l: LoadV, s: Seq<u8>) -> Parsed<LoadV> {
    match parse_u32(s) {
        Err(e) => Err(e),
        Ok((n, r)) => parse_fold(r, n as nat, l, record_step(which)),
    }
}

// --- reading ---

fn bad_tag(what: &'static str) -> (e: DecodeError)
    ensures
        e == bad(what),
{
    DecodeError::BadTag { what, tag: 0 }
}

/// What a reading into a loading snapshot did.
pub open spec fn reads_into(
    got: Result<(), DecodeError>,
    p: Parsed<LoadV>,
    after: LoadV,
    rest: Seq<u8>,
) -> bool {
    match got {
        Ok(_) => p == Ok::<(LoadV, Seq<u8>), DecodeError>((after, rest)),
        Err(e) => p == Err::<(LoadV, Seq<u8>), DecodeError>(e),
    }
}

impl Loading {
    pub open spec fn sound(&self) -> bool {
        self.zone_clocks.wf() && self.tree.sound() && self.seen.wf() && self.resolved.wf()
    }

    pub fn new() -> (l: Self)
        ensures
            l.sound(),
            l@ == (LoadV {
                zone_clocks: Map::empty(),
                tree: TreeV::bare(),
                decoded: Seq::empty(),
                log: Seq::empty(),
                seen: Set::empty(),
                resolved: Set::empty(),
            }),
    {
        let mut tree = Tree::new();
        tree.maps = Registry::new();
        let l = Loading {
            zone_clocks: Table::new(),
            tree,
            decoded: Vec::new(),
            log: Vec::new(),
            seen: Table::new(),
            resolved: Table::new(),
        };
        proof {
            assert(l@.tree =~= TreeV::bare());
            assert(l@.decoded =~= Seq::empty());
            assert(l@.seen =~= Set::empty());
            assert(l@.resolved =~= Set::empty());
            assert(l@ =~= (LoadV {
                zone_clocks: Map::empty(),
                tree: TreeV::bare(),
                decoded: Seq::empty(),
                log: Seq::empty(),
                seen: Set::empty(),
                resolved: Set::empty(),
            }));
        }
        l
    }

    fn read_zone_clock(&mut self, cur: &mut Cursor) -> (r: Result<(), DecodeError>)
        requires
            old(self).sound(),
        ensures
            final(self).sound(),
            reads_into(
                r,
                parse_zone_clock(old(self)@, old(cur).rest@),
                final(self)@,
                final(cur).rest@,
            ),
    {
        let zone: u32 = cur.u32()?;
        let n: u64 = cur.u64()?;
        if n > LAMPORT_STATE_CEILING {
            return Err(bad_tag("document: zone clock"));
        }
        if self.zone_clocks.contains_key(&zone) {
            return Err(bad_tag("document: duplicate zone clock"));
        }
        self.zone_clocks.insert(zone, n);
        proof {
            assert(self@ =~= (LoadV {
                zone_clocks: old(self)@.zone_clocks.insert(zone, n),
                ..old(self)@
            }));
        }
        Ok(())
    }

    fn read_water(&mut self, cur: &mut Cursor) -> (r: Result<(), DecodeError>)
        requires
            old(self).sound(),
        ensures
            final(self).sound(),
            reads_into(
                r,
                parse_water(old(self)@, old(cur).rest@),
                final(self)@,
                final(cur).rest@,
            ),
    {
        let c = cur.client()?;
        let n: u64 = cur.u64()?;
        if n > LAMPORT_STATE_CEILING {
            return Err(bad_tag("document: stamp high-water"));
        }
        if self.tree.high_water.contains_key(&c) {
            return Err(bad_tag("document: duplicate stamp high-water"));
        }
        let ghost t = self@.tree;
        self.tree.high_water.insert(c, n);
        proof {
            assert(self@.tree =~= (TreeV { high_water: t.high_water.insert(c, n), ..t }));
            assert(self@ =~= old(self)@.with_tree(self@.tree));
        }
        Ok(())
    }

    fn read_counter(&mut self, cur: &mut Cursor) -> (r: Result<(), DecodeError>)
        requires
            old(self).sound(),
        ensures
            final(self).sound(),
            reads_into(
                r,
                parse_counter_record(old(self)@, old(cur).rest@),
                final(self)@,
                final(cur).rest@,
            ),
    {
        let c = Counter::decode_state_from(cur)?;
        let id = c.id();
        if self.tree.counters.contains(id) {
            return Err(bad_tag("document: duplicate registry id"));
        }
        let ghost t = self@.tree;
        let ghost cv = c@;
        self.tree.counters.insert(id, c);
        proof {
            assert(self@.tree =~= (TreeV { counters: t.counters.insert(id, cv), ..t }));
            assert(self@ =~= old(self)@.with_tree(self@.tree));
        }
        Ok(())
    }

    fn read_list(&mut self, cur: &mut Cursor) -> (r: Result<(), DecodeError>)
        requires
            old(self).sound(),
        ensures
            final(self).sound(),
            reads_into(
                r,
                parse_list_record(old(self)@, old(cur).rest@),
                final(self)@,
                final(cur).rest@,
            ),
    {
        let l = List::decode_state_from(cur)?;
        let id = l.id();
        if self.tree.lists.contains(id) {
            return Err(bad_tag("document: duplicate list id"));
        }
        let ghost t = self@.tree;
        let ghost lv = l@;
        self.tree.lists.insert(id, l);
        proof {
            assert(self@.tree =~= (TreeV { lists: t.lists.insert(id, lv), ..t }));
            assert(self@ =~= old(self)@.with_tree(self@.tree));
        }
        Ok(())
    }

    fn read_text(&mut self, cur: &mut Cursor) -> (r: Result<(), DecodeError>)
        requires
            old(self).sound(),
        ensures
            final(self).sound(),
            reads_into(
                r,
                parse_text_record(old(self)@, old(cur).rest@),
                final(self)@,
                final(cur).rest@,
            ),
    {
        let x = Text::decode_state_from(cur)?;
        let id = x.id();
        if self.tree.texts.contains(id) {
            return Err(bad_tag("document: duplicate registry id"));
        }
        let ghost t = self@.tree;
        let ghost xv = x@;
        self.tree.texts.insert(id, x);
        proof {
            assert(self@.tree =~= (TreeV { texts: t.texts.insert(id, xv), ..t }));
            assert(self@ =~= old(self)@.with_tree(self@.tree));
        }
        Ok(())
    }

    fn read_map(&mut self, cur: &mut Cursor) -> (r: Result<(), DecodeError>)
        requires
            old(self).sound(),
        ensures
            final(self).sound(),
            reads_into(
                r,
                parse_map_record(old(self)@, old(cur).rest@),
                final(self)@,
                final(cur).rest@,
            ),
    {
        let m = LwwMap::decode_state_from(cur)?;
        let id = m.id;
        if self.tree.maps.contains(id) {
            return Err(bad_tag("document: duplicate map id"));
        }
        let ghost t = self@.tree;
        let ghost d = self.decoded@;
        let ghost mv = m@;
        self.tree.maps.insert(id, LwwMap::new(id));
        self.decoded.push(m);
        proof {
            assert(maps_view(self.decoded@) =~= maps_view(d).push(mv));
            assert(self@.tree =~= (TreeV { maps: t.maps.insert(id, empty_map(id)), ..t }));
            assert(self@ =~= (LoadV {
                tree: self@.tree,
                decoded: old(self)@.decoded.push(mv),
                ..old(self)@
            }));
        }
        Ok(())
    }

    fn read_xml_element(&mut self, cur: &mut Cursor) -> (r: Result<(), DecodeError>)
        requires
            old(self).sound(),
        ensures
            final(self).sound(),
            reads_into(
                r,
                parse_xml_element_record(old(self)@, old(cur).rest@),
                final(self)@,
                final(cur).rest@,
            ),
    {
        let id = cur.element_id()?;
        let tag = cur.bytes()?;
        if !self.tree.maps.contains(XmlElement::attrs_id(id)) {
            return Err(bad_tag("xml element: missing attrs map"));
        }
        if !self.tree.lists.contains(XmlElement::children_id(id)) {
            return Err(bad_tag("xml element: missing children list"));
        }
        if self.tree.xml_elements.contains(id) {
            return Err(bad_tag("document: duplicate xml element id"));
        }
        let ghost t = self@.tree;
        let x = XmlElement { tag, displaced: false };
        let ghost xv = x@;
        self.tree.xml_elements.insert(id, x);
        proof {
            assert(self@.tree =~= (TreeV { xml_elements: t.xml_elements.insert(id, xv), ..t }));
            assert(self@ =~= old(self)@.with_tree(self@.tree));
        }
        Ok(())
    }

    fn read_xml_fragment(&mut self, cur: &mut Cursor) -> (r: Result<(), DecodeError>)
        requires
            old(self).sound(),
        ensures
            final(self).sound(),
            reads_into(
                r,
                parse_xml_fragment_record(old(self)@, old(cur).rest@),
                final(self)@,
                final(cur).rest@,
            ),
    {
        let id = cur.element_id()?;
        if !self.tree.lists.contains(XmlFragment::children_id(id)) {
            return Err(bad_tag("xml fragment: missing children list"));
        }
        if self.tree.xml_fragments.contains(id) {
            return Err(bad_tag("document: duplicate xml fragment id"));
        }
        let ghost t = self@.tree;
        let x = XmlFragment { displaced: false };
        self.tree.xml_fragments.insert(id, x);
        proof {
            assert(self@.tree =~= (TreeV { xml_fragments: t.xml_fragments.insert(id, x), ..t }));
            assert(self@ =~= old(self)@.with_tree(self@.tree));
        }
        Ok(())
    }

    fn read_move(&mut self, cur: &mut Cursor) -> (r: Result<(), DecodeError>)
        requires
            old(self).sound(),
        ensures
            final(self).sound(),
            reads_into(
                r,
                parse_move_record(old(self)@, old(cur).rest@),
                final(self)@,
                final(cur).rest@,
            ),
    {
        let stamp = cur.stamp()?;
        let child = cur.element_id()?;
        let parent = cur.element_id()?;
        self.log.push((stamp, MoveEdge { child, parent }));
        proof {
            assert(self@ =~= (LoadV {
                log: old(self)@.log.push((stamp, MoveEdge { child, parent })),
                ..old(self)@
            }));
        }
        Ok(())
    }

    fn read_placement(&mut self, cur: &mut Cursor) -> (r: Result<(), DecodeError>)
        requires
            old(self).sound(),
        ensures
            final(self).sound(),
            r matches Ok(_) ==> parse_placement_record(old(self)@, old(cur).rest@) == Ok::<
                (LoadV, Seq<u8>),
                DecodeError,
            >((final(self)@, final(cur).rest@)),
            r matches Err(e) ==> parse_placement_record(old(self)@, old(cur).rest@) == Err::<
                (LoadV, Seq<u8>),
                DecodeError,
            >(e),
    {
        let ghost l0 = self@;
        let ghost s0 = cur.rest@;
        let node = cur.element_id()?;
        let n: u32 = cur.u32()?;
        let mut at: Vec<Placement> = Vec::new();
        let mut i: u32 = 0;
        proof {
            assert(at@ =~= Seq::empty());
        }
        while i < n
            invariant
                self.sound(),
                i <= n,
                l0 == old(self)@,
                s0 == old(cur).rest@,
                self@ == l0.with_tree(
                    TreeV { placement_index: self.tree.placement_index@, ..l0.tree },
                ),
                parse_placement_record(l0, s0) == (match parse_fold(
                    cur.rest@,
                    (n - i) as nat,
                    PlacesV { index: self.tree.placement_index@, places: at@ },
                    place_step(node),
                ) {
                    Err(e) => Err::<(LoadV, Seq<u8>), DecodeError>(e),
                    Ok((p, r)) => if l0.tree.placements.dom().contains(node) {
                        Err(bad("document: duplicate placement node"))
                    } else {
                        Ok(
                            (
                                l0.with_tree(
                                    TreeV {
                                        placement_index: p.index,
                                        placements: l0.tree.placements.insert(node, p.places),
                                        ..l0.tree
                                    },
                                ),
                                r,
                            ),
                        )
                    },
                }),
            decreases n - i,
        {
            let list = cur.element_id()?;
            let stamp = cur.stamp()?;
            let p = Placement { list, stamp };
            if self.tree.placement_index.contains_key(&p) {
                return Err(bad_tag("document: duplicate placement"));
            }
            self.tree.placement_index.insert(p, node);
            at.push(p);
            proof {
                assert(self@.tree =~= (TreeV {
                    placement_index: self.tree.placement_index@,
                    ..l0.tree
                }));
                assert(self@ =~= l0.with_tree(
                    TreeV { placement_index: self.tree.placement_index@, ..l0.tree },
                ));
            }
            i += 1;
        }
        if self.tree.placements.contains(node) {
            return Err(bad_tag("document: duplicate placement node"));
        }
        self.tree.placements.insert(node, Places { at });
        proof {
            assert(self@.tree =~= (TreeV {
                placement_index: self.tree.placement_index@,
                placements: l0.tree.placements.insert(node, at@),
                ..l0.tree
            }));
            assert(self@ =~= l0.with_tree(self@.tree));
        }
        Ok(())
    }

    fn read_payload(&self, id: ElementId, cur: &mut Cursor) -> (r: Result<Payload, DecodeError>)
        requires
            self.sound(),
        ensures
            crate::codec::reads_view(
                r,
                parse_payload(self@.tree, id, old(cur).rest@),
                final(cur).rest@,
            ),
    {
        match cur.u8()? {
            0 => {
                let value = cur.scalar()?;
                let stamp = cur.stamp()?;
                Ok(Payload::Scalar { value, stamp })
            },
            1 => {
                let kind = cur.composite_payload_kind()?;
                let present = match kind {
                    ElementKind::LwwMap => self.tree.maps.contains(payload_id(id, kind)),
                    ElementKind::List => self.tree.lists.contains(payload_id(id, kind)),
                    ElementKind::Text => self.tree.texts.contains(payload_id(id, kind)),
                    _ => false,
                };
                if !present {
                    return Err(bad_tag("ranged composite payload: missing container"));
                }
                Ok(Payload::Composite { kind })
            },
            tag => Err(DecodeError::BadTag { what: "ranged element payload flavor", tag }),
        }
    }

    fn read_ranged(&mut self, cur: &mut Cursor) -> (r: Result<(), DecodeError>)
        requires
            old(self).sound(),
        ensures
            final(self).sound(),
            reads_into(
                r,
                parse_ranged_record(old(self)@, old(cur).rest@),
                final(self)@,
                final(cur).rest@,
            ),
    {
        reveal(parse_ranged_record);
        let id = cur.element_id()?;
        let start = cur.range_anchor()?;
        let end = cur.range_anchor()?;
        let payload = self.read_payload(id, cur)?;
        let name = cur.opt_bytes()?;
        let tombstone = match cur.u8()? {
            0 => false,
            1 => true,
            tag => {
                return Err(DecodeError::BadTag { what: "ranged element tombstone flag", tag });
            },
        };
        if self.tree.ranged.contains(id) {
            return Err(bad_tag("document: duplicate ranged element"));
        }
        let ghost t = self@.tree;
        let e = RangedEntry { start, end, payload, name, tombstone };
        let ghost ev = e@;
        self.tree.ranged.insert(id, e);
        proof {
            assert(self@.tree =~= (TreeV { ranged: t.ranged.insert(id, ev), ..t }));
            assert(self@ =~= old(self)@.with_tree(self@.tree));
        }
        Ok(())
    }

    fn read_acl(&mut self, cur: &mut Cursor) -> (r: Result<(), DecodeError>)
        requires
            old(self).sound(),
        ensures
            final(self).sound(),
            reads_into(
                r,
                parse_acl_record(old(self)@, old(cur).rest@),
                final(self)@,
                final(cur).rest@,
            ),
    {
        reveal(parse_acl_record);
        let id = cur.element_id()?;
        let subject = cur.acl_subject()?;
        let grant = cur.acl_grant()?;
        let effect = cur.acl_effect()?;
        let path = cur.bytes()?;
        let grantor = cur.client()?;
        let revokers = read_revokers(cur)?;
        if self.tree.acl.contains(id) {
            return Err(bad_tag("document: duplicate acl tuple"));
        }
        let ghost t = self@.tree;
        let e = AclEntry { subject, grant, effect, path, grantor, revokers };
        let ghost ev = e@;
        self.tree.acl.insert(id, e);
        proof {
            assert(self@.tree =~= (TreeV { acl: t.acl.insert(id, ev), ..t }));
            assert(self@ =~= old(self)@.with_tree(self@.tree));
        }
        Ok(())
    }

    fn read_parent(&mut self, cur: &mut Cursor) -> (r: Result<(), DecodeError>)
        requires
            old(self).sound(),
        ensures
            final(self).sound(),
            reads_into(
                r,
                parse_parent_record(old(self)@, old(cur).rest@),
                final(self)@,
                final(cur).rest@,
            ),
    {
        let child = cur.element_id()?;
        let parent = cur.element_id()?;
        if self.tree.parents.contains_key(&child) {
            return Err(bad_tag("document: duplicate parent link"));
        }
        let ghost t = self@.tree;
        self.tree.parents.insert(child, parent);
        proof {
            assert(self@.tree =~= (TreeV { parents: t.parents.insert(child, parent), ..t }));
            assert(self@ =~= old(self)@.with_tree(self@.tree));
        }
        Ok(())
    }

    fn read_seen(&mut self, cur: &mut Cursor) -> (r: Result<(), DecodeError>)
        requires
            old(self).sound(),
        ensures
            final(self).sound(),
            reads_into(
                r,
                parse_seen_record(old(self)@, old(cur).rest@),
                final(self)@,
                final(cur).rest@,
            ),
    {
        let client = cur.client()?;
        let seq: u64 = cur.u64()?;
        let id = OpId { client, seq };
        if self.seen.contains_key(&id) {
            return Err(bad_tag("document: duplicate seen op"));
        }
        self.seen.insert(id, ());
        proof {
            assert(self@.seen =~= old(self)@.seen.insert(id));
            assert(self@ =~= (LoadV { seen: old(self)@.seen.insert(id), ..old(self)@ }));
        }
        Ok(())
    }

    fn read_resolved(&mut self, cur: &mut Cursor) -> (r: Result<(), DecodeError>)
        requires
            old(self).sound(),
        ensures
            final(self).sound(),
            reads_into(
                r,
                parse_resolved_record(old(self)@, old(cur).rest@),
                final(self)@,
                final(cur).rest@,
            ),
    {
        let client = cur.client()?;
        let n: u64 = cur.u64()?;
        let key = GroupKey { client, tx: TxId(n) };
        if self.resolved.contains_key(&key) {
            return Err(bad_tag("document: duplicate resolved group key"));
        }
        self.resolved.insert(key, ());
        proof {
            assert(self@.resolved =~= old(self)@.resolved.insert(key));
            assert(self@ =~= (LoadV { resolved: old(self)@.resolved.insert(key), ..old(self)@ }));
        }
        Ok(())
    }

    fn read_record(&mut self, which: Section, cur: &mut Cursor) -> (r: Result<(), DecodeError>)
        requires
            old(self).sound(),
        ensures
            final(self).sound(),
            reads_into(
                r,
                parse_record(which, old(self)@, old(cur).rest@),
                final(self)@,
                final(cur).rest@,
            ),
    {
        match which {
            Section::ZoneClocks => self.read_zone_clock(cur),
            Section::HighWater => self.read_water(cur),
            Section::Counters => self.read_counter(cur),
            Section::Lists => self.read_list(cur),
            Section::Texts => self.read_text(cur),
            Section::Maps => self.read_map(cur),
            Section::XmlElements => self.read_xml_element(cur),
            Section::XmlFragments => self.read_xml_fragment(cur),
            Section::Moves => self.read_move(cur),
            Section::Placements => self.read_placement(cur),
            Section::Ranged => self.read_ranged(cur),
            Section::Acl => self.read_acl(cur),
            Section::Parents => self.read_parent(cur),
            Section::Seen => self.read_seen(cur),
            Section::Resolved => self.read_resolved(cur),
        }
    }

    /// Read a whole section.
    pub(crate) fn read_section(&mut self, which: Section, cur: &mut Cursor) -> (r: Result<
        (),
        DecodeError,
    >)
        requires
            old(self).sound(),
        ensures
            final(self).sound(),
            reads_into(
                r,
                parse_section(which, old(self)@, old(cur).rest@),
                final(self)@,
                final(cur).rest@,
            ),
    {
        reveal(parse_section);
        let ghost p = parse_section(which, self@, cur.rest@);
        let n: u32 = cur.u32()?;
        let mut i: u32 = 0;
        while i < n
            invariant
                self.sound(),
                i <= n,
                p == parse_section(which, old(self)@, old(cur).rest@),
                p == parse_fold(cur.rest@, (n - i) as nat, self@, record_step(which)),
            decreases n - i,
        {
            self.read_record(which, cur)?;
            i += 1;
        }
        Ok(())
    }
}

fn read_revokers(cur: &mut Cursor) -> (r: Result<Table<ClientId, ()>, DecodeError>)
    ensures
        match r {
            Ok(t) => t.wf() && parse_revokers(old(cur).rest@) == Ok::<
                (Set<ClientId>, Seq<u8>),
                DecodeError,
            >((t@.dom(), final(cur).rest@)),
            Err(e) => parse_revokers(old(cur).rest@) == Err::<(Set<ClientId>, Seq<u8>), DecodeError>(
                e,
            ),
        },
{
    let ghost p = parse_revokers(cur.rest@);
    let n: u32 = cur.u32()?;
    let mut t: Table<ClientId, ()> = Table::new();
    let mut i: u32 = 0;
    proof {
        assert(t@.dom() =~= Set::empty());
    }
    while i < n
        invariant
            t.wf(),
            i <= n,
            p == parse_revokers(old(cur).rest@),
            p == parse_fold(cur.rest@, (n - i) as nat, t@.dom(), revoker_step()),
        decreases n - i,
    {
        let ghost before = t@.dom();
        let c = cur.client()?;
        t.insert(c, ());
        proof {
            assert(t@.dom() =~= before.insert(c));
        }
        i += 1;
    }
    Ok(t)
}

// --- slots ---

impl TreeV {
    /// With one read slot installed in a map, once what it names is here.
    pub open spec fn slot_installed(self, map: ElementId, d: DecodedSlotV) -> Result<
        TreeV,
        DecodeError,
    > {
        if d.value matches Some(e) && !self.has_element(e) {
            Err(bad("document: dangling reference"))
        } else if self.maps[map].slots.dom().contains(d.key) {
            Err(bad("document: duplicate map slot"))
        } else {
            Ok(self.with_slot(map, d.key, installed(d)))
        }
    }

    /// With read slots installed in a map, in turn.
    pub open spec fn slots_installed(self, map: ElementId, s: Seq<DecodedSlotV>) -> Result<
        TreeV,
        DecodeError,
    >
        decreases s.len(),
    {
        if s.len() == 0 {
            Ok(self)
        } else {
            match self.slots_installed(map, s.drop_last()) {
                Err(e) => Err(e),
                Ok(t) => t.slot_installed(map, s.last()),
            }
        }
    }

    /// With every read map's slots installed, in turn.
    pub open spec fn maps_installed(self, s: Seq<DecodedMapV>) -> Result<TreeV, DecodeError>
        decreases s.len(),
    {
        if s.len() == 0 {
            Ok(self)
        } else {
            match self.maps_installed(s.drop_last()) {
                Err(e) => Err(e),
                Ok(t) => t.slots_installed(s.last().id, s.last().slots),
            }
        }
    }
}

impl Tree {
    pub(crate) fn has_element(&self, e: &Element) -> (b: bool)
        requires
            self.sound(),
        ensures
            b == self@.has_element(e@),
    {
        match e {
            Element::Scalar(_) => true,
            Element::Register(_) => true,
            Element::Counter(id) => self.counters.contains(*id),
            Element::LwwMap(id) => self.maps.contains(*id),
            Element::List(id) => self.lists.contains(*id),
            Element::Text(id) => self.texts.contains(*id),
            Element::XmlElement(id) => self.xml_elements.contains(*id),
            Element::XmlFragment(id) => self.xml_fragments.contains(*id),
        }
    }

    fn install_slot(&mut self, map: ElementId, d: &DecodedSlot) -> (r: Result<(), DecodeError>)
        requires
            old(self).sound(),
            old(self)@.maps.dom().contains(map),
        ensures
            final(self).sound(),
            final(self)@.maps.dom() == old(self)@.maps.dom(),
            match r {
                Ok(_) => old(self)@.slot_installed(map, d@) == Ok::<TreeV, DecodeError>(
                    final(self)@,
                ),
                Err(e) => old(self)@.slot_installed(map, d@) == Err::<TreeV, DecodeError>(e),
            },
    {
        if let Some(e) = &d.value {
            if !self.has_element(e) {
                return Err(bad_tag("document: dangling reference"));
            }
        }
        let repeated = match self.maps.get(map) {
            Some(m) => m.has_slot(d.key.as_slice()),
            None => false,
        };
        if repeated {
            return Err(bad_tag("document: duplicate map slot"));
        }
        match self.maps.get_mut(map) {
            Some(m) => {
                let value = crate::element::copy_opt_element(&d.value);
                m.insert_decoded(d.key.as_slice(), d.stamp, value, d.container);
            },
            None => {},
        }
        proof {
            assert(self@ =~= old(self)@.with_slot(map, d@.key, installed(d@)));
            assert(self@.maps.dom() =~= old(self)@.maps.dom());
        }
        Ok(())
    }

    fn install_slots(&mut self, map: ElementId, slots: &Vec<DecodedSlot>) -> (r: Result<
        (),
        DecodeError,
    >)
        requires
            old(self).sound(),
            old(self)@.maps.dom().contains(map),
        ensures
            final(self).sound(),
            final(self)@.maps.dom() == old(self)@.maps.dom(),
            match r {
                Ok(_) => old(self)@.slots_installed(map, decoded_view(slots@)) == Ok::<
                    TreeV,
                    DecodeError,
                >(final(self)@),
                Err(e) => old(self)@.slots_installed(map, decoded_view(slots@)) == Err::<
                    TreeV,
                    DecodeError,
                >(e),
            },
    {
        let ghost s = decoded_view(slots@);
        let mut i: usize = 0;
        proof {
            assert(s.take(0) =~= Seq::empty());
        }
        while i < slots.len()
            invariant
                self.sound(),
                s == decoded_view(slots@),
                i <= slots@.len(),
                old(self)@.maps.dom().contains(map),
                self@.maps.dom() == old(self)@.maps.dom(),
                old(self)@.slots_installed(map, s.take(i as int)) == Ok::<TreeV, DecodeError>(self@),
            decreases slots@.len() - i,
        {
            proof {
                assert(s.take(i + 1).drop_last() =~= s.take(i as int));
                assert(s.take(i + 1).last() == slots@[i as int]@);
            }
            match self.install_slot(map, &slots[i]) {
                Ok(_) => {},
                Err(e) => {
                    proof {
                        lemma_slots_err(old(self)@, map, s, i + 1, e);
                    }
                    return Err(e);
                },
            }
            i += 1;
        }
        proof {
            assert(s.take(i as int) =~= s);
        }
        Ok(())
    }

    /// Install every read map's slots.
    pub(crate) fn install_maps(&mut self, decoded: &Vec<DecodedMap>) -> (r: Result<(), DecodeError>)
        requires
            old(self).sound(),
            forall|i: int|
                0 <= i < decoded@.len() ==> old(self)@.maps.dom().contains(
                    (#[trigger] decoded@[i]).id,
                ),
        ensures
            final(self).sound(),
            final(self)@.maps.dom() == old(self)@.maps.dom(),
            match r {
                Ok(_) => old(self)@.maps_installed(maps_view(decoded@)) == Ok::<TreeV, DecodeError>(
                    final(self)@,
                ),
                Err(e) => old(self)@.maps_installed(maps_view(decoded@)) == Err::<
                    TreeV,
                    DecodeError,
                >(e),
            },
    {
        let ghost s = maps_view(decoded@);
        let mut i: usize = 0;
        proof {
            assert(s.take(0) =~= Seq::empty());
        }
        while i < decoded.len()
            invariant
                self.sound(),
                s == maps_view(decoded@),
                i <= decoded@.len(),
                forall|j: int|
                    0 <= j < decoded@.len() ==> old(self)@.maps.dom().contains(
                        (#[trigger] decoded@[j]).id,
                    ),
                self@.maps.dom() == old(self)@.maps.dom(),
                old(self)@.maps_installed(s.take(i as int)) == Ok::<TreeV, DecodeError>(self@),
            decreases decoded@.len() - i,
        {
            proof {
                assert(s.take(i + 1).drop_last() =~= s.take(i as int));
                assert(s.take(i + 1).last() == decoded@[i as int]@);
                assert(old(self)@.maps.dom().contains(decoded@[i as int].id));
            }
            match self.install_slots(decoded[i].id, &decoded[i].slots) {
                Ok(_) => {},
                Err(e) => {
                    proof {
                        lemma_maps_err(old(self)@, s, i + 1, e);
                    }
                    return Err(e);
                },
            }
            i += 1;
        }
        proof {
            assert(s.take(i as int) =~= s);
        }
        Ok(())
    }

    /// Whether every sequence node's handle names something registered.
    pub(crate) fn items_resolve(&self) -> (b: bool)
        requires
            self.sound(),
        ensures
            b == self@.items_resolve(),
    {
        let ghost e = self.lists.table.entries@;
        let mut i: usize = 0;
        while i < self.lists.table.entries.len()
            invariant
                self.sound(),
                e == self.lists.table.entries@,
                i <= e.len(),
                forall|j: int, s: Stamp|
                    0 <= j < i && #[trigger] e[j].1@.items.dom().contains(s)
                        ==> self@.has_element(e[j].1@.items[s].value),
            decreases e.len() - i,
        {
            let l = &self.lists.table.entries[i].1;
            let ghost ne = l.nodes.entries@;
            proof {
                self.lists.lemma_at(i as int);
            }
            let mut k: usize = 0;
            while k < l.nodes.entries.len()
                invariant
                    self.sound(),
                    l.wf(),
                    ne == l.nodes.entries@,
                    k <= ne.len(),
                    i < e.len(),
                    e == self.lists.table.entries@,
                    *l == e[i as int].1,
                    forall|j: int| 0 <= j < k ==> self@.has_element((#[trigger] ne[j]).1.value@),
                decreases ne.len() - k,
            {
                proof {
                    lemma_entry::<SeqKey, Node>(ne, k as int);
                }
                if !self.has_element(&l.nodes.entries[k].1.value) {
                    proof {
                        self.lists.lemma_at(i as int);
                        let id = e[i as int].0;
                        let s = ne[k as int].0@;
                        assert(self@.lists[id].items.dom().contains(s));
                    }
                    return false;
                }
                k += 1;
            }
            proof {
                assert forall|s: Stamp| #[trigger] e[i as int].1@.items.dom().contains(s)
                    implies self@.has_element(
                    e[i as int].1@.items[s].value,
                ) by {
                    let n = crate::table::index_of::<SeqKey, Node>(ne, s);
                    assert(ne[n].0@ == s);
                    lemma_entry::<SeqKey, Node>(ne, n);
                }
            }
            i += 1;
        }
        proof {
            assert forall|l: ElementId, s: Stamp|
                self@.lists.dom().contains(l) && #[trigger] self@.lists[l].items.dom().contains(
                    s,
                ) implies self@.has_element(self@.lists[l].items[s].value) by {
                let n = crate::table::index_of::<ElementId, List>(e, l);
                assert(e[n].0@ == l);
                self.lists.lemma_at(n);
                assert(e[n].1@.items.dom().contains(s));
            }
        }
        true
    }
}

proof fn lemma_slots_err(t: TreeV, map: ElementId, s: Seq<DecodedSlotV>, i: int, e: DecodeError)
    requires
        0 <= i <= s.len(),
        t.slots_installed(map, s.take(i)) == Err::<TreeV, DecodeError>(e),
    ensures
        t.slots_installed(map, s) == Err::<TreeV, DecodeError>(e),
    decreases s.len() - i,
{
    if i == s.len() {
        assert(s.take(i) =~= s);
    } else {
        assert(s.take(i + 1).drop_last() =~= s.take(i));
        lemma_slots_err(t, map, s, i + 1, e);
    }
}

proof fn lemma_maps_err(t: TreeV, s: Seq<DecodedMapV>, i: int, e: DecodeError)
    requires
        0 <= i <= s.len(),
        t.maps_installed(s.take(i)) == Err::<TreeV, DecodeError>(e),
    ensures
        t.maps_installed(s) == Err::<TreeV, DecodeError>(e),
    decreases s.len() - i,
{
    if i == s.len() {
        assert(s.take(i) =~= s);
    } else {
        assert(s.take(i + 1).drop_last() =~= s.take(i));
        lemma_maps_err(t, s, i + 1, e);
    }
}

} // verus!
