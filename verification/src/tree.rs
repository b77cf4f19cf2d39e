//! The state of a replica: every element it has materialised, how they hang together, the
//! annotations and grants beside them, and what folding an op does to all of it.
//!
//! Registries keep displaced containers, so a slot won again after a displacement is the
//! same logical element, and an op naming a displaced container applies into it hidden.

use crate::acl::AclGrant;
use crate::anchor::Anchor;
use crate::annot::{AclEntry, AclEntryV, PayloadV, Placement, Places, RangedEntry, RangedEntryV};
use crate::clientid::ClientId;
use crate::counter::{tallies_dec, tallies_inc, Counter, CounterV};
use crate::element::{spec_handle, ElementV};
use crate::elementid::{derived_id, ElementId, ElementKind};
use crate::identity::{
    root_element, span, spec_acl_id, spec_born_at, spec_payload_id, spec_ranged_id,
    spec_reservation_end, spec_span, spec_xml_child_id,
};
use crate::list::{
    list_delete, list_insert, list_rejoin, list_reseat, list_set_away, List, ListV,
};
use crate::list_state::empty_list;
use crate::map::{
    live_value, register_evicts, set_evicts, slot_at, slot_delete, slot_set, slot_set_register,
    slot_wins, LwwMap, MapV, SlotV,
};
use crate::op::OpKindV;
use crate::ranged::{RangeAnchor, RangedInitV};
use crate::registry::Registry;
use crate::scalar::{Scalar, ScalarV};
use crate::stamp::{stamp_lt, Stamp, LAMPORT_STATE_CEILING};
use crate::table::{ordered, Key, Table};
use crate::text::{text_delete, text_insert, Text};
use crate::treemove::{link_of, MovesV, TreeMoves};
use crate::xml::{
    element_node_id, fragment_node_id, node_attrs_id, node_children_id, XmlElement, XmlElementV,
    XmlFragment,
};
use vstd::prelude::*;

verus! {

/// A composite that a mutation displaced from its slot.
#[derive(Clone, Copy, PartialEq, Eq, Debug, Structural)]
pub struct OrphanEvent {
    pub id: ElementId,
}

/// The state of a replica.
pub struct Tree {
    pub maps: Registry<LwwMap>,
    pub lists: Registry<List>,
    pub texts: Registry<Text>,
    pub counters: Registry<Counter>,
    pub xml_elements: Registry<XmlElement>,
    pub xml_fragments: Registry<XmlFragment>,
    /// What each container hangs off. For a movable node, the sequence it renders in.
    pub parents: Table<ElementId, ElementId>,
    pub moves: TreeMoves,
    /// Every placement of a movable node.
    pub placements: Registry<Places>,
    /// Which node owns each placement.
    pub placement_index: Table<Placement, ElementId>,
    pub ranged: Registry<RangedEntry>,
    pub acl: Registry<AclEntry>,
    /// Movable nodes that hold no placement and await their first.
    pub revealed: Table<ElementId, ()>,
    pub orphans: Vec<OrphanEvent>,
    /// The highest lamport any stamp under each client reaches.
    pub high_water: Table<ClientId, u64>,
}

/// The state of a replica, by value.
#[verifier::ext_equal]
pub struct TreeV {
    pub maps: Map<ElementId, MapV>,
    pub lists: Map<ElementId, ListV>,
    pub texts: Map<ElementId, ListV>,
    pub counters: Map<ElementId, CounterV>,
    pub xml_elements: Map<ElementId, XmlElementV>,
    pub xml_fragments: Map<ElementId, XmlFragment>,
    pub parents: Map<ElementId, ElementId>,
    pub moves: MovesV,
    pub placements: Map<ElementId, Seq<Placement>>,
    pub placement_index: Map<Placement, ElementId>,
    pub ranged: Map<ElementId, RangedEntryV>,
    pub acl: Map<ElementId, AclEntryV>,
    pub revealed: Set<ElementId>,
    pub orphans: Seq<OrphanEvent>,
    pub high_water: Map<ClientId, u64>,
}

impl View for Tree {
    type V = TreeV;

    open spec fn view(&self) -> TreeV {
        TreeV {
            maps: self.maps@,
            lists: self.lists@,
            texts: self.texts@,
            counters: self.counters@,
            xml_elements: self.xml_elements@,
            xml_fragments: self.xml_fragments@,
            parents: self.parents@,
            moves: self.moves@,
            placements: self.placements@,
            placement_index: self.placement_index@,
            ranged: self.ranged@,
            acl: self.acl@,
            revealed: self.revealed@.dom(),
            orphans: self.orphans@,
            high_water: self.high_water@,
        }
    }
}

/// The container kinds a create installs. An element carries its tag.
pub enum Container {
    LwwMap,
    List,
    Text,
    XmlElement(Vec<u8>),
    XmlFragment,
}

/// A container to install, by value.
pub enum ContainerV {
    LwwMap,
    List,
    Text,
    XmlElement(Seq<u8>),
    XmlFragment,
}

impl View for Container {
    type V = ContainerV;

    open spec fn view(&self) -> ContainerV {
        match *self {
            Container::LwwMap => ContainerV::LwwMap,
            Container::List => ContainerV::List,
            Container::Text => ContainerV::Text,
            Container::XmlElement(tag) => ContainerV::XmlElement(tag@),
            Container::XmlFragment => ContainerV::XmlFragment,
        }
    }
}

impl ContainerV {
    pub open spec fn kind(self) -> ElementKind {
        match self {
            ContainerV::LwwMap => ElementKind::LwwMap,
            ContainerV::List => ElementKind::List,
            ContainerV::Text => ElementKind::Text,
            ContainerV::XmlElement(_) => ElementKind::XmlElement,
            ContainerV::XmlFragment => ElementKind::XmlFragment,
        }
    }

    /// The handle to such a container.
    pub open spec fn handle(self, id: ElementId) -> ElementV {
        spec_handle(self.kind(), id)->Some_0
    }

    /// The id of such a container at `key` in a map.
    pub open spec fn child_id(self, map: ElementId, key: Seq<u8>) -> ElementId {
        match self {
            ContainerV::XmlElement(tag) => element_node_id(map, key, tag),
            ContainerV::XmlFragment => fragment_node_id(map, key),
            _ => derived_id(map, key, self.kind()),
        }
    }
}

/// The answer to a node asking for a placement.
#[derive(Clone, Copy, PartialEq, Eq, Debug, Structural)]
pub enum Claim {
    /// Nothing held it.
    Fresh,
    /// The node's own already.
    Joined,
    /// Taken from a node this one outranks.
    Evicted,
    /// Held by a node this one does not outrank.
    Refused,
}

pub open spec fn empty_map(id: ElementId) -> MapV {
    MapV { id, slots: Map::empty(), displaced: false }
}

/// `m` with `v` under `id` unless something is there already.
pub open spec fn or_insert<V>(m: Map<ElementId, V>, id: ElementId, v: V) -> Map<ElementId, V> {
    if m.dom().contains(id) {
        m
    } else {
        m.insert(id, v)
    }
}

// --- elements ---

impl TreeV {
    /// The state of a replica that has seen nothing: the root map alone.
    pub open spec fn empty() -> TreeV {
        TreeV {
            maps: Map::empty().insert(root_element(), empty_map(root_element())),
            lists: Map::empty(),
            texts: Map::empty(),
            counters: Map::empty(),
            xml_elements: Map::empty(),
            xml_fragments: Map::empty(),
            parents: Map::empty(),
            moves: MovesV::empty(),
            placements: Map::empty(),
            placement_index: Map::empty(),
            ranged: Map::empty(),
            acl: Map::empty(),
            revealed: Set::empty(),
            orphans: Seq::empty(),
            high_water: Map::empty(),
        }
    }

    /// With a stamp's whole reservation recorded against its author. A reach of zero says
    /// nothing and leaves no record.
    #[verifier::opaque]
    pub open spec fn record(self, stamp: Stamp, span: nat) -> TreeV {
        let end = spec_reservation_end(stamp, span);
        let reach = if end <= LAMPORT_STATE_CEILING {
            end as u64
        } else {
            LAMPORT_STATE_CEILING
        };
        if end == 0 {
            self
        } else {
            TreeV {
                high_water: self.high_water.insert(
                    stamp.client,
                    if self.high_water.dom().contains(stamp.client) && self.high_water[stamp.client]
                        > reach {
                        self.high_water[stamp.client]
                    } else {
                        reach
                    },
                ),
                ..self
            }
        }
    }

    pub open spec fn with_map_flag(self, id: ElementId, displaced: bool) -> TreeV {
        if self.maps.dom().contains(id) {
            TreeV { maps: self.maps.insert(id, MapV { displaced, ..self.maps[id] }), ..self }
        } else {
            self
        }
    }

    pub open spec fn with_list_flag(self, id: ElementId, displaced: bool) -> TreeV {
        if self.lists.dom().contains(id) {
            TreeV { lists: self.lists.insert(id, ListV { displaced, ..self.lists[id] }), ..self }
        } else {
            self
        }
    }

    /// With an element marked as having lost its slot, or as holding it. An XML node's
    /// attrs and children go with it.
    #[verifier::opaque]
    pub open spec fn with_displaced(self, e: ElementV, displaced: bool) -> TreeV {
        match e {
            ElementV::Scalar(_) => self,
            ElementV::Register(_) => self,
            ElementV::Counter(id) => if self.counters.dom().contains(id) {
                TreeV {
                    counters: self.counters.insert(
                        id,
                        CounterV { displaced, ..self.counters[id] },
                    ),
                    ..self
                }
            } else {
                self
            },
            ElementV::LwwMap(id) => self.with_map_flag(id, displaced),
            ElementV::List(id) => self.with_list_flag(id, displaced),
            ElementV::Text(id) => if self.texts.dom().contains(id) {
                TreeV {
                    texts: self.texts.insert(id, ListV { displaced, ..self.texts[id] }),
                    ..self
                }
            } else {
                self
            },
            ElementV::XmlElement(id) => if self.xml_elements.dom().contains(id) {
                (TreeV {
                    xml_elements: self.xml_elements.insert(
                        id,
                        XmlElementV { displaced, ..self.xml_elements[id] },
                    ),
                    ..self
                }).with_map_flag(node_attrs_id(id), displaced).with_list_flag(
                    node_children_id(id),
                    displaced,
                )
            } else {
                self
            },
            ElementV::XmlFragment(id) => if self.xml_fragments.dom().contains(id) {
                (TreeV {
                    xml_fragments: self.xml_fragments.insert(id, XmlFragment { displaced }),
                    ..self
                }).with_list_flag(node_children_id(id), displaced)
            } else {
                self
            },
        }
    }

    /// Whether an element is marked as having lost its slot.
    pub open spec fn is_displaced(self, e: ElementV) -> bool {
        match e {
            ElementV::Scalar(_) => false,
            ElementV::Register(_) => false,
            ElementV::Counter(id) => self.counters.dom().contains(id) && self.counters[id].displaced,
            ElementV::LwwMap(id) => self.maps.dom().contains(id) && self.maps[id].displaced,
            ElementV::List(id) => self.lists.dom().contains(id) && self.lists[id].displaced,
            ElementV::Text(id) => self.texts.dom().contains(id) && self.texts[id].displaced,
            ElementV::XmlElement(id) => self.xml_elements.dom().contains(id)
                && self.xml_elements[id].displaced,
            ElementV::XmlFragment(id) => self.xml_fragments.dom().contains(id)
                && self.xml_fragments[id].displaced,
        }
    }

    /// With what a slot write pushed out marked as displaced.
    #[verifier::opaque]
    pub open spec fn with_evicted(self, evicted: Option<ElementV>) -> TreeV {
        match evicted {
            Some(e) => self.with_displaced(e, true),
            None => self,
        }
    }

    /// With an orphan reported if what the slot held before is displaced now.
    #[verifier::opaque]
    pub open spec fn with_orphan(
        self,
        prior: Option<ElementV>,
        evicted: Option<ElementV>,
    ) -> TreeV {
        match prior {
            None => self,
            Some(ElementV::Scalar(_)) => self,
            Some(ElementV::Register(r)) => if evicted is Some {
                TreeV { orphans: self.orphans.push(OrphanEvent { id: r.id }), ..self }
            } else {
                self
            },
            Some(e) => if self.is_displaced(e) {
                TreeV { orphans: self.orphans.push(OrphanEvent { id: e.opt_id()->Some_0 }), ..self }
            } else {
                self
            },
        }
    }

    /// The slot at `key` of a map.
    pub open spec fn slot(self, map: ElementId, key: Seq<u8>) -> Option<SlotV> {
        slot_at(self.maps[map].slots, key)
    }

    /// With a slot of a map replaced.
    pub open spec fn with_slot(self, map: ElementId, key: Seq<u8>, slot: SlotV) -> TreeV {
        TreeV {
            maps: self.maps.insert(
                map,
                MapV { slots: self.maps[map].slots.insert(key, slot), ..self.maps[map] },
            ),
            ..self
        }
    }

    /// With `child` hanging off `parent`, in the tree and in the created-under relation.
    pub open spec fn with_link(self, child: ElementId, parent: ElementId) -> TreeV {
        TreeV {
            parents: self.parents.insert(child, parent),
            moves: self.moves.set_base(child, parent),
            ..self
        }
    }

    /// With a container registered under `id`, a fresh one on first sight.
    #[verifier::opaque]
    pub open spec fn with_registered(self, id: ElementId, c: ContainerV) -> TreeV {
        match c {
            ContainerV::LwwMap => TreeV { maps: or_insert(self.maps, id, empty_map(id)), ..self },
            ContainerV::List => TreeV { lists: or_insert(self.lists, id, empty_list(id)), ..self },
            ContainerV::Text => TreeV { texts: or_insert(self.texts, id, empty_list(id)), ..self },
            ContainerV::XmlElement(tag) => {
                let attrs = node_attrs_id(id);
                let children = node_children_id(id);
                (TreeV {
                    xml_elements: or_insert(
                        self.xml_elements,
                        id,
                        XmlElementV { tag, displaced: false },
                    ),
                    maps: or_insert(self.maps, attrs, empty_map(attrs)),
                    lists: or_insert(self.lists, children, empty_list(children)),
                    ..self
                }).with_link(attrs, id).with_link(children, id)
            },
            ContainerV::XmlFragment => {
                let children = node_children_id(id);
                (TreeV {
                    xml_fragments: or_insert(
                        self.xml_fragments,
                        id,
                        XmlFragment { displaced: false },
                    ),
                    lists: or_insert(self.lists, children, empty_list(children)),
                    ..self
                }).with_link(children, id)
            },
        }
    }

    // --- slot ops ---

    /// After a scalar is set at `key`.
    #[verifier::opaque]
    pub open spec fn map_set(self, map: ElementId, key: Seq<u8>, v: ScalarV, stamp: Stamp) -> TreeV {
        if !self.maps.dom().contains(map) {
            self
        } else {
            let s = self.slot(map, key);
            let value = ElementV::Scalar(v);
            let out = set_evicts(s, value, stamp);
            self.with_slot(map, key, slot_set(s, value, stamp)).with_evicted(out).with_orphan(
                live_value(s),
                out,
            )
        }
    }

    /// After the slot at `key` is deleted.
    #[verifier::opaque]
    pub open spec fn map_delete(self, map: ElementId, key: Seq<u8>, stamp: Stamp) -> TreeV {
        if !self.maps.dom().contains(map) {
            self
        } else {
            let s = self.slot(map, key);
            let out = if slot_wins(s, stamp) {
                live_value(s)
            } else {
                None
            };
            self.with_slot(map, key, slot_delete(s, stamp)).with_evicted(out).with_orphan(
                live_value(s),
                out,
            )
        }
    }

    /// After a register is written at `key`.
    #[verifier::opaque]
    pub open spec fn register_set(
        self,
        map: ElementId,
        key: Seq<u8>,
        v: ScalarV,
        stamp: Stamp,
    ) -> TreeV {
        if !self.maps.dom().contains(map) {
            self
        } else {
            let s = self.slot(map, key);
            let id = derived_id(self.maps[map].id, key, ElementKind::Register);
            let out = register_evicts(s, stamp);
            self.with_slot(map, key, slot_set_register(s, id, v, stamp)).with_evicted(
                out,
            ).with_orphan(live_value(s), out)
        }
    }

    /// After a handle is set at `key`: it holds the slot or is displaced, and what it
    /// pushed out is reported.
    #[verifier::opaque]
    pub open spec fn install_handle(
        self,
        map: ElementId,
        key: Seq<u8>,
        e: ElementV,
        stamp: Stamp,
    ) -> TreeV {
        let s = self.slot(map, key);
        let slot = slot_set(s, e, stamp);
        let out = set_evicts(s, e, stamp);
        let won = slot.value matches Some(v) && v.same_handle(e);
        self.with_slot(map, key, slot).with_evicted(out).with_orphan(
            live_value(s),
            out,
        ).with_displaced(e, !won)
    }

    /// After a container is created at `key`.
    #[verifier::opaque]
    pub open spec fn create_container(
        self,
        map: ElementId,
        key: Seq<u8>,
        stamp: Stamp,
        c: ContainerV,
    ) -> TreeV {
        if !self.maps.dom().contains(map) {
            self
        } else {
            let child = c.child_id(map, key);
            self.with_registered(child, c).install_handle(
                map,
                key,
                c.handle(child),
                stamp,
            ).with_link(child, map)
        }
    }

    /// After a counter at `key` counts by `amount`, up or down. The tally grows whether or
    /// not the counter wins the slot.
    #[verifier::opaque]
    pub open spec fn count(
        self,
        map: ElementId,
        key: Seq<u8>,
        author: ClientId,
        amount: u32,
        up: bool,
        stamp: Stamp,
    ) -> TreeV {
        if !self.maps.dom().contains(map) {
            self
        } else {
            let id = derived_id(map, key, ElementKind::Counter);
            let counters = or_insert(
                self.counters,
                id,
                CounterV { id, tallies: Map::empty(), displaced: false },
            );
            let c = counters[id];
            let tallies = if up {
                tallies_inc(c.tallies, author, amount)
            } else {
                tallies_dec(c.tallies, author, amount)
            };
            (TreeV { counters: counters.insert(id, CounterV { tallies, ..c }), ..self }).install_handle(
                map,
                key,
                ElementV::Counter(id),
                stamp,
            )
        }
    }

    // --- sequence ops ---

    pub open spec fn with_list(self, id: ElementId, l: ListV) -> TreeV {
        TreeV { lists: self.lists.insert(id, l), ..self }
    }

    #[verifier::opaque]
    pub open spec fn list_insert(
        self,
        list: ElementId,
        stamp: Stamp,
        v: ElementV,
        anchor: Anchor,
    ) -> TreeV {
        if self.lists.dom().contains(list) {
            self.with_list(list, list_insert(self.lists[list], stamp, v, anchor))
        } else {
            self
        }
    }

    /// Whether a placement's id has been deleted in its sequence.
    pub open spec fn is_tombstoned(self, p: Placement) -> bool {
        self.lists.dom().contains(p.list) && self.lists[p.list].is_dead(p.stamp)
    }

    /// After an item of a sequence is deleted. Deleting a placement of a movable node
    /// hides every placement of it.
    #[verifier::opaque]
    pub open spec fn list_delete(self, list: ElementId, id: Stamp) -> TreeV {
        let t = if self.lists.dom().contains(list) {
            self.with_list(list, list_delete(self.lists[list], id))
        } else {
            self
        };
        if t.placement_index.dom().contains(Placement { list, stamp: id }) {
            t.refold()
        } else {
            t
        }
    }

    // --- moves ---

    /// Where a placement of a node stands once the tree is settled.
    pub open spec fn with_away(self, p: Placement, away: bool) -> TreeV {
        if self.lists.dom().contains(p.list) {
            self.with_list(p.list, list_set_away(self.lists[p.list], p.stamp, away))
        } else {
            self
        }
    }

    /// With each of a node's placements suppressed but the one at `live` in `list`.
    pub open spec fn with_only(
        self,
        places: Seq<Placement>,
        list: ElementId,
        live: Option<Stamp>,
    ) -> TreeV
        decreases places.len(),
    {
        if places.len() == 0 {
            self
        } else {
            let p = places.last();
            self.with_only(places.drop_last(), list, live).with_away(
                p,
                !(p.list == list && live == Some(p.stamp)),
            )
        }
    }

    /// Whether some placement has been deleted.
    pub open spec fn any_tombstoned(self, places: Seq<Placement>) -> bool {
        exists|i: int| 0 <= i < places.len() && self.is_tombstoned(#[trigger] places[i])
    }

    /// A movable node settled: its latest placement in its effective parent's sequence
    /// renders, unless a placement of it was deleted, and it hangs off that sequence.
    #[verifier::opaque]
    pub open spec fn settle(self, tree: Map<ElementId, ElementId>, node: ElementId) -> TreeV {
        if !tree.dom().contains(node) {
            self
        } else {
            let list = node_children_id(tree[node]);
            let places = self.placements[node];
            let live = if self.any_tombstoned(places) {
                None
            } else {
                latest_in(places, list)
            };
            let t = self.with_only(places, list, live);
            TreeV { parents: t.parents.insert(node, list), ..t }
        }
    }

    pub open spec fn settle_all(
        self,
        tree: Map<ElementId, ElementId>,
        nodes: Seq<ElementId>,
    ) -> TreeV
        decreases nodes.len(),
    {
        if nodes.len() == 0 {
            self
        } else {
            self.settle_all(tree, nodes.drop_last()).settle(tree, nodes.last())
        }
    }

    /// Every movable node settled where the moves put it.
    #[verifier::opaque]
    pub open spec fn refold(self) -> TreeV {
        self.settle_all(self.moves.tree(), ordered::<ElementId>(self.placements.dom()))
    }

    /// Whether `node` outranks `held` at a placement: a birth over a move, then the
    /// smaller id.
    pub open spec fn outranks(p: Placement, node: ElementId, held: ElementId) -> bool {
        let a = spec_born_at(p.list, p.stamp, node);
        let b = spec_born_at(p.list, p.stamp, held);
        if a != b {
            a
        } else {
            node.bits < held.bits
        }
    }

    /// The answer to `node` asking for a placement.
    pub open spec fn claim_of(self, p: Placement, node: ElementId) -> Claim {
        if !self.placement_index.dom().contains(p) {
            Claim::Fresh
        } else if self.placement_index[p] == node {
            Claim::Joined
        } else if Self::outranks(p, node, self.placement_index[p]) {
            Claim::Evicted
        } else {
            Claim::Refused
        }
    }

    /// With a placement taken from the node that held it: its move is withdrawn, and a
    /// node left with none awaits its first again.
    #[verifier::opaque]
    pub open spec fn with_placement_evicted(self, p: Placement, held: ElementId) -> TreeV {
        let moves = match link_of(self.parents, p.list) {
            Some(owner) => self.moves.remove(p.stamp, held, owner),
            None => self.moves,
        };
        let t = TreeV { moves, ..self };
        if !t.placements.dom().contains(held) {
            t
        } else {
            let rest = without_place(t.placements[held], p);
            if rest.len() > 0 {
                TreeV { placements: t.placements.insert(held, rest), ..t }
            } else {
                TreeV {
                    placements: t.placements.remove(held),
                    revealed: t.revealed.insert(held),
                    parents: match link_of(t.moves.tree(), held) {
                        Some(owner) => t.parents.insert(held, node_children_id(owner)),
                        None => t.parents.remove(held),
                    },
                    ..t
                }
            }
        }
    }

    /// With a claim settled.
    #[verifier::opaque]
    pub open spec fn with_claim(self, p: Placement, node: ElementId) -> TreeV {
        match self.claim_of(p, node) {
            Claim::Fresh => TreeV {
                placement_index: self.placement_index.insert(p, node),
                ..self
            },
            Claim::Evicted => {
                let t = self.with_placement_evicted(p, self.placement_index[p]);
                TreeV { placement_index: t.placement_index.insert(p, node), ..t }
            },
            _ => self,
        }
    }

    /// With a claimed placement's node put in its sequence.
    #[verifier::opaque]
    pub open spec fn with_seat(
        self,
        claim: Claim,
        p: Placement,
        e: ElementV,
        anchor: Anchor,
    ) -> TreeV {
        if !self.lists.dom().contains(p.list) {
            self
        } else {
            let l = self.lists[p.list];
            match claim {
                Claim::Fresh => self.with_list(p.list, list_insert(l, p.stamp, e, anchor)),
                Claim::Joined => self.with_list(p.list, list_rejoin(l, p.stamp, e, anchor)),
                Claim::Evicted => self.with_list(p.list, list_reseat(l, p.stamp, e, anchor)),
                Claim::Refused => self,
            }
        }
    }

    /// With one more placement of a node.
    pub open spec fn with_placement(self, node: ElementId, p: Placement) -> TreeV {
        let places = if self.placements.dom().contains(node) {
            self.placements[node]
        } else {
            Seq::empty()
        };
        TreeV { placements: self.placements.insert(node, places.push(p)), ..self }
    }

    /// With a child materialised under a children sequence.
    #[verifier::opaque]
    pub open spec fn with_born(self, list: ElementId, child: ElementId, c: ContainerV) -> TreeV {
        let t = self.with_registered(child, c);
        TreeV { parents: t.parents.insert(child, list), ..t }
    }

    /// With a born child placed, unless another node holds its place: then it awaits a
    /// first placement if it has none.
    #[verifier::opaque]
    pub open spec fn with_birth_placed(
        self,
        claim: Claim,
        p: Placement,
        child: ElementId,
    ) -> TreeV {
        match claim {
            Claim::Refused => if self.placements.dom().contains(child) {
                self
            } else {
                TreeV { revealed: self.revealed.insert(child), ..self }
            },
            Claim::Joined => self,
            _ => {
                let t = self.with_placement(child, p);
                TreeV { revealed: t.revealed.remove(child), ..t }
            },
        }
    }

    /// With a child's created-under parent: whatever owns its sequence.
    #[verifier::opaque]
    pub open spec fn with_owner(self, list: ElementId, child: ElementId) -> TreeV {
        match link_of(self.parents, list) {
            Some(owner) => TreeV { moves: self.moves.set_base(child, owner), ..self },
            None => self,
        }
    }

    /// After a child is inserted into a node's children: it is materialised, and placed
    /// unless another node holds its place.
    #[verifier::opaque]
    pub open spec fn insert_child(
        self,
        list: ElementId,
        tag: Option<Seq<u8>>,
        anchor: Anchor,
        stamp: Stamp,
    ) -> TreeV {
        if !self.lists.dom().contains(list) {
            self
        } else {
            let c = match tag {
                Some(t) => ContainerV::XmlElement(t),
                None => ContainerV::Text,
            };
            let child = spec_xml_child_id(list, stamp, c.kind());
            let p = Placement { list, stamp };
            let t1 = self.with_born(list, child, c);
            let claim = t1.claim_of(p, child);
            let t4 = t1.with_claim(p, child).with_seat(
                claim,
                p,
                c.handle(child),
                anchor,
            ).with_birth_placed(claim, p, child).with_owner(list, child);
            if claim == Claim::Joined || claim == Claim::Evicted {
                t4.refold()
            } else {
                t4
            }
        }
    }

    /// The handle to a movable node.
    pub open spec fn node_handle(self, node: ElementId) -> Option<ElementV> {
        if self.xml_elements.dom().contains(node) {
            Some(ElementV::XmlElement(node))
        } else if self.texts.dom().contains(node) {
            Some(ElementV::Text(node))
        } else {
            None
        }
    }

    /// After a node is moved into a children sequence: a move that does not get its
    /// placement is refused whole.
    #[verifier::opaque]
    pub open spec fn move_node(
        self,
        list: ElementId,
        node: ElementId,
        anchor: Anchor,
        stamp: Stamp,
    ) -> TreeV {
        let p = Placement { list, stamp };
        let owner = link_of(self.parents, list);
        let handle = self.node_handle(node);
        let claim = self.claim_of(p, node);
        if (!self.placements.dom().contains(node) && !self.revealed.contains(node))
            || !self.lists.dom().contains(list) || owner is None || handle is None || claim
            == Claim::Refused {
            self
        } else {
            let t0 = self.with_claim(p, node).with_seat(claim, p, handle->Some_0, anchor);
            let t1 = if claim == Claim::Joined {
                t0
            } else {
                t0.with_placement(node, p)
            };
            (TreeV {
                moves: t1.moves.apply(stamp, node, owner->Some_0),
                revealed: t1.revealed.remove(node),
                ..t1
            }).refold()
        }
    }

    /// After a node is revealed: materialised with its tag and no position.
    #[verifier::opaque]
    pub open spec fn reveal_node(self, node: ElementId, tag: Option<Seq<u8>>) -> TreeV {
        if self.node_handle(node) is Some {
            self
        } else {
            let t = self.with_registered(
                node,
                match tag {
                    Some(t) => ContainerV::XmlElement(t),
                    None => ContainerV::Text,
                },
            );
            TreeV { revealed: t.revealed.insert(node), ..t }
        }
    }

    // --- annotations and grants ---

    /// The container a composite payload is.
    pub open spec fn payload_container(kind: ElementKind) -> Option<ContainerV> {
        match kind {
            ElementKind::LwwMap => Some(ContainerV::LwwMap),
            ElementKind::List => Some(ContainerV::List),
            ElementKind::Text => Some(ContainerV::Text),
            _ => None,
        }
    }

    /// With an annotation's payload container materialised and hanging off it.
    #[verifier::opaque]
    pub open spec fn with_payload(self, ranged: ElementId, kind: ElementKind) -> TreeV {
        match Self::payload_container(kind) {
            Some(c) => {
                let id = spec_payload_id(ranged, kind);
                self.with_registered(id, c).with_link(id, ranged)
            },
            None => self,
        }
    }

    #[verifier::opaque]
    pub open spec fn ranged_create(
        self,
        start: RangeAnchor,
        end: RangeAnchor,
        payload: RangedInitV,
        name: Option<Seq<u8>>,
        stamp: Stamp,
    ) -> TreeV {
        let id = spec_ranged_id(stamp);
        if self.ranged.dom().contains(id) {
            self
        } else {
            match payload {
                RangedInitV::Scalar(value) => TreeV {
                    ranged: self.ranged.insert(
                        id,
                        RangedEntryV {
                            start,
                            end,
                            payload: PayloadV::Scalar { value, stamp },
                            name,
                            tombstone: false,
                        },
                    ),
                    ..self
                },
                RangedInitV::Composite(kind) => {
                    let t = self.with_payload(id, kind);
                    TreeV {
                        ranged: t.ranged.insert(
                            id,
                            RangedEntryV {
                                start,
                                end,
                                payload: PayloadV::Composite { kind },
                                name,
                                tombstone: false,
                            },
                        ),
                        ..t
                    }
                },
            }
        }
    }

    /// After a payload is replaced: the later write wins, and a composite is not replaced.
    #[verifier::opaque]
    pub open spec fn ranged_set(self, id: ElementId, v: ScalarV, stamp: Stamp) -> TreeV {
        if self.ranged.dom().contains(id) {
            match self.ranged[id].payload {
                PayloadV::Scalar { stamp: last, .. } => if stamp_lt(last, stamp) {
                    TreeV {
                        ranged: self.ranged.insert(
                            id,
                            RangedEntryV {
                                payload: PayloadV::Scalar { value: v, stamp },
                                ..self.ranged[id]
                            },
                        ),
                        ..self
                    }
                } else {
                    self
                },
                PayloadV::Composite { .. } => self,
            }
        } else {
            self
        }
    }

    #[verifier::opaque]
    pub open spec fn ranged_delete(self, id: ElementId) -> TreeV {
        if self.ranged.dom().contains(id) {
            TreeV {
                ranged: self.ranged.insert(
                    id,
                    RangedEntryV { tombstone: true, ..self.ranged[id] },
                ),
                ..self
            }
        } else {
            self
        }
    }

    #[verifier::opaque]
    pub open spec fn acl_grant(self, id: ElementId, entry: AclEntryV) -> TreeV {
        TreeV { acl: or_insert(self.acl, id, entry), ..self }
    }

    /// After a tuple is revoked: its author joins those who have revoked it.
    #[verifier::opaque]
    pub open spec fn acl_revoke(self, id: ElementId, author: ClientId) -> TreeV {
        if self.acl.dom().contains(id) {
            TreeV {
                acl: self.acl.insert(
                    id,
                    AclEntryV {
                        revokers: self.acl[id].revokers.insert(author),
                        ..self.acl[id]
                    },
                ),
                ..self
            }
        } else {
            self
        }
    }

    /// After an op of this kind, at this stamp and by this author, is folded in.
    pub open spec fn apply_kind(
        self,
        target: ElementId,
        kind: OpKindV,
        stamp: Stamp,
        author: ClientId,
    ) -> TreeV {
        let t = self.record(stamp, spec_span(kind));
        match kind {
            OpKindV::ListInsert { value, anchor } => t.list_insert(
                target,
                stamp,
                ElementV::Scalar(value),
                anchor,
            ),
            OpKindV::ListDelete { id } => t.list_delete(target, id),
            OpKindV::XmlInsertChild { tag, anchor } => t.insert_child(target, tag, anchor, stamp),
            OpKindV::XmlMove { node, anchor } => t.move_node(target, node, anchor, stamp),
            OpKindV::XmlReveal { node, tag } => t.reveal_node(node, tag),
            OpKindV::RangedCreate { start, end, payload, name } => t.ranged_create(
                start,
                end,
                payload,
                name,
                stamp,
            ),
            OpKindV::RangedSetPayload { id, payload } => t.ranged_set(id, payload, stamp),
            OpKindV::RangedDelete { id } => t.ranged_delete(id),
            OpKindV::AclGrant { subject, grant, effect, path, grantor } => t.acl_grant(
                spec_acl_id(stamp),
                AclEntryV { subject, grant, effect, path, grantor, revokers: Set::empty() },
            ),
            OpKindV::AclRevoke { id } => t.acl_revoke(id, author),
            OpKindV::TextInsert { s, anchor } => if t.texts.dom().contains(target) {
                TreeV {
                    texts: t.texts.insert(target, text_insert(t.texts[target], stamp, s, anchor)),
                    ..t
                }
            } else {
                t
            },
            OpKindV::TextDelete { ids } => if t.texts.dom().contains(target) {
                TreeV { texts: t.texts.insert(target, text_delete(t.texts[target], ids)), ..t }
            } else {
                t
            },
            OpKindV::MapCreate { key } => t.create_container(
                target,
                key,
                stamp,
                ContainerV::LwwMap,
            ),
            OpKindV::ListCreate { key } => t.create_container(target, key, stamp, ContainerV::List),
            OpKindV::TextCreate { key } => t.create_container(target, key, stamp, ContainerV::Text),
            OpKindV::XmlElementCreate { key, tag } => t.create_container(
                target,
                key,
                stamp,
                ContainerV::XmlElement(tag),
            ),
            OpKindV::XmlFragmentCreate { key } => t.create_container(
                target,
                key,
                stamp,
                ContainerV::XmlFragment,
            ),
            OpKindV::CounterInc { key, amount } => t.count(target, key, author, amount, true, stamp),
            OpKindV::CounterDec { key, amount } => t.count(
                target,
                key,
                author,
                amount,
                false,
                stamp,
            ),
            OpKindV::MapSet { key, value } => t.map_set(target, key, value, stamp),
            OpKindV::MapDelete { key } => t.map_delete(target, key, stamp),
            OpKindV::RegisterSet { key, value } => t.register_set(target, key, value, stamp),
        }
    }
}

/// The latest of a node's placements in one sequence.
pub open spec fn latest_in(places: Seq<Placement>, list: ElementId) -> Option<Stamp>
    decreases places.len(),
{
    if places.len() == 0 {
        None
    } else {
        let rest = latest_in(places.drop_last(), list);
        let p = places.last();
        if p.list != list {
            rest
        } else {
            match rest {
                Some(s) if !stamp_lt(s, p.stamp) => rest,
                _ => Some(p.stamp),
            }
        }
    }
}

/// A node's placements but one.
pub open spec fn without_place(places: Seq<Placement>, p: Placement) -> Seq<Placement>
    decreases places.len(),
{
    if places.len() == 0 {
        Seq::empty()
    } else {
        let rest = without_place(places.drop_last(), p);
        if places.last() == p {
            rest
        } else {
            rest.push(places.last())
        }
    }
}

} // verus!
