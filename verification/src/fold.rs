//! Folding an op into the state of a replica.

use crate::acl::AclGrant;
use crate::anchor::Anchor;
use crate::annot::{AclEntry, Payload, Placement, Places, RangedEntry};
use crate::bytes::{copy_opt, opt_bytes};
use crate::clientid::ClientId;
use crate::counter::{Counter, CounterV};
use crate::element::{opt_element, Element, ElementV};
use crate::elementid::{derived_id, ElementId, ElementKind};
use crate::identity::{
    acl_id, born_at, payload_id, ranged_id, reservation_end, root_element, root_id, span, spec_span,
    xml_child_id,
};
use crate::list::{list_delete, list_insert, List};
use crate::list_state::empty_list;
use crate::map::{slot_delete, slot_set, slot_set_register, LwwMap};
use crate::op::{OpKind, OpKindV};
use crate::ranged::{RangeAnchor, RangedInit};
use crate::registry::Registry;
use crate::scalar::Scalar;
use crate::stamp::{Stamp, LAMPORT_STATE_CEILING};
use crate::table::{seq_keys, Key, Table};
use crate::text::Text;
use crate::tree::{
    empty_map, latest_in, or_insert, without_place, Claim, Container, OrphanEvent, Tree, TreeV,
};
use crate::treemove::{link_of, TreeMoves};
use crate::xml::{XmlElement, XmlElementV, XmlFragment};
use vstd::prelude::*;
use vstd::slice::slice_to_vec;

verus! {

/// Whether an op's whole reservation lies under the ceiling.
pub open spec fn in_range(stamp: Stamp, kind: OpKindV) -> bool {
    stamp.lamport + spec_span(kind) - 1 <= LAMPORT_STATE_CEILING
}

impl Container {
    fn kind(&self) -> (k: ElementKind)
        ensures
            k == self@.kind(),
    {
        match self {
            Container::LwwMap => ElementKind::LwwMap,
            Container::List => ElementKind::List,
            Container::Text => ElementKind::Text,
            Container::XmlElement(_) => ElementKind::XmlElement,
            Container::XmlFragment => ElementKind::XmlFragment,
        }
    }

    fn handle(&self, id: ElementId) -> (e: Element)
        ensures
            e@ == self@.handle(id),
    {
        match self {
            Container::LwwMap => Element::LwwMap(id),
            Container::List => Element::List(id),
            Container::Text => Element::Text(id),
            Container::XmlElement(_) => Element::XmlElement(id),
            Container::XmlFragment => Element::XmlFragment(id),
        }
    }

    fn child_id(&self, map: ElementId, key: &[u8]) -> (id: ElementId)
        ensures
            id == self@.child_id(map, key@),
    {
        match self {
            Container::XmlElement(tag) => XmlElement::node_id(map, key, tag.as_slice()),
            Container::XmlFragment => XmlFragment::node_id(map, key),
            _ => ElementId::derive(map, key, self.kind()),
        }
    }
}

impl Tree {
    /// Every store is well formed, and the root map is there.
    pub open spec fn wf(&self) -> bool {
        self.sound() && self.maps@.dom().contains(root_element())
    }

    /// Every store is well formed.
    pub open spec fn sound(&self) -> bool {
        &&& self.maps.wf()
        &&& self.lists.wf()
        &&& self.texts.wf()
        &&& self.counters.wf()
        &&& self.xml_elements.wf()
        &&& self.xml_fragments.wf()
        &&& self.parents.wf()
        &&& self.moves.wf()
        &&& self.placements.wf()
        &&& self.placement_index.wf()
        &&& self.ranged.wf()
        &&& self.acl.wf()
        &&& self.revealed.wf()
        &&& self.high_water.wf()
    }

    pub fn new() -> (t: Self)
        ensures
            t.wf(),
            t@ == TreeV::empty(),
    {
        let mut maps: Registry<LwwMap> = Registry::new();
        maps.insert(root_id(), LwwMap::new(root_id()));
        let t = Tree {
            maps,
            lists: Registry::new(),
            texts: Registry::new(),
            counters: Registry::new(),
            xml_elements: Registry::new(),
            xml_fragments: Registry::new(),
            parents: Table::new(),
            moves: TreeMoves::new(),
            placements: Registry::new(),
            placement_index: Table::new(),
            ranged: Registry::new(),
            acl: Registry::new(),
            revealed: Table::new(),
            orphans: Vec::new(),
            high_water: Table::new(),
        };
        proof {
            assert(t@.revealed =~= Set::empty());
            assert(t@ =~= TreeV::empty());
        }
        t
    }

    /// Record a stamp's whole reservation against its author.
    pub(crate) fn record_stamp(&mut self, stamp: Stamp, span: u64)
        requires
            old(self).wf(),
            span >= 1,
        ensures
            final(self).wf(),
            final(self)@ == old(self)@.record(stamp, span as nat),
    {
        reveal(TreeV::record);
        let end: u64 = reservation_end(stamp, span);
        if end == 0 {
            return;
        }
        let mut reach: u64 = if end <= LAMPORT_STATE_CEILING {
            end
        } else {
            LAMPORT_STATE_CEILING
        };
        if let Some(n) = self.high_water.get(&stamp.client) {
            if *n > reach {
                reach = *n;
            }
        }
        self.high_water.insert(stamp.client, reach);
        proof {
            assert(self@ =~= old(self)@.record(stamp, span as nat));
        }
    }

    // --- displacement ---

    fn flag_map(&mut self, id: ElementId, displaced: bool)
        requires
            old(self).wf(),
        ensures
            final(self).wf(),
            final(self)@ == old(self)@.with_map_flag(id, displaced),
    {
        match self.maps.get_mut(id) {
            Some(m) => {
                if displaced {
                    m.displace();
                } else {
                    m.reinstate();
                }
            },
            None => {},
        }
        proof {
            assert(self@ =~= old(self)@.with_map_flag(id, displaced));
        }
    }

    fn flag_list(&mut self, id: ElementId, displaced: bool)
        requires
            old(self).wf(),
        ensures
            final(self).wf(),
            final(self)@ == old(self)@.with_list_flag(id, displaced),
    {
        match self.lists.get_mut(id) {
            Some(l) => {
                if displaced {
                    l.displace();
                } else {
                    l.reinstate();
                }
            },
            None => {},
        }
        proof {
            assert(self@ =~= old(self)@.with_list_flag(id, displaced));
        }
    }

    /// Mark an element as having lost its slot, or as holding it.
    pub(crate) fn set_displaced(&mut self, e: &Element, displaced: bool)
        requires
            old(self).wf(),
        ensures
            final(self).wf(),
            final(self)@ == old(self)@.with_displaced(e@, displaced),
    {
        reveal(TreeV::with_displaced);
        match e {
            Element::Scalar(_) => {},
            Element::Register(_) => {},
            Element::Counter(id) => match self.counters.get_mut(*id) {
                Some(c) => {
                    if displaced {
                        c.displace();
                    } else {
                        c.reinstate();
                    }
                },
                None => {},
            },
            Element::LwwMap(id) => self.flag_map(*id, displaced),
            Element::List(id) => self.flag_list(*id, displaced),
            Element::Text(id) => match self.texts.get_mut(*id) {
                Some(t) => {
                    if displaced {
                        t.displace();
                    } else {
                        t.reinstate();
                    }
                },
                None => {},
            },
            Element::XmlElement(id) => {
                let found = match self.xml_elements.get_mut(*id) {
                    Some(x) => {
                        x.displaced = displaced;
                        true
                    },
                    None => false,
                };
                if found {
                    self.flag_map(XmlElement::attrs_id(*id), displaced);
                    self.flag_list(XmlElement::children_id(*id), displaced);
                }
            },
            Element::XmlFragment(id) => {
                let found = match self.xml_fragments.get_mut(*id) {
                    Some(x) => {
                        x.displaced = displaced;
                        true
                    },
                    None => false,
                };
                if found {
                    self.flag_list(XmlFragment::children_id(*id), displaced);
                }
            },
        }
        proof {
            assert(self@ =~= old(self)@.with_displaced(e@, displaced));
        }
    }

    pub(crate) fn element_is_displaced(&self, e: &Element) -> (b: bool)
        requires
            self.wf(),
        ensures
            b == self@.is_displaced(e@),
    {
        match e {
            Element::Scalar(_) | Element::Register(_) => false,
            Element::Counter(id) => match self.counters.get(*id) {
                Some(c) => c.is_displaced(),
                None => false,
            },
            Element::LwwMap(id) => match self.maps.get(*id) {
                Some(m) => m.is_displaced(),
                None => false,
            },
            Element::List(id) => match self.lists.get(*id) {
                Some(l) => l.is_displaced(),
                None => false,
            },
            Element::Text(id) => match self.texts.get(*id) {
                Some(t) => t.is_displaced(),
                None => false,
            },
            Element::XmlElement(id) => match self.xml_elements.get(*id) {
                Some(x) => x.displaced,
                None => false,
            },
            Element::XmlFragment(id) => match self.xml_fragments.get(*id) {
                Some(x) => x.displaced,
                None => false,
            },
        }
    }

    /// Mark what a slot write pushed out, and report it if it is an orphan.
    fn after_write(&mut self, prior: Option<Element>, evicted: Option<Element>)
        requires
            old(self).wf(),
        ensures
            final(self).wf(),
            final(self)@ == old(self)@.with_evicted(opt_element(evicted)).with_orphan(
                opt_element(prior),
                opt_element(evicted),
            ),
    {
        reveal(TreeV::with_evicted);
        reveal(TreeV::with_orphan);
        let pushed = evicted.is_some();
        if let Some(e) = &evicted {
            self.set_displaced(e, true);
        }
        let ghost mid = self@;
        match &prior {
            None => {},
            Some(Element::Scalar(_)) => {},
            Some(Element::Register(r)) => {
                if pushed {
                    self.orphans.push(OrphanEvent { id: r.id });
                }
            },
            Some(e) => {
                if self.element_is_displaced(e) {
                    self.orphans.push(OrphanEvent { id: e.id() });
                }
            },
        }
        proof {
            assert(self@ =~= mid.with_orphan(opt_element(prior), opt_element(evicted)));
        }
    }

    // --- registration ---

    fn link(&mut self, child: ElementId, parent: ElementId)
        requires
            old(self).wf(),
        ensures
            final(self).wf(),
            final(self)@ == old(self)@.with_link(child, parent),
    {
        self.parents.insert(child, parent);
        self.moves.set_base(child, parent);
        proof {
            assert(self@ =~= old(self)@.with_link(child, parent));
        }
    }

    fn register_map(&mut self, id: ElementId)
        requires
            old(self).wf(),
        ensures
            final(self).wf(),
            final(self)@ == (TreeV {
                maps: or_insert(old(self)@.maps, id, empty_map(id)),
                ..old(self)@
            }),
    {
        if !self.maps.contains(id) {
            self.maps.insert(id, LwwMap::new(id));
        }
        proof {
            assert(self@ =~= (TreeV {
                maps: or_insert(old(self)@.maps, id, empty_map(id)),
                ..old(self)@
            }));
        }
    }

    fn register_list(&mut self, id: ElementId)
        requires
            old(self).wf(),
        ensures
            final(self).wf(),
            final(self)@ == (TreeV {
                lists: or_insert(old(self)@.lists, id, empty_list(id)),
                ..old(self)@
            }),
    {
        if !self.lists.contains(id) {
            self.lists.insert(id, List::new(id));
        }
        proof {
            assert(self@ =~= (TreeV {
                lists: or_insert(old(self)@.lists, id, empty_list(id)),
                ..old(self)@
            }));
        }
    }

    /// Register a container under `id`, a fresh one on first sight.
    pub(crate) fn register(&mut self, id: ElementId, c: &Container)
        requires
            old(self).wf(),
        ensures
            final(self).wf(),
            final(self)@ == old(self)@.with_registered(id, c@),
    {
        reveal(TreeV::with_registered);
        match c {
            Container::LwwMap => self.register_map(id),
            Container::List => self.register_list(id),
            Container::Text => {
                if !self.texts.contains(id) {
                    self.texts.insert(id, Text::new(id));
                }
            },
            Container::XmlElement(tag) => {
                if !self.xml_elements.contains(id) {
                    self.xml_elements.insert(
                        id,
                        XmlElement { tag: slice_to_vec(tag.as_slice()), displaced: false },
                    );
                }
                let attrs = XmlElement::attrs_id(id);
                let children = XmlElement::children_id(id);
                self.register_map(attrs);
                self.register_list(children);
                proof {
                    assert(self@ =~= (TreeV {
                        xml_elements: or_insert(
                            old(self)@.xml_elements,
                            id,
                            XmlElementV { tag: tag@, displaced: false },
                        ),
                        maps: or_insert(old(self)@.maps, attrs, empty_map(attrs)),
                        lists: or_insert(old(self)@.lists, children, empty_list(children)),
                        ..old(self)@
                    }));
                }
                self.link(attrs, id);
                self.link(children, id);
            },
            Container::XmlFragment => {
                if !self.xml_fragments.contains(id) {
                    self.xml_fragments.insert(id, XmlFragment { displaced: false });
                }
                let children = XmlFragment::children_id(id);
                self.register_list(children);
                proof {
                    assert(self@ =~= (TreeV {
                        xml_fragments: or_insert(
                            old(self)@.xml_fragments,
                            id,
                            XmlFragment { displaced: false },
                        ),
                        lists: or_insert(old(self)@.lists, children, empty_list(children)),
                        ..old(self)@
                    }));
                }
                self.link(children, id);
            },
        }
        proof {
            assert(self@ =~= old(self)@.with_registered(id, c@));
        }
    }

    // --- slots ---

    fn map_set(&mut self, map: ElementId, key: &[u8], v: &Scalar, stamp: Stamp)
        requires
            old(self).wf(),
        ensures
            final(self).wf(),
            final(self)@ == old(self)@.map_set(map, key@, v@, stamp),
    {
        reveal(TreeV::map_set);
        let written = match self.maps.get_mut(map) {
            Some(m) => {
                let prior = m.get(key);
                let out = m.set(key, Element::Scalar(v.clone()), stamp);
                Some((prior, out))
            },
            None => None,
        };
        if let Some((prior, out)) = written {
            proof {
                let s = old(self)@.slot(map, key@);
                assert(self@ =~= old(self)@.with_slot(
                    map,
                    key@,
                    slot_set(s, ElementV::Scalar(v@), stamp),
                ));
            }
            self.after_write(prior, out);
        }
    }

    fn map_delete(&mut self, map: ElementId, key: &[u8], stamp: Stamp)
        requires
            old(self).wf(),
        ensures
            final(self).wf(),
            final(self)@ == old(self)@.map_delete(map, key@, stamp),
    {
        reveal(TreeV::map_delete);
        let written = match self.maps.get_mut(map) {
            Some(m) => {
                let prior = m.get(key);
                let out = m.delete(key, stamp);
                Some((prior, out))
            },
            None => None,
        };
        if let Some((prior, out)) = written {
            proof {
                let s = old(self)@.slot(map, key@);
                assert(self@ =~= old(self)@.with_slot(map, key@, slot_delete(s, stamp)));
            }
            self.after_write(prior, out);
        }
    }

    fn register_set(&mut self, map: ElementId, key: &[u8], v: &Scalar, stamp: Stamp)
        requires
            old(self).wf(),
        ensures
            final(self).wf(),
            final(self)@ == old(self)@.register_set(map, key@, v@, stamp),
    {
        reveal(TreeV::register_set);
        let written = match self.maps.get_mut(map) {
            Some(m) => {
                let prior = m.get(key);
                let out = m.set_register(key, v.clone(), stamp);
                Some((prior, out))
            },
            None => None,
        };
        if let Some((prior, out)) = written {
            proof {
                let s = old(self)@.slot(map, key@);
                let id = derived_id(old(self)@.maps[map].id, key@, ElementKind::Register);
                assert(self@ =~= old(self)@.with_slot(
                    map,
                    key@,
                    slot_set_register(s, id, v@, stamp),
                ));
            }
            self.after_write(prior, out);
        }
    }

    /// Set a handle at `key`: it holds the slot or is displaced.
    fn install_handle(&mut self, map: ElementId, key: &[u8], e: &Element, stamp: Stamp)
        requires
            old(self).wf(),
            old(self)@.maps.dom().contains(map),
        ensures
            final(self).wf(),
            final(self)@ == old(self)@.install_handle(map, key@, e@, stamp),
    {
        reveal(TreeV::install_handle);
        let ghost s = old(self)@.slot(map, key@);
        let ghost slot = slot_set(s, e@, stamp);
        let mut won = false;
        let mut prior: Option<Element> = None;
        let mut out: Option<Element> = None;
        match self.maps.get_mut(map) {
            Some(m) => {
                prior = m.get(key);
                out = m.set(key, e.clone(), stamp);
                won = match m.get(key) {
                    Some(v) => v.same_handle(e),
                    None => false,
                };
            },
            None => {},
        }
        proof {
            assert(self@ =~= old(self)@.with_slot(map, key@, slot));
            assert(won == (slot.value matches Some(v) && v.same_handle(e@)));
        }
        self.after_write(prior, out);
        self.set_displaced(e, !won);
    }

    fn create_container(&mut self, map: ElementId, key: &[u8], stamp: Stamp, c: Container)
        requires
            old(self).wf(),
        ensures
            final(self).wf(),
            final(self)@ == old(self)@.create_container(map, key@, stamp, c@),
    {
        reveal(TreeV::create_container);
        reveal(TreeV::with_registered);
        if !self.maps.contains(map) {
            return;
        }
        let child = c.child_id(map, key);
        self.register(child, &c);
        proof {
            assert(self@.maps.dom().contains(map));
        }
        self.install_handle(map, key, &c.handle(child), stamp);
        self.link(child, map);
    }

    /// Count at `key`, up or down.
    fn count(
        &mut self,
        map: ElementId,
        key: &[u8],
        author: ClientId,
        amount: u32,
        up: bool,
        stamp: Stamp,
    )
        requires
            old(self).wf(),
        ensures
            final(self).wf(),
            final(self)@ == old(self)@.count(map, key@, author, amount, up, stamp),
    {
        reveal(TreeV::count);
        if !self.maps.contains(map) {
            return;
        }
        let id = ElementId::derive(map, key, ElementKind::Counter);
        let ghost fresh = CounterV { id, tallies: Map::empty(), displaced: false };
        let ghost counters = or_insert(old(self)@.counters, id, fresh);
        if !self.counters.contains(id) {
            self.counters.insert(id, Counter::new(id));
        }
        proof {
            assert(self@.counters =~= counters);
        }
        match self.counters.get_mut(id) {
            Some(c) => {
                if up {
                    c.inc(author, amount);
                } else {
                    c.dec(author, amount);
                }
            },
            None => {},
        }
        proof {
            let c = counters[id];
            let tallies = if up {
                crate::counter::tallies_inc(c.tallies, author, amount)
            } else {
                crate::counter::tallies_dec(c.tallies, author, amount)
            };
            assert(self@ =~= (TreeV {
                counters: counters.insert(id, CounterV { tallies, ..c }),
                ..old(self)@
            }));
        }
        self.install_handle(map, key, &Element::Counter(id), stamp);
    }

    // --- sequences and moves ---

    fn list_insert(&mut self, list: ElementId, stamp: Stamp, e: Element, anchor: Anchor)
        requires
            old(self).wf(),
        ensures
            final(self).wf(),
            final(self)@ == old(self)@.list_insert(list, stamp, e@, anchor),
    {
        reveal(TreeV::list_insert);
        match self.lists.get_mut(list) {
            Some(l) => l.insert_at(stamp, e, anchor),
            None => {},
        }
        proof {
            assert(self@ =~= old(self)@.list_insert(list, stamp, e@, anchor));
        }
    }

    fn list_delete(&mut self, list: ElementId, id: Stamp)
        requires
            old(self).wf(),
        ensures
            final(self).wf(),
            final(self)@ == old(self)@.list_delete(list, id),
    {
        reveal(TreeV::list_delete);
        match self.lists.get_mut(list) {
            Some(l) => l.delete_id(id),
            None => {},
        }
        proof {
            let t = if old(self)@.lists.dom().contains(list) {
                old(self)@.with_list(list, list_delete(old(self)@.lists[list], id))
            } else {
                old(self)@
            };
            assert(self@ =~= t);
        }
        if self.placement_index.contains_key(&Placement { list, stamp: id }) {
            self.refold_moves();
        }
    }

    pub(crate) fn is_tombstoned_node(&self, p: Placement) -> (b: bool)
        requires
            self.wf(),
        ensures
            b == self@.is_tombstoned(p),
    {
        match self.lists.get(p.list) {
            Some(l) => l.is_tombstoned(p.stamp),
            None => false,
        }
    }

    pub(crate) fn any_tombstoned(&self, places: &Vec<Placement>) -> (b: bool)
        requires
            self.wf(),
        ensures
            b == self@.any_tombstoned(places@),
    {
        let mut i: usize = 0;
        while i < places.len()
            invariant
                self.wf(),
                i <= places@.len(),
                forall|j: int| 0 <= j < i ==> !self@.is_tombstoned(#[trigger] places@[j]),
            decreases places@.len() - i,
        {
            if self.is_tombstoned_node(places[i]) {
                return true;
            }
            i += 1;
        }
        false
    }

    fn set_away(&mut self, p: Placement, away: bool)
        requires
            old(self).wf(),
        ensures
            final(self).wf(),
            final(self)@ == old(self)@.with_away(p, away),
            final(self).placements == old(self).placements,
            final(self).moves == old(self).moves,
    {
        match self.lists.get_mut(p.list) {
            Some(l) => l.set_moved_away(p.stamp, away),
            None => {},
        }
        proof {
            assert(self@ =~= old(self)@.with_away(p, away));
        }
    }

    /// Settle the node at place `i` of the placements.
    fn settle(&mut self, tree: &Table<ElementId, ElementId>, i: usize)
        requires
            old(self).wf(),
            tree.wf(),
            i < old(self).placements.table.entries@.len(),
        ensures
            final(self).wf(),
            final(self)@ == old(self)@.settle(
                tree@,
                old(self).placements.table.entries@[i as int].0,
            ),
            final(self).placements == old(self).placements,
    {
        reveal(TreeV::settle);
        let node = self.placements.table.entries[i].0;
        proof {
            self.placements.lemma_at(i as int);
        }
        let owner = match tree.get(&node) {
            Some(p) => *p,
            None => {
                return;
            },
        };
        let list = XmlElement::children_id(owner);
        let places: Vec<Placement> = slice_to_vec(
            self.placements.table.entries[i].1.at.as_slice(),
        );
        proof {
            assert(places@ == self@.placements[node]);
        }
        let live = if self.any_tombstoned(&places) {
            None
        } else {
            latest(&places, list)
        };
        let ghost start = self@;
        let mut j: usize = 0;
        proof {
            assert(places@.take(0) =~= Seq::empty());
        }
        while j < places.len()
            invariant
                self.wf(),
                j <= places@.len(),
                self.placements == old(self).placements,
                self@ == start.with_only(places@.take(j as int), list, live),
            decreases places@.len() - j,
        {
            let p = places[j];
            proof {
                assert(places@.take(j + 1).drop_last() =~= places@.take(j as int));
            }
            let at = match live {
                Some(s) => p.list == list && p.stamp == s,
                None => false,
            };
            self.set_away(p, !at);
            j += 1;
        }
        proof {
            assert(places@.take(j as int) =~= places@);
        }
        let ghost t = self@;
        self.parents.insert(node, list);
        proof {
            assert(self@ =~= (TreeV { parents: t.parents.insert(node, list), ..t }));
        }
    }

    /// Settle every movable node where the moves put it.
    pub(crate) fn refold_moves(&mut self)
        requires
            old(self).wf(),
        ensures
            final(self).wf(),
            final(self)@ == old(self)@.refold(),
    {
        reveal(TreeV::refold);
        let tree = self.moves.tree();
        let ghost start = self@;
        let ghost e = self.placements.table.entries@;
        let ghost q = seq_keys(e);
        proof {
            self.placements.lemma_ids();
            assert(q.take(0) =~= Seq::empty());
        }
        let n: usize = self.placements.table.entries.len();
        let mut i: usize = 0;
        while i < n
            invariant
                self.wf(),
                tree.wf(),
                e == self.placements.table.entries@,
                n == e.len(),
                q == seq_keys(e),
                i <= n,
                self@ == start.settle_all(tree@, q.take(i as int)),
            decreases n - i,
        {
            proof {
                assert(q.take(i + 1).drop_last() =~= q.take(i as int));
                assert(q.take(i + 1).last() == e[i as int].0@);
            }
            self.settle(&tree, i);
            i += 1;
        }
        proof {
            assert(q.take(i as int) =~= q);
        }
    }

    /// Settle who owns a placement when `node` asks for it.
    fn claim_placement(&mut self, p: Placement, node: ElementId) -> (c: Claim)
        requires
            old(self).wf(),
        ensures
            final(self).wf(),
            c == old(self)@.claim_of(p, node),
            final(self)@ == old(self)@.with_claim(p, node),
    {
        reveal(TreeV::with_claim);
        let held = match self.placement_index.get(&p) {
            Some(h) => *h,
            None => {
                self.placement_index.insert(p, node);
                proof {
                    assert(self@ =~= old(self)@.with_claim(p, node));
                }
                return Claim::Fresh;
            },
        };
        if held == node {
            return Claim::Joined;
        }
        let a = born_at(p.list, p.stamp, node);
        let b = born_at(p.list, p.stamp, held);
        let outranks = if a != b {
            a
        } else {
            node.bits < held.bits
        };
        if !outranks {
            return Claim::Refused;
        }
        self.evict_placement(p, held);
        let ghost t = self@;
        self.placement_index.insert(p, node);
        proof {
            assert(self@ =~= (TreeV { placement_index: t.placement_index.insert(p, node), ..t }));
        }
        Claim::Evicted
    }

    /// Take a placement from the node that holds it.
    fn evict_placement(&mut self, p: Placement, held: ElementId)
        requires
            old(self).wf(),
        ensures
            final(self).wf(),
            final(self)@ == old(self)@.with_placement_evicted(p, held),
    {
        reveal(TreeV::with_placement_evicted);
        let owner = match self.parents.get(&p.list) {
            Some(o) => Some(*o),
            None => None,
        };
        if let Some(o) = owner {
            self.moves.remove(p.stamp, held, o);
        }
        let ghost t = self@;
        proof {
            let moves = match link_of(old(self)@.parents, p.list) {
                Some(owner) => old(self)@.moves.remove(p.stamp, held, owner),
                None => old(self)@.moves,
            };
            assert(t =~= (TreeV { moves, ..old(self)@ }));
        }
        let rest = match self.placements.get(held) {
            Some(places) => without(&places.at, p),
            None => {
                return;
            },
        };
        if rest.len() > 0 {
            self.placements.insert(held, Places { at: rest });
        } else {
            self.placements.remove(held);
            self.revealed.insert(held, ());
            match self.moves.parent_of(held) {
                Some(o) => {
                    self.parents.insert(held, XmlElement::children_id(o));
                },
                None => {
                    self.parents.remove(&held);
                },
            }
            proof {
                assert(self@.revealed =~= t.revealed.insert(held));
            }
        }
        proof {
            assert(self@ =~= old(self)@.with_placement_evicted(p, held));
        }
    }

    /// Put a claimed placement's node in its sequence.
    fn seat(&mut self, claim: Claim, p: Placement, e: Element, anchor: Anchor)
        requires
            old(self).wf(),
        ensures
            final(self).wf(),
            final(self)@ == old(self)@.with_seat(claim, p, e@, anchor),
    {
        reveal(TreeV::with_seat);
        match self.lists.get_mut(p.list) {
            Some(l) => match claim {
                Claim::Fresh => l.insert_at(p.stamp, e, anchor),
                Claim::Joined => l.rejoin(p.stamp, e, anchor),
                Claim::Evicted => l.reseat(p.stamp, e, anchor),
                Claim::Refused => {},
            },
            None => {},
        }
        proof {
            assert(self@ =~= old(self)@.with_seat(claim, p, e@, anchor));
        }
    }

    fn add_placement(&mut self, node: ElementId, p: Placement)
        requires
            old(self).wf(),
        ensures
            final(self).wf(),
            final(self)@ == old(self)@.with_placement(node, p),
    {
        let mut at: Vec<Placement> = match self.placements.get(node) {
            Some(places) => slice_to_vec(places.at.as_slice()),
            None => Vec::new(),
        };
        at.push(p);
        self.placements.insert(node, Places { at });
        proof {
            assert(self@ =~= old(self)@.with_placement(node, p));
        }
    }

    fn insert_xml_child(
        &mut self,
        list: ElementId,
        tag: Option<Vec<u8>>,
        anchor: Anchor,
        stamp: Stamp,
    )
        requires
            old(self).wf(),
        ensures
            final(self).wf(),
            final(self)@ == old(self)@.insert_child(list, opt_bytes(tag), anchor, stamp),
    {
        reveal(TreeV::insert_child);
        if !self.lists.contains(list) {
            return;
        }
        let c = match tag {
            Some(t) => Container::XmlElement(t),
            None => Container::Text,
        };
        let child = xml_child_id(list, stamp, c.kind());
        let p = Placement { list, stamp };
        self.bear(list, child, &c);
        let claim = self.claim_placement(p, child);
        self.seat(claim, p, c.handle(child), anchor);
        self.place_birth(claim, p, child);
        self.set_owner(list, child);
        match claim {
            Claim::Joined | Claim::Evicted => self.refold_moves(),
            _ => {},
        }
    }

    /// Materialise a child under a children sequence.
    fn bear(&mut self, list: ElementId, child: ElementId, c: &Container)
        requires
            old(self).wf(),
        ensures
            final(self).wf(),
            final(self)@ == old(self)@.with_born(list, child, c@),
    {
        reveal(TreeV::with_born);
        self.register(child, c);
        let ghost t0 = self@;
        self.parents.insert(child, list);
        proof {
            assert(self@ =~= (TreeV { parents: t0.parents.insert(child, list), ..t0 }));
        }
    }

    /// Place a born child, unless another node holds its place.
    fn place_birth(&mut self, claim: Claim, p: Placement, child: ElementId)
        requires
            old(self).wf(),
        ensures
            final(self).wf(),
            final(self)@ == old(self)@.with_birth_placed(claim, p, child),
    {
        reveal(TreeV::with_birth_placed);
        match claim {
            Claim::Refused => {
                if !self.placements.contains(child) {
                    self.revealed.insert(child, ());
                    proof {
                        assert(self@.revealed =~= old(self)@.revealed.insert(child));
                    }
                }
            },
            Claim::Joined => {},
            _ => {
                self.add_placement(child, p);
                let ghost t = self@;
                self.revealed.remove(&child);
                proof {
                    assert(self@.revealed =~= t.revealed.remove(child));
                }
            },
        }
        proof {
            assert(self@ =~= old(self)@.with_birth_placed(claim, p, child));
        }
    }

    /// Record a child's created-under parent.
    fn set_owner(&mut self, list: ElementId, child: ElementId)
        requires
            old(self).wf(),
        ensures
            final(self).wf(),
            final(self)@ == old(self)@.with_owner(list, child),
    {
        reveal(TreeV::with_owner);
        let owner = match self.parents.get(&list) {
            Some(o) => Some(*o),
            None => None,
        };
        if let Some(o) = owner {
            self.moves.set_base(child, o);
        }
        proof {
            assert(self@ =~= old(self)@.with_owner(list, child));
        }
    }

    /// The handle to a movable node.
    pub(crate) fn node_element(&self, node: ElementId) -> (r: Option<Element>)
        requires
            self.wf(),
        ensures
            opt_element(r) == self@.node_handle(node),
    {
        if self.xml_elements.contains(node) {
            Some(Element::XmlElement(node))
        } else if self.texts.contains(node) {
            Some(Element::Text(node))
        } else {
            None
        }
    }

    fn apply_move(&mut self, list: ElementId, node: ElementId, anchor: Anchor, stamp: Stamp)
        requires
            old(self).wf(),
        ensures
            final(self).wf(),
            final(self)@ == old(self)@.move_node(list, node, anchor, stamp),
    {
        reveal(TreeV::move_node);
        reveal(TreeV::with_claim);
        if !self.placements.contains(node) && !self.revealed.contains_key(&node) {
            return;
        }
        if !self.lists.contains(list) {
            return;
        }
        let owner = match self.parents.get(&list) {
            Some(o) => *o,
            None => {
                return;
            },
        };
        let element = match self.node_element(node) {
            Some(e) => e,
            None => {
                return;
            },
        };
        let p = Placement { list, stamp };
        let claim = self.claim_placement(p, node);
        if let Claim::Refused = claim {
            return;
        }
        self.seat(claim, p, element, anchor);
        match claim {
            Claim::Joined => {},
            _ => self.add_placement(node, p),
        }
        let ghost t1 = self@;
        self.moves.apply(stamp, node, owner);
        self.revealed.remove(&node);
        proof {
            assert(self@.revealed =~= t1.revealed.remove(node));
            assert(self@ =~= (TreeV {
                moves: t1.moves.apply(stamp, node, owner),
                revealed: t1.revealed.remove(node),
                ..t1
            }));
        }
        self.refold_moves();
    }

    fn apply_reveal(&mut self, node: ElementId, tag: Option<Vec<u8>>)
        requires
            old(self).wf(),
        ensures
            final(self).wf(),
            final(self)@ == old(self)@.reveal_node(node, opt_bytes(tag)),
    {
        reveal(TreeV::reveal_node);
        if self.node_element(node).is_some() {
            return;
        }
        let c = match tag {
            Some(t) => Container::XmlElement(t),
            None => Container::Text,
        };
        self.register(node, &c);
        let ghost t = self@;
        self.revealed.insert(node, ());
        proof {
            assert(self@.revealed =~= t.revealed.insert(node));
            assert(self@ =~= (TreeV { revealed: t.revealed.insert(node), ..t }));
        }
    }

    // --- annotations and grants ---

    fn install_payload(&mut self, ranged: ElementId, kind: ElementKind)
        requires
            old(self).wf(),
        ensures
            final(self).wf(),
            final(self)@ == old(self)@.with_payload(ranged, kind),
    {
        reveal(TreeV::with_payload);
        let c = match kind {
            ElementKind::LwwMap => Container::LwwMap,
            ElementKind::List => Container::List,
            ElementKind::Text => Container::Text,
            _ => {
                return;
            },
        };
        let id = payload_id(ranged, kind);
        self.register(id, &c);
        self.link(id, ranged);
    }

    fn ranged_create(
        &mut self,
        start: RangeAnchor,
        end: RangeAnchor,
        payload: &RangedInit,
        name: Option<Vec<u8>>,
        stamp: Stamp,
    )
        requires
            old(self).wf(),
        ensures
            final(self).wf(),
            final(self)@ == old(self)@.ranged_create(start, end, payload@, opt_bytes(name), stamp),
    {
        reveal(TreeV::ranged_create);
        let id = ranged_id(stamp);
        if self.ranged.contains(id) {
            return;
        }
        let ghost init = payload@;
        let payload = match payload {
            RangedInit::Scalar(value) => Payload::Scalar { value: value.clone(), stamp },
            RangedInit::Composite(kind) => {
                self.install_payload(id, *kind);
                Payload::Composite { kind: *kind }
            },
        };
        self.ranged.insert(id, RangedEntry { start, end, payload, name, tombstone: false });
        proof {
            assert(self@ =~= old(self)@.ranged_create(start, end, init, opt_bytes(name), stamp));
        }
    }

    fn ranged_set(&mut self, id: ElementId, v: &Scalar, stamp: Stamp)
        requires
            old(self).wf(),
        ensures
            final(self).wf(),
            final(self)@ == old(self)@.ranged_set(id, v@, stamp),
    {
        reveal(TreeV::ranged_set);
        let wins = match self.ranged.get(id) {
            Some(e) => match &e.payload {
                Payload::Scalar { stamp: last, .. } => stamp.gt(last),
                Payload::Composite { .. } => false,
            },
            None => false,
        };
        if wins {
            if let Some(e) = self.ranged.get_mut(id) {
                e.payload = Payload::Scalar { value: v.clone(), stamp };
            }
        }
        proof {
            assert(self@ =~= old(self)@.ranged_set(id, v@, stamp));
        }
    }

    fn ranged_delete(&mut self, id: ElementId)
        requires
            old(self).wf(),
        ensures
            final(self).wf(),
            final(self)@ == old(self)@.ranged_delete(id),
    {
        reveal(TreeV::ranged_delete);
        if let Some(e) = self.ranged.get_mut(id) {
            e.tombstone = true;
        }
        proof {
            assert(self@ =~= old(self)@.ranged_delete(id));
        }
    }

    fn acl_grant(&mut self, id: ElementId, e: AclEntry)
        requires
            old(self).wf(),
            e.revokers.wf(),
        ensures
            final(self).wf(),
            final(self)@ == old(self)@.acl_grant(id, e@),
    {
        reveal(TreeV::acl_grant);
        if !self.acl.contains(id) {
            self.acl.insert(id, e);
        }
        proof {
            assert(self@ =~= old(self)@.acl_grant(id, e@));
        }
    }

    fn acl_revoke(&mut self, id: ElementId, author: ClientId)
        requires
            old(self).wf(),
        ensures
            final(self).wf(),
            final(self)@ == old(self)@.acl_revoke(id, author),
    {
        reveal(TreeV::acl_revoke);
        if let Some(e) = self.acl.get_mut(id) {
            let ghost r = e.revokers@.dom();
            e.revokers.insert(author, ());
            proof {
                assert(e.revokers@.dom() =~= r.insert(author));
            }
        }
        proof {
            assert(self@ =~= old(self)@.acl_revoke(id, author));
        }
    }

    // --- ops ---

    /// Route an op to what it changes, recording what it displaces and registering what
    /// it creates.
    pub(crate) fn apply_kind(
        &mut self,
        target: ElementId,
        kind: &OpKind,
        stamp: Stamp,
        author: ClientId,
    )
        requires
            old(self).wf(),
            in_range(stamp, kind@),
        ensures
            final(self).wf(),
            final(self)@ == old(self)@.apply_kind(target, kind@, stamp, author),
    {
        self.record_stamp(stamp, span(kind));
        match kind {
            OpKind::ListInsert { value, anchor } => {
                self.list_insert(target, stamp, Element::Scalar(value.clone()), *anchor)
            },
            OpKind::ListDelete { id } => self.list_delete(target, *id),
            OpKind::XmlInsertChild { tag, anchor } => {
                self.insert_xml_child(target, copy_opt(tag), *anchor, stamp)
            },
            OpKind::XmlMove { node, anchor } => self.apply_move(target, *node, *anchor, stamp),
            OpKind::XmlReveal { node, tag } => self.apply_reveal(*node, copy_opt(tag)),
            OpKind::RangedCreate { start, end, payload, name } => {
                self.ranged_create(*start, *end, payload, copy_opt(name), stamp)
            },
            OpKind::RangedSetPayload { id, payload } => self.ranged_set(*id, payload, stamp),
            OpKind::RangedDelete { id } => self.ranged_delete(*id),
            OpKind::AclGrant { subject, grant, effect, path, grantor } => {
                let e = AclEntry {
                    subject: subject.clone(),
                    grant: grant.clone(),
                    effect: *effect,
                    path: slice_to_vec(path.as_slice()),
                    grantor: *grantor,
                    revokers: Table::new(),
                };
                proof {
                    assert(e@.revokers =~= Set::empty());
                }
                self.acl_grant(acl_id(stamp), e)
            },
            OpKind::AclRevoke { id } => self.acl_revoke(*id, author),
            OpKind::TextInsert { s, anchor } => {
                let ghost t = self@;
                match self.texts.get_mut(target) {
                    Some(text) => {
                        text.insert_run(stamp, s.as_str(), *anchor);
                        proof {
                            crate::text::lemma_insert_keeps_id(t.texts[target], stamp, s@, *anchor, s@.len());
                        }
                    },
                    None => {},
                }
                proof {
                    assert(self@ =~= old(self)@.apply_kind(target, kind@, stamp, author));
                }
            },
            OpKind::TextDelete { ids } => {
                let ghost t = self@;
                match self.texts.get_mut(target) {
                    Some(text) => {
                        text.delete_ids(ids.as_slice());
                        proof {
                            crate::text::lemma_delete_keeps_id(t.texts[target], ids@);
                        }
                    },
                    None => {},
                }
                proof {
                    assert(self@ =~= old(self)@.apply_kind(target, kind@, stamp, author));
                }
            },
            OpKind::MapCreate { key } => {
                self.create_container(target, key.as_slice(), stamp, Container::LwwMap)
            },
            OpKind::ListCreate { key } => {
                self.create_container(target, key.as_slice(), stamp, Container::List)
            },
            OpKind::TextCreate { key } => {
                self.create_container(target, key.as_slice(), stamp, Container::Text)
            },
            OpKind::XmlElementCreate { key, tag } => {
                let c = Container::XmlElement(slice_to_vec(tag.as_slice()));
                self.create_container(target, key.as_slice(), stamp, c)
            },
            OpKind::XmlFragmentCreate { key } => {
                self.create_container(target, key.as_slice(), stamp, Container::XmlFragment)
            },
            OpKind::CounterInc { key, amount } => {
                self.count(target, key.as_slice(), author, *amount, true, stamp)
            },
            OpKind::CounterDec { key, amount } => {
                self.count(target, key.as_slice(), author, *amount, false, stamp)
            },
            OpKind::MapSet { key, value } => self.map_set(target, key.as_slice(), value, stamp),
            OpKind::MapDelete { key } => self.map_delete(target, key.as_slice(), stamp),
            OpKind::RegisterSet { key, value } => {
                self.register_set(target, key.as_slice(), value, stamp)
            },
        }
    }
}

/// The latest of a node's placements in one sequence.
pub(crate) fn latest(places: &Vec<Placement>, list: ElementId) -> (r: Option<Stamp>)
    ensures
        r == latest_in(places@, list),
{
    let mut r: Option<Stamp> = None;
    let mut i: usize = 0;
    proof {
        assert(places@.take(0) =~= Seq::empty());
    }
    while i < places.len()
        invariant
            i <= places@.len(),
            r == latest_in(places@.take(i as int), list),
        decreases places@.len() - i,
    {
        let p = places[i];
        proof {
            assert(places@.take(i + 1).drop_last() =~= places@.take(i as int));
        }
        if p.list == list {
            let later = match r {
                Some(s) => p.stamp.gt(&s),
                None => true,
            };
            if later {
                r = Some(p.stamp);
            }
        }
        i += 1;
    }
    proof {
        assert(places@.take(i as int) =~= places@);
    }
    r
}

/// A node's placements but one.
fn without(places: &Vec<Placement>, p: Placement) -> (r: Vec<Placement>)
    ensures
        r@ == without_place(places@, p),
{
    let mut r: Vec<Placement> = Vec::new();
    let mut i: usize = 0;
    proof {
        assert(places@.take(0) =~= Seq::empty());
    }
    while i < places.len()
        invariant
            i <= places@.len(),
            r@ == without_place(places@.take(i as int), p),
        decreases places@.len() - i,
    {
        proof {
            assert(places@.take(i + 1).drop_last() =~= places@.take(i as int));
        }
        if places[i] != p {
            r.push(places[i]);
        }
        i += 1;
    }
    proof {
        assert(places@.take(i as int) =~= places@);
    }
    r
}

} // verus!
