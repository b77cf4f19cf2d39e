//! Projecting a replica onto what a reader may read, or onto some zones: what is withheld
//! leaves no trace, not its content, its structure, its ids, its op count or its clock.
//!
//! A projection narrows a throwaway copy right before it is encoded; what it leaves is no
//! live replica.

use crate::acl::{decision, evaluate, tuples_view, AclActor, AclDecision, AclTuple, Capability};
use crate::annot::{AclEntry, Payload, PayloadV, Placement, Places, RangedEntry};
use crate::bytes::byte_strings;
use crate::clientid::ClientId;
use crate::doc::{holds_op, DocV, Document};
use crate::element::{Element, ElementV};
use crate::elementid::{ElementId, ElementKind};
use crate::identity::{payload_id, root_element, root_id, spec_payload_id};
use crate::list::ListV;
use crate::map::live_value;
use crate::op::OpId;
use crate::path::{enc_path, encode_path, keys_fit, parse_path, read_path};
use crate::purge::extend;
use crate::rebuild::{birth_of, birth_placement, ids_of};
use crate::registry::Registry;
use crate::stamp::Stamp;
use crate::table::{index_of, lemma_entry, ordered, seq_keys, Key, Table};
use crate::tree::{Tree, TreeV};
use crate::treemove::{MoveEdge, MovesV};
use crate::walk::KeyPath;
use crate::xml::{node_attrs_id, node_children_id, XmlElement};
use vstd::prelude::*;

verus! {

/// What a reader may read, path by path.
pub trait ReadRule {
    spec fn reads_at(&self, path: Seq<Seq<u8>>) -> bool;

    fn reads(&self, path: &Vec<Vec<u8>>) -> (b: bool)
        ensures
            b == self.reads_at(byte_strings(path@)),
    ;
}

/// A reader whose grants are the document's own tuples.
pub struct AclReader {
    pub tuples: Vec<AclTuple>,
    pub actor: AclActor,
}

impl ReadRule for AclReader {
    /// The tuples allow the actor to read at the path. A path with a key too long to
    /// frame is none anyone may read.
    open spec fn reads_at(&self, path: Seq<Seq<u8>>) -> bool {
        keys_fit(path) && decision(
            tuples_view(self.tuples@),
            self.actor@,
            enc_path(path),
            Capability::Read,
        ) == AclDecision::Allow
    }

    fn reads(&self, path: &Vec<Vec<u8>>) -> (b: bool) {
        let mut i: usize = 0;
        while i < path.len()
            invariant
                i <= path@.len(),
                forall|j: int|
                    0 <= j < i ==> crate::format::fits_u32((#[trigger] byte_strings(path@)[j]).len()),
            decreases path@.len() - i,
        {
            proof {
                assert(byte_strings(path@)[i as int] == path@[i as int]@);
            }
            if path[i].len() as u64 > u32::MAX as u64 {
                return false;
            }
            i += 1;
        }
        let at = encode_path(path.as_slice());
        evaluate(self.tuples.as_slice(), &self.actor, at.as_slice(), Capability::Read)
    }
}

/// Whether some level of a path, its own or one above it, may not be read.
pub open spec fn denied<R: ReadRule>(rule: &R, path: Seq<Seq<u8>>) -> bool {
    exists|i: int| 1 <= i <= path.len() && !rule.reads_at(#[trigger] path.take(i))
}

pub(crate) fn is_denied<R: ReadRule>(rule: &R, path: &KeyPath) -> (b: bool)
    ensures
        b == denied(rule, path@),
{
    let mut at = KeyPath::root();
    let mut i: usize = 0;
    proof {
        assert(path@.take(0) =~= Seq::empty());
    }
    while i < path.keys.len()
        invariant
            i <= path.keys@.len(),
            at@ == path@.take(i as int),
            forall|j: int| 1 <= j <= i ==> rule.reads_at(#[trigger] path@.take(j)),
        decreases path.keys@.len() - i,
    {
        at = at.child(path.keys[i].as_slice());
        proof {
            assert(path@.take(i + 1) =~= path@.take(i as int).push(path@[i as int]));
        }
        if !rule.reads(&at.keys) {
            proof {
                assert(!rule.reads_at(path@.take(i + 1)));
            }
            return true;
        }
        i += 1;
    }
    false
}

/// Where everything is, and what may be read of it.
pub open spec fn list_denied<R: ReadRule>(
    rule: &R,
    paths: Map<ElementId, Seq<Seq<u8>>>,
    list: ElementId,
) -> bool {
    !paths.dom().contains(list) || denied(rule, paths[list])
}

pub(crate) fn list_is_denied<R: ReadRule>(rule: &R, paths: &Registry<KeyPath>, list: ElementId) -> (b: bool)
    requires
        paths.wf(),
    ensures
        b == list_denied(rule, paths@, list),
{
    match paths.get(list) {
        Some(p) => is_denied(rule, p),
        None => true,
    }
}

/// The containers at a path some level of which may not be read. The root stays.
pub open spec fn unreadable<R: ReadRule>(rule: &R, paths: Map<ElementId, Seq<Seq<u8>>>) -> Set<
    ElementId,
> {
    Set::new(
        |id: ElementId| paths.dom().contains(id) && id != root_element() && denied(rule, paths[id]),
    )
}

pub(crate) fn find_unreadable<R: ReadRule>(rule: &R, paths: &Registry<KeyPath>) -> (out: Table<ElementId, ()>)
    requires
        paths.wf(),
    ensures
        out.wf(),
        out@.dom() == unreadable(rule, paths@),
{
    let mut out: Table<ElementId, ()> = Table::new();
    let ghost e = paths.table.entries@;
    let ghost want = unreadable(rule, paths@);
    let mut i: usize = 0;
    while i < paths.table.entries.len()
        invariant
            paths.wf(),
            out.wf(),
            e == paths.table.entries@,
            want == unreadable(rule, paths@),
            i <= e.len(),
            forall|x: ElementId| #[trigger] out@.dom().contains(x) ==> want.contains(x),
            forall|j: int|
                0 <= j < i && want.contains((#[trigger] e[j]).0) ==> out@.dom().contains(e[j].0),
        decreases e.len() - i,
    {
        proof {
            paths.lemma_at(i as int);
        }
        let (id, p) = &paths.table.entries[i];
        if *id != root_id() && is_denied(rule, p) {
            out.insert(*id, ());
        }
        i += 1;
    }
    proof {
        assert forall|x: ElementId| want.contains(x) implies out@.dom().contains(x) by {
            let j = index_of::<ElementId, KeyPath>(e, x);
            assert(e[j].0@ == x);
        }
        assert(out@.dom() =~= want);
    }
    out
}

impl TreeV {
    /// The kind of a movable node.
    pub open spec fn node_kind(self, node: ElementId) -> Option<ElementKind> {
        if self.xml_elements.dom().contains(node) {
            Some(ElementKind::XmlElement)
        } else if self.texts.dom().contains(node) {
            Some(ElementKind::Text)
        } else {
            None
        }
    }

    /// Whether a node was born where the reader may read.
    pub open spec fn born_readable<R: ReadRule>(
        self,
        rule: &R,
        paths: Map<ElementId, Seq<Seq<u8>>>,
        node: ElementId,
    ) -> bool {
        self.node_kind(node) is Some && (birth_of(node, self.placements[node]) matches Some(p)
            && !list_denied(rule, paths, p.list))
    }

    /// A node born where the reader may read and moved where it may not stays, as an
    /// emptied shell at its origin.
    pub open spec fn spared<R: ReadRule>(
        self,
        rule: &R,
        paths: Map<ElementId, Seq<Seq<u8>>>,
        purge: Set<ElementId>,
        nodes: Seq<ElementId>,
    ) -> Set<ElementId>
        decreases nodes.len(),
    {
        if nodes.len() == 0 {
            purge
        } else {
            let p = self.spared(rule, paths, purge, nodes.drop_last());
            let node = nodes.last();
            if self.born_readable(rule, paths, node) && p.contains(node) {
                if self.node_kind(node) == Some(ElementKind::XmlElement) {
                    p.remove(node).remove(node_attrs_id(node)).remove(node_children_id(node))
                } else {
                    p.remove(node)
                }
            } else {
                p
            }
        }
    }
}

/// A replica's slots half cut: what is left, what is to be purged, and whether a leaf was
/// cut.
pub struct CutV {
    pub tree: TreeV,
    pub purge: Set<ElementId>,
    pub leaf: bool,
}

impl CutV {
    /// After one slot is decided: a slot that holds a purged container goes, and so does a
    /// leaf at a path that may not be read, a counter's tally with it.
    pub open spec fn cut_slot<R: ReadRule>(
        self,
        rule: &R,
        map: ElementId,
        base: Seq<Seq<u8>>,
        key: Seq<u8>,
    ) -> CutV {
        match live_value(self.tree.slot(map, key)) {
            Some(e) if e.is_container() => if self.purge.contains(e.opt_id()->Some_0) {
                CutV { tree: self.tree.without_slot(map, key), ..self }
            } else {
                self
            },
            v => if rule.reads_at(base.push(key)) {
                self
            } else {
                CutV {
                    tree: self.tree.without_slot(map, key),
                    purge: match v {
                        Some(ElementV::Counter(c)) => if c == root_element() {
                            self.purge
                        } else {
                            self.purge.insert(c)
                        },
                        _ => self.purge,
                    },
                    leaf: true,
                }
            },
        }
    }

    pub open spec fn cut_keys<R: ReadRule>(
        self,
        rule: &R,
        map: ElementId,
        base: Seq<Seq<u8>>,
        keys: Seq<Seq<u8>>,
    ) -> CutV
        decreases keys.len(),
    {
        if keys.len() == 0 {
            self
        } else {
            self.cut_keys(rule, map, base, keys.drop_last()).cut_slot(rule, map, base, keys.last())
        }
    }

    /// After a map's slots are decided, if the map stays and has a path.
    pub open spec fn cut_map<R: ReadRule>(
        self,
        rule: &R,
        paths: Map<ElementId, Seq<Seq<u8>>>,
        map: ElementId,
    ) -> CutV {
        if self.purge.contains(map) || !paths.dom().contains(map) {
            self
        } else {
            self.cut_keys(
                rule,
                map,
                paths[map],
                ordered::<Vec<u8>>(self.tree.maps[map].slots.dom()),
            )
        }
    }

    pub open spec fn cut_maps<R: ReadRule>(
        self,
        rule: &R,
        paths: Map<ElementId, Seq<Seq<u8>>>,
        maps: Seq<ElementId>,
    ) -> CutV
        decreases maps.len(),
    {
        if maps.len() == 0 {
            self
        } else {
            self.cut_maps(rule, paths, maps.drop_last()).cut_map(rule, paths, maps.last())
        }
    }
}

impl TreeV {
    /// The containers beneath the payloads of some annotations.
    pub open spec fn payloads_of(self, live: Set<ElementId>, ranged: Set<ElementId>) -> Set<
        ElementId,
    > {
        Set::new(
            |x: ElementId|
                exists|r: ElementId| #[trigger]
                    ranged.contains(r) && self.ranged.dom().contains(r) && (
                    self.ranged[r].payload matches PayloadV::Composite { kind } && self.subtree(
                        live,
                        spec_payload_id(r, kind),
                    ).contains(x)),
        )
    }

    /// The annotations a reader may not read whole: one endpoint is enough to withhold
    /// one.
    pub open spec fn hidden_ranged<R: ReadRule>(
        self,
        rule: &R,
        paths: Map<ElementId, Seq<Seq<u8>>>,
        purge: Set<ElementId>,
    ) -> Set<ElementId> {
        Set::new(
            |r: ElementId|
                self.ranged.dom().contains(r) && (purge.contains(r) || !anchor_reads(
                    rule,
                    paths,
                    self.ranged[r].start.seq,
                ) || !anchor_reads(rule, paths, self.ranged[r].end.seq)),
        )
    }

    /// The grants on a path the reader may not read.
    pub open spec fn hidden_acl<R: ReadRule>(self, rule: &R, purge: Set<ElementId>) -> Set<
        ElementId,
    > {
        Set::new(
            |a: ElementId|
                self.acl.dom().contains(a) && (purge.contains(a) || !(
                read_path(self.acl[a].path) matches Some(keys) && rule.reads_at(keys))),
        )
    }

    /// With the sequences at a path that may not be read emptied.
    pub open spec fn emptied<R: ReadRule>(
        self,
        rule: &R,
        paths: Map<ElementId, Seq<Seq<u8>>>,
    ) -> TreeV {
        TreeV {
            lists: Map::new(
                |id: ElementId| self.lists.dom().contains(id),
                |id: ElementId|
                    if paths.dom().contains(id) && denied(rule, paths[id]) {
                        ListV { places: Map::empty(), items: Map::empty(), ..self.lists[id] }
                    } else {
                        self.lists[id]
                    },
            ),
            ..self
        }
    }
}

/// Whether an anchor's sequence is one the reader may read, at every level.
pub open spec fn anchor_reads<R: ReadRule>(
    rule: &R,
    paths: Map<ElementId, Seq<Seq<u8>>>,
    seq: ElementId,
) -> bool {
    paths.dom().contains(seq) && rule.reads_at(paths[seq]) && !denied(rule, paths[seq])
}

/// The placements of a node in sequences that stay.
pub open spec fn kept_places(places: Seq<Placement>, gone: Set<ElementId>) -> Seq<Placement>
    decreases places.len(),
{
    if places.len() == 0 {
        Seq::empty()
    } else {
        let rest = kept_places(places.drop_last(), gone);
        if gone.contains(places.last().list) {
            rest
        } else {
            rest.push(places.last())
        }
    }
}

/// Which node owns each placement.
pub open spec fn index_of_places(
    placements: Map<ElementId, Seq<Placement>>,
    nodes: Seq<ElementId>,
) -> Map<Placement, ElementId>
    decreases nodes.len(),
{
    if nodes.len() == 0 {
        Map::empty()
    } else {
        index_places(
            index_of_places(placements, nodes.drop_last()),
            nodes.last(),
            placements[nodes.last()],
        )
    }
}

pub open spec fn index_places(
    index: Map<Placement, ElementId>,
    node: ElementId,
    places: Seq<Placement>,
) -> Map<Placement, ElementId>
    decreases places.len(),
{
    if places.len() == 0 {
        index
    } else {
        index_places(index, node, places.drop_last()).insert(places.last(), node)
    }
}

impl TreeV {
    /// Without the placements of purged nodes and those in sequences that are gone.
    #[verifier::opaque]
    pub open spec fn replaced(self, purge: Set<ElementId>, gone: Set<ElementId>) -> TreeV {
        let placements = Map::new(
            |n: ElementId|
                self.placements.dom().contains(n) && !purge.contains(n) && kept_places(
                    self.placements[n],
                    purge.union(gone),
                ).len() > 0,
            |n: ElementId| kept_places(self.placements[n], purge.union(gone)),
        );
        TreeV {
            placements,
            placement_index: index_of_places(
                placements,
                ordered::<ElementId>(placements.dom()),
            ),
            ..self
        }
    }

    /// Without the moves of purged nodes, and those into sequences that are gone.
    pub open spec fn unmoved(self, dead: Set<Stamp>) -> TreeV {
        TreeV { moves: MovesV { log: self.moves.log.remove_keys(dead), ..self.moves }, ..self }
    }

    /// The moves of purged nodes, into purged ones, or into sequences that are gone.
    pub open spec fn dead_moves(self, purge: Set<ElementId>, gone: Set<ElementId>) -> Set<Stamp> {
        Set::new(
            |s: Stamp|
                self.moves.log.dom().contains(s) && (purge.contains(self.moves.log[s].child)
                    || purge.contains(self.moves.log[s].parent) || gone.contains(
                    node_children_id(self.moves.log[s].parent),
                )),
        )
    }

    /// The moves in stamp order.
    pub open spec fn log_seq(self) -> Seq<(Stamp, MoveEdge)> {
        crate::order::in_order(self.moves.log.dom()).map_values(
            |s: Stamp| (s, self.moves.log[s]),
        )
    }

    /// With the moves replayed from scratch over the created-under relation, so that what
    /// is left renders where a reload of it would.
    #[verifier::opaque]
    pub open spec fn refolded(self) -> TreeV {
        if self.placements.dom().len() == 0 {
            self
        } else {
            (TreeV { moves: MovesV::empty(), ..self }).reseeded().with_log(self.log_seq()).refold()
        }
    }
}

/// What of the record of stamps a recipient may be told: its own entry.
pub open spec fn own_water(hw: Map<ClientId, u64>, recipient: Option<ClientId>) -> Map<
    ClientId,
    u64,
> {
    Map::new(|c: ClientId| hw.dom().contains(c) && Some(c) == recipient, |c: ClientId| hw[c])
}

impl DocV {
    /// The ids a recipient published that this replica holds.
    pub open spec fn published(self, recipient: Option<ClientId>) -> Set<OpId> {
        Set::new(
            |id: OpId| Some(id.client) == recipient && (self.seen.contains(id) || holds_op(
                self.buffer,
                id,
            )),
        )
    }

    /// With the record of stamps cut back to the recipient's own entry and raised again
    /// over what is left.
    #[verifier::opaque]
    pub open spec fn water_scrubbed(self, recipient: Option<ClientId>) -> DocV {
        let own = own_water(self.tree.high_water, recipient);
        if own.dom() == self.tree.high_water.dom() {
            self
        } else {
            let t = TreeV { high_water: own, ..self.tree };
            DocV { tree: t.with_floor(t.log_seq()).recorded(self.buffer), ..self }
        }
    }
}

// --- steps of a projection ---

impl Tree {
    pub(crate) fn node_kind(&self, node: ElementId) -> (r: Option<ElementKind>)
        requires
            self.wf(),
        ensures
            r == self@.node_kind(node),
    {
        if self.xml_elements.contains(node) {
            Some(ElementKind::XmlElement)
        } else if self.texts.contains(node) {
            Some(ElementKind::Text)
        } else {
            None
        }
    }

    fn is_born_readable<R: ReadRule>(
        &self,
        rule: &R,
        paths: &Registry<KeyPath>,
        node: ElementId,
        places: &Vec<Placement>,
    ) -> (b: bool)
        requires
            self.wf(),
            paths.wf(),
            self@.placements[node] == places@,
        ensures
            b == self@.born_readable(rule, paths@, node),
    {
        if self.node_kind(node).is_none() {
            return false;
        }
        match birth_placement(node, places) {
            Some(p) => !list_is_denied(rule, paths, p.list),
            None => false,
        }
    }

    /// Spare the nodes that stay as shells at a readable origin.
    pub(crate) fn spare<R: ReadRule>(
        &self,
        rule: &R,
        paths: &Registry<KeyPath>,
        purge: &mut Table<ElementId, ()>,
    )
        requires
            self.wf(),
            paths.wf(),
            old(purge).wf(),
        ensures
            final(purge).wf(),
            final(purge)@.dom() == self@.spared(
                rule,
                paths@,
                old(purge)@.dom(),
                ordered::<ElementId>(self@.placements.dom()),
            ),
            final(purge)@.dom().subset_of(old(purge)@.dom()),
    {
        let ghost e = self.placements.table.entries@;
        let ghost q = seq_keys(e);
        let ghost start = purge@.dom();
        let mut i: usize = 0;
        proof {
            self.placements.lemma_ids();
            assert(q.take(0) =~= Seq::empty());
        }
        while i < self.placements.table.entries.len()
            invariant
                self.wf(),
                paths.wf(),
                purge.wf(),
                e == self.placements.table.entries@,
                q == seq_keys(e),
                start == old(purge)@.dom(),
                i <= e.len(),
                purge@.dom() == self@.spared(rule, paths@, start, q.take(i as int)),
                purge@.dom().subset_of(start),
            decreases e.len() - i,
        {
            let node = self.placements.table.entries[i].0;
            proof {
                self.placements.lemma_at(i as int);
                assert(q.take(i + 1).drop_last() =~= q.take(i as int));
                assert(q.take(i + 1).last() == node);
            }
            let ghost p0 = purge@.dom();
            if self.is_born_readable(rule, paths, node, &self.placements.table.entries[i].1.at)
                && purge.contains_key(&node) {
                purge.remove(&node);
                proof {
                    assert(purge@.dom() =~= p0.remove(node));
                }
                if self.xml_elements.contains(node) {
                    purge.remove(&XmlElement::attrs_id(node));
                    purge.remove(&XmlElement::children_id(node));
                    proof {
                        assert(purge@.dom() =~= p0.remove(node).remove(node_attrs_id(node)).remove(
                            node_children_id(node),
                        ));
                    }
                }
            }
            i += 1;
        }
        proof {
            assert(q.take(i as int) =~= q);
        }
    }

    fn cut_slot<R: ReadRule>(
        &mut self,
        rule: &R,
        map: ElementId,
        base: &KeyPath,
        key: &[u8],
        purge: &mut Table<ElementId, ()>,
        leaf: &mut bool,
    )
        requires
            old(self).wf(),
            old(purge).wf(),
            old(self)@.maps.dom().contains(map),
            !old(purge)@.dom().contains(root_element()),
        ensures
            final(self).wf(),
            final(purge).wf(),
            !final(purge)@.dom().contains(root_element()),
            final(self)@.maps.dom() == old(self)@.maps.dom(),
            (CutV { tree: final(self)@, purge: final(purge)@.dom(), leaf: *final(leaf) }) == (CutV {
                tree: old(self)@,
                purge: old(purge)@.dom(),
                leaf: *old(leaf),
            }).cut_slot(rule, map, base@, key@),
    {
        let value = match self.maps.get(map) {
            Some(m) => m.get(key),
            None => None,
        };
        let cut = match &value {
            Some(e) => if e.is_container() {
                if !purge.contains_key(&e.id()) {
                    return;
                }
                true
            } else {
                false
            },
            None => false,
        };
        if !cut {
            if rule.reads(&base.child(key).keys) {
                return;
            }
            if let Some(Element::Counter(c)) = &value {
                if *c != root_id() {
                    let ghost p0 = purge@.dom();
                    purge.insert(*c, ());
                    proof {
                        assert(purge@.dom() =~= p0.insert(*c));
                    }
                }
            }
            *leaf = true;
        }
        match self.maps.get_mut(map) {
            Some(m) => {
                let _ = m.take_slot(key);
            },
            None => {},
        }
        proof {
            assert(self@ =~= old(self)@.without_slot(map, key@));
            assert(self@.maps.dom() =~= old(self)@.maps.dom());
        }
    }

    fn cut_map<R: ReadRule>(
        &mut self,
        rule: &R,
        paths: &Registry<KeyPath>,
        map: ElementId,
        purge: &mut Table<ElementId, ()>,
        leaf: &mut bool,
    )
        requires
            old(self).wf(),
            paths.wf(),
            old(purge).wf(),
            old(self)@.maps.dom().contains(map),
            !old(purge)@.dom().contains(root_element()),
        ensures
            final(self).wf(),
            final(purge).wf(),
            !final(purge)@.dom().contains(root_element()),
            final(self)@.maps.dom() == old(self)@.maps.dom(),
            (CutV { tree: final(self)@, purge: final(purge)@.dom(), leaf: *final(leaf) }) == (CutV {
                tree: old(self)@,
                purge: old(purge)@.dom(),
                leaf: *old(leaf),
            }).cut_map(rule, paths@, map),
    {
        if purge.contains_key(&map) {
            return;
        }
        let base = match paths.get(map) {
            Some(p) => p.copy(),
            None => {
                return;
            },
        };
        let keys: Vec<Vec<u8>> = match self.maps.get(map) {
            Some(m) => {
                proof {
                    m.lemma_live();
                }
                m.slot_keys()
            },
            None => Vec::new(),
        };
        let ghost ks = byte_strings(keys@);
        let ghost start = CutV { tree: self@, purge: purge@.dom(), leaf: *leaf };
        let mut i: usize = 0;
        proof {
            assert(ks.take(0) =~= Seq::empty());
        }
        while i < keys.len()
            invariant
                self.wf(),
                purge.wf(),
                !purge@.dom().contains(root_element()),
                ks == byte_strings(keys@),
                i <= keys@.len(),
                old(self)@.maps.dom().contains(map),
                self@.maps.dom() == old(self)@.maps.dom(),
                (CutV { tree: self@, purge: purge@.dom(), leaf: *leaf }) == start.cut_keys(
                    rule,
                    map,
                    base@,
                    ks.take(i as int),
                ),
            decreases keys@.len() - i,
        {
            proof {
                assert(ks.take(i + 1).drop_last() =~= ks.take(i as int));
                assert(ks.take(i + 1).last() == keys@[i as int]@);
            }
            self.cut_slot(rule, map, &base, keys[i].as_slice(), purge, leaf);
            i += 1;
        }
        proof {
            assert(ks.take(i as int) =~= ks);
        }
    }

    pub(crate) fn cut_maps<R: ReadRule>(
        &mut self,
        rule: &R,
        paths: &Registry<KeyPath>,
        purge: &mut Table<ElementId, ()>,
    ) -> (leaf: bool)
        requires
            old(self).wf(),
            paths.wf(),
            old(purge).wf(),
            !old(purge)@.dom().contains(root_element()),
        ensures
            final(self).wf(),
            final(purge).wf(),
            !final(purge)@.dom().contains(root_element()),
            (CutV { tree: final(self)@, purge: final(purge)@.dom(), leaf }) == (CutV {
                tree: old(self)@,
                purge: old(purge)@.dom(),
                leaf: false,
            }).cut_maps(rule, paths@, ordered::<ElementId>(old(self)@.maps.dom())),
    {
        let ids = ids_of(&self.maps.table);
        let ghost start = CutV { tree: self@, purge: purge@.dom(), leaf: false };
        let mut leaf = false;
        let mut i: usize = 0;
        proof {
            assert(self@.maps.dom() =~= self.maps.table@.dom());
            assert(ids@.take(0) =~= Seq::empty());
        }
        while i < ids.len()
            invariant
                self.wf(),
                paths.wf(),
                purge.wf(),
                !purge@.dom().contains(root_element()),
                i <= ids@.len(),
                ids@.to_set() == old(self)@.maps.dom(),
                self@.maps.dom() == old(self)@.maps.dom(),
                (CutV { tree: self@, purge: purge@.dom(), leaf }) == start.cut_maps(
                    rule,
                    paths@,
                    ids@.take(i as int),
                ),
            decreases ids@.len() - i,
        {
            proof {
                assert(ids@.take(i + 1).drop_last() =~= ids@.take(i as int));
                assert(ids@.to_set().contains(ids@[i as int]));
            }
            self.cut_map(rule, paths, ids[i], purge, &mut leaf);
            i += 1;
        }
        proof {
            assert(ids@.take(i as int) =~= ids@);
        }
        leaf
    }

    /// The containers beneath the payloads of some annotations.
    pub(crate) fn find_payloads(&self, live: &Registry<KeyPath>, ranged: &Table<ElementId, ()>) -> (out: Table<
        ElementId,
        (),
    >)
        requires
            self.wf(),
            live.wf(),
            ranged.wf(),
        ensures
            out.wf(),
            out@.dom() == self@.payloads_of(live@.dom(), ranged@.dom()),
    {
        let mut out: Table<ElementId, ()> = Table::new();
        let ghost e = ranged.entries@;
        let ghost want = self@.payloads_of(live@.dom(), ranged@.dom());
        let mut i: usize = 0;
        while i < ranged.entries.len()
            invariant
                self.wf(),
                live.wf(),
                ranged.wf(),
                out.wf(),
                e == ranged.entries@,
                want == self@.payloads_of(live@.dom(), ranged@.dom()),
                i <= e.len(),
                forall|x: ElementId| #[trigger] out@.dom().contains(x) ==> want.contains(x),
                forall|j: int, x: ElementId|
                    #![trigger e[j], out@.dom().contains(x)]
                    0 <= j < i && self@.ranged.dom().contains(e[j].0) && (
                    self@.ranged[e[j].0].payload matches PayloadV::Composite { kind }
                        && self@.subtree(live@.dom(), spec_payload_id(e[j].0, kind)).contains(x))
                        ==> out@.dom().contains(x),
            decreases e.len() - i,
        {
            let r = ranged.entries[i].0;
            proof {
                lemma_entry::<ElementId, ()>(e, i as int);
                assert(ranged@.dom().contains(r));
            }
            if let Some(entry) = self.ranged.get(r) {
                if let Payload::Composite { kind } = &entry.payload {
                    let sub = self.registered_subtree(live, payload_id(r, *kind));
                    extend(&mut out, &sub);
                }
            }
            i += 1;
        }
        proof {
            assert forall|x: ElementId| want.contains(x) implies out@.dom().contains(x) by {
                let r = choose|r: ElementId| #[trigger]
                    ranged@.dom().contains(r) && self@.ranged.dom().contains(r) && (
                    self@.ranged[r].payload matches PayloadV::Composite { kind } && self@.subtree(
                        live@.dom(),
                        spec_payload_id(r, kind),
                    ).contains(x));
                let j = index_of::<ElementId, ()>(e, r);
                assert(e[j].0@ == r);
            }
            assert(out@.dom() =~= want);
        }
        out
    }

    pub(crate) fn find_hidden_ranged<R: ReadRule>(
        &self,
        rule: &R,
        paths: &Registry<KeyPath>,
        purge: &Table<ElementId, ()>,
    ) -> (out: Table<ElementId, ()>)
        requires
            self.wf(),
            paths.wf(),
            purge.wf(),
        ensures
            out.wf(),
            out@.dom() == self@.hidden_ranged(rule, paths@, purge@.dom()),
    {
        let mut out: Table<ElementId, ()> = Table::new();
        let ghost e = self.ranged.table.entries@;
        let ghost want = self@.hidden_ranged(rule, paths@, purge@.dom());
        let mut i: usize = 0;
        while i < self.ranged.table.entries.len()
            invariant
                self.wf(),
                paths.wf(),
                purge.wf(),
                out.wf(),
                e == self.ranged.table.entries@,
                want == self@.hidden_ranged(rule, paths@, purge@.dom()),
                i <= e.len(),
                forall|x: ElementId| #[trigger] out@.dom().contains(x) ==> want.contains(x),
                forall|j: int|
                    0 <= j < i && want.contains((#[trigger] e[j]).0) ==> out@.dom().contains(
                        e[j].0,
                    ),
            decreases e.len() - i,
        {
            proof {
                self.ranged.lemma_at(i as int);
            }
            let (id, r) = &self.ranged.table.entries[i];
            if purge.contains_key(id) || !anchor_is_read(rule, paths, r.start.seq)
                || !anchor_is_read(rule, paths, r.end.seq) {
                out.insert(*id, ());
            }
            i += 1;
        }
        proof {
            assert forall|x: ElementId| want.contains(x) implies out@.dom().contains(x) by {
                let j = index_of::<ElementId, RangedEntry>(e, x);
                assert(e[j].0@ == x);
            }
            assert(out@.dom() =~= want);
        }
        out
    }

    pub(crate) fn find_hidden_acl<R: ReadRule>(&self, rule: &R, purge: &Table<ElementId, ()>) -> (out: Table<
        ElementId,
        (),
    >)
        requires
            self.wf(),
            purge.wf(),
        ensures
            out.wf(),
            out@.dom() == self@.hidden_acl(rule, purge@.dom()),
    {
        let mut out: Table<ElementId, ()> = Table::new();
        let ghost e = self.acl.table.entries@;
        let ghost want = self@.hidden_acl(rule, purge@.dom());
        let mut i: usize = 0;
        while i < self.acl.table.entries.len()
            invariant
                self.wf(),
                purge.wf(),
                out.wf(),
                e == self.acl.table.entries@,
                want == self@.hidden_acl(rule, purge@.dom()),
                i <= e.len(),
                forall|x: ElementId| #[trigger] out@.dom().contains(x) ==> want.contains(x),
                forall|j: int|
                    0 <= j < i && want.contains((#[trigger] e[j]).0) ==> out@.dom().contains(
                        e[j].0,
                    ),
            decreases e.len() - i,
        {
            proof {
                self.acl.lemma_at(i as int);
            }
            let (id, a) = &self.acl.table.entries[i];
            let readable = match parse_path(a.path.as_slice()) {
                Some(keys) => rule.reads(&keys),
                None => false,
            };
            if purge.contains_key(id) || !readable {
                out.insert(*id, ());
            }
            i += 1;
        }
        proof {
            assert forall|x: ElementId| want.contains(x) implies out@.dom().contains(x) by {
                let j = index_of::<ElementId, AclEntry>(e, x);
                assert(e[j].0@ == x);
            }
            assert(out@.dom() =~= want);
        }
        out
    }

    /// Empty the sequences at a path that may not be read.
    pub(crate) fn empty_lists<R: ReadRule>(&mut self, rule: &R, paths: &Registry<KeyPath>)
        requires
            old(self).wf(),
            paths.wf(),
        ensures
            final(self).wf(),
            final(self)@ == old(self)@.emptied(rule, paths@),
    {
        let ids = ids_of(&self.lists.table);
        let ghost m = self@.lists;
        let ghost want = self@.emptied(rule, paths@).lists;
        let mut i: usize = 0;
        proof {
            assert(m.dom() =~= self.lists.table@.dom());
        }
        while i < ids.len()
            invariant
                self.wf(),
                paths.wf(),
                m == old(self)@.lists,
                want == old(self)@.emptied(rule, paths@).lists,
                ids@.no_duplicates(),
                ids@.to_set() == m.dom(),
                i <= ids@.len(),
                self@ == (TreeV { lists: self@.lists, ..old(self)@ }),
                self@.lists.dom() == m.dom(),
                forall|k: int|
                    #![trigger ids@[k]]
                    0 <= k < ids@.len() ==> self@.lists[ids@[k]] == if k < i {
                        want[ids@[k]]
                    } else {
                        m[ids@[k]]
                    },
            decreases ids@.len() - i,
        {
            let id = ids[i];
            proof {
                assert(ids@.to_set().contains(ids@[i as int]));
            }
            let hidden = match paths.get(id) {
                Some(p) => is_denied(rule, p),
                None => false,
            };
            if hidden {
                if let Some(l) = self.lists.get_mut(id) {
                    l.clear();
                }
                proof {
                    assert(self@.lists.dom() =~= m.dom());
                    assert(self@ =~= (TreeV { lists: self@.lists, ..old(self)@ }));
                }
            }
            i += 1;
        }
        proof {
            assert forall|id: ElementId| m.dom().contains(id) implies #[trigger] self@.lists[id]
                == want[id] by {
                assert(ids@.to_set().contains(id));
                let k = ids@.index_of(id);
                assert(ids@[k] == id);
            }
            assert(self@.lists =~= want);
            assert(self@ =~= old(self)@.emptied(rule, paths@));
        }
    }
}

fn anchor_is_read<R: ReadRule>(rule: &R, paths: &Registry<KeyPath>, seq: ElementId) -> (b: bool)
    requires
        paths.wf(),
    ensures
        b == anchor_reads(rule, paths@, seq),
{
    match paths.get(seq) {
        Some(p) => rule.reads(&p.keys) && !is_denied(rule, p),
        None => false,
    }
}

// --- placements and moves ---

/// The sequences a reader may not read, or that have no path.
pub open spec fn denied_lists<R: ReadRule>(rule: &R, paths: Map<ElementId, Seq<Seq<u8>>>) -> Set<
    ElementId,
> {
    Set::new(|l: ElementId| list_denied(rule, paths, l))
}

/// Whether two sets agree on every sequence a placement or a move names.
pub open spec fn agree_on_named(t: TreeV, a: Set<ElementId>, b: Set<ElementId>) -> bool {
    &&& forall|n: ElementId, i: int|
        t.placements.dom().contains(n) && 0 <= i < t.placements[n].len() ==> a.contains(
            (#[trigger] t.placements[n][i]).list,
        ) == b.contains(t.placements[n][i].list)
    &&& forall|s: Stamp| #[trigger]
        t.moves.log.dom().contains(s) ==> a.contains(node_children_id(t.moves.log[s].parent))
            == b.contains(node_children_id(t.moves.log[s].parent))
}

impl Tree {
    /// Every sequence a placement or a move names.
    fn named_lists(&self) -> (out: Table<ElementId, ()>)
        requires
            self.wf(),
        ensures
            out.wf(),
            forall|n: ElementId, i: int|
                self@.placements.dom().contains(n) && 0 <= i < self@.placements[n].len()
                    ==> out@.dom().contains((#[trigger] self@.placements[n][i]).list),
            forall|s: Stamp| #[trigger]
                self@.moves.log.dom().contains(s) ==> out@.dom().contains(
                    node_children_id(self@.moves.log[s].parent),
                ),
    {
        let mut out: Table<ElementId, ()> = Table::new();
        let ghost e = self.placements.table.entries@;
        let mut i: usize = 0;
        while i < self.placements.table.entries.len()
            invariant
                self.wf(),
                out.wf(),
                e == self.placements.table.entries@,
                i <= e.len(),
                forall|j: int, k: int|
                    0 <= j < i && 0 <= k < e[j].1@.len() ==> out@.dom().contains(
                        (#[trigger] e[j].1@[k]).list,
                    ),
            decreases e.len() - i,
        {
            let places = &self.placements.table.entries[i].1;
            let ghost outer = out@.dom();
            let mut k: usize = 0;
            while k < places.at.len()
                invariant
                    out.wf(),
                    k <= places@.len(),
                    outer.subset_of(out@.dom()),
                    forall|q: int| 0 <= q < k ==> out@.dom().contains((#[trigger] places@[q]).list),
                decreases places@.len() - k,
            {
                out.insert(places.at[k].list, ());
                k += 1;
            }
            i += 1;
        }
        let ghost mid = out@.dom();
        let ghost le = self.moves.log.entries@;
        let mut j: usize = 0;
        while j < self.moves.log.entries.len()
            invariant
                self.wf(),
                out.wf(),
                le == self.moves.log.entries@,
                j <= le.len(),
                mid.subset_of(out@.dom()),
                forall|k: int|
                    0 <= k < j ==> out@.dom().contains(
                        node_children_id((#[trigger] le[k]).1.parent),
                    ),
            decreases le.len() - j,
        {
            out.insert(XmlElement::children_id(self.moves.log.entries[j].1.parent), ());
            j += 1;
        }
        proof {
            assert forall|n: ElementId, i: int|
                self@.placements.dom().contains(n) && 0 <= i
                    < self@.placements[n].len() implies out@.dom().contains(
                (#[trigger] self@.placements[n][i]).list,
            ) by {
                let k = index_of::<ElementId, Places>(e, n);
                assert(e[k].0@ == n);
                self.placements.lemma_at(k);
                assert(mid.contains(e[k].1@[i].list));
            }
            assert forall|s: Stamp| #[trigger] self@.moves.log.dom().contains(s)
                implies out@.dom().contains(
                node_children_id(self@.moves.log[s].parent),
            ) by {
                let k = index_of::<Stamp, MoveEdge>(le, s);
                assert(le[k].0@ == s);
                lemma_entry::<Stamp, MoveEdge>(le, k);
            }
        }
        out
    }

    /// Of the sequences a placement or a move names, those a reader may not read.
    pub(crate) fn find_denied_lists<R: ReadRule>(&self, rule: &R, paths: &Registry<KeyPath>) -> (out: Table<
        ElementId,
        (),
    >)
        requires
            self.wf(),
            paths.wf(),
        ensures
            out.wf(),
            agree_on_named(self@, out@.dom(), denied_lists(rule, paths@)),
    {
        let named = self.named_lists();
        let mut out: Table<ElementId, ()> = Table::new();
        let ghost e = named.entries@;
        let mut i: usize = 0;
        while i < named.entries.len()
            invariant
                paths.wf(),
                named.wf(),
                out.wf(),
                e == named.entries@,
                i <= e.len(),
                forall|x: ElementId| #[trigger]
                    out@.dom().contains(x) ==> list_denied(rule, paths@, x),
                forall|j: int|
                    0 <= j < i && list_denied(rule, paths@, (#[trigger] e[j]).0)
                        ==> out@.dom().contains(e[j].0),
            decreases e.len() - i,
        {
            let id = named.entries[i].0;
            if list_is_denied(rule, paths, id) {
                out.insert(id, ());
            }
            i += 1;
        }
        proof {
            assert forall|x: ElementId|
                named@.dom().contains(x) && list_denied(
                    rule,
                    paths@,
                    x,
                ) implies #[trigger] out@.dom().contains(x) by {
                let j = index_of::<ElementId, ()>(e, x);
                assert(e[j].0@ == x);
            }
        }
        out
    }

    /// Drop the placements of purged nodes and those in sequences that are gone.
    pub(crate) fn retain_places(
        &mut self,
        purge: &Table<ElementId, ()>,
        gone: &Table<ElementId, ()>,
        Ghost(all): Ghost<Set<ElementId>>,
    )
        requires
            old(self).wf(),
            purge.wf(),
            gone.wf(),
            agree_on_named(old(self)@, gone@.dom(), all),
        ensures
            final(self).wf(),
            final(self)@ == old(self)@.replaced(purge@.dom(), all),
    {
        reveal(TreeV::replaced);
        let ghost e = self.placements.table.entries@;
        let ghost t = self@;
        let ghost set = purge@.dom().union(all);
        let ghost want = t.replaced(purge@.dom(), all).placements;
        let mut next: Registry<Places> = Registry::new();
        let mut i: usize = 0;
        while i < self.placements.table.entries.len()
            invariant
                self.wf(),
                purge.wf(),
                gone.wf(),
                next.wf(),
                t == self@,
                e == self.placements.table.entries@,
                set == purge@.dom().union(all),
                want == t.replaced(purge@.dom(), all).placements,
                agree_on_named(t, gone@.dom(), all),
                i <= e.len(),
                forall|n: ElementId| #[trigger]
                    next@.dom().contains(n) ==> want.dom().contains(n) && next@[n] == want[n],
                forall|j: int|
                    0 <= j < i && want.dom().contains((#[trigger] e[j]).0)
                        ==> next@.dom().contains(e[j].0),
            decreases e.len() - i,
        {
            reveal(TreeV::replaced);
            let node = self.placements.table.entries[i].0;
            proof {
                self.placements.lemma_at(i as int);
            }
            if !purge.contains_key(&node) {
                let at = keep_places(
                    &self.placements.table.entries[i].1.at,
                    purge,
                    gone,
                    Ghost(all),
                );
                proof {
                    let places = self.placements.table.entries@[i as int].1@;
                    assert forall|k: int| 0 <= k < places.len() implies gone@.dom().contains(
                        (#[trigger] places[k]).list,
                    ) == all.contains(places[k].list) by {
                        assert(t.placements[node][k] == places[k]);
                    }
                }
                if at.len() > 0 {
                    next.insert(node, Places { at });
                }
            }
            i += 1;
        }
        proof {
            assert forall|n: ElementId| want.dom().contains(n) implies next@.dom().contains(n) by {
                let j = index_of::<ElementId, Places>(e, n);
                assert(e[j].0@ == n);
            }
            assert(next@ =~= want);
        }
        self.placements = next;
        let index = self.index_placements();
        self.placement_index = index;
        proof {
            assert(self@ =~= t.replaced(purge@.dom(), all));
        }
    }

    /// Which node owns each placement.
    fn index_placements(&self) -> (out: Table<Placement, ElementId>)
        requires
            self.placements.wf(),
        ensures
            out.wf(),
            out@ == index_of_places(
                self.placements@,
                ordered::<ElementId>(self.placements@.dom()),
            ),
    {
        let mut out: Table<Placement, ElementId> = Table::new();
        let ghost e = self.placements.table.entries@;
        let ghost q = seq_keys(e);
        let mut i: usize = 0;
        proof {
            self.placements.lemma_ids();
            assert(q.take(0) =~= Seq::empty());
        }
        while i < self.placements.table.entries.len()
            invariant
                self.placements.wf(),
                out.wf(),
                e == self.placements.table.entries@,
                q == seq_keys(e),
                i <= e.len(),
                out@ == index_of_places(self.placements@, q.take(i as int)),
            decreases e.len() - i,
        {
            let node = self.placements.table.entries[i].0;
            let places = &self.placements.table.entries[i].1;
            proof {
                self.placements.lemma_at(i as int);
                assert(q.take(i + 1).drop_last() =~= q.take(i as int));
                assert(q.take(i + 1).last() == node);
            }
            let ghost start = out@;
            let mut k: usize = 0;
            proof {
                assert(places@.take(0) =~= Seq::empty());
            }
            while k < places.at.len()
                invariant
                    out.wf(),
                    k <= places@.len(),
                    out@ == index_places(start, node, places@.take(k as int)),
                decreases places@.len() - k,
            {
                proof {
                    assert(places@.take(k + 1).drop_last() =~= places@.take(k as int));
                }
                out.insert(places.at[k], node);
                k += 1;
            }
            proof {
                assert(places@.take(k as int) =~= places@);
            }
            i += 1;
        }
        proof {
            assert(q.take(i as int) =~= q);
        }
        out
    }

    /// Drop the moves of purged nodes, into purged ones, or into sequences that are gone.
    pub(crate) fn retain_moves(
        &mut self,
        purge: &Table<ElementId, ()>,
        gone: &Table<ElementId, ()>,
        Ghost(all): Ghost<Set<ElementId>>,
    )
        requires
            old(self).wf(),
            purge.wf(),
            gone.wf(),
            forall|s: Stamp| #[trigger]
                old(self)@.moves.log.dom().contains(s) ==> gone@.dom().contains(
                    node_children_id(old(self)@.moves.log[s].parent),
                ) == all.contains(node_children_id(old(self)@.moves.log[s].parent)),
        ensures
            final(self).wf(),
            final(self)@ == old(self)@.unmoved(old(self)@.dead_moves(purge@.dom(), all)),
    {
        let mut dead: Table<Stamp, ()> = Table::new();
        let ghost e = self.moves.log.entries@;
        let ghost want = self@.dead_moves(purge@.dom(), all);
        let mut i: usize = 0;
        while i < self.moves.log.entries.len()
            invariant
                self.wf(),
                purge.wf(),
                gone.wf(),
                dead.wf(),
                e == self.moves.log.entries@,
                want == self@.dead_moves(purge@.dom(), all),
                forall|s: Stamp| #[trigger]
                    self@.moves.log.dom().contains(s) ==> gone@.dom().contains(
                        node_children_id(self@.moves.log[s].parent),
                    ) == all.contains(node_children_id(self@.moves.log[s].parent)),
                i <= e.len(),
                forall|s: Stamp| #[trigger] dead@.dom().contains(s) ==> want.contains(s),
                forall|j: int|
                    0 <= j < i && want.contains((#[trigger] e[j]).0) ==> dead@.dom().contains(
                        e[j].0,
                    ),
            decreases e.len() - i,
        {
            proof {
                lemma_entry::<Stamp, MoveEdge>(e, i as int);
                assert(self@.moves.log.dom().contains(e[i as int].0));
            }
            let (stamp, m) = self.moves.log.entries[i];
            if purge.contains_key(&m.child) || purge.contains_key(&m.parent) || gone.contains_key(
                &XmlElement::children_id(m.parent),
            ) {
                dead.insert(stamp, ());
            }
            i += 1;
        }
        proof {
            assert forall|s: Stamp| want.contains(s) implies dead@.dom().contains(s) by {
                let j = index_of::<Stamp, MoveEdge>(e, s);
                assert(e[j].0@ == s);
            }
            assert(dead@.dom() =~= want);
        }
        self.moves.log.drop_all(&dead);
        proof {
            assert(self@ =~= old(self)@.unmoved(want));
        }
    }

    /// The moves in stamp order.
    fn log_entries(&self) -> (out: Vec<(Stamp, MoveEdge)>)
        requires
            self.wf(),
        ensures
            out@ == self@.log_seq(),
    {
        let ghost e = self.moves.log.entries@;
        let mut out: Vec<(Stamp, MoveEdge)> = Vec::new();
        let mut i: usize = 0;
        while i < self.moves.log.entries.len()
            invariant
                e == self.moves.log.entries@,
                i <= e.len(),
                out@ =~= e.take(i as int),
            decreases e.len() - i,
        {
            out.push(self.moves.log.entries[i]);
            i += 1;
        }
        proof {
            self.moves.lemma_log_order();
            assert(out@ =~= e);
            assert(out@ =~= self@.log_seq()) by {
                assert forall|k: int| 0 <= k < e.len() implies e[k] == self@.log_seq()[k] by {
                    lemma_entry::<Stamp, MoveEdge>(e, k);
                    assert(seq_keys(e)[k] == e[k].0);
                }
            }
        }
        out
    }

    /// Replay the moves from scratch over the created-under relation.
    pub(crate) fn refold_projected_moves(&mut self)
        requires
            old(self).wf(),
        ensures
            final(self).wf(),
            final(self)@ == old(self)@.refolded(),
    {
        reveal(TreeV::refolded);
        if self.placements.len() == 0 {
            return;
        }
        let log = self.log_entries();
        self.moves = crate::treemove::TreeMoves::new();
        proof {
            assert(self@ =~= (TreeV { moves: MovesV::empty(), ..old(self)@ }));
        }
        self.reseed_bases();
        self.replay_log(&log);
        self.refold_moves();
    }
}

/// The placements of a node in sequences that stay.
fn keep_places(
    places: &Vec<Placement>,
    purge: &Table<ElementId, ()>,
    gone: &Table<ElementId, ()>,
    Ghost(all): Ghost<Set<ElementId>>,
) -> (out: Vec<Placement>)
    requires
        purge.wf(),
        gone.wf(),
    ensures
        (forall|k: int|
            0 <= k < places@.len() ==> gone@.dom().contains((#[trigger] places@[k]).list)
                == all.contains(places@[k].list)) ==> out@ == kept_places(
            places@,
            purge@.dom().union(all),
        ),
{
    let ghost set = purge@.dom().union(all);
    let ghost good = forall|k: int|
        0 <= k < places@.len() ==> gone@.dom().contains((#[trigger] places@[k]).list)
            == all.contains(places@[k].list);
    let mut out: Vec<Placement> = Vec::new();
    let mut i: usize = 0;
    proof {
        assert(places@.take(0) =~= Seq::empty());
    }
    while i < places.len()
        invariant
            purge.wf(),
            gone.wf(),
            set == purge@.dom().union(all),
            good == forall|k: int|
                0 <= k < places@.len() ==> gone@.dom().contains((#[trigger] places@[k]).list)
                    == all.contains(places@[k].list),
            i <= places@.len(),
            good ==> out@ == kept_places(places@.take(i as int), set),
        decreases places@.len() - i,
    {
        let p = places[i];
        proof {
            assert(places@.take(i + 1).drop_last() =~= places@.take(i as int));
            assert(places@[i as int].list == p.list);
        }
        if !purge.contains_key(&p.list) && !gone.contains_key(&p.list) {
            out.push(p);
        }
        i += 1;
    }
    proof {
        assert(places@.take(i as int) =~= places@);
    }
    out
}

// --- the frontier ---

impl Document {
    /// The ids a recipient published that this replica holds.
    pub(crate) fn published_by(&self, recipient: Option<ClientId>) -> (out: Table<OpId, ()>)
        requires
            self.wf(),
        ensures
            out.wf(),
            out@.dom() == self@.published(recipient),
    {
        let mut out: Table<OpId, ()> = Table::new();
        let ghost want = self@.published(recipient);
        let client = match recipient {
            Some(c) => c,
            None => {
                proof {
                    assert(out@.dom() =~= want);
                }
                return out;
            },
        };
        let ghost e = self.seen.entries@;
        let mut i: usize = 0;
        while i < self.seen.entries.len()
            invariant
                self.wf(),
                out.wf(),
                e == self.seen.entries@,
                recipient == Some(client),
                want == self@.published(recipient),
                i <= e.len(),
                forall|id: OpId| #[trigger] out@.dom().contains(id) ==> want.contains(id),
                forall|j: int|
                    0 <= j < i && (#[trigger] e[j]).0.client == client ==> out@.dom().contains(
                        e[j].0,
                    ),
            decreases e.len() - i,
        {
            proof {
                lemma_entry::<OpId, ()>(e, i as int);
            }
            let id = self.seen.entries[i].0;
            if id.client == client {
                out.insert(id, ());
            }
            i += 1;
        }
        let ghost mid = out@.dom();
        let mut k: usize = 0;
        while k < self.buffer.len()
            invariant
                self.wf(),
                out.wf(),
                recipient == Some(client),
                want == self@.published(recipient),
                k <= self.buffer@.len(),
                mid.subset_of(out@.dom()),
                forall|id: OpId| #[trigger] out@.dom().contains(id) ==> want.contains(id),
                forall|j: int|
                    0 <= j < k && (#[trigger] self@.buffer[j]).id.client == client
                        ==> out@.dom().contains(self@.buffer[j].id),
            decreases self.buffer@.len() - k,
        {
            let id = self.buffer[k].id;
            proof {
                assert(self@.buffer[k as int] == self.buffer@[k as int]@);
                assert(holds_op(self@.buffer, id));
            }
            if id.client == client {
                out.insert(id, ());
            }
            k += 1;
        }
        proof {
            assert forall|id: OpId| want.contains(id) implies out@.dom().contains(id) by {
                if self@.seen.contains(id) {
                    let j = index_of::<OpId, ()>(e, id);
                    assert(e[j].0@ == id);
                    assert(mid.contains(id));
                } else {
                    let j = choose|j: int|
                        0 <= j < self@.buffer.len() && (#[trigger] self@.buffer[j]).id == id;
                    assert(out@.dom().contains(self@.buffer[j].id));
                }
            }
            assert(out@.dom() =~= want);
        }
        out
    }

    /// Cut the record of stamps back to the recipient's own entry, and raise it again over
    /// what is left.
    pub(crate) fn scrub_high_water_to(&mut self, recipient: Option<ClientId>)
        requires
            old(self).wf(),
        ensures
            final(self).wf(),
            final(self)@ == old(self)@.water_scrubbed(recipient),
    {
        reveal(DocV::water_scrubbed);
        let ghost hw = self.tree.high_water@;
        let ghost own = own_water(hw, recipient);
        let mut next: Table<ClientId, u64> = Table::new();
        if let Some(c) = recipient {
            if let Some(n) = self.tree.high_water.get(&c) {
                next.insert(c, *n);
            }
        }
        proof {
            assert(next@ =~= own);
        }
        if next.len() == self.tree.high_water.len() {
            proof {
                vstd::set_lib::lemma_subset_equality(own.dom(), hw.dom());
            }
            return;
        }
        let ghost t0 = self@.tree;
        self.tree.high_water = next;
        let ghost t = TreeV { high_water: own, ..t0 };
        proof {
            assert(self.tree@ =~= t);
        }
        let log = self.tree.log_entries();
        self.tree.raise_floor(&log);
        self.tree.record_all(&self.buffer);
        proof {
            assert(self@ =~= old(self)@.water_scrubbed(recipient));
        }
    }
}

} // verus!
