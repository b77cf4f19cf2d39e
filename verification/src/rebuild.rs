//! Rebuilding the tree-move state of a snapshot: where the nodes that never moved stand,
//! what was created under what, and the moves replayed over that.

use crate::annot::{Placement, Places};
use crate::element::Element;
use crate::elementid::{ElementId, ElementKind};
use crate::format::DecodeError;
use crate::identity::{born_at, root_element, root_id, spec_born_at};
use crate::list::{List, Node, SeqKey};
use crate::stamp::Stamp;
use crate::table::{lemma_entry, lemma_ordered, ordered, seq_keys, Key, Table};
use crate::text::Text;
use crate::tree::{Tree, TreeV};
use crate::treemove::{link_of, MoveEdge};
use crate::xml::{node_children_id, XmlElement};
use vstd::prelude::*;

verus! {

/// The placement a node was born at: the one that derives its id.
pub open spec fn birth_of(node: ElementId, places: Seq<Placement>) -> Option<Placement>
    decreases places.len(),
{
    if places.len() == 0 {
        None
    } else if spec_born_at(places[0].list, places[0].stamp, node) {
        Some(places[0])
    } else {
        birth_of(node, places.skip(1))
    }
}

/// The placement a node was born at.
pub(crate) fn birth_placement(node: ElementId, places: &Vec<Placement>) -> (r: Option<Placement>)
    ensures
        r == birth_of(node, places@),
{
    let mut i: usize = 0;
    proof {
        assert(places@.skip(0) =~= places@);
    }
    while i < places.len()
        invariant
            i <= places@.len(),
            birth_of(node, places@) == birth_of(node, places@.skip(i as int)),
        decreases places@.len() - i,
    {
        proof {
            assert(places@.skip(i as int)[0] == places@[i as int]);
            assert(places@.skip(i as int).skip(1) =~= places@.skip(i + 1));
        }
        if born_at(places[i].list, places[i].stamp, node) {
            return Some(places[i]);
        }
        i += 1;
    }
    None
}

/// Whether following links from `id` ends, at the root or where there is no link, within
/// `fuel` steps.
pub open spec fn ends_within(links: Map<ElementId, ElementId>, id: ElementId, fuel: nat) -> bool
    decreases fuel,
{
    if fuel == 0 {
        false
    } else if id == root_element() || !links.dom().contains(id) {
        true
    } else {
        ends_within(links, links[id], (fuel - 1) as nat)
    }
}

/// Whether following links from anywhere ends.
pub open spec fn links_end(links: Map<ElementId, ElementId>) -> bool {
    forall|id: ElementId| #[trigger]
        links.dom().contains(id) ==> ends_within(links, id, links.dom().len() + 1)
}

impl TreeV {
    /// With a node placed where its sequence holds it, unless it has a placement or
    /// another node has that one.
    pub open spec fn with_birth(self, list: ElementId, id: Stamp) -> TreeV {
        let e = self.lists[list].items[id].value;
        let p = Placement { list, stamp: id };
        if (e.kind() == ElementKind::XmlElement || e.kind() == ElementKind::Text) {
            let node = e.opt_id()->Some_0;
            if !self.placements.dom().contains(node) && !self.placement_index.dom().contains(p) {
                let t = self.with_placement(node, p);
                TreeV { placement_index: t.placement_index.insert(p, node), ..t }
            } else {
                self
            }
        } else {
            self
        }
    }

    pub open spec fn births_in(self, list: ElementId, ids: Seq<Stamp>) -> TreeV
        decreases ids.len(),
    {
        if ids.len() == 0 {
            self
        } else {
            self.births_in(list, ids.drop_last()).with_birth(list, ids.last())
        }
    }

    /// With the nodes in some owners' children placed.
    pub open spec fn births_over(self, owners: Seq<ElementId>) -> TreeV
        decreases owners.len(),
    {
        if owners.len() == 0 {
            self
        } else {
            let t = self.births_over(owners.drop_last());
            let list = node_children_id(owners.last());
            if t.lists.dom().contains(list) {
                t.births_in(list, ordered::<SeqKey>(t.lists[list].items.dom()))
            } else {
                t
            }
        }
    }

    /// With every node that never moved placed where it was born.
    #[verifier::opaque]
    pub open spec fn with_births(self) -> TreeV {
        self.births_over(ordered::<ElementId>(self.xml_elements.dom())).births_over(
            ordered::<ElementId>(self.xml_fragments.dom()),
        )
    }

    /// With the created-under parents that birth placements tell.
    pub open spec fn based_born(self, nodes: Seq<ElementId>) -> TreeV
        decreases nodes.len(),
    {
        if nodes.len() == 0 {
            self
        } else {
            let t = self.based_born(nodes.drop_last());
            let node = nodes.last();
            match birth_of(node, t.placements[node]) {
                Some(p) => match link_of(t.parents, p.list) {
                    Some(o) => TreeV { moves: t.moves.set_base(node, o), ..t },
                    None => t,
                },
                None => t,
            }
        }
    }

    /// The created-under parent of a node that has no placement: what owns the sequence
    /// its link still names.
    pub open spec fn unplaced_owner(self, node: ElementId) -> Option<ElementId> {
        if self.awaits(node) {
            link_of(self.parents, self.parents[node])
        } else {
            None
        }
    }

    /// Whether a movable node has no placement and hangs off a sequence.
    pub open spec fn awaits(self, node: ElementId) -> bool {
        !self.placements.dom().contains(node) && self.parents.dom().contains(node)
            && self.lists.dom().contains(self.parents[node])
    }

    pub open spec fn based_unplaced(self, nodes: Seq<ElementId>) -> TreeV
        decreases nodes.len(),
    {
        if nodes.len() == 0 {
            self
        } else {
            let t = self.based_unplaced(nodes.drop_last());
            match t.unplaced_owner(nodes.last()) {
                Some(o) => TreeV { moves: t.moves.set_base(nodes.last(), o), ..t },
                None => t,
            }
        }
    }

    /// With the created-under parents of containers that do not hang off a sequence.
    pub open spec fn based_nested(self, children: Seq<ElementId>) -> TreeV
        decreases children.len(),
    {
        if children.len() == 0 {
            self
        } else {
            let t = self.based_nested(children.drop_last());
            let c = children.last();
            if t.lists.dom().contains(t.parents[c]) {
                t
            } else {
                TreeV { moves: t.moves.set_base(c, t.parents[c]), ..t }
            }
        }
    }

    /// With the created-under relation rebuilt.
    #[verifier::opaque]
    pub open spec fn reseeded(self) -> TreeV {
        self.based_born(ordered::<ElementId>(self.placements.dom())).based_unplaced(
            ordered::<ElementId>(self.xml_elements.dom()),
        ).based_unplaced(ordered::<ElementId>(self.texts.dom())).based_nested(
            ordered::<ElementId>(self.parents.dom()),
        )
    }

    /// With every movable node that has no placement awaiting its first.
    #[verifier::opaque]
    pub open spec fn with_unplaced(self) -> TreeV {
        TreeV {
            revealed: self.revealed.union(
                Set::new(
                    |n: ElementId|
                        (self.xml_elements.dom().contains(n) || self.texts.dom().contains(n))
                            && self.awaits(n),
                ),
            ),
            ..self
        }
    }

    /// With moves recorded in turn.
    pub open spec fn with_log(self, log: Seq<(Stamp, MoveEdge)>) -> TreeV
        decreases log.len(),
    {
        if log.len() == 0 {
            self
        } else {
            let t = self.with_log(log.drop_last());
            let (stamp, e) = log.last();
            TreeV { moves: t.moves.apply(stamp, e.child, e.parent), ..t }
        }
    }

    /// With the tree-move state rebuilt and every movable node settled.
    pub open spec fn restored(self, log: Seq<(Stamp, MoveEdge)>) -> TreeV {
        self.with_births().reseeded().with_unplaced().with_log(log).refold()
    }
}

/// Whether following links from anywhere ends.
pub(crate) fn parents_end(links: &Table<ElementId, ElementId>) -> (b: bool)
    requires
        links.wf(),
    ensures
        b == links_end(links@),
{
    let n: usize = links.len();
    let ghost e = links.entries@;
    let mut i: usize = 0;
    while i < links.entries.len()
        invariant
            links.wf(),
            e == links.entries@,
            n == links@.dom().len(),
            i <= e.len(),
            forall|j: int| 0 <= j < i ==> ends_within(links@, (#[trigger] e[j]).0, (n + 1) as nat),
        decreases e.len() - i,
    {
        proof {
            lemma_entry::<ElementId, ElementId>(e, i as int);
        }
        if !chain_ends(links, links.entries[i].0, n) {
            proof {
                assert(links@.dom().contains(e[i as int].0));
            }
            return false;
        }
        i += 1;
    }
    proof {
        assert forall|id: ElementId| #[trigger] links@.dom().contains(id) implies ends_within(
            links@,
            id,
            links@.dom().len() + 1,
        ) by {
            let j = crate::table::index_of::<ElementId, ElementId>(e, id);
            assert(e[j].0@ == id);
        }
    }
    true
}

fn chain_ends(links: &Table<ElementId, ElementId>, id: ElementId, n: usize) -> (b: bool)
    requires
        links.wf(),
    ensures
        b == ends_within(links@, id, (n + 1) as nat),
{
    let mut cur = id;
    let mut i: usize = 0;
    loop
        invariant
            links.wf(),
            i <= n,
            ends_within(links@, id, (n + 1) as nat) == ends_within(
                links@,
                cur,
                (n + 1 - i) as nat,
            ),
        decreases n - i,
    {
        if cur == root_id() {
            return true;
        }
        match links.get(&cur) {
            Some(p) => {
                cur = *p;
            },
            None => {
                return true;
            },
        }
        if i == n {
            proof {
                assert(!ends_within(links@, cur, 0));
            }
            return false;
        }
        i += 1;
    }
}

impl Tree {
    fn birth(&mut self, list: ElementId, id: Stamp, e: Element)
        requires
            old(self).wf(),
            old(self)@.lists.dom().contains(list),
            old(self)@.lists[list].items.dom().contains(id),
            e@ == old(self)@.lists[list].items[id].value,
        ensures
            final(self).wf(),
            final(self)@ == old(self)@.with_birth(list, id),
            final(self).lists == old(self).lists,
            final(self).xml_elements == old(self).xml_elements,
            final(self).xml_fragments == old(self).xml_fragments,
    {
        let node = match e {
            Element::XmlElement(n) => n,
            Element::Text(n) => n,
            _ => {
                return;
            },
        };
        let p = Placement { list, stamp: id };
        if self.placements.contains(node) || self.placement_index.contains_key(&p) {
            return;
        }
        let mut at: Vec<Placement> = Vec::new();
        at.push(p);
        self.placements.insert(node, Places { at });
        self.placement_index.insert(p, node);
        proof {
            assert(at@ =~= Seq::<Placement>::empty().push(p));
            assert(self@ =~= old(self)@.with_birth(list, id));
        }
    }

    fn births_in(&mut self, list: ElementId)
        requires
            old(self).wf(),
            old(self)@.lists.dom().contains(list),
        ensures
            final(self).wf(),
            final(self)@ == old(self)@.births_in(
                list,
                ordered::<SeqKey>(old(self)@.lists[list].items.dom()),
            ),
            final(self).lists == old(self).lists,
            final(self).xml_elements == old(self).xml_elements,
            final(self).xml_fragments == old(self).xml_fragments,
    {
        let nodes: Vec<(Stamp, Element)> = match self.lists.get(list) {
            Some(l) => {
                let ns = node_values(l);
                ns
            },
            None => Vec::new(),
        };
        let ghost ids = ordered::<SeqKey>(self@.lists[list].items.dom());
        let mut i: usize = 0;
        proof {
            assert(ids.take(0) =~= Seq::empty());
        }
        while i < nodes.len()
            invariant
                self.wf(),
                self.lists == old(self).lists,
                self.xml_elements == old(self).xml_elements,
                self.xml_fragments == old(self).xml_fragments,
                old(self)@.lists.dom().contains(list),
                ids == ordered::<SeqKey>(old(self)@.lists[list].items.dom()),
                nodes@.len() == ids.len(),
                i <= nodes@.len(),
                forall|j: int|
                    0 <= j < nodes@.len() ==> (#[trigger] nodes@[j]).0 == ids[j]
                        && old(self)@.lists[list].items.dom().contains(ids[j]) && nodes@[j].1@
                        == old(self)@.lists[list].items[ids[j]].value,
                self@ == old(self)@.births_in(list, ids.take(i as int)),
            decreases nodes@.len() - i,
        {
            proof {
                assert(ids.take(i + 1).drop_last() =~= ids.take(i as int));
                assert(nodes@[i as int].0 == ids[i as int]);
                assert(self@.lists == old(self)@.lists);
            }
            self.birth(list, nodes[i].0, nodes[i].1.clone());
            i += 1;
        }
        proof {
            assert(ids.take(i as int) =~= ids);
        }
    }

    fn births_over(&mut self, owners: &Vec<ElementId>)
        requires
            old(self).wf(),
        ensures
            final(self).wf(),
            final(self)@ == old(self)@.births_over(owners@),
            final(self).xml_elements == old(self).xml_elements,
            final(self).xml_fragments == old(self).xml_fragments,
    {
        let mut i: usize = 0;
        proof {
            assert(owners@.take(0) =~= Seq::empty());
        }
        while i < owners.len()
            invariant
                self.wf(),
                self.xml_elements == old(self).xml_elements,
                self.xml_fragments == old(self).xml_fragments,
                i <= owners@.len(),
                self@ == old(self)@.births_over(owners@.take(i as int)),
            decreases owners@.len() - i,
        {
            proof {
                assert(owners@.take(i + 1).drop_last() =~= owners@.take(i as int));
            }
            let list = XmlElement::children_id(owners[i]);
            if self.lists.contains(list) {
                self.births_in(list);
            }
            i += 1;
        }
        proof {
            assert(owners@.take(i as int) =~= owners@);
        }
    }

    /// Place every node that never moved where it was born.
    fn reconstruct_births(&mut self)
        requires
            old(self).wf(),
        ensures
            final(self).wf(),
            final(self)@ == old(self)@.with_births(),
    {
        reveal(TreeV::with_births);
        let elements = ids_of(&self.xml_elements.table);
        let fragments = ids_of(&self.xml_fragments.table);
        proof {
            assert(self@.xml_elements.dom() =~= self.xml_elements.table@.dom());
            assert(self@.xml_fragments.dom() =~= self.xml_fragments.table@.dom());
        }
        self.births_over(&elements);
        self.births_over(&fragments);
    }

    fn base_born(&mut self)
        requires
            old(self).wf(),
        ensures
            final(self).wf(),
            final(self)@ == old(self)@.based_born(
                ordered::<ElementId>(old(self)@.placements.dom()),
            ),
            same_stores(*old(self), *final(self)),
    {
        let ghost e = self.placements.table.entries@;
        let ghost q = seq_keys(e);
        proof {
            self.placements.lemma_ids();
            assert(q.take(0) =~= Seq::empty());
        }
        let mut i: usize = 0;
        while i < self.placements.table.entries.len()
            invariant
                self.wf(),
                same_stores(*old(self), *self),
                e == self.placements.table.entries@,
                q == seq_keys(e),
                i <= e.len(),
                self@ == old(self)@.based_born(q.take(i as int)),
            decreases e.len() - i,
        {
            let node = self.placements.table.entries[i].0;
            proof {
                self.placements.lemma_at(i as int);
                assert(q.take(i + 1).drop_last() =~= q.take(i as int));
                assert(q.take(i + 1).last() == node);
            }
            if let Some(p) = birth_placement(node, &self.placements.table.entries[i].1.at) {
                let owner = match self.parents.get(&p.list) {
                    Some(o) => Some(*o),
                    None => None,
                };
                if let Some(o) = owner {
                    let ghost t = self@;
                    self.moves.set_base(node, o);
                    proof {
                        assert(self@ =~= (TreeV { moves: t.moves.set_base(node, o), ..t }));
                    }
                }
            }
            i += 1;
        }
        proof {
            assert(q.take(i as int) =~= q);
        }
    }

    fn owner_of_unplaced(&self, node: ElementId) -> (r: Option<ElementId>)
        requires
            self.wf(),
        ensures
            r == self@.unplaced_owner(node),
    {
        if self.placements.contains(node) {
            return None;
        }
        let list = match self.parents.get(&node) {
            Some(l) => *l,
            None => {
                return None;
            },
        };
        if !self.lists.contains(list) {
            return None;
        }
        match self.parents.get(&list) {
            Some(o) => Some(*o),
            None => None,
        }
    }

    fn base_unplaced(&mut self, nodes: &Vec<ElementId>)
        requires
            old(self).wf(),
        ensures
            final(self).wf(),
            final(self)@ == old(self)@.based_unplaced(nodes@),
            same_stores(*old(self), *final(self)),
    {
        let mut i: usize = 0;
        proof {
            assert(nodes@.take(0) =~= Seq::empty());
        }
        while i < nodes.len()
            invariant
                self.wf(),
                same_stores(*old(self), *self),
                i <= nodes@.len(),
                self@ == old(self)@.based_unplaced(nodes@.take(i as int)),
            decreases nodes@.len() - i,
        {
            proof {
                assert(nodes@.take(i + 1).drop_last() =~= nodes@.take(i as int));
            }
            if let Some(o) = self.owner_of_unplaced(nodes[i]) {
                let ghost t = self@;
                self.moves.set_base(nodes[i], o);
                proof {
                    assert(self@ =~= (TreeV { moves: t.moves.set_base(nodes@[i as int], o), ..t }));
                }
            }
            i += 1;
        }
        proof {
            assert(nodes@.take(i as int) =~= nodes@);
        }
    }

    fn base_nested(&mut self)
        requires
            old(self).wf(),
        ensures
            final(self).wf(),
            final(self)@ == old(self)@.based_nested(ordered::<ElementId>(old(self)@.parents.dom())),
            same_stores(*old(self), *final(self)),
    {
        let ghost e = self.parents.entries@;
        let ghost q = seq_keys(e);
        proof {
            lemma_ordered::<ElementId, ElementId>(e);
            assert(q.take(0) =~= Seq::empty());
        }
        let mut i: usize = 0;
        while i < self.parents.entries.len()
            invariant
                self.wf(),
                same_stores(*old(self), *self),
                e == self.parents.entries@,
                q == seq_keys(e),
                i <= e.len(),
                self@ == old(self)@.based_nested(q.take(i as int)),
            decreases e.len() - i,
        {
            let child = self.parents.entries[i].0;
            let parent = self.parents.entries[i].1;
            proof {
                lemma_entry::<ElementId, ElementId>(e, i as int);
                assert(q.take(i + 1).drop_last() =~= q.take(i as int));
                assert(q.take(i + 1).last() == child);
            }
            if !self.lists.contains(parent) {
                let ghost t = self@;
                self.moves.set_base(child, parent);
                proof {
                    assert(self@ =~= (TreeV { moves: t.moves.set_base(child, parent), ..t }));
                }
            }
            i += 1;
        }
        proof {
            assert(q.take(i as int) =~= q);
        }
    }

    /// Rebuild the created-under relation.
    pub(crate) fn reseed_bases(&mut self)
        requires
            old(self).wf(),
        ensures
            final(self).wf(),
            final(self)@ == old(self)@.reseeded(),
    {
        reveal(TreeV::reseeded);
        let elements = ids_of(&self.xml_elements.table);
        let texts = ids_of(&self.texts.table);
        proof {
            assert(self@.xml_elements.dom() =~= self.xml_elements.table@.dom());
            assert(self@.texts.dom() =~= self.texts.table@.dom());
        }
        self.base_born();
        self.base_unplaced(&elements);
        self.base_unplaced(&texts);
        self.base_nested();
    }

    fn awaits(&self, node: ElementId) -> (b: bool)
        requires
            self.wf(),
        ensures
            b == self@.awaits(node),
    {
        if self.placements.contains(node) {
            return false;
        }
        match self.parents.get(&node) {
            Some(l) => self.lists.contains(*l),
            None => false,
        }
    }

    fn reveal_all(&mut self, nodes: &Vec<ElementId>)
        requires
            old(self).wf(),
        ensures
            final(self).wf(),
            same_stores(*old(self), *final(self)),
            final(self).moves == old(self).moves,
            final(self)@ == (TreeV {
                revealed: old(self)@.revealed.union(
                    Set::new(|n: ElementId| nodes@.contains(n) && old(self)@.awaits(n)),
                ),
                ..old(self)@
            }),
    {
        let ghost r0 = self@.revealed;
        let mut i: usize = 0;
        while i < nodes.len()
            invariant
                self.wf(),
                same_stores(*old(self), *self),
                self.moves == old(self).moves,
                i <= nodes@.len(),
                r0 == old(self)@.revealed,
                self@ == (TreeV { revealed: self@.revealed, ..old(self)@ }),
                forall|n: ElementId| #[trigger]
                    self@.revealed.contains(n) ==> r0.contains(n) || (nodes@.contains(n)
                        && old(self)@.awaits(n)),
                r0.subset_of(self@.revealed),
                forall|j: int|
                    0 <= j < i && old(self)@.awaits(#[trigger] nodes@[j])
                        ==> self@.revealed.contains(nodes@[j]),
            decreases nodes@.len() - i,
        {
            let node = nodes[i];
            proof {
                assert(nodes@.contains(nodes@[i as int]));
                assert(self@.awaits(node) == old(self)@.awaits(node));
            }
            if self.awaits(node) {
                let ghost t = self@;
                self.revealed.insert(node, ());
                proof {
                    assert(self@.revealed =~= t.revealed.insert(node));
                    assert(self@ =~= (TreeV { revealed: self@.revealed, ..old(self)@ }));
                }
            }
            i += 1;
        }
        proof {
            let want = r0.union(
                Set::new(|n: ElementId| nodes@.contains(n) && old(self)@.awaits(n)),
            );
            assert forall|n: ElementId| want.contains(n) implies self@.revealed.contains(n) by {
                if nodes@.contains(n) && old(self)@.awaits(n) {
                    let j = nodes@.index_of(n);
                    assert(old(self)@.awaits(nodes@[j]));
                }
            }
            assert(self@.revealed =~= want);
        }
    }

    /// Record every movable node that has no placement as awaiting its first.
    fn restore_unplaced(&mut self)
        requires
            old(self).wf(),
        ensures
            final(self).wf(),
            final(self)@ == old(self)@.with_unplaced(),
    {
        reveal(TreeV::with_unplaced);
        let elements = ids_of(&self.xml_elements.table);
        let texts = ids_of(&self.texts.table);
        proof {
            assert(self@.xml_elements.dom() =~= self.xml_elements.table@.dom());
            assert(self@.texts.dom() =~= self.texts.table@.dom());
        }
        self.reveal_all(&elements);
        let ghost mid = self@;
        self.reveal_all(&texts);
        proof {
            assert forall|n: ElementId| mid.awaits(n) == old(self)@.awaits(n) by {}
            assert forall|n: ElementId| elements@.contains(n) <==> old(self)@.xml_elements.dom().contains(
                n,
            ) by {
                assert(elements@.to_set().contains(n) <==> elements@.contains(n));
            }
            assert forall|n: ElementId| texts@.contains(n) <==> old(self)@.texts.dom().contains(n) by {
                assert(texts@.to_set().contains(n) <==> texts@.contains(n));
            }
            assert(self@.revealed =~= old(self)@.with_unplaced().revealed);
            assert(self@ =~= old(self)@.with_unplaced());
        }
    }

    pub(crate) fn replay_log(&mut self, log: &Vec<(Stamp, MoveEdge)>)
        requires
            old(self).wf(),
        ensures
            final(self).wf(),
            final(self)@ == old(self)@.with_log(log@),
    {
        let mut i: usize = 0;
        proof {
            assert(log@.take(0) =~= Seq::empty());
        }
        while i < log.len()
            invariant
                self.wf(),
                i <= log@.len(),
                self@ == old(self)@.with_log(log@.take(i as int)),
            decreases log@.len() - i,
        {
            proof {
                assert(log@.take(i + 1).drop_last() =~= log@.take(i as int));
            }
            let ghost t = self@;
            let (stamp, e) = log[i];
            self.moves.apply(stamp, e.child, e.parent);
            proof {
                assert(self@ =~= (TreeV { moves: t.moves.apply(stamp, e.child, e.parent), ..t }));
            }
            i += 1;
        }
        proof {
            assert(log@.take(i as int) =~= log@);
        }
    }

    /// Rebuild the tree-move state from a snapshot's log. A log that folds the links into
    /// a loop is refused.
    pub fn restore_moves(&mut self, log: &Vec<(Stamp, MoveEdge)>) -> (r: Result<(), DecodeError>)
        requires
            old(self).wf(),
        ensures
            final(self).wf(),
            final(self)@ == old(self)@.restored(log@),
            match r {
                Ok(_) => links_end(old(self)@.restored(log@).parents),
                Err(e) => !links_end(old(self)@.restored(log@).parents) && e
                    == (DecodeError::BadTag { what: "document: parent cycle", tag: 0 }),
            },
    {
        self.reconstruct_births();
        self.reseed_bases();
        self.restore_unplaced();
        self.replay_log(log);
        self.refold_moves();
        if parents_end(&self.parents) {
            Ok(())
        } else {
            Err(DecodeError::BadTag { what: "document: parent cycle", tag: 0 })
        }
    }
}

/// Whether two states differ in nothing but their moves and who awaits a placement.
pub open spec fn same_stores(a: Tree, b: Tree) -> bool {
    &&& a.maps == b.maps
    &&& a.lists == b.lists
    &&& a.texts == b.texts
    &&& a.counters == b.counters
    &&& a.xml_elements == b.xml_elements
    &&& a.xml_fragments == b.xml_fragments
    &&& a.parents == b.parents
    &&& a.placements == b.placements
    &&& a.placement_index == b.placement_index
    &&& a.ranged == b.ranged
    &&& a.acl == b.acl
    &&& a.orphans == b.orphans
    &&& a.high_water == b.high_water
}

/// A registry's ids in order.
pub(crate) fn ids_of<V>(t: &Table<ElementId, V>) -> (out: Vec<ElementId>)
    requires
        t.wf(),
    ensures
        out@ == ordered::<ElementId>(t@.dom()),
        out@.to_set() == t@.dom(),
        out@.no_duplicates(),
{
    let ghost e = t.entries@;
    let mut out: Vec<ElementId> = Vec::new();
    let mut i: usize = 0;
    while i < t.entries.len()
        invariant
            e == t.entries@,
            i <= e.len(),
            out@ == seq_keys(e).take(i as int),
        decreases e.len() - i,
    {
        out.push(t.entries[i].0);
        proof {
            assert(seq_keys(e).take(i + 1) =~= seq_keys(e).take(i as int).push(e[i as int].0));
        }
        i += 1;
    }
    proof {
        assert(seq_keys(e).take(i as int) =~= seq_keys(e));
        lemma_ordered::<ElementId, V>(e);
    }
    out
}

/// A sequence's nodes and what they hold, in storage order.
fn node_values(l: &List) -> (out: Vec<(Stamp, Element)>)
    requires
        l.wf(),
    ensures
        out@.len() == ordered::<SeqKey>(l@.items.dom()).len(),
        forall|j: int|
            0 <= j < out@.len() ==> (#[trigger] out@[j]).0 == ordered::<SeqKey>(l@.items.dom())[j]
                && l@.items.dom().contains(ordered::<SeqKey>(l@.items.dom())[j]) && out@[j].1@
                == l@.items[ordered::<SeqKey>(l@.items.dom())[j]].value,
{
    let ghost e = l.nodes.entries@;
    let mut out: Vec<(Stamp, Element)> = Vec::new();
    let mut i: usize = 0;
    while i < l.nodes.entries.len()
        invariant
            e == l.nodes.entries@,
            i <= e.len(),
            out@.len() == i,
            forall|j: int|
                0 <= j < i ==> (#[trigger] out@[j]).0 == e[j].0.id && out@[j].1@ == e[j].1.value@,
        decreases e.len() - i,
    {
        out.push((l.nodes.entries[i].0.id, l.nodes.entries[i].1.value.clone()));
        i += 1;
    }
    proof {
        lemma_ordered::<SeqKey, Node>(e);
        assert(l@.items.dom() =~= l.nodes@.dom());
        assert forall|j: int| 0 <= j < out@.len() implies (#[trigger] out@[j]).0 == ordered::<SeqKey>(
            l@.items.dom(),
        )[j] && l@.items.dom().contains(ordered::<SeqKey>(l@.items.dom())[j]) && out@[j].1@
            == l@.items[ordered::<SeqKey>(l@.items.dom())[j]].value by {
            lemma_entry::<SeqKey, Node>(e, j);
            assert(seq_keys(e)[j] == e[j].0@);
        }
    }
    out
}

} // verus!
