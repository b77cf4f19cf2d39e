//! Folding another replica's containers in, id by id.

use crate::counter::{
    law_counter_merge_commutes, law_counter_merge_is_idempotent, tallies_merge, Counter, CounterV,
};
use crate::elementid::ElementId;
use crate::list::{list_join, List, ListV};
use crate::list_laws::{agree, law_list_merge_commutes, law_list_merge_is_idempotent};
use crate::map::{slot_join, slots_join, LwwMap, MapV};
use crate::map_laws::{law_map_merge_commutes, law_slot_merge_is_idempotent, maps_coherent};
use crate::registry::{Held, Registry};
use crate::table::{lemma_take, seq_map, views};
use crate::text::Text;
use crate::tree::{Tree, TreeV};
use crate::xml::{XmlElement, XmlElementV, XmlFragment};
use vstd::prelude::*;

verus! {

/// What one replica's copy of an element and another's make.
pub trait Joined: Held {
    spec fn join_of(a: Self::V, b: Self::V) -> Self::V;

    /// A copy of its own, as a replica that had none takes it in.
    spec fn copy_of(a: Self::V) -> Self::V;

    /// Fold another copy in.
    fn join(&mut self, other: &Self, id: Ghost<ElementId>)
        requires
            old(self).fit(id@),
            other.fit(id@),
        ensures
            final(self).fit(id@),
            final(self)@ == Self::join_of(old(self)@, other@),
    ;

    fn copied(&self, id: Ghost<ElementId>) -> (c: Self) where Self: Sized
        requires
            self.fit(id@),
        ensures
            c.fit(id@),
            c@ == Self::copy_of(self@),
    ;
}

impl Joined for LwwMap {
    open spec fn join_of(a: MapV, b: MapV) -> MapV {
        MapV { slots: slots_join(a.slots, b.slots), ..a }
    }

    open spec fn copy_of(a: MapV) -> MapV {
        MapV { displaced: false, ..a }
    }

    fn join(&mut self, other: &Self, id: Ghost<ElementId>) {
        self.merge(other);
    }

    fn copied(&self, id: Ghost<ElementId>) -> (c: Self) {
        self.deep_clone()
    }
}

impl Joined for List {
    open spec fn join_of(a: ListV, b: ListV) -> ListV {
        list_join(a, b)
    }

    open spec fn copy_of(a: ListV) -> ListV {
        ListV { displaced: false, ..a }
    }

    fn join(&mut self, other: &Self, id: Ghost<ElementId>) {
        self.merge(other);
    }

    fn copied(&self, id: Ghost<ElementId>) -> (c: Self) {
        self.deep_clone()
    }
}

impl Joined for Text {
    open spec fn join_of(a: ListV, b: ListV) -> ListV {
        list_join(a, b)
    }

    open spec fn copy_of(a: ListV) -> ListV {
        ListV { displaced: false, ..a }
    }

    fn join(&mut self, other: &Self, id: Ghost<ElementId>) {
        self.seq.merge(&other.seq);
    }

    fn copied(&self, id: Ghost<ElementId>) -> (c: Self) {
        Text { seq: self.seq.deep_clone() }
    }
}

impl Joined for Counter {
    open spec fn join_of(a: CounterV, b: CounterV) -> CounterV {
        CounterV { tallies: tallies_merge(a.tallies, b.tallies), ..a }
    }

    open spec fn copy_of(a: CounterV) -> CounterV {
        CounterV { displaced: false, ..a }
    }

    fn join(&mut self, other: &Self, id: Ghost<ElementId>) {
        self.merge(other);
    }

    fn copied(&self, id: Ghost<ElementId>) -> (c: Self) {
        self.deep_clone()
    }
}

impl Joined for XmlElement {
    open spec fn join_of(a: XmlElementV, b: XmlElementV) -> XmlElementV {
        a
    }

    open spec fn copy_of(a: XmlElementV) -> XmlElementV {
        XmlElementV { displaced: false, ..a }
    }

    fn join(&mut self, other: &Self, id: Ghost<ElementId>) {
    }

    fn copied(&self, id: Ghost<ElementId>) -> (c: Self) {
        XmlElement { tag: vstd::slice::slice_to_vec(self.tag.as_slice()), displaced: false }
    }
}

impl Joined for XmlFragment {
    open spec fn join_of(a: XmlFragment, b: XmlFragment) -> XmlFragment {
        a
    }

    open spec fn copy_of(a: XmlFragment) -> XmlFragment {
        XmlFragment { displaced: false }
    }

    fn join(&mut self, other: &Self, id: Ghost<ElementId>) {
    }

    fn copied(&self, id: Ghost<ElementId>) -> (c: Self) {
        XmlFragment { displaced: false }
    }
}

/// Two replicas' elements, id by id: one that both have is joined, one that only the other
/// has is taken in.
pub open spec fn joined_by_id<T: Joined>(
    a: Map<ElementId, T::V>,
    b: Map<ElementId, T::V>,
) -> Map<ElementId, T::V> {
    Map::new(
        |id: ElementId| a.dom().contains(id) || b.dom().contains(id),
        |id: ElementId|
            if a.dom().contains(id) && b.dom().contains(id) {
                T::join_of(a[id], b[id])
            } else if a.dom().contains(id) {
                a[id]
            } else {
                T::copy_of(b[id])
            },
    )
}

impl<T: Joined> Registry<T> {
    /// Fold another replica's elements in.
    pub fn join(&mut self, other: &Self)
        requires
            old(self).wf(),
            other.wf(),
        ensures
            final(self).wf(),
            final(self)@ == joined_by_id::<T>(old(self)@, other@),
    {
        let ghost a = self@;
        let ghost e = other.table.entries@;
        let mut i: usize = 0;
        proof {
            assert(views(seq_map::<ElementId, T>(e.take(0))) =~= Map::empty());
            assert(a =~= joined_by_id::<T>(a, Map::empty()));
        }
        while i < other.table.entries.len()
            invariant
                self.wf(),
                other.wf(),
                a == old(self)@,
                e == other.table.entries@,
                i <= e.len(),
                self@ == joined_by_id::<T>(a, views(seq_map::<ElementId, T>(e.take(i as int)))),
            decreases e.len() - i,
        {
            let ghost before = self@;
            let ghost seen = views(seq_map::<ElementId, T>(e.take(i as int)));
            let id: ElementId = other.table.entries[i].0;
            proof {
                other.lemma_at(i as int);
                lemma_take::<ElementId, T>(e, i as int);
                assert(!seen.dom().contains(id));
                assert(before.dom().contains(id) == a.dom().contains(id));
            }
            if let Some(t) = self.get_mut(id) {
                t.join(&other.table.entries[i].1, Ghost(id));
            } else {
                let c = other.table.entries[i].1.copied(Ghost(id));
                let _ = self.insert(id, c);
            }
            proof {
                let more = views(seq_map::<ElementId, T>(e.take(i + 1)));
                assert(more =~= seen.insert(id, e[i as int].1@));
                assert(self@ =~= joined_by_id::<T>(a, more));
            }
            i += 1;
        }
        proof {
            assert(e.take(i as int) =~= e);
        }
    }
}

impl TreeV {
    /// With another state's containers folded in, id by id.
    pub open spec fn joined(self, other: TreeV) -> TreeV {
        TreeV {
            maps: joined_by_id::<LwwMap>(self.maps, other.maps),
            lists: joined_by_id::<List>(self.lists, other.lists),
            texts: joined_by_id::<Text>(self.texts, other.texts),
            counters: joined_by_id::<Counter>(self.counters, other.counters),
            xml_elements: joined_by_id::<XmlElement>(self.xml_elements, other.xml_elements),
            xml_fragments: joined_by_id::<XmlFragment>(self.xml_fragments, other.xml_fragments),
            ..self
        }
    }
}

impl Tree {
    /// Fold another replica's containers in, each with its own copy under the same id, so
    /// that whatever a handle names is joined however deep it lies.
    pub fn merge(&mut self, other: &Tree)
        requires
            old(self).wf(),
            other.wf(),
        ensures
            final(self).wf(),
            final(self)@ == old(self)@.joined(other@),
    {
        self.maps.join(&other.maps);
        self.lists.join(&other.lists);
        self.texts.join(&other.texts);
        self.counters.join(&other.counters);
        self.xml_elements.join(&other.xml_elements);
        self.xml_fragments.join(&other.xml_fragments);
        proof {
            assert(self@ =~= old(self)@.joined(other@));
        }
    }
}

// --- joins ---

/// Whether what two states both have is one thing each, written coherently: what replicas
/// of one document have.
pub open spec fn joinable(a: TreeV, b: TreeV) -> bool {
    &&& forall|id: ElementId|
        a.maps.dom().contains(id) && #[trigger] b.maps.dom().contains(id) ==> a.maps[id].id
            == b.maps[id].id && maps_coherent(a.maps[id].slots, b.maps[id].slots)
    &&& forall|id: ElementId|
        a.lists.dom().contains(id) && #[trigger] b.lists.dom().contains(id) ==> a.lists[id].id
            == b.lists[id].id && agree(a.lists[id], b.lists[id])
    &&& forall|id: ElementId|
        a.texts.dom().contains(id) && #[trigger] b.texts.dom().contains(id) ==> a.texts[id].id
            == b.texts[id].id && agree(a.texts[id], b.texts[id])
    &&& forall|id: ElementId|
        a.counters.dom().contains(id) && #[trigger] b.counters.dom().contains(id)
            ==> a.counters[id].id == b.counters[id].id
    &&& forall|id: ElementId|
        a.xml_elements.dom().contains(id) && #[trigger] b.xml_elements.dom().contains(id)
            ==> a.xml_elements[id].tag == b.xml_elements[id].tag
}

/// The order of a join does not matter to what the containers hold.
pub proof fn law_joins_commute(a: TreeV, b: TreeV)
    requires
        joinable(a, b),
    ensures
        ({
            let x = a.joined(b).plain();
            let y = b.joined(a).plain();
            &&& x.maps == y.maps
            &&& x.lists == y.lists
            &&& x.texts == y.texts
            &&& x.counters == y.counters
            &&& x.xml_elements == y.xml_elements
            &&& x.xml_fragments == y.xml_fragments
        }),
{
    let x = a.joined(b).plain();
    let y = b.joined(a).plain();
    assert forall|id: ElementId| #[trigger] x.maps.dom().contains(id) implies x.maps[id]
        == y.maps[id] by {
        if a.maps.dom().contains(id) && b.maps.dom().contains(id) {
            law_map_merge_commutes(a.maps[id].slots, b.maps[id].slots);
        }
    }
    assert(x.maps =~= y.maps);
    assert forall|id: ElementId| #[trigger] x.lists.dom().contains(id) implies x.lists[id]
        == y.lists[id] by {
        if a.lists.dom().contains(id) && b.lists.dom().contains(id) {
            law_list_merge_commutes(a.lists[id], b.lists[id]);
        }
    }
    assert(x.lists =~= y.lists);
    assert forall|id: ElementId| #[trigger] x.texts.dom().contains(id) implies x.texts[id]
        == y.texts[id] by {
        if a.texts.dom().contains(id) && b.texts.dom().contains(id) {
            law_list_merge_commutes(a.texts[id], b.texts[id]);
        }
    }
    assert(x.texts =~= y.texts);
    assert forall|id: ElementId| #[trigger] x.counters.dom().contains(id) implies x.counters[id]
        == y.counters[id] by {
        if a.counters.dom().contains(id) && b.counters.dom().contains(id) {
            law_counter_merge_commutes(a.counters[id].tallies, b.counters[id].tallies);
        }
    }
    assert(x.counters =~= y.counters);
    assert(x.xml_elements =~= y.xml_elements);
    assert(x.xml_fragments =~= y.xml_fragments);
}

/// Joining a state with itself changes nothing.
pub proof fn law_a_state_joins_itself(a: TreeV)
    requires
        forall|id: ElementId| #[trigger]
            a.lists.dom().contains(id) ==> a.lists[id].items.dom().subset_of(
                a.lists[id].places.dom(),
            ),
        forall|id: ElementId| #[trigger]
            a.texts.dom().contains(id) ==> a.texts[id].items.dom().subset_of(
                a.texts[id].places.dom(),
            ),
    ensures
        a.joined(a) == a,
{
    let x = a.joined(a);
    assert forall|id: ElementId| #[trigger] a.maps.dom().contains(id) implies x.maps[id]
        == a.maps[id] by {
        assert forall|k: Seq<u8>| #[trigger] a.maps[id].slots.dom().contains(k) implies slot_join(
            Some(a.maps[id].slots[k]),
            a.maps[id].slots[k],
        ) == a.maps[id].slots[k] by {
            law_slot_merge_is_idempotent(a.maps[id].slots[k]);
        }
        assert(slots_join(a.maps[id].slots, a.maps[id].slots) =~= a.maps[id].slots);
    }
    assert(x.maps =~= a.maps);
    assert forall|id: ElementId| #[trigger] a.lists.dom().contains(id) implies x.lists[id]
        == a.lists[id] by {
        law_list_merge_is_idempotent(a.lists[id]);
    }
    assert(x.lists =~= a.lists);
    assert forall|id: ElementId| #[trigger] a.texts.dom().contains(id) implies x.texts[id]
        == a.texts[id] by {
        law_list_merge_is_idempotent(a.texts[id]);
    }
    assert(x.texts =~= a.texts);
    assert forall|id: ElementId| #[trigger] a.counters.dom().contains(id) implies x.counters[id]
        == a.counters[id] by {
        law_counter_merge_is_idempotent(a.counters[id].tallies);
    }
    assert(x.counters =~= a.counters);
    assert(x.xml_elements =~= a.xml_elements);
    assert(x.xml_fragments =~= a.xml_fragments);
}

} // verus!
