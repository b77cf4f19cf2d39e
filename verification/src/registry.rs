//! A registry: every element of one kind that a replica has materialised, by id.

use crate::elementid::ElementId;
use crate::table::{
    lemma_entry, lemma_ordered, lemma_size, lemma_take, lemma_views_insert, lemma_views_remove,
    ordered, seq_keys, seq_map, views, Key, Table,
};
use vstd::prelude::*;

verus! {

/// What a registry can hold.
pub trait Held: View {
    /// Whether the value is well formed and belongs under `id`.
    spec fn fit(&self, id: ElementId) -> bool;
}

/// Elements by id.
pub struct Registry<T> {
    pub table: Table<ElementId, T>,
}

impl<T: Held> View for Registry<T> {
    type V = Map<ElementId, T::V>;

    open spec fn view(&self) -> Map<ElementId, T::V> {
        views(self.table@)
    }
}

impl<T: Held> Registry<T> {
    /// Every element is well formed and under its own id.
    pub open spec fn wf(&self) -> bool {
        self.table.wf() && forall|id: ElementId| #[trigger]
            self.table@.dom().contains(id) ==> self.table@[id].fit(id)
    }

    pub fn new() -> (r: Self)
        ensures
            r.wf(),
            r@ == Map::<ElementId, T::V>::empty(),
    {
        let r = Registry { table: Table::new() };
        proof {
            assert(r@ =~= Map::<ElementId, T::V>::empty());
        }
        r
    }

    pub fn len(&self) -> (n: usize)
        requires
            self.wf(),
        ensures
            n == self@.dom().len(),
            self@.dom().finite(),
            n == self.table.entries@.len(),
    {
        let n: usize = self.table.len();
        proof {
            assert(self@.dom() =~= self.table@.dom());
        }
        n
    }

    /// The element with this id.
    pub fn get(&self, id: ElementId) -> (r: Option<&T>)
        requires
            self.wf(),
        ensures
            match r {
                Some(t) => self@.dom().contains(id) && t@ == self@[id] && t.fit(id)
                    && self.table@.dom().contains(id) && *t == self.table@[id],
                None => !self@.dom().contains(id),
            },
    {
        self.table.get(&id)
    }

    pub fn contains(&self, id: ElementId) -> (b: bool)
        requires
            self.wf(),
        ensures
            b == self@.dom().contains(id),
    {
        self.table.contains_key(&id)
    }

    /// Put an element under its id, giving back what was there.
    pub fn insert(&mut self, id: ElementId, t: T) -> (r: Option<T>)
        requires
            old(self).wf(),
            t.fit(id),
        ensures
            final(self).wf(),
            final(self)@ == old(self)@.insert(id, t@),
            match r {
                Some(x) => old(self)@.dom().contains(id) && x@ == old(self)@[id] && x.fit(id),
                None => !old(self)@.dom().contains(id),
            },
    {
        broadcast use lemma_views_insert;

        self.table.insert(id, t)
    }

    /// Take an element out.
    pub fn remove(&mut self, id: ElementId) -> (r: Option<T>)
        requires
            old(self).wf(),
        ensures
            final(self).wf(),
            final(self)@ == old(self)@.remove(id),
            match r {
                Some(x) => old(self)@.dom().contains(id) && x@ == old(self)@[id] && x.fit(id),
                None => !old(self)@.dom().contains(id),
            },
    {
        broadcast use lemma_views_remove;

        self.table.remove(&id)
    }

    /// The element with this id, to change in place.
    pub fn get_mut(&mut self, id: ElementId) -> (r: Option<&mut T>)
        requires
            old(self).wf(),
        ensures
            match r {
                Some(t) => old(self)@.dom().contains(id) && t@ == old(self)@[id] && t.fit(id) && (
                (*final(t)).fit(id) ==> final(self).wf() && final(self)@ == old(self)@.insert(
                    id,
                    (*final(t))@,
                )),
                None => !old(self)@.dom().contains(id) && *final(self) == *old(self),
            },
    {
        broadcast use lemma_views_insert;

        self.table.get_mut(&id)
    }

    /// Drop every element whose id is in `ids`.
    pub fn drop_all(&mut self, ids: &Table<ElementId, ()>)
        requires
            old(self).wf(),
            ids.wf(),
        ensures
            final(self).wf(),
            final(self)@ == old(self)@.remove_keys(ids@.dom()),
    {
        let ghost e = ids.entries@;
        let ghost m = self@;
        let mut i: usize = 0;
        proof {
            assert(seq_map::<ElementId, ()>(e.take(0)).dom() =~= Set::empty());
            assert(m =~= m.remove_keys(Set::empty()));
        }
        while i < ids.entries.len()
            invariant
                self.wf(),
                ids.wf(),
                e == ids.entries@,
                i <= e.len(),
                self@ == m.remove_keys(seq_map::<ElementId, ()>(e.take(i as int)).dom()),
            decreases e.len() - i,
        {
            let _ = self.remove(ids.entries[i].0);
            proof {
                lemma_take::<ElementId, ()>(e, i as int);
                assert(self@ =~= m.remove_keys(seq_map::<ElementId, ()>(e.take(i + 1)).dom()));
            }
            i += 1;
        }
        proof {
            assert(e.take(i as int) =~= e);
        }
    }

    /// Entry `i` of the table, by value.
    pub proof fn lemma_at(&self, i: int)
        requires
            self.wf(),
            0 <= i < self.table.entries@.len(),
        ensures
            self@.dom().contains(self.table.entries@[i].0),
            self@[self.table.entries@[i].0] == self.table.entries@[i].1@,
            self.table.entries@[i].1.fit(self.table.entries@[i].0),
    {
        lemma_entry::<ElementId, T>(self.table.entries@, i);
    }

    /// The ids stand in order.
    pub proof fn lemma_ids(&self)
        requires
            self.wf(),
        ensures
            seq_keys(self.table.entries@) == ordered::<ElementId>(self@.dom()),
            seq_keys(self.table.entries@).to_set() == self@.dom(),
            seq_keys(self.table.entries@).no_duplicates(),
            self@.dom().finite(),
            self@.dom().len() == self.table.entries@.len(),
    {
        lemma_ordered::<ElementId, T>(self.table.entries@);
        lemma_size::<ElementId, T>(self.table.entries@);
        assert(self@.dom() =~= self.table@.dom());
    }
}

} // verus!
