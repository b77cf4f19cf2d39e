//! Taking containers out of a replica: the containers themselves, every link that names
//! one, and everything registered beneath an annotation's payload.

use crate::element::{Element, ElementV};
use crate::elementid::{derived_id, ElementId, ElementKind};
use crate::map::{LwwMap, MapV, Slot};
use crate::registry::Registry;
use crate::sequence::list_values;
use crate::table::{index_of, lemma_entry, Key, Table};
use crate::tree::{Tree, TreeV};
use crate::walk::KeyPath;
use crate::xml::{node_attrs_id, node_children_id, XmlElement, XmlFragment};
use vstd::prelude::*;

verus! {

// --- what hangs beneath ---

/// Whether a value is a handle to `x`.
pub open spec fn names(e: ElementV, x: ElementId) -> bool {
    e.is_handle() && e.opt_id() == Some(x)
}

impl TreeV {
    /// Whether a map holds `x`: a live handle, or a counter registered for one of its
    /// keys, even one whose slot is deleted.
    pub open spec fn map_holds(self, m: MapV, id: ElementId, x: ElementId) -> bool {
        exists|k: Seq<u8>| #[trigger]
            m.slots.dom().contains(k) && ((m.slots[k].value matches Some(e) && names(e, x)) || (x
                == derived_id(id, k, ElementKind::Counter) && self.counters.dom().contains(x)))
    }

    /// Whether `x` is registered directly beneath `id`: a link says so, or `id` holds it.
    pub open spec fn beneath(self, id: ElementId, x: ElementId) -> bool {
        (self.parents.dom().contains(x) && self.parents[x] == id) || if self.maps.dom().contains(
            id,
        ) {
            self.map_holds(self.maps[id], id, x)
        } else if self.lists.dom().contains(id) {
            exists|i: int|
                0 <= i < list_values(self.lists[id]).len() && names(
                    #[trigger] list_values(self.lists[id])[i],
                    x,
                )
        } else if self.xml_elements.dom().contains(id) {
            x == node_attrs_id(id) || x == node_children_id(id)
        } else {
            self.xml_fragments.dom().contains(id) && x == node_children_id(id)
        }
    }

    /// A set of ids with everything directly beneath them that the live tree does not
    /// reach.
    pub open spec fn one_deeper(self, live: Set<ElementId>, s: Set<ElementId>) -> Set<ElementId> {
        s.union(
            Set::new(
                |x: ElementId|
                    !live.contains(x) && exists|y: ElementId| #[trigger]
                        s.contains(y) && self.beneath(y, x),
            ),
        )
    }

    /// What is at most `n` levels beneath `id`.
    pub open spec fn reached(self, live: Set<ElementId>, id: ElementId, n: nat) -> Set<ElementId>
        decreases n,
    {
        if n == 0 {
            if live.contains(id) {
                Set::empty()
            } else {
                Set::empty().insert(id)
            }
        } else {
            self.one_deeper(live, self.reached(live, id, (n - 1) as nat))
        }
    }

    /// How deep anything can be registered: no deeper than there are containers, counters
    /// and links.
    pub open spec fn reach_bound(self) -> nat {
        self.depth_bound() + self.counters.dom().len() + self.parents.dom().len()
    }

    /// `id` and everything registered beneath it that the live tree does not reach.
    pub open spec fn subtree(self, live: Set<ElementId>, id: ElementId) -> Set<ElementId> {
        self.reached(live, id, self.reach_bound())
    }
}

/// A set that does not grow stays as it is.
proof fn lemma_settled(t: TreeV, live: Set<ElementId>, id: ElementId, n: nat, m: nat)
    requires
        n <= m,
        t.one_deeper(live, t.reached(live, id, n)) == t.reached(live, id, n),
    ensures
        t.reached(live, id, m) == t.reached(live, id, n),
    decreases m - n,
{
    if n < m {
        lemma_settled(t, live, id, n, (m - 1) as nat);
    }
}

impl Tree {
    /// What is registered directly beneath `id`.
    fn children_of(&self, id: ElementId) -> (out: Vec<ElementId>)
        requires
            self.wf(),
        ensures
            forall|x: ElementId| #[trigger] out@.contains(x) <==> self@.beneath(id, x),
    {
        let mut out: Vec<ElementId> = Vec::new();
        let ghost pe = self.parents.entries@;
        let mut i: usize = 0;
        while i < self.parents.entries.len()
            invariant
                self.wf(),
                pe == self.parents.entries@,
                i <= pe.len(),
                forall|x: ElementId| #[trigger]
                    out@.contains(x) ==> self@.parents.dom().contains(x) && self@.parents[x] == id,
                forall|j: int|
                    0 <= j < i && (#[trigger] pe[j]).1 == id ==> out@.contains(pe[j].0),
            decreases pe.len() - i,
        {
            proof {
                lemma_entry::<ElementId, ElementId>(pe, i as int);
            }
            if self.parents.entries[i].1 == id {
                let ghost before = out@;
                out.push(self.parents.entries[i].0);
                proof {
                    lemma_pushed(before, pe[i as int].0);
                }
            }
            i += 1;
        }
        let ghost links = out@;
        proof {
            assert forall|x: ElementId|
                self@.parents.dom().contains(x) && self@.parents[x] == id implies links.contains(
                x,
            ) by {
                let j = index_of::<ElementId, ElementId>(pe, x);
                assert(pe[j].0@ == x);
                lemma_entry::<ElementId, ElementId>(pe, j);
            }
        }
        if let Some(m) = self.maps.get(id) {
            self.held_in_map(m, id, &mut out);
        } else if let Some(l) = self.lists.get(id) {
            let values = l.values();
            let ghost vs = list_values(l@);
            let mut k: usize = 0;
            while k < values.len()
                invariant
                    vs == values@.map_values(|e: Element| e@),
                    vs == list_values(l@),
                    k <= values@.len(),
                    forall|x: ElementId| #[trigger]
                        out@.contains(x) ==> links.contains(x) || (exists|j: int|
                            0 <= j < vs.len() && names(#[trigger] vs[j], x)),
                    forall|x: ElementId| #[trigger] links.contains(x) ==> out@.contains(x),
                    forall|j: int, x: ElementId|
                        0 <= j < k && #[trigger] names(vs[j], x) ==> out@.contains(x),
                decreases values@.len() - k,
            {
                proof {
                    assert(vs[k as int] == values@[k as int]@);
                }
                push_handle(&mut out, &values[k]);
                k += 1;
            }
        } else if self.xml_elements.contains(id) {
            let ghost b = out@;
            out.push(XmlElement::attrs_id(id));
            proof {
                lemma_pushed(b, node_attrs_id(id));
            }
            let ghost c = out@;
            out.push(XmlElement::children_id(id));
            proof {
                lemma_pushed(c, node_children_id(id));
            }
        } else if self.xml_fragments.contains(id) {
            let ghost b = out@;
            out.push(XmlFragment::children_id(id));
            proof {
                lemma_pushed(b, node_children_id(id));
            }
        }
        out
    }

    /// What a map holds, added.
    fn held_in_map(&self, m: &LwwMap, id: ElementId, out: &mut Vec<ElementId>)
        requires
            self.wf(),
            m.wf(),
        ensures
            forall|x: ElementId| #[trigger]
                final(out)@.contains(x) <==> old(out)@.contains(x) || self@.map_holds(m@, id, x),
    {
        let ghost se = m.slots.entries@;
        let ghost before = out@;
        let mut i: usize = 0;
        while i < m.slots.entries.len()
            invariant
                self.wf(),
                m.wf(),
                se == m.slots.entries@,
                i <= se.len(),
                before == old(out)@,
                forall|x: ElementId| #[trigger]
                    out@.contains(x) ==> before.contains(x) || self@.map_holds(m@, id, x),
                forall|x: ElementId| #[trigger] before.contains(x) ==> out@.contains(x),
                forall|j: int, x: ElementId|
                    0 <= j < i && (#[trigger] se[j]).1@.value is Some && #[trigger] names(
                        se[j].1@.value->Some_0,
                        x,
                    ) ==> out@.contains(x),
                forall|j: int|
                    0 <= j < i && self@.counters.dom().contains(
                        derived_id(id, (#[trigger] se[j]).0@, ElementKind::Counter),
                    ) ==> out@.contains(derived_id(id, se[j].0@, ElementKind::Counter)),
            decreases se.len() - i,
        {
            proof {
                lemma_entry::<Vec<u8>, Slot>(se, i as int);
                assert(m@.slots.dom().contains(se[i as int].0@));
            }
            let counter = ElementId::derive(
                id,
                m.slots.entries[i].0.as_slice(),
                ElementKind::Counter,
            );
            if self.counters.contains(counter) {
                let ghost b = out@;
                out.push(counter);
                proof {
                    lemma_pushed(b, counter);
                    assert(self@.map_holds(m@, id, counter));
                }
            }
            if let Some(e) = &m.slots.entries[i].1.value {
                push_handle(out, e);
            }
            i += 1;
        }
        proof {
            assert forall|x: ElementId| self@.map_holds(m@, id, x) implies out@.contains(x) by {
                let k = choose|k: Seq<u8>| #[trigger]
                    m@.slots.dom().contains(k) && ((m@.slots[k].value matches Some(e) && names(
                        e,
                        x,
                    )) || (x == derived_id(id, k, ElementKind::Counter)
                        && self@.counters.dom().contains(x)));
                let j = index_of::<Vec<u8>, Slot>(se, k);
                assert(se[j].0@ == k);
                lemma_entry::<Vec<u8>, Slot>(se, j);
                if m@.slots[k].value matches Some(e) && names(e, x) {
                    assert(names(se[j].1@.value->Some_0, x));
                }
            }
        }
    }

    /// A set of ids with everything directly beneath them, telling whether it grew.
    fn grow(&self, live: &Registry<KeyPath>, s: &Table<ElementId, ()>) -> (r: (
        Table<ElementId, ()>,
        bool,
    ))
        requires
            self.wf(),
            live.wf(),
            s.wf(),
        ensures
            r.0.wf(),
            r.0@.dom() == self@.one_deeper(live@.dom(), s@.dom()),
            !r.1 ==> r.0@.dom() == s@.dom(),
    {
        let mut out: Table<ElementId, ()> = Table::new();
        let mut grew = false;
        let ghost se = s.entries@;
        let ghost want = self@.one_deeper(live@.dom(), s@.dom());
        let mut i: usize = 0;
        while i < s.entries.len()
            invariant
                self.wf(),
                live.wf(),
                s.wf(),
                out.wf(),
                se == s.entries@,
                want == self@.one_deeper(live@.dom(), s@.dom()),
                i <= se.len(),
                forall|x: ElementId| #[trigger] out@.dom().contains(x) ==> want.contains(x),
                !grew ==> out@.dom().subset_of(s@.dom()),
                forall|j: int| 0 <= j < i ==> out@.dom().contains((#[trigger] se[j]).0),
                forall|j: int, x: ElementId|
                    0 <= j < i && #[trigger] self@.beneath(se[j].0, x) && !live@.dom().contains(x)
                        ==> out@.dom().contains(x),
            decreases se.len() - i,
        {
            let id = s.entries[i].0;
            proof {
                lemma_entry::<ElementId, ()>(se, i as int);
                assert(s@.dom().contains(id));
            }
            out.insert(id, ());
            let kids = self.children_of(id);
            let ghost outer = out@.dom();
            let mut k: usize = 0;
            while k < kids.len()
                invariant
                    live.wf(),
                    s.wf(),
                    out.wf(),
                    s@.dom().contains(id),
                    want == self@.one_deeper(live@.dom(), s@.dom()),
                    k <= kids@.len(),
                    forall|x: ElementId| #[trigger] kids@.contains(x) <==> self@.beneath(id, x),
                    forall|x: ElementId| #[trigger] out@.dom().contains(x) ==> want.contains(x),
                    !grew ==> out@.dom().subset_of(s@.dom()),
                    outer.subset_of(out@.dom()),
                    forall|j: int|
                        0 <= j < k && !live@.dom().contains(#[trigger] kids@[j])
                            ==> out@.dom().contains(kids@[j]),
                decreases kids@.len() - k,
            {
                let x = kids[k];
                proof {
                    assert(kids@.contains(kids@[k as int]));
                }
                if !live.contains(x) {
                    if !s.contains_key(&x) {
                        grew = true;
                    }
                    out.insert(x, ());
                    proof {
                        assert(self@.beneath(id, x));
                        assert(want.contains(x));
                    }
                }
                k += 1;
            }
            proof {
                assert forall|j: int, x: ElementId|
                    0 <= j < i + 1 && #[trigger] self@.beneath(se[j].0, x) && !live@.dom().contains(
                        x,
                    ) implies out@.dom().contains(x) by {
                    if j == i {
                        assert(kids@.contains(x));
                        let q = kids@.index_of(x);
                        assert(!live@.dom().contains(kids@[q]));
                    }
                }
            }
            i += 1;
        }
        proof {
            assert forall|x: ElementId| want.contains(x) implies out@.dom().contains(x) by {
                if s@.dom().contains(x) {
                    let j = index_of::<ElementId, ()>(se, x);
                    assert(se[j].0@ == x);
                } else {
                    let y = choose|y: ElementId| #[trigger]
                        s@.dom().contains(y) && self@.beneath(y, x);
                    let j = index_of::<ElementId, ()>(se, y);
                    assert(se[j].0@ == y);
                    assert(self@.beneath(se[j].0, x));
                }
            }
            assert(out@.dom() =~= want);
            if !grew {
                assert(out@.dom() =~= s@.dom());
            }
        }
        (out, grew)
    }

    /// `id` and everything registered beneath it that the live tree does not reach.
    pub(crate) fn registered_subtree(&self, live: &Registry<KeyPath>, id: ElementId) -> (out: Table<
        ElementId,
        (),
    >)
        requires
            self.wf(),
            live.wf(),
        ensures
            out.wf(),
            out@.dom() == self@.subtree(live@.dom(), id),
    {
        let bound: u128 = self.maps.len() as u128 + self.lists.len() as u128 + self.texts.len()
            as u128 + self.xml_elements.len() as u128 + self.xml_fragments.len() as u128 + 1
            + self.counters.len() as u128 + self.parents.len() as u128;
        let mut out: Table<ElementId, ()> = Table::new();
        if !live.contains(id) {
            out.insert(id, ());
        }
        proof {
            assert(out@.dom() =~= self@.reached(live@.dom(), id, 0));
        }
        let mut n: u128 = 0;
        while n < bound
            invariant
                self.wf(),
                live.wf(),
                out.wf(),
                bound == self@.reach_bound(),
                n <= bound,
                out@.dom() == self@.reached(live@.dom(), id, n as nat),
            decreases bound - n,
        {
            let (next, grew) = self.grow(live, &out);
            if !grew {
                proof {
                    lemma_settled(self@, live@.dom(), id, n as nat, bound as nat);
                }
                return next;
            }
            out = next;
            n += 1;
        }
        out
    }
}

proof fn lemma_pushed(s: Seq<ElementId>, x: ElementId)
    ensures
        forall|y: ElementId| #[trigger] s.push(x).contains(y) <==> s.contains(y) || y == x,
{
    assert forall|y: ElementId| #[trigger] s.push(x).contains(y) <==> s.contains(y) || y == x by {
        if s.contains(y) {
            let i = s.index_of(y);
            assert(s.push(x)[i] == y);
        }
        if y == x {
            assert(s.push(x)[s.len() as int] == y);
        }
        if s.push(x).contains(y) && y != x {
            let i = s.push(x).index_of(y);
            assert(s[i] == y);
        }
    }
}

/// The element a handle names, added.
fn push_handle(out: &mut Vec<ElementId>, e: &Element)
    ensures
        forall|x: ElementId| #[trigger]
            final(out)@.contains(x) <==> old(out)@.contains(x) || names(e@, x),
{
    let id = match e {
        Element::Scalar(_) => {
            return;
        },
        Element::Register(_) => {
            return;
        },
        other => other.id(),
    };
    let ghost before = out@;
    out.push(id);
    proof {
        lemma_pushed(before, id);
    }
}

// --- taking out ---

/// The links that name an id of a set at either end.
pub open spec fn dead_links(links: Map<ElementId, ElementId>, purge: Set<ElementId>) -> Set<
    ElementId,
> {
    Set::new(
        |c: ElementId| links.dom().contains(c) && (purge.contains(c) || purge.contains(links[c])),
    )
}

impl TreeV {
    /// Without some containers and the links that name them.
    pub open spec fn purged(self, purge: Set<ElementId>) -> TreeV {
        TreeV {
            maps: self.maps.remove_keys(purge),
            lists: self.lists.remove_keys(purge),
            texts: self.texts.remove_keys(purge),
            counters: self.counters.remove_keys(purge),
            xml_elements: self.xml_elements.remove_keys(purge),
            xml_fragments: self.xml_fragments.remove_keys(purge),
            parents: self.parents.remove_keys(dead_links(self.parents, purge)),
            ..self
        }
    }
}

/// The links that name an id of a set.
fn find_dead_links(links: &Table<ElementId, ElementId>, purge: &Table<ElementId, ()>) -> (out: Table<
    ElementId,
    (),
>)
    requires
        links.wf(),
        purge.wf(),
    ensures
        out.wf(),
        out@.dom() == dead_links(links@, purge@.dom()),
{
    let mut out: Table<ElementId, ()> = Table::new();
    let ghost e = links.entries@;
    let ghost want = dead_links(links@, purge@.dom());
    let mut i: usize = 0;
    while i < links.entries.len()
        invariant
            links.wf(),
            purge.wf(),
            out.wf(),
            e == links.entries@,
            want == dead_links(links@, purge@.dom()),
            i <= e.len(),
            forall|c: ElementId| #[trigger] out@.dom().contains(c) ==> want.contains(c),
            forall|j: int|
                0 <= j < i && want.contains((#[trigger] e[j]).0) ==> out@.dom().contains(e[j].0),
        decreases e.len() - i,
    {
        proof {
            lemma_entry::<ElementId, ElementId>(e, i as int);
        }
        let (c, p) = links.entries[i];
        if purge.contains_key(&c) || purge.contains_key(&p) {
            out.insert(c, ());
        }
        i += 1;
    }
    proof {
        assert forall|c: ElementId| want.contains(c) implies out@.dom().contains(c) by {
            let j = index_of::<ElementId, ElementId>(e, c);
            assert(e[j].0@ == c);
        }
        assert(out@.dom() =~= want);
    }
    out
}

impl Tree {
    /// Take out some containers and the links that name them.
    pub(crate) fn purge(&mut self, purge: &Table<ElementId, ()>)
        requires
            old(self).wf(),
            purge.wf(),
            !purge@.dom().contains(crate::identity::root_element()),
        ensures
            final(self).wf(),
            final(self)@ == old(self)@.purged(purge@.dom()),
    {
        let dead = find_dead_links(&self.parents, purge);
        self.maps.drop_all(purge);
        self.lists.drop_all(purge);
        self.texts.drop_all(purge);
        self.counters.drop_all(purge);
        self.xml_elements.drop_all(purge);
        self.xml_fragments.drop_all(purge);
        self.parents.drop_all(&dead);
        proof {
            assert(self@ =~= old(self)@.purged(purge@.dom()));
        }
    }
}

/// One set added to another.
pub(crate) fn extend(a: &mut Table<ElementId, ()>, b: &Table<ElementId, ()>)
    requires
        old(a).wf(),
        b.wf(),
    ensures
        final(a).wf(),
        final(a)@.dom() == old(a)@.dom().union(b@.dom()),
{
    let ghost e = b.entries@;
    let ghost start = a@.dom();
    let mut i: usize = 0;
    while i < b.entries.len()
        invariant
            a.wf(),
            b.wf(),
            e == b.entries@,
            start == old(a)@.dom(),
            i <= e.len(),
            start.subset_of(a@.dom()),
            forall|x: ElementId| #[trigger]
                a@.dom().contains(x) ==> start.contains(x) || b@.dom().contains(x),
            forall|j: int| 0 <= j < i ==> a@.dom().contains((#[trigger] e[j]).0),
        decreases e.len() - i,
    {
        proof {
            lemma_entry::<ElementId, ()>(e, i as int);
        }
        a.insert(b.entries[i].0, ());
        i += 1;
    }
    proof {
        assert forall|x: ElementId| b@.dom().contains(x) implies a@.dom().contains(x) by {
            let j = index_of::<ElementId, ()>(e, x);
            assert(e[j].0@ == x);
        }
        assert(a@.dom() =~= start.union(b@.dom()));
    }
}

} // verus!
