//! What a snapshot leaves to be worked out: which containers hold their slots, where the
//! nodes that never moved were born, what was created under what, and how high each
//! client's stamps reach.

use crate::annot::{Payload, PayloadV, RangedEntry};
use crate::elementid::ElementId;
use crate::identity::{payload_id, root_element, root_id, spec_payload_id};
use crate::list::{List, ListV, Node, SeqKey};
use crate::map::{LwwMap, MapV, Slot};
use crate::counter::CounterV;
use crate::stamp::Stamp;
use crate::table::{lemma_entry, seq_keys, Key, Table};
use crate::tree::{Tree, TreeV};
use crate::xml::{node_attrs_id, node_children_id, XmlElement, XmlElementV, XmlFragment};
use vstd::prelude::*;

verus! {

// --- displacement ---

impl TreeV {
    /// Whether something holds `id` now: the root, an annotation's payload, a live map
    /// slot or a live sequence node.
    pub open spec fn held_directly(self, id: ElementId) -> bool {
        id == root_element() || (exists|r: ElementId| #[trigger]
            self.ranged.dom().contains(r) && (self.ranged[r].payload matches PayloadV::Composite {
                kind,
            } && spec_payload_id(r, kind) == id)) || (exists|m: ElementId, k: Seq<u8>|
            self.maps.dom().contains(m) && #[trigger] self.maps[m].slots.dom().contains(k) && (
            self.maps[m].slots[k].value matches Some(e) && e.opt_id() == Some(id))) || (exists|
            l: ElementId,
            s: Stamp,
        |
            self.lists.dom().contains(l) && #[trigger] self.lists[l].is_live(s)
                && self.lists[l].items[s].value.opt_id() == Some(id))
    }

    /// Whether a container is installed: held, or part of an XML node that is.
    pub open spec fn is_installed(self, id: ElementId) -> bool {
        self.held_directly(id) || (exists|x: ElementId| #[trigger]
            self.xml_elements.dom().contains(x) && self.held_directly(x) && (node_attrs_id(x) == id
                || node_children_id(x) == id)) || (exists|x: ElementId| #[trigger]
            self.xml_fragments.dom().contains(x) && self.held_directly(x) && node_children_id(x)
                == id)
    }

    /// With every container marked as displaced that is not installed.
    pub open spec fn with_flags(self) -> TreeV {
        TreeV {
            maps: Map::new(
                |id: ElementId| self.maps.dom().contains(id),
                |id: ElementId|
                    MapV {
                        displaced: self.maps[id].displaced || !self.is_installed(id),
                        ..self.maps[id]
                    },
            ),
            lists: Map::new(
                |id: ElementId| self.lists.dom().contains(id),
                |id: ElementId|
                    ListV {
                        displaced: self.lists[id].displaced || !self.is_installed(id),
                        ..self.lists[id]
                    },
            ),
            texts: Map::new(
                |id: ElementId| self.texts.dom().contains(id),
                |id: ElementId|
                    ListV {
                        displaced: self.texts[id].displaced || !self.is_installed(id),
                        ..self.texts[id]
                    },
            ),
            counters: Map::new(
                |id: ElementId| self.counters.dom().contains(id),
                |id: ElementId|
                    CounterV {
                        displaced: self.counters[id].displaced || !self.is_installed(id),
                        ..self.counters[id]
                    },
            ),
            xml_elements: Map::new(
                |id: ElementId| self.xml_elements.dom().contains(id),
                |id: ElementId|
                    XmlElementV {
                        displaced: self.xml_elements[id].displaced || !self.is_installed(id),
                        ..self.xml_elements[id]
                    },
            ),
            xml_fragments: Map::new(
                |id: ElementId| self.xml_fragments.dom().contains(id),
                |id: ElementId|
                    XmlFragment {
                        displaced: self.xml_fragments[id].displaced || !self.is_installed(id),
                    },
            ),
            ..self
        }
    }
}

impl Tree {
    /// Every id something holds.
    fn held_set(&self) -> (out: Table<ElementId, ()>)
        requires
            self.sound(),
        ensures
            out.wf(),
            forall|id: ElementId| #[trigger]
                out@.dom().contains(id) <==> self@.held_directly(id),
    {
        let mut out: Table<ElementId, ()> = Table::new();
        out.insert(root_id(), ());
        let ghost re = self.ranged.table.entries@;
        let mut i: usize = 0;
        while i < self.ranged.table.entries.len()
            invariant
                self.sound(),
                out.wf(),
                re == self.ranged.table.entries@,
                i <= re.len(),
                out@.dom().contains(root_element()),
                forall|id: ElementId| #[trigger]
                    out@.dom().contains(id) ==> self@.held_directly(id),
                forall|j: int|
                    0 <= j < i ==> ((#[trigger] re[j]).1@.payload matches PayloadV::Composite {
                        kind,
                    } ==> out@.dom().contains(spec_payload_id(re[j].0, kind))),
            decreases re.len() - i,
        {
            proof {
                self.ranged.lemma_at(i as int);
            }
            let (r, e) = &self.ranged.table.entries[i];
            if let Payload::Composite { kind } = &e.payload {
                out.insert(payload_id(*r, *kind), ());
                proof {
                    assert(self@.ranged.dom().contains(*r));
                }
            }
            i += 1;
        }
        let ghost first = out@.dom();
        self.hold_slots(&mut out);
        let ghost second = out@.dom();
        self.hold_items(&mut out);
        proof {
            assert forall|id: ElementId| self@.held_directly(id) implies out@.dom().contains(id) by {
                if id != root_element() {
                    if exists|r: ElementId| #[trigger]
                        self@.ranged.dom().contains(r) && (self@.ranged[r].payload matches PayloadV::Composite {
                            kind,
                        } && spec_payload_id(r, kind) == id) {
                        let r = choose|r: ElementId| #[trigger]
                            self@.ranged.dom().contains(r) && (self@.ranged[r].payload matches PayloadV::Composite {
                                kind,
                            } && spec_payload_id(r, kind) == id);
                        let k = crate::table::index_of::<ElementId, RangedEntry>(re, r);
                        assert(re[k].0@ == r);
                        self.ranged.lemma_at(k);
                        assert(first.contains(id));
                    } else {
                        assert(second.contains(id) || out@.dom().contains(id));
                    }
                }
            }
        }
        out
    }

    /// The ids live map slots hold, added.
    fn hold_slots(&self, out: &mut Table<ElementId, ()>)
        requires
            self.sound(),
            old(out).wf(),
            forall|id: ElementId| #[trigger]
                old(out)@.dom().contains(id) ==> self@.held_directly(id),
        ensures
            final(out).wf(),
            old(out)@.dom().subset_of(final(out)@.dom()),
            forall|id: ElementId| #[trigger]
                final(out)@.dom().contains(id) ==> self@.held_directly(id),
            forall|m: ElementId, k: Seq<u8>|
                self@.maps.dom().contains(m) && #[trigger] self@.maps[m].slots.dom().contains(k)
                    ==> (self@.maps[m].slots[k].value matches Some(e) ==> (e.opt_id() matches Some(
                    id,
                ) ==> final(out)@.dom().contains(id))),
    {
        let ghost me = self.maps.table.entries@;
        let mut i: usize = 0;
        while i < self.maps.table.entries.len()
            invariant
                self.sound(),
                out.wf(),
                me == self.maps.table.entries@,
                i <= me.len(),
                old(out)@.dom().subset_of(out@.dom()),
                forall|id: ElementId| #[trigger]
                    out@.dom().contains(id) ==> self@.held_directly(id),
                forall|j: int, k: Seq<u8>|
                    0 <= j < i && #[trigger] me[j].1@.slots.dom().contains(k) ==> (
                    me[j].1@.slots[k].value matches Some(e) ==> (e.opt_id() matches Some(id)
                        ==> out@.dom().contains(id))),
            decreases me.len() - i,
        {
            proof {
                self.maps.lemma_at(i as int);
            }
            let m = &self.maps.table.entries[i].1;
            let ghost mid = me[i as int].0;
            let ghost se = m.slots.entries@;
            let ghost outer = out@.dom();
            let mut j: usize = 0;
            while j < m.slots.entries.len()
                invariant
                    self.sound(),
                    out.wf(),
                    m.wf(),
                    se == m.slots.entries@,
                    j <= se.len(),
                    self@.maps.dom().contains(mid),
                    self@.maps[mid] == m@,
                    outer.subset_of(out@.dom()),
                    forall|id: ElementId| #[trigger]
                        out@.dom().contains(id) ==> self@.held_directly(id),
                    forall|k: int|
                        0 <= k < j ==> ((#[trigger] se[k]).1@.value matches Some(e) ==> (
                        e.opt_id() matches Some(id) ==> out@.dom().contains(id))),
                decreases se.len() - j,
            {
                proof {
                    lemma_entry::<Vec<u8>, Slot>(se, j as int);
                }
                if let Some(e) = &m.slots.entries[j].1.value {
                    if let Some(id) = e.opt_id() {
                        out.insert(id, ());
                        proof {
                            assert(self@.maps[mid].slots.dom().contains(se[j as int].0@));
                        }
                    }
                }
                j += 1;
            }
            proof {
                assert forall|k: Seq<u8>| #[trigger] me[i as int].1@.slots.dom().contains(k) implies (
                me[i as int].1@.slots[k].value matches Some(e) ==> (e.opt_id() matches Some(id)
                    ==> out@.dom().contains(id))) by {
                    let n = crate::table::index_of::<Vec<u8>, Slot>(se, k);
                    assert(se[n].0@ == k);
                    lemma_entry::<Vec<u8>, Slot>(se, n);
                }
            }
            i += 1;
        }
        proof {
            assert forall|m: ElementId, k: Seq<u8>|
                self@.maps.dom().contains(m) && #[trigger] self@.maps[m].slots.dom().contains(
                    k,
                ) implies (self@.maps[m].slots[k].value matches Some(e) ==> (
            e.opt_id() matches Some(id) ==> out@.dom().contains(id))) by {
                let n = crate::table::index_of::<ElementId, LwwMap>(me, m);
                assert(me[n].0@ == m);
                self.maps.lemma_at(n);
                assert(me[n].1@.slots.dom().contains(k));
            }
        }
    }

    /// The ids live sequence nodes hold, added.
    fn hold_items(&self, out: &mut Table<ElementId, ()>)
        requires
            self.sound(),
            old(out).wf(),
            forall|id: ElementId| #[trigger]
                old(out)@.dom().contains(id) ==> self@.held_directly(id),
        ensures
            final(out).wf(),
            old(out)@.dom().subset_of(final(out)@.dom()),
            forall|id: ElementId| #[trigger]
                final(out)@.dom().contains(id) ==> self@.held_directly(id),
            forall|l: ElementId, s: Stamp|
                self@.lists.dom().contains(l) && #[trigger] self@.lists[l].is_live(s) ==> (
                self@.lists[l].items[s].value.opt_id() matches Some(id)
                    ==> final(out)@.dom().contains(id)),
    {
        let ghost le = self.lists.table.entries@;
        let mut i: usize = 0;
        while i < self.lists.table.entries.len()
            invariant
                self.sound(),
                out.wf(),
                le == self.lists.table.entries@,
                i <= le.len(),
                old(out)@.dom().subset_of(out@.dom()),
                forall|id: ElementId| #[trigger]
                    out@.dom().contains(id) ==> self@.held_directly(id),
                forall|j: int, s: Stamp|
                    0 <= j < i && #[trigger] le[j].1@.is_live(s) ==> (
                    le[j].1@.items[s].value.opt_id() matches Some(id) ==> out@.dom().contains(id)),
            decreases le.len() - i,
        {
            proof {
                self.lists.lemma_at(i as int);
            }
            let l = &self.lists.table.entries[i].1;
            let ghost lid = le[i as int].0;
            let ghost ne = l.nodes.entries@;
            let ghost outer = out@.dom();
            let mut j: usize = 0;
            while j < l.nodes.entries.len()
                invariant
                    self.sound(),
                    out.wf(),
                    l.wf(),
                    ne == l.nodes.entries@,
                    j <= ne.len(),
                    self@.lists.dom().contains(lid),
                    self@.lists[lid] == l@,
                    outer.subset_of(out@.dom()),
                    forall|id: ElementId| #[trigger]
                        out@.dom().contains(id) ==> self@.held_directly(id),
                    forall|k: int|
                        0 <= k < j && !(#[trigger] ne[k]).1.moved_away ==> (
                        ne[k].1.value@.opt_id() matches Some(id) ==> out@.dom().contains(id)),
                decreases ne.len() - j,
            {
                proof {
                    lemma_entry::<SeqKey, Node>(ne, j as int);
                }
                let node = &l.nodes.entries[j].1;
                if !node.moved_away {
                    if let Some(id) = node.value.opt_id() {
                        out.insert(id, ());
                        proof {
                            assert(self@.lists[lid].is_live(ne[j as int].0@));
                        }
                    }
                }
                j += 1;
            }
            proof {
                assert forall|s: Stamp| #[trigger] le[i as int].1@.is_live(s) implies (
                le[i as int].1@.items[s].value.opt_id() matches Some(id) ==> out@.dom().contains(
                    id,
                )) by {
                    let n = crate::table::index_of::<SeqKey, Node>(ne, s);
                    assert(ne[n].0@ == s);
                    lemma_entry::<SeqKey, Node>(ne, n);
                }
            }
            i += 1;
        }
        proof {
            assert forall|l: ElementId, s: Stamp|
                self@.lists.dom().contains(l) && #[trigger] self@.lists[l].is_live(s) implies (
            self@.lists[l].items[s].value.opt_id() matches Some(id) ==> out@.dom().contains(id)) by {
                let n = crate::table::index_of::<ElementId, List>(le, l);
                assert(le[n].0@ == l);
                self.lists.lemma_at(n);
                assert(le[n].1@.is_live(s));
            }
        }
    }

    /// Every id that is installed.
    fn installed_set(&self) -> (out: Table<ElementId, ()>)
        requires
            self.sound(),
        ensures
            out.wf(),
            forall|id: ElementId| #[trigger] out@.dom().contains(id) <==> self@.is_installed(id),
    {
        let held = self.held_set();
        let mut out = self.held_set();
        let ghost xe = self.xml_elements.table.entries@;
        let mut i: usize = 0;
        while i < self.xml_elements.table.entries.len()
            invariant
                self.sound(),
                held.wf(),
                out.wf(),
                xe == self.xml_elements.table.entries@,
                i <= xe.len(),
                forall|id: ElementId| #[trigger]
                    held@.dom().contains(id) <==> self@.held_directly(id),
                held@.dom().subset_of(out@.dom()),
                forall|id: ElementId| #[trigger]
                    out@.dom().contains(id) ==> self@.is_installed(id),
                forall|j: int|
                    0 <= j < i && self@.held_directly((#[trigger] xe[j]).0) ==> out@.dom().contains(
                        node_attrs_id(xe[j].0),
                    ) && out@.dom().contains(node_children_id(xe[j].0)),
            decreases xe.len() - i,
        {
            proof {
                self.xml_elements.lemma_at(i as int);
            }
            let x = self.xml_elements.table.entries[i].0;
            if held.contains_key(&x) {
                out.insert(XmlElement::attrs_id(x), ());
                out.insert(XmlElement::children_id(x), ());
                proof {
                    assert(self@.xml_elements.dom().contains(x));
                }
            }
            i += 1;
        }
        let ghost mid = out@.dom();
        let ghost fe = self.xml_fragments.table.entries@;
        let mut j: usize = 0;
        while j < self.xml_fragments.table.entries.len()
            invariant
                self.sound(),
                held.wf(),
                out.wf(),
                fe == self.xml_fragments.table.entries@,
                j <= fe.len(),
                forall|id: ElementId| #[trigger]
                    held@.dom().contains(id) <==> self@.held_directly(id),
                mid.subset_of(out@.dom()),
                forall|id: ElementId| #[trigger]
                    out@.dom().contains(id) ==> self@.is_installed(id),
                forall|k: int|
                    0 <= k < j && self@.held_directly((#[trigger] fe[k]).0) ==> out@.dom().contains(
                        node_children_id(fe[k].0),
                    ),
            decreases fe.len() - j,
        {
            proof {
                self.xml_fragments.lemma_at(j as int);
            }
            let x = self.xml_fragments.table.entries[j].0;
            if held.contains_key(&x) {
                out.insert(XmlFragment::children_id(x), ());
                proof {
                    assert(self@.xml_fragments.dom().contains(x));
                }
            }
            j += 1;
        }
        proof {
            assert forall|id: ElementId| self@.is_installed(id) implies out@.dom().contains(id) by {
                if self@.held_directly(id) {
                    assert(held@.dom().contains(id));
                } else if exists|x: ElementId| #[trigger]
                    self@.xml_elements.dom().contains(x) && self@.held_directly(x) && (
                    node_attrs_id(x) == id || node_children_id(x) == id) {
                    let x = choose|x: ElementId| #[trigger]
                        self@.xml_elements.dom().contains(x) && self@.held_directly(x) && (
                        node_attrs_id(x) == id || node_children_id(x) == id);
                    let n = crate::table::index_of::<ElementId, XmlElement>(xe, x);
                    assert(xe[n].0@ == x);
                    assert(mid.contains(id));
                } else {
                    let x = choose|x: ElementId| #[trigger]
                        self@.xml_fragments.dom().contains(x) && self@.held_directly(x)
                            && node_children_id(x) == id;
                    let n = crate::table::index_of::<ElementId, XmlFragment>(fe, x);
                    assert(fe[n].0@ == x);
                }
            }
        }
        out
    }

    /// Mark every container as displaced that is not installed.
    pub(crate) fn mark_displaced(&mut self)
        requires
            old(self).wf(),
        ensures
            final(self).wf(),
            final(self)@ == old(self)@.with_flags(),
    {
        let installed = self.installed_set();
        let ghost t = self@;
        displace_maps(&mut self.maps, &installed);
        displace_lists(&mut self.lists, &installed);
        displace_texts(&mut self.texts, &installed);
        displace_counters(&mut self.counters, &installed);
        displace_xml_elements(&mut self.xml_elements, &installed);
        displace_xml_fragments(&mut self.xml_fragments, &installed);
        proof {
            let w = t.with_flags();
            assert(self@.maps =~= w.maps);
            assert(self@.lists =~= w.lists);
            assert(self@.texts =~= w.texts);
            assert(self@.counters =~= w.counters);
            assert(self@.xml_elements =~= w.xml_elements);
            assert(self@.xml_fragments =~= w.xml_fragments);
            assert(self@ =~= w);
        }
    }
}

fn displace_maps(
    r: &mut crate::registry::Registry<LwwMap>,
    installed: &Table<ElementId, ()>,
)
    requires
        old(r).wf(),
        installed.wf(),
    ensures
        final(r).wf(),
        final(r)@ == Map::new(
            |id: ElementId| old(r)@.dom().contains(id),
            |id: ElementId|
                MapV {
                    displaced: old(r)@[id].displaced || !installed@.dom().contains(id),
                    ..old(r)@[id]
                },
        ),
{
    let ghost m = r@;
    let ghost ids = seq_keys(r.table.entries@);
    let n: usize = r.table.entries.len();
    let mut keys: Vec<ElementId> = Vec::new();
    let mut i: usize = 0;
    while i < n
        invariant
            n == r.table.entries@.len(),
            ids == seq_keys(r.table.entries@),
            i <= n,
            keys@ == ids.take(i as int),
        decreases n - i,
    {
        keys.push(r.table.entries[i].0);
        proof {
            assert(ids.take(i + 1) =~= ids.take(i as int).push(ids[i as int]));
        }
        i += 1;
    }
    proof {
        r.lemma_ids();
        assert(ids.take(i as int) =~= ids);
    }
    let mut j: usize = 0;
    while j < keys.len()
        invariant
            r.wf(),
            installed.wf(),
            keys@ == ids,
            ids.no_duplicates(),
            ids.to_set() == m.dom(),
            j <= keys@.len(),
            r@.dom() == m.dom(),
            forall|k: int|
                #![trigger ids[k]]
                0 <= k < ids.len() ==> r@[ids[k]] == if k < j {
                    MapV {
                        displaced: m[ids[k]].displaced || !installed@.dom().contains(ids[k]),
                        ..m[ids[k]]
                    }
                } else {
                    m[ids[k]]
                },
        decreases keys@.len() - j,
    {
        let id = keys[j];
        proof {
            assert(ids.to_set().contains(ids[j as int]));
            assert(ids[j as int] == id);
        }
        if !installed.contains_key(&id) {
            if let Some(x) = r.get_mut(id) {
                x.displace();
            }
            proof {
                assert(r@.dom() =~= m.dom());
            }
        }
        j += 1;
    }
    proof {
        let want = Map::new(
            |id: ElementId| m.dom().contains(id),
            |id: ElementId|
                MapV { displaced: m[id].displaced || !installed@.dom().contains(id), ..m[id] },
        );
        assert forall|id: ElementId| m.dom().contains(id) implies #[trigger] r@[id] == want[id] by {
            assert(ids.to_set().contains(id));
            let k = ids.index_of(id);
            assert(ids[k] == id);
        }
        assert(r@ =~= want);
    }
}

fn displace_lists(
    r: &mut crate::registry::Registry<List>,
    installed: &Table<ElementId, ()>,
)
    requires
        old(r).wf(),
        installed.wf(),
    ensures
        final(r).wf(),
        final(r)@ == Map::new(
            |id: ElementId| old(r)@.dom().contains(id),
            |id: ElementId|
                ListV {
                    displaced: old(r)@[id].displaced || !installed@.dom().contains(id),
                    ..old(r)@[id]
                },
        ),
{
    let ghost m = r@;
    let ghost ids = seq_keys(r.table.entries@);
    let n: usize = r.table.entries.len();
    let mut keys: Vec<ElementId> = Vec::new();
    let mut i: usize = 0;
    while i < n
        invariant
            n == r.table.entries@.len(),
            ids == seq_keys(r.table.entries@),
            i <= n,
            keys@ == ids.take(i as int),
        decreases n - i,
    {
        keys.push(r.table.entries[i].0);
        proof {
            assert(ids.take(i + 1) =~= ids.take(i as int).push(ids[i as int]));
        }
        i += 1;
    }
    proof {
        r.lemma_ids();
        assert(ids.take(i as int) =~= ids);
    }
    let mut j: usize = 0;
    while j < keys.len()
        invariant
            r.wf(),
            installed.wf(),
            keys@ == ids,
            ids.no_duplicates(),
            ids.to_set() == m.dom(),
            j <= keys@.len(),
            r@.dom() == m.dom(),
            forall|k: int|
                #![trigger ids[k]]
                0 <= k < ids.len() ==> r@[ids[k]] == if k < j {
                    ListV {
                        displaced: m[ids[k]].displaced || !installed@.dom().contains(ids[k]),
                        ..m[ids[k]]
                    }
                } else {
                    m[ids[k]]
                },
        decreases keys@.len() - j,
    {
        let id = keys[j];
        proof {
            assert(ids.to_set().contains(ids[j as int]));
            assert(ids[j as int] == id);
        }
        if !installed.contains_key(&id) {
            if let Some(x) = r.get_mut(id) {
                x.displace();
            }
            proof {
                assert(r@.dom() =~= m.dom());
            }
        }
        j += 1;
    }
    proof {
        let want = Map::new(
            |id: ElementId| m.dom().contains(id),
            |id: ElementId|
                ListV { displaced: m[id].displaced || !installed@.dom().contains(id), ..m[id] },
        );
        assert forall|id: ElementId| m.dom().contains(id) implies #[trigger] r@[id] == want[id] by {
            assert(ids.to_set().contains(id));
            let k = ids.index_of(id);
            assert(ids[k] == id);
        }
        assert(r@ =~= want);
    }
}

fn displace_texts(
    r: &mut crate::registry::Registry<crate::text::Text>,
    installed: &Table<ElementId, ()>,
)
    requires
        old(r).wf(),
        installed.wf(),
    ensures
        final(r).wf(),
        final(r)@ == Map::new(
            |id: ElementId| old(r)@.dom().contains(id),
            |id: ElementId|
                ListV {
                    displaced: old(r)@[id].displaced || !installed@.dom().contains(id),
                    ..old(r)@[id]
                },
        ),
{
    let ghost m = r@;
    let ghost ids = seq_keys(r.table.entries@);
    let n: usize = r.table.entries.len();
    let mut keys: Vec<ElementId> = Vec::new();
    let mut i: usize = 0;
    while i < n
        invariant
            n == r.table.entries@.len(),
            ids == seq_keys(r.table.entries@),
            i <= n,
            keys@ == ids.take(i as int),
        decreases n - i,
    {
        keys.push(r.table.entries[i].0);
        proof {
            assert(ids.take(i + 1) =~= ids.take(i as int).push(ids[i as int]));
        }
        i += 1;
    }
    proof {
        r.lemma_ids();
        assert(ids.take(i as int) =~= ids);
    }
    let mut j: usize = 0;
    while j < keys.len()
        invariant
            r.wf(),
            installed.wf(),
            keys@ == ids,
            ids.no_duplicates(),
            ids.to_set() == m.dom(),
            j <= keys@.len(),
            r@.dom() == m.dom(),
            forall|k: int|
                #![trigger ids[k]]
                0 <= k < ids.len() ==> r@[ids[k]] == if k < j {
                    ListV {
                        displaced: m[ids[k]].displaced || !installed@.dom().contains(ids[k]),
                        ..m[ids[k]]
                    }
                } else {
                    m[ids[k]]
                },
        decreases keys@.len() - j,
    {
        let id = keys[j];
        proof {
            assert(ids.to_set().contains(ids[j as int]));
            assert(ids[j as int] == id);
        }
        if !installed.contains_key(&id) {
            if let Some(x) = r.get_mut(id) {
                x.displace();
            }
            proof {
                assert(r@.dom() =~= m.dom());
            }
        }
        j += 1;
    }
    proof {
        let want = Map::new(
            |id: ElementId| m.dom().contains(id),
            |id: ElementId|
                ListV { displaced: m[id].displaced || !installed@.dom().contains(id), ..m[id] },
        );
        assert forall|id: ElementId| m.dom().contains(id) implies #[trigger] r@[id] == want[id] by {
            assert(ids.to_set().contains(id));
            let k = ids.index_of(id);
            assert(ids[k] == id);
        }
        assert(r@ =~= want);
    }
}

fn displace_counters(
    r: &mut crate::registry::Registry<crate::counter::Counter>,
    installed: &Table<ElementId, ()>,
)
    requires
        old(r).wf(),
        installed.wf(),
    ensures
        final(r).wf(),
        final(r)@ == Map::new(
            |id: ElementId| old(r)@.dom().contains(id),
            |id: ElementId|
                CounterV {
                    displaced: old(r)@[id].displaced || !installed@.dom().contains(id),
                    ..old(r)@[id]
                },
        ),
{
    let ghost m = r@;
    let ghost ids = seq_keys(r.table.entries@);
    let n: usize = r.table.entries.len();
    let mut keys: Vec<ElementId> = Vec::new();
    let mut i: usize = 0;
    while i < n
        invariant
            n == r.table.entries@.len(),
            ids == seq_keys(r.table.entries@),
            i <= n,
            keys@ == ids.take(i as int),
        decreases n - i,
    {
        keys.push(r.table.entries[i].0);
        proof {
            assert(ids.take(i + 1) =~= ids.take(i as int).push(ids[i as int]));
        }
        i += 1;
    }
    proof {
        r.lemma_ids();
        assert(ids.take(i as int) =~= ids);
    }
    let mut j: usize = 0;
    while j < keys.len()
        invariant
            r.wf(),
            installed.wf(),
            keys@ == ids,
            ids.no_duplicates(),
            ids.to_set() == m.dom(),
            j <= keys@.len(),
            r@.dom() == m.dom(),
            forall|k: int|
                #![trigger ids[k]]
                0 <= k < ids.len() ==> r@[ids[k]] == if k < j {
                    CounterV {
                        displaced: m[ids[k]].displaced || !installed@.dom().contains(ids[k]),
                        ..m[ids[k]]
                    }
                } else {
                    m[ids[k]]
                },
        decreases keys@.len() - j,
    {
        let id = keys[j];
        proof {
            assert(ids.to_set().contains(ids[j as int]));
            assert(ids[j as int] == id);
        }
        if !installed.contains_key(&id) {
            if let Some(x) = r.get_mut(id) {
                x.displace();
            }
            proof {
                assert(r@.dom() =~= m.dom());
            }
        }
        j += 1;
    }
    proof {
        let want = Map::new(
            |id: ElementId| m.dom().contains(id),
            |id: ElementId|
                CounterV { displaced: m[id].displaced || !installed@.dom().contains(id), ..m[id] },
        );
        assert forall|id: ElementId| m.dom().contains(id) implies #[trigger] r@[id] == want[id] by {
            assert(ids.to_set().contains(id));
            let k = ids.index_of(id);
            assert(ids[k] == id);
        }
        assert(r@ =~= want);
    }
}

fn displace_xml_elements(
    r: &mut crate::registry::Registry<XmlElement>,
    installed: &Table<ElementId, ()>,
)
    requires
        old(r).wf(),
        installed.wf(),
    ensures
        final(r).wf(),
        final(r)@ == Map::new(
            |id: ElementId| old(r)@.dom().contains(id),
            |id: ElementId|
                XmlElementV {
                    displaced: old(r)@[id].displaced || !installed@.dom().contains(id),
                    ..old(r)@[id]
                },
        ),
{
    let ghost m = r@;
    let ghost ids = seq_keys(r.table.entries@);
    let n: usize = r.table.entries.len();
    let mut keys: Vec<ElementId> = Vec::new();
    let mut i: usize = 0;
    while i < n
        invariant
            n == r.table.entries@.len(),
            ids == seq_keys(r.table.entries@),
            i <= n,
            keys@ == ids.take(i as int),
        decreases n - i,
    {
        keys.push(r.table.entries[i].0);
        proof {
            assert(ids.take(i + 1) =~= ids.take(i as int).push(ids[i as int]));
        }
        i += 1;
    }
    proof {
        r.lemma_ids();
        assert(ids.take(i as int) =~= ids);
    }
    let mut j: usize = 0;
    while j < keys.len()
        invariant
            r.wf(),
            installed.wf(),
            keys@ == ids,
            ids.no_duplicates(),
            ids.to_set() == m.dom(),
            j <= keys@.len(),
            r@.dom() == m.dom(),
            forall|k: int|
                #![trigger ids[k]]
                0 <= k < ids.len() ==> r@[ids[k]] == if k < j {
                    XmlElementV {
                        displaced: m[ids[k]].displaced || !installed@.dom().contains(ids[k]),
                        ..m[ids[k]]
                    }
                } else {
                    m[ids[k]]
                },
        decreases keys@.len() - j,
    {
        let id = keys[j];
        proof {
            assert(ids.to_set().contains(ids[j as int]));
            assert(ids[j as int] == id);
        }
        if !installed.contains_key(&id) {
            if let Some(x) = r.get_mut(id) {
                x.displaced = true;
            }
            proof {
                assert(r@.dom() =~= m.dom());
            }
        }
        j += 1;
    }
    proof {
        let want = Map::new(
            |id: ElementId| m.dom().contains(id),
            |id: ElementId|
                XmlElementV { displaced: m[id].displaced || !installed@.dom().contains(id), ..m[id] },
        );
        assert forall|id: ElementId| m.dom().contains(id) implies #[trigger] r@[id] == want[id] by {
            assert(ids.to_set().contains(id));
            let k = ids.index_of(id);
            assert(ids[k] == id);
        }
        assert(r@ =~= want);
    }
}

fn displace_xml_fragments(
    r: &mut crate::registry::Registry<XmlFragment>,
    installed: &Table<ElementId, ()>,
)
    requires
        old(r).wf(),
        installed.wf(),
    ensures
        final(r).wf(),
        final(r)@ == Map::new(
            |id: ElementId| old(r)@.dom().contains(id),
            |id: ElementId|
                XmlFragment {
                    displaced: old(r)@[id].displaced || !installed@.dom().contains(id)
                },
        ),
{
    let ghost m = r@;
    let ghost ids = seq_keys(r.table.entries@);
    let n: usize = r.table.entries.len();
    let mut keys: Vec<ElementId> = Vec::new();
    let mut i: usize = 0;
    while i < n
        invariant
            n == r.table.entries@.len(),
            ids == seq_keys(r.table.entries@),
            i <= n,
            keys@ == ids.take(i as int),
        decreases n - i,
    {
        keys.push(r.table.entries[i].0);
        proof {
            assert(ids.take(i + 1) =~= ids.take(i as int).push(ids[i as int]));
        }
        i += 1;
    }
    proof {
        r.lemma_ids();
        assert(ids.take(i as int) =~= ids);
    }
    let mut j: usize = 0;
    while j < keys.len()
        invariant
            r.wf(),
            installed.wf(),
            keys@ == ids,
            ids.no_duplicates(),
            ids.to_set() == m.dom(),
            j <= keys@.len(),
            r@.dom() == m.dom(),
            forall|k: int|
                #![trigger ids[k]]
                0 <= k < ids.len() ==> r@[ids[k]] == if k < j {
                    XmlFragment {
                        displaced: m[ids[k]].displaced || !installed@.dom().contains(ids[k])
                    }
                } else {
                    m[ids[k]]
                },
        decreases keys@.len() - j,
    {
        let id = keys[j];
        proof {
            assert(ids.to_set().contains(ids[j as int]));
            assert(ids[j as int] == id);
        }
        if !installed.contains_key(&id) {
            if let Some(x) = r.get_mut(id) {
                x.displaced = true;
            }
            proof {
                assert(r@.dom() =~= m.dom());
            }
        }
        j += 1;
    }
    proof {
        let want = Map::new(
            |id: ElementId| m.dom().contains(id),
            |id: ElementId|
                XmlFragment { displaced: m[id].displaced || !installed@.dom().contains(id) },
        );
        assert forall|id: ElementId| m.dom().contains(id) implies #[trigger] r@[id] == want[id] by {
            assert(ids.to_set().contains(id));
            let k = ids.index_of(id);
            assert(ids[k] == id);
        }
        assert(r@ =~= want);
    }
}

} // verus!
