//! What a document shows of its annotations, its grants and its containers.

use crate::acl::{AclRecord, AclRecordV, AclTuple, AclTupleV};
use crate::annot::{
    AclEntry, AclEntryV, Payload, PayloadV, RangedElement, RangedElementV, RangedEntry,
};
use crate::bytes::bytes_eq;
use crate::clientid::ClientId;
use crate::doc::Document;
use crate::element::{opt_element, Element, ElementV};
use crate::elementid::ElementId;
use crate::identity::{payload_id, spec_payload_id};
use crate::list::List;
use crate::map::LwwMap;
use crate::rebuild::ids_of;
use crate::registry::{Held, Registry};
use crate::table::{index_of, lemma_entry, lemma_ordered, ordered, seq_keys, Key, Table};
use crate::text::Text;
use crate::tree::{Tree, TreeV};
use vstd::prelude::*;
use vstd::slice::slice_to_vec;

verus! {

// --- annotations ---

pub open spec fn ranged_views(r: Seq<RangedElement>) -> Seq<RangedElementV> {
    r.map_values(|x: RangedElement| x@)
}

impl TreeV {
    /// Whether an annotation is live, and has an end in `seq` if that is asked.
    pub open spec fn ranged_shown(self, id: ElementId, seq: Option<ElementId>) -> bool {
        let e = self.ranged[id];
        !e.tombstone && (seq matches Some(s) ==> e.start.seq == s || e.end.seq == s)
    }

    /// The live annotations among `ids`, as a reader sees them.
    pub open spec fn ranged_list(self, ids: Seq<ElementId>, seq: Option<ElementId>) -> Seq<
        RangedElementV,
    >
        decreases ids.len(),
    {
        if ids.len() == 0 {
            Seq::empty()
        } else {
            let rest = self.ranged_list(ids.drop_last(), seq);
            if self.ranged_shown(ids.last(), seq) {
                rest.push(self.ranged[ids.last()].shown(ids.last()))
            } else {
                rest
            }
        }
    }

    /// The container registered under an id.
    pub open spec fn sequence_or_map(self, id: ElementId) -> Option<ElementV> {
        if self.maps.dom().contains(id) {
            Some(ElementV::LwwMap(id))
        } else if self.lists.dom().contains(id) {
            Some(ElementV::List(id))
        } else if self.texts.dom().contains(id) {
            Some(ElementV::Text(id))
        } else {
            None
        }
    }

    /// The sequences each annotation is anchored in, deleted ones too.
    pub open spec fn own_anchors(self) -> Map<ElementId, (ElementId, ElementId)> {
        Map::new(
            |id: ElementId| self.ranged.dom().contains(id),
            |id: ElementId| (self.ranged[id].start.seq, self.ranged[id].end.seq),
        )
    }

    /// The anchors of annotations, and of what is registered beneath the payloads of
    /// those among `ids`.
    pub open spec fn anchors_with(
        self,
        live: Set<ElementId>,
        ids: Seq<ElementId>,
    ) -> Map<ElementId, (ElementId, ElementId)>
        decreases ids.len(),
    {
        if ids.len() == 0 {
            self.own_anchors()
        } else {
            let rest = self.anchors_with(live, ids.drop_last());
            let id = ids.last();
            match self.ranged[id].payload {
                PayloadV::Composite { kind } => spread(
                    rest,
                    self.subtree(live, spec_payload_id(id, kind)),
                    self.own_anchors()[id],
                ),
                _ => rest,
            }
        }
    }

    /// Every container and counter the replica keeps.
    pub open spec fn all_containers(self) -> Set<ElementId> {
        self.maps.dom().union(self.lists.dom()).union(self.texts.dom()).union(
            self.counters.dom(),
        ).union(self.xml_elements.dom()).union(self.xml_fragments.dom())
    }
}

/// `m` with one value for every key in `keys`.
pub open spec fn spread(
    m: Map<ElementId, (ElementId, ElementId)>,
    keys: Set<ElementId>,
    v: (ElementId, ElementId),
) -> Map<ElementId, (ElementId, ElementId)> {
    Map::new(
        |x: ElementId| m.dom().contains(x) || keys.contains(x),
        |x: ElementId|
            if keys.contains(x) {
                v
            } else {
                m[x]
            },
    )
}

impl Document {
    /// A live annotation.
    pub fn ranged_element(&self, id: ElementId) -> (r: Option<RangedElement>)
        requires
            self.wf(),
        ensures
            match r {
                Some(e) => self@.tree.ranged.dom().contains(id) && !self@.tree.ranged[id].tombstone
                    && e@ == self@.tree.ranged[id].shown(id),
                None => !self@.tree.ranged.dom().contains(id) || self@.tree.ranged[id].tombstone,
            },
    {
        match self.tree.ranged.get(id) {
            Some(e) => if e.tombstone {
                None
            } else {
                Some(e.show(id))
            },
            None => None,
        }
    }

    /// The container that holds a live annotation's payload, if it is not a scalar.
    pub fn ranged_payload(&self, id: ElementId) -> (r: Option<Element>)
        requires
            self.wf(),
        ensures
            opt_element(r) == if self@.tree.ranged.dom().contains(id)
                && !self@.tree.ranged[id].tombstone {
                match self@.tree.ranged[id].payload {
                    PayloadV::Composite { kind } => self@.tree.sequence_or_map(
                        spec_payload_id(id, kind),
                    ),
                    _ => None::<ElementV>,
                }
            } else {
                None::<ElementV>
            },
    {
        match self.tree.ranged.get(id) {
            Some(e) => {
                if e.tombstone {
                    return None;
                }
                match &e.payload {
                    Payload::Composite { kind } => self.tree.container_element(
                        payload_id(id, *kind),
                    ),
                    Payload::Scalar { .. } => None,
                }
            },
            None => None,
        }
    }

    /// Every live annotation, in id order.
    pub fn ranged_elements(&self) -> (out: Vec<RangedElement>)
        requires
            self.wf(),
        ensures
            ranged_views(out@) == self@.tree.ranged_list(
                ordered::<ElementId>(self@.tree.ranged.dom()),
                None,
            ),
    {
        self.tree.ranged_where(None)
    }

    /// Every live annotation with an end in a sequence, in id order.
    pub fn ranged_on(&self, seq: ElementId) -> (out: Vec<RangedElement>)
        requires
            self.wf(),
        ensures
            ranged_views(out@) == self@.tree.ranged_list(
                ordered::<ElementId>(self@.tree.ranged.dom()),
                Some(seq),
            ),
    {
        self.tree.ranged_where(Some(seq))
    }

    /// The sequences each annotation is anchored in, deleted ones too, under its id and
    /// under everything registered beneath its payload.
    pub fn ranged_anchors(&self) -> (out: Table<ElementId, (ElementId, ElementId)>)
        requires
            self.wf(),
        ensures
            out.wf(),
            out@ == self@.tree.anchors_with(
                self@.tree.paths().dom(),
                ordered::<ElementId>(self@.tree.ranged.dom()),
            ),
    {
        let t = &self.tree;
        let mut out = t.own_anchor_table();
        let live = t.element_paths();
        let ghost e = t.ranged.table.entries@;
        let ghost q = seq_keys(e);
        let mut i: usize = 0;
        proof {
            t.ranged.lemma_ids();
            assert(q.take(0) =~= Seq::empty());
        }
        while i < t.ranged.table.entries.len()
            invariant
                t.wf(),
                live.wf(),
                out.wf(),
                e == t.ranged.table.entries@,
                q == seq_keys(e),
                i <= e.len(),
                out@ == t@.anchors_with(live@.dom(), q.take(i as int)),
            decreases e.len() - i,
        {
            let (id, r) = &t.ranged.table.entries[i];
            proof {
                t.ranged.lemma_at(i as int);
                assert(q.take(i + 1).drop_last() =~= q.take(i as int));
                assert(q.take(i + 1).last() == *id);
            }
            if let Payload::Composite { kind } = &r.payload {
                let sub = t.registered_subtree(&live, payload_id(*id, *kind));
                spread_over(&mut out, &sub, (r.start.seq, r.end.seq));
            }
            i += 1;
        }
        proof {
            assert(q.take(i as int) =~= q);
        }
        out
    }

    /// Every container and counter the replica keeps, whether or not the live tree reaches
    /// it, in id order.
    pub fn container_ids(&self) -> (out: Vec<ElementId>)
        requires
            self.wf(),
        ensures
            out@ == ordered::<ElementId>(self@.tree.all_containers()),
    {
        let t = &self.tree;
        let mut all: Table<ElementId, ()> = Table::new();
        add_ids(&t.maps, &mut all);
        add_ids(&t.lists, &mut all);
        add_ids(&t.texts, &mut all);
        add_ids(&t.counters, &mut all);
        add_ids(&t.xml_elements, &mut all);
        add_ids(&t.xml_fragments, &mut all);
        proof {
            assert(all@.dom() =~= t@.all_containers());
        }
        ids_of(&all)
    }
}

/// The ids a registry has, added.
fn add_ids<T: Held>(r: &Registry<T>, out: &mut Table<ElementId, ()>)
    requires
        r.wf(),
        old(out).wf(),
    ensures
        final(out).wf(),
        final(out)@.dom() == old(out)@.dom().union(r@.dom()),
{
    let ghost e = r.table.entries@;
    let ghost start = out@.dom();
    let mut i: usize = 0;
    proof {
        assert(r@.dom() =~= r.table@.dom());
    }
    while i < r.table.entries.len()
        invariant
            r.wf(),
            out.wf(),
            e == r.table.entries@,
            start == old(out)@.dom(),
            r@.dom() == r.table@.dom(),
            i <= e.len(),
            start.subset_of(out@.dom()),
            forall|x: ElementId| #[trigger]
                out@.dom().contains(x) ==> start.contains(x) || r@.dom().contains(x),
            forall|j: int| 0 <= j < i ==> out@.dom().contains((#[trigger] e[j]).0),
        decreases e.len() - i,
    {
        proof {
            lemma_entry::<ElementId, T>(e, i as int);
        }
        out.insert(r.table.entries[i].0, ());
        i += 1;
    }
    proof {
        assert forall|x: ElementId| r@.dom().contains(x) implies out@.dom().contains(x) by {
            let j = index_of::<ElementId, T>(e, x);
            assert(e[j].0@ == x);
        }
        assert(out@.dom() =~= start.union(r@.dom()));
    }
}

/// One value for every key in `keys`.
fn spread_over(
    out: &mut Table<ElementId, (ElementId, ElementId)>,
    keys: &Table<ElementId, ()>,
    v: (ElementId, ElementId),
)
    requires
        old(out).wf(),
        keys.wf(),
    ensures
        final(out).wf(),
        final(out)@ == spread(old(out)@, keys@.dom(), v),
{
    let ghost e = keys.entries@;
    let ghost start = out@;
    let mut i: usize = 0;
    while i < keys.entries.len()
        invariant
            out.wf(),
            keys.wf(),
            e == keys.entries@,
            start == old(out)@,
            i <= e.len(),
            forall|x: ElementId| #[trigger]
                out@.dom().contains(x) ==> start.dom().contains(x) || keys@.dom().contains(x),
            forall|x: ElementId| #[trigger] start.dom().contains(x) ==> out@.dom().contains(x),
            forall|x: ElementId| #[trigger]
                out@.dom().contains(x) ==> (out@[x] == v && keys@.dom().contains(x)) || (
                start.dom().contains(x) && out@[x] == start[x]),
            forall|j: int|
                0 <= j < i ==> out@.dom().contains((#[trigger] e[j]).0) && out@[e[j].0] == v,
        decreases e.len() - i,
    {
        proof {
            lemma_entry::<ElementId, ()>(e, i as int);
        }
        out.insert(keys.entries[i].0, v);
        i += 1;
    }
    proof {
        let want = spread(start, keys@.dom(), v);
        assert forall|x: ElementId| want.dom().contains(x) implies out@.dom().contains(x)
            && out@[x] == want[x] by {
            if keys@.dom().contains(x) {
                let j = index_of::<ElementId, ()>(e, x);
                assert(e[j].0@ == x);
            }
        }
        assert(out@ =~= want);
    }
}

impl Tree {
    pub(crate) fn container_element(&self, id: ElementId) -> (r: Option<Element>)
        requires
            self.wf(),
        ensures
            opt_element(r) == self@.sequence_or_map(id),
    {
        if self.maps.contains(id) {
            Some(Element::LwwMap(id))
        } else if self.lists.contains(id) {
            Some(Element::List(id))
        } else if self.texts.contains(id) {
            Some(Element::Text(id))
        } else {
            None
        }
    }

    fn own_anchor_table(&self) -> (out: Table<ElementId, (ElementId, ElementId)>)
        requires
            self.wf(),
        ensures
            out.wf(),
            out@ == self@.own_anchors(),
    {
        let mut out: Table<ElementId, (ElementId, ElementId)> = Table::new();
        let ghost e = self.ranged.table.entries@;
        let ghost want = self@.own_anchors();
        let mut i: usize = 0;
        while i < self.ranged.table.entries.len()
            invariant
                self.wf(),
                out.wf(),
                e == self.ranged.table.entries@,
                want == self@.own_anchors(),
                i <= e.len(),
                forall|x: ElementId| #[trigger]
                    out@.dom().contains(x) ==> want.dom().contains(x) && out@[x] == want[x],
                forall|j: int| 0 <= j < i ==> out@.dom().contains((#[trigger] e[j]).0),
            decreases e.len() - i,
        {
            proof {
                self.ranged.lemma_at(i as int);
            }
            let (id, r) = &self.ranged.table.entries[i];
            out.insert(*id, (r.start.seq, r.end.seq));
            i += 1;
        }
        proof {
            assert forall|x: ElementId| want.dom().contains(x) implies out@.dom().contains(x) by {
                let j = index_of::<ElementId, RangedEntry>(e, x);
                assert(e[j].0@ == x);
            }
            assert(out@ =~= want);
        }
        out
    }

    fn ranged_where(&self, seq: Option<ElementId>) -> (out: Vec<RangedElement>)
        requires
            self.wf(),
        ensures
            ranged_views(out@) == self@.ranged_list(
                ordered::<ElementId>(self@.ranged.dom()),
                seq,
            ),
    {
        let ghost e = self.ranged.table.entries@;
        let ghost q = seq_keys(e);
        let mut out: Vec<RangedElement> = Vec::new();
        let mut i: usize = 0;
        proof {
            self.ranged.lemma_ids();
            assert(q.take(0) =~= Seq::empty());
            assert(ranged_views(out@) =~= Seq::empty());
        }
        while i < self.ranged.table.entries.len()
            invariant
                self.wf(),
                e == self.ranged.table.entries@,
                q == seq_keys(e),
                i <= e.len(),
                ranged_views(out@) == self@.ranged_list(q.take(i as int), seq),
            decreases e.len() - i,
        {
            let (id, r) = &self.ranged.table.entries[i];
            proof {
                self.ranged.lemma_at(i as int);
                assert(q.take(i + 1).drop_last() =~= q.take(i as int));
                assert(q.take(i + 1).last() == *id);
            }
            let asked = match seq {
                Some(s) => r.start.seq == s || r.end.seq == s,
                None => true,
            };
            if !r.tombstone && asked {
                let ghost before = ranged_views(out@);
                let shown = r.show(*id);
                let ghost v = shown@;
                out.push(shown);
                proof {
                    assert(ranged_views(out@) =~= before.push(v));
                }
            }
            i += 1;
        }
        proof {
            assert(q.take(i as int) =~= q);
        }
        out
    }
}

// --- grants ---

pub open spec fn tuple_views(t: Seq<AclTuple>) -> Seq<AclTupleV> {
    t.map_values(|x: AclTuple| x@)
}

pub open spec fn record_views(t: Seq<AclRecord>) -> Seq<AclRecordV> {
    t.map_values(|x: AclRecord| x@)
}

impl AclEntryV {
    /// The grant as a reader sees it.
    pub open spec fn tuple(self, id: ElementId) -> AclTupleV {
        AclTupleV {
            id,
            subject: self.subject,
            grant: self.grant,
            effect: self.effect,
            path: self.path,
            grantor: self.grantor,
        }
    }

    /// The grant with who revoked it, in order.
    pub open spec fn record(self, id: ElementId) -> AclRecordV {
        AclRecordV {
            tuple: self.tuple(id),
            revoked_by: ordered::<ClientId>(self.revokers),
        }
    }

    pub open spec fn is_revoked(self) -> bool {
        self.revokers != Set::<ClientId>::empty()
    }
}

impl AclEntry {
    fn tuple(&self, id: ElementId) -> (t: AclTuple)
        ensures
            t@ == self@.tuple(id),
    {
        AclTuple {
            id,
            subject: self.subject.clone(),
            grant: self.grant.clone(),
            effect: self.effect,
            path: slice_to_vec(self.path.as_slice()),
            grantor: self.grantor,
        }
    }

    fn record(&self, id: ElementId) -> (r: AclRecord)
        requires
            self.revokers.wf(),
        ensures
            r@ == self@.record(id),
    {
        let ghost e = self.revokers.entries@;
        let ghost q = seq_keys(e);
        let mut revoked_by: Vec<ClientId> = Vec::new();
        let mut i: usize = 0;
        while i < self.revokers.entries.len()
            invariant
                e == self.revokers.entries@,
                q == seq_keys(e),
                i <= e.len(),
                revoked_by@ == q.take(i as int),
            decreases e.len() - i,
        {
            revoked_by.push(self.revokers.entries[i].0);
            i += 1;
            proof {
                assert(revoked_by@ =~= q.take(i as int));
            }
        }
        proof {
            assert(q.take(i as int) =~= q);
            lemma_ordered::<ClientId, ()>(e);
        }
        AclRecord { tuple: self.tuple(id), revoked_by }
    }

    pub(crate) fn is_revoked(&self) -> (b: bool)
        requires
            self.revokers.wf(),
        ensures
            b == self@.is_revoked(),
    {
        proof {
            if self.revokers.entries@.len() > 0 {
                lemma_entry::<ClientId, ()>(self.revokers.entries@, 0);
                assert(self.revokers@.dom().contains(self.revokers.entries@[0].0));
            } else {
                assert(self.revokers@.dom() =~= Set::empty());
            }
        }
        self.revokers.entries.len() > 0
    }
}

impl TreeV {
    /// The live grants among `ids`, on one path if that is asked.
    pub open spec fn tuple_list(self, ids: Seq<ElementId>, path: Option<Seq<u8>>) -> Seq<AclTupleV>
        decreases ids.len(),
    {
        if ids.len() == 0 {
            Seq::empty()
        } else {
            let rest = self.tuple_list(ids.drop_last(), path);
            let e = self.acl[ids.last()];
            if !e.is_revoked() && (path matches Some(p) ==> e.path == p) {
                rest.push(e.tuple(ids.last()))
            } else {
                rest
            }
        }
    }

    /// The grants among `ids` with who revoked each.
    pub open spec fn record_list(self, ids: Seq<ElementId>) -> Seq<AclRecordV> {
        ids.map_values(|id: ElementId| self.acl[id].record(id))
    }
}

impl Document {
    /// A live grant.
    pub fn acl_tuple(&self, id: ElementId) -> (r: Option<AclTuple>)
        requires
            self.wf(),
        ensures
            match r {
                Some(t) => self@.tree.acl.dom().contains(id) && !self@.tree.acl[id].is_revoked()
                    && t@ == self@.tree.acl[id].tuple(id),
                None => !self@.tree.acl.dom().contains(id) || self@.tree.acl[id].is_revoked(),
            },
    {
        match self.tree.acl.get(id) {
            Some(e) => if e.is_revoked() {
                None
            } else {
                Some(e.tuple(id))
            },
            None => None,
        }
    }

    /// Every grant, revoked ones too, with who revoked it, in id order.
    pub fn acl_records(&self) -> (out: Vec<AclRecord>)
        requires
            self.wf(),
        ensures
            record_views(out@) == self@.tree.record_list(
                ordered::<ElementId>(self@.tree.acl.dom()),
            ),
    {
        let t = &self.tree;
        let ghost e = t.acl.table.entries@;
        let ghost q = seq_keys(e);
        let mut out: Vec<AclRecord> = Vec::new();
        let mut i: usize = 0;
        proof {
            t.acl.lemma_ids();
        }
        while i < t.acl.table.entries.len()
            invariant
                t.wf(),
                e == t.acl.table.entries@,
                q == seq_keys(e),
                i <= e.len(),
                out@.len() == i,
                forall|j: int|
                    0 <= j < i ==> (#[trigger] out@[j])@ == t@.acl[q[j]].record(q[j]),
            decreases e.len() - i,
        {
            proof {
                t.acl.lemma_at(i as int);
            }
            let (id, a) = &t.acl.table.entries[i];
            out.push(a.record(*id));
            i += 1;
        }
        proof {
            assert(record_views(out@) =~= t@.record_list(q));
        }
        out
    }

    /// Every live grant, in id order.
    pub fn acl_tuples(&self) -> (out: Vec<AclTuple>)
        requires
            self.wf(),
        ensures
            tuple_views(out@) == self@.tree.tuple_list(
                ordered::<ElementId>(self@.tree.acl.dom()),
                None,
            ),
    {
        self.tree.tuples_where(None)
    }

    /// Every live grant on exactly this path, in id order.
    pub fn acl_on(&self, path: &[u8]) -> (out: Vec<AclTuple>)
        requires
            self.wf(),
        ensures
            tuple_views(out@) == self@.tree.tuple_list(
                ordered::<ElementId>(self@.tree.acl.dom()),
                Some(path@),
            ),
    {
        self.tree.tuples_where(Some(path))
    }
}

impl Tree {
    fn tuples_where(&self, path: Option<&[u8]>) -> (out: Vec<AclTuple>)
        requires
            self.wf(),
        ensures
            tuple_views(out@) == self@.tuple_list(
                ordered::<ElementId>(self@.acl.dom()),
                match path {
                    Some(p) => Some(p@),
                    None => None,
                },
            ),
    {
        let ghost asked: Option<Seq<u8>> = match path {
            Some(p) => Some(p@),
            None => None,
        };
        let ghost e = self.acl.table.entries@;
        let ghost q = seq_keys(e);
        let mut out: Vec<AclTuple> = Vec::new();
        let mut i: usize = 0;
        proof {
            self.acl.lemma_ids();
            assert(q.take(0) =~= Seq::empty());
            assert(tuple_views(out@) =~= Seq::empty());
        }
        while i < self.acl.table.entries.len()
            invariant
                self.wf(),
                asked == match path {
                    Some(p) => Some(p@),
                    None => None,
                },
                e == self.acl.table.entries@,
                q == seq_keys(e),
                i <= e.len(),
                tuple_views(out@) == self@.tuple_list(q.take(i as int), asked),
            decreases e.len() - i,
        {
            let (id, a) = &self.acl.table.entries[i];
            proof {
                self.acl.lemma_at(i as int);
                assert(q.take(i + 1).drop_last() =~= q.take(i as int));
                assert(q.take(i + 1).last() == *id);
            }
            let on = match path {
                Some(p) => bytes_eq(a.path.as_slice(), p),
                None => true,
            };
            if !a.is_revoked() && on {
                let ghost before = tuple_views(out@);
                let t = a.tuple(*id);
                let ghost v = t@;
                out.push(t);
                proof {
                    assert(tuple_views(out@) =~= before.push(v));
                }
            }
            i += 1;
        }
        proof {
            assert(q.take(i as int) =~= q);
        }
        out
    }
}

} // verus!
