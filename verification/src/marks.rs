//! Marks: what the named annotations over a character add up to.
//!
//! A mark is an annotation with a name; no character stores marks. The marks on a
//! character are computed from the live annotations whose span covers it, combined for
//! each name as the schema declares: the latest one's presence, the latest one's value, or
//! every instance.

use crate::anchor::{RelativePosition, Side};
use crate::annot::{Payload, PayloadV, RangedEntry, RangedEntryV};
use crate::doc::{DocV, Document};
use crate::elementid::ElementId;
use crate::list_laws::{grounded, law_position_resolves_to_its_index};
use crate::ranged::RangeAnchor;
use crate::scalar::{Scalar, ScalarV};
use crate::schema::{MarkFlavor, SchemaV};
use crate::sequence::{list_live, position_at, resolved};
use crate::stamp::{stamp_lt, Stamp};
use crate::table::{lemma_entry, lemma_ordered, lemma_ordered_exists, ordered, seq_keys, Key, Table};
use crate::tree::{Tree, TreeV};
use vstd::prelude::*;
use vstd::slice::slice_to_vec;

verus! {

/// The state of one mark name on a character.
#[derive(PartialEq, Eq, Debug)]
pub enum MarkState {
    /// Present or absent, as the latest covering annotation says.
    Boolean(bool),
    /// The latest covering annotation's value.
    Value(Scalar),
    /// Every covering annotation, by id.
    Object(Vec<ElementId>),
}

/// A mark state, by value.
pub enum MarkStateV {
    Boolean(bool),
    Value(ScalarV),
    Object(Seq<ElementId>),
}

impl View for MarkState {
    type V = MarkStateV;

    open spec fn view(&self) -> MarkStateV {
        match *self {
            MarkState::Boolean(b) => MarkStateV::Boolean(b),
            MarkState::Value(s) => MarkStateV::Value(s@),
            MarkState::Object(ids) => MarkStateV::Object(ids@),
        }
    }
}

/// A mark name on a character, and its state.
#[derive(PartialEq, Eq, Debug)]
pub struct ResolvedMark {
    pub name: Vec<u8>,
    pub state: MarkState,
}

/// A resolved mark, by value.
pub struct ResolvedMarkV {
    pub name: Seq<u8>,
    pub state: MarkStateV,
}

impl View for ResolvedMark {
    type V = ResolvedMarkV;

    open spec fn view(&self) -> ResolvedMarkV {
        ResolvedMarkV { name: self.name@, state: self.state@ }
    }
}

pub open spec fn marks_view(m: Seq<ResolvedMark>) -> Seq<ResolvedMarkV> {
    m.map_values(|x: ResolvedMark| x@)
}

// --- what covers a character ---

impl TreeV {
    /// Where a position is in a text or a list: nowhere until what it is bound to arrives.
    pub open spec fn position_in(self, seq: ElementId, pos: RelativePosition) -> Option<nat> {
        if self.texts.dom().contains(seq) {
            resolved(self.texts[seq], pos)
        } else if self.lists.dom().contains(seq) {
            resolved(self.lists[seq], pos)
        } else {
            None
        }
    }

    /// Whether an annotation within one sequence covers a character of it.
    pub open spec fn span_covers(self, e: RangedEntryV, seq: ElementId, index: nat) -> bool {
        e.start.seq == seq && e.end.seq == seq && match (
            self.position_in(seq, e.start.pos),
            self.position_in(seq, e.end.pos),
        ) {
            (Some(start), Some(end)) => start <= index < end,
            _ => false,
        }
    }

    /// Whether an annotation is a live mark of this name on a character.
    pub open spec fn marks(self, id: ElementId, seq: ElementId, index: nat, name: Seq<u8>) -> bool {
        let e = self.ranged[id];
        !e.tombstone && e.name == Some(name) && self.span_covers(e, seq, index)
    }

    /// The marks of one name on a character, of those among `ids`.
    pub open spec fn covering(
        self,
        ids: Seq<ElementId>,
        seq: ElementId,
        index: nat,
        name: Seq<u8>,
    ) -> Seq<ElementId>
        decreases ids.len(),
    {
        if ids.len() == 0 {
            Seq::empty()
        } else {
            let rest = self.covering(ids.drop_last(), seq, index, name);
            if self.marks(ids.last(), seq, index, name) {
                rest.push(ids.last())
            } else {
                rest
            }
        }
    }

    /// The marks of one name on a character, in id order.
    pub open spec fn marks_named(self, seq: ElementId, index: nat, name: Seq<u8>) -> Seq<ElementId> {
        self.covering(ordered::<ElementId>(self.ranged.dom()), seq, index, name)
    }

    /// The value of the latest of some annotations, with its stamp. One whose payload is a
    /// container has no say.
    pub open spec fn latest_scalar(self, ids: Seq<ElementId>) -> Option<(ScalarV, Stamp)>
        decreases ids.len(),
    {
        if ids.len() == 0 {
            None
        } else {
            let best = self.latest_scalar(ids.drop_last());
            match (self.ranged[ids.last()].payload, best) {
                (PayloadV::Composite { .. }, _) => best,
                (PayloadV::Scalar { value, stamp }, None) => Some((value, stamp)),
                (PayloadV::Scalar { value, stamp }, Some((_, s))) => if stamp_lt(stamp, s) {
                    best
                } else {
                    Some((value, stamp))
                },
            }
        }
    }

    /// What the marks of one name add up to.
    pub open spec fn combined(
        self,
        flavor: Option<MarkFlavor>,
        ids: Seq<ElementId>,
    ) -> MarkStateV {
        match flavor {
            Some(MarkFlavor::Boolean) => MarkStateV::Boolean(
                match self.latest_scalar(ids) {
                    Some((ScalarV::Bool(b), _)) => b,
                    _ => true,
                },
            ),
            Some(MarkFlavor::Value) => MarkStateV::Value(
                match self.latest_scalar(ids) {
                    Some((value, _)) => value,
                    None => ScalarV::Null,
                },
            ),
            _ => MarkStateV::Object(ids),
        }
    }
}

/// The flavor a schema declares for a name, if there is a schema.
pub open spec fn flavor_of(schema: Option<SchemaV>, name: Seq<u8>) -> Option<MarkFlavor> {
    match schema {
        Some(s) => s.flavor(name),
        None => None,
    }
}

impl DocV {
    /// The names of the marks on a character.
    pub open spec fn names_at(self, seq: ElementId, index: nat) -> Set<Seq<u8>> {
        Set::new(|name: Seq<u8>| self.tree.marks_named(seq, index, name).len() > 0)
    }

    /// The marks of some names on a character. One that is off is left out.
    pub open spec fn resolved_marks(
        self,
        names: Seq<Seq<u8>>,
        seq: ElementId,
        index: nat,
    ) -> Seq<ResolvedMarkV>
        decreases names.len(),
    {
        if names.len() == 0 {
            Seq::empty()
        } else {
            let rest = self.resolved_marks(names.drop_last(), seq, index);
            let name = names.last();
            let state = self.tree.combined(
                flavor_of(self.schema, name),
                self.tree.marks_named(seq, index, name),
            );
            if state == MarkStateV::Boolean(false) {
                rest
            } else {
                rest.push(ResolvedMarkV { name, state })
            }
        }
    }
}

// --- reading ---

impl Tree {
    fn resolve_index(&self, seq: ElementId, pos: &RelativePosition) -> (r: Option<usize>)
        requires
            self.wf(),
        ensures
            match self@.position_in(seq, *pos) {
                Some(n) => r matches Some(m) && m == n,
                None => r is None,
            },
    {
        if let Some(t) = self.texts.get(seq) {
            return t.resolve_position_present(pos);
        }
        if let Some(l) = self.lists.get(seq) {
            return l.resolve_position_present(pos);
        }
        None
    }

    fn covers(&self, e: &RangedEntry, seq: ElementId, index: usize) -> (b: bool)
        requires
            self.wf(),
        ensures
            b == self@.span_covers(e@, seq, index as nat),
    {
        if e.start.seq != seq || e.end.seq != seq {
            return false;
        }
        match (self.resolve_index(seq, &e.start.pos), self.resolve_index(seq, &e.end.pos)) {
            (Some(start), Some(end)) => start <= index && index < end,
            _ => false,
        }
    }

    /// Every mark on a character, by name.
    fn group_marks(&self, seq: ElementId, index: usize) -> (out: Table<Vec<u8>, Vec<ElementId>>)
        requires
            self.wf(),
        ensures
            out.wf(),
            forall|name: Seq<u8>| #[trigger]
                out@.dom().contains(name) <==> self@.marks_named(seq, index as nat, name).len() > 0,
            forall|name: Seq<u8>| #[trigger]
                out@.dom().contains(name) ==> out@[name]@ == self@.marks_named(
                    seq,
                    index as nat,
                    name,
                ),
    {
        let mut out: Table<Vec<u8>, Vec<ElementId>> = Table::new();
        let ghost e = self.ranged.table.entries@;
        let ghost q = seq_keys(e);
        let mut i: usize = 0;
        proof {
            self.ranged.lemma_ids();
            assert(q.take(0) =~= Seq::empty());
        }
        while i < self.ranged.table.entries.len()
            invariant
                self.wf(),
                out.wf(),
                e == self.ranged.table.entries@,
                q == seq_keys(e),
                i <= e.len(),
                forall|name: Seq<u8>| #[trigger]
                    out@.dom().contains(name) <==> self@.covering(
                        q.take(i as int),
                        seq,
                        index as nat,
                        name,
                    ).len() > 0,
                forall|name: Seq<u8>| #[trigger]
                    out@.dom().contains(name) ==> out@[name]@ == self@.covering(
                        q.take(i as int),
                        seq,
                        index as nat,
                        name,
                    ),
            decreases e.len() - i,
        {
            let (id, entry) = &self.ranged.table.entries[i];
            proof {
                self.ranged.lemma_at(i as int);
                assert(q.take(i + 1).drop_last() =~= q.take(i as int));
                assert(q.take(i + 1).last() == *id);
            }
            if !entry.tombstone {
                if let Some(name) = &entry.name {
                    if self.covers(entry, seq, index) {
                        let mut ids: Vec<ElementId> = match out.remove(name) {
                            Some(ids) => ids,
                            None => Vec::new(),
                        };
                        let ghost had = ids@;
                        proof {
                            assert(had =~= self@.covering(
                                q.take(i as int),
                                seq,
                                index as nat,
                                name@,
                            ));
                        }
                        ids.push(*id);
                        out.insert(slice_to_vec(name.as_slice()), ids);
                        proof {
                            assert(self@.marks(*id, seq, index as nat, name@));
                            assert forall|n: Seq<u8>| n != name@ implies !self@.marks(
                                *id,
                                seq,
                                index as nat,
                                n,
                            ) by {}
                        }
                    }
                }
            }
            i += 1;
        }
        proof {
            assert(q.take(i as int) =~= q);
        }
        out
    }

    /// The value of the latest of some annotations.
    fn lww_scalar(&self, ids: &Vec<ElementId>) -> (r: Option<(Scalar, Stamp)>)
        requires
            self.wf(),
            forall|i: int| 0 <= i < ids@.len() ==> self@.ranged.dom().contains(#[trigger] ids@[i]),
        ensures
            match self@.latest_scalar(ids@) {
                Some((v, s)) => r matches Some((value, stamp)) && value@ == v && stamp == s,
                None => r is None,
            },
    {
        let mut best: Option<(Scalar, Stamp)> = None;
        let mut i: usize = 0;
        proof {
            assert(ids@.take(0) =~= Seq::empty());
        }
        while i < ids.len()
            invariant
                self.wf(),
                i <= ids@.len(),
                forall|j: int|
                    0 <= j < ids@.len() ==> self@.ranged.dom().contains(#[trigger] ids@[j]),
                match self@.latest_scalar(ids@.take(i as int)) {
                    Some((v, s)) => best matches Some((value, stamp)) && value@ == v && stamp == s,
                    None => best is None,
                },
            decreases ids@.len() - i,
        {
            proof {
                assert(ids@.take(i + 1).drop_last() =~= ids@.take(i as int));
                assert(self@.ranged.dom().contains(ids@[i as int]));
            }
            if let Some(e) = self.ranged.get(ids[i]) {
                if let Payload::Scalar { value, stamp } = &e.payload {
                    let earlier = match &best {
                        Some((_, s)) => s.gt(stamp),
                        None => false,
                    };
                    if !earlier {
                        best = Some((value.clone(), *stamp));
                    }
                }
            }
            i += 1;
        }
        proof {
            assert(ids@.take(i as int) =~= ids@);
        }
        best
    }
}

proof fn lemma_covering_held(
    t: TreeV,
    ids: Seq<ElementId>,
    seq: ElementId,
    index: nat,
    name: Seq<u8>,
    i: int,
)
    requires
        0 <= i < t.covering(ids, seq, index, name).len(),
    ensures
        ids.contains(t.covering(ids, seq, index, name)[i]),
        t.marks(t.covering(ids, seq, index, name)[i], seq, index, name),
    decreases ids.len(),
{
    let rest = t.covering(ids.drop_last(), seq, index, name);
    if i < rest.len() {
        lemma_covering_held(t, ids.drop_last(), seq, index, name, i);
        let j = ids.drop_last().index_of(rest[i]);
        assert(ids[j] == rest[i]);
    } else {
        assert(ids[ids.len() - 1] == ids.last());
    }
}

impl Document {
    /// What the marks of one name add up to.
    fn combine_mark(&self, name: &[u8], ids: &Vec<ElementId>) -> (state: MarkState)
        requires
            self.wf(),
            forall|i: int|
                0 <= i < ids@.len() ==> self@.tree.ranged.dom().contains(#[trigger] ids@[i]),
        ensures
            state@ == self@.tree.combined(flavor_of(self@.schema, name@), ids@),
    {
        let flavor = match &self.schema {
            Some(s) => s.mark(name),
            None => None,
        };
        match flavor {
            Some(MarkFlavor::Boolean) => MarkState::Boolean(
                match self.tree.lww_scalar(ids) {
                    Some((Scalar::Bool(b), _)) => b,
                    _ => true,
                },
            ),
            Some(MarkFlavor::Value) => MarkState::Value(
                match self.tree.lww_scalar(ids) {
                    Some((value, _)) => value,
                    None => Scalar::Null,
                },
            ),
            _ => {
                let mut all: Vec<ElementId> = Vec::new();
                all.extend_from_slice(ids.as_slice());
                proof {
                    assert(all@ =~= ids@);
                }
                MarkState::Object(all)
            },
        }
    }

    /// The marks on a character of a sequence, in name order. A boolean mark that is off
    /// is left out. A name the schema does not declare keeps every instance.
    pub fn marks_at(&self, seq: ElementId, index: usize) -> (out: Vec<ResolvedMark>)
        requires
            self.wf(),
        ensures
            marks_view(out@) == self@.resolved_marks(
                ordered::<Vec<u8>>(self@.names_at(seq, index as nat)),
                seq,
                index as nat,
            ),
    {
        let groups = self.tree.group_marks(seq, index);
        let ghost e = groups.entries@;
        let ghost q = seq_keys(e);
        let mut out: Vec<ResolvedMark> = Vec::new();
        let mut i: usize = 0;
        proof {
            assert(groups@.dom() =~= self@.names_at(seq, index as nat));
            lemma_ordered::<Vec<u8>, Vec<ElementId>>(e);
            assert(q.take(0) =~= Seq::empty());
            assert(marks_view(out@) =~= Seq::empty());
        }
        while i < groups.entries.len()
            invariant
                self.wf(),
                groups.wf(),
                e == groups.entries@,
                q == seq_keys(e),
                i <= e.len(),
                forall|name: Seq<u8>| #[trigger]
                    groups@.dom().contains(name) ==> groups@[name]@ == self@.tree.marks_named(
                        seq,
                        index as nat,
                        name,
                    ),
                marks_view(out@) == self@.resolved_marks(q.take(i as int), seq, index as nat),
            decreases e.len() - i,
        {
            let (name, ids) = &groups.entries[i];
            proof {
                lemma_entry::<Vec<u8>, Vec<ElementId>>(e, i as int);
                assert(groups@.dom().contains(name@));
                assert(q.take(i + 1).drop_last() =~= q.take(i as int));
                assert(q.take(i + 1).last() == name@);
                let all = ordered::<ElementId>(self@.tree.ranged.dom());
                self.tree.ranged.lemma_ids();
                assert forall|j: int| 0 <= j < ids@.len() implies self@.tree.ranged.dom().contains(
                    #[trigger] ids@[j],
                ) by {
                    lemma_covering_held(self@.tree, all, seq, index as nat, name@, j);
                    assert(all.to_set().contains(ids@[j]));
                }
            }
            let state = self.combine_mark(name.as_slice(), ids);
            let off = matches!(&state, MarkState::Boolean(false));
            if !off {
                let ghost before = marks_view(out@);
                let ghost v = ResolvedMarkV { name: name@, state: state@ };
                out.push(ResolvedMark { name: slice_to_vec(name.as_slice()), state });
                proof {
                    assert(marks_view(out@) =~= before.push(v));
                }
            }
            i += 1;
        }
        proof {
            assert(q.take(i as int) =~= q);
        }
        out
    }
}

/// Every mark reported on a character is a live annotation that covers it, and every live
/// annotation with a name that covers it is among those of its name.
pub proof fn law_marks_are_what_covers(
    t: TreeV,
    seq: ElementId,
    index: nat,
    name: Seq<u8>,
    id: ElementId,
)
    requires
        t.ranged.dom().finite(),
    ensures
        t.marks_named(seq, index, name).contains(id) <==> t.ranged.dom().contains(id) && t.marks(
            id,
            seq,
            index,
            name,
        ),
{
    let ids = ordered::<ElementId>(t.ranged.dom());
    lemma_ordered_exists::<ElementId>(t.ranged.dom());
    let c = t.covering(ids, seq, index, name);
    if c.contains(id) {
        lemma_covering_held(t, ids, seq, index, name, c.index_of(id));
        assert(ids.to_set().contains(id));
    }
    if t.ranged.dom().contains(id) && t.marks(id, seq, index, name) {
        assert(ids.to_set().contains(id));
        lemma_covering_finds(t, ids, seq, index, name, id);
    }
}

proof fn lemma_covering_finds(
    t: TreeV,
    ids: Seq<ElementId>,
    seq: ElementId,
    index: nat,
    name: Seq<u8>,
    id: ElementId,
)
    requires
        ids.contains(id),
        t.marks(id, seq, index, name),
    ensures
        t.covering(ids, seq, index, name).contains(id),
    decreases ids.len(),
{
    let i = ids.index_of(id);
    let rest = t.covering(ids.drop_last(), seq, index, name);
    let all = t.covering(ids, seq, index, name);
    if i < ids.len() - 1 {
        assert(ids.drop_last()[i] == id);
        lemma_covering_finds(t, ids.drop_last(), seq, index, name, id);
        let j = rest.index_of(id);
        assert(all[j] == id);
    } else {
        assert(all[rest.len() as int] == id);
    }
}

// --- what a mark is on ---

impl TreeV {
    /// Where a position of a sequence is, if what it is bound to has arrived.
    pub open spec fn stands_at(self, seq: ElementId, pos: RelativePosition, at: nat) -> bool {
        if self.texts.dom().contains(seq) {
            resolved(self.texts[seq], pos) == Some(at)
        } else {
            self.lists.dom().contains(seq) && resolved(self.lists[seq], pos) == Some(at)
        }
    }

    /// Whether an annotation is live, has this name, and spans from one index of a sequence
    /// to before another.
    pub open spec fn spans(
        self,
        id: ElementId,
        name: Seq<u8>,
        seq: ElementId,
        from: nat,
        to: nat,
    ) -> bool {
        &&& self.ranged.dom().contains(id)
        &&& !self.ranged[id].tombstone
        &&& self.ranged[id].name == Some(name)
        &&& self.ranged[id].start.seq == seq
        &&& self.ranged[id].end.seq == seq
        &&& self.stands_at(seq, self.ranged[id].start.pos, from)
        &&& self.stands_at(seq, self.ranged[id].end.pos, to)
    }

    /// Whether an annotation is on a character: it spans from at or before it to after it.
    pub open spec fn is_on(self, id: ElementId, name: Seq<u8>, seq: ElementId, index: nat) -> bool {
        exists|from: nat, to: nat| #[trigger]
            self.spans(id, name, seq, from, to) && from <= index && index < to
    }
}

impl DocV {
    /// The marks read on a character.
    pub open spec fn marks_read(self, seq: ElementId, index: nat) -> Seq<ResolvedMarkV> {
        self.resolved_marks(ordered::<Vec<u8>>(self.names_at(seq, index)), seq, index)
    }
}

/// Of one name, the annotations on a character are those whose span it is in: from the
/// index that the start resolves to up to, and not with, the one that the end does.
pub proof fn law_a_mark_is_on_its_span(
    t: TreeV,
    id: ElementId,
    name: Seq<u8>,
    seq: ElementId,
    index: nat,
)
    requires
        t.ranged.dom().finite(),
    ensures
        t.marks_named(seq, index, name).contains(id) <==> t.is_on(id, name, seq, index),
        forall|from: nat, to: nat| #[trigger]
            t.spans(id, name, seq, from, to) ==> (t.marks_named(seq, index, name).contains(id)
                <==> from <= index < to),
{
    law_marks_are_what_covers(t, seq, index, name, id);
    if t.ranged.dom().contains(id) && t.marks(id, seq, index, name) {
        let from = t.position_in(seq, t.ranged[id].start.pos)->Some_0;
        let to = t.position_in(seq, t.ranged[id].end.pos)->Some_0;
        assert(t.spans(id, name, seq, from, to));
    }
}

proof fn lemma_read(d: DocV, names: Seq<Seq<u8>>, seq: ElementId, index: nat)
    ensures
        ({
            let out = d.resolved_marks(names, seq, index);
            &&& forall|k: int|
                0 <= k < out.len() ==> names.contains((#[trigger] out[k]).name) && out[k].state
                    == d.tree.combined(
                    flavor_of(d.schema, out[k].name),
                    d.tree.marks_named(seq, index, out[k].name),
                ) && out[k].state != MarkStateV::Boolean(false)
            &&& forall|name: Seq<u8>| #[trigger]
                names.contains(name) && d.tree.combined(
                    flavor_of(d.schema, name),
                    d.tree.marks_named(seq, index, name),
                ) != MarkStateV::Boolean(false) ==> exists|k: int|
                    0 <= k < out.len() && (#[trigger] out[k]).name == name
        }),
    decreases names.len(),
{
    let out = d.resolved_marks(names, seq, index);
    if names.len() > 0 {
        let h = names.drop_last();
        let n = names.last();
        lemma_read(d, h, seq, index);
        let rest = d.resolved_marks(h, seq, index);
        assert forall|name: Seq<u8>| #[trigger] names.contains(name) <==> h.contains(name) || name
            == n by {
            if h.contains(name) {
                assert(names[h.index_of(name)] == name);
            }
            if names.contains(name) && name != n {
                assert(h[names.index_of(name)] == name);
            }
            assert(names[names.len() - 1] == n);
        }
        assert forall|k: int| 0 <= k < out.len() implies names.contains((#[trigger] out[k]).name)
            && out[k].state == d.tree.combined(
            flavor_of(d.schema, out[k].name),
            d.tree.marks_named(seq, index, out[k].name),
        ) && out[k].state != MarkStateV::Boolean(false) by {
            if k < rest.len() {
                assert(out[k] == rest[k]);
            }
        }
        assert forall|name: Seq<u8>| #[trigger]
            names.contains(name) && d.tree.combined(
                flavor_of(d.schema, name),
                d.tree.marks_named(seq, index, name),
            ) != MarkStateV::Boolean(false) implies exists|k: int|
            0 <= k < out.len() && (#[trigger] out[k]).name == name by {
            if h.contains(name) {
                let k = choose|k: int| 0 <= k < rest.len() && (#[trigger] rest[k]).name == name;
                assert(out[k] == rest[k]);
            } else {
                assert(out[rest.len() as int].name == n);
            }
        }
    }
}

/// The names some annotations have.
spec fn names_among(t: TreeV, ids: Seq<ElementId>) -> Set<Seq<u8>>
    decreases ids.len(),
{
    if ids.len() == 0 {
        Set::empty()
    } else {
        match t.ranged[ids.last()].name {
            Some(n) => names_among(t, ids.drop_last()).insert(n),
            None => names_among(t, ids.drop_last()),
        }
    }
}

proof fn lemma_names_among(t: TreeV, ids: Seq<ElementId>, seq: ElementId, index: nat)
    ensures
        names_among(t, ids).finite(),
        forall|name: Seq<u8>|
            #![trigger t.covering(ids, seq, index, name)]
            t.covering(ids, seq, index, name).len() > 0 ==> names_among(t, ids).contains(name),
    decreases ids.len(),
{
    if ids.len() > 0 {
        let h = ids.drop_last();
        lemma_names_among(t, h, seq, index);
        assert forall|name: Seq<u8>|
            #![trigger t.covering(ids, seq, index, name)]
            t.covering(ids, seq, index, name).len() > 0 implies names_among(t, ids).contains(
            name,
        ) by {
            if t.covering(h, seq, index, name).len() > 0 {
                assert(names_among(t, h).contains(name));
            }
        }
    }
}

proof fn lemma_names_read(d: DocV, seq: ElementId, index: nat)
    ensures
        ({
            let names = ordered::<Vec<u8>>(d.names_at(seq, index));
            forall|name: Seq<u8>| #[trigger] names.contains(name) <==> d.tree.marks_named(
                seq,
                index,
                name,
            ).len() > 0
        }),
{
    let ids = ordered::<ElementId>(d.tree.ranged.dom());
    let all = d.names_at(seq, index);
    lemma_names_among(d.tree, ids, seq, index);
    assert forall|name: Seq<u8>| all.contains(name) implies names_among(d.tree, ids).contains(
        name,
    ) by {
        assert(d.tree.covering(ids, seq, index, name).len() > 0);
    }
    vstd::set_lib::lemma_set_subset_finite(names_among(d.tree, ids), all);
    lemma_ordered_exists::<Vec<u8>>(all);
    let names = ordered::<Vec<u8>>(all);
    assert forall|name: Seq<u8>| #[trigger] names.contains(name) <==> d.tree.marks_named(
        seq,
        index,
        name,
    ).len() > 0 by {
        assert(names.to_set().contains(name) <==> all.contains(name));
    }
}

/// Every mark that is read on a character comes of an annotation that is on it; none is a
/// boolean mark that is off; and one whose instances are kept names exactly the annotations
/// of its name that are on the character.
pub proof fn law_what_is_read_is_on_the_character(
    d: DocV,
    seq: ElementId,
    index: nat,
    k: int,
    id: ElementId,
)
    requires
        d.tree.ranged.dom().finite(),
        0 <= k < d.marks_read(seq, index).len(),
    ensures
        ({
            let m = d.marks_read(seq, index)[k];
            &&& exists|x: ElementId| #[trigger] d.tree.is_on(x, m.name, seq, index)
            &&& m.state != MarkStateV::Boolean(false)
            &&& m.state is Boolean <==> flavor_of(d.schema, m.name) == Some(MarkFlavor::Boolean)
            &&& m.state is Value <==> flavor_of(d.schema, m.name) == Some(MarkFlavor::Value)
            &&& m.state matches MarkStateV::Object(ids) ==> (ids.contains(id) <==> d.tree.is_on(
                id,
                m.name,
                seq,
                index,
            ))
        }),
{
    let names = ordered::<Vec<u8>>(d.names_at(seq, index));
    lemma_read(d, names, seq, index);
    lemma_names_read(d, seq, index);
    let m = d.marks_read(seq, index)[k];
    assert(names.contains(m.name));
    let ids = d.tree.marks_named(seq, index, m.name);
    let x = ids[0];
    assert(ids.contains(x));
    law_a_mark_is_on_its_span(d.tree, x, m.name, seq, index);
    law_a_mark_is_on_its_span(d.tree, id, m.name, seq, index);
}

/// Every annotation with a name that is on a character is read there: under its name, among
/// the instances where those are kept, and unless the mark is a boolean one that the latest
/// of its name turns off.
pub proof fn law_what_is_on_a_character_is_read(
    d: DocV,
    id: ElementId,
    name: Seq<u8>,
    seq: ElementId,
    index: nat,
)
    requires
        d.tree.ranged.dom().finite(),
        d.tree.is_on(id, name, seq, index),
    ensures
        flavor_of(d.schema, name) != Some(MarkFlavor::Boolean) ==> exists|k: int|
            0 <= k < d.marks_read(seq, index).len() && (#[trigger] d.marks_read(seq, index)[k]).name
                == name,
        flavor_of(d.schema, name) != Some(MarkFlavor::Boolean) && flavor_of(d.schema, name) != Some(
            MarkFlavor::Value,
        ) ==> exists|k: int|
            0 <= k < d.marks_read(seq, index).len() && (#[trigger] d.marks_read(seq, index)[k]).name
                == name && (d.marks_read(seq, index)[k].state matches MarkStateV::Object(ids)
                && ids.contains(id)),
        flavor_of(d.schema, name) == Some(MarkFlavor::Boolean) && (forall|x: ElementId| #[trigger]
            d.tree.is_on(x, name, seq, index) ==> !(
            d.tree.ranged[x].payload matches PayloadV::Scalar { value: ScalarV::Bool(false), .. }))
            ==> exists|k: int|
            0 <= k < d.marks_read(seq, index).len() && (#[trigger] d.marks_read(seq, index)[k]).name
                == name && d.marks_read(seq, index)[k].state == MarkStateV::Boolean(true),
{
    let names = ordered::<Vec<u8>>(d.names_at(seq, index));
    lemma_read(d, names, seq, index);
    lemma_names_read(d, seq, index);
    law_a_mark_is_on_its_span(d.tree, id, name, seq, index);
    let ids = d.tree.marks_named(seq, index, name);
    assert(ids[ids.index_of(id)] == id);
    assert(names.contains(name));
    let out = d.marks_read(seq, index);
    let state = d.tree.combined(flavor_of(d.schema, name), ids);
    if flavor_of(d.schema, name) == Some(MarkFlavor::Boolean) {
        if forall|x: ElementId| #[trigger]
            d.tree.is_on(x, name, seq, index) ==> !(
            d.tree.ranged[x].payload matches PayloadV::Scalar { value: ScalarV::Bool(false), .. }) {
            law_the_latest_mark_speaks(d.tree, ids);
            if let Some((v, s)) = d.tree.latest_scalar(ids) {
                let i = choose|i: int|
                    0 <= i < ids.len() && d.tree.ranged[#[trigger] ids[i]].payload == (
                    PayloadV::Scalar { value: v, stamp: s });
                assert(ids.contains(ids[i]));
                law_a_mark_is_on_its_span(d.tree, ids[i], name, seq, index);
            }
            let k = choose|k: int| 0 <= k < out.len() && (#[trigger] out[k]).name == name;
            assert(out[k].state == state);
        }
    } else {
        let k = choose|k: int| 0 <= k < out.len() && (#[trigger] out[k]).name == name;
        assert(out[k].state == state);
    }
}

/// Of some annotations the latest speaks: its value is that of one of them, and none of the
/// others that has a value was set later. There is none just where none has a value.
pub proof fn law_the_latest_mark_speaks(t: TreeV, ids: Seq<ElementId>)
    ensures
        match t.latest_scalar(ids) {
            Some((v, s)) => (exists|i: int|
                0 <= i < ids.len() && t.ranged[#[trigger] ids[i]].payload == (PayloadV::Scalar {
                    value: v,
                    stamp: s,
                })) && forall|i: int|
                0 <= i < ids.len() ==> (
                t.ranged[#[trigger] ids[i]].payload matches PayloadV::Scalar { stamp, .. }
                    ==> !stamp_lt(s, stamp)),
            None => forall|i: int|
                0 <= i < ids.len() ==> !(t.ranged[#[trigger] ids[i]].payload is Scalar),
        },
    decreases ids.len(),
{
    if ids.len() > 0 {
        let h = ids.drop_last();
        law_the_latest_mark_speaks(t, h);
        assert(ids[ids.len() - 1] == ids.last());
        assert forall|i: int| 0 <= i < h.len() implies h[i] == #[trigger] ids[i] by {}
        if let (PayloadV::Scalar { value, stamp }, Some((v, s))) = (
            t.ranged[ids.last()].payload,
            t.latest_scalar(h),
        ) {
            assert forall|i: int| 0 <= i < h.len() implies (
            t.ranged[#[trigger] h[i]].payload matches PayloadV::Scalar { stamp: r, .. }
                ==> !stamp_lt(stamp, r) || stamp_lt(stamp, s)) by {
                if let PayloadV::Scalar { stamp: r, .. } = t.ranged[h[i]].payload {
                    crate::stamp::law_stamp_order_is_total(s, stamp, r);
                    crate::stamp::law_stamp_order_is_total(stamp, r, s);
                    crate::stamp::law_stamp_order_is_total(s, r, stamp);
                }
            }
        }
        if let Some((v, s)) = t.latest_scalar(h) {
            let i = choose|i: int|
                0 <= i < h.len() && t.ranged[#[trigger] h[i]].payload == (PayloadV::Scalar {
                    value: v,
                    stamp: s,
                });
            assert(ids[i] == h[i]);
        }
    }
}

/// Whether a state is what a value says: the value, or that a boolean one is not off.
pub open spec fn says(state: MarkStateV, value: ScalarV) -> bool {
    match state {
        MarkStateV::Value(v) => v == value,
        _ => value != ScalarV::Bool(false),
    }
}

/// A mark whose instances carry a value reads as the value of one that is on the character
/// and than which none there was set later.
pub proof fn law_a_value_mark_reads_the_latest(d: DocV, seq: ElementId, index: nat, k: int)
    requires
        d.tree.ranged.dom().finite(),
        0 <= k < d.marks_read(seq, index).len(),
        d.marks_read(seq, index)[k].state is Value || d.marks_read(seq, index)[k].state is Boolean,
    ensures
        ({
            let m = d.marks_read(seq, index)[k];
            (exists|x: ElementId| #[trigger]
                d.tree.is_on(x, m.name, seq, index) && d.tree.ranged[x].payload is Scalar)
                ==> exists|x: ElementId| #[trigger]
                d.tree.is_on(x, m.name, seq, index) && d.tree.ranged[x].payload is Scalar
                    && says(m.state, d.tree.ranged[x].payload->value) && forall|y: ElementId|
                    #[trigger]
                    d.tree.is_on(y, m.name, seq, index) && d.tree.ranged[y].payload is Scalar
                        ==> !stamp_lt(
                        d.tree.ranged[x].payload->stamp,
                        d.tree.ranged[y].payload->stamp,
                    )
        }),
{
    let names = ordered::<Vec<u8>>(d.names_at(seq, index));
    lemma_read(d, names, seq, index);
    let m = d.marks_read(seq, index)[k];
    let ids = d.tree.marks_named(seq, index, m.name);
    law_the_latest_mark_speaks(d.tree, ids);
    if exists|x: ElementId| #[trigger]
        d.tree.is_on(x, m.name, seq, index) && d.tree.ranged[x].payload is Scalar {
        let x = choose|x: ElementId| #[trigger]
            d.tree.is_on(x, m.name, seq, index) && d.tree.ranged[x].payload is Scalar;
        law_a_mark_is_on_its_span(d.tree, x, m.name, seq, index);
        assert(ids[ids.index_of(x)] == x);
        let (v, s) = d.tree.latest_scalar(ids)->Some_0;
        let i = choose|i: int|
            0 <= i < ids.len() && d.tree.ranged[#[trigger] ids[i]].payload == (PayloadV::Scalar {
                value: v,
                stamp: s,
            });
        assert(ids.contains(ids[i]));
        law_a_mark_is_on_its_span(d.tree, ids[i], m.name, seq, index);
        assert forall|y: ElementId| #[trigger]
            d.tree.is_on(y, m.name, seq, index) && d.tree.ranged[y].payload is Scalar
            implies !stamp_lt(s, d.tree.ranged[y].payload->stamp) by {
            law_a_mark_is_on_its_span(d.tree, y, m.name, seq, index);
            assert(ids[ids.index_of(y)] == y);
        }
        assert(d.tree.is_on(ids[i], m.name, seq, index));
    }
}

/// An annotation over captured positions is on the characters between the indices they were
/// captured at, and on no other: on none where the two are one.
pub proof fn law_a_mark_is_on_what_it_was_put_on(
    t: TreeV,
    id: ElementId,
    name: Seq<u8>,
    text: ElementId,
    from: nat,
    to: nat,
    left: Side,
    right: Side,
    index: nat,
)
    requires
        t.ranged.dom().finite(),
        t.texts.dom().contains(text),
        grounded(t.texts[text]),
        from <= list_live(t.texts[text]).len(),
        to <= list_live(t.texts[text]).len(),
        t.ranged.dom().contains(id),
        !t.ranged[id].tombstone,
        t.ranged[id].name == Some(name),
        t.ranged[id].start == (RangeAnchor {
            seq: text,
            pos: position_at(t.texts[text], from, left),
        }),
        t.ranged[id].end == (RangeAnchor {
            seq: text,
            pos: position_at(t.texts[text], to, right),
        }),
    ensures
        t.marks_named(text, index, name).contains(id) <==> from <= index < to,
{
    law_position_resolves_to_its_index(t.texts[text], from, left);
    law_position_resolves_to_its_index(t.texts[text], to, right);
    assert(t.spans(id, name, text, from, to));
    law_a_mark_is_on_its_span(t, id, name, text, index);
}

} // verus!
