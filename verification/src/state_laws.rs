//! What a snapshot promises: replicas with equal states have equal bytes.

use crate::annot::{AclEntry, GroupKey, Placement, Places, RangedEntry};
use crate::clientid::ClientId;
use crate::counter::{law_equal_counters_encode_identically, Counter, CounterV};
use crate::deliver::{lemma_as_many, lemma_members};
use crate::doc::{
    complete_at, first_complete, group_of, holds_op, members_of, op_at, untagged, DocV, Document,
};
use crate::elementid::ElementId;
use crate::format::{exactly, DecodeError};
use crate::identity::{admissible, root_element};
use crate::list::{List, ListV};
use crate::list_state::{as_written, law_equal_lists_encode_identically};
use crate::many::enc_many;
use crate::map::{LwwMap, MapV};
use crate::map_state::law_equal_maps_encode_identically;
use crate::once_laws::{ids_once, lemma_holds, lemma_ids_once};
use crate::op::{ops_view, OpId, OpKindV, OpV};
use crate::rebuild::links_end;
use crate::registry::{Held, Registry};
use crate::restore_laws::lemma_in_waiting;
use crate::snapshot::{assembled, held_checked, made_whole, parse_state};
use crate::snapshot_laws::{
    held_in_order, is_spelled_entry, law_a_snapshot_keeps_the_contents, law_a_snapshot_reads_back,
    lemma_held_finite, lemma_spelled,
};
use crate::stamp::Stamp;
use crate::state::{
    acl_enc, counter_enc, enc_held, enc_registries, enc_relations, enc_state, group_enc, held_ids,
    framed_enc, link_enc, list_enc, map_enc, move_enc, op_id_enc, placed_enc, ranged_enc, section,
    spelled_places, state_fits, text_enc, water_enc, xml_element_enc, xml_fragment_enc, zone_enc,
};
use crate::table::{
    index_of, lemma_entries_unique, lemma_entry, lemma_ordered, lemma_ordered_exists,
    lemma_rises_unique, ordered, rises, seq_keys, Key, Table,
};
use crate::text::Text;
use crate::tree::{Tree, TreeV};
use crate::treemove::MoveEdge;
use crate::undo::HistoryV;
use crate::xml::{XmlElement, XmlElementV, XmlFragment};
use vstd::prelude::*;

verus! {

/// Records with equal bytes, end to end.
proof fn lemma_same_records<T>(a: Seq<T>, b: Seq<T>, enc: spec_fn(T) -> Seq<u8>)
    requires
        a.len() == b.len(),
        forall|i: int| 0 <= i < a.len() ==> enc(#[trigger] a[i]) == enc(b[i]),
    ensures
        enc_many(a, enc) == enc_many(b, enc),
        section(a, enc) == section(b, enc),
    decreases a.len(),
{
    if a.len() > 0 {
        let x = a.skip(1);
        let y = b.skip(1);
        assert forall|i: int| 0 <= i < x.len() implies enc(#[trigger] x[i]) == enc(y[i]) by {
            assert(x[i] == a[i + 1] && y[i] == b[i + 1]);
        }
        lemma_same_records(x, y, enc);
        assert(enc(a[0]) == enc(b[0]));
    }
}

/// Equal tables whose keys are their own views have equal sections.
proof fn lemma_same_table<K: Key<V = K>, V>(
    a: Table<K, V>,
    b: Table<K, V>,
    enc: spec_fn((K, V)) -> Seq<u8>,
)
    requires
        a.wf(),
        b.wf(),
        a@ == b@,
        forall|k: K| #[trigger] k@ == k,
    ensures
        section(a.entries@, enc) == section(b.entries@, enc),
{
    let s = a.entries@;
    let t = b.entries@;
    lemma_entries_unique::<K, V>(s, t);
    assert forall|i: int| 0 <= i < s.len() implies #[trigger] s[i] == t[i] by {
        assert(s[i].0@ == t[i].0@ && s[i].1 == t[i].1);
        assert(s[i].0@ == s[i].0 && t[i].0@ == t[i].0);
    }
    assert(s =~= t);
}

/// Registries with the same ids have them in the same order.
proof fn lemma_same_registry<T: Held>(a: Registry<T>, b: Registry<T>)
    requires
        a.wf(),
        b.wf(),
        a@.dom() == b@.dom(),
    ensures
        a.table.entries@.len() == b.table.entries@.len(),
        forall|i: int|
            0 <= i < a.table.entries@.len() ==> {
                let x = #[trigger] a.table.entries@[i];
                let y = b.table.entries@[i];
                x.0 == y.0 && x.1.fit(x.0) && y.1.fit(y.0) && a@.dom().contains(x.0) && a@[x.0]
                    == x.1@ && b@[x.0] == y.1@
            },
{
    let s = a.table.entries@;
    let t = b.table.entries@;
    lemma_ordered::<ElementId, T>(s);
    lemma_ordered::<ElementId, T>(t);
    assert(a@.dom() =~= a.table@.dom());
    assert(b@.dom() =~= b.table@.dom());
    assert(seq_keys(s) == seq_keys(t));
    assert(s.len() == seq_keys(s).len());
    assert(t.len() == seq_keys(t).len());
    assert forall|i: int| 0 <= i < s.len() implies {
        let x = #[trigger] s[i];
        let y = t[i];
        x.0 == y.0 && x.1.fit(x.0) && y.1.fit(y.0) && a@.dom().contains(x.0) && a@[x.0] == x.1@
            && b@[x.0] == y.1@
    } by {
        assert(seq_keys(s)[i] == s[i].0 && seq_keys(t)[i] == t[i].0);
        lemma_entry::<ElementId, T>(s, i);
        lemma_entry::<ElementId, T>(t, i);
        assert(a@[s[i].0] == s[i].1@);
        assert(b@[t[i].0] == t[i].1@);
    }
}

/// Whether no sequence has an id at the very end of the lamport space.
pub open spec fn below_the_end(lists: Map<ElementId, ListV>) -> bool {
    forall|l: ElementId, id: Stamp|
        lists.dom().contains(l) && #[trigger] lists[l].places.dom().contains(id) ==> id.lamport
            < u64::MAX
}

/// Where two maps are equal once each value is made plain, so are the plain values.
proof fn lemma_mapped<V, W>(
    a: Map<ElementId, V>,
    b: Map<ElementId, V>,
    f: spec_fn(V) -> W,
)
    requires
        a.map_values(f) == b.map_values(f),
    ensures
        a.dom() == b.dom(),
        forall|x: ElementId| #[trigger] a.dom().contains(x) ==> f(a[x]) == f(b[x]),
{
    assert(a.dom() =~= a.map_values(f).dom());
    assert(b.dom() =~= b.map_values(f).dom());
    assert forall|x: ElementId| #[trigger] a.dom().contains(x) implies f(a[x]) == f(b[x]) by {
        assert(a.map_values(f)[x] == f(a[x]));
        assert(b.map_values(f)[x] == f(b[x]));
    }
}

proof fn lemma_same_sequences(a: Tree, b: Tree)
    requires
        a.sound(),
        b.sound(),
        a@.written() == b@.written(),
        below_the_end(a@.lists),
        below_the_end(a@.texts),
    ensures
        section(a.lists.table.entries@, list_enc()) == section(b.lists.table.entries@, list_enc()),
        section(a.texts.table.entries@, text_enc()) == section(b.texts.table.entries@, text_enc()),
{
    let f = |l: ListV| as_written(l);
    assert(a@.written().lists == b@.written().lists);
    lemma_mapped(a@.lists, b@.lists, f);
    lemma_same_registry::<List>(a.lists, b.lists);
    let s = a.lists.table.entries@;
    let t = b.lists.table.entries@;
    assert forall|i: int| 0 <= i < s.len() implies list_enc()(#[trigger] s[i]) == list_enc()(
        t[i],
    ) by {
        assert(a@.lists.dom().contains(s[i].0));
        assert(f(a@.lists[s[i].0]) == f(b@.lists[s[i].0]));
        law_equal_lists_encode_identically(s[i].1, t[i].1);
    }
    lemma_same_records(s, t, list_enc());
    assert(a@.written().texts == b@.written().texts);
    lemma_mapped(a@.texts, b@.texts, f);
    lemma_same_registry::<Text>(a.texts, b.texts);
    let s = a.texts.table.entries@;
    let t = b.texts.table.entries@;
    assert forall|i: int| 0 <= i < s.len() implies text_enc()(#[trigger] s[i]) == text_enc()(
        t[i],
    ) by {
        assert(a@.texts.dom().contains(s[i].0));
        assert(f(a@.texts[s[i].0]) == f(b@.texts[s[i].0]));
        law_equal_lists_encode_identically(s[i].1.seq, t[i].1.seq);
    }
    lemma_same_records(s, t, text_enc());
}

proof fn lemma_same_registries(a: Tree, b: Tree)
    requires
        a.sound(),
        b.sound(),
        a@.written() == b@.written(),
        below_the_end(a@.lists),
        below_the_end(a@.texts),
    ensures
        enc_registries(a) == enc_registries(b),
{
    lemma_same_sequences(a, b);
    let f = |c: CounterV| CounterV { displaced: false, ..c };
    assert(a@.written().counters == b@.written().counters);
    lemma_mapped(a@.counters, b@.counters, f);
    lemma_same_registry::<Counter>(a.counters, b.counters);
    let s = a.counters.table.entries@;
    let t = b.counters.table.entries@;
    assert forall|i: int| 0 <= i < s.len() implies counter_enc()(#[trigger] s[i]) == counter_enc()(
        t[i],
    ) by {
        assert(a@.counters.dom().contains(s[i].0));
        assert(f(a@.counters[s[i].0]) == f(b@.counters[s[i].0]));
        law_equal_counters_encode_identically(s[i].1, t[i].1);
    }
    lemma_same_records(s, t, counter_enc());
    let f = |m: MapV| MapV { displaced: false, ..m };
    assert(a@.written().maps == b@.written().maps);
    lemma_mapped(a@.maps, b@.maps, f);
    lemma_same_registry::<LwwMap>(a.maps, b.maps);
    let s = a.maps.table.entries@;
    let t = b.maps.table.entries@;
    assert forall|i: int| 0 <= i < s.len() implies map_enc()(#[trigger] s[i]) == map_enc()(
        t[i],
    ) by {
        assert(a@.maps.dom().contains(s[i].0));
        assert(f(a@.maps[s[i].0]) == f(b@.maps[s[i].0]));
        law_equal_maps_encode_identically(s[i].1, t[i].1);
    }
    lemma_same_records(s, t, map_enc());
    let f = |x: XmlElementV| XmlElementV { displaced: false, ..x };
    assert(a@.written().xml_elements == b@.written().xml_elements);
    lemma_mapped(a@.xml_elements, b@.xml_elements, f);
    lemma_same_registry::<XmlElement>(a.xml_elements, b.xml_elements);
    let s = a.xml_elements.table.entries@;
    let t = b.xml_elements.table.entries@;
    assert forall|i: int| 0 <= i < s.len() implies xml_element_enc()(#[trigger] s[i])
        == xml_element_enc()(t[i]) by {
        assert(a@.xml_elements.dom().contains(s[i].0));
        assert(f(a@.xml_elements[s[i].0]) == f(b@.xml_elements[s[i].0]));
        assert(s[i].1@.tag == t[i].1@.tag);
    }
    lemma_same_records(s, t, xml_element_enc());
    let f = |x: XmlFragment| XmlFragment { displaced: false };
    assert(a@.written().xml_fragments == b@.written().xml_fragments);
    lemma_mapped(a@.xml_fragments, b@.xml_fragments, f);
    lemma_same_registry::<XmlFragment>(a.xml_fragments, b.xml_fragments);
    lemma_same_records(
        a.xml_fragments.table.entries@,
        b.xml_fragments.table.entries@,
        xml_fragment_enc(),
    );
}

/// The nodes whose placements are spelled out, in id order.
proof fn lemma_spelled_nodes(t: Tree)
    requires
        t.placements.wf(),
    ensures
        ({
            let q = spelled_places(t@, t.placements.table.entries@);
            &&& q.map_values(|e: (ElementId, Seq<Placement>)| e.0) == ordered::<ElementId>(
                t@.written_places().dom(),
            )
            &&& forall|i: int|
                0 <= i < q.len() ==> t@.written_places().dom().contains((#[trigger] q[i]).0)
                    && t@.written_places()[q[i].0] == ordered::<Placement>(q[i].1.to_set())
        }),
{
    let s = t.placements.table.entries@;
    let q = spelled_places(t@, s);
    lemma_spelled(t@, s);
    let keys = q.map_values(|e: (ElementId, Seq<Placement>)| e.0);
    let dom = t@.written_places().dom();
    assert forall|i: int| 0 <= i < q.len() implies dom.contains((#[trigger] q[i]).0)
        && t@.written_places()[q[i].0] == ordered::<Placement>(q[i].1.to_set()) by {
        assert(is_spelled_entry(t@, s, q[i]));
        let j = choose|j: int| 0 <= j < s.len() && q[i] == ((#[trigger] s[j]).0, s[j].1@);
        lemma_entry::<ElementId, Places>(s, j);
        assert(t@.placements[s[j].0] == s[j].1@);
    }
    assert forall|x: ElementId| keys.to_set().contains(x) <==> dom.contains(x) by {
        if keys.contains(x) {
            let i = keys.index_of(x);
            assert(q[i].0 == x);
        }
        if dom.contains(x) {
            assert(t.placements.table@.dom().contains(x));
            let j = index_of::<ElementId, Places>(s, x);
            assert(s[j].0@ == x);
            lemma_entry::<ElementId, Places>(s, j);
            assert(q.contains((s[j].0, s[j].1@)));
            let i = q.index_of((s[j].0, s[j].1@));
            assert(keys[i] == x);
        }
    }
    assert(keys.to_set() =~= dom);
    assert(rises::<ElementId>(keys)) by {
        assert forall|i: int, k: int| 0 <= i < k < keys.len() implies ElementId::before(
            #[trigger] keys[i],
            #[trigger] keys[k],
        ) by {
            assert(ElementId::before(q[i].0, q[k].0));
        }
    }
    lemma_ordered_exists::<ElementId>(keys.to_set());
    lemma_rises_unique::<ElementId>(keys, ordered::<ElementId>(dom));
}

proof fn lemma_same_relations(a: Tree, b: Tree)
    requires
        a.sound(),
        b.sound(),
        a@.written() == b@.written(),
        a@.moves.log == b@.moves.log,
    ensures
        enc_relations(a) == enc_relations(b),
{
    lemma_same_table::<Stamp, MoveEdge>(a.moves.log, b.moves.log, move_enc());
    let x = spelled_places(a@, a.placements.table.entries@);
    let y = spelled_places(b@, b.placements.table.entries@);
    assert(a@.written_places() == a@.written().placements);
    assert(b@.written_places() == b@.written().placements);
    lemma_spelled_nodes(a);
    lemma_spelled_nodes(b);
    let f = |e: (ElementId, Seq<Placement>)| e.0;
    assert(x.map_values(f) == y.map_values(f));
    assert(x.len() == x.map_values(f).len() && y.len() == y.map_values(f).len());
    assert forall|i: int| 0 <= i < x.len() implies placed_enc()(#[trigger] x[i]) == placed_enc()(
        y[i],
    ) by {
        assert(x.map_values(f)[i] == x[i].0 && y.map_values(f)[i] == y[i].0);
        assert(a@.written_places()[x[i].0] == ordered::<Placement>(x[i].1.to_set()));
        assert(b@.written_places()[y[i].0] == ordered::<Placement>(y[i].1.to_set()));
    }
    lemma_same_records(x, y, placed_enc());
    assert(a@.ranged == a@.written().ranged && b@.ranged == b@.written().ranged);
    lemma_same_registry::<RangedEntry>(a.ranged, b.ranged);
    lemma_same_records(a.ranged.table.entries@, b.ranged.table.entries@, ranged_enc());
    assert(a@.acl == a@.written().acl && b@.acl == b@.written().acl);
    lemma_same_registry::<AclEntry>(a.acl, b.acl);
    lemma_same_records(a.acl.table.entries@, b.acl.table.entries@, acl_enc());
    assert(a@.parents == a@.written().parents && b@.parents == b@.written().parents);
    lemma_same_table::<ElementId, ElementId>(a.parents, b.parents, link_enc());
}

/// Tables of keys alone are equal where the same keys are in them.
proof fn lemma_same_keys<K: Key>(a: Table<K, ()>, b: Table<K, ()>)
    requires
        a@.dom() == b@.dom(),
    ensures
        a@ == b@,
{
    assert forall|k: K::V| a@.dom().contains(k) implies a@[k] == b@[k] by {
        assert(a@[k] == ());
        assert(b@[k] == ());
    }
    assert(a@ =~= b@);
}

/// The op with an id is there just where the ops hold the id.
proof fn lemma_op_at(ops: Seq<OpV>, id: OpId)
    ensures
        op_at(ops, id) is Some <==> holds_op(ops, id),
        op_at(ops, id) matches Some(op) ==> op.id == id,
    decreases ops.len(),
{
    if ops.len() > 0 {
        let t = ops.skip(1);
        lemma_op_at(t, id);
        if holds_op(t, id) {
            let i = choose|i: int| 0 <= i < t.len() && (#[trigger] t[i]).id == id;
            assert(ops[i + 1].id == id);
        }
        if holds_op(ops, id) && ops[0].id != id {
            let i = choose|i: int| 0 <= i < ops.len() && (#[trigger] ops[i]).id == id;
            assert(t[i - 1].id == id);
        }
    }
}

/// The bytes of the ops that wait do not say in which order they came.
proof fn lemma_same_held(a: Seq<OpV>, b: Seq<OpV>)
    requires
        forall|id: OpId| #[trigger] op_at(a, id) == op_at(b, id),
    ensures
        enc_held(a) == enc_held(b),
{
    assert forall|id: OpId| held_ids(a).contains(id) <==> held_ids(b).contains(id) by {
        lemma_op_at(a, id);
        lemma_op_at(b, id);
        assert(op_at(a, id) == op_at(b, id));
    }
    assert(held_ids(a) =~= held_ids(b));
    assert(framed_enc(a) =~= framed_enc(b)) by {
        assert forall|id: OpId| #[trigger] framed_enc(a)(id) == framed_enc(b)(id) by {
            assert(op_at(a, id) == op_at(b, id));
        }
    }
}

/// Equal states encode to identical bytes: whatever order the waiting ops and the
/// placements came in, and whatever a reader works out again.
pub proof fn law_equal_states_encode_identically(a: Document, b: Document)
    requires
        a.wf(),
        b.wf(),
        a.client == b.client,
        a.lamport == b.lamport,
        a.seq == b.seq,
        a@.zone_clocks == b@.zone_clocks,
        a@.tree.written() == b@.tree.written(),
        a@.tree.moves.log == b@.tree.moves.log,
        a@.seen == b@.seen,
        a@.resolved == b@.resolved,
        forall|id: OpId| #[trigger] op_at(a@.buffer, id) == op_at(b@.buffer, id),
        below_the_end(a@.tree.lists),
        below_the_end(a@.tree.texts),
    ensures
        enc_state(a) == enc_state(b),
{
    lemma_same_table::<u32, u64>(a.zone_clocks, b.zone_clocks, zone_enc());
    assert(a@.tree.high_water == a@.tree.written().high_water);
    assert(b@.tree.high_water == b@.tree.written().high_water);
    lemma_same_table::<ClientId, u64>(a.tree.high_water, b.tree.high_water, water_enc());
    lemma_same_registries(a.tree, b.tree);
    lemma_same_relations(a.tree, b.tree);
    lemma_same_keys::<OpId>(a.seen, b.seen);
    lemma_same_table::<OpId, ()>(a.seen, b.seen, op_id_enc());
    lemma_same_keys::<GroupKey>(a.resolved_tx, b.resolved_tx);
    lemma_same_table::<GroupKey, ()>(a.resolved_tx, b.resolved_tx, group_enc());
    let x = a@.buffer;
    let y = b@.buffer;
    assert(x == ops_view(a.buffer@) && y == ops_view(b.buffer@));
    assert forall|id: OpId| #[trigger] op_at(x, id) == op_at(y, id) by {
        assert(op_at(a@.buffer, id) == op_at(b@.buffer, id));
    }
    lemma_same_held(x, y);
}

// --- encoding what was read ---

impl DocV {
    /// Whether a reader of the replica's bytes works out the links, the placements, the
    /// moves and the figures that the replica has.
    pub open spec fn settled(self) -> bool {
        let t = made_whole(self.written(), held_in_order(self.buffer));
        &&& t.parents == self.tree.parents
        &&& t.high_water == self.tree.high_water
        &&& t.moves.log == self.tree.moves.log
        &&& t.written_places() == self.tree.written_places()
        &&& t.written_index() == self.tree.written_index()
    }
}

impl DocV {
    /// Whether an op is one that may wait: not applied, of no settled group, and not able
    /// to apply on its own.
    pub open spec fn waits_rightly(self, op: OpV) -> bool {
        &&& admissible(op)
        &&& !self.seen.contains(op.id)
        &&& group_of(op) matches Some(k) ==> !self.resolved.contains(k)
        &&& op.tx is None ==> !self.tree.ready(op)
    }

    /// Whether a reader of the replica's bytes places the nodes that the replica does, and
    /// has the same ones await a place.
    pub open spec fn placed_alike(self) -> bool {
        let t = made_whole(self.written(), held_in_order(self.buffer));
        t.placements.dom() == self.tree.placements.dom() && t.revealed == self.tree.revealed
    }

    /// Whether nothing that waits can apply, each op waits once, and a move waits only
    /// where a reader would have it wait.
    pub open spec fn idle(self) -> bool {
        &&& ids_once(self.buffer)
        &&& forall|i: int| 0 <= i < self.buffer.len() ==> self.waits_rightly(#[trigger] self.buffer[i])
        &&& forall|i: int|
            0 <= i < self.buffer.len() && (#[trigger] self.buffer[i]).kind is XmlMove
                ==> self.placed_alike()
        &&& forall|i: int| 0 <= i < self.buffer.len() ==> !complete_at(self.buffer, i)
    }
}

/// What waits, in order, is what waits.
proof fn lemma_waiting_same(ops: Seq<OpV>)
    requires
        ids_once(ops),
    ensures
        ids_once(held_in_order(ops)),
        forall|x: OpV| #[trigger] held_in_order(ops).contains(x) <==> ops.contains(x),
        forall|id: OpId| #[trigger] op_at(held_in_order(ops), id) == op_at(ops, id),
{
    let q = held_in_order(ops);
    let ids = ordered::<OpId>(held_ids(ops));
    lemma_held_finite(ops);
    lemma_ordered_exists::<OpId>(held_ids(ops));
    lemma_ids_once(ops);
    assert forall|i: int, j: int| 0 <= i < j < q.len() implies (#[trigger] q[i]).id != (
    #[trigger] q[j]).id by {
        lemma_in_waiting(ops, i);
        lemma_in_waiting(ops, j);
    }
    lemma_ids_once(q);
    assert forall|x: OpV| #[trigger] q.contains(x) <==> ops.contains(x) by {
        if q.contains(x) {
            lemma_in_waiting(ops, q.index_of(x));
        }
        if ops.contains(x) {
            lemma_holds(ops, x.id);
            assert(held_ids(ops).contains(x.id));
            assert(ids.to_set().contains(x.id));
            let i: int = ids.index_of(x.id);
            lemma_in_waiting(ops, i);
            assert(q[i] == x);
        }
    }
    assert forall|id: OpId| #[trigger] op_at(q, id) == op_at(ops, id) by {
        lemma_op_at(q, id);
        lemma_op_at(ops, id);
        lemma_holds(q, id);
        lemma_holds(ops, id);
        if holds_op(q, id) {
            let x = choose|x: OpV| #[trigger] q.contains(x) && x.id == id;
            assert(ops.contains(x));
            crate::snapshot_laws::lemma_op_at(q, id);
            crate::snapshot_laws::lemma_op_at(ops, id);
        }
        if holds_op(ops, id) {
            let x = choose|x: OpV| #[trigger] ops.contains(x) && x.id == id;
            assert(q.contains(x));
        }
    }
}

/// Whether an op can apply does not depend on what a reader works out.
proof fn lemma_ready_stores(t: TreeV, u: TreeV, op: OpV)
    requires
        t.contents() == u.contents(),
        t.parents == u.parents,
        op.kind is XmlMove ==> t.placements.dom() == u.placements.dom() && t.revealed == u.revealed,
    ensures
        t.ready(op) ==> u.ready(op),
{
    let p = t.contents();
    let q = u.contents();
    assert(p.maps.dom() =~= t.maps.dom() && q.maps.dom() =~= u.maps.dom());
    assert(p.lists.dom() =~= t.lists.dom() && q.lists.dom() =~= u.lists.dom());
    assert(p.texts.dom() =~= t.texts.dom() && q.texts.dom() =~= u.texts.dom());
    assert(p.xml_elements.dom() =~= t.xml_elements.dom() && q.xml_elements.dom()
        =~= u.xml_elements.dom());
    assert(p.xml_fragments.dom() =~= t.xml_fragments.dom() && q.xml_fragments.dom()
        =~= u.xml_fragments.dom());
    assert(p.ranged == t.ranged && q.ranged == u.ranged);
    assert(p.acl == t.acl && q.acl == u.acl);
    if t.lists.dom().contains(op.target) {
        assert(p.lists[op.target].places == t.lists[op.target].places);
        assert(q.lists[op.target].places == u.lists[op.target].places);
    }
    if t.texts.dom().contains(op.target) {
        assert(p.texts[op.target].places == t.texts[op.target].places);
        assert(q.texts[op.target].places == u.texts[op.target].places);
    }
    let n = t.parents.dom().len() + 2;
    if t.leads_to_root(op.target, false, n) {
        lemma_leads_stores(t, u, op.target, n);
    }
    if let OpKindV::TextDelete { ids } = op.kind {
        if t.ready(op) {
            assert forall|i: int| 0 <= i < ids.len() implies u.texts[op.target].places.dom().contains(
                #[trigger] ids[i],
            ) by {
                assert(t.texts[op.target].places.dom().contains(ids[i]));
            }
        }
    }
}

proof fn lemma_leads_stores(t: TreeV, u: TreeV, id: ElementId, n: nat)
    requires
        t.parents == u.parents,
        t.ranged == u.ranged,
        t.maps.dom() == u.maps.dom(),
        t.lists.dom() == u.lists.dom(),
        t.texts.dom() == u.texts.dom(),
        t.xml_elements.dom() == u.xml_elements.dom(),
        t.xml_fragments.dom() == u.xml_fragments.dom(),
        t.leads_to_root(id, false, n),
    ensures
        u.leads_to_root(id, false, n),
    decreases n,
{
    if id != root_element() {
        lemma_leads_stores(t, u, t.holder(id)->Some_0, (n - 1) as nat);
    }
}

proof fn lemma_none_can(d: DocV, i: nat)
    requires
        forall|j: int|
            0 <= j < d.buffer.len() && (#[trigger] d.buffer[j]).tx is None ==> !d.tree.ready(
                d.buffer[j],
            ),
    ensures
        d.first_ready(i) is None,
    decreases d.buffer.len() - i,
{
    if i < d.buffer.len() {
        lemma_none_can(d, i + 1);
    }
}

proof fn lemma_none_whole(ops: Seq<OpV>, i: nat)
    requires
        forall|j: int| 0 <= j < ops.len() ==> !complete_at(ops, j),
    ensures
        first_complete(ops, i) is None,
    decreases ops.len() - i,
{
    if i < ops.len() {
        lemma_none_whole(ops, i + 1);
    }
}

/// A group that is not all here is not in whatever order.
proof fn lemma_incomplete(ops: Seq<OpV>, q: Seq<OpV>, i: int)
    requires
        ids_once(ops),
        ids_once(q),
        forall|x: OpV| #[trigger] q.contains(x) <==> ops.contains(x),
        forall|j: int| 0 <= j < ops.len() ==> !complete_at(ops, j),
        0 <= i < q.len(),
    ensures
        !complete_at(q, i),
{
    if complete_at(q, i) {
        let k = group_of(q[i])->Some_0;
        let n = q[i].tx->Some_0.count;
        lemma_ids_once(ops);
        lemma_ids_once(q);
        lemma_members(ops, k);
        lemma_members(q, k);
        lemma_as_many(members_of(q, k), members_of(ops, k));
        assert(q.contains(q[i]));
        let j: int = ops.index_of(q[i]);
        let ms = members_of(ops, k);
        assert forall|a: int| 0 <= a < ms.len() implies (#[trigger] ms[a]).tx->Some_0.count == n by {
            assert(ms.contains(ms[a]));
            assert(q.contains(ms[a]));
            assert(members_of(q, k).contains(ms[a]));
            let b: int = members_of(q, k).index_of(ms[a]);
            assert(members_of(q, k)[b].tx->Some_0.count == n);
        }
        assert(complete_at(ops, j));
    }
}

proof fn lemma_held_checked(ops: Seq<OpV>, seen: Set<OpId>, n: nat)
    requires
        n <= ops.len(),
        ids_once(ops),
        forall|i: int|
            0 <= i < ops.len() ==> admissible(#[trigger] ops[i]) && !seen.contains(ops[i].id),
    ensures
        held_checked(ops, seen, n) is Ok,
    decreases n,
{
    if n > 0 {
        lemma_held_checked(ops, seen, (n - 1) as nat);
        let op = ops[n - 1];
        let before = ops.take(n - 1);
        if holds_op(before, op.id) {
            let i = choose|i: int| 0 <= i < before.len() && (#[trigger] before[i]).id == op.id;
            assert(before[i] == ops[i]);
            assert(ops[i].id != ops[n - 1].id);
        }
    }
}

/// The replica that a snapshot of an idle one is read as.
spec fn read_again(d: DocV) -> DocV {
    DocV {
        client: d.client,
        tree: made_whole(d.written(), held_in_order(d.buffer)),
        lamport: d.lamport,
        zone_clocks: d.zone_clocks,
        mint_refused: false,
        seq: d.seq,
        atomic: None,
        seen: d.seen,
        buffer: held_in_order(d.buffer),
        resolved: d.resolved,
        pending: Seq::empty(),
        schema: None,
        history: HistoryV::empty(),
    }
}

/// An idle replica is assembled again as it was: nothing that waited applies.
proof fn lemma_assembled_idle(d: DocV)
    requires
        d.idle(),
        d.settled(),
        links_end(d.tree.parents),
        d.tree.maps.dom().contains(root_element()),
    ensures
        assembled(d.head(), d.written(), held_in_order(d.buffer)) == Ok::<DocV, DecodeError>(
            read_again(d),
        ),
{
    let ops = held_in_order(d.buffer);
    let x = read_again(d);
    let t = x.tree;
    lemma_waiting_same(d.buffer);
    law_a_snapshot_keeps_the_contents(d);
    assert forall|i: int| 0 <= i < ops.len() implies d.waits_rightly(#[trigger] ops[i]) && (
    ops[i].kind is XmlMove ==> d.placed_alike()) by {
        assert(ops.contains(ops[i]));
        let j: int = d.buffer.index_of(ops[i]);
        assert(d.buffer[j] == ops[i]);
    }
    lemma_held_checked(ops, d.seen, ops.len());
    assert(d.written().tree.maps.dom().contains(root_element())) by {
        assert(d.tree.written().maps.dom() =~= d.tree.maps.dom());
    }
    assert(untagged(ops, d.resolved) =~= ops) by {
        assert forall|i: int| 0 <= i < ops.len() implies untagged(ops, d.resolved)[i]
            == ops[i] by {
            assert(d.waits_rightly(ops[i]));
        }
    }
    assert forall|j: int|
        0 <= j < x.buffer.len() && (#[trigger] x.buffer[j]).tx is None implies !x.tree.ready(
        x.buffer[j],
    ) by {
        assert(d.waits_rightly(ops[j]));
        if t.ready(ops[j]) {
            lemma_ready_stores(t, d.tree, ops[j]);
        }
    }
    lemma_none_can(x, 0);
    assert forall|j: int| 0 <= j < ops.len() implies !complete_at(ops, j) by {
        lemma_incomplete(d.buffer, ops, j);
    }
    lemma_none_whole(ops, 0);
    assert(x.drained() == x) by {
        reveal(DocV::drained);
    }
}

/// A snapshot of an idle replica loads: everything the bytes spell is taken back, and what
/// waited waits again.
pub proof fn law_an_idle_snapshot_loads(a: Document)
    requires
        a.wf(),
        state_fits(a),
        a@.readable(),
        a@.settled(),
        a@.idle(),
        a@.tree.maps.dom().contains(root_element()),
    ensures
        exactly(parse_state(enc_state(a))) matches Ok(x) && x.client == a@.client && x.lamport
            == a@.lamport && x.zone_clocks == a@.zone_clocks && x.seq == a@.seq && x.seen
            == a@.seen && x.resolved == a@.resolved && x.tree.written() == a@.tree.written() && (
        forall|id: OpId| #[trigger] op_at(x.buffer, id) == op_at(a@.buffer, id)),
{
    assert(enc_state(a) + Seq::empty() =~= enc_state(a));
    law_a_snapshot_reads_back(a, Seq::empty());
    lemma_assembled_idle(a@);
    lemma_waiting_same(a@.buffer);
    lemma_written_again(a@);
}

/// A state that a reader makes whole is written as it was.
proof fn lemma_written_again(d: DocV)
    requires
        d.settled(),
    ensures
        made_whole(d.written(), held_in_order(d.buffer)).written() == d.tree.written(),
{
    let t = made_whole(d.written(), held_in_order(d.buffer));
    law_a_snapshot_keeps_the_contents(d);
    let p = t.written();
    let q = d.tree.written();
    let c = t.contents();
    let e = d.tree.contents();
    assert(c.maps == p.maps && e.maps == q.maps);
    assert(c.lists == p.lists && e.lists == q.lists);
    assert(c.texts == p.texts && e.texts == q.texts);
    assert(c.counters == p.counters && e.counters == q.counters);
    assert(c.xml_elements == p.xml_elements && e.xml_elements == q.xml_elements);
    assert(c.xml_fragments == p.xml_fragments && e.xml_fragments == q.xml_fragments);
    assert(c.ranged == p.ranged && e.ranged == q.ranged);
    assert(c.acl == p.acl && e.acl == q.acl);
}

/// A re-encode of a decoded snapshot is byte-stable, for a replica on which nothing that
/// waits can apply and whose links and figures are those a reader works out.
pub proof fn law_reencoding_is_stable(a: Document, b: Document)
    requires
        a.wf(),
        b.wf(),
        state_fits(a),
        a@.readable(),
        a@.settled(),
        a@.idle(),
        a@.tree.maps.dom().contains(root_element()),
        below_the_end(a@.tree.lists),
        below_the_end(a@.tree.texts),
        parse_state(enc_state(a)) == Ok::<(DocV, Seq<u8>), DecodeError>((b@, Seq::empty())),
    ensures
        enc_state(b) == enc_state(a),
{
    assert(enc_state(a) + Seq::empty() =~= enc_state(a));
    law_a_snapshot_reads_back(a, Seq::empty());
    lemma_assembled_idle(a@);
    assert(b@ == read_again(a@));
    lemma_waiting_same(a@.buffer);
    lemma_written_again(a@);
    assert(a.client == b.client && a.lamport == b.lamport && a.seq == b.seq) by {
        assert(a@.client == a.client && b@.client == b.client);
    }
    law_equal_states_encode_identically(a, b);
}

} // verus!
