//! A list's state as bytes: the ids that carry a value, in stamp order, then the deleted
//! ids as runs.
//!
//! A deleted id must survive to anchor later inserts, but its value is never read again,
//! so a run record is only its head, its length and the head's anchor. Runs are maximal
//! and come in head order, each longer than the cap cut into chained pieces.

use crate::anchor::{Anchor, Side};
use crate::codec::{len_u32, put_anchor, put_element_id, put_stamp, put_u32, Cursor, DecodeError};
use crate::element::{spec_handle, Element, ElementV};
use crate::elementid::{ElementId, ElementKind};
use crate::format::{
    enc_anchor, enc_stamp, enc_u32, exactly, fits_u32, lemma_concat_assoc, parse_anchor,
    parse_element_id, parse_scalar, parse_stamp, parse_u32, parse_u8, scalar_fits, Parsed,
};
use crate::list::{
    continues, dead_at, expand, key, lemma_add_run, lemma_run_unique, lemma_weld, run_id, run_of,
    run_place, run_places, runs_ok, spec_covers, step, DeadRun, ItemV, List, ListV, Node, SeqKey,
};
use crate::many::{
    enc_many, lemma_enc_many_none, lemma_enc_many_take, lemma_fold_reads_back, parse_fold,
};
use crate::map_state::{enc_slot_value, put_slot_value, rt_slot_value};
use crate::order::{ascends, in_order, lemma_ascends_unique, lemma_in_order};
use crate::roundtrip::{rt_anchor, rt_element_id, rt_stamp, rt_u32};
use crate::stamp::{stamp_lt, Stamp};
use crate::table::{lemma_entry, lemma_size, Key, Table};
use vstd::prelude::*;

verus! {

/// The most deleted ids one record covers.
pub const MAX_TOMBSTONE_RUN: u32 = 0x0010_0000;

/// One record of deleted ids.
#[derive(Clone, Copy, PartialEq, Eq, Debug, Structural)]
pub struct RunRec {
    pub start: Stamp,
    pub len: u32,
    pub anchor: Anchor,
}

// --- the format ---

/// A node's record: its id, its value and where it attaches.
pub open spec fn enc_node(l: ListV, id: Stamp) -> Seq<u8> {
    enc_stamp(id) + enc_slot_value(l.items[id].value) + enc_anchor(l.places[id])
}

pub open spec fn enc_run(r: RunRec) -> Seq<u8> {
    enc_stamp(r.start) + enc_u32(r.len) + enc_anchor(r.anchor)
}

/// A run cut into records no longer than the cap, each but the first the right child of
/// the last id of the one before it.
pub open spec fn run_chunks(head: Stamp, len: u64, anchor: Anchor) -> Seq<RunRec>
    decreases len,
{
    if len == 0 {
        Seq::empty()
    } else if len <= MAX_TOMBSTONE_RUN {
        seq![RunRec { start: head, len: len as u32, anchor }]
    } else {
        seq![RunRec { start: head, len: MAX_TOMBSTONE_RUN, anchor }] + run_chunks(
            step(head, MAX_TOMBSTONE_RUN as int),
            (len - MAX_TOMBSTONE_RUN) as u64,
            Anchor { parent: Some(step(head, MAX_TOMBSTONE_RUN - 1)), side: Side::Right },
        )
    }
}

/// The records of the runs with these heads.
pub open spec fn all_chunks(dead: Map<Stamp, DeadRun>, heads: Seq<Stamp>) -> Seq<RunRec>
    decreases heads.len(),
{
    if heads.len() == 0 {
        Seq::empty()
    } else {
        let h = heads.last();
        all_chunks(dead, heads.drop_last()) + run_chunks(h, dead[h].len, dead[h].anchor)
    }
}

pub open spec fn list_chunks(dead: Map<Stamp, DeadRun>) -> Seq<RunRec> {
    all_chunks(dead, in_order(dead.dom()))
}

pub open spec fn node_enc(l: ListV) -> spec_fn(Stamp) -> Seq<u8> {
    |id: Stamp| enc_node(l, id)
}

pub open spec fn run_enc() -> spec_fn(RunRec) -> Seq<u8> {
    |r: RunRec| enc_run(r)
}

/// A list's state: its id, its nodes in stamp order, and its deleted runs.
pub open spec fn enc_list(l: ListV, dead: Map<Stamp, DeadRun>) -> Seq<u8> {
    l.id.bytes() + enc_u32(in_order(l.items.dom()).len() as u32) + enc_many(
        in_order(l.items.dom()),
        node_enc(l),
    ) + enc_u32(list_chunks(dead).len() as u32) + enc_many(list_chunks(dead), run_enc())
}

/// Whether a node's value has a form in the state: not a bare register, no length past
/// its prefix.
pub open spec fn node_fits(v: ElementV) -> bool {
    match v {
        ElementV::Scalar(s) => scalar_fits(s),
        ElementV::Register(_) => false,
        _ => true,
    }
}

pub open spec fn list_fits(l: ListV, dead: Map<Stamp, DeadRun>) -> bool {
    &&& fits_u32(in_order(l.items.dom()).len())
    &&& fits_u32(list_chunks(dead).len())
    &&& forall|id: Stamp| #[trigger] l.items.dom().contains(id) ==> node_fits(l.items[id].value)
}

/// Whether the state carries every id of the list: each stamp with offset zero.
pub open spec fn list_carried(l: ListV) -> bool {
    forall|id: Stamp| #[trigger]
        l.places.dom().contains(id) ==> id.offset == 0 && crate::format::anchor_carried(
            l.places[id],
        )
}

/// The list as its bytes have it: a tree move's effect and a displacement are read off
/// the rest of the document.
pub open spec fn as_written(l: ListV) -> ListV {
    ListV {
        items: l.items.map_values(|x: ItemV| ItemV { moved_away: false, ..x }),
        displaced: false,
        ..l
    }
}

#[verifier::opaque]
pub open spec fn parse_node_value(s: Seq<u8>) -> Parsed<ElementV> {
    match parse_u8(s) {
        Err(e) => Err(e),
        Ok((0u8, r)) => match parse_scalar(r) {
            Err(e) => Err(e),
            Ok((v, r)) => Ok((ElementV::Scalar(v), r)),
        },
        Ok((tag, r)) => match ElementKind::spec_from_tag(tag) {
            Some(kind) if kind != ElementKind::Register => match parse_element_id(r) {
                Err(e) => Err(e),
                Ok((id, r)) => Ok((spec_handle(kind, id)->Some_0, r)),
            },
            _ => Err(DecodeError::BadTag { what: "list node value", tag }),
        },
    }
}

/// Reads one node into a list; an id the list already has is malformed.
pub open spec fn parse_node(l: ListV, s: Seq<u8>) -> Parsed<ListV> {
    match parse_stamp(s) {
        Err(e) => Err(e),
        Ok((id, r)) => match parse_node_value(r) {
            Err(e) => Err(e),
            Ok((value, r)) => match parse_anchor(r) {
                Err(e) => Err(e),
                Ok((anchor, r)) => if l.items.dom().contains(id) {
                    Err(DecodeError::BadTag { what: "list: duplicate node id", tag: 0 })
                } else {
                    Ok(
                        (
                            ListV {
                                places: l.places.insert(id, anchor),
                                items: l.items.insert(id, ItemV { value, moved_away: false }),
                                ..l
                            },
                            r,
                        ),
                    )
                },
            },
        },
    }
}

pub open spec fn node_step() -> spec_fn(ListV, Seq<u8>) -> Parsed<ListV> {
    |l: ListV, s: Seq<u8>| parse_node(l, s)
}

/// Reads one run record; one that is empty or over the cap is malformed.
pub open spec fn parse_run(runs: Seq<RunRec>, s: Seq<u8>) -> Parsed<Seq<RunRec>> {
    match parse_stamp(s) {
        Err(e) => Err(e),
        Ok((start, r)) => match parse_u32(r) {
            Err(e) => Err(e),
            Ok((len, r)) => match parse_anchor(r) {
                Err(e) => Err(e),
                Ok((anchor, r)) => if len == 0 || len > MAX_TOMBSTONE_RUN {
                    Err(DecodeError::BadTag { what: "list: tombstone run length", tag: 0 })
                } else {
                    Ok((runs.push(RunRec { start, len, anchor }), r))
                },
            },
        },
    }
}

pub open spec fn run_step() -> spec_fn(Seq<RunRec>, Seq<u8>) -> Parsed<Seq<RunRec>> {
    |runs: Seq<RunRec>, s: Seq<u8>| parse_run(runs, s)
}

/// Whether the list has some id of a record.
pub open spec fn overlaps(l: ListV, r: RunRec) -> bool {
    exists|id: Stamp| #[trigger]
        l.places.dom().contains(id) && spec_covers(r.start, r.len as u64, id)
}

/// The list with a record's ids deleted in it.
pub open spec fn with_run(l: ListV, r: RunRec) -> ListV {
    ListV {
        places: l.places.union_prefer_right(
            run_places(r.start, DeadRun { len: r.len as u64, anchor: r.anchor }),
        ),
        ..l
    }
}

/// Adds records to a list in turn; one past the lamport space, or with an id the list
/// already has, is malformed.
pub open spec fn install_runs(l: ListV, runs: Seq<RunRec>) -> Result<ListV, DecodeError>
    decreases runs.len(),
{
    if runs.len() == 0 {
        Ok(l)
    } else {
        let r = runs[0];
        if r.start.lamport + r.len - 1 > u64::MAX {
            Err(DecodeError::BadTag { what: "list: tombstone run overflows lamport", tag: 0 })
        } else if overlaps(l, r) {
            Err(DecodeError::BadTag { what: "list: duplicate node id", tag: 0 })
        } else {
            install_runs(with_run(l, r), runs.skip(1))
        }
    }
}

pub open spec fn empty_list(id: ElementId) -> ListV {
    ListV { id, places: Map::empty(), items: Map::empty(), displaced: false }
}

/// Reads a list's runs and adds them to its nodes.
pub open spec fn parse_dead(l: ListV, s: Seq<u8>) -> Parsed<ListV> {
    match parse_u32(s) {
        Err(e) => Err(e),
        Ok((n, r)) => match parse_fold(r, n as nat, Seq::<RunRec>::empty(), run_step()) {
            Err(e) => Err(e),
            Ok((runs, r)) => match install_runs(l, runs) {
                Err(e) => Err(e),
                Ok(l) => Ok((l, r)),
            },
        },
    }
}

pub open spec fn parse_list(s: Seq<u8>) -> Parsed<ListV> {
    match parse_element_id(s) {
        Err(e) => Err(e),
        Ok((id, r)) => match parse_u32(r) {
            Err(e) => Err(e),
            Ok((n, r)) => match parse_fold(r, n as nat, empty_list(id), node_step()) {
                Err(e) => Err(e),
                Ok((l, r)) => parse_dead(l, r),
            },
        },
    }
}

/// Whether every node holds a scalar.
pub open spec fn only_scalars(l: ListV) -> bool {
    forall|id: Stamp| #[trigger] l.items.dom().contains(id) ==> l.items[id].value is Scalar
}

/// A list on its own: the whole input, and only scalars in it.
pub open spec fn parse_bare_list(s: Seq<u8>) -> Result<ListV, DecodeError> {
    match parse_list(s) {
        Err(e) => Err(e),
        Ok((l, r)) => if !only_scalars(l) {
            Err(DecodeError::BadTag { what: "bare list: composite node reference", tag: 0 })
        } else {
            exactly(Ok((l, r)))
        },
    }
}

// --- writing ---

/// The keys of a table in stamp order.
fn by_stamp<V>(t: &Table<SeqKey, V>) -> (out: Vec<Stamp>)
    requires
        t.wf(),
    ensures
        out@ == in_order(t@.dom()),
        t@.dom().finite(),
        forall|i: int| 0 <= i < out@.len() ==> t@.dom().contains(#[trigger] out@[i]),
{
    let mut sorted_ids: Table<Stamp, ()> = Table::new();
    let mut i: usize = 0;
    let ghost e = t.entries@;
    while i < t.entries.len()
        invariant
            t.wf(),
            e == t.entries@,
            sorted_ids.wf(),
            i <= e.len(),
            forall|x: Stamp| #[trigger] sorted_ids@.dom().contains(x) ==> t@.dom().contains(x),
            forall|j: int| 0 <= j < i ==> sorted_ids@.dom().contains((#[trigger] e[j]).0@),
        decreases e.len() - i,
    {
        proof {
            lemma_entry::<SeqKey, V>(e, i as int);
        }
        sorted_ids.insert(t.entries[i].0.id, ());
        i += 1;
    }
    let mut out: Vec<Stamp> = Vec::new();
    let mut j: usize = 0;
    let ghost s = sorted_ids.entries@;
    while j < sorted_ids.entries.len()
        invariant
            s == sorted_ids.entries@,
            j <= s.len(),
            out@.len() == j,
            forall|k: int| 0 <= k < j ==> #[trigger] out@[k] == s[k].0,
        decreases s.len() - j,
    {
        out.push(sorted_ids.entries[j].0);
        j += 1;
    }
    proof {
        lemma_size::<SeqKey, V>(e);
        assert(ascends(out@)) by {
            assert forall|a: int, b: int| 0 <= a < b < out@.len() implies stamp_lt(
                #[trigger] out@[a],
                #[trigger] out@[b],
            ) by {
                assert(<Stamp as Key>::before(s[a].0@, s[b].0@));
            }
        }
        assert(out@.to_set() =~= t@.dom()) by {
            assert forall|x: Stamp| out@.to_set().contains(x) <==> t@.dom().contains(x) by {
                if out@.contains(x) {
                    let k = out@.index_of(x);
                    lemma_entry::<Stamp, ()>(s, k);
                    assert(sorted_ids@.dom().contains(x));
                }
                if t@.dom().contains(x) {
                    let k = choose|k: int| 0 <= k < e.len() && (#[trigger] e[k]).0@ == x;
                    assert(sorted_ids@.dom().contains(e[k].0@));
                    let m = choose|m: int| 0 <= m < s.len() && (#[trigger] s[m]).0@ == x;
                    assert(out@[m] == x);
                }
            }
        }
        lemma_in_order(t@.dom());
        lemma_ascends_unique(out@, in_order(t@.dom()));
        assert forall|k: int| 0 <= k < out@.len() implies t@.dom().contains(#[trigger] out@[k]) by {
            assert(out@.to_set().contains(out@[k]));
        }
    }
    out
}

/// The records of one run, appended.
fn push_chunks(out: &mut Vec<RunRec>, head: Stamp, len: u64, anchor: Anchor)
    requires
        len >= 1,
        head.lamport + len - 1 <= u64::MAX,
    ensures
        final(out)@ == old(out)@ + run_chunks(head, len, anchor),
{
    let ghost start = out@;
    let mut off: u64 = 0;
    let mut at = anchor;
    proof {
        assert(step(head, 0) == head);
    }
    while len - off > MAX_TOMBSTONE_RUN as u64
        invariant
            off < len,
            head.lamport + len - 1 <= u64::MAX,
            start + run_chunks(head, len, anchor) == out@ + run_chunks(
                step(head, off as int),
                (len - off) as u64,
                at,
            ),
        decreases len - off,
    {
        let ghost before = out@;
        out.push(RunRec { start: run_id(head, off), len: MAX_TOMBSTONE_RUN, anchor: at });
        proof {
            let h = step(head, off as int);
            let m = MAX_TOMBSTONE_RUN as int;
            assert(step(h, m) == step(head, off + m));
            assert(step(h, m - 1) == step(head, off + m - 1));
            let rec = RunRec { start: h, len: MAX_TOMBSTONE_RUN, anchor: at };
            let tail = run_chunks(
                step(h, m),
                (len - off - m) as u64,
                Anchor { parent: Some(step(h, m - 1)), side: Side::Right },
            );
            assert(before + (seq![rec] + tail) =~= before.push(rec) + tail);
        }
        off = off + MAX_TOMBSTONE_RUN as u64;
        at = Anchor { parent: Some(run_id(head, off - 1)), side: Side::Right };
    }
    let ghost before = out@;
    let last: u64 = len - off;
    out.push(RunRec { start: run_id(head, off), len: last as u32, anchor: at });
    proof {
        let rec = RunRec { start: step(head, off as int), len: last as u32, anchor: at };
        assert(before + seq![rec] =~= before.push(rec));
    }
}

impl List {
    /// The deleted ids as records, in head order.
    fn chunks(&self) -> (out: Vec<RunRec>)
        requires
            self.wf(),
        ensures
            out@ == list_chunks(self.dead@),
    {
        let heads = by_stamp(&self.dead);
        let mut out: Vec<RunRec> = Vec::new();
        let mut i: usize = 0;
        while i < heads.len()
            invariant
                self.wf(),
                i <= heads@.len(),
                forall|j: int|
                    0 <= j < heads@.len() ==> self.dead@.dom().contains(#[trigger] heads@[j]),
                out@ == all_chunks(self.dead@, heads@.take(i as int)),
            decreases heads@.len() - i,
        {
            let h = heads[i];
            proof {
                assert(heads@.take(i + 1).drop_last() =~= heads@.take(i as int));
                assert(self.dead@.dom().contains(heads@[i as int]));
            }
            if let Some(run) = self.dead.get(&key(h)) {
                push_chunks(&mut out, h, run.len, run.anchor);
            }
            i += 1;
        }
        proof {
            assert(heads@.take(i as int) =~= heads@);
        }
        out
    }

    /// Append this list's state to `out`. Equal lists encode identically.
    pub fn encode_state_into(&self, out: &mut Vec<u8>)
        requires
            self.wf(),
            list_fits(self@, self.dead@),
        ensures
            final(out)@ == old(out)@ + enc_list(self@, self.dead@),
    {
        let ghost start = out@;
        let ghost l = self@;
        put_element_id(out, &self.id);
        let ids = by_stamp(&self.nodes);
        proof {
            assert(l.items.dom() =~= self.nodes@.dom());
        }
        put_u32(out, len_u32(ids.len()));
        let ghost head = out@;
        let mut i: usize = 0;
        proof {
            lemma_enc_many_none(ids@, node_enc(l));
            assert(head + Seq::<u8>::empty() =~= head);
        }
        while i < ids.len()
            invariant
                self.wf(),
                l == self@,
                list_fits(l, self.dead@),
                i <= ids@.len(),
                forall|j: int| 0 <= j < ids@.len() ==> self.nodes@.dom().contains(#[trigger] ids@[j]),
                out@ == head + enc_many(ids@.take(i as int), node_enc(l)),
            decreases ids@.len() - i,
        {
            let id = ids[i];
            let ghost before = out@;
            proof {
                assert(self.nodes@.dom().contains(ids@[i as int]));
                assert(l.items.dom().contains(id));
                lemma_enc_many_take(ids@, i as int, node_enc(l));
            }
            if let Some(node) = self.nodes.get(&key(id)) {
                put_stamp(out, &id);
                put_slot_value(out, &node.value);
                put_anchor(out, &node.anchor);
                proof {
                    let a = enc_stamp(id);
                    let b = enc_slot_value(node.value@);
                    let c = enc_anchor(node.anchor);
                    lemma_concat_assoc(before, a, b);
                    lemma_concat_assoc(before, a + b, c);
                    lemma_concat_assoc(
                        head,
                        enc_many(ids@.take(i as int), node_enc(l)),
                        enc_node(l, id),
                    );
                }
            }
            i += 1;
        }
        proof {
            assert(ids@.take(i as int) =~= ids@);
        }
        let runs = self.chunks();
        put_u32(out, len_u32(runs.len()));
        let ghost tail = out@;
        let mut j: usize = 0;
        proof {
            lemma_enc_many_none(runs@, run_enc());
            assert(tail + Seq::<u8>::empty() =~= tail);
        }
        while j < runs.len()
            invariant
                j <= runs@.len(),
                out@ == tail + enc_many(runs@.take(j as int), run_enc()),
            decreases runs@.len() - j,
        {
            let r = runs[j];
            let ghost before = out@;
            put_stamp(out, &r.start);
            put_u32(out, r.len);
            put_anchor(out, &r.anchor);
            proof {
                lemma_enc_many_take(runs@, j as int, run_enc());
                let a = enc_stamp(r.start);
                let b = enc_u32(r.len);
                let c = enc_anchor(r.anchor);
                lemma_concat_assoc(before, a, b);
                lemma_concat_assoc(before, a + b, c);
                lemma_concat_assoc(tail, enc_many(runs@.take(j as int), run_enc()), enc_run(r));
            }
            j += 1;
        }
        proof {
            assert(runs@.take(j as int) =~= runs@);
            let a = l.id.bytes();
            let b = enc_u32(ids@.len() as u32);
            let c = enc_many(ids@, node_enc(l));
            let d = enc_u32(runs@.len() as u32);
            let e = enc_many(runs@, run_enc());
            assert((((start + a) + b) + c) + d + e =~= start + (a + b + c + d + e));
        }
    }

    /// This list's state.
    pub fn encode_state(&self) -> (out: Vec<u8>)
        requires
            self.wf(),
            list_fits(self@, self.dead@),
        ensures
            out@ == enc_list(self@, self.dead@),
    {
        let mut out: Vec<u8> = Vec::new();
        self.encode_state_into(&mut out);
        proof {
            assert(Seq::<u8>::empty() + enc_list(self@, self.dead@) =~= enc_list(self@, self.dead@));
        }
        out
    }

    /// Read a list from `cur`, advancing it. A composite node is its handle; whether the
    /// handle names anything is the document's to check.
    pub(crate) fn decode_state_from(cur: &mut Cursor) -> (r: Result<List, DecodeError>)
        ensures
            crate::codec::reads_view(r, parse_list(old(cur).rest@), final(cur).rest@),
            r matches Ok(l) ==> l.wf(),
    {
        let id = cur.element_id()?;
        let mut list = List::new(id);
        let count: u32 = cur.u32()?;
        let mut i: u32 = 0;
        proof {
            assert(list@ == empty_list(id));
        }
        while i < count
            invariant
                i <= count,
                list.wf(),
                list@.places.dom() =~= list@.items.dom(),
                parse_list(old(cur).rest@) == (match parse_fold(
                    cur.rest@,
                    (count - i) as nat,
                    list@,
                    node_step(),
                ) {
                    Err(e) => Err::<(ListV, Seq<u8>), DecodeError>(e),
                    Ok((l, r)) => parse_dead(l, r),
                }),
            decreases count - i,
        {
            read_node(cur, &mut list)?;
            i += 1;
        }
        read_dead(cur, &mut list)?;
        Ok(list)
    }

    /// Read a list from a complete byte slice, rejecting trailing bytes. A list on its
    /// own holds only scalars, so a composite reference is rejected.
    pub fn decode_state(bytes: &[u8]) -> (r: Result<List, DecodeError>)
        ensures
            match r {
                Ok(l) => l.wf() && parse_bare_list(bytes@) == Ok::<ListV, DecodeError>(l@),
                Err(e) => parse_bare_list(bytes@) == Err::<ListV, DecodeError>(e),
            },
    {
        let mut cur = Cursor::new(bytes);
        let list = List::decode_state_from(&mut cur)?;
        let mut i: usize = 0;
        while i < list.nodes.entries.len()
            invariant
                list.wf(),
                i <= list.nodes.entries@.len(),
                parse_list(bytes@) == Ok::<(ListV, Seq<u8>), DecodeError>((list@, cur.rest@)),
                forall|j: int|
                    0 <= j < i ==> (#[trigger] list.nodes.entries@[j]).1.value@ is Scalar,
            decreases list.nodes.entries@.len() - i,
        {
            proof {
                lemma_entry::<SeqKey, Node>(list.nodes.entries@, i as int);
            }
            match &list.nodes.entries[i].1.value {
                Element::Scalar(_) => {},
                _ => {
                    proof {
                        assert(list@.items.dom().contains(list.nodes.entries@[i as int].0@));
                    }
                    return Err(
                        DecodeError::BadTag { what: "bare list: composite node reference", tag: 0 },
                    );
                },
            }
            i += 1;
        }
        proof {
            assert forall|id: Stamp| #[trigger] list@.items.dom().contains(id)
                implies list@.items[id].value is Scalar by {
                let e = list.nodes.entries@;
                let k = choose|k: int| 0 <= k < e.len() && (#[trigger] e[k]).0@ == id;
                lemma_entry::<SeqKey, Node>(e, k);
            }
        }
        if cur.at_end() {
            Ok(list)
        } else {
            Err(DecodeError::TrailingBytes)
        }
    }
}

// --- reading ---

fn read_node_value(cur: &mut Cursor) -> (r: Result<Element, DecodeError>)
    ensures
        crate::codec::reads_view(r, parse_node_value(old(cur).rest@), final(cur).rest@),
{
    reveal(parse_node_value);
    let tag: u8 = cur.u8()?;
    if tag == 0 {
        return Ok(Element::Scalar(cur.scalar()?));
    }
    match ElementKind::from_tag(tag) {
        Some(kind) => {
            if let ElementKind::Register = kind {
                return Err(DecodeError::BadTag { what: "list node value", tag });
            }
            let id = cur.element_id()?;
            match Element::handle(kind, id) {
                Some(e) => Ok(e),
                None => Err(DecodeError::BadTag { what: "list node value", tag }),
            }
        },
        None => Err(DecodeError::BadTag { what: "list node value", tag }),
    }
}

fn read_node(cur: &mut Cursor, list: &mut List) -> (r: Result<(), DecodeError>)
    requires
        old(list).wf(),
        old(list)@.places.dom() =~= old(list)@.items.dom(),
    ensures
        final(list).wf(),
        final(list)@.places.dom() =~= final(list)@.items.dom(),
        match r {
            Ok(_) => parse_node(old(list)@, old(cur).rest@) == Ok::<(ListV, Seq<u8>), DecodeError>(
                (final(list)@, final(cur).rest@),
            ),
            Err(e) => parse_node(old(list)@, old(cur).rest@) == Err::<
                (ListV, Seq<u8>),
                DecodeError,
            >(e),
        },
{
    let id = cur.stamp()?;
    let value = read_node_value(cur)?;
    let anchor = cur.anchor()?;
    if list.nodes.contains_key(&key(id)) {
        return Err(DecodeError::BadTag { what: "list: duplicate node id", tag: 0 });
    }
    proof {
        list.lemma_places(id);
    }
    list.insert_at(id, value, anchor);
    Ok(())
}

fn read_run(cur: &mut Cursor, runs: &mut Vec<RunRec>) -> (r: Result<(), DecodeError>)
    requires
        forall|i: int| 0 <= i < old(runs)@.len() ==> (#[trigger] old(runs)@[i]).len >= 1,
    ensures
        forall|i: int| 0 <= i < final(runs)@.len() ==> (#[trigger] final(runs)@[i]).len >= 1,
        match r {
            Ok(_) => parse_run(old(runs)@, old(cur).rest@) == Ok::<
                (Seq<RunRec>, Seq<u8>),
                DecodeError,
            >((final(runs)@, final(cur).rest@)),
            Err(e) => parse_run(old(runs)@, old(cur).rest@) == Err::<
                (Seq<RunRec>, Seq<u8>),
                DecodeError,
            >(e),
        },
{
    let start = cur.stamp()?;
    let len: u32 = cur.u32()?;
    let anchor = cur.anchor()?;
    if len == 0 || len > MAX_TOMBSTONE_RUN {
        return Err(DecodeError::BadTag { what: "list: tombstone run length", tag: 0 });
    }
    runs.push(RunRec { start, len, anchor });
    Ok(())
}

fn read_dead(cur: &mut Cursor, list: &mut List) -> (r: Result<(), DecodeError>)
    requires
        old(list).wf(),
    ensures
        final(list).wf(),
        match r {
            Ok(_) => parse_dead(old(list)@, old(cur).rest@) == Ok::<(ListV, Seq<u8>), DecodeError>(
                (final(list)@, final(cur).rest@),
            ),
            Err(e) => parse_dead(old(list)@, old(cur).rest@) == Err::<
                (ListV, Seq<u8>),
                DecodeError,
            >(e),
        },
{
    let ghost l0 = list@;
    let ghost s0 = cur.rest@;
    let count: u32 = cur.u32()?;
    let mut runs: Vec<RunRec> = Vec::new();
    let mut i: u32 = 0;
    while i < count
        invariant
            i <= count,
            list.wf(),
            l0 == list@,
            l0 == old(list)@,
            s0 == old(cur).rest@,
            forall|k: int| 0 <= k < runs@.len() ==> (#[trigger] runs@[k]).len >= 1,
            parse_dead(l0, s0) == (match parse_fold(
                cur.rest@,
                (count - i) as nat,
                runs@,
                run_step(),
            ) {
                Err(e) => Err::<(ListV, Seq<u8>), DecodeError>(e),
                Ok((runs, r)) => match install_runs(l0, runs) {
                    Err(e) => Err(e),
                    Ok(l) => Ok((l, r)),
                },
            }),
        decreases count - i,
    {
        read_run(cur, &mut runs)?;
        i += 1;
    }
    let mut j: usize = 0;
    proof {
        assert(runs@.skip(0) =~= runs@);
    }
    while j < runs.len()
        invariant
            list.wf(),
            l0 == old(list)@,
            s0 == old(cur).rest@,
            j <= runs@.len(),
            forall|k: int| 0 <= k < runs@.len() ==> (#[trigger] runs@[k]).len >= 1,
            parse_dead(l0, s0) == (match install_runs(list@, runs@.skip(j as int)) {
                Err(e) => Err::<(ListV, Seq<u8>), DecodeError>(e),
                Ok(l) => Ok((l, cur.rest@)),
            }),
        decreases runs@.len() - j,
    {
        let r = runs[j];
        proof {
            assert(runs@[j as int].len >= 1);
            assert(runs@.skip(j as int)[0] == r);
            assert(runs@.skip(j as int).skip(1) =~= runs@.skip(j + 1));
        }
        let last: u64 = match r.start.lamport.checked_add((r.len - 1) as u64) {
            Some(last) => last,
            None => {
                return Err(
                    DecodeError::BadTag { what: "list: tombstone run overflows lamport", tag: 0 },
                );
            },
        };
        if list.holds_any(r.start, last) {
            proof {
                let id = choose|id: Stamp| #[trigger]
                    list@.places.dom().contains(id) && id.client == r.start.client && id.offset
                        == r.start.offset && r.start.lamport <= id.lamport <= last;
                assert(spec_covers(r.start, r.len as u64, id));
                assert(overlaps(list@, r));
            }
            return Err(DecodeError::BadTag { what: "list: duplicate node id", tag: 0 });
        }
        let ghost before = list@;
        proof {
            assert(!overlaps(list@, r));
            assert forall|id: Stamp| #[trigger] spec_covers(r.start, r.len as u64, id)
                implies !dead_at(
                list.dead@,
                id,
            ) && !list.nodes@.dom().contains(id) by {
                list.lemma_places(id);
                if list@.places.dom().contains(id) {
                    assert(overlaps(list@, r));
                }
            }
        }
        let ghost run = run_places(r.start, DeadRun { len: r.len as u64, anchor: r.anchor });
        let ghost nodes = crate::list::anchors_of(list.nodes@);
        let ghost dead = expand(list.dead@);
        list.add_dead(r.start, r.len as u64, r.anchor);
        proof {
            let w = with_run(before, r);
            assert(dead.union_prefer_right(run).union_prefer_right(nodes)
                =~= dead.union_prefer_right(nodes).union_prefer_right(run));
            assert(list@ =~= w);
        }
        j += 1;
    }
    proof {
        assert(runs@.skip(j as int) =~= Seq::empty());
    }
    Ok(())
}

// --- laws ---

/// The lists on the way from an empty one to one with nodes `ids`.
spec fn nodes_upto(l: ListV, ids: Seq<Stamp>, i: int) -> ListV {
    ListV {
        id: l.id,
        places: l.places.restrict(ids.take(i).to_set()),
        items: l.items.restrict(ids.take(i).to_set()),
        displaced: false,
    }
}

proof fn rt_node_value(v: ElementV, rest: Seq<u8>)
    requires
        node_fits(v),
    ensures
        parse_node_value(enc_slot_value(v) + rest) == Ok::<(ElementV, Seq<u8>), DecodeError>(
            (v, rest),
        ),
{
    rt_slot_value(v, rest);
    reveal(crate::map_state::parse_slot_value);
    reveal(parse_node_value);
    reveal(enc_slot_value);
    broadcast use {crate::roundtrip::rt_u8, lemma_concat_assoc};

}

proof fn rt_node(l: ListV, id: Stamp, acc: ListV, rest: Seq<u8>)
    requires
        l.items.dom().contains(id),
        l.places.dom().contains(id),
        list_carried(l),
        node_fits(l.items[id].value),
        !acc.items.dom().contains(id),
    ensures
        parse_node(acc, enc_node(l, id) + rest) == Ok::<(ListV, Seq<u8>), DecodeError>(
            (
                ListV {
                    places: acc.places.insert(id, l.places[id]),
                    items: acc.items.insert(id, ItemV { moved_away: false, ..l.items[id] }),
                    ..acc
                },
                rest,
            ),
        ),
{
    let a = enc_stamp(id);
    let b = enc_slot_value(l.items[id].value);
    let c = enc_anchor(l.places[id]);
    lemma_concat_assoc(a + b, c, rest);
    lemma_concat_assoc(a, b, c + rest);
    rt_stamp(id, b + (c + rest));
    rt_node_value(l.items[id].value, c + rest);
    rt_anchor(l.places[id], rest);
}

proof fn lemma_nodes_read_back(l: ListV, rest: Seq<u8>)
    requires
        l.items.dom().finite(),
        l.items.dom().subset_of(l.places.dom()),
        list_carried(l),
        l == as_written(l),
        forall|id: Stamp| #[trigger] l.items.dom().contains(id) ==> node_fits(l.items[id].value),
    ensures
        parse_fold(
            enc_many(in_order(l.items.dom()), node_enc(l)) + rest,
            in_order(l.items.dom()).len(),
            empty_list(l.id),
            node_step(),
        ) == Ok::<(ListV, Seq<u8>), DecodeError>(
            (ListV { places: l.places.restrict(l.items.dom()), ..l }, rest),
        ),
{
    let ids = in_order(l.items.dom());
    lemma_in_order(l.items.dom());
    let accs = Seq::new(ids.len() + 1, |i: int| nodes_upto(l, ids, i));
    assert forall|i: int, r: Seq<u8>| 0 <= i < ids.len() implies #[trigger] node_step()(
        accs[i],
        node_enc(l)(ids[i]) + r,
    ) == Ok::<(ListV, Seq<u8>), DecodeError>((accs[i + 1], r)) by {
        let id = ids[i];
        assert(ids.to_set().contains(id));
        assert(!ids.take(i).contains(id)) by {
            if ids.take(i).contains(id) {
                let j = ids.take(i).index_of(id);
                assert(stamp_lt(ids[j], ids[i]));
            }
        }
        rt_node(l, id, accs[i], r);
        assert(l.items[id] == as_written(l).items[id]);
        assert(ids.take(i + 1) =~= ids.take(i).push(id));
        assert(ids.take(i + 1).to_set() =~= ids.take(i).to_set().insert(id)) by {
            crate::table::lemma_push_set(ids.take(i), id);
        }
        assert(accs[i].places.insert(id, l.places[id]) =~= accs[i + 1].places);
        assert(accs[i].items.insert(id, l.items[id]) =~= accs[i + 1].items);
    }
    lemma_fold_reads_back(ids, node_enc(l), accs, node_step(), rest);
    assert(ids.take(0).to_set() =~= Set::empty());
    assert(accs[0].places =~= Map::empty());
    assert(accs[0].items =~= Map::empty());
    assert(ids.take(ids.len() as int) =~= ids);
    assert(accs.last().items =~= l.items);
}

proof fn lemma_chunk_sizes(head: Stamp, len: u64, anchor: Anchor)
    requires
        head.offset == 0,
        crate::format::anchor_carried(anchor),
    ensures
        forall|i: int|
            0 <= i < run_chunks(head, len, anchor).len() ==> chunk_ok(
                #[trigger] run_chunks(head, len, anchor)[i],
            ),
    decreases len,
{
    if len > MAX_TOMBSTONE_RUN {
        lemma_chunk_sizes(
            step(head, MAX_TOMBSTONE_RUN as int),
            (len - MAX_TOMBSTONE_RUN) as u64,
            Anchor { parent: Some(step(head, MAX_TOMBSTONE_RUN - 1)), side: Side::Right },
        );
        let later = run_chunks(
            step(head, MAX_TOMBSTONE_RUN as int),
            (len - MAX_TOMBSTONE_RUN) as u64,
            Anchor { parent: Some(step(head, MAX_TOMBSTONE_RUN - 1)), side: Side::Right },
        );
        let all = run_chunks(head, len, anchor);
        assert forall|i: int| 0 <= i < all.len() implies chunk_ok(#[trigger] all[i]) by {
            if i > 0 {
                assert(all[i] == later[i - 1]);
            }
        }
    }
}

/// Whether a record is one a reader takes.
spec fn chunk_ok(r: RunRec) -> bool {
    0 < r.len <= MAX_TOMBSTONE_RUN && r.start.offset == 0 && crate::format::anchor_carried(r.anchor)
}

proof fn lemma_all_chunk_sizes(dead: Map<Stamp, DeadRun>, heads: Seq<Stamp>)
    requires
        forall|i: int|
            0 <= i < heads.len() ==> (#[trigger] heads[i]).offset == 0
                && crate::format::anchor_carried(dead[heads[i]].anchor),
    ensures
        forall|i: int|
            0 <= i < all_chunks(dead, heads).len() ==> chunk_ok(
                #[trigger] all_chunks(dead, heads)[i],
            ),
    decreases heads.len(),
{
    if heads.len() > 0 {
        let t = heads.drop_last();
        assert forall|i: int| 0 <= i < t.len() implies (#[trigger] t[i]).offset == 0
            && crate::format::anchor_carried(dead[t[i]].anchor) by {
            assert(t[i] == heads[i]);
        }
        assert(heads[heads.len() - 1].offset == 0);
        let h = heads.last();
        lemma_all_chunk_sizes(dead, t);
        lemma_chunk_sizes(h, dead[h].len, dead[h].anchor);
        let front = all_chunks(dead, t);
        let back = run_chunks(h, dead[h].len, dead[h].anchor);
        let all = all_chunks(dead, heads);
        assert forall|i: int| 0 <= i < all.len() implies chunk_ok(#[trigger] all[i]) by {
            if i < front.len() {
                assert(all[i] == front[i]);
            } else {
                assert(all[i] == back[i - front.len()]);
            }
        }
    }
}

proof fn lemma_runs_read_back(runs: Seq<RunRec>, rest: Seq<u8>)
    requires
        forall|i: int| 0 <= i < runs.len() ==> chunk_ok(#[trigger] runs[i]),
    ensures
        parse_fold(
            enc_many(runs, run_enc()) + rest,
            runs.len(),
            Seq::<RunRec>::empty(),
            run_step(),
        ) == Ok::<(Seq<RunRec>, Seq<u8>), DecodeError>((runs, rest)),
{
    let accs = Seq::new(runs.len() + 1, |i: int| runs.take(i));
    assert forall|i: int, s: Seq<u8>| 0 <= i < runs.len() implies #[trigger] run_step()(
        accs[i],
        run_enc()(runs[i]) + s,
    ) == Ok::<(Seq<RunRec>, Seq<u8>), DecodeError>((accs[i + 1], s)) by {
        let r = runs[i];
        let a = enc_stamp(r.start);
        let b = enc_u32(r.len);
        let c = enc_anchor(r.anchor);
        lemma_concat_assoc(a + b, c, s);
        lemma_concat_assoc(a, b, c + s);
        rt_stamp(r.start, b + (c + s));
        rt_u32(r.len, c + s);
        rt_anchor(r.anchor, s);
        assert(runs.take(i + 1) =~= runs.take(i).push(r));
    }
    lemma_fold_reads_back(runs, run_enc(), accs, run_step(), rest);
    assert(runs.take(0) =~= Seq::empty());
    assert(runs.take(runs.len() as int) =~= runs);
}

/// Records added one lot after another.
proof fn lemma_install_concat(l: ListV, a: Seq<RunRec>, b: Seq<RunRec>)
    ensures
        install_runs(l, a + b) == match install_runs(l, a) {
            Err(e) => Err(e),
            Ok(m) => install_runs(m, b),
        },
    decreases a.len(),
{
    if a.len() == 0 {
        assert(a + b =~= b);
    } else {
        assert((a + b)[0] == a[0]);
        assert((a + b).skip(1) =~= a.skip(1) + b);
        lemma_install_concat(with_run(l, a[0]), a.skip(1), b);
    }
}

/// The list with a whole run deleted in it.
spec fn with_dead(l: ListV, head: Stamp, run: DeadRun) -> ListV {
    ListV { places: l.places.union_prefer_right(run_places(head, run)), ..l }
}

/// A run's records, added in turn, add the run.
proof fn lemma_install_run(l: ListV, head: Stamp, run: DeadRun)
    requires
        run.len >= 1,
        head.lamport + run.len - 1 <= u64::MAX,
        forall|id: Stamp| #[trigger]
            spec_covers(head, run.len, id) ==> !l.places.dom().contains(id),
    ensures
        install_runs(l, run_chunks(head, run.len, run.anchor)) == Ok::<ListV, DecodeError>(
            with_dead(l, head, run),
        ),
    decreases run.len,
{
    let m = MAX_TOMBSTONE_RUN;
    let chunks = run_chunks(head, run.len, run.anchor);
    let first = RunRec {
        start: head,
        len: if run.len <= m {
            run.len as u32
        } else {
            m
        },
        anchor: run.anchor,
    };
    assert(chunks[0] == first);
    assert(!overlaps(l, first)) by {
        assert forall|id: Stamp| #[trigger] l.places.dom().contains(id) implies !spec_covers(
            first.start,
            first.len as u64,
            id,
        ) by {
            if spec_covers(first.start, first.len as u64, id) {
                assert(spec_covers(head, run.len, id));
            }
        }
    }
    if run.len <= m {
        assert(chunks.skip(1) =~= Seq::empty());
        assert(DeadRun { len: first.len as u64, anchor: first.anchor } == run);
        assert(install_runs(with_run(l, first), chunks.skip(1)) == Ok::<ListV, DecodeError>(
            with_run(l, first),
        ));
    } else {
        let next_head = step(head, m as int);
        let next = DeadRun {
            len: (run.len - m) as u64,
            anchor: Anchor { parent: Some(step(head, m - 1)), side: Side::Right },
        };
        let one = DeadRun { len: m as u64, anchor: run.anchor };
        assert(chunks.skip(1) =~= run_chunks(next_head, next.len, next.anchor));
        let mid = with_run(l, first);
        assert forall|id: Stamp| #[trigger] spec_covers(next_head, next.len, id)
            implies !mid.places.dom().contains(
            id,
        ) by {
            assert(spec_covers(head, run.len, id));
        }
        lemma_install_run(mid, next_head, next);
        assert(continues(head, one, next_head, next));
        lemma_weld(head, one, next_head, next);
        assert(DeadRun { len: (one.len + next.len) as u64, anchor: one.anchor } == run);
        assert(install_runs(l, chunks) == install_runs(mid, chunks.skip(1)));
        assert(with_dead(mid, next_head, next).places =~= with_dead(l, head, run).places);
    }
}

/// Every run's records, added in turn, add every run.
proof fn lemma_install_all_runs(l: ListV, dead: Map<Stamp, DeadRun>, heads: Seq<Stamp>)
    requires
        runs_ok(dead),
        ascends(heads),
        forall|i: int| 0 <= i < heads.len() ==> dead.dom().contains(#[trigger] heads[i]),
        forall|id: Stamp| #[trigger] dead_at(dead, id) ==> !l.places.dom().contains(id),
    ensures
        runs_ok(dead.restrict(heads.to_set())),
        install_runs(l, all_chunks(dead, heads)) == Ok::<ListV, DecodeError>(
            ListV {
                places: l.places.union_prefer_right(expand(dead.restrict(heads.to_set()))),
                ..l
            },
        ),
    decreases heads.len(),
{
    let d = dead.restrict(heads.to_set());
    if heads.len() == 0 {
        assert(d =~= Map::empty());
        assert(expand(d) =~= Map::empty());
        assert(l.places.union_prefer_right(Map::empty()) =~= l.places);
    } else {
        let t = heads.drop_last();
        let h = heads.last();
        assert(heads[heads.len() - 1] == h);
        assert(ascends(t)) by {
            assert forall|i: int, j: int| 0 <= i < j < t.len() implies stamp_lt(
                #[trigger] t[i],
                #[trigger] t[j],
            ) by {
                assert(t[i] == heads[i] && t[j] == heads[j]);
            }
        }
        assert forall|i: int| 0 <= i < t.len() implies dead.dom().contains(#[trigger] t[i]) by {
            assert(t[i] == heads[i]);
        }
        lemma_install_all_runs(l, dead, t);
        let e = dead.restrict(t.to_set());
        let m = ListV { places: l.places.union_prefer_right(expand(e)), ..l };
        lemma_install_concat(l, all_chunks(dead, t), run_chunks(h, dead[h].len, dead[h].anchor));
        assert(!t.contains(h)) by {
            if t.contains(h) {
                let j = t.index_of(h);
                assert(stamp_lt(heads[j], heads[heads.len() - 1]));
            }
        }
        assert forall|id: Stamp| #[trigger] spec_covers(h, dead[h].len, id) implies !dead_at(e, id)
            && !m.places.dom().contains(id) by {
            lemma_run_unique(dead, h, id);
            if dead_at(e, id) {
                let g = run_of(e, id);
                assert(e.dom().contains(g) && spec_covers(g, e[g].len, id));
                assert(dead.dom().contains(g));
                lemma_run_unique(dead, g, id);
                assert(t.contains(g));
            }
        }
        lemma_install_run(m, h, dead[h]);
        lemma_add_run(e, h, dead[h]);
        assert(heads =~= t.push(h));
        crate::table::lemma_push_set(t, h);
        assert(e.insert(h, dead[h]) =~= d);
        assert(m.places.union_prefer_right(run_places(h, dead[h]))
            =~= l.places.union_prefer_right(expand(d)));
    }
}

/// A node's bytes leave out what its list's bytes do.
proof fn lemma_same_nodes(l: ListV, ids: Seq<Stamp>)
    requires
        forall|i: int| 0 <= i < ids.len() ==> l.items.dom().contains(#[trigger] ids[i]),
    ensures
        enc_many(ids, node_enc(l)) == enc_many(ids, node_enc(as_written(l))),
    decreases ids.len(),
{
    if ids.len() > 0 {
        let t = ids.skip(1);
        assert forall|i: int| 0 <= i < t.len() implies l.items.dom().contains(#[trigger] t[i]) by {
            assert(t[i] == ids[i + 1]);
        }
        lemma_same_nodes(l, t);
        assert(l.items.dom().contains(ids[0]));
    }
}

/// A list's bytes read back as the list, in its place and with every node at home.
#[verifier::rlimit(60)]
#[verifier::spinoff_prover]
pub proof fn law_list_state_round_trip(l: List, rest: Seq<u8>)
    requires
        l.wf(),
        list_fits(l@, l.dead@),
        list_carried(l@),
    ensures
        parse_list(enc_list(l@, l.dead@) + rest) == Ok::<(ListV, Seq<u8>), DecodeError>(
            (as_written(l@), rest),
        ),
{
    let v = as_written(l@);
    let dead = l.dead@;
    assert(v.items.dom() =~= l@.items.dom());
    assert forall|id: Stamp| #[trigger] v.items.dom().contains(id) implies node_fits(
        v.items[id].value,
    ) by {
        assert(l@.items.dom().contains(id));
    }
    assert(as_written(v).items =~= v.items);
    lemma_size::<SeqKey, Node>(l.nodes.entries@);
    lemma_size::<SeqKey, DeadRun>(l.dead.entries@);
    assert(v.items.dom() =~= l.nodes@.dom());
    let ids = in_order(v.items.dom());
    lemma_in_order(v.items.dom());
    assert forall|i: int| 0 <= i < ids.len() implies l@.items.dom().contains(
        #[trigger] ids[i],
    ) by {
        assert(ids.to_set().contains(ids[i]));
    }
    lemma_same_nodes(l@, ids);
    let heads = in_order(dead.dom());
    let runs = list_chunks(dead);
    let a = v.id.bytes();
    let b = enc_u32(ids.len() as u32);
    let c = enc_many(ids, node_enc(v));
    let d = enc_u32(runs.len() as u32);
    let e = enc_many(runs, run_enc());
    let tail = d + (e + rest);
    assert((a + b + c + d + e) + rest =~= a + (b + (c + tail)));
    rt_element_id(v.id, b + (c + tail));
    rt_u32(ids.len() as u32, c + tail);
    lemma_nodes_read_back(v, tail);
    rt_u32(runs.len() as u32, e + rest);
    lemma_in_order(dead.dom());
    assert forall|i: int| 0 <= i < heads.len() implies dead.dom().contains(#[trigger] heads[i])
        && heads[i].offset == 0 && crate::format::anchor_carried(dead[heads[i]].anchor) by {
        let h = heads[i];
        assert(heads.to_set().contains(h));
        assert(spec_covers(h, dead[h].len, h));
        lemma_run_unique(dead, h, h);
        l.lemma_places(h);
        assert(v.places.dom().contains(h));
        assert(v.places[h] == dead[h].anchor);
    }
    lemma_all_chunk_sizes(dead, heads);
    lemma_runs_read_back(runs, rest);
    let n = ListV { places: v.places.restrict(v.items.dom()), ..v };
    assert forall|id: Stamp| #[trigger] dead_at(dead, id) implies !n.places.dom().contains(id) by {
        l.lemma_places(id);
    }
    lemma_install_all_runs(n, dead, heads);
    assert(dead.restrict(heads.to_set()) =~= dead);
    assert(n.places.union_prefer_right(expand(dead)) =~= v.places) by {
        assert forall|id: Stamp| #[trigger] v.places.dom().contains(id) implies v.places[id]
            == n.places.union_prefer_right(expand(dead))[id] by {
            l.lemma_places(id);
        }
    }
}

/// Whether `id` starts a run: it is deleted, and is not the right child of a deleted id
/// one lamport before it.
spec fn starts(l: ListV, id: Stamp) -> bool {
    l.is_dead(id) && !(id.lamport > 0 && l.is_dead(step(id, -1)) && l.places[id] == (Anchor {
        parent: Some(step(id, -1)),
        side: Side::Right,
    }))
}

/// The heads of maximal runs are the ids that start one.
proof fn lemma_heads(l: List, h: Stamp)
    requires
        l.wf(),
        forall|id: Stamp| #[trigger] l@.places.dom().contains(id) ==> id.lamport < u64::MAX,
    ensures
        l.dead@.dom().contains(h) <==> starts(l@, h),
        l.dead@.dom().contains(h) ==> l.dead@[h].anchor == l@.places[h],
{
    let dead = l.dead@;
    l.lemma_places(h);
    if dead.dom().contains(h) {
        assert(spec_covers(h, dead[h].len, h));
        lemma_run_unique(dead, h, h);
        assert(l@.places[h] == dead[h].anchor);
        let p = step(h, -1);
        if h.lamport > 0 && l@.is_dead(p) && l@.places[h] == (Anchor {
            parent: Some(p),
            side: Side::Right,
        }) {
            l.lemma_places(p);
            let g = run_of(dead, p);
            assert(dead.dom().contains(g) && spec_covers(g, dead[g].len, p));
            if spec_covers(g, dead[g].len, h) {
                assert(g != h);
            }
            assert(dead[g].len == p.lamport - g.lamport + 1);
            let end = step(h, dead[h].len - 1);
            assert(spec_covers(h, dead[h].len, end));
            lemma_run_unique(dead, h, end);
            l.lemma_places(end);
            assert(end.lamport < u64::MAX);
            assert(continues(g, dead[g], h, dead[h]));
        }
    } else if dead_at(dead, h) {
        let g = run_of(dead, h);
        assert(dead.dom().contains(g) && spec_covers(g, dead[g].len, h));
        assert(g != h);
        let p = step(h, -1);
        assert(spec_covers(g, dead[g].len, p));
        lemma_run_unique(dead, g, p);
        l.lemma_places(p);
        assert(l@.places[h] == run_place(g, dead[g].anchor, h));
    }
}

/// A run's length is how far it is to the first id that is not its successor.
proof fn lemma_run_len(a: List, b: List, h: Stamp)
    requires
        a.wf(),
        b.wf(),
        a@.places == b@.places,
        a@.items.dom() == b@.items.dom(),
        forall|id: Stamp| #[trigger] a@.places.dom().contains(id) ==> id.lamport < u64::MAX,
        a.dead@.dom().contains(h),
        b.dead@.dom().contains(h),
    ensures
        a.dead@[h].len <= b.dead@[h].len,
{
    let x = a.dead@[h].len;
    let y = b.dead@[h].len;
    if x > y {
        let n = step(h, y as int);
        assert(spec_covers(h, x, n));
        lemma_run_unique(a.dead@, h, n);
        a.lemma_places(n);
        b.lemma_places(n);
        assert(a@.places[n] == run_place(h, a.dead@[h].anchor, n));
        let p = step(h, y - 1);
        assert(step(n, -1) == p);
        assert(b@.is_dead(n));
        assert(spec_covers(h, y, p));
        lemma_run_unique(b.dead@, h, p);
        b.lemma_places(p);
        let g = run_of(b.dead@, n);
        assert(b.dead@.dom().contains(g) && spec_covers(g, b.dead@[g].len, n));
        lemma_heads(b, n);
        assert(!starts(b@, n));
        assert(g != n);
        assert(spec_covers(g, b.dead@[g].len, p));
        lemma_run_unique(b.dead@, g, p);
    }
}

/// Two replicas' lists with the same ids, places and values have equal bytes.
pub proof fn law_equal_lists_encode_identically(a: List, b: List)
    requires
        a.wf(),
        b.wf(),
        as_written(a@) == as_written(b@),
        forall|id: Stamp| #[trigger] a@.places.dom().contains(id) ==> id.lamport < u64::MAX,
    ensures
        enc_list(a@, a.dead@) == enc_list(b@, b.dead@),
{
    assert(a@.items.dom() =~= as_written(a@).items.dom());
    assert(b@.items.dom() =~= as_written(b@).items.dom());
    let ids = in_order(a@.items.dom());
    lemma_size::<SeqKey, Node>(a.nodes.entries@);
    assert(a@.items.dom() =~= a.nodes@.dom());
    lemma_in_order(a@.items.dom());
    assert forall|i: int| 0 <= i < ids.len() implies a@.items.dom().contains(#[trigger] ids[i]) by {
        assert(ids.to_set().contains(ids[i]));
    }
    lemma_same_nodes(a@, ids);
    lemma_same_nodes(b@, ids);
    assert forall|h: Stamp| a.dead@.dom().contains(h) <==> b.dead@.dom().contains(h) by {
        lemma_heads(a, h);
        lemma_heads(b, h);
    }
    assert forall|h: Stamp| a.dead@.dom().contains(h) implies a.dead@[h] == b.dead@[h] by {
        lemma_heads(a, h);
        lemma_heads(b, h);
        lemma_run_len(a, b, h);
        lemma_run_len(b, a, h);
    }
    assert(a.dead@ =~= b.dead@);
}

} // verus!
