//! Rebuilding a replica from a snapshot.
//!
//! A snapshot is bytes someone hands over, so everything it declares is checked: no id
//! twice, nothing named that is not there, no clock or figure past the ceiling, no loop
//! among the links, no op that no replica could hold.

use crate::clientid::ClientId;
use crate::codec::{decode_ops, Cursor, DecodeError};
use crate::doc::{holds_op, untagged, DocV, Document};
use crate::format::{
    exactly, parse_client, parse_ops, parse_take, parse_u32, parse_u64, parse_u8, Parsed,
};
use crate::identity::{admissible, root_element, root_id, span, spec_span};
use crate::load::{bad, parse_section, LoadV, Loading, Section};
use crate::op::{ops_view, Op, OpId, OpV};
use crate::rebuild::{links_end, parents_end};
use crate::stamp::LAMPORT_STATE_CEILING;
use crate::state::STATE_VERSION;
use crate::table::{Key, Table};
use crate::tree::{Tree, TreeV};
use crate::undo::{History, HistoryV};
use vstd::prelude::*;

verus! {

/// A snapshot's head: who encoded it, its clock and its sequence number.
pub struct HeadV {
    pub client: ClientId,
    pub lamport: u64,
    pub seq: u64,
}

pub open spec fn parse_head(s: Seq<u8>) -> Parsed<HeadV> {
    match parse_u8(s) {
        Err(e) => Err(e),
        Ok((version, r)) => if version != STATE_VERSION {
            Err(DecodeError::BadTag { what: "document state version", tag: version })
        } else {
            match parse_client(r) {
                Err(e) => Err(e),
                Ok((client, r)) => match parse_u64(r) {
                    Err(e) => Err(e),
                    Ok((lamport, r)) => if lamport > LAMPORT_STATE_CEILING {
                        Err(bad("document: root clock"))
                    } else {
                        match parse_u64(r) {
                            Err(e) => Err(e),
                            Ok((seq, r)) => Ok((HeadV { client, lamport, seq }, r)),
                        }
                    },
                },
            }
        },
    }
}

pub open spec fn empty_load() -> LoadV {
    LoadV {
        zone_clocks: Map::empty(),
        tree: TreeV::bare(),
        decoded: Seq::empty(),
        log: Seq::empty(),
        seen: Set::empty(),
        resolved: Set::empty(),
    }
}

/// A section read after what came before it.
pub open spec fn and_section(p: Parsed<LoadV>, which: Section) -> Parsed<LoadV> {
    match p {
        Err(e) => Err(e),
        Ok((l, r)) => parse_section(which, l, r),
    }
}

/// The sections that hold the containers, the moves and the annotations.
pub open spec fn parse_contents(s: Seq<u8>) -> Parsed<LoadV> {
    let a = and_section(parse_section(Section::ZoneClocks, empty_load(), s), Section::HighWater);
    let b = and_section(and_section(a, Section::Counters), Section::Lists);
    let c = and_section(and_section(b, Section::Texts), Section::Maps);
    let d = and_section(and_section(c, Section::XmlElements), Section::XmlFragments);
    let e = and_section(and_section(d, Section::Moves), Section::Placements);
    and_section(and_section(e, Section::Ranged), Section::Acl)
}

/// With the read slots installed and every handle checked.
pub open spec fn resolved_load(p: Parsed<LoadV>) -> Parsed<LoadV> {
    match p {
        Err(e) => Err(e),
        Ok((l, r)) => match l.tree.maps_installed(l.decoded) {
            Err(e) => Err(e),
            Ok(t) => if t.items_resolve() {
                Ok((l.with_tree(t), r))
            } else {
                Err(bad("document: dangling reference"))
            },
        },
    }
}

/// With the links read and checked for loops.
pub open spec fn linked_load(p: Parsed<LoadV>) -> Parsed<LoadV> {
    match and_section(p, Section::Parents) {
        Err(e) => Err(e),
        Ok((l, r)) => if links_end(l.tree.parents) {
            Ok((l, r))
        } else {
            Err(bad("document: parent cycle"))
        },
    }
}

/// Everything but the ops that wait.
pub open spec fn parse_load(s: Seq<u8>) -> Parsed<LoadV> {
    and_section(
        and_section(linked_load(resolved_load(parse_contents(s))), Section::Seen),
        Section::Resolved,
    )
}

/// The ops that wait: a framed log with its own length.
pub open spec fn parse_held(s: Seq<u8>) -> Parsed<Seq<OpV>> {
    match parse_u32(s) {
        Err(e) => Err(e),
        Ok((n, r)) => match parse_take(r, n as nat) {
            Err(e) => Err(e),
            Ok((framed, r)) => match parse_ops(framed) {
                Err(e) => Err(e),
                Ok(ops) => Ok((ops, r)),
            },
        },
    }
}

/// Whether the first `n` ops may wait: none applied already, none twice, none that no
/// replica could hold.
pub open spec fn held_checked(ops: Seq<OpV>, seen: Set<OpId>, n: nat) -> Result<(), DecodeError>
    decreases n,
{
    if n == 0 {
        Ok(())
    } else {
        match held_checked(ops, seen, (n - 1) as nat) {
            Err(e) => Err(e),
            Ok(_) => {
                let op = ops[n - 1];
                if seen.contains(op.id) || holds_op(ops.take(n - 1), op.id) {
                    Err(bad("document: buffered op already applied or repeated"))
                } else if !admissible(op) {
                    Err(bad("document: buffered op no replica can hold"))
                } else {
                    Ok(())
                }
            },
        }
    }
}

impl TreeV {
    /// With the ids some ops reserve recorded.
    pub open spec fn recorded(self, ops: Seq<OpV>) -> TreeV
        decreases ops.len(),
    {
        if ops.len() == 0 {
            self
        } else {
            self.recorded(ops.drop_last()).record(ops.last().stamp, spec_span(ops.last().kind))
        }
    }
}

/// A loaded state made whole: flags, figures and moves worked out.
pub open spec fn made_whole(l: LoadV, ops: Seq<OpV>) -> TreeV {
    l.tree.with_flags().with_floor(l.log).recorded(ops).restored(l.log)
}

/// The replica a snapshot holds.
pub open spec fn assembled(h: HeadV, l: LoadV, ops: Seq<OpV>) -> Result<DocV, DecodeError> {
    match held_checked(ops, l.seen, ops.len()) {
        Err(e) => Err(e),
        Ok(_) => if !l.tree.maps.dom().contains(root_element()) {
            Err(bad("document: missing root map"))
        } else if !links_end(made_whole(l, ops).parents) {
            Err(bad("document: parent cycle"))
        } else {
            Ok(
                (DocV {
                    client: h.client,
                    tree: made_whole(l, ops),
                    lamport: h.lamport,
                    zone_clocks: l.zone_clocks,
                    mint_refused: false,
                    seq: h.seq,
                    atomic: None,
                    seen: l.seen,
                    buffer: untagged(ops, l.resolved),
                    resolved: l.resolved,
                    pending: Seq::empty(),
                    schema: None,
                    history: HistoryV::empty(),
                }).drained(),
            )
        },
    }
}

/// A replica read from the front of some bytes.
pub open spec fn parse_state(s: Seq<u8>) -> Parsed<DocV> {
    match parse_head(s) {
        Err(e) => Err(e),
        Ok((h, r)) => match parse_load(r) {
            Err(e) => Err(e),
            Ok((l, r)) => match parse_held(r) {
                Err(e) => Err(e),
                Ok((ops, r)) => match assembled(h, l, ops) {
                    Err(e) => Err(e),
                    Ok(d) => Ok((d, r)),
                },
            },
        },
    }
}

// --- reading ---

struct Head {
    client: ClientId,
    lamport: u64,
    seq: u64,
}

fn bad_tag(what: &'static str) -> (e: DecodeError)
    ensures
        e == bad(what),
{
    DecodeError::BadTag { what, tag: 0 }
}

fn read_head(cur: &mut Cursor) -> (r: Result<Head, DecodeError>)
    ensures
        match r {
            Ok(h) => parse_head(old(cur).rest@) == Ok::<(HeadV, Seq<u8>), DecodeError>(
                (
                    HeadV { client: h.client, lamport: h.lamport, seq: h.seq },
                    final(cur).rest@,
                ),
            ),
            Err(e) => parse_head(old(cur).rest@) == Err::<(HeadV, Seq<u8>), DecodeError>(e),
        },
{
    let version: u8 = cur.u8()?;
    if version != STATE_VERSION {
        return Err(DecodeError::BadTag { what: "document state version", tag: version });
    }
    let client = cur.client()?;
    let lamport: u64 = cur.u64()?;
    if lamport > LAMPORT_STATE_CEILING {
        return Err(bad_tag("document: root clock"));
    }
    let seq: u64 = cur.u64()?;
    Ok(Head { client, lamport, seq })
}

/// What a reading gave.
spec fn loads(r: Result<Loading, DecodeError>, p: Parsed<LoadV>, rest: Seq<u8>) -> bool {
    match r {
        Ok(l) => l.sound() && p == Ok::<(LoadV, Seq<u8>), DecodeError>((l@, rest)),
        Err(e) => p == Err::<(LoadV, Seq<u8>), DecodeError>(e),
    }
}

fn read_contents(cur: &mut Cursor) -> (r: Result<Loading, DecodeError>)
    ensures
        loads(r, parse_contents(old(cur).rest@), final(cur).rest@),
{
    let mut l = Loading::new();
    l.read_section(Section::ZoneClocks, cur)?;
    l.read_section(Section::HighWater, cur)?;
    l.read_section(Section::Counters, cur)?;
    l.read_section(Section::Lists, cur)?;
    l.read_section(Section::Texts, cur)?;
    l.read_section(Section::Maps, cur)?;
    l.read_section(Section::XmlElements, cur)?;
    l.read_section(Section::XmlFragments, cur)?;
    l.read_section(Section::Moves, cur)?;
    l.read_section(Section::Placements, cur)?;
    l.read_section(Section::Ranged, cur)?;
    l.read_section(Section::Acl, cur)?;
    Ok(l)
}

fn read_load(cur: &mut Cursor) -> (r: Result<Loading, DecodeError>)
    ensures
        loads(r, parse_load(old(cur).rest@), final(cur).rest@),
{
    let ghost s = cur.rest@;
    let mut l = read_contents(cur)?;
    let ghost c = l@;
    proof {
        // A map's slots go into the map that was registered with them.
        lemma_contents_known(s);
        assert forall|k: int| 0 <= k < l.decoded@.len() implies l@.tree.maps.dom().contains(
            (#[trigger] l.decoded@[k]).id,
        ) by {
            assert(l@.decoded[k] == l.decoded@[k]@);
        }
    }
    match l.tree.install_maps(&l.decoded) {
        Ok(_) => {},
        Err(e) => {
            return Err(e);
        },
    }
    proof {
        assert(l@ =~= c.with_tree(l@.tree));
    }
    if !l.tree.items_resolve() {
        return Err(bad_tag("document: dangling reference"));
    }
    l.read_section(Section::Parents, cur)?;
    if !parents_end(&l.tree.parents) {
        return Err(bad_tag("document: parent cycle"));
    }
    l.read_section(Section::Seen, cur)?;
    l.read_section(Section::Resolved, cur)?;
    Ok(l)
}

/// Whether every map whose slots are still to be installed is registered.
spec fn maps_known(l: LoadV) -> bool {
    forall|i: int|
        0 <= i < l.decoded.len() ==> l.tree.maps.dom().contains((#[trigger] l.decoded[i]).id)
}

/// No section takes a map out again.
proof fn lemma_section_known(which: Section, l: LoadV, s: Seq<u8>, n: nat)
    requires
        maps_known(l),
    ensures
        crate::many::parse_fold(s, n, l, crate::load::record_step(which)) matches Ok((m, _))
            ==> maps_known(m),
    decreases n,
{
    reveal(crate::load::parse_ranged_record);
    reveal(crate::load::parse_acl_record);
    if n > 0 {
        match crate::load::parse_record(which, l, s) {
            Ok((m, r)) => {
                assert(maps_known(m)) by {
                    assert forall|i: int| 0 <= i < m.decoded.len() implies m.tree.maps.dom().contains(
                        (#[trigger] m.decoded[i]).id,
                    ) by {
                        if i < l.decoded.len() {
                            assert(l.decoded[i] == m.decoded[i]);
                        }
                    }
                }
                lemma_section_known(which, m, r, (n - 1) as nat);
            },
            Err(_) => {},
        }
    }
}

proof fn lemma_and_known(p: Parsed<LoadV>, which: Section)
    requires
        p matches Ok((l, _)) ==> maps_known(l),
    ensures
        and_section(p, which) matches Ok((l, _)) ==> maps_known(l),
{
    reveal(parse_section);
    if let Ok((l, r)) = p {
        if let Ok((n, r)) = parse_u32(r) {
            lemma_section_known(which, l, r, n as nat);
        }
    }
}

proof fn lemma_contents_known(s: Seq<u8>)
    ensures
        parse_contents(s) matches Ok((l, _)) ==> maps_known(l),
{
    let p = Ok::<(LoadV, Seq<u8>), DecodeError>((empty_load(), s));
    lemma_and_known(p, Section::ZoneClocks);
    let p0 = and_section(p, Section::ZoneClocks);
    assert(p0 == parse_section(Section::ZoneClocks, empty_load(), s));
    lemma_and_known(p0, Section::HighWater);
    let a = and_section(p0, Section::HighWater);
    lemma_and_known(a, Section::Counters);
    lemma_and_known(and_section(a, Section::Counters), Section::Lists);
    let b = and_section(and_section(a, Section::Counters), Section::Lists);
    lemma_and_known(b, Section::Texts);
    lemma_and_known(and_section(b, Section::Texts), Section::Maps);
    let c = and_section(and_section(b, Section::Texts), Section::Maps);
    lemma_and_known(c, Section::XmlElements);
    lemma_and_known(and_section(c, Section::XmlElements), Section::XmlFragments);
    let d = and_section(and_section(c, Section::XmlElements), Section::XmlFragments);
    lemma_and_known(d, Section::Moves);
    lemma_and_known(and_section(d, Section::Moves), Section::Placements);
    let e = and_section(and_section(d, Section::Moves), Section::Placements);
    lemma_and_known(e, Section::Ranged);
    lemma_and_known(and_section(e, Section::Ranged), Section::Acl);
}

fn read_held(cur: &mut Cursor) -> (r: Result<Vec<Op>, DecodeError>)
    ensures
        match r {
            Ok(ops) => parse_held(old(cur).rest@) == Ok::<(Seq<OpV>, Seq<u8>), DecodeError>(
                (ops_view(ops@), final(cur).rest@),
            ),
            Err(e) => parse_held(old(cur).rest@) == Err::<(Seq<OpV>, Seq<u8>), DecodeError>(e),
        },
{
    let n: u32 = cur.u32()?;
    let framed = cur.take(n as usize)?;
    decode_ops(framed)
}

fn check_held(ops: &Vec<Op>, seen: &Table<OpId, ()>) -> (r: Result<(), DecodeError>)
    requires
        seen.wf(),
    ensures
        r == held_checked(ops_view(ops@), seen@.dom(), ops@.len()),
        r is Ok ==> forall|i: int| 0 <= i < ops@.len() ==> admissible((#[trigger] ops@[i])@),
{
    let ghost s = ops_view(ops@);
    let mut ids: Table<OpId, ()> = Table::new();
    let mut i: usize = 0;
    while i < ops.len()
        invariant
            s == ops_view(ops@),
            seen.wf(),
            ids.wf(),
            i <= ops@.len(),
            forall|id: OpId| #[trigger]
                ids@.dom().contains(id) <==> holds_op(s.take(i as int), id),
            held_checked(s, seen@.dom(), i as nat) == Ok::<(), DecodeError>(()),
            forall|j: int| 0 <= j < i ==> admissible((#[trigger] ops@[j])@),
        decreases ops@.len() - i,
    {
        let id = ops[i].id;
        proof {
            assert(s[i as int] == ops@[i as int]@);
        }
        if seen.contains_key(&id) || ids.contains_key(&id) {
            let e = bad_tag("document: buffered op already applied or repeated");
            proof {
                lemma_held_err(s, seen@.dom(), (i + 1) as nat, s.len(), e);
            }
            return Err(e);
        }
        if !ops[i].is_admissible() {
            let e = bad_tag("document: buffered op no replica can hold");
            proof {
                lemma_held_err(s, seen@.dom(), (i + 1) as nat, s.len(), e);
            }
            return Err(e);
        }
        ids.insert(id, ());
        proof {
            assert forall|x: OpId| #[trigger] ids@.dom().contains(x) <==> holds_op(s.take(i + 1), x) by {
                if holds_op(s.take(i as int), x) {
                    let j = choose|j: int|
                        0 <= j < i && (#[trigger] s.take(i as int)[j]).id == x;
                    assert(s.take(i + 1)[j].id == x);
                }
                if x == id {
                    assert(s.take(i + 1)[i as int].id == x);
                }
                if holds_op(s.take(i + 1), x) && x != id {
                    let j = choose|j: int| 0 <= j < i + 1 && (#[trigger] s.take(i + 1)[j]).id == x;
                    assert(s.take(i as int)[j].id == x);
                }
            }
        }
        i += 1;
    }
    Ok(())
}

proof fn lemma_held_err(ops: Seq<OpV>, seen: Set<OpId>, i: nat, n: nat, e: DecodeError)
    requires
        i <= n,
        held_checked(ops, seen, i) == Err::<(), DecodeError>(e),
    ensures
        held_checked(ops, seen, n) == Err::<(), DecodeError>(e),
    decreases n - i,
{
    if i < n {
        lemma_held_err(ops, seen, (i + 1) as nat, n, e);
    }
}

impl Tree {
    pub(crate) fn record_all(&mut self, ops: &Vec<Op>)
        requires
            old(self).wf(),
        ensures
            final(self).wf(),
            final(self)@ == old(self)@.recorded(ops_view(ops@)),
    {
        let ghost s = ops_view(ops@);
        let mut i: usize = 0;
        proof {
            assert(s.take(0) =~= Seq::empty());
        }
        while i < ops.len()
            invariant
                self.wf(),
                s == ops_view(ops@),
                i <= ops@.len(),
                self@ == old(self)@.recorded(s.take(i as int)),
            decreases ops@.len() - i,
        {
            proof {
                assert(s.take(i + 1).drop_last() =~= s.take(i as int));
                assert(s.take(i + 1).last() == ops@[i as int]@);
            }
            self.record_stamp(ops[i].stamp, span(&ops[i].kind));
            i += 1;
        }
        proof {
            assert(s.take(i as int) =~= s);
        }
    }
}

fn assemble(h: Head, l: Loading, ops: Vec<Op>) -> (r: Result<Document, DecodeError>)
    requires
        l.sound(),
    ensures
        match r {
            Ok(d) => d.wf() && assembled(
                HeadV { client: h.client, lamport: h.lamport, seq: h.seq },
                l@,
                ops_view(ops@),
            ) == Ok::<DocV, DecodeError>(d@),
            Err(e) => assembled(
                HeadV { client: h.client, lamport: h.lamport, seq: h.seq },
                l@,
                ops_view(ops@),
            ) == Err::<DocV, DecodeError>(e),
        },
{
    let ghost lv = l@;
    let ghost ov = ops_view(ops@);
    match check_held(&ops, &l.seen) {
        Ok(_) => {},
        Err(e) => {
            return Err(e);
        },
    }
    let Loading { zone_clocks, tree, decoded, log, seen, resolved } = l;
    let mut tree = tree;
    if !tree.maps.contains(root_id()) {
        return Err(bad_tag("document: missing root map"));
    }
    tree.mark_displaced();
    tree.raise_floor(&log);
    tree.record_all(&ops);
    match tree.restore_moves(&log) {
        Ok(_) => {},
        Err(e) => {
            return Err(e);
        },
    }
    proof {
        assert(tree@ == made_whole(lv, ov));
    }
    let mut doc = Document {
        client: h.client,
        tree,
        lamport: h.lamport,
        zone_clocks,
        mint_refused: false,
        seq: h.seq,
        atomic: None,
        seen,
        buffer: ops,
        resolved_tx: resolved,
        pending: Vec::new(),
        schema: None,
        history: History::new(),
    };
    proof {
        assert(doc@.pending =~= Seq::empty());
    }
    doc.untag_resolved();
    proof {
        assert(doc@ =~= (DocV {
            client: h.client,
            tree: made_whole(lv, ov),
            lamport: h.lamport,
            zone_clocks: lv.zone_clocks,
            mint_refused: false,
            seq: h.seq,
            atomic: None,
            seen: lv.seen,
            buffer: untagged(ov, lv.resolved),
            resolved: lv.resolved,
            pending: Seq::empty(),
            schema: None,
            history: HistoryV::empty(),
        }));
    }
    doc.drain_buffer();
    Ok(doc)
}

impl Document {
    fn read_state(cur: &mut Cursor) -> (r: Result<Document, DecodeError>)
        ensures
            match r {
                Ok(d) => d.wf() && parse_state(old(cur).rest@) == Ok::<(DocV, Seq<u8>), DecodeError>(
                    (d@, final(cur).rest@),
                ),
                Err(e) => parse_state(old(cur).rest@) == Err::<(DocV, Seq<u8>), DecodeError>(e),
            },
    {
        let h = read_head(cur)?;
        let l = read_load(cur)?;
        let ops = read_held(cur)?;
        assemble(h, l, ops)
    }

    /// Rebuild a replica from a snapshot, rejecting trailing bytes.
    pub fn decode_state(bytes: &[u8]) -> (r: Result<Document, DecodeError>)
        ensures
            match r {
                Ok(d) => d.wf() && exactly(parse_state(bytes@)) == Ok::<DocV, DecodeError>(d@),
                Err(e) => exactly(parse_state(bytes@)) == Err::<DocV, DecodeError>(e),
            },
    {
        let mut cur = Cursor::new(bytes);
        let doc = Document::read_state(&mut cur)?;
        if cur.at_end() {
            Ok(doc)
        } else {
            Err(DecodeError::TrailingBytes)
        }
    }

    /// Rebuild a replica from a snapshot but author under `client` from `next_seq`.
    pub fn decode_state_as(client: ClientId, next_seq: u64, bytes: &[u8]) -> (r: Result<
        Document,
        DecodeError,
    >)
        ensures
            match (r, exactly(parse_state(bytes@))) {
                (Ok(d), Ok(v)) => d.wf() && d@ == (DocV { client, seq: next_seq, ..v }),
                (Err(e), Err(f)) => e == f,
                _ => false,
            },
    {
        let mut doc = Document::decode_state(bytes)?;
        doc.adopt_as(client, next_seq);
        Ok(doc)
    }
}

} // verus!
