//! Reading a list in order.
//!
//! The walk works in spans: a node that carries a value, or a stretch of deleted ids. A
//! run whose interior something attaches to is cut there, so every attachment hangs off
//! the head or the last id of some span and a deleted region never costs a step per id.

use crate::anchor::{Anchor, RelativePosition, Side};
use crate::element::{Element, ElementV};
use crate::list::{
    anchors_of, dead_at, expand, lemma_add_run, lemma_run_unique, lemma_weld, list_delete,
    list_insert, run_of, run_places, runs_ok, spec_covers, step, continues, DeadRun, List, ListV,
    Node, SeqKey,
};
use crate::order::{
    ascends, at_depth, attaches_outside, is_piece, kid_set, kids, lemma_ascends_unique,
    lemma_depth_bounded, lemma_kids, lemma_walk_none, lemma_walk_piece, order, span_ids, walk,
    walk_all,
};
use crate::stamp::{stamp_lt, Stamp};
use crate::table::{index_of, lemma_entry, lemma_take, seq_map, sorted, Key, Table};
use vstd::prelude::*;

verus! {

/// Where a span attaches and the id it starts at, ordered so that what attaches at one
/// place stands together, by stamp.
#[derive(Clone, Copy, PartialEq, Eq, Debug, Structural)]
struct Attach {
    parent: Option<Stamp>,
    side: Side,
    head: Stamp,
}

spec fn parent_lt(a: Option<Stamp>, b: Option<Stamp>) -> bool {
    match (a, b) {
        (None, Some(_)) => true,
        (Some(x), Some(y)) => stamp_lt(x, y),
        _ => false,
    }
}

impl View for Attach {
    type V = Attach;

    closed spec fn view(&self) -> Attach {
        *self
    }
}

impl Key for Attach {
    closed spec fn before(a: Attach, b: Attach) -> bool {
        parent_lt(a.parent, b.parent) || (a.parent == b.parent && ((a.side == Side::Left && b.side
            == Side::Right) || (a.side == b.side && stamp_lt(a.head, b.head))))
    }

    proof fn before_total(a: Attach, b: Attach) {
    }

    proof fn before_trans(a: Attach, b: Attach, c: Attach) {
    }

    fn less(&self, other: &Self) -> (r: bool) {
        if self.parent == other.parent {
            if self.side == other.side {
                other.head.gt(&self.head)
            } else {
                self.side == Side::Left
            }
        } else {
            match (self.parent, other.parent) {
                (None, Some(_)) => true,
                (Some(x), Some(y)) => y.gt(&x),
                _ => false,
            }
        }
    }
}

/// A node that carries a value, or a stretch of deleted ids.
#[derive(Clone, Copy, PartialEq, Eq, Debug, Structural)]
struct Span {
    head: Stamp,
    len: u64,
    live: bool,
}

impl Span {
    spec fn ids(self) -> Seq<Stamp> {
        span_ids(self.head, self.len as nat)
    }

    spec fn spec_last(self) -> Stamp {
        step(self.head, self.len - 1)
    }

    fn last(&self) -> (id: Stamp)
        requires
            self.len >= 1,
            self.head.lamport + self.len - 1 <= u64::MAX,
        ensures
            id == self.spec_last(),
    {
        Stamp {
            lamport: self.head.lamport + (self.len - 1),
            client: self.head.client,
            offset: self.head.offset,
        }
    }
}

/// The key of a span that starts at `head` and attaches at `anchor`.
spec fn attach_at(anchor: Anchor, head: Stamp) -> Attach {
    Attach { parent: anchor.parent, side: anchor.side, head }
}

/// Whether `spans` are the runs of `q`, filed by where they attach.
spec fn filed(spans: Map<Attach, Span>, q: Map<Stamp, DeadRun>) -> bool {
    &&& forall|k: Attach| #[trigger]
        spans.dom().contains(k) ==> q.dom().contains(k.head) && q[k.head] == (DeadRun {
            len: spans[k].len,
            anchor: Anchor { parent: k.parent, side: k.side },
        }) && spans[k].head == k.head
    &&& forall|h: Stamp| #[trigger]
        q.dom().contains(h) ==> spans.dom().contains(attach_at(q[h].anchor, h))
}

/// Whether a live span is one id that holds a value, and a deleted one holds none.
spec fn span_true(l: ListV, s: Span) -> bool {
    if s.live {
        s.len == 1 && l.items.dom().contains(s.head)
    } else {
        forall|id: Stamp| #[trigger] spec_covers(s.head, s.len, id) ==> !l.items.dom().contains(id)
    }
}

/// Whether `q` splits the list's ids into pieces.
spec fn splits(places: Map<Stamp, Anchor>, q: Map<Stamp, DeadRun>) -> bool {
    &&& runs_ok(q)
    &&& expand(q) == places
    &&& forall|h: Stamp| #[trigger] q.dom().contains(h) ==> is_piece(places, h, q[h].len)
}

/// The id a run has to be cut at for something to attach at `anchor`: a left attachment
/// renders before its parent, so the parent must start a span; a right one shares its
/// parent's place with the id that chains off it, so the parent must end one.
spec fn cut_for(dead: Map<Stamp, DeadRun>, anchor: Anchor) -> Option<Stamp> {
    match anchor.parent {
        None => None,
        Some(p) => if dead_at(dead, p) {
            let h = run_of(dead, p);
            let at = p.lamport - h.lamport;
            let cut = if anchor.side == Side::Left {
                at
            } else {
                at + 1
            };
            if 0 < cut < dead[h].len {
                Some(step(h, cut))
            } else {
                None
            }
        } else {
            None
        },
    }
}

/// Whether every cut that some node or run head needs is made.
spec fn cuts_made(l: &List, cuts: Map<Stamp, ()>) -> bool {
    &&& forall|x: Stamp| #[trigger]
        l.nodes@.dom().contains(x) ==> (cut_for(l.dead@, l.nodes@[x].anchor) matches Some(c)
            ==> cuts.dom().contains(c))
    &&& forall|h: Stamp| #[trigger]
        l.dead@.dom().contains(h) ==> (cut_for(l.dead@, l.dead@[h].anchor) matches Some(c)
            ==> cuts.dom().contains(c))
}

/// A stretch of a run that nothing cuts is a piece.
proof fn lemma_stretch_is_piece(l: &List, cuts: Map<Stamp, ()>, h: Stamp, start: u64, end: u64)
    requires
        l.wf(),
        cuts_made(l, cuts),
        l.dead@.dom().contains(h),
        start < end <= l.dead@[h].len,
        forall|c: Stamp| #[trigger]
            cuts.dom().contains(c) && c.client == h.client && c.offset == h.offset ==> !(h.lamport
                + start < c.lamport < h.lamport + end),
    ensures
        is_piece(l@.places, step(h, start as int), (end - start) as u64),
{
    reveal(is_piece);
    let run = l.dead@[h];
    let head = step(h, start as int);
    let len = (end - start) as u64;
    let places = l@.places;
    assert(run.len >= 1 && h.lamport + run.len - 1 <= u64::MAX);
    assert forall|id: Stamp| #[trigger] spec_covers(head, len, id) implies places.dom().contains(id)
        && (id != head ==> places[id] == (Anchor {
        parent: Some(step(id, -1)),
        side: Side::Right,
    })) by {
        assert(spec_covers(h, run.len, id));
        lemma_run_unique(l.dead@, h, id);
        l.lemma_places(id);
    }
    assert forall|x: Stamp| #[trigger] places.dom().contains(x) implies attaches_outside(
        places[x],
        x,
        head,
        len,
    ) by {
        l.lemma_places(x);
        if let Some(p) = places[x].parent {
            if spec_covers(head, len, p) {
                assert(spec_covers(h, run.len, p));
                lemma_run_unique(l.dead@, h, p);
                let anchor = places[x];
                if l.nodes@.dom().contains(x) {
                    assert(anchor == l.nodes@[x].anchor);
                    lemma_uncut(l, cuts, h, start, end, p, anchor);
                } else {
                    let g = run_of(l.dead@, x);
                    assert(l.dead@.dom().contains(g) && spec_covers(g, l.dead@[g].len, x));
                    if x == g {
                        assert(anchor == l.dead@[g].anchor);
                        lemma_uncut(l, cuts, h, start, end, p, anchor);
                    } else {
                        assert(p == step(x, -1));
                        assert(step(p, 1) == x);
                    }
                }
            }
        }
    }
}

/// Where no cut was made, nothing attaches inside.
proof fn lemma_uncut(
    l: &List,
    cuts: Map<Stamp, ()>,
    h: Stamp,
    start: u64,
    end: u64,
    p: Stamp,
    anchor: Anchor,
)
    requires
        l.wf(),
        l.dead@.dom().contains(h),
        start < end <= l.dead@[h].len,
        h.lamport + l.dead@[h].len - 1 <= u64::MAX,
        forall|c: Stamp| #[trigger]
            cuts.dom().contains(c) && c.client == h.client && c.offset == h.offset ==> !(h.lamport
                + start < c.lamport < h.lamport + end),
        anchor.parent == Some(p),
        spec_covers(step(h, start as int), (end - start) as u64, p),
        dead_at(l.dead@, p),
        run_of(l.dead@, p) == h,
        cut_for(l.dead@, anchor) matches Some(c) ==> cuts.dom().contains(c),
    ensures
        (anchor.side == Side::Left && p == step(h, start as int)) || (anchor.side == Side::Right && p
            == step(step(h, start as int), end - start - 1)),
{
    let at = p.lamport - h.lamport;
    let cut = if anchor.side == Side::Left {
        at
    } else {
        at + 1
    };
    if 0 < cut < l.dead@[h].len {
        let c = step(h, cut);
        assert(cuts.dom().contains(c));
        assert(c.client == h.client && c.offset == h.offset && c.lamport == h.lamport + cut);
    }
}

impl List {
    /// Note the cut that attaching at `anchor` needs.
    fn note_cut(&self, cuts: &mut Table<SeqKey, ()>, anchor: Anchor)
        requires
            self.wf(),
            old(cuts).wf(),
        ensures
            final(cuts).wf(),
            forall|c: Stamp| #[trigger]
                old(cuts)@.dom().contains(c) ==> final(cuts)@.dom().contains(c),
            cut_for(self.dead@, anchor) matches Some(c) ==> final(cuts)@.dom().contains(c),
    {
        let p = match anchor.parent {
            None => return,
            Some(p) => p,
        };
        if let Some((head, run)) = self.dead_run(p) {
            let at: u64 = p.lamport - head.lamport;
            if anchor.side == Side::Left {
                if at > 0 {
                    proof {
                        assert(step(head, at as int) == p);
                    }
                    cuts.insert(SeqKey { id: p }, ());
                }
            } else if at < run.len - 1 {
                let c = Stamp {
                    lamport: p.lamport + 1,
                    client: p.client,
                    offset: p.offset,
                };
                proof {
                    assert(self.dead@.dom().contains(head));
                    assert(step(head, at + 1) == c);
                }
                cuts.insert(SeqKey { id: c }, ());
            }
        }
    }

    /// Every cut the attachments need.
    fn cuts(&self) -> (cuts: Table<SeqKey, ()>)
        requires
            self.wf(),
        ensures
            cuts.wf(),
            cuts_made(self, cuts@),
    {
        let ghost e = self.nodes.entries@;
        let ghost f = self.dead.entries@;
        let mut cuts: Table<SeqKey, ()> = Table::new();
        let mut i: usize = 0;
        while i < self.nodes.entries.len()
            invariant
                self.wf(),
                e == self.nodes.entries@,
                cuts.wf(),
                i <= e.len(),
                forall|j: int|
                    0 <= j < i ==> (cut_for(self.dead@, (#[trigger] e[j]).1.anchor) matches Some(c)
                        ==> cuts@.dom().contains(c)),
            decreases e.len() - i,
        {
            self.note_cut(&mut cuts, self.nodes.entries[i].1.anchor);
            i += 1;
        }
        let mut k: usize = 0;
        while k < self.dead.entries.len()
            invariant
                self.wf(),
                e == self.nodes.entries@,
                f == self.dead.entries@,
                cuts.wf(),
                k <= f.len(),
                forall|j: int|
                    0 <= j < e.len() ==> (cut_for(
                        self.dead@,
                        (#[trigger] e[j]).1.anchor,
                    ) matches Some(c) ==> cuts@.dom().contains(c)),
                forall|j: int|
                    0 <= j < k ==> (cut_for(self.dead@, (#[trigger] f[j]).1.anchor) matches Some(c)
                        ==> cuts@.dom().contains(c)),
            decreases f.len() - k,
        {
            self.note_cut(&mut cuts, self.dead.entries[k].1.anchor);
            k += 1;
        }
        proof {
            assert forall|x: Stamp| #[trigger] self.nodes@.dom().contains(x) implies (cut_for(
                self.dead@,
                self.nodes@[x].anchor,
            ) matches Some(c) ==> cuts@.dom().contains(c)) by {
                let j = index_of::<SeqKey, Node>(e, x);
                assert(e[j].0@ == x);
                lemma_entry::<SeqKey, Node>(e, j);
            }
            assert forall|x: Stamp| #[trigger] self.dead@.dom().contains(x) implies (cut_for(
                self.dead@,
                self.dead@[x].anchor,
            ) matches Some(c) ==> cuts@.dom().contains(c)) by {
                let j = index_of::<SeqKey, DeadRun>(f, x);
                assert(f[j].0@ == x);
                lemma_entry::<SeqKey, DeadRun>(f, j);
            }
        }
        cuts
    }
}

/// Filing one more span that shares no id with the others.
proof fn lemma_file(
    spans: Map<Attach, Span>,
    q: Map<Stamp, DeadRun>,
    head: Stamp,
    run: DeadRun,
    live: bool,
)
    requires
        filed(spans, q),
        !q.dom().contains(head),
    ensures
        filed(
            spans.insert(attach_at(run.anchor, head), Span { head, len: run.len, live }),
            q.insert(head, run),
        ),
        !spans.dom().contains(attach_at(run.anchor, head)),
{
    let k = attach_at(run.anchor, head);
    let s2 = spans.insert(k, Span { head, len: run.len, live });
    let q2 = q.insert(head, run);
    if spans.dom().contains(k) {
        assert(q.dom().contains(k.head));
    }
    assert forall|x: Attach| #[trigger] s2.dom().contains(x) implies q2.dom().contains(x.head)
        && q2[x.head] == (DeadRun {
        len: s2[x].len,
        anchor: Anchor { parent: x.parent, side: x.side },
    }) && s2[x].head == x.head by {
        if x != k {
            assert(spans.dom().contains(x));
        }
    }
    assert forall|h: Stamp| #[trigger] q2.dom().contains(h) implies s2.dom().contains(
        attach_at(q2[h].anchor, h),
    ) by {
        if h != head {
            assert(q.dom().contains(h));
        }
    }
}

/// Whether every span tells the truth about its ids and is a piece.
spec fn spans_true(l: &List, spans: Map<Attach, Span>) -> bool {
    forall|k: Attach| #[trigger]
        spans.dom().contains(k) ==> span_true(l@, spans[k]) && is_piece(
            l@.places,
            spans[k].head,
            spans[k].len,
        )
}

impl List {
    /// The list's ids as spans, filed by where they attach. The ghost part is the same
    /// spans as runs.
    fn spans(&self) -> (r: (Table<Attach, Span>, Ghost<Map<Stamp, DeadRun>>))
        requires
            self.wf(),
        ensures
            r.0.wf(),
            filed(r.0@, r.1@),
            splits(self@.places, r.1@),
            spans_true(self, r.0@),
    {
        let cuts = self.cuts();
        let ghost e = self.nodes.entries@;
        let ghost f = self.dead.entries@;
        let mut spans: Table<Attach, Span> = Table::new();
        let ghost mut q: Map<Stamp, DeadRun> = Map::empty();
        let mut i: usize = 0;
        proof {
            assert(expand(q) =~= anchors_of(seq_map::<SeqKey, Node>(e.take(0))));
        }
        while i < self.nodes.entries.len()
            invariant
                self.wf(),
                e == self.nodes.entries@,
                i <= e.len(),
                spans.wf(),
                filed(spans@, q),
                runs_ok(q),
                expand(q) == anchors_of(seq_map::<SeqKey, Node>(e.take(i as int))),
                spans_true(self, spans@),
            decreases e.len() - i,
        {
            let (k, n) = &self.nodes.entries[i];
            let head = k.id;
            let ghost run = DeadRun { len: 1, anchor: n.anchor };
            let ghost p = seq_map::<SeqKey, Node>(e.take(i as int));
            proof {
                lemma_take::<SeqKey, Node>(e, i as int);
                lemma_entry::<SeqKey, Node>(e, i as int);
                assert forall|id: Stamp| #[trigger] spec_covers(head, 1, id) implies !dead_at(
                    q,
                    id,
                ) by {
                    assert(id == head);
                    if dead_at(q, id) {
                        assert(expand(q).dom().contains(id));
                    }
                }
                lemma_add_run(q, head, run);
                lemma_file(spans@, q, head, run, true);
                self.lemma_places(head);
                lemma_node_is_piece(self, head);
                q = q.insert(head, run);
                assert(expand(q) =~= anchors_of(p.insert(head, *n)));
            }
            spans.insert(
                Attach { parent: n.anchor.parent, side: n.anchor.side, head },
                Span { head, len: 1, live: true },
            );
            i += 1;
        }
        proof {
            assert(e.take(i as int) =~= e);
            assert(expand(seq_map::<SeqKey, DeadRun>(f.take(0))) =~= Map::<Stamp, Anchor>::empty());
            assert(expand(q) =~= expand(
                seq_map::<SeqKey, DeadRun>(f.take(0)),
            ).union_prefer_right(anchors_of(self.nodes@)));
        }
        let mut j: usize = 0;
        while j < self.dead.entries.len()
            invariant
                self.wf(),
                cuts.wf(),
                cuts_made(self, cuts@),
                f == self.dead.entries@,
                j <= f.len(),
                spans.wf(),
                filed(spans@, q),
                runs_ok(q),
                expand(q) == expand(
                    seq_map::<SeqKey, DeadRun>(f.take(j as int)),
                ).union_prefer_right(anchors_of(self.nodes@)),
                spans_true(self, spans@),
            decreases f.len() - j,
        {
            let (k, run) = self.dead.entries[j];
            let h = k.id;
            let ghost part = seq_map::<SeqKey, DeadRun>(f.take(j as int));
            let ghost q0 = q;
            proof {
                lemma_take::<SeqKey, DeadRun>(f, j as int);
                lemma_entry::<SeqKey, DeadRun>(f, j as int);
                crate::list::lemma_prefix_of_runs(f, j as int);
                crate::list::lemma_sub_runs(self.dead@, part, h, run);
                lemma_add_run(part, h, run);
                assert forall|id: Stamp| #[trigger] spec_covers(h, run.len, id) implies !expand(
                    q0,
                ).dom().contains(id) by {
                    lemma_run_unique(self.dead@, h, id);
                }
            }
            let Ghost(q1) = self.file_run(&cuts, h, run, &mut spans, Ghost(q));
            proof {
                q = q1;
                assert(expand(q) =~= expand(part.insert(h, run)).union_prefer_right(
                    anchors_of(self.nodes@),
                ));
            }
            j += 1;
        }
        proof {
            assert(f.take(j as int) =~= f);
            assert(expand(q) == self@.places);
            assert forall|h: Stamp| #[trigger] q.dom().contains(h) implies is_piece(
                self@.places,
                h,
                q[h].len,
            ) by {
                assert(spans@.dom().contains(attach_at(q[h].anchor, h)));
            }
        }
        (spans, Ghost(q))
    }

    /// File a run of deleted ids, cut where it has to be.
    fn file_run(
        &self,
        cuts: &Table<SeqKey, ()>,
        h: Stamp,
        run: DeadRun,
        spans: &mut Table<Attach, Span>,
        Ghost(q0): Ghost<Map<Stamp, DeadRun>>,
    ) -> (r: Ghost<Map<Stamp, DeadRun>>)
        requires
            self.wf(),
            cuts.wf(),
            cuts_made(self, cuts@),
            self.dead@.dom().contains(h),
            run == self.dead@[h],
            old(spans).wf(),
            filed(old(spans)@, q0),
            runs_ok(q0),
            spans_true(self, old(spans)@),
            forall|id: Stamp| #[trigger]
                spec_covers(h, run.len, id) ==> !expand(q0).dom().contains(id),
        ensures
            final(spans).wf(),
            filed(final(spans)@, r@),
            runs_ok(r@),
            spans_true(self, final(spans)@),
            expand(r@) == expand(q0).union_prefer_right(run_places(h, run)),
    {
        let ghost mut q = q0;
        let len: u64 = run.len;
        let mut start: u64 = 0;
        let mut anchor = run.anchor;
        proof {
            assert(len >= 1 && h.lamport + len - 1 <= u64::MAX);
            assert(step(h, 0) == h);
            let none = DeadRun { len: 0, anchor: run.anchor };
            assert(expand(q0).union_prefer_right(run_places(h, none)) =~= expand(q0));
        }
        while start < len
            invariant
                self.wf(),
                cuts.wf(),
                cuts_made(self, cuts@),
                self.dead@.dom().contains(h),
                run == self.dead@[h],
                len == run.len,
                len >= 1,
                h.lamport + len - 1 <= u64::MAX,
                start <= len,
                spans.wf(),
                filed(spans@, q),
                runs_ok(q),
                spans_true(self, spans@),
                forall|id: Stamp| #[trigger]
                    spec_covers(h, len, id) ==> !expand(q0).dom().contains(id),
                expand(q) == expand(q0).union_prefer_right(
                    run_places(h, DeadRun { len: start, anchor: run.anchor }),
                ),
                anchor == if start == 0 {
                    run.anchor
                } else {
                    Anchor { parent: Some(step(h, start - 1)), side: Side::Right }
                },
            decreases len - start,
        {
            let head = Stamp { lamport: h.lamport + start, client: h.client, offset: h.offset };
            let mut end: u64 = len;
            if start < len - 1 {
                let after = Stamp {
                    lamport: h.lamport + start + 1,
                    client: h.client,
                    offset: h.offset,
                };
                if let Some(d) = Self::next_from(cuts, after) {
                    if d < len - 1 - start {
                        end = start + 1 + d;
                    }
                }
            }
            let ghost piece = DeadRun { len: (end - start) as u64, anchor };
            proof {
                assert(head == step(h, start as int));
                lemma_stretch_is_piece(self, cuts@, h, start, end);
                assert forall|id: Stamp| #[trigger] spec_covers(head, piece.len, id) implies !dead_at(
                    q,
                    id,
                ) by {
                    assert(spec_covers(h, len, id));
                    if dead_at(q, id) {
                        assert(expand(q).dom().contains(id));
                    }
                }
                lemma_add_run(q, head, piece);
                lemma_file(spans@, q, head, piece, false);
                assert forall|id: Stamp| #[trigger] spec_covers(
                    head,
                    piece.len,
                    id,
                ) implies !self@.items.dom().contains(id) by {
                    assert(spec_covers(h, len, id));
                    lemma_run_unique(self.dead@, h, id);
                    self.lemma_places(id);
                }
                let more = DeadRun { len: end, anchor: run.anchor };
                let done = DeadRun { len: start, anchor: run.anchor };
                if start == 0 {
                    assert(run_places(h, done).union_prefer_right(run_places(head, piece)) =~=
                        run_places(h, more));
                } else {
                    assert(continues(h, done, head, piece));
                    lemma_weld(h, done, head, piece);
                }
                q = q.insert(head, piece);
                assert(expand(q) =~= expand(q0).union_prefer_right(run_places(h, more)));
            }
            spans.insert(
                Attach { parent: anchor.parent, side: anchor.side, head },
                Span { head, len: end - start, live: false },
            );
            anchor =
            Anchor {
                parent: Some(
                    Stamp {
                        lamport: h.lamport + (end - 1),
                        client: h.client,
                        offset: h.offset,
                    },
                ),
                side: Side::Right,
            };
            start = end;
        }
        Ghost(q)
    }
}

/// A node that carries a value is a piece by itself.
proof fn lemma_node_is_piece(l: &List, head: Stamp)
    requires
        l.wf(),
        l.nodes@.dom().contains(head),
    ensures
        is_piece(l@.places, head, 1),
        span_true(l@, Span { head, len: 1, live: true }),
{
    reveal(is_piece);
    l.lemma_places(head);
    let places = l@.places;
    assert(step(head, 0) == head);
    assert forall|x: Stamp| #[trigger] places.dom().contains(x) implies attaches_outside(
        places[x],
        x,
        head,
        1,
    ) by {
        if let Some(p) = places[x].parent {
            if spec_covers(head, 1, p) {
                assert(p == head);
            }
        }
    }
}

// --- the walk ---

proof fn lemma_run_finite(h: Stamp, anchor: Anchor, len: u64)
    requires
        len >= 1 ==> h.lamport + len - 1 <= u64::MAX,
    ensures
        run_places(h, DeadRun { len, anchor }).dom().finite(),
    decreases len,
{
    let d = run_places(h, DeadRun { len, anchor }).dom();
    if len == 0 {
        assert(d =~= Set::empty());
    } else {
        let less = (len - 1) as u64;
        lemma_run_finite(h, anchor, less);
        let e = run_places(h, DeadRun { len: less, anchor }).dom();
        assert(d =~= e.insert(step(h, len - 1)));
    }
}

proof fn lemma_expand_finite(f: Seq<(SeqKey, DeadRun)>, j: int)
    requires
        sorted(f),
        runs_ok(seq_map::<SeqKey, DeadRun>(f)),
        0 <= j <= f.len(),
    ensures
        expand(seq_map::<SeqKey, DeadRun>(f.take(j))).dom().finite(),
    decreases j,
{
    if j == 0 {
        assert(expand(seq_map::<SeqKey, DeadRun>(f.take(0))).dom() =~= Set::empty());
    } else {
        lemma_expand_finite(f, j - 1);
        lemma_take::<SeqKey, DeadRun>(f, j - 1);
        lemma_entry::<SeqKey, DeadRun>(f, j - 1);
        crate::list::lemma_prefix_of_runs(f, j - 1);
        let all = seq_map::<SeqKey, DeadRun>(f);
        let part = seq_map::<SeqKey, DeadRun>(f.take(j - 1));
        let h = f[j - 1].0@;
        let run = f[j - 1].1;
        crate::list::lemma_sub_runs(all, part, h, run);
        lemma_add_run(part, h, run);
        lemma_run_finite(h, run.anchor, run.len);
        assert(expand(part.insert(h, run)).dom() =~= expand(part).dom().union(
            run_places(h, run).dom(),
        ));
    }
}

/// A list has finitely many ids.
pub proof fn lemma_places_finite(l: &List)
    requires
        l.wf(),
    ensures
        l@.places.dom().finite(),
{
    let f = l.dead.entries@;
    lemma_expand_finite(f, f.len() as int);
    assert(f.take(f.len() as int) =~= f);
    crate::table::lemma_size::<SeqKey, Node>(l.nodes.entries@);
    assert(anchors_of(l.nodes@).dom() =~= l.nodes@.dom());
    assert(l@.places.dom() =~= expand(l.dead@).dom().union(l.nodes@.dom()));
}

/// What the walk has left to do with a span.
#[derive(Clone, Copy)]
enum Task {
    Emit(Span),
    Expand(Span),
}

/// Whether a span is one of those a list splits into.
spec fn span_of(l: &List, q: Map<Stamp, DeadRun>, s: Span) -> bool {
    &&& span_true(l@, s)
    &&& is_piece(l@.places, s.head, s.len)
    &&& q.dom().contains(s.head)
    &&& q[s.head].len == s.len
    &&& s.len >= 1
    &&& s.head.lamport + s.len - 1 <= u64::MAX
}

/// The ids a task stands for.
spec fn task_ids(places: Map<Stamp, Anchor>, t: Task, d: nat) -> Seq<Stamp> {
    match t {
        Task::Emit(s) => s.ids(),
        Task::Expand(s) => walk(places, s.head, (places.dom().len() + 1 - d) as nat),
    }
}

/// The ids a stack stands for, the top first.
spec fn stack_ids(places: Map<Stamp, Anchor>, stack: Seq<Task>, depths: Seq<nat>) -> Seq<Stamp>
    decreases stack.len(),
{
    if stack.len() == 0 {
        Seq::empty()
    } else {
        task_ids(places, stack.last(), depths.last()) + stack_ids(
            places,
            stack.drop_last(),
            depths.drop_last(),
        )
    }
}

/// How much is left to do.
spec fn stack_weight(places: Map<Stamp, Anchor>, stack: Seq<Task>, depths: Seq<nat>) -> nat
    decreases stack.len(),
{
    if stack.len() == 0 {
        0
    } else {
        (match stack.last() {
            Task::Emit(_) => 1,
            Task::Expand(_) => 3 * task_ids(places, stack.last(), depths.last()).len(),
        }) + stack_weight(places, stack.drop_last(), depths.drop_last())
    }
}

/// Whether every task is about a span of the list, at the depth it hangs at.
spec fn stack_ok(l: &List, q: Map<Stamp, DeadRun>, stack: Seq<Task>, depths: Seq<nat>) -> bool {
    &&& stack.len() == depths.len()
    &&& forall|i: int|
        0 <= i < stack.len() ==> match #[trigger] stack[i] {
            Task::Emit(s) => span_of(l, q, s),
            Task::Expand(s) => span_of(l, q, s) && at_depth(l@.places, s.head, depths[i]),
        }
}

/// The ids of spans, one after the other.
spec fn spans_ids(out: Seq<Span>) -> Seq<Stamp>
    decreases out.len(),
{
    if out.len() == 0 {
        Seq::empty()
    } else {
        spans_ids(out.drop_last()) + out.last().ids()
    }
}

spec fn heads(s: Seq<Span>) -> Seq<Stamp> {
    s.map_values(|x: Span| x.head)
}

/// The ids of a piece hang one below the other.
proof fn lemma_piece_depth(places: Map<Stamp, Anchor>, head: Stamp, len: u64, d: nat, i: int)
    requires
        is_piece(places, head, len),
        at_depth(places, head, d),
        0 <= i < len,
        head.lamport + len - 1 <= u64::MAX,
    ensures
        at_depth(places, step(head, i), (d + i) as nat),
    decreases i,
{
    if i == 0 {
        assert(step(head, 0) == head);
    } else {
        lemma_piece_depth(places, head, len, d, i - 1);
        reveal(is_piece);
        let id = step(head, i);
        assert(spec_covers(head, len, id));
        assert(step(id, -1) == step(head, i - 1));
    }
}

/// What attaches at the edge of a piece starts a piece.
proof fn lemma_kid_is_head(
    places: Map<Stamp, Anchor>,
    q: Map<Stamp, DeadRun>,
    parent: Option<Stamp>,
    side: Side,
    x: Stamp,
)
    requires
        splits(places, q),
        edge(q, parent, side),
        places.dom().contains(x),
        places[x] == (Anchor { parent, side }),
    ensures
        q.dom().contains(x),
        q[x].anchor == (Anchor { parent, side }),
{
    assert(dead_at(q, x));
    let g = run_of(q, x);
    assert(q.dom().contains(g) && spec_covers(g, q[g].len, x));
    if x != g {
        let p = step(x, -1);
        assert(parent == Some(p));
        let h = choose|h: Stamp| #[trigger] q.dom().contains(h) && step(h, q[h].len - 1) == p;
        assert(q.dom().contains(h) && step(h, q[h].len - 1) == p);
        assert(spec_covers(h, q[h].len, p));
        assert(spec_covers(g, q[g].len, p));
        lemma_run_unique(q, h, p);
        lemma_run_unique(q, g, p);
    }
}

/// Whether a place is at the edge of a piece: the root, the left of anything, or the
/// right of a piece's last id.
spec fn edge(q: Map<Stamp, DeadRun>, parent: Option<Stamp>, side: Side) -> bool {
    parent matches Some(p) ==> side == Side::Left || exists|h: Stamp| #[trigger]
        q.dom().contains(h) && step(h, q[h].len - 1) == p
}

/// The spans that attach at one place, by stamp.
fn bucket(
    l: &List,
    spans: &Table<Attach, Span>,
    Ghost(q): Ghost<Map<Stamp, DeadRun>>,
    parent: Option<Stamp>,
    side: Side,
) -> (out: Vec<Span>)
    requires
        l.wf(),
        spans.wf(),
        filed(spans@, q),
        splits(l@.places, q),
        spans_true(l, spans@),
        edge(q, parent, side),
    ensures
        heads(out@) == kids(l@.places, parent, side),
        forall|i: int| 0 <= i < out@.len() ==> span_of(l, q, #[trigger] out@[i]),
{
    let lowest = Stamp { lamport: 0, client: crate::clientid::ClientId { bits: 0 }, offset: 0 };
    let ghost e = spans.entries@;
    let ghost from = Attach { parent, side, head: lowest };
    let (first, _found) = spans.find(&Attach { parent, side, head: lowest });
    let mut out: Vec<Span> = Vec::new();
    let mut i: usize = first;
    while i < spans.entries.len() && spans.entries[i].0.parent == parent && spans.entries[i].0.side
        == side
        invariant
            l.wf(),
            spans.wf(),
            e == spans.entries@,
            filed(spans@, q),
            splits(l@.places, q),
            spans_true(l, spans@),
            first <= i <= e.len(),
            out@.len() == i - first,
            forall|x: int|
                first <= x < i ==> out@[x - first] == (#[trigger] e[x]).1 && e[x].0.parent == parent
                    && e[x].0.side == side,
            forall|j: int| 0 <= j < out@.len() ==> span_of(l, q, #[trigger] out@[j]),
        decreases e.len() - i,
    {
        let span = spans.entries[i].1;
        proof {
            lemma_entry::<Attach, Span>(e, i as int);
            let k = e[i as int].0;
            assert(spans@.dom().contains(k));
            assert(q.dom().contains(k.head));
            assert(span_of(l, q, span));
        }
        out.push(span);
        i += 1;
    }
    proof {
        let hs = heads(out@);
        let places = l@.places;
        lemma_places_finite(l);
        lemma_kids(places, parent, side);
        assert forall|a: int, b: int| 0 <= a < b < hs.len() implies stamp_lt(
            #[trigger] hs[a],
            #[trigger] hs[b],
        ) by {
            lemma_entry::<Attach, Span>(e, first + a);
            lemma_entry::<Attach, Span>(e, first + b);
            assert(out@[a] == e[first + a].1 && out@[b] == e[first + b].1);
            assert(spans@.dom().contains(e[first + a].0) && spans@.dom().contains(e[first + b].0));
            assert(Attach::before(e[first + a].0@, e[first + b].0@));
        }
        assert(hs.to_set() =~= kid_set(places, parent, side)) by {
            assert forall|x: Stamp| hs.to_set().contains(x) <==> kid_set(
                places,
                parent,
                side,
            ).contains(x) by {
                if hs.contains(x) {
                    let a = hs.index_of(x);
                    lemma_entry::<Attach, Span>(e, first + a);
                    assert(out@[a] == e[first + a].1);
                    let k = e[first + a].0;
                    assert(spans@.dom().contains(k));
                    assert(q.dom().contains(k.head));
                    assert(k.head == x);
                    assert(spec_covers(x, q[x].len, x));
                    lemma_run_unique(q, x, x);
                    assert(places[x] == q[x].anchor);
                }
                if kid_set(places, parent, side).contains(x) {
                    lemma_kid_is_head(places, q, parent, side, x);
                    let k = Attach { parent, side, head: x };
                    assert(k == attach_at(q[x].anchor, x));
                    assert(spans@.dom().contains(k));
                    let j = index_of::<Attach, Span>(e, k);
                    assert(e[j].0@ == k);
                    lemma_entry::<Attach, Span>(e, j);
                    // `k` is at or after the first place looked at.
                    if j < first {
                        assert(Attach::before(e[j].0@, from));
                    }
                    if j >= i {
                        // The scan stopped before `k`, at an entry between the first
                        // place looked at and `k`.
                        if j > i {
                            assert(Attach::before(e[i as int].0@, e[j].0@));
                        }
                        if _found {
                            if i > first {
                                assert(Attach::before(e[first as int].0@, e[i as int].0@));
                            }
                        } else {
                            assert(Attach::before(from, e[i as int].0@));
                        }
                    }
                    assert(out@[j - first] == e[j].1);
                    assert(hs[j - first] == x);
                }
            }
        }
        assert(ascends(hs));
        lemma_ascends_unique(hs, kids(places, parent, side));
    }
    out
}

/// Put spans on the stack so that they come off in order.
fn push_kids(
    l: &List,
    Ghost(q): Ghost<Map<Stamp, DeadRun>>,
    stack: &mut Vec<Task>,
    Ghost(depths): Ghost<Seq<nat>>,
    found: &Vec<Span>,
    Ghost(d): Ghost<nat>,
) -> (r: Ghost<Seq<nat>>)
    requires
        l.wf(),
        stack_ok(l, q, old(stack)@, depths),
        d <= l@.places.dom().len() + 1,
        forall|i: int|
            0 <= i < found@.len() ==> span_of(l, q, #[trigger] found@[i]) && at_depth(
                l@.places,
                found@[i].head,
                d,
            ),
    ensures
        stack_ok(l, q, final(stack)@, r@),
        stack_ids(l@.places, final(stack)@, r@) == walk_all(
            l@.places,
            heads(found@),
            (l@.places.dom().len() + 1 - d) as nat,
        ) + stack_ids(l@.places, old(stack)@, depths),
        stack_weight(l@.places, final(stack)@, r@) == 3 * walk_all(
            l@.places,
            heads(found@),
            (l@.places.dom().len() + 1 - d) as nat,
        ).len() + stack_weight(l@.places, old(stack)@, depths),
{
    let ghost places = l@.places;
    let ghost fuel = (places.dom().len() + 1 - d) as nat;
    let ghost mut ds = depths;
    let ghost base = stack_ids(places, stack@, depths);
    let ghost weight = stack_weight(places, stack@, depths);
    let mut i: usize = found.len();
    proof {
        assert(heads(found@).skip(i as int) =~= Seq::empty());
        lemma_walk_none(places, fuel);
        assert(Seq::<Stamp>::empty() + base =~= base);
    }
    while i > 0
        invariant
            l.wf(),
            places == l@.places,
            fuel == places.dom().len() + 1 - d,
            i <= found@.len(),
            stack_ok(l, q, stack@, ds),
            forall|j: int|
                0 <= j < found@.len() ==> span_of(l, q, #[trigger] found@[j]) && at_depth(
                    places,
                    found@[j].head,
                    d,
                ),
            stack_ids(places, stack@, ds) == walk_all(
                places,
                heads(found@).skip(i as int),
                fuel,
            ) + base,
            stack_weight(places, stack@, ds) == 3 * walk_all(
                places,
                heads(found@).skip(i as int),
                fuel,
            ).len() + weight,
        decreases i,
    {
        i -= 1;
        let span = found[i];
        let ghost before = stack@;
        let ghost dbefore = ds;
        stack.push(Task::Expand(span));
        proof {
            ds = ds.push(d);
            assert(stack@.drop_last() =~= before);
            assert(ds.drop_last() =~= dbefore);
            let hs = heads(found@).skip(i as int);
            assert(hs[0] == span.head);
            assert(hs.skip(1) =~= heads(found@).skip(i + 1));
            let w = walk(places, span.head, fuel);
            let rest = walk_all(places, hs.skip(1), fuel);
            assert(walk_all(places, hs, fuel) == w + rest);
            assert(w + (rest + base) =~= (w + rest) + base);
            assert(stack_ids(places, stack@, ds) == w + stack_ids(places, before, dbefore));
            assert forall|j: int| 0 <= j < stack@.len() implies match #[trigger] stack@[j] {
                Task::Emit(s) => span_of(l, q, s),
                Task::Expand(s) => span_of(l, q, s) && at_depth(places, s.head, ds[j]),
            } by {
                if j < before.len() {
                    assert(stack@[j] == before[j]);
                    assert(ds[j] == dbefore[j]);
                }
            }
        }
    }
    proof {
        assert(heads(found@).skip(0) =~= heads(found@));
    }
    Ghost(ds)
}

impl List {
    /// Every span in sequence order, deleted ones too.
    fn tree_order(&self) -> (out: Vec<Span>)
        requires
            self.wf(),
        ensures
            spans_ids(out@) == order(self@.places),
            forall|i: int|
                0 <= i < out@.len() ==> span_true(self@, #[trigger] out@[i]) && out@[i].len >= 1
                    && out@[i].head.lamport + out@[i].len - 1 <= u64::MAX,
    {
        let (spans, Ghost(q)) = self.spans();
        let ghost places = self@.places;
        let ghost n = places.dom().len();
        proof {
            lemma_places_finite(self);
        }
        let mut out: Vec<Span> = Vec::new();
        let mut stack: Vec<Task> = Vec::new();
        let right = bucket(self, &spans, Ghost(q), None, Side::Right);
        let left = bucket(self, &spans, Ghost(q), None, Side::Left);
        proof {
            lemma_kids(places, None, Side::Right);
            lemma_kids(places, None, Side::Left);
            lemma_root_depth(self, right@, Side::Right);
            lemma_root_depth(self, left@, Side::Left);
        }
        let Ghost(d0) = push_kids(
            self,
            Ghost(q),
            &mut stack,
            Ghost(Seq::empty()),
            &right,
            Ghost(1nat),
        );
        let Ghost(mut_depths) = push_kids(self, Ghost(q), &mut stack, Ghost(d0), &left, Ghost(1nat));
        let ghost mut depths = mut_depths;
        proof {
            let r = walk_all(places, kids(places, None, Side::Right), n);
            let none = Seq::<Stamp>::empty();
            assert(r + none =~= r);
            assert(stack_ids(places, stack@, depths) == order(places));
            assert(spans_ids(out@) + stack_ids(places, stack@, depths) =~= order(places));
        }
        while stack.len() > 0
            invariant
                self.wf(),
                places == self@.places,
                n == places.dom().len(),
                places.dom().finite(),
                spans.wf(),
                filed(spans@, q),
                splits(places, q),
                spans_true(self, spans@),
                stack_ok(self, q, stack@, depths),
                spans_ids(out@) + stack_ids(places, stack@, depths) == order(places),
                forall|i: int|
                    0 <= i < out@.len() ==> span_true(self@, #[trigger] out@[i]) && out@[i].len >= 1
                        && out@[i].head.lamport + out@[i].len - 1 <= u64::MAX,
            decreases stack_weight(places, stack@, depths),
        {
            let ghost before = stack@;
            let ghost dbefore = depths;
            let ghost emitted = spans_ids(out@);
            let task = match stack.pop() {
                Some(t) => t,
                None => return out,
            };
            let ghost d = depths.last();
            proof {
                assert(before.last() == task);
                assert(before[before.len() - 1] == task);
                depths = depths.drop_last();
                assert(stack@ =~= before.drop_last());
                assert forall|j: int| 0 <= j < stack@.len() implies match #[trigger] stack@[j] {
                    Task::Emit(s) => span_of(self, q, s),
                    Task::Expand(s) => span_of(self, q, s) && at_depth(places, s.head, depths[j]),
                } by {
                    assert(stack@[j] == before[j]);
                }
            }
            let ghost rest = stack_ids(places, stack@, depths);
            match task {
                Task::Emit(s) => {
                    let ghost done = out@;
                    out.push(s);
                    proof {
                        assert(out@.drop_last() =~= done);
                        assert(emitted + (s.ids() + rest) =~= (emitted + s.ids()) + rest);
                    }
                },
                Task::Expand(s) => {
                    let ghost fuel = (n + 1 - d) as nat;
                    let last = s.last();
                    proof {
                        assert(q.dom().contains(s.head) && step(s.head, q[s.head].len - 1) == last);
                        lemma_piece_depth(places, s.head, s.len, d, s.len - 1);
                        lemma_depth_bounded(places, last, (d + s.len - 1) as nat);
                        lemma_walk_piece(places, s.head, s.len, fuel);
                    }
                    let right = bucket(self, &spans, Ghost(q), Some(last), Side::Right);
                    let left = bucket(self, &spans, Ghost(q), Some(s.head), Side::Left);
                    proof {
                        lemma_kid_depth(self, right@, last, Side::Right, (d + s.len - 1) as nat);
                        lemma_kid_depth(self, left@, s.head, Side::Left, d);
                    }
                    let Ghost(ds1) = push_kids(
                        self,
                        Ghost(q),
                        &mut stack,
                        Ghost(depths),
                        &right,
                        Ghost((d + s.len) as nat),
                    );
                    let ghost stack1 = stack@;
                    stack.push(Task::Emit(s));
                    let ghost ds2 = ds1.push(0nat);
                    proof {
                        assert(stack@.drop_last() =~= stack1);
                        assert(ds2.drop_last() =~= ds1);
                        assert forall|j: int| 0 <= j < stack@.len()
                            implies match #[trigger] stack@[j] {
                            Task::Emit(s) => span_of(self, q, s),
                            Task::Expand(s) => span_of(self, q, s) && at_depth(
                                places,
                                s.head,
                                ds2[j],
                            ),
                        } by {
                            if j < stack1.len() {
                                assert(stack@[j] == stack1[j]);
                                assert(ds2[j] == ds1[j]);
                            }
                        }
                        assert(stack_ok(self, q, stack@, ds2));
                    }
                    let Ghost(ds3) = push_kids(
                        self,
                        Ghost(q),
                        &mut stack,
                        Ghost(ds2),
                        &left,
                        Ghost((d + 1) as nat),
                    );
                    proof {
                        depths = ds3;
                        let wl = walk_all(places, heads(left@), (fuel - 1) as nat);
                        let wr = walk_all(places, heads(right@), (fuel - s.len) as nat);
                        assert(wl + (s.ids() + (wr + rest)) =~= (wl + s.ids() + wr) + rest);
                        assert(stack_ids(places, stack@, depths) == stack_ids(
                            places,
                            before,
                            dbefore,
                        ));
                        assert((wl + s.ids() + wr).len() == wl.len() + s.len + wr.len());
                    }
                },
            }
        }
        proof {
            assert(spans_ids(out@) + Seq::<Stamp>::empty() =~= spans_ids(out@));
        }
        out
    }
}

/// What attaches to the root hangs one deep.
proof fn lemma_root_depth(l: &List, found: Seq<Span>, side: Side)
    requires
        l.wf(),
        heads(found) == kids(l@.places, None, side),
    ensures
        forall|i: int| 0 <= i < found.len() ==> at_depth(l@.places, (#[trigger] found[i]).head, 1),
{
    lemma_places_finite(l);
    lemma_kids(l@.places, None, side);
    assert forall|i: int| 0 <= i < found.len() implies at_depth(
        l@.places,
        (#[trigger] found[i]).head,
        1,
    ) by {
        assert(heads(found)[i] == found[i].head);
    }
}

/// What attaches to an id hangs one deeper than it.
proof fn lemma_kid_depth(l: &List, found: Seq<Span>, p: Stamp, side: Side, d: nat)
    requires
        l.wf(),
        heads(found) == kids(l@.places, Some(p), side),
        at_depth(l@.places, p, d),
    ensures
        forall|i: int|
            0 <= i < found.len() ==> at_depth(l@.places, (#[trigger] found[i]).head, (d + 1) as nat),
{
    lemma_places_finite(l);
    lemma_kids(l@.places, Some(p), side);
    assert forall|i: int| 0 <= i < found.len() implies at_depth(
        l@.places,
        (#[trigger] found[i]).head,
        (d + 1) as nat,
    ) by {
        assert(heads(found)[i] == found[i].head);
    }
}

// --- what a list reads as ---

/// The ids of `s` that are present and rendered, in order.
pub open spec fn live_ids(l: ListV, s: Seq<Stamp>) -> Seq<Stamp>
    decreases s.len(),
{
    if s.len() == 0 {
        Seq::empty()
    } else {
        let rest = live_ids(l, s.drop_last());
        if l.is_live(s.last()) {
            rest.push(s.last())
        } else {
            rest
        }
    }
}

/// The live ids of a list, in sequence order.
pub open spec fn list_live(l: ListV) -> Seq<Stamp> {
    live_ids(l, order(l.places))
}

/// The live values of a list, in sequence order.
pub open spec fn list_values(l: ListV) -> Seq<ElementV> {
    list_live(l).map_values(|id: Stamp| l.items[id].value)
}

/// Every id that is present and rendered.
pub open spec fn live_set(l: ListV) -> Set<Stamp> {
    Set::new(|id: Stamp| l.is_live(id))
}

/// Whether `id` counts as live for an index: rendered, and not the one left out.
pub open spec fn counts(l: ListV, id: Stamp, exclude: Option<Stamp>) -> bool {
    l.is_live(id) && exclude != Some(id)
}

/// Where in `s` the gap before live position `index` is: right after the `index`-th id
/// that counts.
pub open spec fn gap_at(l: ListV, s: Seq<Stamp>, index: nat, exclude: Option<Stamp>) -> nat
    decreases s.len(),
{
    if index == 0 || s.len() == 0 {
        0
    } else {
        1 + gap_at(
            l,
            s.skip(1),
            if counts(l, s[0], exclude) {
                (index - 1) as nat
            } else {
                index
            },
            exclude,
        )
    }
}

/// Whether something hangs to the right of `p`.
pub open spec fn has_right(places: Map<Stamp, Anchor>, p: Stamp) -> bool {
    exists|x: Stamp| #[trigger]
        places.dom().contains(x) && places[x] == (Anchor { parent: Some(p), side: Side::Right })
}

/// Where to attach between two neighbours: after the left one when nothing hangs to its
/// right yet, else before the right one.
pub open spec fn placement_between(
    places: Map<Stamp, Anchor>,
    left: Option<Stamp>,
    right: Option<Stamp>,
) -> Anchor {
    match (left, right) {
        (Some(l), Some(r)) => if has_right(places, l) {
            Anchor { parent: Some(r), side: Side::Left }
        } else {
            Anchor { parent: Some(l), side: Side::Right }
        },
        (Some(l), None) => Anchor { parent: Some(l), side: Side::Right },
        (None, Some(r)) => Anchor { parent: Some(r), side: Side::Left },
        (None, None) => Anchor { parent: None, side: Side::Right },
    }
}

/// Where to attach at place `b` of the order.
pub open spec fn placement_at(places: Map<Stamp, Anchor>, s: Seq<Stamp>, b: int) -> Anchor {
    placement_between(
        places,
        if b > 0 {
            Some(s[b - 1])
        } else {
            None
        },
        if b < s.len() {
            Some(s[b])
        } else {
            None
        },
    )
}

/// Where an insert at live `index` attaches.
pub open spec fn list_place(l: ListV, index: nat, exclude: Option<Stamp>) -> Anchor {
    let s = order(l.places);
    placement_at(l.places, s, gap_at(l, s, index, exclude) as int)
}

/// How many live ids come before `id` in `s`, and whether `id` is live; nothing if `s`
/// does not have it.
pub open spec fn rank_in(l: ListV, s: Seq<Stamp>, id: Stamp) -> Option<(nat, bool)>
    decreases s.len(),
{
    if s.len() == 0 {
        None
    } else if s[0] == id {
        Some((0, l.is_live(id)))
    } else {
        match rank_in(l, s.skip(1), id) {
            None => None,
            Some((n, b)) => Some(
                (
                    if l.is_live(s[0]) {
                        n + 1
                    } else {
                        n
                    },
                    b,
                ),
            ),
        }
    }
}

/// The live index a position resolves to: an item's edge, a boundary, or, where the item
/// is deleted, the nearest live neighbour on the side the position leans to; nothing if
/// the item is not in the sequence.
pub open spec fn resolved(l: ListV, pos: RelativePosition) -> Option<nat> {
    match pos {
        RelativePosition::Start => Some(0),
        RelativePosition::End => Some(live_set(l).len()),
        RelativePosition::Before(id) => match rank_in(l, order(l.places), id) {
            Some((n, _)) => Some(n),
            None => None,
        },
        RelativePosition::After(id) => match rank_in(l, order(l.places), id) {
            Some((n, live)) => Some(
                if live {
                    n + 1
                } else {
                    n
                },
            ),
            None => None,
        },
    }
}

/// As [`resolved`], an item that is not in the sequence resolving to the boundary its
/// position leans away from.
pub open spec fn resolved_or_edge(l: ListV, pos: RelativePosition) -> nat {
    match (resolved(l, pos), pos) {
        (Some(n), _) => n,
        (None, RelativePosition::Before(_)) => live_set(l).len(),
        (None, _) => 0,
    }
}

/// The position at live `index`: bound to the item before the gap, or to the item at it.
pub open spec fn position_at(l: ListV, index: nat, side: Side) -> RelativePosition {
    let n = live_set(l).len();
    let i = if index <= n {
        index
    } else {
        n
    };
    let live = list_live(l);
    match side {
        Side::Left => if 0 < i <= live.len() {
            RelativePosition::After(live[i - 1])
        } else {
            RelativePosition::Start
        },
        Side::Right => if i < live.len() {
            RelativePosition::Before(live[i as int])
        } else {
            RelativePosition::End
        },
    }
}

pub proof fn lemma_live_ids_concat(l: ListV, a: Seq<Stamp>, b: Seq<Stamp>)
    ensures
        live_ids(l, a + b) == live_ids(l, a) + live_ids(l, b),
    decreases b.len(),
{
    if b.len() == 0 {
        assert(a + b =~= a);
        assert(live_ids(l, a) + live_ids(l, b) =~= live_ids(l, a));
    } else {
        assert((a + b).drop_last() =~= a + b.drop_last());
        lemma_live_ids_concat(l, a, b.drop_last());
        assert(live_ids(l, a + b) =~= live_ids(l, a) + live_ids(l, b));
    }
}

proof fn lemma_live_ids_none(l: ListV, s: Seq<Stamp>)
    requires
        forall|i: int| 0 <= i < s.len() ==> !l.is_live(#[trigger] s[i]),
    ensures
        live_ids(l, s) == Seq::<Stamp>::empty(),
    decreases s.len(),
{
    if s.len() > 0 {
        assert(!l.is_live(s[s.len() - 1]));
        let t = s.drop_last();
        assert forall|i: int| 0 <= i < t.len() implies !l.is_live(#[trigger] t[i]) by {
            assert(t[i] == s[i]);
        }
        lemma_live_ids_none(l, t);
    }
}

/// The live ids of a span: itself if it is a rendered node, else none.
proof fn lemma_span_live(l: ListV, s: Span)
    requires
        span_true(l, s),
        s.len >= 1,
        s.head.lamport + s.len - 1 <= u64::MAX,
    ensures
        live_ids(l, s.ids()) == if s.live && l.is_live(s.head) {
            seq![s.head]
        } else {
            Seq::<Stamp>::empty()
        },
{
    assert(step(s.head, 0) == s.head);
    if s.live {
        assert(s.ids() =~= seq![s.head]);
        assert(s.ids().drop_last() =~= Seq::empty());
        assert(live_ids(l, Seq::empty()) =~= Seq::<Stamp>::empty());
        assert(live_ids(l, s.ids()) =~= if l.is_live(s.head) {
            seq![s.head]
        } else {
            Seq::<Stamp>::empty()
        });
    } else {
        assert forall|i: int| 0 <= i < s.ids().len() implies !l.is_live(#[trigger] s.ids()[i]) by {
            assert(spec_covers(s.head, s.len, s.ids()[i]));
        }
        lemma_live_ids_none(l, s.ids());
    }
}

/// Ids that do not count are passed over.
proof fn lemma_gap_skips(
    l: ListV,
    a: Seq<Stamp>,
    b: Seq<Stamp>,
    index: nat,
    exclude: Option<Stamp>,
)
    requires
        index > 0,
        forall|i: int| 0 <= i < a.len() ==> !l.is_live(#[trigger] a[i]),
    ensures
        gap_at(l, a + b, index, exclude) == a.len() + gap_at(l, b, index, exclude),
    decreases a.len(),
{
    if a.len() == 0 {
        assert(a + b =~= b);
    } else {
        assert((a + b)[0] == a[0]);
        assert((a + b).skip(1) =~= a.skip(1) + b);
        let t = a.skip(1);
        assert forall|i: int| 0 <= i < t.len() implies !l.is_live(#[trigger] t[i]) by {
            assert(t[i] == a[i + 1]);
        }
        lemma_gap_skips(l, t, b, index, exclude);
    }
}

/// Ids that are not the one looked for and not live do not change its rank.
proof fn lemma_rank_skips(l: ListV, a: Seq<Stamp>, b: Seq<Stamp>, id: Stamp)
    requires
        forall|i: int| 0 <= i < a.len() ==> !l.is_live(#[trigger] a[i]) && a[i] != id,
    ensures
        rank_in(l, a + b, id) == rank_in(l, b, id),
    decreases a.len(),
{
    if a.len() == 0 {
        assert(a + b =~= b);
    } else {
        assert((a + b)[0] == a[0]);
        assert(!l.is_live(a[0]) && a[0] != id);
        assert((a + b).skip(1) =~= a.skip(1) + b);
        let t = a.skip(1);
        assert forall|i: int| 0 <= i < t.len() implies !l.is_live(#[trigger] t[i]) && t[i] != id by {
            assert(t[i] == a[i + 1]);
        }
        lemma_rank_skips(l, t, b, id);
    }
}

proof fn lemma_spans_ids_split(out: Seq<Span>, k: int)
    requires
        0 <= k < out.len(),
    ensures
        spans_ids(out.take(k + 1)) == spans_ids(out.take(k)) + out[k].ids(),
{
    assert(out.take(k + 1).drop_last() =~= out.take(k));
}

/// The ids of the spans from `k` on.
spec fn ids_from(out: Seq<Span>, k: int) -> Seq<Stamp> {
    spans_ids(out).skip(spans_ids(out.take(k)).len() as int)
}

proof fn lemma_ids_from(out: Seq<Span>, k: int)
    requires
        0 <= k <= out.len(),
    ensures
        spans_ids(out) == spans_ids(out.take(k)) + ids_from(out, k),
        k < out.len() ==> ids_from(out, k) == out[k].ids() + ids_from(out, k + 1),
        k == out.len() ==> ids_from(out, k) == Seq::<Stamp>::empty(),
    decreases out.len() - k,
{
    if k == out.len() {
        assert(out.take(k) =~= out);
        assert(ids_from(out, k) =~= Seq::empty());
        assert(spans_ids(out) =~= spans_ids(out.take(k)) + ids_from(out, k));
    } else {
        lemma_ids_from(out, k + 1);
        lemma_spans_ids_split(out, k);
        let a = spans_ids(out.take(k));
        let b = out[k].ids();
        let c = ids_from(out, k + 1);
        assert(spans_ids(out) =~= a + (b + c));
        assert(ids_from(out, k) =~= b + c);
    }
}

impl List {
    /// Whether a span is a node that renders.
    fn span_lives(&self, s: &Span) -> (b: bool)
        requires
            self.wf(),
            span_true(self@, *s),
            s.len >= 1,
        ensures
            b == (s.live && self@.is_live(s.head)),
            !s.live ==> !self@.is_live(s.head),
    {
        proof {
            if !s.live {
                assert(spec_covers(s.head, s.len, s.head));
            }
        }
        if !s.live {
            return false;
        }
        match self.nodes.get(&SeqKey { id: s.head }) {
            Some(n) => !n.moved_away,
            None => false,
        }
    }

    /// Live nodes in sequence order.
    pub(crate) fn live_order(&self) -> (out: Vec<Stamp>)
        requires
            self.wf(),
        ensures
            out@ == list_live(self@),
    {
        let spans = self.tree_order();
        let ghost l = self@;
        let mut out: Vec<Stamp> = Vec::new();
        let mut k: usize = 0;
        proof {
            assert(spans@.take(0) =~= Seq::empty());
        }
        while k < spans.len()
            invariant
                self.wf(),
                l == self@,
                k <= spans@.len(),
                forall|i: int|
                    0 <= i < spans@.len() ==> span_true(l, #[trigger] spans@[i]) && spans@[i].len
                        >= 1 && spans@[i].head.lamport + spans@[i].len - 1 <= u64::MAX,
                out@ == live_ids(l, spans_ids(spans@.take(k as int))),
            decreases spans@.len() - k,
        {
            let s = spans[k];
            proof {
                assert(span_true(l, spans@[k as int]));
                lemma_spans_ids_split(spans@, k as int);
                lemma_live_ids_concat(l, spans_ids(spans@.take(k as int)), s.ids());
                lemma_span_live(l, s);
            }
            let ghost before = out@;
            if self.span_lives(&s) {
                out.push(s.head);
                proof {
                    assert(out@ =~= before + seq![s.head]);
                }
            } else {
                proof {
                    assert(before + Seq::<Stamp>::empty() =~= before);
                }
            }
            k += 1;
        }
        proof {
            assert(spans@.take(k as int) =~= spans@);
        }
        out
    }

    /// How many items are live.
    pub fn len(&self) -> (n: usize)
        requires
            self.wf(),
        ensures
            n == live_set(self@).len(),
            live_set(self@).finite(),
    {
        let ghost e = self.nodes.entries@;
        let mut n: usize = 0;
        let mut i: usize = 0;
        proof {
            assert(live_among(e.take(0)) =~= Set::empty());
        }
        while i < self.nodes.entries.len()
            invariant
                self.wf(),
                e == self.nodes.entries@,
                i <= e.len(),
                n <= i,
                live_among(e.take(i as int)).finite(),
                n == live_among(e.take(i as int)).len(),
            decreases e.len() - i,
        {
            proof {
                lemma_live_among_step(e, i as int);
            }
            if !self.nodes.entries[i].1.moved_away {
                n += 1;
            }
            i += 1;
        }
        proof {
            assert(e.take(i as int) =~= e);
            assert(live_among(e) =~= live_set(self@)) by {
                assert forall|id: Stamp| live_among(e).contains(id) <==> live_set(
                    self@,
                ).contains(id) by {
                    if live_among(e).contains(id) {
                        let j = choose|j: int|
                            0 <= j < e.len() && (#[trigger] e[j]).0@ == id && !e[j].1.moved_away;
                        lemma_entry::<SeqKey, Node>(e, j);
                    }
                    if self@.is_live(id) {
                        let j = index_of::<SeqKey, Node>(e, id);
                        assert(e[j].0@ == id);
                        lemma_entry::<SeqKey, Node>(e, j);
                    }
                }
            }
        }
        n
    }

    pub fn is_empty(&self) -> (b: bool)
        requires
            self.wf(),
        ensures
            b == (live_set(self@).len() == 0),
    {
        self.len() == 0
    }

    /// The live item at `index`, if any.
    pub fn get(&self, index: usize) -> (r: Option<Element>)
        requires
            self.wf(),
        ensures
            match r {
                Some(e) => index < list_values(self@).len() && e@ == list_values(
                    self@,
                )[index as int],
                None => index >= list_values(self@).len(),
            },
    {
        let ids = self.live_order();
        if index < ids.len() {
            proof {
                lemma_live_in_items(self@, order(self@.places), index as int);
            }
            self.node_value(ids[index])
        } else {
            None
        }
    }

    /// The live items in sequence order.
    pub fn values(&self) -> (out: Vec<Element>)
        requires
            self.wf(),
        ensures
            out@.map_values(|e: Element| e@) == list_values(self@),
    {
        let ids = self.live_order();
        let mut out: Vec<Element> = Vec::new();
        let mut i: usize = 0;
        while i < ids.len()
            invariant
                self.wf(),
                ids@ == list_live(self@),
                i <= ids@.len(),
                out@.len() == i,
                forall|j: int| 0 <= j < i ==> (#[trigger] out@[j])@ == list_values(self@)[j],
            decreases ids@.len() - i,
        {
            proof {
                lemma_live_in_items(self@, order(self@.places), i as int);
            }
            match self.node_value(ids[i]) {
                Some(e) => out.push(e),
                None => {},
            }
            i += 1;
        }
        proof {
            assert(out@.map_values(|e: Element| e@) =~= list_values(self@));
        }
        out
    }

    /// The id of the live node at `index`, if any.
    pub fn node_at(&self, index: usize) -> (r: Option<Stamp>)
        requires
            self.wf(),
        ensures
            r == if index < list_live(self@).len() {
                Some(list_live(self@)[index as int])
            } else {
                None::<Stamp>
            },
    {
        let ids = self.live_order();
        if index < ids.len() {
            Some(ids[index])
        } else {
            None
        }
    }

    /// The ids of up to `count` live items starting at `index`.
    pub fn node_ids(&self, index: usize, count: usize) -> (out: Vec<Stamp>)
        requires
            self.wf(),
        ensures
            out@ == ({
                let live = list_live(self@);
                if index >= live.len() {
                    Seq::<Stamp>::empty()
                } else if count >= live.len() - index {
                    live.skip(index as int)
                } else {
                    live.subrange(index as int, index + count)
                }
            }),
    {
        let ids = self.live_order();
        let mut out: Vec<Stamp> = Vec::new();
        if index >= ids.len() {
            return out;
        }
        let end: usize = if count >= ids.len() - index {
            ids.len()
        } else {
            index + count
        };
        let mut i: usize = index;
        while i < end
            invariant
                index <= i <= end <= ids@.len(),
                out@ =~= ids@.subrange(index as int, i as int),
            decreases end - i,
        {
            out.push(ids[i]);
            i += 1;
        }
        out
    }

    /// The live position of node `id`, if it is present and rendered.
    pub fn live_index(&self, id: Stamp) -> (r: Option<usize>)
        requires
            self.wf(),
        ensures
            match r {
                Some(i) => i < list_live(self@).len() && list_live(self@)[i as int] == id && forall|
                    j: int,
                | 0 <= j < i ==> list_live(self@)[j] != id,
                None => !list_live(self@).contains(id),
            },
    {
        let ids = self.live_order();
        let mut i: usize = 0;
        while i < ids.len()
            invariant
                ids@ == list_live(self@),
                i <= ids@.len(),
                forall|j: int| 0 <= j < i ==> ids@[j] != id,
            decreases ids@.len() - i,
        {
            if ids[i] == id {
                return Some(i);
            }
            i += 1;
        }
        None
    }

    /// Whether something hangs to the right of `parent`.
    fn has_right_child(&self, parent: Stamp) -> (b: bool)
        requires
            self.wf(),
        ensures
            b == has_right(self@.places, parent),
    {
        let ghost places = self@.places;
        let target = Anchor { parent: Some(parent), side: Side::Right };
        if let Some((head, run)) = self.dead_run(parent) {
            // Every id in a run but the last chains to its successor.
            if parent.lamport - head.lamport < run.len - 1 {
                proof {
                    let x = step(parent, 1);
                    assert(self.dead@.dom().contains(head));
                    assert(spec_covers(head, run.len, x));
                    lemma_run_unique(self.dead@, head, x);
                    self.lemma_places(x);
                    assert(step(x, -1) == parent);
                    assert(places.dom().contains(x));
                }
                return true;
            }
        }
        let ghost e = self.nodes.entries@;
        let ghost f = self.dead.entries@;
        let mut i: usize = 0;
        while i < self.nodes.entries.len()
            invariant
                self.wf(),
                places == self@.places,
                e == self.nodes.entries@,
                target == (Anchor { parent: Some(parent), side: Side::Right }),
                i <= e.len(),
                forall|j: int| 0 <= j < i ==> (#[trigger] e[j]).1.anchor != target,
            decreases e.len() - i,
        {
            if self.nodes.entries[i].1.anchor == target {
                proof {
                    lemma_entry::<SeqKey, Node>(e, i as int);
                    let x = e[i as int].0@;
                    self.lemma_places(x);
                    assert(places.dom().contains(x));
                }
                return true;
            }
            i += 1;
        }
        let mut k: usize = 0;
        while k < self.dead.entries.len()
            invariant
                self.wf(),
                places == self@.places,
                f == self.dead.entries@,
                target == (Anchor { parent: Some(parent), side: Side::Right }),
                k <= f.len(),
                forall|j: int| 0 <= j < k ==> (#[trigger] f[j]).1.anchor != target,
            decreases f.len() - k,
        {
            if self.dead.entries[k].1.anchor == target {
                proof {
                    lemma_entry::<SeqKey, DeadRun>(f, k as int);
                    let x = f[k as int].0@;
                    assert(self.dead@.dom().contains(x));
                    assert(spec_covers(x, self.dead@[x].len, x));
                    lemma_run_unique(self.dead@, x, x);
                    self.lemma_places(x);
                    assert(places.dom().contains(x));
                }
                return true;
            }
            k += 1;
        }
        proof {
            if has_right(places, parent) {
                let x = choose|x: Stamp| #[trigger]
                    places.dom().contains(x) && places[x] == target;
                self.lemma_places(x);
                if self.nodes@.dom().contains(x) {
                    let j = index_of::<SeqKey, Node>(e, x);
                    assert(e[j].0@ == x);
                    lemma_entry::<SeqKey, Node>(e, j);
                } else {
                    let h = run_of(self.dead@, x);
                    assert(self.dead@.dom().contains(h) && spec_covers(h, self.dead@[h].len, x));
                    if x == h {
                        let j = index_of::<SeqKey, DeadRun>(f, x);
                        assert(f[j].0@ == x);
                        lemma_entry::<SeqKey, DeadRun>(f, j);
                    } else {
                        assert(step(x, -1) == parent);
                        assert(spec_covers(h, self.dead@[h].len, parent));
                        lemma_run_unique(self.dead@, h, parent);
                    }
                }
            }
        }
        false
    }

    /// The placement for inserting at live `index`, computed without mutating.
    pub fn place(&self, index: usize) -> (a: Anchor)
        requires
            self.wf(),
        ensures
            a == list_place(self@, index as nat, None),
    {
        self.place_excluding(index, None)
    }

    /// The placement for live `index`, counting one existing node as absent: a node
    /// re-placed within its own list does not shift the target.
    pub fn place_excluding(&self, index: usize, exclude: Option<Stamp>) -> (a: Anchor)
        requires
            self.wf(),
        ensures
            a == list_place(self@, index as nat, exclude),
    {
        let spans = self.tree_order();
        let ghost l = self@;
        let ghost all = order(l.places);
        let mut left_to_pass: usize = index;
        let mut k: usize = 0;
        proof {
            assert(spans@.take(0) =~= Seq::empty());
            lemma_ids_from(spans@, 0);
            assert(ids_from(spans@, 0) =~= all);
        }
        while k < spans.len() && left_to_pass > 0
            invariant
                self.wf(),
                l == self@,
                all == order(l.places),
                all == spans_ids(spans@),
                k <= spans@.len(),
                forall|i: int|
                    0 <= i < spans@.len() ==> span_true(l, #[trigger] spans@[i]) && spans@[i].len
                        >= 1 && spans@[i].head.lamport + spans@[i].len - 1 <= u64::MAX,
                gap_at(l, all, index as nat, exclude) == spans_ids(spans@.take(k as int)).len()
                    + gap_at(l, ids_from(spans@, k as int), left_to_pass as nat, exclude),
            decreases spans@.len() - k,
        {
            let s = spans[k];
            proof {
                assert(span_true(l, spans@[k as int]));
                lemma_ids_from(spans@, k as int);
                lemma_spans_ids_split(spans@, k as int);
                assert(step(s.head, 0) == s.head);
                let rest = ids_from(spans@, k + 1);
                if s.live {
                    assert(s.ids() =~= seq![s.head]);
                    let here = ids_from(spans@, k as int);
                    assert(here[0] == s.head);
                    assert(here.skip(1) =~= rest);
                } else {
                    assert forall|i: int| 0 <= i < s.ids().len() implies !l.is_live(
                        #[trigger] s.ids()[i],
                    ) by {
                        assert(spec_covers(s.head, s.len, s.ids()[i]));
                    }
                    lemma_gap_skips(l, s.ids(), rest, left_to_pass as nat, exclude);
                }
            }
            if self.span_lives(&s) && exclude != Some(s.head) {
                left_to_pass -= 1;
            }
            k += 1;
        }
        proof {
            lemma_ids_from(spans@, k as int);
        }
        let ghost b = spans_ids(spans@.take(k as int)).len() as int;
        let left = if k > 0 {
            let s = spans[k - 1];
            proof {
                assert(span_true(l, spans@[k - 1]));
                lemma_spans_ids_split(spans@, k - 1);
                assert(all[b - 1] == s.ids()[s.len - 1]);
            }
            Some(s.last())
        } else {
            None
        };
        let right = if k < spans.len() {
            proof {
                assert(span_true(l, spans@[k as int]));
                let s = spans@[k as int];
                assert(step(s.head, 0) == s.head);
                assert(all[b] == s.ids()[0]);
            }
            Some(spans[k].head)
        } else {
            None
        };
        proof {
            assert(gap_at(l, all, index as nat, exclude) == b);
        }
        match (left, right) {
            (Some(x), Some(r)) => {
                if self.has_right_child(x) {
                    Anchor { parent: Some(r), side: Side::Left }
                } else {
                    Anchor { parent: Some(x), side: Side::Right }
                }
            },
            (Some(x), None) => Anchor { parent: Some(x), side: Side::Right },
            (None, Some(r)) => Anchor { parent: Some(r), side: Side::Left },
            (None, None) => Anchor { parent: None, side: Side::Right },
        }
    }

    /// Insert `value` at live `index`, identified by `stamp`. A stamp already seen is a
    /// replay and leaves the sequence untouched.
    pub fn insert(&mut self, index: usize, value: Element, stamp: Stamp)
        requires
            old(self).wf(),
        ensures
            final(self).wf(),
            final(self)@ == list_insert(
                old(self)@,
                stamp,
                value@,
                list_place(old(self)@, index as nat, None),
            ),
    {
        if self.contains(stamp) {
            return;
        }
        let anchor = self.place(index);
        self.insert_at(stamp, value, anchor);
    }

    /// Delete the live item at `index`.
    pub fn delete(&mut self, index: usize)
        requires
            old(self).wf(),
        ensures
            final(self).wf(),
            final(self)@ == if index < list_live(old(self)@).len() {
                list_delete(old(self)@, list_live(old(self)@)[index as int])
            } else {
                old(self)@
            },
    {
        if let Some(id) = self.node_at(index) {
            self.delete_id(id);
        }
    }

    /// The number of live items strictly before `id` in sequence order, and whether `id`
    /// itself is live; `None` if `id` is not in the sequence.
    fn live_rank(&self, id: Stamp) -> (r: Option<(usize, bool)>)
        requires
            self.wf(),
        ensures
            match rank_in(self@, order(self@.places), id) {
                Some((n, b)) => r matches Some((m, c)) && m == n && c == b,
                None => r is None,
            },
            r matches Some((m, _)) ==> m < usize::MAX,
    {
        let spans = self.tree_order();
        let ghost l = self@;
        let ghost all = order(l.places);
        let mut before: usize = 0;
        let mut k: usize = 0;
        proof {
            assert(spans@.take(0) =~= Seq::empty());
            lemma_ids_from(spans@, 0);
            assert(ids_from(spans@, 0) =~= all);
        }
        while k < spans.len()
            invariant
                self.wf(),
                l == self@,
                all == order(l.places),
                all == spans_ids(spans@),
                k <= spans@.len(),
                before <= k,
                forall|i: int|
                    0 <= i < spans@.len() ==> span_true(l, #[trigger] spans@[i]) && spans@[i].len
                        >= 1 && spans@[i].head.lamport + spans@[i].len - 1 <= u64::MAX,
                match rank_in(l, ids_from(spans@, k as int), id) {
                    Some((n, b)) => rank_in(l, all, id) == Some(((before + n) as nat, b)),
                    None => rank_in(l, all, id) is None,
                },
            decreases spans@.len() - k,
        {
            let s = spans[k];
            proof {
                assert(span_true(l, spans@[k as int]));
                lemma_ids_from(spans@, k as int);
                assert(step(s.head, 0) == s.head);
                let rest = ids_from(spans@, k + 1);
                let here = ids_from(spans@, k as int);
                if s.live {
                    assert(s.ids() =~= seq![s.head]);
                    assert(here[0] == s.head);
                    assert(here.skip(1) =~= rest);
                } else {
                    lemma_rank_dead(l, s, rest, id);
                }
            }
            if s.live {
                let lives = self.span_lives(&s);
                if s.head == id {
                    return Some((before, lives));
                }
                if lives {
                    before += 1;
                }
            } else if s.head.client == id.client && s.head.offset == id.offset && s.head.lamport
                <= id.lamport && id.lamport - s.head.lamport < s.len {
                return Some((before, false));
            }
            k += 1;
        }
        proof {
            lemma_ids_from(spans@, k as int);
        }
        None
    }

    /// The current live index of a position, or `None` when it is bound to an item absent
    /// from the sequence.
    pub fn resolve_position_present(&self, pos: &RelativePosition) -> (r: Option<usize>)
        requires
            self.wf(),
        ensures
            match resolved(self@, *pos) {
                Some(n) => r matches Some(m) && m == n,
                None => r is None,
            },
    {
        match pos {
            RelativePosition::Start => Some(0),
            RelativePosition::End => Some(self.len()),
            RelativePosition::Before(id) => match self.live_rank(*id) {
                Some((n, _)) => Some(n),
                None => None,
            },
            RelativePosition::After(id) => match self.live_rank(*id) {
                Some((n, live)) => if live {
                    Some(n + 1)
                } else {
                    Some(n)
                },
                None => None,
            },
        }
    }

    /// The current live index of a position. A live binding resolves to its item's edge; a
    /// deleted one to the nearest live neighbour on the gravity side; the boundaries to
    /// `0` and the length.
    pub fn resolve_position(&self, pos: &RelativePosition) -> (n: usize)
        requires
            self.wf(),
        ensures
            n == resolved_or_edge(self@, *pos),
    {
        match self.resolve_position_present(pos) {
            Some(n) => n,
            None => match pos {
                RelativePosition::Before(_) => self.len(),
                _ => 0,
            },
        }
    }

    /// Capture a stable position at `index`, clamped to the length, with the given
    /// gravity: `Left` binds to the right edge of the item before the gap, `Right` to the
    /// left edge of the item at it.
    pub fn relative_position(&self, index: usize, side: Side) -> (pos: RelativePosition)
        requires
            self.wf(),
        ensures
            pos == position_at(self@, index as nat, side),
    {
        let n: usize = self.len();
        let i: usize = if index <= n {
            index
        } else {
            n
        };
        match side {
            Side::Left => {
                if i == 0 {
                    return RelativePosition::Start;
                }
                match self.node_at(i - 1) {
                    Some(id) => RelativePosition::After(id),
                    None => RelativePosition::Start,
                }
            },
            Side::Right => match self.node_at(i) {
                Some(id) => RelativePosition::Before(id),
                None => RelativePosition::End,
            },
        }
    }
}

/// A deleted span is passed over, or has the id looked for at no live distance.
proof fn lemma_rank_dead(l: ListV, s: Span, rest: Seq<Stamp>, id: Stamp)
    requires
        span_true(l, s),
        !s.live,
        s.len >= 1,
        s.head.lamport + s.len - 1 <= u64::MAX,
    ensures
        rank_in(l, s.ids() + rest, id) == if spec_covers(s.head, s.len, id) {
            Some((0nat, false))
        } else {
            rank_in(l, rest, id)
        },
{
    assert forall|i: int| 0 <= i < s.ids().len() implies !l.is_live(#[trigger] s.ids()[i]) by {
        assert(spec_covers(s.head, s.len, s.ids()[i]));
    }
    if spec_covers(s.head, s.len, id) {
        let at = id.lamport - s.head.lamport;
        assert(s.ids()[at] == id);
        lemma_rank_found(l, s.ids() + rest, id, at);
    } else {
        assert forall|i: int| 0 <= i < s.ids().len() implies !l.is_live(#[trigger] s.ids()[i])
            && s.ids()[i] != id by {
            assert(spec_covers(s.head, s.len, s.ids()[i]));
        }
        lemma_rank_skips(l, s.ids(), rest, id);
    }
}

/// An id found before any live one has rank nought.
proof fn lemma_rank_found(l: ListV, s: Seq<Stamp>, id: Stamp, at: int)
    requires
        0 <= at < s.len(),
        s[at] == id,
        forall|i: int| 0 <= i <= at ==> !l.is_live(#[trigger] s[i]),
    ensures
        rank_in(l, s, id) == Some((0nat, false)),
    decreases at,
{
    assert(!l.is_live(s[0]));
    if s[0] != id {
        let t = s.skip(1);
        assert(t[at - 1] == id);
        assert forall|i: int| 0 <= i <= at - 1 implies !l.is_live(#[trigger] t[i]) by {
            assert(t[i] == s[i + 1]);
        }
        lemma_rank_found(l, t, id, at - 1);
    }
}

/// The nodes among entries that render.
spec fn live_among(e: Seq<(SeqKey, Node)>) -> Set<Stamp> {
    Set::new(
        |id: Stamp|
            exists|j: int| 0 <= j < e.len() && (#[trigger] e[j]).0@ == id && !e[j].1.moved_away,
    )
}

proof fn lemma_live_among_step(e: Seq<(SeqKey, Node)>, i: int)
    requires
        sorted(e),
        0 <= i < e.len(),
    ensures
        live_among(e.take(i + 1)) == if e[i].1.moved_away {
            live_among(e.take(i))
        } else {
            live_among(e.take(i)).insert(e[i].0@)
        },
        !live_among(e.take(i)).contains(e[i].0@),
{
    let a = e.take(i);
    let b = e.take(i + 1);
    lemma_take::<SeqKey, Node>(e, i);
    if live_among(a).contains(e[i].0@) {
        let j = choose|j: int|
            0 <= j < a.len() && (#[trigger] a[j]).0@ == e[i].0@ && !a[j].1.moved_away;
        lemma_entry::<SeqKey, Node>(a, j);
    }
    assert forall|id: Stamp| live_among(b).contains(id) <==> (live_among(a).contains(id) || (
    !e[i].1.moved_away && id == e[i].0@)) by {
        if live_among(b).contains(id) {
            let j = choose|j: int|
                0 <= j < b.len() && (#[trigger] b[j]).0@ == id && !b[j].1.moved_away;
            if j < i {
                assert(a[j] == b[j]);
            }
        }
        if live_among(a).contains(id) {
            let j = choose|j: int|
                0 <= j < a.len() && (#[trigger] a[j]).0@ == id && !a[j].1.moved_away;
            assert(b[j] == a[j]);
        }
        if !e[i].1.moved_away && id == e[i].0@ {
            assert(b[i].0@ == id);
        }
    }
    assert(live_among(b) =~= if e[i].1.moved_away {
        live_among(a)
    } else {
        live_among(a).insert(e[i].0@)
    });
}

/// A live id is one that holds a value.
pub proof fn lemma_live_in_items(l: ListV, s: Seq<Stamp>, i: int)
    requires
        0 <= i < live_ids(l, s).len(),
    ensures
        l.is_live(live_ids(l, s)[i]),
        s.contains(live_ids(l, s)[i]),
    decreases s.len(),
{
    if s.len() > 0 {
        let t = s.drop_last();
        if i < live_ids(l, t).len() {
            lemma_live_in_items(l, t, i);
            let j = t.index_of(live_ids(l, t)[i]);
            assert(s[j] == t[j]);
        } else {
            assert(s[s.len() - 1] == s.last());
        }
    }
}

} // verus!
