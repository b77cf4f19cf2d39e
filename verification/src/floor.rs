//! How high each client's stamps reach, read off what a replica visibly holds.
//!
//! A snapshot declares the figure, and whoever hands it over may declare too little, so
//! every id the snapshot holds is a floor under it: sequence ids, deleted ones too, slot
//! stamps and the creates slots retain, register and annotation stamps, moves and
//! placements. A stamp that only refers to an id is none.

use crate::annot::{Payload, PayloadV, Places, RangedEntry};
use crate::clientid::ClientId;
use crate::element::{Element, ElementV};
use crate::elementid::ElementId;
use crate::list::{run_of, spec_covers, DeadRun, List, ListV, Node, SeqKey};
use crate::map::{LwwMap, Slot, SlotV};
use crate::stamp::Stamp;
use crate::table::{index_of, lemma_entry, Key, Table};
use crate::text::Text;
use crate::tree::{Tree, TreeV};
use crate::treemove::MoveEdge;
use vstd::prelude::*;

verus! {

/// Whether a slot holds a stamp: its own, that of the create it retains, or its
/// register's.
pub open spec fn slot_holds(s: SlotV, x: Stamp) -> bool {
    s.stamp == x || (s.container matches Some(c) && c.stamp == x) || (
    s.value matches Some(ElementV::Register(r)) && r.stamp == x)
}

impl TreeV {
    /// Whether some sequence has an id.
    pub open spec fn sequence_holds(seqs: Map<ElementId, ListV>, x: Stamp) -> bool {
        exists|l: ElementId| #[trigger] seqs.dom().contains(l) && seqs[l].places.dom().contains(x)
    }

    /// Whether a stamp is that of something the state holds.
    pub open spec fn holds_stamp(self, x: Stamp) -> bool {
        Self::sequence_holds(self.lists, x) || Self::sequence_holds(self.texts, x) || (exists|
            m: ElementId,
            k: Seq<u8>,
        |
            self.maps.dom().contains(m) && #[trigger] self.maps[m].slots.dom().contains(k)
                && slot_holds(self.maps[m].slots[k], x)) || (exists|r: ElementId| #[trigger]
            self.ranged.dom().contains(r) && (self.ranged[r].payload matches PayloadV::Scalar {
                stamp,
                ..
            } && stamp == x)) || (exists|n: ElementId, i: int|
            self.placements.dom().contains(n) && 0 <= i < self.placements[n].len() && (
            #[trigger] self.placements[n][i]).stamp == x)
    }

    /// Whether a stamp is that of something held or of a move in a log.
    pub open spec fn carries(self, log: Seq<(Stamp, MoveEdge)>, x: Stamp) -> bool {
        self.holds_stamp(x) || in_log(log, x)
    }

    /// Whether something held, or a move in a log, is stamped `n` by `c`. A zero says
    /// nothing.
    pub open spec fn noted(self, log: Seq<(Stamp, MoveEdge)>, c: ClientId, n: u64) -> bool {
        n > 0 && exists|x: Stamp|
            x.client == c && x.lamport == n && #[trigger] self.carries(log, x)
    }

    /// Whether `after` is `before` raised to clear everything held, and no further.
    pub open spec fn floored(
        self,
        log: Seq<(Stamp, MoveEdge)>,
        before: Map<ClientId, u64>,
        after: Map<ClientId, u64>,
    ) -> bool {
        &&& forall|c: ClientId| #[trigger]
            before.dom().contains(c) ==> after.dom().contains(c) && after[c] >= before[c]
        &&& forall|c: ClientId, n: u64| #[trigger]
            self.noted(log, c, n) ==> after.dom().contains(c) && after[c] >= n
        &&& forall|c: ClientId| #[trigger]
            after.dom().contains(c) ==> (before.dom().contains(c) && after[c] == before[c])
                || self.noted(log, c, after[c])
    }

    /// With every client's figure raised to clear everything held.
    pub open spec fn with_floor(self, log: Seq<(Stamp, MoveEdge)>) -> TreeV {
        TreeV {
            high_water: choose|hw: Map<ClientId, u64>| #[trigger]
                self.floored(log, self.high_water, hw),
            ..self
        }
    }
}

/// Whether a log has a move with this stamp.
pub open spec fn in_log(log: Seq<(Stamp, MoveEdge)>, x: Stamp) -> bool {
    exists|i: int| 0 <= i < log.len() && (#[trigger] log[i]).0 == x
}

/// There is one way to raise the figures.
pub proof fn lemma_floored_unique(
    t: TreeV,
    log: Seq<(Stamp, MoveEdge)>,
    before: Map<ClientId, u64>,
    a: Map<ClientId, u64>,
    b: Map<ClientId, u64>,
)
    requires
        t.floored(log, before, a),
        t.floored(log, before, b),
    ensures
        a == b,
{
    assert forall|c: ClientId| a.dom().contains(c) implies b.dom().contains(c) && b[c] >= a[c] by {
        if !(before.dom().contains(c) && a[c] == before[c]) {
            assert(t.noted(log, c, a[c]));
        }
    }
    assert forall|c: ClientId| b.dom().contains(c) implies a.dom().contains(c) && a[c] >= b[c] by {
        if !(before.dom().contains(c) && b[c] == before[c]) {
            assert(t.noted(log, c, b[c]));
        }
    }
    assert(a =~= b);
}

// --- noting ---

/// Whether figures only grew.
spec fn grows(a: Map<ClientId, u64>, b: Map<ClientId, u64>) -> bool {
    forall|c: ClientId| #[trigger] a.dom().contains(c) ==> b.dom().contains(c) && b[c] >= a[c]
}

/// Whether every figure is one that was there or one that is held.
spec fn earned(
    t: TreeV,
    log: Seq<(Stamp, MoveEdge)>,
    before: Map<ClientId, u64>,
    hw: Map<ClientId, u64>,
) -> bool {
    &&& grows(before, hw)
    &&& forall|c: ClientId| #[trigger]
        hw.dom().contains(c) ==> (before.dom().contains(c) && hw[c] == before[c]) || t.noted(
            log,
            c,
            hw[c],
        )
}

/// Whether the figures clear a stamp.
spec fn clears(hw: Map<ClientId, u64>, x: Stamp) -> bool {
    x.lamport > 0 ==> hw.dom().contains(x.client) && hw[x.client] >= x.lamport
}

proof fn lemma_clears_grow(a: Map<ClientId, u64>, b: Map<ClientId, u64>, x: Stamp)
    requires
        grows(a, b),
        clears(a, x),
    ensures
        clears(b, x),
{
}

/// Raise the figure of a stamp's client to clear it.
fn note(
    hw: &mut Table<ClientId, u64>,
    x: Stamp,
    Ghost(t): Ghost<TreeV>,
    Ghost(log): Ghost<Seq<(Stamp, MoveEdge)>>,
    Ghost(before): Ghost<Map<ClientId, u64>>,
)
    requires
        old(hw).wf(),
        earned(t, log, before, old(hw)@),
        t.holds_stamp(x) || in_log(log, x),
    ensures
        final(hw).wf(),
        earned(t, log, before, final(hw)@),
        grows(old(hw)@, final(hw)@),
        clears(final(hw)@, x),
{
    if x.lamport == 0 {
        return;
    }
    let raise = match hw.get(&x.client) {
        Some(n) => *n < x.lamport,
        None => true,
    };
    if raise {
        hw.insert(x.client, x.lamport);
        proof {
            assert(t.carries(log, x));
            assert(t.noted(log, x.client, x.lamport));
        }
    }
}

/// Raise the figures to clear a sequence's ids.
fn note_list(
    hw: &mut Table<ClientId, u64>,
    l: &List,
    Ghost(t): Ghost<TreeV>,
    Ghost(log): Ghost<Seq<(Stamp, MoveEdge)>>,
    Ghost(before): Ghost<Map<ClientId, u64>>,
)
    requires
        l.wf(),
        old(hw).wf(),
        earned(t, log, before, old(hw)@),
        forall|x: Stamp| #[trigger] l@.places.dom().contains(x) ==> t.holds_stamp(x),
    ensures
        final(hw).wf(),
        earned(t, log, before, final(hw)@),
        grows(old(hw)@, final(hw)@),
        forall|x: Stamp| #[trigger] l@.places.dom().contains(x) ==> clears(final(hw)@, x),
{
    let ghost ne = l.nodes.entries@;
    let mut i: usize = 0;
    while i < l.nodes.entries.len()
        invariant
            l.wf(),
            ne == l.nodes.entries@,
            i <= ne.len(),
            hw.wf(),
            earned(t, log, before, hw@),
            grows(old(hw)@, hw@),
            forall|x: Stamp| #[trigger] l@.places.dom().contains(x) ==> t.holds_stamp(x),
            forall|j: int| 0 <= j < i ==> clears(hw@, (#[trigger] ne[j]).0@),
        decreases ne.len() - i,
    {
        proof {
            lemma_entry::<SeqKey, Node>(ne, i as int);
            l.lemma_places(ne[i as int].0@);
            assert(l@.places.dom().contains(ne[i as int].0@));
        }
        note(hw, l.nodes.entries[i].0.id, Ghost(t), Ghost(log), Ghost(before));
        i += 1;
    }
    let ghost mid = hw@;
    let ghost de = l.dead.entries@;
    let mut k: usize = 0;
    while k < l.dead.entries.len()
        invariant
            l.wf(),
            de == l.dead.entries@,
            k <= de.len(),
            hw.wf(),
            earned(t, log, before, hw@),
            grows(old(hw)@, hw@),
            grows(mid, hw@),
            forall|x: Stamp| #[trigger] l@.places.dom().contains(x) ==> t.holds_stamp(x),
            forall|j: int|
                0 <= j < k ==> clears(
                    hw@,
                    crate::list::step((#[trigger] de[j]).0@, de[j].1.len - 1),
                ),
        decreases de.len() - k,
    {
        let head = l.dead.entries[k].0.id;
        let run = l.dead.entries[k].1;
        proof {
            lemma_entry::<SeqKey, DeadRun>(de, k as int);
            let last = crate::list::step(head, run.len - 1);
            assert(l.dead@.dom().contains(head));
            assert(spec_covers(head, run.len, last));
            crate::list::lemma_run_unique(l.dead@, head, last);
            l.lemma_places(last);
            assert(l@.places.dom().contains(last));
        }
        let last = Stamp {
            lamport: head.lamport + (run.len - 1),
            client: head.client,
            offset: head.offset,
        };
        note(hw, last, Ghost(t), Ghost(log), Ghost(before));
        k += 1;
    }
    proof {
        assert forall|x: Stamp| #[trigger] l@.places.dom().contains(x) implies clears(hw@, x) by {
            l.lemma_places(x);
            if l.nodes@.dom().contains(x) {
                let j = index_of::<SeqKey, Node>(ne, x);
                assert(ne[j].0@ == x);
                lemma_clears_grow(mid, hw@, x);
            } else {
                let h = run_of(l.dead@, x);
                assert(l.dead@.dom().contains(h) && spec_covers(h, l.dead@[h].len, x));
                let j = index_of::<SeqKey, DeadRun>(de, h);
                assert(de[j].0@ == h);
                lemma_entry::<SeqKey, DeadRun>(de, j);
                assert(clears(hw@, crate::list::step(de[j].0@, de[j].1.len - 1)));
            }
        }
    }
}

/// Raise the figures to clear a slot's stamps.
fn note_slot(
    hw: &mut Table<ClientId, u64>,
    s: &Slot,
    Ghost(t): Ghost<TreeV>,
    Ghost(log): Ghost<Seq<(Stamp, MoveEdge)>>,
    Ghost(before): Ghost<Map<ClientId, u64>>,
)
    requires
        old(hw).wf(),
        earned(t, log, before, old(hw)@),
        forall|x: Stamp| #[trigger] slot_holds(s@, x) ==> t.holds_stamp(x),
    ensures
        final(hw).wf(),
        earned(t, log, before, final(hw)@),
        grows(old(hw)@, final(hw)@),
        forall|x: Stamp| #[trigger] slot_holds(s@, x) ==> clears(final(hw)@, x),
{
    proof {
        assert(slot_holds(s@, s.stamp));
    }
    note(hw, s.stamp, Ghost(t), Ghost(log), Ghost(before));
    if let Some(c) = s.container {
        proof {
            assert(slot_holds(s@, c.stamp));
        }
        note(hw, c.stamp, Ghost(t), Ghost(log), Ghost(before));
    }
    if let Some(Element::Register(r)) = &s.value {
        proof {
            assert(slot_holds(s@, r.stamp));
        }
        note(hw, r.stamp, Ghost(t), Ghost(log), Ghost(before));
    }
}

impl Tree {
    fn note_lists(
        &self,
        hw: &mut Table<ClientId, u64>,
        Ghost(log): Ghost<Seq<(Stamp, MoveEdge)>>,
        Ghost(before): Ghost<Map<ClientId, u64>>,
    )
        requires
            self.sound(),
            old(hw).wf(),
            earned(self@, log, before, old(hw)@),
        ensures
            final(hw).wf(),
            earned(self@, log, before, final(hw)@),
            grows(old(hw)@, final(hw)@),
            forall|x: Stamp| #[trigger]
                TreeV::sequence_holds(self@.lists, x) ==> clears(final(hw)@, x),
    {
        let ghost e = self.lists.table.entries@;
        let mut i: usize = 0;
        while i < self.lists.table.entries.len()
            invariant
                self.sound(),
                e == self.lists.table.entries@,
                i <= e.len(),
                hw.wf(),
                earned(self@, log, before, hw@),
                grows(old(hw)@, hw@),
                forall|j: int, x: Stamp|
                    0 <= j < i && #[trigger] e[j].1@.places.dom().contains(x) ==> clears(hw@, x),
            decreases e.len() - i,
        {
            let ghost mid = hw@;
            proof {
                self.lists.lemma_at(i as int);
                assert forall|x: Stamp| #[trigger] e[i as int].1@.places.dom().contains(x)
                    implies self@.holds_stamp(
                    x,
                ) by {
                    assert(self@.lists.dom().contains(e[i as int].0));
                    assert(TreeV::sequence_holds(self@.lists, x));
                }
            }
            note_list(
                hw,
                &self.lists.table.entries[i].1,
                Ghost(self@),
                Ghost(log),
                Ghost(before),
            );
            proof {
                assert forall|j: int, x: Stamp|
                    0 <= j < i + 1 && #[trigger] e[j].1@.places.dom().contains(x) implies clears(
                    hw@,
                    x,
                ) by {
                    if j < i {
                        lemma_clears_grow(mid, hw@, x);
                    }
                }
            }
            i += 1;
        }
        proof {
            assert forall|x: Stamp| #[trigger] TreeV::sequence_holds(self@.lists, x) implies clears(
                hw@,
                x,
            ) by {
                let l = choose|l: ElementId| #[trigger]
                    self@.lists.dom().contains(l) && self@.lists[l].places.dom().contains(x);
                let j = index_of::<ElementId, List>(e, l);
                assert(e[j].0@ == l);
                self.lists.lemma_at(j);
                assert(e[j].1@.places.dom().contains(x));
            }
        }
    }

    fn note_texts(
        &self,
        hw: &mut Table<ClientId, u64>,
        Ghost(log): Ghost<Seq<(Stamp, MoveEdge)>>,
        Ghost(before): Ghost<Map<ClientId, u64>>,
    )
        requires
            self.sound(),
            old(hw).wf(),
            earned(self@, log, before, old(hw)@),
        ensures
            final(hw).wf(),
            earned(self@, log, before, final(hw)@),
            grows(old(hw)@, final(hw)@),
            forall|x: Stamp| #[trigger]
                TreeV::sequence_holds(self@.texts, x) ==> clears(final(hw)@, x),
    {
        let ghost e = self.texts.table.entries@;
        let mut i: usize = 0;
        while i < self.texts.table.entries.len()
            invariant
                self.sound(),
                e == self.texts.table.entries@,
                i <= e.len(),
                hw.wf(),
                earned(self@, log, before, hw@),
                grows(old(hw)@, hw@),
                forall|j: int, x: Stamp|
                    0 <= j < i && #[trigger] e[j].1@.places.dom().contains(x) ==> clears(hw@, x),
            decreases e.len() - i,
        {
            let ghost mid = hw@;
            proof {
                self.texts.lemma_at(i as int);
                assert forall|x: Stamp| #[trigger] e[i as int].1@.places.dom().contains(x)
                    implies self@.holds_stamp(
                    x,
                ) by {
                    assert(self@.texts.dom().contains(e[i as int].0));
                    assert(TreeV::sequence_holds(self@.texts, x));
                }
            }
            note_list(
                hw,
                &self.texts.table.entries[i].1.seq,
                Ghost(self@),
                Ghost(log),
                Ghost(before),
            );
            proof {
                assert forall|j: int, x: Stamp|
                    0 <= j < i + 1 && #[trigger] e[j].1@.places.dom().contains(x) implies clears(
                    hw@,
                    x,
                ) by {
                    if j < i {
                        lemma_clears_grow(mid, hw@, x);
                    }
                }
            }
            i += 1;
        }
        proof {
            assert forall|x: Stamp| #[trigger] TreeV::sequence_holds(self@.texts, x) implies clears(
                hw@,
                x,
            ) by {
                let l = choose|l: ElementId| #[trigger]
                    self@.texts.dom().contains(l) && self@.texts[l].places.dom().contains(x);
                let j = index_of::<ElementId, Text>(e, l);
                assert(e[j].0@ == l);
                self.texts.lemma_at(j);
                assert(e[j].1@.places.dom().contains(x));
            }
        }
    }

    fn note_maps(
        &self,
        hw: &mut Table<ClientId, u64>,
        Ghost(log): Ghost<Seq<(Stamp, MoveEdge)>>,
        Ghost(before): Ghost<Map<ClientId, u64>>,
    )
        requires
            self.sound(),
            old(hw).wf(),
            earned(self@, log, before, old(hw)@),
        ensures
            final(hw).wf(),
            earned(self@, log, before, final(hw)@),
            grows(old(hw)@, final(hw)@),
            forall|m: ElementId, k: Seq<u8>, x: Stamp|
                self@.maps.dom().contains(m) && self@.maps[m].slots.dom().contains(k)
                    && #[trigger] slot_holds(self@.maps[m].slots[k], x) ==> clears(final(hw)@, x),
    {
        let ghost e = self.maps.table.entries@;
        let mut i: usize = 0;
        while i < self.maps.table.entries.len()
            invariant
                self.sound(),
                e == self.maps.table.entries@,
                i <= e.len(),
                hw.wf(),
                earned(self@, log, before, hw@),
                grows(old(hw)@, hw@),
                forall|j: int, k: Seq<u8>, x: Stamp|
                    0 <= j < i && e[j].1@.slots.dom().contains(k) && #[trigger] slot_holds(
                        e[j].1@.slots[k],
                        x,
                    ) ==> clears(hw@, x),
            decreases e.len() - i,
        {
            let ghost outer = hw@;
            proof {
                self.maps.lemma_at(i as int);
            }
            let m = &self.maps.table.entries[i].1;
            let ghost mid = e[i as int].0;
            let ghost se = m.slots.entries@;
            let mut n: usize = 0;
            while n < m.slots.entries.len()
                invariant
                    self.sound(),
                    m.wf(),
                    se == m.slots.entries@,
                    n <= se.len(),
                    self@.maps.dom().contains(mid),
                    self@.maps[mid] == m@,
                    hw.wf(),
                    earned(self@, log, before, hw@),
                    grows(old(hw)@, hw@),
                    grows(outer, hw@),
                    forall|j: int, x: Stamp|
                        0 <= j < n && #[trigger] slot_holds(se[j].1@, x) ==> clears(hw@, x),
                decreases se.len() - n,
            {
                let ghost inner = hw@;
                proof {
                    lemma_entry::<Vec<u8>, Slot>(se, n as int);
                    assert forall|x: Stamp| #[trigger] slot_holds(se[n as int].1@, x)
                        implies self@.holds_stamp(
                        x,
                    ) by {
                        assert(self@.maps[mid].slots.dom().contains(se[n as int].0@));
                    }
                }
                note_slot(hw, &m.slots.entries[n].1, Ghost(self@), Ghost(log), Ghost(before));
                proof {
                    assert forall|j: int, x: Stamp|
                        0 <= j < n + 1 && #[trigger] slot_holds(se[j].1@, x) implies clears(
                        hw@,
                        x,
                    ) by {
                        if j < n {
                            lemma_clears_grow(inner, hw@, x);
                        }
                    }
                }
                n += 1;
            }
            proof {
                assert forall|j: int, k: Seq<u8>, x: Stamp|
                    0 <= j < i + 1 && e[j].1@.slots.dom().contains(k) && #[trigger] slot_holds(
                        e[j].1@.slots[k],
                        x,
                    ) implies clears(hw@, x) by {
                    if j < i {
                        lemma_clears_grow(outer, hw@, x);
                    } else {
                        let q = index_of::<Vec<u8>, Slot>(se, k);
                        assert(se[q].0@ == k);
                        lemma_entry::<Vec<u8>, Slot>(se, q);
                        assert(slot_holds(se[q].1@, x));
                    }
                }
            }
            i += 1;
        }
        proof {
            assert forall|m: ElementId, k: Seq<u8>, x: Stamp|
                self@.maps.dom().contains(m) && self@.maps[m].slots.dom().contains(k)
                    && #[trigger] slot_holds(self@.maps[m].slots[k], x) implies clears(hw@, x) by {
                let j = index_of::<ElementId, LwwMap>(e, m);
                assert(e[j].0@ == m);
                self.maps.lemma_at(j);
                assert(slot_holds(e[j].1@.slots[k], x));
            }
        }
    }

    fn note_ranged(
        &self,
        hw: &mut Table<ClientId, u64>,
        Ghost(log): Ghost<Seq<(Stamp, MoveEdge)>>,
        Ghost(before): Ghost<Map<ClientId, u64>>,
    )
        requires
            self.sound(),
            old(hw).wf(),
            earned(self@, log, before, old(hw)@),
        ensures
            final(hw).wf(),
            earned(self@, log, before, final(hw)@),
            grows(old(hw)@, final(hw)@),
            forall|r: ElementId| #[trigger]
                self@.ranged.dom().contains(r) ==> (
                self@.ranged[r].payload matches PayloadV::Scalar { stamp, .. } ==> clears(
                    final(hw)@,
                    stamp,
                )),
    {
        let ghost e = self.ranged.table.entries@;
        let mut i: usize = 0;
        while i < self.ranged.table.entries.len()
            invariant
                self.sound(),
                e == self.ranged.table.entries@,
                i <= e.len(),
                hw.wf(),
                earned(self@, log, before, hw@),
                grows(old(hw)@, hw@),
                forall|j: int|
                    0 <= j < i ==> ((#[trigger] e[j]).1@.payload matches PayloadV::Scalar {
                        stamp,
                        ..
                    } ==> clears(hw@, stamp)),
            decreases e.len() - i,
        {
            proof {
                self.ranged.lemma_at(i as int);
            }
            if let Payload::Scalar { stamp, .. } = &self.ranged.table.entries[i].1.payload {
                proof {
                    assert(self@.ranged.dom().contains(e[i as int].0));
                    assert(self@.holds_stamp(*stamp));
                }
                note(hw, *stamp, Ghost(self@), Ghost(log), Ghost(before));
            }
            i += 1;
        }
        proof {
            assert forall|r: ElementId| #[trigger] self@.ranged.dom().contains(r) implies (
            self@.ranged[r].payload matches PayloadV::Scalar { stamp, .. } ==> clears(hw@, stamp)) by {
                let j = index_of::<ElementId, RangedEntry>(e, r);
                assert(e[j].0@ == r);
                self.ranged.lemma_at(j);
            }
        }
    }

    fn note_placements(
        &self,
        hw: &mut Table<ClientId, u64>,
        Ghost(log): Ghost<Seq<(Stamp, MoveEdge)>>,
        Ghost(before): Ghost<Map<ClientId, u64>>,
    )
        requires
            self.sound(),
            old(hw).wf(),
            earned(self@, log, before, old(hw)@),
        ensures
            final(hw).wf(),
            earned(self@, log, before, final(hw)@),
            grows(old(hw)@, final(hw)@),
            forall|n: ElementId, i: int|
                self@.placements.dom().contains(n) && 0 <= i < self@.placements[n].len() ==> clears(
                    final(hw)@,
                    (#[trigger] self@.placements[n][i]).stamp,
                ),
    {
        let ghost e = self.placements.table.entries@;
        let mut i: usize = 0;
        while i < self.placements.table.entries.len()
            invariant
                self.sound(),
                e == self.placements.table.entries@,
                i <= e.len(),
                hw.wf(),
                earned(self@, log, before, hw@),
                grows(old(hw)@, hw@),
                forall|j: int, k: int|
                    0 <= j < i && 0 <= k < e[j].1@.len() ==> clears(
                        hw@,
                        (#[trigger] e[j].1@[k]).stamp,
                    ),
            decreases e.len() - i,
        {
            let ghost outer = hw@;
            proof {
                self.placements.lemma_at(i as int);
            }
            let places = &self.placements.table.entries[i].1;
            let ghost node = e[i as int].0;
            let mut n: usize = 0;
            while n < places.at.len()
                invariant
                    self.sound(),
                    n <= places@.len(),
                    self@.placements.dom().contains(node),
                    self@.placements[node] == places@,
                    hw.wf(),
                    earned(self@, log, before, hw@),
                    grows(old(hw)@, hw@),
                    grows(outer, hw@),
                    forall|k: int| 0 <= k < n ==> clears(hw@, (#[trigger] places@[k]).stamp),
                decreases places@.len() - n,
            {
                proof {
                    assert(self@.placements[node][n as int].stamp == places@[n as int].stamp);
                    assert(self@.holds_stamp(places@[n as int].stamp));
                }
                note(hw, places.at[n].stamp, Ghost(self@), Ghost(log), Ghost(before));
                n += 1;
            }
            proof {
                assert forall|j: int, k: int|
                    0 <= j < i + 1 && 0 <= k < e[j].1@.len() implies clears(
                    hw@,
                    (#[trigger] e[j].1@[k]).stamp,
                ) by {
                    if j < i {
                        lemma_clears_grow(outer, hw@, e[j].1@[k].stamp);
                    }
                }
            }
            i += 1;
        }
        proof {
            assert forall|n: ElementId, i: int|
                self@.placements.dom().contains(n) && 0 <= i
                    < self@.placements[n].len() implies clears(
                hw@,
                (#[trigger] self@.placements[n][i]).stamp,
            ) by {
                let j = index_of::<ElementId, Places>(e, n);
                assert(e[j].0@ == n);
                self.placements.lemma_at(j);
                assert(clears(hw@, e[j].1@[i].stamp));
            }
        }
    }

    /// Raise every client's figure to clear everything held.
    pub(crate) fn raise_floor(&mut self, log: &Vec<(Stamp, MoveEdge)>)
        requires
            old(self).wf(),
        ensures
            final(self).wf(),
            final(self)@ == old(self)@.with_floor(log@),
    {
        let ghost t = self@;
        let ghost before = self.high_water@;
        let mut hw: Table<ClientId, u64> = Table::new();
        std::mem::swap(&mut hw, &mut self.high_water);
        // The state the stamps are read from does not include the figures themselves.
        proof {
            assert(self@ =~= (TreeV { high_water: Map::empty(), ..t }));
            lemma_noted_same(t, self@, log@);
        }
        let ghost bare = self@;
        proof {
            assert(earned(bare, log@, before, hw@));
        }
        self.note_lists(&mut hw, Ghost(log@), Ghost(before));
        let ghost h1 = hw@;
        self.note_texts(&mut hw, Ghost(log@), Ghost(before));
        let ghost h2 = hw@;
        self.note_maps(&mut hw, Ghost(log@), Ghost(before));
        let ghost h3 = hw@;
        self.note_ranged(&mut hw, Ghost(log@), Ghost(before));
        let ghost h4 = hw@;
        self.note_placements(&mut hw, Ghost(log@), Ghost(before));
        let ghost h5 = hw@;
        let mut i: usize = 0;
        while i < log.len()
            invariant
                i <= log@.len(),
                hw.wf(),
                earned(bare, log@, before, hw@),
                grows(h5, hw@),
                forall|j: int| 0 <= j < i ==> clears(hw@, (#[trigger] log@[j]).0),
            decreases log@.len() - i,
        {
            proof {
                assert(in_log(log@, log@[i as int].0));
            }
            note(&mut hw, log[i].0, Ghost(bare), Ghost(log@), Ghost(before));
            i += 1;
        }
        proof {
            assert forall|c: ClientId, n: u64| #[trigger] bare.noted(log@, c, n)
                implies hw@.dom().contains(
                c,
            ) && hw@[c] >= n by {
                let x = choose|x: Stamp|
                    x.client == c && x.lamport == n && #[trigger] bare.carries(log@, x);
                lemma_all_clear(bare, log@, x, h1, h2, h3, h4, h5, hw@);
            }
            assert(bare.floored(log@, before, hw@));
            lemma_floored_same(t, bare, log@, before, hw@);
            assert(t.floored(log@, t.high_water, hw@));
            let want = t.with_floor(log@).high_water;
            lemma_floored_unique(t, log@, before, hw@, want);
        }
        self.high_water = hw;
        proof {
            assert(self@ =~= t.with_floor(log@));
        }
    }
}

proof fn lemma_holds_same(a: TreeV, b: TreeV, x: Stamp)
    requires
        a.lists == b.lists,
        a.texts == b.texts,
        a.maps == b.maps,
        a.ranged == b.ranged,
        a.placements == b.placements,
    ensures
        a.holds_stamp(x) ==> b.holds_stamp(x),
{
    if !a.holds_stamp(x) || TreeV::sequence_holds(a.lists, x) || TreeV::sequence_holds(a.texts, x) {
    } else if exists|m: ElementId, k: Seq<u8>|
        a.maps.dom().contains(m) && #[trigger] a.maps[m].slots.dom().contains(k) && slot_holds(
            a.maps[m].slots[k],
            x,
        ) {
        let (m, k) = choose|m: ElementId, k: Seq<u8>|
            a.maps.dom().contains(m) && #[trigger] a.maps[m].slots.dom().contains(k) && slot_holds(
                a.maps[m].slots[k],
                x,
            );
        assert(b.maps[m].slots.dom().contains(k));
    } else if exists|r: ElementId| #[trigger]
        a.ranged.dom().contains(r) && (a.ranged[r].payload matches PayloadV::Scalar { stamp, .. }
            && stamp == x) {
        let r = choose|r: ElementId| #[trigger]
            a.ranged.dom().contains(r) && (a.ranged[r].payload matches PayloadV::Scalar {
                stamp,
                ..
            } && stamp == x);
        assert(b.ranged.dom().contains(r));
    } else {
        let (n, i) = choose|n: ElementId, i: int|
            a.placements.dom().contains(n) && 0 <= i < a.placements[n].len() && (
            #[trigger] a.placements[n][i]).stamp == x;
        assert(b.placements[n][i].stamp == x);
    }
}

proof fn lemma_noted_same(a: TreeV, b: TreeV, log: Seq<(Stamp, MoveEdge)>)
    requires
        b == (TreeV { high_water: b.high_water, ..a }),
    ensures
        forall|c: ClientId, n: u64| a.noted(log, c, n) == #[trigger] b.noted(log, c, n),
{
    assert(a.lists == b.lists && a.texts == b.texts && a.maps == b.maps);
    assert(a.ranged == b.ranged && a.placements == b.placements);
    assert forall|x: Stamp| a.holds_stamp(x) == #[trigger] b.holds_stamp(x) by {
        lemma_holds_same(a, b, x);
        lemma_holds_same(b, a, x);
    }
    assert forall|x: Stamp| #[trigger] a.holds_stamp(x) == b.holds_stamp(x) by {
        lemma_holds_same(a, b, x);
        lemma_holds_same(b, a, x);
    }
    assert forall|c: ClientId, n: u64| a.noted(log, c, n) == #[trigger] b.noted(log, c, n) by {
        if a.noted(log, c, n) {
            let x = choose|x: Stamp|
                x.client == c && x.lamport == n && #[trigger] a.carries(log, x);
            assert(b.carries(log, x));
        }
        if b.noted(log, c, n) {
            let x = choose|x: Stamp|
                x.client == c && x.lamport == n && #[trigger] b.carries(log, x);
            assert(a.carries(log, x));
        }
    }
}

proof fn lemma_floored_same(
    t: TreeV,
    bare: TreeV,
    log: Seq<(Stamp, MoveEdge)>,
    before: Map<ClientId, u64>,
    hw: Map<ClientId, u64>,
)
    requires
        bare == (TreeV { high_water: bare.high_water, ..t }),
        bare.floored(log, before, hw),
    ensures
        t.floored(log, before, hw),
{
    lemma_noted_same(t, bare, log);
    assert forall|c: ClientId, n: u64| #[trigger] t.noted(log, c, n) implies hw.dom().contains(c)
        && hw[c] >= n by {
        assert(bare.noted(log, c, n));
    }
    assert forall|c: ClientId| #[trigger] hw.dom().contains(c) implies (before.dom().contains(c)
        && hw[c] == before[c]) || t.noted(log, c, hw[c]) by {
        if !(before.dom().contains(c) && hw[c] == before[c]) {
            assert(bare.noted(log, c, hw[c]));
        }
    }
}

proof fn lemma_all_clear(
    t: TreeV,
    log: Seq<(Stamp, MoveEdge)>,
    x: Stamp,
    h1: Map<ClientId, u64>,
    h2: Map<ClientId, u64>,
    h3: Map<ClientId, u64>,
    h4: Map<ClientId, u64>,
    h5: Map<ClientId, u64>,
    hw: Map<ClientId, u64>,
)
    requires
        t.holds_stamp(x) || in_log(log, x),
        grows(h1, h2),
        grows(h2, h3),
        grows(h3, h4),
        grows(h4, h5),
        grows(h5, hw),
        forall|y: Stamp| #[trigger] TreeV::sequence_holds(t.lists, y) ==> clears(h1, y),
        forall|y: Stamp| #[trigger] TreeV::sequence_holds(t.texts, y) ==> clears(h2, y),
        forall|m: ElementId, k: Seq<u8>, y: Stamp|
            t.maps.dom().contains(m) && t.maps[m].slots.dom().contains(k) && #[trigger] slot_holds(
                t.maps[m].slots[k],
                y,
            ) ==> clears(h3, y),
        forall|r: ElementId| #[trigger]
            t.ranged.dom().contains(r) ==> (t.ranged[r].payload matches PayloadV::Scalar {
                stamp,
                ..
            } ==> clears(h4, stamp)),
        forall|n: ElementId, i: int|
            t.placements.dom().contains(n) && 0 <= i < t.placements[n].len() ==> clears(
                h5,
                (#[trigger] t.placements[n][i]).stamp,
            ),
        forall|j: int| 0 <= j < log.len() ==> clears(hw, (#[trigger] log[j]).0),
    ensures
        clears(hw, x),
{
    if in_log(log, x) {
    } else if TreeV::sequence_holds(t.lists, x) {
        assert(clears(h1, x));
    } else if TreeV::sequence_holds(t.texts, x) {
        assert(clears(h2, x));
    } else if exists|m: ElementId, k: Seq<u8>|
        t.maps.dom().contains(m) && #[trigger] t.maps[m].slots.dom().contains(k) && slot_holds(
            t.maps[m].slots[k],
            x,
        ) {
        assert(clears(h3, x));
    } else if exists|r: ElementId| #[trigger]
        t.ranged.dom().contains(r) && (t.ranged[r].payload matches PayloadV::Scalar { stamp, .. }
            && stamp == x) {
        assert(clears(h4, x));
    } else {
        assert(clears(h5, x));
    }
}

} // verus!
