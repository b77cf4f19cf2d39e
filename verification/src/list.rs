//! List: an ordered sequence CRDT (Fugue).
//!
//! Items live in a tree: each insert attaches to a neighbour and the sequence is the
//! tree's in-order traversal. A run typed left-to-right forms a spine, so two concurrent
//! runs at the same gap stay whole instead of interleaving. Deletes tombstone: a position
//! must survive to anchor inserts placed against it. Deleted ids are held run-length
//! compressed, so a contiguous delete costs one record whatever its length.
//!
//! As a value a list is where every id attaches, live or deleted, and what each id that
//! is not deleted holds.

pub use crate::anchor::{Anchor, Side};
use crate::element::{Element, ElementV};
use crate::elementid::ElementId;
use crate::stamp::{stamp_lt, Stamp};
use crate::table::{index_of, lemma_entry, lemma_take, seq_map, sorted, Key, Table};
use vstd::prelude::*;

verus! {

/// An id in storage order: client, then offset, then lamport, so the ids one delete run
/// covers are contiguous. Distinct from the order of stamps, which decides ties in the
/// sequence.
#[derive(Clone, Copy, PartialEq, Eq, Debug, Structural)]
pub struct SeqKey {
    pub id: Stamp,
}

impl View for SeqKey {
    type V = Stamp;

    open spec fn view(&self) -> Stamp {
        self.id
    }
}

impl Key for SeqKey {
    open spec fn before(a: Stamp, b: Stamp) -> bool {
        a.client.bits < b.client.bits || (a.client.bits == b.client.bits && (a.offset < b.offset
            || (a.offset == b.offset && a.lamport < b.lamport)))
    }

    proof fn before_total(a: Stamp, b: Stamp) {
    }

    proof fn before_trans(a: Stamp, b: Stamp, c: Stamp) {
    }

    fn less(&self, other: &Self) -> (r: bool) {
        if self.id.client.bits != other.id.client.bits {
            self.id.client.bits < other.id.client.bits
        } else if self.id.offset != other.id.offset {
            self.id.offset < other.id.offset
        } else {
            self.id.lamport < other.id.lamport
        }
    }
}

/// A node that still carries a value.
#[derive(PartialEq, Eq, Debug)]
pub struct Node {
    pub value: Element,
    pub anchor: Anchor,
    /// Suppressed by a tree move: the node still anchors the tree but a live read skips
    /// it. Unlike a delete this is reversible.
    pub moved_away: bool,
}

/// A run of deleted ids kept as one record: `len` ids counting up in lamport from the
/// run's head, the head placed at `anchor` and every later id the right child of its
/// predecessor.
#[derive(Clone, Copy, PartialEq, Eq, Debug, Structural)]
pub struct DeadRun {
    pub len: u64,
    pub anchor: Anchor,
}

/// A sequence: the ids that carry a value, the deleted ids, and whether the list has lost
/// its slot.
pub struct List {
    pub id: ElementId,
    pub nodes: Table<SeqKey, Node>,
    pub dead: Table<SeqKey, DeadRun>,
    pub displaced: bool,
}

/// What an id that is not deleted holds.
pub struct ItemV {
    pub value: ElementV,
    pub moved_away: bool,
}

/// A list as a value: where every id attaches, and what each live id holds.
#[verifier::ext_equal]
pub struct ListV {
    pub id: ElementId,
    pub places: Map<Stamp, Anchor>,
    pub items: Map<Stamp, ItemV>,
    pub displaced: bool,
}

// --- runs ---

/// The id `i` places after `head`.
pub open spec fn step(head: Stamp, i: int) -> Stamp {
    Stamp { lamport: (head.lamport + i) as u64, client: head.client, offset: head.offset }
}

/// Whether a run of `len` ids from `head` contains `id`.
pub open spec fn spec_covers(head: Stamp, len: u64, id: Stamp) -> bool {
    head.client == id.client && head.offset == id.offset && head.lamport <= id.lamport && id.lamport
        - head.lamport < len
}

/// Where an id of a run attaches.
pub open spec fn run_place(head: Stamp, anchor: Anchor, id: Stamp) -> Anchor {
    if id == head {
        anchor
    } else {
        Anchor { parent: Some(step(id, -1)), side: Side::Right }
    }
}

/// Where every id of a run attaches.
pub open spec fn run_places(head: Stamp, run: DeadRun) -> Map<Stamp, Anchor> {
    Map::new(
        |id: Stamp| spec_covers(head, run.len, id),
        |id: Stamp| run_place(head, run.anchor, id),
    )
}

/// Whether some run contains `id`.
pub open spec fn dead_at(dead: Map<Stamp, DeadRun>, id: Stamp) -> bool {
    exists|h: Stamp| #[trigger] dead.dom().contains(h) && spec_covers(h, dead[h].len, id)
}

/// The head of the run that contains `id`.
pub open spec fn run_of(dead: Map<Stamp, DeadRun>, id: Stamp) -> Stamp {
    choose|h: Stamp| #[trigger] dead.dom().contains(h) && spec_covers(h, dead[h].len, id)
}

/// Where every deleted id attaches.
pub open spec fn expand(dead: Map<Stamp, DeadRun>) -> Map<Stamp, Anchor> {
    Map::new(
        |id: Stamp| dead_at(dead, id),
        |id: Stamp| run_place(run_of(dead, id), dead[run_of(dead, id)].anchor, id),
    )
}

/// Whether runs are well formed: none empty or past the lamport space, no two sharing an
/// id.
pub open spec fn runs_ok(dead: Map<Stamp, DeadRun>) -> bool {
    &&& forall|h: Stamp| #[trigger]
        dead.dom().contains(h) ==> dead[h].len >= 1 && h.lamport + dead[h].len - 1 <= u64::MAX
    &&& forall|g: Stamp, h: Stamp| #[trigger]
        dead.dom().contains(g) && #[trigger] dead.dom().contains(h) && g != h ==> !spec_covers(
            g,
            dead[g].len,
            h,
        )
}

/// Whether run `h` continues run `g`: it starts where `g` ends and attaches to `g`'s last
/// id, and the two can be counted as one.
pub open spec fn continues(g: Stamp, run: DeadRun, h: Stamp, next: DeadRun) -> bool {
    h == step(g, run.len as int) && g.lamport + run.len <= u64::MAX && run.len + next.len
        <= u64::MAX && next.anchor == (Anchor {
        parent: Some(step(g, run.len - 1)),
        side: Side::Right,
    })
}

/// Whether runs are maximal: none continues another.
pub open spec fn runs_maximal(dead: Map<Stamp, DeadRun>) -> bool {
    forall|g: Stamp, h: Stamp| #[trigger]
        dead.dom().contains(g) && #[trigger] dead.dom().contains(h) ==> !continues(
            g,
            dead[g],
            h,
            dead[h],
        )
}

/// In well-formed runs an id is in at most one.
pub proof fn lemma_run_unique(dead: Map<Stamp, DeadRun>, h: Stamp, id: Stamp)
    requires
        runs_ok(dead),
        dead.dom().contains(h),
        spec_covers(h, dead[h].len, id),
    ensures
        dead_at(dead, id),
        run_of(dead, id) == h,
{
    let g = run_of(dead, id);
    assert(dead.dom().contains(g) && spec_covers(g, dead[g].len, id));
    if g != h {
        assert(!spec_covers(g, dead[g].len, h));
        assert(!spec_covers(h, dead[h].len, g));
    }
}

/// Adding a run that shares no id with the others adds its ids' places.
pub proof fn lemma_add_run(dead: Map<Stamp, DeadRun>, head: Stamp, run: DeadRun)
    requires
        runs_ok(dead),
        run.len >= 1,
        head.lamport + run.len - 1 <= u64::MAX,
        forall|id: Stamp| #[trigger] spec_covers(head, run.len, id) ==> !dead_at(dead, id),
    ensures
        runs_ok(dead.insert(head, run)),
        expand(dead.insert(head, run)) == expand(dead).union_prefer_right(run_places(head, run)),
        !dead.dom().contains(head),
{
    let d = dead.insert(head, run);
    assert(spec_covers(head, run.len, head));
    if dead.dom().contains(head) {
        assert(spec_covers(head, dead[head].len, head));
    }
    assert forall|g: Stamp, h: Stamp| #[trigger]
        d.dom().contains(g) && #[trigger] d.dom().contains(h) && g != h implies !spec_covers(
        g,
        d[g].len,
        h,
    ) by {
        if g == head {
            if spec_covers(head, run.len, h) {
                assert(dead.dom().contains(h));
                assert(spec_covers(h, dead[h].len, h));
                assert(dead_at(dead, h));
            }
        } else if h == head {
            if spec_covers(g, dead[g].len, head) {
                assert(dead.dom().contains(g));
                assert(dead_at(dead, head));
            }
        }
    }
    assert(runs_ok(d));
    let x = expand(d);
    let y = expand(dead).union_prefer_right(run_places(head, run));
    assert forall|id: Stamp| x.dom().contains(id) <==> y.dom().contains(id) by {
        if dead_at(d, id) {
            let h = run_of(d, id);
            assert(d.dom().contains(h) && spec_covers(h, d[h].len, id));
            if h != head {
                assert(dead.dom().contains(h));
            }
        }
        if dead_at(dead, id) {
            let h = run_of(dead, id);
            assert(dead.dom().contains(h) && spec_covers(h, dead[h].len, id));
            assert(d.dom().contains(h));
        }
        if spec_covers(head, run.len, id) {
            assert(d.dom().contains(head));
        }
    }
    assert forall|id: Stamp| x.dom().contains(id) implies x[id] == y[id] by {
        if spec_covers(head, run.len, id) {
            lemma_run_unique(d, head, id);
        } else {
            assert(dead_at(dead, id));
            let h = run_of(dead, id);
            assert(dead.dom().contains(h) && spec_covers(h, dead[h].len, id));
            assert(h != head);
            lemma_run_unique(d, h, id);
            lemma_run_unique(dead, h, id);
        }
    }
    assert(x =~= y);
}

/// Taking a run out takes out its ids' places.
pub proof fn lemma_drop_run(dead: Map<Stamp, DeadRun>, head: Stamp)
    requires
        runs_ok(dead),
        dead.dom().contains(head),
    ensures
        runs_ok(dead.remove(head)),
        expand(dead.remove(head)) == expand(dead).remove_keys(
            run_places(head, dead[head]).dom(),
        ),
{
    let d = dead.remove(head);
    assert forall|g: Stamp, h: Stamp| #[trigger]
        d.dom().contains(g) && #[trigger] d.dom().contains(h) && g != h implies !spec_covers(
        g,
        d[g].len,
        h,
    ) by {
        assert(dead.dom().contains(g) && dead.dom().contains(h));
    }
    assert forall|h: Stamp| #[trigger] d.dom().contains(h) implies d[h].len >= 1 && h.lamport
        + d[h].len - 1 <= u64::MAX by {
        assert(dead.dom().contains(h));
    }
    let x = expand(d);
    let y = expand(dead).remove_keys(run_places(head, dead[head]).dom());
    assert forall|id: Stamp| x.dom().contains(id) <==> y.dom().contains(id) by {
        if dead_at(d, id) {
            let h = run_of(d, id);
            assert(d.dom().contains(h) && spec_covers(h, d[h].len, id));
            assert(dead.dom().contains(h));
            lemma_run_unique(dead, h, id);
            if spec_covers(head, dead[head].len, id) {
                lemma_run_unique(dead, head, id);
            }
        }
        if y.dom().contains(id) {
            let h = run_of(dead, id);
            assert(dead.dom().contains(h) && spec_covers(h, dead[h].len, id));
            assert(h != head);
            assert(d.dom().contains(h));
        }
    }
    assert forall|id: Stamp| x.dom().contains(id) implies x[id] == y[id] by {
        let h = run_of(d, id);
        assert(d.dom().contains(h) && spec_covers(h, d[h].len, id));
        assert(dead.dom().contains(h));
        lemma_run_unique(dead, h, id);
    }
    assert(x =~= y);
}

/// A run and one that continues it are one run.
pub proof fn lemma_weld(g: Stamp, run: DeadRun, h: Stamp, next: DeadRun)
    requires
        run.len >= 1,
        next.len >= 1,
        continues(g, run, h, next),
        g.lamport + run.len + next.len - 1 <= u64::MAX,
    ensures
        run_places(g, DeadRun { len: (run.len + next.len) as u64, anchor: run.anchor })
            == run_places(g, run).union_prefer_right(run_places(h, next)),
{
    let w = DeadRun { len: (run.len + next.len) as u64, anchor: run.anchor };
    let x = run_places(g, w);
    let y = run_places(g, run).union_prefer_right(run_places(h, next));
    assert forall|id: Stamp| x.dom().contains(id) implies x[id] == y[id] by {
        if spec_covers(h, next.len, id) && id == h {
            assert(step(h, -1) == step(g, run.len - 1));
        }
    }
    assert(x =~= y);
}

// --- the list as a value ---

/// What the nodes hold.
pub open spec fn items_of(nodes: Map<Stamp, Node>) -> Map<Stamp, ItemV> {
    nodes.map_values(|n: Node| ItemV { value: n.value@, moved_away: n.moved_away })
}

/// Where the nodes attach.
pub open spec fn anchors_of(nodes: Map<Stamp, Node>) -> Map<Stamp, Anchor> {
    nodes.map_values(|n: Node| n.anchor)
}

impl View for List {
    type V = ListV;

    open spec fn view(&self) -> ListV {
        ListV {
            id: self.id,
            places: expand(self.dead@).union_prefer_right(anchors_of(self.nodes@)),
            items: items_of(self.nodes@),
            displaced: self.displaced,
        }
    }
}

impl ListV {
    /// Whether `id` is deleted.
    pub open spec fn is_dead(self, id: Stamp) -> bool {
        self.places.dom().contains(id) && !self.items.dom().contains(id)
    }

    /// Whether `id` is present and rendered: neither deleted nor moved away.
    pub open spec fn is_live(self, id: Stamp) -> bool {
        self.items.dom().contains(id) && !self.items[id].moved_away
    }
}

/// The list after `value` is inserted as `id`, unless the id is already there.
pub open spec fn list_insert(l: ListV, id: Stamp, value: ElementV, anchor: Anchor) -> ListV {
    if l.places.dom().contains(id) {
        l
    } else {
        ListV {
            places: l.places.insert(id, anchor),
            items: l.items.insert(id, ItemV { value, moved_away: false }),
            ..l
        }
    }
}

/// The list after `id` is deleted: its value goes, its place stays.
pub open spec fn list_delete(l: ListV, id: Stamp) -> ListV {
    ListV { items: l.items.remove(id), ..l }
}

/// The list after `id` is suppressed or re-instated by a tree move.
pub open spec fn list_set_away(l: ListV, id: Stamp, away: bool) -> ListV {
    if l.items.dom().contains(id) {
        ListV { items: l.items.insert(id, ItemV { moved_away: away, ..l.items[id] }), ..l }
    } else {
        l
    }
}

/// The join of another replica's list: every id either knows, at the place this one has
/// for it where it has one; deleted in either is deleted.
pub open spec fn list_join(a: ListV, b: ListV) -> ListV {
    ListV {
        places: b.places.union_prefer_right(a.places),
        items: Map::new(
            |id: Stamp|
                (a.items.dom().contains(id) || b.items.dom().contains(id)) && !a.is_dead(id)
                    && !b.is_dead(id),
            |id: Stamp|
                if a.items.dom().contains(id) {
                    a.items[id]
                } else {
                    b.items[id]
                },
        ),
        ..a
    }
}

pub(crate) fn key(id: Stamp) -> (k: SeqKey)
    ensures
        k@ == id,
{
    SeqKey { id }
}

/// Whether a run of `len` ids from `head` contains `id`.
fn covers(head: Stamp, len: u64, id: Stamp) -> (b: bool)
    ensures
        b == spec_covers(head, len, id),
{
    head.client == id.client && head.offset == id.offset && id.lamport >= head.lamport
        && id.lamport - head.lamport < len
}

/// The id `i` places after a run head.
pub(crate) fn run_id(head: Stamp, i: u64) -> (id: Stamp)
    requires
        head.lamport + i <= u64::MAX,
    ensures
        id == step(head, i as int),
{
    Stamp { lamport: head.lamport + i, client: head.client, offset: head.offset }
}

impl List {
    /// Both stores are in order, runs are well formed and maximal, and no id is both held
    /// and deleted.
    pub open spec fn wf(&self) -> bool {
        &&& self.nodes.wf()
        &&& self.dead.wf()
        &&& runs_ok(self.dead@)
        &&& runs_maximal(self.dead@)
        &&& forall|id: Stamp| #[trigger] self.nodes@.dom().contains(id) ==> !dead_at(self.dead@, id)
    }

    /// Where every id attaches, taken apart.
    pub(crate) proof fn lemma_places(&self, id: Stamp)
        requires
            self.wf(),
        ensures
            self@.places.dom().contains(id) <==> self.nodes@.dom().contains(id) || dead_at(
                self.dead@,
                id,
            ),
            self@.items.dom().contains(id) <==> self.nodes@.dom().contains(id),
            self@.is_dead(id) <==> dead_at(self.dead@, id),
    {
    }

    pub fn new(id: ElementId) -> (l: Self)
        ensures
            l.wf(),
            l@ == (ListV {
                id,
                places: Map::empty(),
                items: Map::empty(),
                displaced: false,
            }),
    {
        let l = List { id, nodes: Table::new(), dead: Table::new(), displaced: false };
        proof {
            assert(l@.places =~= Map::empty());
            assert(l@.items =~= Map::empty());
        }
        l
    }

    pub fn id(&self) -> (id: ElementId)
        ensures
            id == self@.id,
    {
        self.id
    }

    /// How many records back the sequence: one per node that carries a value plus one per
    /// deleted run.
    pub fn stored_records(&self) -> (n: usize)
        requires
            self.wf(),
            self.nodes.entries@.len() + self.dead.entries@.len() <= usize::MAX,
        ensures
            n == self.nodes.entries@.len() + self.dead.entries@.len(),
    {
        self.nodes.len() + self.dead.len()
    }

    /// The run covering `id`: its head and record.
    pub(crate) fn dead_run(&self, id: Stamp) -> (r: Option<(Stamp, DeadRun)>)
        requires
            self.dead.wf(),
            runs_ok(self.dead@),
        ensures
            match r {
                Some((h, run)) => dead_at(self.dead@, id) && h == run_of(self.dead@, id)
                    && self.dead@.dom().contains(h) && run == self.dead@[h] && spec_covers(
                    h,
                    run.len,
                    id,
                ),
                None => !dead_at(self.dead@, id),
            },
    {
        let (i, found) = self.dead.find(&key(id));
        let at: usize = if found {
            i
        } else if i > 0 {
            i - 1
        } else {
            proof {
                if dead_at(self.dead@, id) {
                    let h = run_of(self.dead@, id);
                    assert(self.dead@.dom().contains(h));
                    let j = index_of::<SeqKey, DeadRun>(self.dead.entries@, h);
                    assert(self.dead.entries@[j].0@ == h);
                    SeqKey::before_total(id, h);
                }
            }
            return None;
        };
        let (head, run) = self.dead.entries[at];
        let ghost e = self.dead.entries@;
        proof {
            lemma_entry::<SeqKey, DeadRun>(e, at as int);
        }
        if covers(head.id, run.len, id) {
            proof {
                lemma_run_unique(self.dead@, head.id, id);
            }
            Some((head.id, run))
        } else {
            proof {
                if dead_at(self.dead@, id) {
                    let h = run_of(self.dead@, id);
                    assert(self.dead@.dom().contains(h) && spec_covers(h, self.dead@[h].len, id));
                    let j = index_of::<SeqKey, DeadRun>(e, h);
                    assert(e[j].0@ == h);
                    let g = head.id;
                    assert(self.dead@.dom().contains(g));
                    // The run found last before `id` lies between `h` and `id`.
                    if found {
                        assert(g == id);
                        assert(spec_covers(g, self.dead@[g].len, g));
                    } else {
                        SeqKey::before_total(id, h);
                        assert(j < i);
                        if j < at {
                            assert(SeqKey::before(h, g));
                            assert(SeqKey::before(g, id));
                            assert(spec_covers(h, self.dead@[h].len, g));
                        } else {
                            assert(j == at);
                        }
                    }
                }
            }
            None
        }
    }

    /// Whether the node `id` is present, live or deleted.
    pub fn contains(&self, id: Stamp) -> (b: bool)
        requires
            self.wf(),
        ensures
            b == self@.places.dom().contains(id),
    {
        proof {
            self.lemma_places(id);
        }
        self.nodes.contains_key(&key(id)) || self.dead_run(id).is_some()
    }

    /// Whether the node `id` is present and deleted.
    pub fn is_tombstoned(&self, id: Stamp) -> (b: bool)
        requires
            self.wf(),
        ensures
            b == self@.is_dead(id),
    {
        proof {
            self.lemma_places(id);
        }
        self.dead_run(id).is_some()
    }

    /// Insert a node with an explicit id and placement. Idempotent on the id: a replayed
    /// op leaves the sequence untouched, and an id already deleted stays deleted.
    pub fn insert_at(&mut self, id: Stamp, value: Element, anchor: Anchor)
        requires
            old(self).wf(),
        ensures
            final(self).wf(),
            final(self)@ == list_insert(old(self)@, id, value@, anchor),
    {
        if self.contains(id) {
            return;
        }
        proof {
            self.lemma_places(id);
        }
        let ghost before = *self;
        let node = Node { value, anchor, moved_away: false };
        self.nodes.insert(key(id), node);
        proof {
            let l = list_insert(before@, id, value@, anchor);
            assert(self@.items =~= l.items);
            assert(self@.places =~= l.places);
        }
    }

    /// Suppress or re-instate a node under a tree move; positions are untouched. Inert on
    /// a deleted id.
    pub fn set_moved_away(&mut self, id: Stamp, away: bool)
        requires
            old(self).wf(),
        ensures
            final(self).wf(),
            final(self)@ == list_set_away(old(self)@, id, away),
    {
        let ghost before = *self;
        match self.nodes.remove(&key(id)) {
            Some(n) => {
                let node = Node { value: n.value, anchor: n.anchor, moved_away: away };
                self.nodes.insert(key(id), node);
                proof {
                    let l = list_set_away(before@, id, away);
                    assert(self@.items =~= l.items);
                    assert(self@.places =~= l.places);
                }
            },
            None => {
                proof {
                    assert(self.nodes@ =~= before.nodes@);
                }
            },
        }
    }

    /// The value node `id` holds, whether it renders here or is moved away. A deleted id
    /// holds nothing.
    pub fn node_value(&self, id: Stamp) -> (r: Option<Element>)
        requires
            self.wf(),
        ensures
            match r {
                Some(e) => self@.items.dom().contains(id) && e@ == self@.items[id].value,
                None => !self@.items.dom().contains(id),
            },
    {
        match self.nodes.get(&key(id)) {
            Some(n) => Some(n.value.clone()),
            None => None,
        }
    }

    /// Delete the node with `id`, folding it into the run it continues. Idempotent.
    pub fn delete_id(&mut self, id: Stamp)
        requires
            old(self).wf(),
        ensures
            final(self).wf(),
            final(self)@ == list_delete(old(self)@, id),
    {
        let ghost before = *self;
        match self.nodes.remove(&key(id)) {
            Some(n) => {
                proof {
                    before.lemma_places(id);
                    assert forall|x: Stamp| spec_covers(id, 1, x) implies x == id by {
                    }
                    assert(self.wf());
                }
                self.add_dead(id, 1, n.anchor);
                proof {
                    let l = list_delete(before@, id);
                    assert(self@.items =~= l.items);
                    assert(self@.places =~= l.places);
                }
            },
            None => {
                proof {
                    assert(self.nodes@ =~= before.nodes@);
                    assert(before@.items.remove(id) =~= before@.items);
                }
            },
        }
    }

    /// Record `len` ids from `head` as deleted, welding the record onto an adjacent run
    /// whose chain it continues.
    pub(crate) fn add_dead(&mut self, head: Stamp, len: u64, anchor: Anchor)
        requires
            old(self).wf(),
            len >= 1,
            head.lamport + len - 1 <= u64::MAX,
            forall|id: Stamp| #[trigger]
                spec_covers(head, len, id) ==> !dead_at(old(self).dead@, id)
                    && !old(self).nodes@.dom().contains(id),
        ensures
            final(self).wf(),
            final(self).nodes == old(self).nodes,
            final(self).id == old(self).id,
            final(self).displaced == old(self).displaced,
            expand(final(self).dead@) == expand(old(self).dead@).union_prefer_right(
                run_places(head, DeadRun { len, anchor }),
            ),
    {
        let ghost d0 = self.dead@;
        let ghost added = DeadRun { len, anchor };
        let mut at: Stamp = head;
        let mut run = DeadRun { len, anchor };
        // Weld onto the run this one continues.
        if head.lamport > 0 {
            let prev = Stamp {
                lamport: head.lamport - 1,
                client: head.client,
                offset: head.offset,
            };
            if anchor.parent == Some(prev) && anchor.side == Side::Right {
                if let Some((g, grun)) = self.dead_run(prev) {
                    if grun.len - 1 == prev.lamport - g.lamport && grun.len <= u64::MAX - len {
                        proof {
                            assert(continues(g, grun, head, added));
                            lemma_weld(g, grun, head, added);
                            lemma_drop_run(d0, g);
                        }
                        self.dead.remove(&key(g));
                        at = g;
                        run = DeadRun { len: grun.len + len, anchor: grun.anchor };
                    }
                }
            }
        }
        let ghost d1 = self.dead@;
        proof {
            lemma_after_front_weld(d0, d1, head, added, at, run);
        }
        // Weld the run that continues this one.
        let ghost mid = run;
        if at.lamport <= u64::MAX - run.len {
            let next = run_id(at, run.len);
            let last = run_id(at, run.len - 1);
            if let Some(nrun) = self.dead.get(&key(next)) {
                let nrun = *nrun;
                if nrun.anchor.parent == Some(last) && nrun.anchor.side == Side::Right && nrun.len
                    <= u64::MAX - run.len {
                    proof {
                        assert(continues(at, mid, next, nrun));
                        assert(d1.dom().contains(next));
                        assert(next.lamport + nrun.len - 1 <= u64::MAX);
                        lemma_weld(at, mid, next, nrun);
                        lemma_drop_run(d1, next);
                    }
                    run = DeadRun { len: run.len + nrun.len, anchor: run.anchor };
                    self.dead.remove(&key(next));
                }
            }
        }
        let ghost d2 = self.dead@;
        proof {
            lemma_after_back_weld(d1, d2, at, mid, run);
            lemma_add_run(d2, at, run);
        }
        self.dead.insert(key(at), run);
        proof {
            lemma_added(d0, d1, d2, head, added, at, mid, run);
            assert forall|id: Stamp| #[trigger] self.nodes@.dom().contains(id) implies !dead_at(
                self.dead@,
                id,
            ) by {
                if dead_at(self.dead@, id) {
                    assert(expand(self.dead@).dom().contains(id));
                    assert(expand(d0).dom().contains(id) || spec_covers(head, len, id));
                }
            }
        }
    }
}

/// What holds once a run has been welded onto the one it continues, or not.
proof fn lemma_after_front_weld(
    d0: Map<Stamp, DeadRun>,
    d1: Map<Stamp, DeadRun>,
    head: Stamp,
    added: DeadRun,
    at: Stamp,
    run: DeadRun,
)
    requires
        runs_ok(d0),
        runs_maximal(d0),
        added.len >= 1,
        head.lamport + added.len - 1 <= u64::MAX,
        forall|id: Stamp| #[trigger] spec_covers(head, added.len, id) ==> !dead_at(d0, id),
        (d1 == d0 && at == head && run == added && (forall|g: Stamp| #[trigger]
            d0.dom().contains(g) ==> !continues(g, d0[g], head, added))) || (
        d0.dom().contains(at) && d1 == d0.remove(at) && continues(at, d0[at], head, added)
            && run == (DeadRun { len: (d0[at].len + added.len) as u64, anchor: d0[at].anchor })),
    ensures
        runs_ok(d1),
        runs_maximal(d1),
        run.len >= 1,
        at.lamport + run.len - 1 <= u64::MAX,
        forall|id: Stamp| #[trigger] spec_covers(at, run.len, id) ==> !dead_at(d1, id),
        forall|g: Stamp| #[trigger] d1.dom().contains(g) ==> !continues(g, d1[g], at, run),
        expand(d1).union_prefer_right(run_places(at, run)) == expand(d0).union_prefer_right(
            run_places(head, added),
        ),
        step(at, run.len - 1) == step(head, added.len - 1),
{
    if at != head || run != added {
        let grun = d0[at];
        assert(d0.dom().contains(at));
        lemma_weld(at, grun, head, added);
        lemma_drop_run(d0, at);
        assert forall|g: Stamp, h: Stamp| #[trigger]
            d1.dom().contains(g) && #[trigger] d1.dom().contains(h) implies !continues(
            g,
            d1[g],
            h,
            d1[h],
        ) by {
            assert(d0.dom().contains(g) && d0.dom().contains(h));
        }
        assert forall|g: Stamp| #[trigger] d1.dom().contains(g) implies !continues(
            g,
            d1[g],
            at,
            run,
        ) by {
            assert(d0.dom().contains(g) && d0.dom().contains(at));
        }
        assert forall|id: Stamp| #[trigger] spec_covers(at, run.len, id) implies !dead_at(d1, id) by {
            if dead_at(d1, id) {
                let h = run_of(d1, id);
                assert(d1.dom().contains(h) && spec_covers(h, d1[h].len, id));
                assert(d0.dom().contains(h));
                lemma_run_unique(d0, h, id);
                if spec_covers(at, grun.len, id) {
                    lemma_run_unique(d0, at, id);
                } else {
                    assert(spec_covers(head, added.len, id));
                }
            }
        }
        let x = expand(d1).union_prefer_right(run_places(at, run));
        let y = expand(d0).union_prefer_right(run_places(head, added));
        assert forall|id: Stamp| x.dom().contains(id) <==> y.dom().contains(id) by {
            if spec_covers(at, grun.len, id) {
                lemma_run_unique(d0, at, id);
            }
        }
        assert forall|id: Stamp| x.dom().contains(id) implies x[id] == y[id] by {
            if spec_covers(at, grun.len, id) {
                lemma_run_unique(d0, at, id);
            }
        }
        assert(x =~= y);
    }
}

/// What holds once the run that continues this one has been welded on, or not.
proof fn lemma_after_back_weld(
    d1: Map<Stamp, DeadRun>,
    d2: Map<Stamp, DeadRun>,
    at: Stamp,
    mid: DeadRun,
    run: DeadRun,
)
    requires
        runs_ok(d1),
        runs_maximal(d1),
        mid.len >= 1,
        at.lamport + mid.len - 1 <= u64::MAX,
        forall|id: Stamp| #[trigger] spec_covers(at, mid.len, id) ==> !dead_at(d1, id),
        forall|g: Stamp| #[trigger] d1.dom().contains(g) ==> !continues(g, d1[g], at, mid),
        ({
            let next = step(at, mid.len as int);
            (d2 == d1 && run == mid && (forall|h: Stamp| #[trigger]
                d1.dom().contains(h) ==> !continues(at, mid, h, d1[h]))) || (
            d1.dom().contains(next) && d2 == d1.remove(next) && continues(
                at,
                mid,
                next,
                d1[next],
            ) && run == (DeadRun { len: (mid.len + d1[next].len) as u64, anchor: mid.anchor }))
        }),
    ensures
        runs_ok(d2),
        run.len >= 1,
        at.lamport + run.len - 1 <= u64::MAX,
        forall|id: Stamp| #[trigger] spec_covers(at, run.len, id) ==> !dead_at(d2, id),
        expand(d2).union_prefer_right(run_places(at, run)) == expand(d1).union_prefer_right(
            run_places(at, mid),
        ),
        runs_maximal(d2.insert(at, run)),
{
    let next = step(at, mid.len as int);
    assert(spec_covers(at, mid.len, at));
    if d1.dom().contains(at) {
        assert(spec_covers(at, d1[at].len, at));
    }
    if run != mid {
        let nrun = d1[next];
        assert(d1.dom().contains(next));
        lemma_weld(at, mid, next, nrun);
        lemma_drop_run(d1, next);
        assert forall|id: Stamp| #[trigger] spec_covers(at, run.len, id) implies !dead_at(d2, id) by {
            if dead_at(d2, id) {
                let h = run_of(d2, id);
                assert(d2.dom().contains(h) && spec_covers(h, d2[h].len, id));
                assert(d1.dom().contains(h));
                lemma_run_unique(d1, h, id);
                if spec_covers(next, nrun.len, id) {
                    lemma_run_unique(d1, next, id);
                } else {
                    assert(spec_covers(at, mid.len, id));
                }
            }
        }
        let x = expand(d2).union_prefer_right(run_places(at, run));
        let y = expand(d1).union_prefer_right(run_places(at, mid));
        assert forall|id: Stamp| x.dom().contains(id) <==> y.dom().contains(id) by {
            if spec_covers(next, nrun.len, id) {
                lemma_run_unique(d1, next, id);
            }
        }
        assert forall|id: Stamp| x.dom().contains(id) implies x[id] == y[id] by {
            if spec_covers(next, nrun.len, id) {
                lemma_run_unique(d1, next, id);
            }
        }
        assert(x =~= y);
    }
    let d3 = d2.insert(at, run);
    assert forall|g: Stamp, h: Stamp| #[trigger]
        d3.dom().contains(g) && #[trigger] d3.dom().contains(h) implies !continues(
        g,
        d3[g],
        h,
        d3[h],
    ) by {
        if g != at {
            assert(d1.dom().contains(g));
        }
        if h != at {
            assert(d1.dom().contains(h));
        }
        if g == at && h != at && run != mid {
            // What would continue the welded run would continue the run welded on.
            if continues(at, run, h, d3[h]) {
                assert(continues(next, d1[next], h, d1[h]));
            }
        }
    }
}

/// What an added run leaves behind: its ids at its places, beside the others.
proof fn lemma_added(
    d0: Map<Stamp, DeadRun>,
    d1: Map<Stamp, DeadRun>,
    d2: Map<Stamp, DeadRun>,
    head: Stamp,
    added: DeadRun,
    at: Stamp,
    mid: DeadRun,
    run: DeadRun,
)
    requires
        expand(d1).union_prefer_right(run_places(at, mid)) == expand(d0).union_prefer_right(
            run_places(head, added),
        ),
        expand(d2).union_prefer_right(run_places(at, run)) == expand(d1).union_prefer_right(
            run_places(at, mid),
        ),
        expand(d2.insert(at, run)) == expand(d2).union_prefer_right(run_places(at, run)),
    ensures
        expand(d2.insert(at, run)) == expand(d0).union_prefer_right(run_places(head, added)),
{
}

/// The places of a list after another replica's run is buried in it.
pub open spec fn list_bury(l: ListV, head: Stamp, run: DeadRun) -> ListV {
    ListV {
        places: run_places(head, run).union_prefer_right(l.places),
        items: l.items.remove_keys(run_places(head, run).dom()),
        ..l
    }
}

impl List {
    /// The id at or after `id`, in its client and offset, that starts a node or a run.
    pub(crate) fn next_from<V>(t: &Table<SeqKey, V>, id: Stamp) -> (r: Option<u64>)
        requires
            t.wf(),
        ensures
            match r {
                Some(d) => id.lamport + d <= u64::MAX && t@.dom().contains(step(id, d as int))
                    && forall|x: Stamp| #[trigger]
                    t@.dom().contains(x) && x.client == id.client && x.offset == id.offset
                        && x.lamport >= id.lamport ==> x.lamport >= id.lamport + d,
                None => forall|x: Stamp| #[trigger]
                    t@.dom().contains(x) && x.client == id.client && x.offset == id.offset
                        ==> x.lamport < id.lamport,
            },
    {
        let (i, _found) = t.find(&key(id));
        let ghost e = t.entries@;
        if i < t.entries.len() {
            let k = t.entries[i].0.id;
            proof {
                lemma_entry::<SeqKey, V>(e, i as int);
                SeqKey::before_total(k, id);
                assert forall|x: Stamp| #[trigger] t@.dom().contains(x) implies SeqKey::before(x, id)
                    || x == k || SeqKey::before(k, x) by {
                    let j = index_of::<SeqKey, V>(e, x);
                    assert(e[j].0@ == x);
                    if j > i {
                        assert(SeqKey::before(e[i as int].0@, e[j].0@));
                    }
                }
            }
            if k.client == id.client && k.offset == id.offset && k.lamport >= id.lamport {
                let d: u64 = k.lamport - id.lamport;
                proof {
                    assert(step(id, d as int) == k);
                }
                return Some(d);
            }
            proof {
                // `k` is at or past `id` in the store, so it is in a later group.
                assert(!SeqKey::before(k, id));
            }
            None
        } else {
            proof {
                assert forall|x: Stamp| #[trigger] t@.dom().contains(x) implies SeqKey::before(
                    x,
                    id,
                ) by {
                    let j = index_of::<SeqKey, V>(e, x);
                    assert(e[j].0@ == x);
                }
            }
            None
        }
    }

    /// Whether any id from `start` through lamport `last` is already stored.
    pub(crate) fn holds_any(&self, start: Stamp, last: u64) -> (b: bool)
        requires
            self.wf(),
            start.lamport <= last,
        ensures
            b == exists|id: Stamp| #[trigger]
                self@.places.dom().contains(id) && id.client == start.client && id.offset
                    == start.offset && start.lamport <= id.lamport <= last,
    {
        if self.dead_run(start).is_some() {
            proof {
                self.lemma_places(start);
            }
            return true;
        }
        let n = Self::next_from(&self.nodes, start);
        let d = Self::next_from(&self.dead, start);
        proof {
            assert forall|id: Stamp| #[trigger]
                self@.places.dom().contains(id) && id.client == start.client && id.offset
                    == start.offset && start.lamport <= id.lamport <= last implies (n matches Some(
                x,
            ) && x <= last - start.lamport) || (d matches Some(x) && x <= last - start.lamport) by {
                self.lemma_places(id);
                if dead_at(self.dead@, id) {
                    let h = run_of(self.dead@, id);
                    assert(self.dead@.dom().contains(h) && spec_covers(h, self.dead@[h].len, id));
                    if h.lamport < start.lamport {
                        assert(spec_covers(h, self.dead@[h].len, start));
                    }
                }
            }
        }
        if let Some(x) = n {
            if x <= last - start.lamport {
                proof {
                    self.lemma_places(step(start, x as int));
                    assert(self@.places.dom().contains(step(start, x as int)));
                }
                return true;
            }
        }
        if let Some(x) = d {
            if x <= last - start.lamport {
                proof {
                    let h = step(start, x as int);
                    assert(self.dead@.dom().contains(h));
                    assert(spec_covers(h, self.dead@[h].len, h));
                    self.lemma_places(h);
                    assert(self@.places.dom().contains(h));
                }
                return true;
            }
        }
        false
    }

    /// How many ids from `id` onward, at most `max`, this list has never seen.
    fn unseen_from(&self, id: Stamp, max: u64) -> (n: u64)
        requires
            self.wf(),
            max >= 1,
            !self@.places.dom().contains(id),
        ensures
            1 <= n <= max,
            forall|x: Stamp| #[trigger] spec_covers(id, n, x) ==> !self@.places.dom().contains(x),
    {
        let a = Self::next_from(&self.nodes, id);
        let b = Self::next_from(&self.dead, id);
        let mut n: u64 = max;
        if let Some(x) = a {
            if x < n {
                n = x;
            }
        }
        if let Some(x) = b {
            if x < n {
                n = x;
            }
        }
        proof {
            self.lemma_places(id);
            if n == 0 {
                assert(step(id, 0) == id);
                if self.dead@.dom().contains(id) {
                    assert(spec_covers(id, self.dead@[id].len, id));
                }
            }
            assert forall|x: Stamp| #[trigger] spec_covers(id, n, x)
                implies !self@.places.dom().contains(
                x,
            ) by {
                self.lemma_places(x);
                if dead_at(self.dead@, x) {
                    let h = run_of(self.dead@, x);
                    assert(self.dead@.dom().contains(h) && spec_covers(h, self.dead@[h].len, x));
                    if h.lamport < id.lamport {
                        assert(spec_covers(h, self.dead@[h].len, id));
                    }
                }
            }
        }
        n
    }

    /// Mark another replica's run deleted here: an id this list still holds keeps the
    /// place it recorded, and a stretch it has never seen is adopted in one record.
    fn bury(&mut self, head: Stamp, run: DeadRun)
        requires
            old(self).wf(),
            run.len >= 1,
            head.lamport + run.len - 1 <= u64::MAX,
        ensures
            final(self).wf(),
            final(self)@ == list_bury(old(self)@, head, run),
    {
        let ghost start = self@;
        let len: u64 = run.len;
        let mut i: u64 = 0;
        proof {
            let none = DeadRun { len: 0, anchor: run.anchor };
            assert(list_bury(start, head, none).places =~= start.places);
            assert(list_bury(start, head, none).items =~= start.items);
        }
        while i < len
            invariant
                self.wf(),
                i <= len,
                len == run.len,
                head.lamport + len - 1 <= u64::MAX,
                start == old(self)@,
                self@ == list_bury(start, head, DeadRun { len: i, anchor: run.anchor }),
            decreases len - i,
        {
            let id = run_id(head, i);
            let ghost before = *self;
            let ghost done = DeadRun { len: i, anchor: run.anchor };
            if let Some((h, hrun)) = self.dead_run(id) {
                let k: u64 = hrun.len - (id.lamport - h.lamport);
                let j: u64 = if k >= len - i {
                    len
                } else {
                    i + k
                };
                proof {
                    let more = DeadRun { len: j, anchor: run.anchor };
                    let l = list_bury(start, head, more);
                    assert forall|x: Stamp|
                        spec_covers(head, j, x) && !spec_covers(head, i, x) implies start.is_dead(
                        x,
                    ) && self@.is_dead(x) by {
                        assert(spec_covers(h, hrun.len, x));
                        lemma_run_unique(self.dead@, h, x);
                        self.lemma_places(x);
                    }
                    assert(self@.places =~= l.places);
                    assert(self@.items =~= l.items);
                }
                i = j;
            } else if let Some(n) = self.nodes.remove(&key(id)) {
                proof {
                    before.lemma_places(id);
                    assert forall|x: Stamp| spec_covers(id, 1, x) implies x == id by {
                    }
                    assert(self.wf());
                }
                self.add_dead(id, 1, n.anchor);
                proof {
                    let more = DeadRun { len: (i + 1) as u64, anchor: run.anchor };
                    let l = list_bury(start, head, more);
                    assert forall|x: Stamp| spec_covers(head, more.len, x) <==> (spec_covers(
                        head,
                        i,
                        x,
                    ) || x == id) by {
                    }
                    assert(start.places.dom().contains(id)) by {
                        assert(before@.places.dom().contains(id));
                        assert(!spec_covers(head, i, id));
                    }
                    assert(self@.places =~= before@.places);
                    assert(self@.items =~= before@.items.remove(id));
                    assert(run_places(head, more).dom() =~= run_places(head, done).dom().insert(
                        id,
                    ));
                    assert(before@.places =~= l.places);
                    assert(before@.items.remove(id) =~= l.items);
                }
                i += 1;
            } else {
                proof {
                    before.lemma_places(id);
                    assert(self.nodes@ =~= before.nodes@);
                    self.lemma_places(id);
                    assert(self@.places =~= before@.places);
                    assert(self@.items =~= before@.items);
                }
                let unseen: u64 = self.unseen_from(id, len - i);
                let anchor = if i == 0 {
                    run.anchor
                } else {
                    Anchor { parent: Some(run_id(head, i - 1)), side: Side::Right }
                };
                proof {
                    assert forall|x: Stamp| #[trigger]
                        spec_covers(id, unseen, x) implies !dead_at(self.dead@, x)
                        && !self.nodes@.dom().contains(x) by {
                        self.lemma_places(x);
                    }
                }
                self.add_dead(id, unseen, anchor);
                proof {
                    let more = DeadRun { len: (i + unseen) as u64, anchor: run.anchor };
                    let l = list_bury(start, head, more);
                    assert forall|x: Stamp| spec_covers(head, more.len, x) <==> (spec_covers(
                        head,
                        i,
                        x,
                    ) || spec_covers(id, unseen, x)) by {
                    }
                    assert forall|x: Stamp| spec_covers(id, unseen, x) implies run_place(
                        id,
                        anchor,
                        x,
                    ) == run_place(head, run.anchor, x) && !start.places.dom().contains(x) by {
                        if x == id && i > 0 {
                            assert(step(id, -1) == step(head, i - 1));
                        }
                    }
                    let fresh = run_places(id, DeadRun { len: unseen, anchor });
                    assert(self@.places =~= before@.places.union_prefer_right(fresh));
                    assert(run_places(head, more) =~= run_places(head, done).union_prefer_right(
                        fresh,
                    ));
                    assert(before@.places.union_prefer_right(fresh) =~= l.places);
                    assert(self@.items =~= l.items);
                }
                i += unseen;
            }
        }
    }

    /// Fold another replica's sequence in. Delete wins, and it is terminal.
    pub fn merge(&mut self, other: &Self)
        requires
            old(self).wf(),
            other.wf(),
        ensures
            final(self).wf(),
            final(self)@ == list_join(old(self)@, other@),
    {
        let ghost a = self@;
        let ghost e = other.nodes.entries@;
        let mut i: usize = 0;
        proof {
            let l = join_nodes(a, seq_map::<SeqKey, Node>(e.take(0)));
            assert(l.places =~= a.places);
            assert(l.items =~= a.items);
        }
        while i < other.nodes.entries.len()
            invariant
                self.wf(),
                other.wf(),
                a == old(self)@,
                e == other.nodes.entries@,
                i <= e.len(),
                self@ == join_nodes(a, seq_map::<SeqKey, Node>(e.take(i as int))),
            decreases e.len() - i,
        {
            let (k, n) = &other.nodes.entries[i];
            let ghost p = seq_map::<SeqKey, Node>(e.take(i as int));
            let ghost q = seq_map::<SeqKey, Node>(e.take(i + 1));
            proof {
                lemma_take::<SeqKey, Node>(e, i as int);
            }
            if !self.contains(k.id) {
                let ghost before = *self;
                proof {
                    self.lemma_places(k.id);
                }
                let node = Node {
                    value: n.value.clone(),
                    anchor: n.anchor,
                    moved_away: n.moved_away,
                };
                let ghost item = ItemV { value: node.value@, moved_away: node.moved_away };
                self.nodes.insert(*k, node);
                proof {
                    let l = join_nodes(a, q);
                    assert(self@.places =~= before@.places.insert(k.id, n.anchor));
                    assert(self@.items =~= before@.items.insert(k.id, item));
                    assert(anchors_of(q) =~= anchors_of(p).insert(k.id, n.anchor));
                    assert(items_of(q) =~= items_of(p).insert(k.id, item));
                    assert(!a.places.dom().contains(k.id));
                    assert(before@.places.insert(k.id, n.anchor) =~= l.places);
                    assert(before@.items.insert(k.id, item) =~= l.items);
                }
            } else {
                proof {
                    let l = join_nodes(a, q);
                    assert(a.places.dom().contains(k.id));
                    assert(self@.places =~= l.places);
                    assert(self@.items =~= l.items);
                }
            }
            i += 1;
        }
        proof {
            assert(e.take(i as int) =~= e);
        }
        let ghost b = self@;
        let ghost f = other.dead.entries@;
        let mut j: usize = 0;
        proof {
            let l = join_runs(b, seq_map::<SeqKey, DeadRun>(f.take(0)));
            assert(l.places =~= b.places);
            assert(l.items =~= b.items);
        }
        while j < other.dead.entries.len()
            invariant
                self.wf(),
                other.wf(),
                f == other.dead.entries@,
                j <= f.len(),
                self@ == join_runs(b, seq_map::<SeqKey, DeadRun>(f.take(j as int))),
            decreases f.len() - j,
        {
            let (h, run) = other.dead.entries[j];
            let ghost p = seq_map::<SeqKey, DeadRun>(f.take(j as int));
            let ghost q = seq_map::<SeqKey, DeadRun>(f.take(j + 1));
            proof {
                lemma_take::<SeqKey, DeadRun>(f, j as int);
                lemma_entry::<SeqKey, DeadRun>(f, j as int);
                lemma_prefix_of_runs(f, j as int);
                lemma_sub_runs(other.dead@, p, h.id, run);
            }
            self.bury(h.id, run);
            proof {
                lemma_add_run(p, h.id, run);
                let l = join_runs(b, q);
                assert(self@.places =~= l.places);
                assert(self@.items =~= l.items);
            }
            j += 1;
        }
        proof {
            assert(f.take(j as int) =~= f);
            let l = list_join(a, other@);
            assert forall|id: Stamp| #![auto] other@.places.dom().contains(id) <==> (
            other.nodes@.dom().contains(id) || dead_at(other.dead@, id)) by {
                other.lemma_places(id);
            }
            assert(self@.places =~= l.places);
            assert(self@.items =~= l.items);
        }
    }

    /// A copy that is not displaced.
    pub fn deep_clone(&self) -> (l: Self)
        requires
            self.wf(),
        ensures
            l.wf(),
            l@ == (ListV { displaced: false, ..self@ }),
    {
        let mut l = List::new(self.id);
        l.merge(self);
        proof {
            assert(l@.places =~= self@.places);
            assert forall|id: Stamp| #![auto] self@.items.dom().contains(id) implies !self@.is_dead(
                id,
            ) by {
            }
            assert(l@.items =~= self@.items);
        }
        l
    }

    /// Drop every node.
    pub fn clear(&mut self)
        ensures
            final(self).wf(),
            final(self)@ == (ListV { places: Map::empty(), items: Map::empty(), ..old(self)@ }),
    {
        self.nodes = Table::new();
        self.dead = Table::new();
        proof {
            assert(self@.places =~= Map::empty());
            assert(self@.items =~= Map::empty());
        }
    }

    pub fn displace(&mut self)
        requires
            old(self).wf(),
        ensures
            final(self).wf(),
            final(self)@ == (ListV { displaced: true, ..old(self)@ }),
    {
        self.displaced = true;
    }

    /// Re-install a displaced list: it has re-won its slot, retaining its content.
    pub fn reinstate(&mut self)
        requires
            old(self).wf(),
        ensures
            final(self).wf(),
            final(self)@ == (ListV { displaced: false, ..old(self)@ }),
    {
        self.displaced = false;
    }

    pub fn is_displaced(&self) -> (b: bool)
        ensures
            b == self@.displaced,
    {
        self.displaced
    }
}

/// A list with another's nodes folded in, where it has no such id.
spec fn join_nodes(a: ListV, nodes: Map<Stamp, Node>) -> ListV {
    ListV {
        places: anchors_of(nodes).union_prefer_right(a.places),
        items: items_of(nodes).remove_keys(a.places.dom()).union_prefer_right(a.items),
        ..a
    }
}

/// A list with another's deleted ids folded in.
spec fn join_runs(a: ListV, dead: Map<Stamp, DeadRun>) -> ListV {
    ListV {
        places: expand(dead).union_prefer_right(a.places),
        items: a.items.remove_keys(expand(dead).dom()),
        ..a
    }
}

/// A further run of well-formed runs shares no id with some of the others.
pub(crate) proof fn lemma_sub_runs(
    dead: Map<Stamp, DeadRun>,
    part: Map<Stamp, DeadRun>,
    head: Stamp,
    run: DeadRun,
)
    requires
        runs_ok(dead),
        dead.dom().contains(head),
        run == dead[head],
        !part.dom().contains(head),
        forall|h: Stamp| #[trigger]
            part.dom().contains(h) ==> dead.dom().contains(h) && part[h] == dead[h],
    ensures
        runs_ok(part),
        forall|id: Stamp| #[trigger] spec_covers(head, run.len, id) ==> !dead_at(part, id),
        run.len >= 1,
        head.lamport + run.len - 1 <= u64::MAX,
{
    assert forall|id: Stamp| #[trigger] spec_covers(head, run.len, id) implies !dead_at(part, id) by {
        if dead_at(part, id) {
            let h = run_of(part, id);
            assert(part.dom().contains(h) && spec_covers(h, part[h].len, id));
            lemma_run_unique(dead, h, id);
            lemma_run_unique(dead, head, id);
        }
    }
}

/// What the first entries hold is part of what all hold.
pub(crate) proof fn lemma_prefix_of_runs(f: Seq<(SeqKey, DeadRun)>, j: int)
    requires
        sorted(f),
        0 <= j <= f.len(),
    ensures
        ({
            let part = seq_map::<SeqKey, DeadRun>(f.take(j));
            let all = seq_map::<SeqKey, DeadRun>(f);
            forall|h: Stamp| #[trigger]
                part.dom().contains(h) ==> all.dom().contains(h) && part[h] == all[h]
        }),
{
    let part = seq_map::<SeqKey, DeadRun>(f.take(j));
    let all = seq_map::<SeqKey, DeadRun>(f);
    assert(sorted(f.take(j))) by {
        if j > 0 {
            lemma_take::<SeqKey, DeadRun>(f, j - 1);
        }
    }
    assert forall|h: Stamp| #[trigger] part.dom().contains(h) implies all.dom().contains(h)
        && part[h] == all[h] by {
        let x = index_of::<SeqKey, DeadRun>(f.take(j), h);
        assert(f.take(j)[x].0@ == h);
        lemma_entry::<SeqKey, DeadRun>(f.take(j), x);
        lemma_entry::<SeqKey, DeadRun>(f, x);
    }
}

// --- contended ids ---

/// Whether anchor `a` comes before `b`: by parent, the root first, then by side.
pub open spec fn anchor_lt(a: Anchor, b: Anchor) -> bool {
    match (a.parent, b.parent) {
        (None, Some(_)) => true,
        (Some(_), None) => false,
        (None, None) => a.side == Side::Left && b.side == Side::Right,
        (Some(x), Some(y)) => stamp_lt(x, y) || (x == y && a.side == Side::Left && b.side
            == Side::Right),
    }
}

/// Whether anchor `a` comes before `b`.
fn anchor_less(a: &Anchor, b: &Anchor) -> (r: bool)
    ensures
        r == anchor_lt(*a, *b),
{
    match (a.parent, b.parent) {
        (None, Some(_)) => true,
        (Some(_), None) => false,
        (None, None) => a.side == Side::Left && b.side == Side::Right,
        (Some(x), Some(y)) => y.gt(&x) || (x == y && a.side == Side::Left && b.side == Side::Right),
    }
}

/// The list after `id` is given over to `value` at `anchor`, whatever it held before. A
/// deleted id stays deleted.
pub open spec fn list_reseat(l: ListV, id: Stamp, value: ElementV, anchor: Anchor) -> ListV {
    if l.is_dead(id) {
        l
    } else {
        ListV {
            places: l.places.insert(id, anchor),
            items: l.items.insert(id, ItemV { value, moved_away: false }),
            ..l
        }
    }
}

/// The list after a second claim on `id` for the same value: the place is the first of
/// the two in anchor order, whichever claim came first.
pub open spec fn list_rejoin(l: ListV, id: Stamp, value: ElementV, anchor: Anchor) -> ListV {
    list_reseat(
        l,
        id,
        value,
        if l.items.dom().contains(id) && anchor_lt(l.places[id], anchor) {
            l.places[id]
        } else {
            anchor
        },
    )
}

impl List {
    /// Give `id` over to `value` at `anchor`.
    pub(crate) fn reseat(&mut self, id: Stamp, value: Element, anchor: Anchor)
        requires
            old(self).wf(),
        ensures
            final(self).wf(),
            final(self)@ == list_reseat(old(self)@, id, value@, anchor),
    {
        proof {
            self.lemma_places(id);
        }
        if self.is_tombstoned(id) {
            return;
        }
        let ghost before = *self;
        self.nodes.insert(key(id), Node { value, anchor, moved_away: false });
        proof {
            assert forall|x: Stamp| #[trigger] self.nodes@.dom().contains(x) implies !dead_at(
                self.dead@,
                x,
            ) by {
                before.lemma_places(x);
            }
            let want = list_reseat(before@, id, value@, anchor);
            assert(self@.places =~= want.places);
            assert(self@.items =~= want.items);
        }
    }

    /// Settle a second claim on `id` for the same value.
    pub(crate) fn rejoin(&mut self, id: Stamp, value: Element, anchor: Anchor)
        requires
            old(self).wf(),
        ensures
            final(self).wf(),
            final(self)@ == list_rejoin(old(self)@, id, value@, anchor),
    {
        proof {
            self.lemma_places(id);
        }
        let at = match self.nodes.get(&key(id)) {
            Some(node) => if anchor_less(&node.anchor, &anchor) {
                node.anchor
            } else {
                anchor
            },
            None => anchor,
        };
        self.reseat(id, value, at);
    }
}

/// Two claims on one id settle the same way in either order.
pub proof fn law_claims_meet(l: ListV, id: Stamp, value: ElementV, a: Anchor, b: Anchor)
    requires
        l.items.dom().contains(id) ==> l.places.dom().contains(id),
    ensures
        list_rejoin(list_rejoin(l, id, value, a), id, value, b) == list_rejoin(
            list_rejoin(l, id, value, b),
            id,
            value,
            a,
        ),
{
    let x = list_rejoin(list_rejoin(l, id, value, a), id, value, b);
    let y = list_rejoin(list_rejoin(l, id, value, b), id, value, a);
    assert(x.places =~= y.places);
    assert(x.items =~= y.items);
}

} // verus!
