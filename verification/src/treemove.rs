//! The tree-move log (Kleppmann): where every node was created, and the moves since, in
//! stamp order.
//!
//! A node's effective parent is what the moves leave when replayed in stamp order over the
//! created-under relation, each move that would put a node under itself skipped. It is a
//! function of the moves alone, so the order in which they arrive does not matter.

use crate::elementid::ElementId;
use crate::order::{ascends, in_order, lemma_ascends_unique, lemma_in_order};
use crate::stamp::{stamp_lt, Stamp};
use crate::table::{lemma_entry, lemma_ordered, lemma_size, seq_keys, seq_map, Key, Table};
use vstd::prelude::*;

verus! {

/// One recorded move: `child` goes under `parent`.
#[derive(Clone, Copy, PartialEq, Eq, Debug, Structural)]
pub struct MoveEdge {
    pub child: ElementId,
    pub parent: ElementId,
}

/// Where nodes were created and how they moved.
pub struct TreeMoves {
    pub base: Table<ElementId, ElementId>,
    pub log: Table<Stamp, MoveEdge>,
}

/// The same, by value.
#[verifier::ext_equal]
pub struct MovesV {
    pub base: Map<ElementId, ElementId>,
    pub log: Map<Stamp, MoveEdge>,
}

impl View for TreeMoves {
    type V = MovesV;

    open spec fn view(&self) -> MovesV {
        MovesV { base: self.base@, log: self.log@ }
    }
}

/// Whether `to` is `from` or one of the parents above it, at most `fuel` of them.
pub open spec fn is_above(
    tree: Map<ElementId, ElementId>,
    from: ElementId,
    to: ElementId,
    fuel: nat,
) -> bool
    decreases fuel,
{
    from == to || (fuel > 0 && tree.dom().contains(from) && is_above(
        tree,
        tree[from],
        to,
        (fuel - 1) as nat,
    ))
}

/// The tree after one move, unless it would put the node under itself.
pub open spec fn move_step(tree: Map<ElementId, ElementId>, e: MoveEdge) -> Map<
    ElementId,
    ElementId,
> {
    if is_above(tree, e.parent, e.child, tree.dom().len()) {
        tree
    } else {
        tree.insert(e.child, e.parent)
    }
}

/// The tree after the moves with these stamps, in turn.
pub open spec fn replay_moves(
    base: Map<ElementId, ElementId>,
    log: Map<Stamp, MoveEdge>,
    stamps: Seq<Stamp>,
) -> Map<ElementId, ElementId>
    decreases stamps.len(),
{
    if stamps.len() == 0 {
        base
    } else {
        move_step(replay_moves(base, log, stamps.drop_last()), log[stamps.last()])
    }
}

impl MovesV {
    pub open spec fn empty() -> MovesV {
        MovesV { base: Map::empty(), log: Map::empty() }
    }

    /// Every node's effective parent.
    pub open spec fn tree(self) -> Map<ElementId, ElementId> {
        replay_moves(self.base, self.log, in_order(self.log.dom()))
    }

    pub open spec fn set_base(self, child: ElementId, parent: ElementId) -> MovesV {
        MovesV { base: self.base.insert(child, parent), ..self }
    }

    /// A move recorded; one at a stamp already in the log is the same move seen again.
    pub open spec fn apply(self, stamp: Stamp, child: ElementId, parent: ElementId) -> MovesV {
        if self.log.dom().contains(stamp) {
            self
        } else {
            MovesV { log: self.log.insert(stamp, MoveEdge { child, parent }), ..self }
        }
    }

    /// A move withdrawn, if the log holds exactly it.
    pub open spec fn remove(self, stamp: Stamp, child: ElementId, parent: ElementId) -> MovesV {
        if self.log.dom().contains(stamp) && self.log[stamp] == (MoveEdge { child, parent }) {
            MovesV { log: self.log.remove(stamp), ..self }
        } else {
            self
        }
    }
}

/// A step of the replay keeps the tree finite.
pub(crate) proof fn lemma_tree_finite(
    base: Map<ElementId, ElementId>,
    log: Map<Stamp, MoveEdge>,
    stamps: Seq<Stamp>,
)
    requires
        base.dom().finite(),
    ensures
        replay_moves(base, log, stamps).dom().finite(),
    decreases stamps.len(),
{
    if stamps.len() > 0 {
        lemma_tree_finite(base, log, stamps.drop_last());
    }
}

impl TreeMoves {
    pub open spec fn wf(&self) -> bool {
        self.base.wf() && self.log.wf()
    }

    pub fn new() -> (m: Self)
        ensures
            m.wf(),
            m@ == MovesV::empty(),
    {
        TreeMoves { base: Table::new(), log: Table::new() }
    }

    /// Record where a node was created.
    pub fn set_base(&mut self, child: ElementId, parent: ElementId)
        requires
            old(self).wf(),
        ensures
            final(self).wf(),
            final(self)@ == old(self)@.set_base(child, parent),
    {
        self.base.insert(child, parent);
    }

    /// Record a move.
    pub fn apply(&mut self, stamp: Stamp, child: ElementId, parent: ElementId)
        requires
            old(self).wf(),
        ensures
            final(self).wf(),
            final(self)@ == old(self)@.apply(stamp, child, parent),
    {
        if !self.log.contains_key(&stamp) {
            self.log.insert(stamp, MoveEdge { child, parent });
        }
    }

    /// Withdraw a move.
    pub fn remove(&mut self, stamp: Stamp, child: ElementId, parent: ElementId)
        requires
            old(self).wf(),
        ensures
            final(self).wf(),
            final(self)@ == old(self)@.remove(stamp, child, parent),
    {
        let found = match self.log.get(&stamp) {
            Some(e) => e.child == child && e.parent == parent,
            None => false,
        };
        if found {
            self.log.remove(&stamp);
        }
    }

    /// How many moves the log holds.
    pub fn len(&self) -> (n: usize)
        requires
            self.wf(),
        ensures
            n == self@.log.dom().len(),
    {
        self.log.len()
    }

    /// The entries of the log stand in stamp order.
    pub proof fn lemma_log_order(&self)
        requires
            self.wf(),
        ensures
            seq_keys(self.log.entries@) == in_order(self@.log.dom()),
            self@.log.dom().finite(),
    {
        let e = self.log.entries@;
        lemma_ordered::<Stamp, MoveEdge>(e);
        lemma_size::<Stamp, MoveEdge>(e);
        let q = seq_keys(e);
        assert(ascends(q)) by {
            assert forall|i: int, j: int| 0 <= i < j < q.len() implies stamp_lt(
                #[trigger] q[i],
                #[trigger] q[j],
            ) by {
                assert(<Stamp as Key>::before(q[i], q[j]));
            }
        }
        lemma_in_order(self@.log.dom());
        lemma_ascends_unique(q, in_order(self@.log.dom()));
    }

    /// Every node's effective parent.
    pub fn tree(&self) -> (t: Table<ElementId, ElementId>)
        requires
            self.wf(),
        ensures
            t.wf(),
            t@ == self@.tree(),
    {
        let mut t: Table<ElementId, ElementId> = copy_links(&self.base);
        let mut i: usize = 0;
        let ghost e = self.log.entries@;
        let ghost q = seq_keys(e);
        proof {
            self.lemma_log_order();
            assert(q.take(0) =~= Seq::empty());
        }
        while i < self.log.entries.len()
            invariant
                self.wf(),
                t.wf(),
                e == self.log.entries@,
                q == seq_keys(e),
                i <= e.len(),
                t@ == replay_moves(self@.base, self@.log, q.take(i as int)),
            decreases e.len() - i,
        {
            let edge = self.log.entries[i].1;
            proof {
                assert(q.take(i + 1).drop_last() =~= q.take(i as int));
                lemma_entry::<Stamp, MoveEdge>(e, i as int);
                assert(q.take(i + 1).last() == e[i as int].0@);
            }
            let n = t.len();
            if !above(&t, edge.parent, edge.child, n) {
                t.insert(edge.child, edge.parent);
            }
            i += 1;
        }
        proof {
            assert(q.take(i as int) =~= q);
        }
        t
    }

    /// A node's effective parent: where its moves left it, else where it was created.
    pub fn parent_of(&self, node: ElementId) -> (p: Option<ElementId>)
        requires
            self.wf(),
        ensures
            p == link_of(self@.tree(), node),
    {
        let t = self.tree();
        match t.get(&node) {
            Some(p) => Some(*p),
            None => None,
        }
    }
}

/// Where a link leads.
pub open spec fn link_of(links: Map<ElementId, ElementId>, node: ElementId) -> Option<ElementId> {
    if links.dom().contains(node) {
        Some(links[node])
    } else {
        None
    }
}

/// Whether `to` is `from` or above it, within `fuel` steps.
fn above(t: &Table<ElementId, ElementId>, from: ElementId, to: ElementId, fuel: usize) -> (b: bool)
    requires
        t.wf(),
    ensures
        b == is_above(t@, from, to, fuel as nat),
{
    let mut cur = from;
    let mut left: usize = fuel;
    loop
        invariant
            t.wf(),
            is_above(t@, from, to, fuel as nat) == is_above(t@, cur, to, left as nat),
        decreases left,
    {
        if cur == to {
            return true;
        }
        if left == 0 {
            return false;
        }
        match t.get(&cur) {
            Some(p) => {
                cur = *p;
            },
            None => {
                return false;
            },
        }
        left -= 1;
    }
}

/// A copy of a table of links.
pub(crate) fn copy_links(t: &Table<ElementId, ElementId>) -> (r: Table<ElementId, ElementId>)
    requires
        t.wf(),
    ensures
        r.wf(),
        r@ == t@,
{
    let mut r: Table<ElementId, ElementId> = Table::new();
    let mut i: usize = 0;
    let ghost e = t.entries@;
    proof {
        assert(seq_map::<ElementId, ElementId>(e.take(0)) =~= Map::empty());
    }
    while i < t.entries.len()
        invariant
            t.wf(),
            r.wf(),
            e == t.entries@,
            i <= e.len(),
            r@ == seq_map::<ElementId, ElementId>(e.take(i as int)),
        decreases e.len() - i,
    {
        proof {
            crate::table::lemma_take::<ElementId, ElementId>(e, i as int);
        }
        r.insert(t.entries[i].0, t.entries[i].1);
        i += 1;
    }
    proof {
        assert(e.take(i as int) =~= e);
    }
    r
}

// --- laws ---

/// Whether following links from every node ends, within as many steps as there are links.
pub open spec fn acyclic(tree: Map<ElementId, ElementId>) -> bool {
    forall|x: ElementId, k: nat| k > 0 ==> !#[trigger] climbs(tree, x, x, k)
}

/// Whether exactly `k` links lead from `from` to `to`.
pub open spec fn climbs(
    tree: Map<ElementId, ElementId>,
    from: ElementId,
    to: ElementId,
    k: nat,
) -> bool
    decreases k,
{
    if k == 0 {
        from == to
    } else {
        tree.dom().contains(from) && climbs(tree, tree[from], to, (k - 1) as nat)
    }
}

/// The moves recorded do not depend on the order in which two of them arrive.
pub proof fn law_moves_commute(
    m: MovesV,
    s1: Stamp,
    c1: ElementId,
    p1: ElementId,
    s2: Stamp,
    c2: ElementId,
    p2: ElementId,
)
    requires
        s1 != s2,
    ensures
        m.apply(s1, c1, p1).apply(s2, c2, p2) == m.apply(s2, c2, p2).apply(s1, c1, p1),
        m.apply(s1, c1, p1).apply(s2, c2, p2).tree() == m.apply(s2, c2, p2).apply(
            s1,
            c1,
            p1,
        ).tree(),
{
    assert(m.apply(s1, c1, p1).apply(s2, c2, p2) =~= m.apply(s2, c2, p2).apply(s1, c1, p1));
}

/// A move seen again changes nothing.
pub proof fn law_moves_are_idempotent(m: MovesV, s: Stamp, c: ElementId, p: ElementId)
    ensures
        m.apply(s, c, p).apply(s, c, p) == m.apply(s, c, p),
{
}

/// Replaying moves over a tree without loops leaves a tree without loops.
pub proof fn law_moves_never_close_a_loop(m: MovesV)
    requires
        m.base.dom().finite(),
        acyclic(m.base),
    ensures
        acyclic(m.tree()),
{
    lemma_replay_acyclic(m.base, m.log, in_order(m.log.dom()));
}

proof fn lemma_replay_acyclic(
    base: Map<ElementId, ElementId>,
    log: Map<Stamp, MoveEdge>,
    stamps: Seq<Stamp>,
)
    requires
        base.dom().finite(),
        acyclic(base),
    ensures
        acyclic(replay_moves(base, log, stamps)),
    decreases stamps.len(),
{
    if stamps.len() > 0 {
        lemma_replay_acyclic(base, log, stamps.drop_last());
        lemma_tree_finite(base, log, stamps.drop_last());
        let t = replay_moves(base, log, stamps.drop_last());
        let e = log[stamps.last()];
        if !is_above(t, e.parent, e.child, t.dom().len()) {
            let u = t.insert(e.child, e.parent);
            assert forall|x: ElementId, k: nat| k > 0 implies !#[trigger] climbs(u, x, x, k) by {
                if climbs(u, x, x, k) {
                    if x == e.child {
                        let j = lemma_split(t, e, e.parent, x, (k - 1) as nat);
                        lemma_above_bounded(t, e.parent, e.child, j);
                    } else {
                        lemma_loop_meets(t, e, x, x, k);
                        if !climbs(t, x, x, k) {
                            let j = lemma_rejoin(t, e, x, x, k);
                            lemma_above_bounded(t, e.parent, e.child, j);
                        }
                    }
                }
            }
        }
    }
}

/// A climb in the new tree is one in the old tree, or passes the moved node.
proof fn lemma_loop_meets(
    t: Map<ElementId, ElementId>,
    e: MoveEdge,
    from: ElementId,
    to: ElementId,
    k: nat,
)
    requires
        climbs(t.insert(e.child, e.parent), from, to, k),
    ensures
        climbs(t, from, to, k) || exists|j: nat| j < k && #[trigger] climbs(t, from, e.child, j),
    decreases k,
{
    if k > 0 {
        if from == e.child {
            assert(climbs(t, from, e.child, 0));
        } else {
            lemma_loop_meets(t, e, t[from], to, (k - 1) as nat);
            if !climbs(t, from, to, k) {
                let j = choose|j: nat| j < k - 1 && #[trigger] climbs(t, t[from], e.child, j);
                assert(climbs(t, from, e.child, j + 1));
            }
        }
    }
}

/// A climb in the new tree that ends at the moved node first meets it in the old tree.
proof fn lemma_split(
    t: Map<ElementId, ElementId>,
    e: MoveEdge,
    from: ElementId,
    to: ElementId,
    k: nat,
) -> (j: nat)
    requires
        to == e.child,
        climbs(t.insert(e.child, e.parent), from, to, k),
    ensures
        climbs(t, from, e.child, j),
{
    lemma_loop_meets(t, e, from, to, k);
    if climbs(t, from, to, k) {
        k
    } else {
        choose|j: nat| j < k && #[trigger] climbs(t, from, e.child, j)
    }
}

/// A loop in the new tree through a node other than the moved one climbs from the new
/// parent to the moved node in the old tree.
proof fn lemma_rejoin(
    t: Map<ElementId, ElementId>,
    e: MoveEdge,
    from: ElementId,
    to: ElementId,
    k: nat,
) -> (j: nat)
    requires
        climbs(t.insert(e.child, e.parent), from, to, k),
        exists|j: nat| j < k && #[trigger] climbs(t, from, e.child, j),
        from == to,
        from != e.child,
    ensures
        climbs(t, e.parent, e.child, j),
{
    let u = t.insert(e.child, e.parent);
    let a = lemma_first_meet(t, e, from, choose|j: nat| j < k && #[trigger] climbs(t, from, e.child, j));
    // `a` steps lead to the moved node in both trees; the next step is the new link.
    lemma_climb_on(u, from, e.child, a, to, k);
    assert(climbs(u, e.child, to, (k - a) as nat));
    assert(climbs(u, e.parent, to, (k - a - 1) as nat));
    lemma_climb_join(u, e.parent, to, (k - a - 1) as nat, e.child, a);
    lemma_split(t, e, e.parent, e.child, (k - a - 1 + a) as nat)
}

/// The first time a climb in the old tree meets the moved node, it is a climb in the new
/// tree too.
proof fn lemma_first_meet(t: Map<ElementId, ElementId>, e: MoveEdge, from: ElementId, j: nat) -> (a:
    nat)
    requires
        climbs(t, from, e.child, j),
    ensures
        a <= j,
        climbs(t.insert(e.child, e.parent), from, e.child, a),
        from != e.child ==> a > 0,
    decreases j,
{
    if from == e.child {
        0
    } else {
        let b = lemma_first_meet(t, e, t[from], (j - 1) as nat);
        b + 1
    }
}

/// The rest of a climb past a place it leads to.
proof fn lemma_climb_on(
    t: Map<ElementId, ElementId>,
    from: ElementId,
    mid: ElementId,
    a: nat,
    to: ElementId,
    k: nat,
)
    requires
        climbs(t, from, mid, a),
        climbs(t, from, to, k),
        a <= k,
    ensures
        climbs(t, mid, to, (k - a) as nat),
    decreases a,
{
    if a > 0 {
        lemma_climb_on(t, t[from], mid, (a - 1) as nat, to, (k - 1) as nat);
    }
}

/// One climb after another.
pub(crate) proof fn lemma_climb_join(
    t: Map<ElementId, ElementId>,
    from: ElementId,
    mid: ElementId,
    a: nat,
    to: ElementId,
    b: nat,
)
    requires
        climbs(t, from, mid, a),
        climbs(t, mid, to, b),
    ensures
        climbs(t, from, to, a + b),
    decreases a,
{
    if a > 0 {
        lemma_climb_join(t, t[from], mid, (a - 1) as nat, to, b);
    }
}

/// In a tree without loops nothing is further up than there are links, so a bounded walk
/// finds it.
pub(crate) proof fn lemma_above_bounded(
    t: Map<ElementId, ElementId>,
    from: ElementId,
    to: ElementId,
    k: nat,
)
    requires
        t.dom().finite(),
        acyclic(t),
        climbs(t, from, to, k),
    ensures
        is_above(t, from, to, t.dom().len()),
{
    lemma_climb_short(t, from, to, k, Set::empty());
    lemma_climb_is_above(t, from, to, k, t.dom().len());
}

proof fn lemma_climb_is_above(
    t: Map<ElementId, ElementId>,
    from: ElementId,
    to: ElementId,
    k: nat,
    fuel: nat,
)
    requires
        climbs(t, from, to, k),
        k <= fuel,
    ensures
        is_above(t, from, to, fuel),
    decreases k,
{
    if k > 0 && from != to {
        lemma_climb_is_above(t, t[from], to, (k - 1) as nat, (fuel - 1) as nat);
    }
}

/// A climb without loops passes each link once.
pub(crate) proof fn lemma_climb_short(
    t: Map<ElementId, ElementId>,
    from: ElementId,
    to: ElementId,
    k: nat,
    past: Set<ElementId>,
)
    requires
        t.dom().finite(),
        acyclic(t),
        climbs(t, from, to, k),
        past.subset_of(t.dom()),
        forall|p: ElementId| #[trigger]
            past.contains(p) ==> exists|j: nat| j > 0 && #[trigger] climbs(t, p, from, j),
    ensures
        k + past.len() <= t.dom().len(),
    decreases k,
{
    vstd::set_lib::lemma_len_subset(past, t.dom());
    if k > 0 {
        if past.contains(from) {
            let j = choose|j: nat| j > 0 && #[trigger] climbs(t, from, from, j);
            assert(!climbs(t, from, from, j));
        }
        let more = past.insert(from);
        let next = t[from];
        assert forall|p: ElementId| #[trigger] more.contains(p) implies exists|j: nat|
            j > 0 && #[trigger] climbs(t, p, next, j) by {
            if p == from {
                assert(climbs(t, next, next, 0));
                assert(climbs(t, from, next, 1));
            } else {
                let j = choose|j: nat| j > 0 && #[trigger] climbs(t, p, from, j);
                assert(climbs(t, next, next, 0));
                assert(climbs(t, from, next, 1));
                lemma_climb_join(t, p, from, j, next, 1);
                assert(climbs(t, p, next, j + 1));
            }
        }
        lemma_climb_short(t, next, to, (k - 1) as nat, more);
    }
}

// --- nodes that nothing moved hangs off ---

impl MovesV {
    /// Whether a node was not created here, nothing was created under it, and no move
    /// speaks of it.
    pub open spec fn unhung(self, x: ElementId) -> bool {
        &&& !self.base.dom().contains(x)
        &&& forall|y: ElementId| #[trigger] self.base.dom().contains(y) ==> self.base[y] != x
        &&& forall|s: Stamp| #[trigger]
            self.log.dom().contains(s) ==> self.log[s].child != x && self.log[s].parent != x
    }
}

/// Whether a tree neither holds nor leads to any of the nodes that `more` adds to `base`.
spec fn clear_of(
    t: Map<ElementId, ElementId>,
    base: Map<ElementId, ElementId>,
    more: Map<ElementId, ElementId>,
) -> bool {
    &&& base.dom().subset_of(t.dom())
    &&& forall|x: ElementId| #[trigger]
        t.dom().contains(x) ==> (more.dom().contains(x) ==> base.dom().contains(x)) && (
        more.dom().contains(t[x]) ==> base.dom().contains(t[x]))
}

/// A walk that starts outside the added nodes does not meet them.
proof fn lemma_walk_clear(
    t: Map<ElementId, ElementId>,
    base: Map<ElementId, ElementId>,
    more: Map<ElementId, ElementId>,
    from: ElementId,
    to: ElementId,
    fuel: nat,
)
    requires
        clear_of(t, base, more),
        more.dom().contains(from) ==> base.dom().contains(from),
    ensures
        is_above(more.union_prefer_right(t), from, to, fuel) == is_above(t, from, to, fuel),
    decreases fuel,
{
    let u = more.union_prefer_right(t);
    if fuel > 0 {
        assert(u.dom().contains(from) == t.dom().contains(from));
        if t.dom().contains(from) {
            lemma_walk_clear(t, base, more, t[from], to, (fuel - 1) as nat);
        }
    }
}

/// What a bounded walk finds is some links up.
pub(crate) proof fn lemma_above_climbs(
    t: Map<ElementId, ElementId>,
    from: ElementId,
    to: ElementId,
    fuel: nat,
) -> (k: nat)
    requires
        is_above(t, from, to, fuel),
    ensures
        k <= fuel,
        climbs(t, from, to, k),
    decreases fuel,
{
    if from == to {
        0
    } else {
        let k = lemma_above_climbs(t, t[from], to, (fuel - 1) as nat);
        k + 1
    }
}

/// Added nodes that no move meets leave the replay as it was, beside them.
proof fn lemma_replay_beside(
    m: MovesV,
    more: Map<ElementId, ElementId>,
    stamps: Seq<Stamp>,
)
    requires
        m.base.dom().finite(),
        more.dom().finite(),
        acyclic(m.base),
        m.base.submap_of(more),
        forall|x: ElementId| #[trigger]
            more.dom().contains(x) && !m.base.dom().contains(x) ==> m.unhung(x),
        forall|i: int| 0 <= i < stamps.len() ==> m.log.dom().contains(#[trigger] stamps[i]),
    ensures
        replay_moves(more, m.log, stamps) == more.union_prefer_right(
            replay_moves(m.base, m.log, stamps),
        ),
        clear_of(replay_moves(m.base, m.log, stamps), m.base, more),
    decreases stamps.len(),
{
    if stamps.len() == 0 {
        assert forall|x: ElementId| m.base.dom().contains(x) implies more.dom().contains(x)
            && more[x] == m.base[x] by {}
        assert(more.union_prefer_right(m.base) =~= more);
        assert forall|x: ElementId| #[trigger] m.base.dom().contains(x) implies (
        more.dom().contains(m.base[x]) ==> m.base.dom().contains(m.base[x])) by {
            let y = m.base[x];
            if more.dom().contains(y) && !m.base.dom().contains(y) {
                assert(m.unhung(y));
            }
        }
    } else {
        let h = stamps.drop_last();
        assert forall|i: int| 0 <= i < h.len() implies m.log.dom().contains(#[trigger] h[i]) by {
            assert(h[i] == stamps[i]);
        }
        lemma_replay_beside(m, more, h);
        lemma_tree_finite(m.base, m.log, h);
        lemma_tree_finite(more, m.log, h);
        lemma_replay_acyclic(m.base, m.log, h);
        let t = replay_moves(m.base, m.log, h);
        let u = replay_moves(more, m.log, h);
        let s = stamps.last();
        assert(s == stamps[stamps.len() - 1]);
        let e = m.log[s];
        if more.dom().contains(e.parent) && !m.base.dom().contains(e.parent) {
            assert(m.unhung(e.parent));
        }
        if more.dom().contains(e.child) && !m.base.dom().contains(e.child) {
            assert(m.unhung(e.child));
        }
        assert(t.dom().subset_of(u.dom()));
        vstd::set_lib::lemma_len_subset(t.dom(), u.dom());
        let far = u.dom().len();
        let near = t.dom().len();
        lemma_walk_clear(t, m.base, more, e.parent, e.child, far);
        if is_above(t, e.parent, e.child, far) {
            let k = lemma_above_climbs(t, e.parent, e.child, far);
            lemma_above_bounded(t, e.parent, e.child, k);
        }
        if is_above(t, e.parent, e.child, near) {
            let k = lemma_above_climbs(t, e.parent, e.child, near);
            lemma_climb_is_above(t, e.parent, e.child, k, far);
        }
        assert(is_above(u, e.parent, e.child, far) == is_above(t, e.parent, e.child, near));
        assert(more.union_prefer_right(t).insert(e.child, e.parent) =~= more.union_prefer_right(
            t.insert(e.child, e.parent),
        ));
    }
}

/// Nodes created where nothing hangs off them leave every other node's effective parent
/// as it was.
pub(crate) proof fn lemma_added_leaves(m: MovesV, more: Map<ElementId, ElementId>)
    requires
        m.base.dom().finite(),
        m.log.dom().finite(),
        more.dom().finite(),
        acyclic(m.base),
        m.base.submap_of(more),
        forall|x: ElementId| #[trigger]
            more.dom().contains(x) && !m.base.dom().contains(x) ==> m.unhung(x),
    ensures
        ({
            let t = m.tree();
            let u = MovesV { base: more, ..m }.tree();
            forall|n: ElementId| #[trigger]
                m.base.dom().contains(n) ==> t.dom().contains(n) && u.dom().contains(n) && t[n]
                    == u[n]
        }),
        ({
            let u = MovesV { base: more, ..m }.tree();
            forall|n: ElementId| #[trigger]
                more.dom().contains(n) && !m.base.dom().contains(n) ==> u.dom().contains(n) && u[n]
                    == more[n]
        }),
{
    let q = in_order(m.log.dom());
    lemma_in_order(m.log.dom());
    assert forall|i: int| 0 <= i < q.len() implies m.log.dom().contains(#[trigger] q[i]) by {
        assert(q.to_set().contains(q[i]));
    }
    lemma_replay_beside(m, more, q);
}

} // verus!
