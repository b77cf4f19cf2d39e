//! Text: a sequence of codepoints, each an item of a [`List`] with an id of its own.
//!
//! A run of text takes consecutive ids from its op's stamp, the first codepoint where the
//! op says and every later one right after its predecessor.

use crate::anchor::{Anchor, RelativePosition, Side};
use crate::codec::{reads_view, Cursor, DecodeError};
use crate::element::{Element, ElementV};
use crate::elementid::ElementId;
use crate::format::Parsed;
use crate::list::{list_delete, list_insert, List, ListV, Node, SeqKey};
use crate::list_laws::{
    law_delete_removes_only_its_item, law_order_has_no_repeats, law_placement_lands, lemma_gap,
    lemma_live_no_dup, lemma_live_one, lemma_live_same, lemma_order_depth, lemma_order_spliced,
    lemma_spliced_at, lone,
};
use crate::list_state::{enc_list, list_fits, parse_list};
use crate::order::order;
use crate::scalar::{Scalar, ScalarV};
use crate::sequence::{
    gap_at, lemma_live_ids_concat, lemma_live_in_items, list_live, list_place, list_values,
    live_ids, live_set, position_at, resolved,
};
use crate::stamp::{stamp_lt, Stamp};
use crate::table::lemma_entry;
use vstd::prelude::*;
use vstd::utf8::is_scalar;

verus! {

/// A text: the sequence of its codepoints.
pub struct Text {
    pub seq: List,
}

impl View for Text {
    type V = ListV;

    open spec fn view(&self) -> ListV {
        self.seq@
    }
}

/// The item that holds a codepoint.
pub open spec fn char_item(c: char) -> ElementV {
    ElementV::Scalar(ScalarV::Int(c as u32 as i64))
}

/// Whether an item holds a codepoint.
pub open spec fn is_char_item(v: ElementV) -> bool {
    v matches ElementV::Scalar(ScalarV::Int(n)) && 0 <= n <= u32::MAX && is_scalar(n as u32)
}

/// The codepoint an item holds.
pub open spec fn item_char(v: ElementV) -> char {
    match v {
        ElementV::Scalar(ScalarV::Int(n)) => n as u32 as char,
        _ => ' ',
    }
}

/// Whether every item of a sequence is a codepoint.
pub open spec fn only_chars(l: ListV) -> bool {
    forall|id: Stamp| #[trigger] l.items.dom().contains(id) ==> is_char_item(l.items[id].value)
}

/// The text a sequence of codepoints spells.
pub open spec fn text_of(l: ListV) -> Seq<char> {
    list_values(l).map_values(|v: ElementV| item_char(v))
}

/// Where codepoint `i` of a run attaches.
#[verifier::opaque]
pub open spec fn run_anchor(stamp: Stamp, anchor: Anchor, i: int) -> Anchor {
    if i == 0 {
        anchor
    } else {
        Anchor { parent: Some(stamp.spec_run_member((i - 1) as u64)), side: Side::Right }
    }
}

/// The sequence after the first `n` codepoints of a run.
pub open spec fn insert_upto(l: ListV, stamp: Stamp, s: Seq<char>, anchor: Anchor, n: nat) -> ListV
    decreases n,
{
    if n == 0 {
        l
    } else {
        list_insert(
            insert_upto(l, stamp, s, anchor, (n - 1) as nat),
            stamp.spec_run_member((n - 1) as u64),
            char_item(s[n - 1]),
            run_anchor(stamp, anchor, n - 1),
        )
    }
}

/// The sequence after a run is inserted.
pub open spec fn text_insert(l: ListV, stamp: Stamp, s: Seq<char>, anchor: Anchor) -> ListV {
    insert_upto(l, stamp, s, anchor, s.len())
}

/// The sequence after items are deleted.
pub open spec fn text_delete(l: ListV, ids: Seq<Stamp>) -> ListV
    decreases ids.len(),
{
    if ids.len() == 0 {
        l
    } else {
        list_delete(text_delete(l, ids.drop_last()), ids.last())
    }
}

/// Reads a text: a list whose items are all codepoints.
pub open spec fn parse_text_state(s: Seq<u8>) -> Parsed<ListV> {
    match parse_list(s) {
        Err(e) => Err(e),
        Ok((l, r)) => if only_chars(l) {
            Ok((l, r))
        } else {
            Err(DecodeError::BadTag { what: "text: item is no codepoint", tag: 0 })
        },
    }
}

/// A codepoint's item.
fn item_of(c: char) -> (e: Element)
    ensures
        e@ == char_item(c),
        is_char_item(e@),
        item_char(e@) == c,
{
    let n: u32 = c as u32;
    proof {
        assert(is_scalar(n));
        assert(n as char == c);
    }
    Element::Scalar(Scalar::Int(n as i64))
}

/// The codepoint an item holds, if it holds one.
pub(crate) fn char_of(e: &Element) -> (c: Option<char>)
    ensures
        c is Some == is_char_item(e@),
        c matches Some(c) ==> c == item_char(e@),
{
    match e {
        Element::Scalar(Scalar::Int(n)) => {
            if *n < 0 || *n > u32::MAX as i64 {
                None
            } else {
                char::from_u32(*n as u32)
            }
        },
        _ => None,
    }
}

impl Text {
    pub open spec fn wf(&self) -> bool {
        self.seq.wf() && only_chars(self@)
    }

    pub fn new(id: ElementId) -> (t: Self)
        ensures
            t.wf(),
            t@ == crate::list_state::empty_list(id),
    {
        Text { seq: List::new(id) }
    }

    pub fn id(&self) -> (id: ElementId)
        ensures
            id == self@.id,
    {
        self.seq.id()
    }

    /// Insert `s` as one run: its first codepoint at `anchor`, under ids that count on
    /// from `stamp`.
    pub fn insert_run(&mut self, stamp: Stamp, s: &str, anchor: Anchor)
        requires
            old(self).wf(),
            stamp.lamport + s@.len() <= u64::MAX,
        ensures
            final(self).wf(),
            final(self)@ == text_insert(old(self)@, stamp, s@, anchor),
    {
        let n: usize = s.unicode_len();
        let mut i: usize = 0;
        while i < n
            invariant
                self.wf(),
                n == s@.len(),
                i <= n,
                stamp.lamport + s@.len() <= u64::MAX,
                self@ == insert_upto(old(self)@, stamp, s@, anchor, i as nat),
            decreases n - i,
        {
            reveal(run_anchor);
            let c = s.get_char(i);
            let at = if i == 0 {
                anchor
            } else {
                Anchor { parent: Some(stamp.run_member((i - 1) as u64)), side: Side::Right }
            };
            self.seq.insert_at(stamp.run_member(i as u64), item_of(c), at);
            i += 1;
        }
    }

    /// Tombstone the codepoints with these ids.
    pub fn delete_ids(&mut self, ids: &[Stamp])
        requires
            old(self).wf(),
        ensures
            final(self).wf(),
            final(self)@ == text_delete(old(self)@, ids@),
    {
        let mut i: usize = 0;
        proof {
            assert(ids@.take(0) =~= Seq::empty());
        }
        while i < ids.len()
            invariant
                self.wf(),
                i <= ids@.len(),
                self@ == text_delete(old(self)@, ids@.take(i as int)),
            decreases ids@.len() - i,
        {
            proof {
                assert(ids@.take(i + 1).drop_last() =~= ids@.take(i as int));
            }
            self.seq.delete_id(ids[i]);
            i += 1;
        }
        proof {
            assert(ids@.take(i as int) =~= ids@);
        }
    }

    /// Whether the text has, or had, a codepoint with this id.
    pub fn contains(&self, id: Stamp) -> (b: bool)
        requires
            self.wf(),
        ensures
            b == self@.places.dom().contains(id),
    {
        self.seq.contains(id)
    }

    /// The text as a string.
    pub fn as_string(&self) -> (s: String)
        requires
            self.wf(),
        ensures
            s@ == text_of(self@),
    {
        let values = self.seq.values();
        let mut s = String::new();
        let mut i: usize = 0;
        let ghost want = text_of(self@);
        while i < values.len()
            invariant
                self.wf(),
                values@.map_values(|e: Element| e@) == list_values(self@),
                i <= values@.len(),
                want == text_of(self@),
                s@ == want.take(i as int),
            decreases values@.len() - i,
        {
            proof {
                let vs = values@.map_values(|e: Element| e@);
                assert(vs[i as int] == values@[i as int]@);
                lemma_live_in_items(self@, order(self@.places), i as int);
                assert(is_char_item(values@[i as int]@));
                assert(want[i as int] == item_char(values@[i as int]@));
                assert(want.take(i + 1) =~= want.take(i as int).push(want[i as int]));
            }
            if let Some(c) = char_of(&values[i]) {
                s.push(c);
            }
            i += 1;
        }
        proof {
            assert(values@.len() == list_values(self@).len());
            assert(want.take(i as int) =~= want);
        }
        s
    }

    /// Every live item is a codepoint.
    pub proof fn lemma_live_is_char(&self, i: int)
        requires
            self.wf(),
            0 <= i < list_live(self@).len(),
        ensures
            is_char_item(list_values(self@)[i]),
    {
        lemma_live_in_items(self@, order(self@.places), i);
    }

    pub fn len(&self) -> (n: usize)
        requires
            self.wf(),
        ensures
            n == live_set(self@).len(),
    {
        self.seq.len()
    }

    /// Where a run at codepoint `index` attaches.
    pub fn place(&self, index: usize) -> (a: Anchor)
        requires
            self.wf(),
        ensures
            a == list_place(self@, index as nat, None),
    {
        self.seq.place(index)
    }

    /// The ids of `count` live codepoints from `index` on, fewer at the end.
    pub fn node_ids(&self, index: usize, count: usize) -> (out: Vec<Stamp>)
        requires
            self.wf(),
        ensures
            out@ == ({
                let live = list_live(self@);
                if index >= live.len() {
                    Seq::<Stamp>::empty()
                } else if count >= live.len() - index {
                    live.skip(index as int)
                } else {
                    live.subrange(index as int, index + count)
                }
            }),
    {
        self.seq.node_ids(index, count)
    }

    /// The live index of the codepoint with this id.
    pub fn live_index(&self, id: Stamp) -> (r: Option<usize>)
        requires
            self.wf(),
        ensures
            match r {
                Some(i) => i < list_live(self@).len() && list_live(self@)[i as int] == id && forall|
                    j: int,
                | 0 <= j < i ==> list_live(self@)[j] != id,
                None => !list_live(self@).contains(id),
            },
    {
        self.seq.live_index(id)
    }

    /// The codepoint index a position stands at, if the text has what it binds to.
    pub fn resolve_position_present(&self, pos: &RelativePosition) -> (r: Option<usize>)
        requires
            self.wf(),
        ensures
            match resolved(self@, *pos) {
                Some(n) => r matches Some(m) && m == n,
                None => r is None,
            },
    {
        self.seq.resolve_position_present(pos)
    }

    /// The stable position at codepoint `index`.
    pub fn relative_position(&self, index: usize, side: Side) -> (pos: RelativePosition)
        requires
            self.wf(),
        ensures
            pos == position_at(self@, index as nat, side),
    {
        self.seq.relative_position(index, side)
    }

    pub fn displace(&mut self)
        requires
            old(self).wf(),
        ensures
            final(self).wf(),
            final(self)@ == (ListV { displaced: true, ..old(self)@ }),
    {
        self.seq.displace();
    }

    pub fn reinstate(&mut self)
        requires
            old(self).wf(),
        ensures
            final(self).wf(),
            final(self)@ == (ListV { displaced: false, ..old(self)@ }),
    {
        self.seq.reinstate();
    }

    pub fn is_displaced(&self) -> (b: bool)
        ensures
            b == self@.displaced,
    {
        self.seq.is_displaced()
    }

    /// Append this text's state to `out`.
    pub fn encode_state_into(&self, out: &mut Vec<u8>)
        requires
            self.wf(),
            list_fits(self@, self.seq.dead@),
        ensures
            final(out)@ == old(out)@ + enc_list(self@, self.seq.dead@),
    {
        self.seq.encode_state_into(out);
    }

    /// Read a text from `cur`, advancing it.
    pub(crate) fn decode_state_from(cur: &mut Cursor) -> (r: Result<Text, DecodeError>)
        ensures
            reads_view(r, parse_text_state(old(cur).rest@), final(cur).rest@),
            r matches Ok(t) ==> t.wf(),
    {
        let ghost start = cur.rest@;
        let seq = List::decode_state_from(cur)?;
        let ghost e = seq.nodes.entries@;
        let mut i: usize = 0;
        while i < seq.nodes.entries.len()
            invariant
                seq.wf(),
                e == seq.nodes.entries@,
                start == old(cur).rest@,
                i <= e.len(),
                parse_list(start) == Ok::<(ListV, Seq<u8>), DecodeError>((seq@, cur.rest@)),
                forall|j: int| 0 <= j < i ==> is_char_item((#[trigger] e[j]).1.value@),
            decreases e.len() - i,
        {
            proof {
                lemma_entry::<SeqKey, Node>(e, i as int);
            }
            if char_of(&seq.nodes.entries[i].1.value).is_none() {
                proof {
                    assert(seq@.items.dom().contains(e[i as int].0@));
                }
                return Err(DecodeError::BadTag { what: "text: item is no codepoint", tag: 0 });
            }
            i += 1;
        }
        proof {
            assert forall|id: Stamp| #[trigger] seq@.items.dom().contains(id) implies is_char_item(
                seq@.items[id].value,
            ) by {
                let k = choose|k: int| 0 <= k < e.len() && (#[trigger] e[k]).0@ == id;
                lemma_entry::<SeqKey, Node>(e, k);
            }
        }
        Ok(Text { seq })
    }
}

/// Inserting a run keeps the text's id.
pub proof fn lemma_insert_keeps_id(l: ListV, stamp: Stamp, s: Seq<char>, anchor: Anchor, n: nat)
    ensures
        insert_upto(l, stamp, s, anchor, n).id == l.id,
    decreases n,
{
    if n > 0 {
        lemma_insert_keeps_id(l, stamp, s, anchor, (n - 1) as nat);
    }
}

/// Deleting items keeps the text's id.
pub proof fn lemma_delete_keeps_id(l: ListV, ids: Seq<Stamp>)
    ensures
        text_delete(l, ids).id == l.id,
    decreases ids.len(),
{
    if ids.len() > 0 {
        lemma_delete_keeps_id(l, ids.drop_last());
    }
}

// --- laws ---

/// The ids a run of `n` codepoints takes.
pub open spec fn run_ids(stamp: Stamp, n: nat) -> Seq<Stamp> {
    Seq::new(n, |i: int| stamp.spec_run_member(i as u64))
}

/// Whether a sequence has never seen the ids of a run, not even as something to attach to.
pub open spec fn run_is_new(l: ListV, stamp: Stamp, n: nat) -> bool {
    &&& stamp.lamport + n <= u64::MAX
    &&& forall|i: int|
        0 <= i < n ==> !l.places.dom().contains(#[trigger] stamp.spec_run_member(i as u64))
            && !l.items.dom().contains(stamp.spec_run_member(i as u64))
    &&& forall|y: Stamp, i: int|
        #![trigger l.places.dom().contains(y), stamp.spec_run_member(i as u64)]
        l.places.dom().contains(y) && 0 <= i < n ==> l.places[y].parent != Some(
            stamp.spec_run_member(i as u64),
        )
}

/// What the first `n` codepoints of a run add to a sequence, and all they add.
#[verifier::opaque]
spec fn run_added(l: ListV, m: ListV, stamp: Stamp, s: Seq<char>, a: Anchor, n: nat) -> bool {
    &&& m.places.dom() == l.places.dom().union(run_ids(stamp, n).to_set())
    &&& m.items.dom() == l.items.dom().union(run_ids(stamp, n).to_set())
    &&& forall|y: Stamp| #[trigger] l.places.dom().contains(y) ==> m.places[y] == l.places[y]
    &&& forall|y: Stamp| #[trigger] l.items.dom().contains(y) ==> m.items[y] == l.items[y]
    &&& forall|i: int|
        0 <= i < n ==> m.places[#[trigger] stamp.spec_run_member(i as u64)] == run_anchor(
            stamp,
            a,
            i,
        ) && m.items[stamp.spec_run_member(i as u64)].value == char_item(s[i])
            && !m.items[stamp.spec_run_member(i as u64)].moved_away
}

proof fn lemma_run_id(stamp: Stamp, n: nat, y: Stamp) -> (j: int)
    requires
        run_ids(stamp, n).to_set().contains(y),
    ensures
        0 <= j < n,
        y == stamp.spec_run_member(j as u64),
{
    run_ids(stamp, n).index_of(y)
}

proof fn lemma_run_has(stamp: Stamp, n: nat, j: int)
    requires
        0 <= j < n,
    ensures
        run_ids(stamp, n).to_set().contains(stamp.spec_run_member(j as u64)),
{
    assert(run_ids(stamp, n)[j] == stamp.spec_run_member(j as u64));
}

proof fn lemma_run_grows(stamp: Stamp, k: nat)
    requires
        stamp.lamport + k < u64::MAX,
    ensures
        run_ids(stamp, k + 1) == run_ids(stamp, k).push(stamp.spec_run_member(k as u64)),
        run_ids(stamp, k + 1).to_set() == run_ids(stamp, k).to_set().insert(
            stamp.spec_run_member(k as u64),
        ),
        !run_ids(stamp, k).to_set().contains(stamp.spec_run_member(k as u64)),
{
    let x = stamp.spec_run_member(k as u64);
    assert(run_ids(stamp, k + 1) =~= run_ids(stamp, k).push(x));
    crate::table::lemma_push_set(run_ids(stamp, k), x);
    if run_ids(stamp, k).to_set().contains(x) {
        lemma_run_id(stamp, k, x);
    }
}

proof fn lemma_run_added(l: ListV, stamp: Stamp, s: Seq<char>, a: Anchor, n: nat)
    requires
        n <= s.len(),
        run_is_new(l, stamp, s.len()),
    ensures
        run_added(l, insert_upto(l, stamp, s, a, n), stamp, s, a, n),
        forall|i: int|
            n <= i < s.len() ==> !insert_upto(l, stamp, s, a, n).places.dom().contains(
                #[trigger] stamp.spec_run_member(i as u64),
            ),
    decreases n,
{
    reveal(run_added);
    let m = insert_upto(l, stamp, s, a, n);
    if n == 0 {
        assert(run_ids(stamp, 0).to_set() =~= Set::empty());
        assert(m.places.dom() =~= l.places.dom().union(Set::empty()));
        assert(m.items.dom() =~= l.items.dom().union(Set::empty()));
    } else {
        let k = (n - 1) as nat;
        let x = stamp.spec_run_member(k as u64);
        lemma_run_added(l, stamp, s, a, k);
        lemma_run_grows(stamp, k);
        let p = insert_upto(l, stamp, s, a, k);
        assert(!p.places.dom().contains(x));
        assert(m.places == p.places.insert(x, run_anchor(stamp, a, k as int)));
        assert(m.places.dom() =~= l.places.dom().union(run_ids(stamp, n).to_set()));
        assert(m.items.dom() =~= l.items.dom().union(run_ids(stamp, n).to_set()));
        assert(!l.places.dom().contains(stamp.spec_run_member(k as u64)));
    }
}

/// Whether an id attached at an anchor lands at a place of the order.
spec fn lands(places: Map<Stamp, Anchor>, a: Anchor, b: int, x: Stamp) -> bool {
    &&& places.dom().finite()
    &&& 0 <= b <= order(places).len()
    &&& order(places.insert(x, a)) == order(places).insert(b, x)
    &&& a.parent matches Some(p) ==> places.dom().contains(p)
}

/// The order after the first `n` codepoints: the old one with their ids where the first
/// lands.
proof fn lemma_run_order(l: ListV, stamp: Stamp, s: Seq<char>, a: Anchor, b: int, n: nat)
    requires
        lands(l.places, a, b, stamp.spec_run_member(0)),
        n <= s.len(),
        run_is_new(l, stamp, s.len()),
    ensures
        order(insert_upto(l, stamp, s, a, n).places) == order(l.places).take(b) + run_ids(stamp, n)
            + order(l.places).skip(b),
        insert_upto(l, stamp, s, a, n).places.dom().finite(),
    decreases n,
{
    let q = order(l.places);
    let m = insert_upto(l, stamp, s, a, n);
    if n == 0 {
        assert(run_ids(stamp, 0) =~= Seq::empty());
        assert(q.take(b) + Seq::<Stamp>::empty() + q.skip(b) =~= q);
    } else {
        let k = (n - 1) as nat;
        lemma_run_order(l, stamp, s, a, b, k);
        lemma_run_added(l, stamp, s, a, k);
        lemma_run_grows(stamp, k);
        let p = insert_upto(l, stamp, s, a, k);
        let x = stamp.spec_run_member(k as u64);
        let at = run_anchor(stamp, a, k as int);
        let ids = run_ids(stamp, k);
        assert(!p.places.dom().contains(x));
        assert(m.places == p.places.insert(x, at));
        reveal(run_anchor);
        if k == 0 {
            assert(p == l);
            assert(ids =~= Seq::empty());
            assert(q.insert(b, x) =~= q.take(b) + ids.push(x) + q.skip(b));
        } else {
            let prev = stamp.spec_run_member((k - 1) as u64);
            lemma_run_lone(l, stamp, s, a, k);
            lemma_order_spliced(p.places, x, at);
            law_order_has_no_repeats(p.places);
            let o = order(p.places);
            let i = b + k - 1;
            assert(o[i] == ids[k - 1]);
            assert(ids[k - 1] == prev);
            lemma_spliced_at(o, prev, x, true, i);
            assert(o.insert(i + 1, x) =~= q.take(b) + ids.push(x) + q.skip(b));
        }
    }
}

/// Where an id attaches once part of a run is in.
proof fn lemma_run_place(
    l: ListV,
    p: ListV,
    stamp: Stamp,
    s: Seq<char>,
    a: Anchor,
    k: nat,
    y: Stamp,
)
    requires
        run_added(l, p, stamp, s, a, k),
        p.places.dom().contains(y),
    ensures
        l.places.dom().contains(y) ==> p.places[y] == l.places[y],
        !l.places.dom().contains(y) ==> run_ids(stamp, k).to_set().contains(y) && exists|j: int|
            0 <= j < k && y == stamp.spec_run_member(j as u64) && p.places[y] == #[trigger] run_anchor(
                stamp,
                a,
                j,
            ),
{
    reveal(run_added);
    if !l.places.dom().contains(y) {
        let j = lemma_run_id(stamp, k, y);
        assert(p.places[stamp.spec_run_member(j as u64)] == run_anchor(stamp, a, j));
    }
}

/// Nothing hangs where the next codepoint of a run goes.
proof fn lemma_run_lone(l: ListV, stamp: Stamp, s: Seq<char>, a: Anchor, k: nat)
    requires
        0 < k < s.len(),
        run_is_new(l, stamp, s.len()),
        a.parent matches Some(p) ==> l.places.dom().contains(p),
        insert_upto(l, stamp, s, a, k).places.dom().finite(),
    ensures
        lone(
            insert_upto(l, stamp, s, a, k).places,
            stamp.spec_run_member(k as u64),
            run_anchor(stamp, a, k as int),
        ),
{
    let p = insert_upto(l, stamp, s, a, k);
    let x = stamp.spec_run_member(k as u64);
    let at = run_anchor(stamp, a, k as int);
    lemma_run_added(l, stamp, s, a, k);
    assert(!p.places.dom().contains(stamp.spec_run_member(k as u64)));
    reveal(run_anchor);
    assert forall|y: Stamp| #[trigger] p.places.dom().contains(y) implies p.places[y].parent
        != Some(x) && p.places[y] != at by {
        lemma_run_place(l, p, stamp, s, a, k, y);
        if l.places.dom().contains(y) {
            assert(l.places[y].parent != Some(stamp.spec_run_member(k as u64)));
            assert(l.places[y].parent != Some(stamp.spec_run_member((k - 1) as u64)));
        } else {
            let j = lemma_run_id(stamp, k, y);
            if j == 0 {
                assert(!l.places.dom().contains(stamp.spec_run_member(k as u64)));
                assert(!l.places.dom().contains(stamp.spec_run_member((k - 1) as u64)));
            }
        }
    }
}

proof fn lemma_all_live(l: ListV, s: Seq<Stamp>)
    requires
        forall|i: int| 0 <= i < s.len() ==> l.is_live(#[trigger] s[i]),
    ensures
        live_ids(l, s) == s,
    decreases s.len(),
{
    if s.len() > 0 {
        let t = s.drop_last();
        assert forall|i: int| 0 <= i < t.len() implies l.is_live(#[trigger] t[i]) by {
            assert(t[i] == s[i]);
        }
        assert(l.is_live(s[s.len() - 1]));
        lemma_all_live(l, t);
        assert(t.push(s.last()) =~= s);
    } else {
        assert(live_ids(l, s) =~= s);
    }
}

/// A run inserted at a codepoint index is in the text at that index, whole, and nothing
/// else moves. The run's ids are ones the text has never seen.
pub proof fn law_text_insert_lands_at_its_index(
    l: ListV,
    stamp: Stamp,
    s: Seq<char>,
    index: nat,
)
    requires
        l.places.dom().finite(),
        index <= list_live(l).len(),
        run_is_new(l, stamp, s.len()),
    ensures
        text_of(text_insert(l, stamp, s, list_place(l, index, None))) == text_of(l).take(
            index as int,
        ) + s + text_of(l).skip(index as int),
        list_live(text_insert(l, stamp, s, list_place(l, index, None))) == list_live(l).take(
            index as int,
        ) + run_ids(stamp, s.len()) + list_live(l).skip(index as int),
        text_insert(l, stamp, s, list_place(l, index, None)).places.dom().finite(),
{
    let q = order(l.places);
    let b = gap_at(l, q, index, None) as int;
    let a = list_place(l, index, None);
    let x = stamp.spec_run_member(0);
    lemma_gap(l, q, index);
    if s.len() > 0 {
        assert forall|y: Stamp| #[trigger] l.places.dom().contains(y) implies l.places[y].parent
            != Some(x) by {
            assert(l.places[y].parent != Some(stamp.spec_run_member(0int as u64)));
        }
        assert(!l.places.dom().contains(stamp.spec_run_member(0int as u64)));
        law_placement_lands(l.places, b, x);
        // What the run attaches to is in the order.
        if let Some(par) = a.parent {
            if b > 0 && par == q[b - 1] {
                assert(q.contains(q[b - 1]));
            } else {
                assert(q.contains(q[b]));
            }
            lemma_order_depth(l.places, par);
        }
        lemma_run_text(l, stamp, s, a, b, index);
    } else {
        let t = text_of(l);
        assert(text_insert(l, stamp, s, a) == l);
        assert(list_live(l) =~= list_live(l).take(index as int) + run_ids(stamp, 0)
            + list_live(l).skip(index as int));
        assert(t =~= t.take(index as int) + s + t.skip(index as int));
    }
}

/// The text after a run whose first codepoint lands at an index.
proof fn lemma_run_text(l: ListV, stamp: Stamp, s: Seq<char>, a: Anchor, b: int, index: nat)
    requires
        lands(l.places, a, b, stamp.spec_run_member(0)),
        index <= list_live(l).len(),
        run_is_new(l, stamp, s.len()),
        live_ids(l, order(l.places).take(b)) == list_live(l).take(index as int),
    ensures
        text_of(text_insert(l, stamp, s, a)) == text_of(l).take(index as int) + s + text_of(l).skip(
            index as int,
        ),
        list_live(text_insert(l, stamp, s, a)) == list_live(l).take(index as int) + run_ids(
            stamp,
            s.len(),
        ) + list_live(l).skip(index as int),
        text_insert(l, stamp, s, a).places.dom().finite(),
{
    let q = order(l.places);
    let m = text_insert(l, stamp, s, a);
    lemma_run_order(l, stamp, s, a, b, s.len());
    lemma_run_added(l, stamp, s, a, s.len());
    lemma_run_live(l, stamp, s, a, b, index);
    let ids = run_ids(stamp, s.len());
    let t = text_of(l);
    let want = t.take(index as int) + s + t.skip(index as int);
    let got = text_of(m);
    reveal(run_added);
    assert forall|i: int| 0 <= i < got.len() implies got[i] == want[i] by {
        let id = list_live(m)[i];
        if i < index {
            lemma_live_in_items(l, q, i);
            assert(id == list_live(l)[i]);
        } else if i < index + s.len() {
            let j = i - index;
            assert(id == ids[j]);
            assert(m.items[stamp.spec_run_member(j as u64)].value == char_item(s[j]));
            lemma_char_item(s[j]);
        } else {
            let j = i - s.len();
            lemma_live_in_items(l, q, j);
            assert(id == list_live(l)[j]);
        }
    }
    assert(got =~= want);
}

/// What is left of a sequence once items next to each other are deleted.
pub(crate) proof fn lemma_cut(l: ListV, i: int, k: nat)
    requires
        l.places.dom().finite(),
        0 <= i,
        i + k <= list_live(l).len(),
    ensures
        ({
            let gone = list_live(l).subrange(i, i + k);
            let m = text_delete(l, gone);
            &&& m.places == l.places
            &&& list_live(m) == list_live(l).take(i) + list_live(l).skip(i + k)
            &&& forall|x: Stamp| #[trigger] m.items.dom().contains(x) <==> l.items.dom().contains(x)
                && !gone.contains(x)
            &&& forall|x: Stamp| #[trigger] m.items.dom().contains(x) ==> m.items[x] == l.items[x]
        }),
    decreases k,
{
    let u = list_live(l);
    let gone = u.subrange(i, i + k);
    let m = text_delete(l, gone);
    if k == 0 {
        assert(u =~= u.take(i) + u.skip(i));
    } else {
        let j = (k - 1) as nat;
        let h = u.subrange(i, i + j);
        assert(gone.drop_last() =~= h);
        lemma_cut(l, i, j);
        let p = text_delete(l, h);
        let id = gone.last();
        assert(id == u[i + j]);
        assert(list_live(p)[i] == id);
        law_delete_removes_only_its_item(p, i);
        assert(list_live(p).remove(i) =~= u.take(i) + u.skip(i + k));
        assert forall|x: Stamp| #[trigger] m.items.dom().contains(x) <==> l.items.dom().contains(x)
            && !gone.contains(x) by {
            assert(gone.contains(x) <==> h.contains(x) || x == id) by {
                if h.contains(x) {
                    assert(gone[h.index_of(x)] == x);
                }
                if x == id {
                    assert(gone[k - 1] == x);
                }
                if gone.contains(x) && x != id {
                    assert(h[gone.index_of(x)] == x);
                }
            }
        }
    }
}

/// A run that stands in for codepoints just deleted next to each other takes their place:
/// it attaches to the left of the first, with a stamp later than what attached there
/// before, and the text is as it was.
pub proof fn law_revived_run_takes_its_place(l: ListV, i: int, k: nat, stamp: Stamp)
    requires
        l.places.dom().finite(),
        0 <= i,
        0 < k,
        i + k <= list_live(l).len(),
        run_is_new(l, stamp, k),
        forall|y: Stamp| #[trigger]
            l.places.dom().contains(y) ==> stamp_lt(y, stamp.spec_run_member(0)),
    ensures
        ({
            let gone = list_live(l).subrange(i, i + k);
            text_of(
                text_insert(
                    text_delete(l, gone),
                    stamp,
                    text_of(l).subrange(i, i + k),
                    Anchor { parent: Some(gone[0]), side: Side::Left },
                ),
            ) == text_of(l)
        }),
{
    let q = order(l.places);
    let u = list_live(l);
    let t = text_of(l);
    let gone = u.subrange(i, i + k);
    let s = t.subrange(i, i + k);
    let m = text_delete(l, gone);
    let first = gone[0];
    let x = stamp.spec_run_member(0);
    let a = Anchor { parent: Some(first), side: Side::Left };
    lemma_cut(l, i, k);
    assert(first == u[i]);
    lemma_live_in_items(l, q, i);
    let b = q.index_of(first);
    lemma_order_depth(l.places, first);
    law_order_has_no_repeats(l.places);
    assert(!l.places.dom().contains(stamp.spec_run_member(0int as u64)));
    assert forall|y: Stamp| #[trigger] l.places.dom().contains(y) implies l.places[y].parent
        != Some(x) by {
        assert(l.places[y].parent != Some(stamp.spec_run_member(0int as u64)));
    }
    lemma_order_spliced(l.places, x, a);
    lemma_spliced_at(q, first, x, false, b);
    lemma_live_before(l, b, i);
    let before = q.take(b);
    assert forall|j: int| 0 <= j < before.len() implies m.is_live(#[trigger] before[j])
        == l.is_live(before[j]) by {
        if gone.contains(before[j]) {
            let g = gone.index_of(before[j]);
            lemma_live_after(l, b, i, i + g);
            assert(q[j] == before[j]);
        }
    }
    lemma_live_same(m, l, before);
    assert(list_live(m).take(i) =~= u.take(i));
    assert(run_is_new(m, stamp, k)) by {
        assert forall|j: int| 0 <= j < k implies !m.places.dom().contains(
            #[trigger] stamp.spec_run_member(j as u64),
        ) && !m.items.dom().contains(stamp.spec_run_member(j as u64)) by {
            assert(!l.places.dom().contains(stamp.spec_run_member(j as u64)));
        }
    }
    lemma_run_text(m, stamp, s, a, b, i as nat);
    let v = text_of(m);
    assert forall|j: int| 0 <= j < i implies #[trigger] v[j] == t[j] by {
        assert(list_live(m)[j] == u[j]);
        lemma_live_in_items(m, q, j);
    }
    assert forall|j: int| i <= j < v.len() implies #[trigger] v[j] == t[j + k] by {
        assert(list_live(m)[j] == u[j + k]);
        lemma_live_in_items(m, q, j);
    }
    assert(v.take(i) + s + v.skip(i) =~= t);
}

/// The live ids before a live one.
proof fn lemma_live_before(l: ListV, b: int, i: int)
    requires
        l.places.dom().finite(),
        0 <= b < order(l.places).len(),
        0 <= i < list_live(l).len(),
        order(l.places)[b] == list_live(l)[i],
    ensures
        live_ids(l, order(l.places).take(b)) == list_live(l).take(i),
{
    let q = order(l.places);
    let u = list_live(l);
    let x = q.take(b);
    let y = q.skip(b + 1);
    law_order_has_no_repeats(l.places);
    lemma_live_in_items(l, q, i);
    lemma_live_no_dup(l, q);
    assert(q =~= (x + seq![q[b]]) + y);
    lemma_live_ids_concat(l, x + seq![q[b]], y);
    lemma_live_ids_concat(l, x, seq![q[b]]);
    lemma_live_one(l, q[b]);
    let n = live_ids(l, x).len();
    assert(u[n as int] == u[i]);
    assert(live_ids(l, x) =~= u.take(i));
}

/// A live id from an index on is not before the place of that index.
proof fn lemma_live_after(l: ListV, b: int, i: int, j: int)
    requires
        l.places.dom().finite(),
        0 <= b < order(l.places).len(),
        0 <= i <= j < list_live(l).len(),
        order(l.places)[b] == list_live(l)[i],
    ensures
        forall|c: int| 0 <= c < b ==> #[trigger] order(l.places)[c] != list_live(l)[j],
{
    let q = order(l.places);
    let u = list_live(l);
    lemma_live_before(l, b, i);
    law_order_has_no_repeats(l.places);
    lemma_live_no_dup(l, q);
    assert forall|c: int| 0 <= c < b implies #[trigger] q[c] != u[j] by {
        if q[c] == u[j] {
            lemma_live_in_items(l, q, j);
            let x = q.take(b);
            assert(x[c] == u[j]);
            lemma_live_has(l, x, c);
            let k = live_ids(l, x).index_of(u[j]);
            assert(u[k] == u[j]);
        }
    }
}

/// A live id is among the live ones.
proof fn lemma_live_has(l: ListV, s: Seq<Stamp>, c: int)
    requires
        0 <= c < s.len(),
        l.is_live(s[c]),
    ensures
        live_ids(l, s).contains(s[c]),
    decreases s.len(),
{
    let h = s.drop_last();
    let r = live_ids(l, s);
    if c < h.len() {
        assert(h[c] == s[c]);
        lemma_live_has(l, h, c);
        let k = live_ids(l, h).index_of(s[c]);
        assert(r[k] == s[c]);
    } else {
        assert(r == live_ids(l, h).push(s[c]));
        assert(r[r.len() - 1] == s[c]);
    }
}

/// The live ids after a run: the old ones with the run's at the index.
proof fn lemma_run_live(l: ListV, stamp: Stamp, s: Seq<char>, a: Anchor, b: int, index: nat)
    requires
        l.places.dom().finite(),
        run_is_new(l, stamp, s.len()),
        0 <= b <= order(l.places).len(),
        index <= list_live(l).len(),
        live_ids(l, order(l.places).take(b)) == list_live(l).take(index as int),
        run_added(l, text_insert(l, stamp, s, a), stamp, s, a, s.len()),
        order(text_insert(l, stamp, s, a).places) == order(l.places).take(b) + run_ids(
            stamp,
            s.len(),
        ) + order(l.places).skip(b),
    ensures
        list_live(text_insert(l, stamp, s, a)) == list_live(l).take(index as int) + run_ids(
            stamp,
            s.len(),
        ) + list_live(l).skip(index as int),
{
    let q = order(l.places);
    let m = text_insert(l, stamp, s, a);
    let ids = run_ids(stamp, s.len());
    let x = q.take(b);
    let y = q.skip(b);
    assert(q =~= x + y);
    assert forall|i: int| 0 <= i < x.len() implies m.is_live(#[trigger] x[i]) == l.is_live(x[i]) by {
        lemma_old_live(l, m, stamp, s, a, q, i);
    }
    assert forall|i: int| 0 <= i < y.len() implies m.is_live(#[trigger] y[i]) == l.is_live(y[i]) by {
        assert(y[i] == q[i + b]);
        lemma_old_live(l, m, stamp, s, a, q, i + b);
    }
    lemma_live_same(m, l, x);
    lemma_live_same(m, l, y);
    assert forall|i: int| 0 <= i < ids.len() implies m.is_live(#[trigger] ids[i]) by {
        reveal(run_added);
        lemma_run_has(stamp, s.len(), i);
        assert(!m.items[stamp.spec_run_member(i as u64)].moved_away);
    }
    lemma_all_live(m, ids);
    lemma_live_ids_concat(m, x + ids, y);
    lemma_live_ids_concat(m, x, ids);
    lemma_live_ids_concat(l, x, y);
    assert(live_ids(l, y) =~= list_live(l).skip(index as int));
}

proof fn lemma_char_item(c: char)
    ensures
        item_char(char_item(c)) == c,
{
    let n = c as u32;
    assert(n as i64 as u32 == n);
    assert(n as char == c);
}

proof fn lemma_old_live(
    l: ListV,
    m: ListV,
    stamp: Stamp,
    s: Seq<char>,
    a: Anchor,
    q: Seq<Stamp>,
    i: int,
)
    requires
        l.places.dom().finite(),
        q == order(l.places),
        0 <= i < q.len(),
        run_is_new(l, stamp, s.len()),
        run_added(l, m, stamp, s, a, s.len()),
    ensures
        m.is_live(q[i]) == l.is_live(q[i]),
{
    reveal(run_added);
    assert(q.contains(q[i]));
    lemma_order_depth(l.places, q[i]);
    if run_ids(stamp, s.len()).to_set().contains(q[i]) {
        lemma_run_id(stamp, s.len(), q[i]);
    }
}

} // verus!
