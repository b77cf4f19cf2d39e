//! Structural diff between two replicas.
//!
//! The two trees are walked in lockstep. Each slot added, removed or changed is reported
//! at its path. A nested map is walked, so a deep edit surfaces at its own path. Sequences
//! diff by stable id: an item live on one side and not on the other was inserted or
//! deleted, and neighbours coalesce into runs. A container item live on both sides is
//! walked, and what changed inside it is reported at the item's path: that of its sequence,
//! and the item's id as the last segment. An element diffs as its children and its
//! attributes, a fragment as its children; a changed tag is a different element. The
//! changes come in path order, and at one path what goes comes before what is new.

use crate::bytes::{byte_strings, bytes_eq, bytes_less, bytes_lt};
use crate::changes::{changes_view, items_view, Change, ChangeV, SeqItem, SeqItemV};
use crate::codec::put_stamp;
use crate::counter::{count_of, Counter};
use crate::doc::Document;
use crate::element::{Element, ElementV};
use crate::elementid::{ElementId, ElementKind};
use crate::diff_laws::lemma_path_total;
use crate::format::{enc_stamp, fits_u32};
use crate::identity::{root_element, root_id};
use crate::list::{List, ListV};
use crate::list_state::empty_list;
use crate::map::{live_value, slot_at, LwwMap, MapV, Slot};
use crate::path::{enc_path, encode_path, keys_fit, parse_path, read_path};
use crate::scalar::{Scalar, ScalarV};
use crate::sequence::{list_live, list_values};
use crate::stamp::Stamp;
use crate::table::{
    index_of, lemma_entry, lemma_ordered, lemma_push_set, ordered, seq_keys, Key, Table,
};
use crate::text::{char_of, text_of, Text};
use crate::tree::{empty_map, Tree, TreeV};
use crate::walk::KeyPath;
use crate::wire::{lemma_be_bytes_len, lemma_le_bytes_len};
use crate::xml::{node_attrs_id, node_children_id, XmlElement, XmlFragment};
use vstd::prelude::*;
use vstd::slice::slice_to_vec;

verus! {

// --- what a diff is ---

/// The runs of neighbours in `s` whose ids are not in `present`, each with the index of
/// its first.
pub open spec fn runs<T>(s: Seq<(Stamp, T)>, present: Set<Stamp>) -> Seq<(int, Seq<T>)>
    decreases s.len(),
{
    if s.len() == 0 {
        Seq::empty()
    } else {
        let r = runs(s.drop_last(), present);
        let n = s.len() - 1;
        if present.contains(s[n].0) {
            r
        } else if n > 0 && !present.contains(s[n - 1].0) {
            r.drop_last().push((r.last().0, r.last().1.push(s[n].1)))
        } else {
            r.push((n, seq![s[n].1]))
        }
    }
}

/// A list item as a diff shows it.
pub open spec fn seq_item(e: ElementV) -> SeqItemV {
    match e {
        ElementV::Scalar(s) => SeqItemV::Scalar(s),
        ElementV::Register(r) => SeqItemV::Scalar(r.value),
        _ => SeqItemV::Composite(e.kind()),
    }
}

/// A list's live items in order, each with its id.
pub open spec fn item_seq(l: ListV) -> Seq<(Stamp, SeqItemV)> {
    Seq::new(list_live(l).len(), |i: int| (list_live(l)[i], seq_item(list_values(l)[i])))
}

/// A text's live codepoints in order, each with its id.
pub open spec fn char_seq(l: ListV) -> Seq<(Stamp, char)> {
    Seq::new(list_live(l).len(), |i: int| (list_live(l)[i], text_of(l)[i]))
}

pub open spec fn list_deletes(path: Seq<u8>, r: Seq<(int, Seq<SeqItemV>)>) -> Seq<ChangeV> {
    r.map_values(
        |x: (int, Seq<SeqItemV>)|
            ChangeV::ListDelete { path, index: x.0 as usize, items: x.1 },
    )
}

pub open spec fn list_inserts(path: Seq<u8>, r: Seq<(int, Seq<SeqItemV>)>) -> Seq<ChangeV> {
    r.map_values(
        |x: (int, Seq<SeqItemV>)|
            ChangeV::ListInsert { path, index: x.0 as usize, items: x.1 },
    )
}

pub open spec fn text_deletes(path: Seq<u8>, r: Seq<(int, Seq<char>)>) -> Seq<ChangeV> {
    r.map_values(
        |x: (int, Seq<char>)| ChangeV::TextDelete { path, index: x.0 as usize, text: x.1 },
    )
}

pub open spec fn text_inserts(path: Seq<u8>, r: Seq<(int, Seq<char>)>) -> Seq<ChangeV> {
    r.map_values(
        |x: (int, Seq<char>)| ChangeV::TextInsert { path, index: x.0 as usize, text: x.1 },
    )
}

/// The changes between two lists at one path: the runs only the old one has, then the
/// runs only the new one has.
#[verifier::opaque]
pub open spec fn diff_lists(a: ListV, b: ListV, path: Seq<u8>) -> Seq<ChangeV> {
    list_deletes(path, runs(item_seq(a), list_live(b).to_set())) + list_inserts(
        path,
        runs(item_seq(b), list_live(a).to_set()),
    )
}

/// The changes between two texts at one path.
#[verifier::opaque]
pub open spec fn diff_texts(a: ListV, b: ListV, path: Seq<u8>) -> Seq<ChangeV> {
    text_deletes(path, runs(char_seq(a), list_live(b).to_set())) + text_inserts(
        path,
        runs(char_seq(b), list_live(a).to_set()),
    )
}

/// One thing replaced by another at a path.
pub open spec fn replaced_by(path: Seq<u8>, a: ElementKind, b: ElementKind) -> Seq<ChangeV> {
    seq![ChangeV::Removed { path, kind: a }, ChangeV::Added { path, kind: b }]
}

/// The scalar a leaf reads as, inline or through a register.
pub open spec fn leaf_value(e: ElementV) -> ScalarV {
    match e {
        ElementV::Scalar(s) => s,
        ElementV::Register(r) => r.value,
        _ => ScalarV::Null,
    }
}

/// The keys at which a map has something.
pub open spec fn live_keys(m: MapV) -> Set<Seq<u8>> {
    Set::new(|k: Seq<u8>| m.slots.dom().contains(k) && m.slots[k].value is Some)
}

impl TreeV {
    /// The map a handle names.
    pub open spec fn map_of(self, id: ElementId) -> MapV {
        if self.maps.dom().contains(id) {
            self.maps[id]
        } else {
            empty_map(id)
        }
    }

    /// The list a handle names.
    pub open spec fn list_of(self, id: ElementId) -> ListV {
        if self.lists.dom().contains(id) {
            self.lists[id]
        } else {
            empty_list(id)
        }
    }

    /// The text a handle names.
    pub open spec fn text_seq(self, id: ElementId) -> ListV {
        if self.texts.dom().contains(id) {
            self.texts[id]
        } else {
            empty_list(id)
        }
    }

    /// What the counter a handle names reads as.
    pub open spec fn counter_value(self, id: ElementId) -> int {
        if self.counters.dom().contains(id) {
            count_of(self.counters[id].tallies)
        } else {
            0
        }
    }

    /// The tag of the element a handle names.
    pub open spec fn tag_of(self, id: ElementId) -> Seq<u8> {
        if self.xml_elements.dom().contains(id) {
            self.xml_elements[id].tag
        } else {
            Seq::empty()
        }
    }

    /// Whether every key fits a path and every counter can be summed.
    pub open spec fn diffable(self) -> bool {
        &&& forall|id: ElementId, k: Seq<u8>|
            self.maps.dom().contains(id) && #[trigger] self.maps[id].slots.dom().contains(k)
                ==> fits_u32(k.len())
        &&& forall|id: ElementId| #[trigger]
            self.counters.dom().contains(id) ==> i64::MIN <= count_of(self.counters[id].tallies)
                <= i64::MAX
    }
}

/// The ids that are live in both of two sequences.
pub open spec fn shared_ids(l: ListV, m: ListV) -> Seq<Stamp> {
    ordered::<Stamp>(list_live(l).to_set().intersect(list_live(m).to_set()))
}

/// The changes between two sequences at one path: the runs that come and go, and what
/// changed inside the items both have.
pub open spec fn diff_seqs(
    a: TreeV,
    b: TreeV,
    l: ListV,
    m: ListV,
    prefix: Seq<Seq<u8>>,
    fuel: nat,
) -> Seq<ChangeV>
    decreases fuel, 0nat,
{
    diff_lists(l, m, enc_path(prefix)) + if fuel == 0 {
        Seq::empty()
    } else {
        diff_items(a, b, l, m, shared_ids(l, m), prefix, (fuel - 1) as nat)
    }
}

/// The path of an item of a sequence: the sequence's, and the bytes of the item's id.
pub open spec fn item_path(prefix: Seq<Seq<u8>>, id: Stamp) -> Seq<Seq<u8>> {
    prefix.push(enc_stamp(id))
}

/// The changes inside an item of two sequences: those of a container, at the item's path.
pub open spec fn diff_item(
    a: TreeV,
    b: TreeV,
    l: ListV,
    m: ListV,
    id: Stamp,
    prefix: Seq<Seq<u8>>,
    fuel: nat,
) -> Seq<ChangeV>
    decreases fuel, 2nat,
{
    if l.items.dom().contains(id) && m.items.dom().contains(id) && l.items[id].value.is_handle()
        && m.items[id].value.is_handle() {
        diff_elements(a, b, l.items[id].value, m.items[id].value, item_path(prefix, id), fuel)
    } else {
        Seq::empty()
    }
}

/// The changes inside some items of two sequences, item by item.
pub open spec fn diff_items(
    a: TreeV,
    b: TreeV,
    l: ListV,
    m: ListV,
    ids: Seq<Stamp>,
    prefix: Seq<Seq<u8>>,
    fuel: nat,
) -> Seq<ChangeV>
    decreases fuel, ids.len() + 3,
{
    if ids.len() == 0 {
        Seq::empty()
    } else {
        diff_items(a, b, l, m, ids.drop_last(), prefix, fuel) + diff_item(
            a,
            b,
            l,
            m,
            ids.last(),
            prefix,
            fuel,
        )
    }
}

/// The changes between two values at one live slot, walking at most `fuel` containers
/// down.
pub open spec fn diff_elements(
    a: TreeV,
    b: TreeV,
    x: ElementV,
    y: ElementV,
    prefix: Seq<Seq<u8>>,
    fuel: nat,
) -> Seq<ChangeV>
    decreases fuel, 1nat,
{
    let path = enc_path(prefix);
    if x.kind() != y.kind() {
        replaced_by(path, x.kind(), y.kind())
    } else {
        match (x, y) {
            (ElementV::LwwMap(i), ElementV::LwwMap(j)) => if fuel == 0 {
                Seq::empty()
            } else {
                diff_keys(
                    a,
                    b,
                    a.map_of(i),
                    b.map_of(j),
                    both_keys(a.map_of(i), b.map_of(j)),
                    prefix,
                    (fuel - 1) as nat,
                )
            },
            (ElementV::Counter(i), ElementV::Counter(j)) => if a.counter_value(i)
                == b.counter_value(j) {
                Seq::empty()
            } else {
                seq![
                    ChangeV::Counter {
                        path,
                        old: a.counter_value(i) as i64,
                        new: b.counter_value(j) as i64,
                    },
                ]
            },
            (ElementV::List(i), ElementV::List(j)) => diff_seqs(
                a,
                b,
                a.list_of(i),
                b.list_of(j),
                prefix,
                fuel,
            ),
            (ElementV::Text(i), ElementV::Text(j)) => diff_texts(
                a.text_seq(i),
                b.text_seq(j),
                path,
            ),
            (ElementV::XmlElement(i), ElementV::XmlElement(j)) => if a.tag_of(i) != b.tag_of(j) {
                replaced_by(path, ElementKind::XmlElement, ElementKind::XmlElement)
            } else if fuel == 0 {
                Seq::empty()
            } else {
                let m = a.map_of(node_attrs_id(i));
                let n = b.map_of(node_attrs_id(j));
                diff_seqs(
                    a,
                    b,
                    a.list_of(node_children_id(i)),
                    b.list_of(node_children_id(j)),
                    prefix,
                    fuel,
                ) + diff_keys(a, b, m, n, both_keys(m, n), prefix, (fuel - 1) as nat)
            },
            (ElementV::XmlFragment(i), ElementV::XmlFragment(j)) => diff_seqs(
                a,
                b,
                a.list_of(node_children_id(i)),
                b.list_of(node_children_id(j)),
                prefix,
                fuel,
            ),
            _ => if leaf_value(x) == leaf_value(y) {
                Seq::empty()
            } else {
                seq![ChangeV::Value { path, old: leaf_value(x), new: leaf_value(y) }]
            },
        }
    }
}

/// The keys either of two maps has something at, in order.
pub open spec fn both_keys(m: MapV, n: MapV) -> Seq<Seq<u8>> {
    ordered::<Vec<u8>>(live_keys(m).union(live_keys(n)))
}

/// The changes at one key of two maps.
pub open spec fn diff_key(
    a: TreeV,
    b: TreeV,
    m: MapV,
    n: MapV,
    key: Seq<u8>,
    prefix: Seq<Seq<u8>>,
    fuel: nat,
) -> Seq<ChangeV>
    decreases fuel, 2nat,
{
    let at = prefix.push(key);
    match (live_value(slot_at(m.slots, key)), live_value(slot_at(n.slots, key))) {
        (None, Some(e)) => seq![ChangeV::Added { path: enc_path(at), kind: e.kind() }],
        (Some(e), None) => seq![ChangeV::Removed { path: enc_path(at), kind: e.kind() }],
        (Some(x), Some(y)) => diff_elements(a, b, x, y, at, fuel),
        (None, None) => Seq::empty(),
    }
}

/// The changes at some keys of two maps, key by key.
pub open spec fn diff_keys(
    a: TreeV,
    b: TreeV,
    m: MapV,
    n: MapV,
    keys: Seq<Seq<u8>>,
    prefix: Seq<Seq<u8>>,
    fuel: nat,
) -> Seq<ChangeV>
    decreases fuel, keys.len() + 3,
{
    if keys.len() == 0 {
        Seq::empty()
    } else {
        diff_keys(a, b, m, n, keys.drop_last(), prefix, fuel) + diff_key(
            a,
            b,
            m,
            n,
            keys.last(),
            prefix,
            fuel,
        )
    }
}

/// Whether a path comes before another: key by key, a shorter one before what it leads to.
pub open spec fn path_before(p: Seq<Seq<u8>>, q: Seq<Seq<u8>>) -> bool
    decreases p.len(),
{
    if q.len() == 0 {
        false
    } else if p.len() == 0 {
        true
    } else if p[0] == q[0] {
        path_before(p.skip(1), q.skip(1))
    } else {
        bytes_lt(p[0], q[0])
    }
}

/// Where a change is.
pub open spec fn change_path(c: ChangeV) -> Seq<u8> {
    match c {
        ChangeV::Added { path, .. } => path,
        ChangeV::Removed { path, .. } => path,
        ChangeV::Value { path, .. } => path,
        ChangeV::Counter { path, .. } => path,
        ChangeV::ListInsert { path, .. } => path,
        ChangeV::ListDelete { path, .. } => path,
        ChangeV::TextInsert { path, .. } => path,
        ChangeV::TextDelete { path, .. } => path,
    }
}

/// The keys of the path a change is at.
pub open spec fn change_keys(c: ChangeV) -> Seq<Seq<u8>> {
    match read_path(change_path(c)) {
        Some(keys) => keys,
        None => Seq::empty(),
    }
}

/// Whether a change brings something that was not there.
pub open spec fn brings(c: ChangeV) -> bool {
    c is Added || c is ListInsert || c is TextInsert
}

/// Whether a change comes before another: by path, and at one path what brings something
/// last.
pub open spec fn change_before(c: ChangeV, d: ChangeV) -> bool {
    path_before(change_keys(c), change_keys(d)) || (change_keys(c) == change_keys(d) && !brings(c)
        && brings(d))
}

/// A change put among changes in order, behind those that are not after it.
pub open spec fn put_change(s: Seq<ChangeV>, c: ChangeV) -> Seq<ChangeV>
    decreases s.len(),
{
    if s.len() == 0 || !change_before(c, s.last()) {
        s.push(c)
    } else {
        put_change(s.drop_last(), c).push(s.last())
    }
}

/// Changes in path order, those at one path as they came but for what brings something,
/// which comes last.
pub open spec fn by_path(s: Seq<ChangeV>) -> Seq<ChangeV>
    decreases s.len(),
{
    if s.len() == 0 {
        s
    } else {
        put_change(by_path(s.drop_last()), s.last())
    }
}

/// More containers than any nests in, on either side.
pub open spec fn depth_bound(a: TreeV, b: TreeV) -> nat {
    a.maps.dom().len() + b.maps.dom().len() + a.lists.dom().len() + b.lists.dom().len() + 1
}

/// The changes that turn one replica into another, in path order.
pub open spec fn diff_trees(a: TreeV, b: TreeV) -> Seq<ChangeV> {
    by_path(
        diff_elements(
            a,
            b,
            ElementV::LwwMap(root_element()),
            ElementV::LwwMap(root_element()),
            Seq::empty(),
            depth_bound(a, b),
        ),
    )
}

// --- runs ---

pub open spec fn item_runs(r: Seq<(usize, Vec<SeqItem>)>) -> Seq<(int, Seq<SeqItemV>)> {
    r.map_values(|x: (usize, Vec<SeqItem>)| (x.0 as int, items_view(x.1@)))
}

pub open spec fn text_runs(r: Seq<(usize, String)>) -> Seq<(int, Seq<char>)> {
    r.map_values(|x: (usize, String)| (x.0 as int, x.1@))
}

pub open spec fn pair_items(s: Seq<(Stamp, SeqItem)>) -> Seq<(Stamp, SeqItemV)> {
    s.map_values(|x: (Stamp, SeqItem)| (x.0, x.1@))
}

/// There is a last run exactly when the last item is in one.
proof fn lemma_open_run<T>(s: Seq<(Stamp, T)>, present: Set<Stamp>)
    ensures
        s.len() > 0 && !present.contains(s.last().0) ==> runs(s, present).len() > 0,
{
}

fn list_runs(s: &Vec<(Stamp, SeqItem)>, present: &Table<Stamp, ()>) -> (out: Vec<
    (usize, Vec<SeqItem>),
>)
    requires
        present.wf(),
    ensures
        item_runs(out@) == runs(pair_items(s@), present@.dom()),
{
    let ghost q = pair_items(s@);
    let ghost p = present@.dom();
    let mut out: Vec<(usize, Vec<SeqItem>)> = Vec::new();
    let mut open = false;
    let mut i: usize = 0;
    proof {
        assert(q.take(0) =~= Seq::empty());
        assert(item_runs(out@) =~= Seq::empty());
    }
    while i < s.len()
        invariant
            present.wf(),
            q == pair_items(s@),
            p == present@.dom(),
            i <= s@.len(),
            open == (i > 0 && !p.contains(q[i - 1].0)),
            item_runs(out@) == runs(q.take(i as int), p),
        decreases s@.len() - i,
    {
        let ghost before = item_runs(out@);
        proof {
            assert(q.take(i + 1).drop_last() =~= q.take(i as int));
            assert(q.take(i + 1)[i as int] == (s@[i as int].0, s@[i as int].1@));
            if i > 0 {
                assert(q.take(i + 1)[i - 1] == q[i - 1]);
                lemma_open_run(q.take(i as int), p);
            }
        }
        let ghost v = s@[i as int].1@;
        if present.contains_key(&s[i].0) {
            open = false;
        } else if open {
            if let Some(last) = out.pop() {
                let (start, mut items) = last;
                let ghost was = items_view(items@);
                proof {
                    assert(item_runs(out@) =~= before.drop_last());
                    assert(before.last() == (start as int, was));
                }
                let ghost rest = out@;
                items.push(s[i].1.clone());
                proof {
                    assert(items_view(items@) =~= was.push(v));
                }
                out.push((start, items));
                proof {
                    assert(item_runs(out@) =~= item_runs(rest).push((start as int, was.push(v))));
                }
            }
        } else {
            let mut items: Vec<SeqItem> = Vec::new();
            items.push(s[i].1.clone());
            proof {
                assert(items_view(items@) =~= seq![v]);
            }
            out.push((i, items));
            open = true;
            proof {
                assert(item_runs(out@) =~= before.push((i as int, seq![v])));
            }
        }
        i += 1;
    }
    proof {
        assert(q.take(i as int) =~= q);
    }
    out
}

fn char_runs(s: &Vec<(Stamp, char)>, present: &Table<Stamp, ()>) -> (out: Vec<(usize, String)>)
    requires
        present.wf(),
    ensures
        text_runs(out@) == runs(s@, present@.dom()),
{
    let ghost q = s@;
    let ghost p = present@.dom();
    let mut out: Vec<(usize, String)> = Vec::new();
    let mut open = false;
    let mut i: usize = 0;
    proof {
        assert(q.take(0) =~= Seq::empty());
        assert(text_runs(out@) =~= Seq::empty());
    }
    while i < s.len()
        invariant
            present.wf(),
            q == s@,
            p == present@.dom(),
            i <= s@.len(),
            open == (i > 0 && !p.contains(q[i - 1].0)),
            text_runs(out@) == runs(q.take(i as int), p),
        decreases s@.len() - i,
    {
        let ghost before = text_runs(out@);
        proof {
            assert(q.take(i + 1).drop_last() =~= q.take(i as int));
            assert(q.take(i + 1)[i as int] == s@[i as int]);
            if i > 0 {
                assert(q.take(i + 1)[i - 1] == q[i - 1]);
                lemma_open_run(q.take(i as int), p);
            }
        }
        let c = s[i].1;
        if present.contains_key(&s[i].0) {
            open = false;
        } else if open {
            if let Some(last) = out.pop() {
                let (start, mut text) = last;
                let ghost was = text@;
                let ghost rest = out@;
                proof {
                    assert(text_runs(out@) =~= before.drop_last());
                    assert(before.last() == (start as int, was));
                }
                text.push(c);
                out.push((start, text));
                proof {
                    assert(text_runs(out@) =~= text_runs(rest).push((start as int, was.push(c))));
                }
            }
        } else {
            let mut text = String::new();
            text.push(c);
            proof {
                assert(text@ =~= seq![c]);
            }
            out.push((i, text));
            open = true;
            proof {
                assert(text_runs(out@) =~= before.push((i as int, seq![c])));
            }
        }
        i += 1;
    }
    proof {
        assert(q.take(i as int) =~= q);
    }
    out
}

// --- sequences ---

fn item_of(e: &Element) -> (i: SeqItem)
    ensures
        i@ == seq_item(e@),
{
    match e {
        Element::Scalar(s) => SeqItem::Scalar(s.clone()),
        Element::Register(r) => SeqItem::Scalar(r.read().clone()),
        _ => SeqItem::Composite(e.kind()),
    }
}

/// Some ids as a set.
fn id_set(ids: &Vec<Stamp>) -> (t: Table<Stamp, ()>)
    ensures
        t.wf(),
        t@.dom() == ids@.to_set(),
{
    let mut t: Table<Stamp, ()> = Table::new();
    let mut i: usize = 0;
    proof {
        assert(ids@.take(0).to_set() =~= Set::empty());
        assert(t@.dom() =~= Set::empty());
    }
    while i < ids.len()
        invariant
            t.wf(),
            i <= ids@.len(),
            t@.dom() == ids@.take(i as int).to_set(),
        decreases ids@.len() - i,
    {
        proof {
            assert(ids@.take(i + 1) =~= ids@.take(i as int).push(ids@[i as int]));
            lemma_push_set(ids@.take(i as int), ids@[i as int]);
        }
        let id = ids[i];
        t.insert(id, ());
        proof {
            assert(t@.dom() =~= ids@.take(i as int).to_set().insert(id));
        }
        i += 1;
    }
    proof {
        assert(ids@.take(i as int) =~= ids@);
    }
    t
}

fn items_of(l: &List, ids: &Vec<Stamp>) -> (out: Vec<(Stamp, SeqItem)>)
    requires
        l.wf(),
        ids@ == list_live(l@),
    ensures
        pair_items(out@) == item_seq(l@),
{
    let values = l.values();
    let ghost vs = list_values(l@);
    let ghost want = item_seq(l@);
    let mut out: Vec<(Stamp, SeqItem)> = Vec::new();
    let mut i: usize = 0;
    proof {
        assert(values@.map_values(|e: Element| e@).len() == values@.len());
        assert(want.take(0) =~= Seq::empty());
        assert(pair_items(out@) =~= Seq::empty());
    }
    while i < ids.len()
        invariant
            ids@ == list_live(l@),
            vs == list_values(l@),
            want == item_seq(l@),
            vs == values@.map_values(|e: Element| e@),
            values@.len() == ids@.len(),
            i <= ids@.len(),
            pair_items(out@) == want.take(i as int),
        decreases ids@.len() - i,
    {
        proof {
            assert(vs[i as int] == values@[i as int]@);
            assert(want.take(i + 1) =~= want.take(i as int).push(want[i as int]));
        }
        let ghost before = pair_items(out@);
        let item = item_of(&values[i]);
        let ghost v = item@;
        out.push((ids[i], item));
        proof {
            assert(pair_items(out@) =~= before.push((ids@[i as int], v)));
        }
        i += 1;
    }
    proof {
        assert(want.take(i as int) =~= want);
    }
    out
}

fn chars_of(t: &Text, ids: &Vec<Stamp>) -> (out: Vec<(Stamp, char)>)
    requires
        t.wf(),
        ids@ == list_live(t@),
    ensures
        out@ == char_seq(t@),
{
    let values = t.seq.values();
    let ghost vs = list_values(t@);
    let ghost want = char_seq(t@);
    let mut out: Vec<(Stamp, char)> = Vec::new();
    let mut i: usize = 0;
    proof {
        assert(values@.map_values(|e: Element| e@).len() == values@.len());
        assert(want.take(0) =~= Seq::empty());
    }
    while i < ids.len()
        invariant
            t.wf(),
            ids@ == list_live(t@),
            vs == list_values(t@),
            want == char_seq(t@),
            vs == values@.map_values(|e: Element| e@),
            values@.len() == ids@.len(),
            i <= ids@.len(),
            out@ == want.take(i as int),
        decreases ids@.len() - i,
    {
        proof {
            assert(vs[i as int] == values@[i as int]@);
            assert(want.take(i + 1) =~= want.take(i as int).push(want[i as int]));
            t.lemma_live_is_char(i as int);
        }
        if let Some(c) = char_of(&values[i]) {
            out.push((ids[i], c));
        }
        i += 1;
    }
    proof {
        assert(want.take(i as int) =~= want);
    }
    out
}

fn path_bytes(prefix: &KeyPath) -> (p: Vec<u8>)
    requires
        keys_fit(prefix@),
    ensures
        p@ == enc_path(prefix@),
{
    encode_path(prefix.keys.as_slice())
}

/// The changes between two lists, appended.
fn diff_list(was: &List, now: &List, prefix: &KeyPath, out: &mut Vec<Change>)
    requires
        was.wf(),
        now.wf(),
        keys_fit(prefix@),
    ensures
        changes_view(final(out)@) == changes_view(old(out)@) + diff_lists(
            was@,
            now@,
            enc_path(prefix@),
        ),
{
    reveal(diff_lists);
    let old_ids = was.live_order();
    let new_ids = now.live_order();
    let gone = list_runs(&items_of(was, &old_ids), &id_set(&new_ids));
    let came = list_runs(&items_of(now, &new_ids), &id_set(&old_ids));
    let ghost path = enc_path(prefix@);
    let ghost start = changes_view(out@);
    let ghost d = list_deletes(path, item_runs(gone@));
    let ghost n = list_inserts(path, item_runs(came@));
    let mut i: usize = 0;
    proof {
        assert(start + d.take(0) =~= start);
    }
    while i < gone.len()
        invariant
            keys_fit(prefix@),
            path == enc_path(prefix@),
            d == list_deletes(path, item_runs(gone@)),
            i <= gone@.len(),
            changes_view(out@) == start + d.take(i as int),
        decreases gone@.len() - i,
    {
        let ghost before = changes_view(out@);
        let items = copy_items(&gone[i].1);
        let c = Change::ListDelete { path: path_bytes(prefix), index: gone[i].0, items };
        let ghost v = c@;
        out.push(c);
        proof {
            assert(item_runs(gone@)[i as int] == (gone@[i as int].0 as int, items_view(
                gone@[i as int].1@,
            )));
            assert(v == d[i as int]);
            assert(changes_view(out@) =~= before.push(v));
            assert(start + d.take(i + 1) =~= (start + d.take(i as int)).push(d[i as int]));
        }
        i += 1;
    }
    proof {
        assert(d.take(i as int) =~= d);
    }
    let ghost mid = changes_view(out@);
    let mut k: usize = 0;
    proof {
        assert(mid + n.take(0) =~= mid);
    }
    while k < came.len()
        invariant
            keys_fit(prefix@),
            path == enc_path(prefix@),
            n == list_inserts(path, item_runs(came@)),
            k <= came@.len(),
            changes_view(out@) == mid + n.take(k as int),
        decreases came@.len() - k,
    {
        let ghost before = changes_view(out@);
        let items = copy_items(&came[k].1);
        let c = Change::ListInsert { path: path_bytes(prefix), index: came[k].0, items };
        let ghost v = c@;
        out.push(c);
        proof {
            assert(item_runs(came@)[k as int] == (came@[k as int].0 as int, items_view(
                came@[k as int].1@,
            )));
            assert(v == n[k as int]);
            assert(changes_view(out@) =~= before.push(v));
            assert(mid + n.take(k + 1) =~= (mid + n.take(k as int)).push(n[k as int]));
        }
        k += 1;
    }
    proof {
        assert(n.take(k as int) =~= n);
        assert((start + d) + n =~= start + (d + n));
    }
}

fn copy_items(items: &Vec<SeqItem>) -> (out: Vec<SeqItem>)
    ensures
        items_view(out@) == items_view(items@),
{
    let mut out: Vec<SeqItem> = Vec::new();
    let mut i: usize = 0;
    while i < items.len()
        invariant
            i <= items@.len(),
            out@.len() == i,
            forall|j: int| 0 <= j < i ==> (#[trigger] out@[j])@ == items@[j]@,
        decreases items@.len() - i,
    {
        out.push(items[i].clone());
        i += 1;
    }
    proof {
        assert(items_view(out@) =~= items_view(items@));
    }
    out
}

/// The changes between two texts, appended.
fn diff_text(was: &Text, now: &Text, prefix: &KeyPath, out: &mut Vec<Change>)
    requires
        was.wf(),
        now.wf(),
        keys_fit(prefix@),
    ensures
        changes_view(final(out)@) == changes_view(old(out)@) + diff_texts(
            was@,
            now@,
            enc_path(prefix@),
        ),
{
    reveal(diff_texts);
    let old_ids = was.seq.live_order();
    let new_ids = now.seq.live_order();
    let gone = char_runs(&chars_of(was, &old_ids), &id_set(&new_ids));
    let came = char_runs(&chars_of(now, &new_ids), &id_set(&old_ids));
    let ghost path = enc_path(prefix@);
    let ghost start = changes_view(out@);
    let ghost d = text_deletes(path, text_runs(gone@));
    let ghost n = text_inserts(path, text_runs(came@));
    let mut i: usize = 0;
    proof {
        assert(start + d.take(0) =~= start);
    }
    while i < gone.len()
        invariant
            keys_fit(prefix@),
            path == enc_path(prefix@),
            d == text_deletes(path, text_runs(gone@)),
            i <= gone@.len(),
            changes_view(out@) == start + d.take(i as int),
        decreases gone@.len() - i,
    {
        let ghost before = changes_view(out@);
        let text = gone[i].1.clone();
        let c = Change::TextDelete { path: path_bytes(prefix), index: gone[i].0, text };
        let ghost v = c@;
        out.push(c);
        proof {
            assert(text_runs(gone@)[i as int] == (gone@[i as int].0 as int, gone@[i as int].1@));
            assert(v == d[i as int]);
            assert(changes_view(out@) =~= before.push(v));
            assert(start + d.take(i + 1) =~= (start + d.take(i as int)).push(d[i as int]));
        }
        i += 1;
    }
    proof {
        assert(d.take(i as int) =~= d);
    }
    let ghost mid = changes_view(out@);
    let mut k: usize = 0;
    proof {
        assert(mid + n.take(0) =~= mid);
    }
    while k < came.len()
        invariant
            keys_fit(prefix@),
            path == enc_path(prefix@),
            n == text_inserts(path, text_runs(came@)),
            k <= came@.len(),
            changes_view(out@) == mid + n.take(k as int),
        decreases came@.len() - k,
    {
        let ghost before = changes_view(out@);
        let text = came[k].1.clone();
        let c = Change::TextInsert { path: path_bytes(prefix), index: came[k].0, text };
        let ghost v = c@;
        out.push(c);
        proof {
            assert(text_runs(came@)[k as int] == (came@[k as int].0 as int, came@[k as int].1@));
            assert(v == n[k as int]);
            assert(changes_view(out@) =~= before.push(v));
            assert(mid + n.take(k + 1) =~= (mid + n.take(k as int)).push(n[k as int]));
        }
        k += 1;
    }
    proof {
        assert(n.take(k as int) =~= n);
        assert((start + d) + n =~= start + (d + n));
    }
}

// --- maps and slots ---

/// One more change, appended.
fn push_change(out: &mut Vec<Change>, c: Change)
    ensures
        changes_view(final(out)@) == changes_view(old(out)@) + seq![c@],
{
    let ghost v = c@;
    let ghost start = changes_view(out@);
    out.push(c);
    proof {
        assert(changes_view(out@) =~= start + seq![v]);
    }
}

/// One thing replaced by another, appended.
fn push_replaced(out: &mut Vec<Change>, prefix: &KeyPath, a: ElementKind, b: ElementKind)
    requires
        keys_fit(prefix@),
    ensures
        changes_view(final(out)@) == changes_view(old(out)@) + replaced_by(enc_path(prefix@), a, b),
{
    let ghost start = changes_view(out@);
    push_change(out, Change::Removed { path: path_bytes(prefix), kind: a });
    push_change(out, Change::Added { path: path_bytes(prefix), kind: b });
    proof {
        assert(changes_view(out@) =~= start + replaced_by(enc_path(prefix@), a, b));
    }
}

fn leaf_of(e: &Element) -> (s: Scalar)
    ensures
        s@ == leaf_value(e@),
{
    match e {
        Element::Scalar(s) => s.clone(),
        Element::Register(r) => r.read().clone(),
        _ => Scalar::Null,
    }
}

/// The live keys of a map, added.
fn add_keys(m: &LwwMap, keys: &mut Table<Vec<u8>, ()>)
    requires
        m.wf(),
        old(keys).wf(),
    ensures
        final(keys).wf(),
        final(keys)@.dom() == old(keys)@.dom().union(live_keys(m@)),
{
    let ghost e = m.slots.entries@;
    let ghost start = keys@.dom();
    let mut i: usize = 0;
    while i < m.slots.entries.len()
        invariant
            m.wf(),
            keys.wf(),
            e == m.slots.entries@,
            start == old(keys)@.dom(),
            i <= e.len(),
            start.subset_of(keys@.dom()),
            forall|k: Seq<u8>| #[trigger]
                keys@.dom().contains(k) ==> start.contains(k) || live_keys(m@).contains(k),
            forall|j: int|
                0 <= j < i && live_keys(m@).contains((#[trigger] e[j]).0@) ==> keys@.dom().contains(
                    e[j].0@,
                ),
        decreases e.len() - i,
    {
        proof {
            lemma_entry::<Vec<u8>, Slot>(e, i as int);
        }
        let (key, slot) = &m.slots.entries[i];
        if slot.value.is_some() {
            keys.insert(slice_to_vec(key.as_slice()), ());
        }
        i += 1;
    }
    proof {
        assert forall|k: Seq<u8>| live_keys(m@).contains(k) implies keys@.dom().contains(k) by {
            let j = index_of::<Vec<u8>, Slot>(e, k);
            assert(e[j].0@ == k);
        }
        assert(keys@.dom() =~= start.union(live_keys(m@)));
    }
}

/// What the counter a handle names reads as.
fn read_counter(t: &Tree, id: ElementId) -> (n: i64)
    requires
        t.wf(),
        t@.diffable(),
    ensures
        n == t@.counter_value(id),
{
    match t.counters.get(id) {
        Some(c) => {
            proof {
                c.lemma_total();
                assert(i64::MIN <= count_of(t@.counters[id].tallies) <= i64::MAX);
            }
            c.read()
        },
        None => 0,
    }
}

/// The changes between the sequences two handles name, appended.
fn diff_lists_of(
    a: &Tree,
    b: &Tree,
    i: ElementId,
    j: ElementId,
    prefix: &KeyPath,
    out: &mut Vec<Change>,
    fuel: u128,
)
    requires
        a.wf(),
        b.wf(),
        a@.diffable(),
        b@.diffable(),
        keys_fit(prefix@),
    ensures
        changes_view(final(out)@) == changes_view(old(out)@) + diff_seqs(
            a@,
            b@,
            a@.list_of(i),
            b@.list_of(j),
            prefix@,
            fuel as nat,
        ),
    decreases fuel, 0nat,
{
    let none = List::new(i);
    let nil = List::new(j);
    let was = match a.lists.get(i) {
        Some(l) => l,
        None => &none,
    };
    let now = match b.lists.get(j) {
        Some(l) => l,
        None => &nil,
    };
    let ghost start = changes_view(out@);
    diff_list(was, now, prefix, out);
    let ghost runs = diff_lists(was@, now@, enc_path(prefix@));
    if fuel > 0 {
        diff_shared(a, b, was, now, prefix, out, fuel - 1);
        proof {
            let inside = diff_items(
                a@,
                b@,
                was@,
                now@,
                shared_ids(was@, now@),
                prefix@,
                (fuel - 1) as nat,
            );
            assert((start + runs) + inside =~= start + (runs + inside));
        }
    } else {
        proof {
            assert(start + runs =~= start + (runs + Seq::<ChangeV>::empty()));
        }
    }
}

/// The ids that are in both of two lists, as a set.
fn shared_set(old_ids: &Vec<Stamp>, new_ids: &Vec<Stamp>) -> (both: Table<Stamp, ()>)
    ensures
        both.wf(),
        both@.dom() == old_ids@.to_set().intersect(new_ids@.to_set()),
{
    let olds = id_set(old_ids);
    let mut both: Table<Stamp, ()> = Table::new();
    let mut i: usize = 0;
    proof {
        assert(both@.dom() =~= old_ids@.to_set().intersect(new_ids@.take(0).to_set()));
    }
    while i < new_ids.len()
        invariant
            olds.wf(),
            olds@.dom() == old_ids@.to_set(),
            both.wf(),
            i <= new_ids@.len(),
            both@.dom() == old_ids@.to_set().intersect(new_ids@.take(i as int).to_set()),
        decreases new_ids@.len() - i,
    {
        let id = new_ids[i];
        proof {
            assert(new_ids@.take(i + 1) =~= new_ids@.take(i as int).push(id));
            lemma_push_set(new_ids@.take(i as int), id);
        }
        if olds.contains_key(&id) {
            both.insert(id, ());
        }
        proof {
            assert(both@.dom() =~= old_ids@.to_set().intersect(new_ids@.take(i + 1).to_set()));
        }
        i += 1;
    }
    proof {
        assert(new_ids@.take(i as int) =~= new_ids@);
    }
    both
}

/// The path of an item of a sequence.
fn path_of_item(prefix: &KeyPath, id: Stamp) -> (at: KeyPath)
    requires
        keys_fit(prefix@),
    ensures
        at@ == item_path(prefix@, id),
        keys_fit(at@),
{
    let mut key: Vec<u8> = Vec::new();
    put_stamp(&mut key, &id);
    proof {
        assert(key@ =~= enc_stamp(id));
        lemma_item_key_fits(id);
        assert forall|k: int| 0 <= k < item_path(prefix@, id).len() implies fits_u32(
            (#[trigger] item_path(prefix@, id)[k]).len(),
        ) by {
            if k < prefix@.len() {
                assert(item_path(prefix@, id)[k] == prefix@[k]);
            }
        }
    }
    prefix.child(key.as_slice())
}

/// An id's bytes fit a path.
pub(crate) proof fn lemma_item_key_fits(id: Stamp)
    ensures
        fits_u32(enc_stamp(id).len()),
{
    reveal(enc_stamp);
    lemma_le_bytes_len(id.lamport as nat, 8);
    lemma_be_bytes_len(id.client.bits as nat, 16);
}

fn names_container(e: &Element) -> (b: bool)
    ensures
        b == e@.is_handle(),
{
    match e {
        Element::Scalar(_) => false,
        Element::Register(_) => false,
        _ => true,
    }
}

/// The changes inside the items two sequences share, appended.
fn diff_shared(
    a: &Tree,
    b: &Tree,
    was: &List,
    now: &List,
    prefix: &KeyPath,
    out: &mut Vec<Change>,
    fuel: u128,
)
    requires
        a.wf(),
        b.wf(),
        a@.diffable(),
        b@.diffable(),
        was.wf(),
        now.wf(),
        keys_fit(prefix@),
    ensures
        changes_view(final(out)@) == changes_view(old(out)@) + diff_items(
            a@,
            b@,
            was@,
            now@,
            shared_ids(was@, now@),
            prefix@,
            fuel as nat,
        ),
    decreases fuel, 3nat,
{
    let both = shared_set(&was.live_order(), &now.live_order());
    let ghost e = both.entries@;
    let ghost q = seq_keys(e);
    let ghost start = changes_view(out@);
    let mut k: usize = 0;
    proof {
        lemma_ordered::<Stamp, ()>(e);
        assert(q == shared_ids(was@, now@));
        assert(q.take(0) =~= Seq::empty());
        assert(start + Seq::<ChangeV>::empty() =~= start);
    }
    while k < both.entries.len()
        invariant
            a.wf(),
            b.wf(),
            a@.diffable(),
            b@.diffable(),
            was.wf(),
            now.wf(),
            keys_fit(prefix@),
            both.wf(),
            e == both.entries@,
            q == seq_keys(e),
            k <= e.len(),
            changes_view(out@) == start + diff_items(
                a@,
                b@,
                was@,
                now@,
                q.take(k as int),
                prefix@,
                fuel as nat,
            ),
        decreases e.len() - k,
    {
        let ghost before = changes_view(out@);
        let id = both.entries[k].0;
        proof {
            assert(q.take(k + 1).drop_last() =~= q.take(k as int));
            assert(q.take(k + 1).last() == id);
            assert(before + Seq::<ChangeV>::empty() =~= before);
        }
        match (was.node_value(id), now.node_value(id)) {
            (Some(x), Some(y)) => {
                if names_container(&x) && names_container(&y) {
                    let at = path_of_item(prefix, id);
                    diff_elem(a, b, &x, &y, &at, out, fuel);
                }
            },
            _ => {},
        }
        proof {
            let one = diff_item(a@, b@, was@, now@, id, prefix@, fuel as nat);
            let rest = diff_items(a@, b@, was@, now@, q.take(k as int), prefix@, fuel as nat);
            assert(changes_view(out@) == before + one);
            assert((start + rest) + one =~= start + (rest + one));
        }
        k += 1;
    }
    proof {
        assert(q.take(k as int) =~= q);
    }
}

fn diff_texts_of(
    a: &Tree,
    b: &Tree,
    i: ElementId,
    j: ElementId,
    prefix: &KeyPath,
    out: &mut Vec<Change>,
)
    requires
        a.wf(),
        b.wf(),
        keys_fit(prefix@),
    ensures
        changes_view(final(out)@) == changes_view(old(out)@) + diff_texts(
            a@.text_seq(i),
            b@.text_seq(j),
            enc_path(prefix@),
        ),
{
    let none = Text::new(i);
    let nil = Text::new(j);
    let old = match a.texts.get(i) {
        Some(t) => t,
        None => &none,
    };
    let new = match b.texts.get(j) {
        Some(t) => t,
        None => &nil,
    };
    diff_text(old, new, prefix, out);
}

fn same_tag(a: &Tree, b: &Tree, i: ElementId, j: ElementId) -> (r: bool)
    requires
        a.wf(),
        b.wf(),
    ensures
        r == (a@.tag_of(i) == b@.tag_of(j)),
{
    let none: Vec<u8> = Vec::new();
    let x = match a.xml_elements.get(i) {
        Some(e) => e.tag.as_slice(),
        None => none.as_slice(),
    };
    let y = match b.xml_elements.get(j) {
        Some(e) => e.tag.as_slice(),
        None => none.as_slice(),
    };
    bytes_eq(x, y)
}

/// The changes between two maps, appended.
fn diff_map(
    a: &Tree,
    b: &Tree,
    i: ElementId,
    j: ElementId,
    prefix: &KeyPath,
    out: &mut Vec<Change>,
    fuel: u128,
)
    requires
        a.wf(),
        b.wf(),
        a@.diffable(),
        b@.diffable(),
        keys_fit(prefix@),
    ensures
        changes_view(final(out)@) == changes_view(old(out)@) + diff_keys(
            a@,
            b@,
            a@.map_of(i),
            b@.map_of(j),
            both_keys(a@.map_of(i), b@.map_of(j)),
            prefix@,
            fuel as nat,
        ),
    decreases fuel, 3nat,
{
    let none = LwwMap::new(i);
    let nil = LwwMap::new(j);
    let m = match a.maps.get(i) {
        Some(m) => m,
        None => &none,
    };
    let n = match b.maps.get(j) {
        Some(m) => m,
        None => &nil,
    };
    let mut keys: Table<Vec<u8>, ()> = Table::new();
    add_keys(m, &mut keys);
    add_keys(n, &mut keys);
    let ghost e = keys.entries@;
    let ghost q = seq_keys(e);
    let ghost start = changes_view(out@);
    let mut k: usize = 0;
    proof {
        assert(keys@.dom() =~= live_keys(m@).union(live_keys(n@)));
        lemma_ordered::<Vec<u8>, ()>(e);
        assert(q == both_keys(m@, n@));
        assert(q.take(0) =~= Seq::empty());
        assert(start + Seq::<ChangeV>::empty() =~= start);
    }
    while k < keys.entries.len()
        invariant
            a.wf(),
            b.wf(),
            a@.diffable(),
            b@.diffable(),
            keys_fit(prefix@),
            m.wf(),
            n.wf(),
            m@ == a@.map_of(i),
            n@ == b@.map_of(j),
            keys.wf(),
            e == keys.entries@,
            q == seq_keys(e),
            keys@.dom() == live_keys(m@).union(live_keys(n@)),
            k <= e.len(),
            changes_view(out@) == start + diff_keys(
                a@,
                b@,
                m@,
                n@,
                q.take(k as int),
                prefix@,
                fuel as nat,
            ),
        decreases e.len() - k,
    {
        let ghost before = changes_view(out@);
        let key = keys.entries[k].0.as_slice();
        proof {
            lemma_entry::<Vec<u8>, ()>(e, k as int);
            assert(keys@.dom().contains(key@));
            assert(q.take(k + 1).drop_last() =~= q.take(k as int));
            assert(q.take(k + 1).last() == key@);
            assert(fits_u32(key@.len())) by {
                if live_keys(m@).contains(key@) {
                    assert(a@.maps[i].slots.dom().contains(key@));
                } else {
                    assert(b@.maps[j].slots.dom().contains(key@));
                }
            }
        }
        let at = prefix.child(key);
        proof {
            assert(keys_fit(at@)) by {
                assert forall|x: int| 0 <= x < at@.len() implies fits_u32(
                    (#[trigger] at@[x]).len(),
                ) by {
                    if x < prefix@.len() {
                        assert(at@[x] == prefix@[x]);
                    }
                }
            }
        }
        match (m.get(key), n.get(key)) {
            (None, Some(y)) => push_change(
                out,
                Change::Added { path: path_bytes(&at), kind: y.kind() },
            ),
            (Some(x), None) => push_change(
                out,
                Change::Removed { path: path_bytes(&at), kind: x.kind() },
            ),
            (Some(x), Some(y)) => diff_elem(a, b, &x, &y, &at, out, fuel),
            (None, None) => {
                proof {
                    assert(before + Seq::<ChangeV>::empty() =~= before);
                }
            },
        }
        proof {
            let one = diff_key(a@, b@, m@, n@, key@, prefix@, fuel as nat);
            let rest = diff_keys(a@, b@, m@, n@, q.take(k as int), prefix@, fuel as nat);
            assert(changes_view(out@) == before + one);
            assert((start + rest) + one =~= start + (rest + one));
        }
        k += 1;
    }
    proof {
        assert(q.take(k as int) =~= q);
    }
}

/// The changes between two values at one slot, appended.
fn diff_elem(
    a: &Tree,
    b: &Tree,
    x: &Element,
    y: &Element,
    prefix: &KeyPath,
    out: &mut Vec<Change>,
    fuel: u128,
)
    requires
        a.wf(),
        b.wf(),
        a@.diffable(),
        b@.diffable(),
        keys_fit(prefix@),
    ensures
        changes_view(final(out)@) == changes_view(old(out)@) + diff_elements(
            a@,
            b@,
            x@,
            y@,
            prefix@,
            fuel as nat,
        ),
    decreases fuel, 1nat,
{
    let ghost start = changes_view(out@);
    proof {
        assert(start + Seq::<ChangeV>::empty() =~= start);
    }
    if x.kind() != y.kind() {
        push_replaced(out, prefix, x.kind(), y.kind());
        return;
    }
    match (x, y) {
        (Element::LwwMap(i), Element::LwwMap(j)) => {
            if fuel > 0 {
                diff_map(a, b, *i, *j, prefix, out, fuel - 1);
            }
        },
        (Element::Counter(i), Element::Counter(j)) => {
            let old: i64 = read_counter(a, *i);
            let new: i64 = read_counter(b, *j);
            if old != new {
                push_change(out, Change::Counter { path: path_bytes(prefix), old, new });
            }
        },
        (Element::List(i), Element::List(j)) => diff_lists_of(a, b, *i, *j, prefix, out, fuel),
        (Element::Text(i), Element::Text(j)) => diff_texts_of(a, b, *i, *j, prefix, out),
        (Element::XmlElement(i), Element::XmlElement(j)) => {
            if !same_tag(a, b, *i, *j) {
                push_replaced(out, prefix, ElementKind::XmlElement, ElementKind::XmlElement);
            } else if fuel > 0 {
                diff_lists_of(
                    a,
                    b,
                    XmlElement::children_id(*i),
                    XmlElement::children_id(*j),
                    prefix,
                    out,
                    fuel,
                );
                diff_map(
                    a,
                    b,
                    XmlElement::attrs_id(*i),
                    XmlElement::attrs_id(*j),
                    prefix,
                    out,
                    fuel - 1,
                );
                proof {
                    let kids = diff_seqs(
                        a@,
                        b@,
                        a@.list_of(node_children_id(*i)),
                        b@.list_of(node_children_id(*j)),
                        prefix@,
                        fuel as nat,
                    );
                    let m = a@.map_of(node_attrs_id(*i));
                    let n = b@.map_of(node_attrs_id(*j));
                    let attrs = diff_keys(
                        a@,
                        b@,
                        m,
                        n,
                        both_keys(m, n),
                        prefix@,
                        (fuel - 1) as nat,
                    );
                    assert((start + kids) + attrs =~= start + (kids + attrs));
                }
            }
        },
        (Element::XmlFragment(i), Element::XmlFragment(j)) => diff_lists_of(
            a,
            b,
            XmlFragment::children_id(*i),
            XmlFragment::children_id(*j),
            prefix,
            out,
            fuel,
        ),
        _ => {
            let old = leaf_of(x);
            let new = leaf_of(y);
            if !old.same(&new) {
                push_change(out, Change::Value { path: path_bytes(prefix), old, new });
            }
        },
    }
}

fn brings_new(c: &Change) -> (b: bool)
    ensures
        b == brings(c@),
{
    match c {
        Change::Added { .. } => true,
        Change::ListInsert { .. } => true,
        Change::TextInsert { .. } => true,
        _ => false,
    }
}

/// Whether a change comes before another.
fn comes_before(c: &Change, d: &Change) -> (b: bool)
    ensures
        b == change_before(c@, d@),
{
    let p = keys_of(c);
    let q = keys_of(d);
    if keys_before(&p, &q) {
        return true;
    }
    if brings_new(c) || !brings_new(d) {
        return false;
    }
    proof {
        lemma_path_total(byte_strings(p@), byte_strings(q@));
    }
    !keys_before(&q, &p)
}

fn keys_before(p: &Vec<Vec<u8>>, q: &Vec<Vec<u8>>) -> (b: bool)
    ensures
        b == path_before(byte_strings(p@), byte_strings(q@)),
{
    let ghost x = byte_strings(p@);
    let ghost y = byte_strings(q@);
    let mut i: usize = 0;
    proof {
        assert(x.skip(0) =~= x && y.skip(0) =~= y);
    }
    while i < p.len() && i < q.len()
        invariant
            x == byte_strings(p@),
            y == byte_strings(q@),
            i <= x.len(),
            i <= y.len(),
            path_before(x, y) == path_before(x.skip(i as int), y.skip(i as int)),
        decreases x.len() - i,
    {
        proof {
            assert(x.skip(i as int)[0] == p@[i as int]@ && y.skip(i as int)[0] == q@[i as int]@);
            assert(x.skip(i as int).skip(1) =~= x.skip(i + 1));
            assert(y.skip(i as int).skip(1) =~= y.skip(i + 1));
        }
        if !bytes_eq(p[i].as_slice(), q[i].as_slice()) {
            return bytes_less(p[i].as_slice(), q[i].as_slice());
        }
        i += 1;
    }
    i < q.len()
}

/// The keys of the path a change is at.
fn keys_of(c: &Change) -> (keys: Vec<Vec<u8>>)
    ensures
        byte_strings(keys@) == change_keys(c@),
{
    let path = match c {
        Change::Added { path, .. } => path,
        Change::Removed { path, .. } => path,
        Change::Value { path, .. } => path,
        Change::Counter { path, .. } => path,
        Change::ListInsert { path, .. } => path,
        Change::ListDelete { path, .. } => path,
        Change::TextInsert { path, .. } => path,
        Change::TextDelete { path, .. } => path,
    };
    match parse_path(path.as_slice()) {
        Some(keys) => keys,
        None => {
            let none: Vec<Vec<u8>> = Vec::new();
            proof {
                assert(byte_strings(none@) =~= Seq::empty());
            }
            none
        },
    }
}

/// A change put among those that came before, in path order.
fn put_in_order(out: &mut Vec<Change>, c: Change)
    ensures
        changes_view(final(out)@) == put_change(changes_view(old(out)@), c@),
{
    let ghost s = changes_view(out@);
    let ghost v = c@;
    let mut i: usize = out.len();
    proof {
        assert(s.take(i as int) =~= s);
        assert(put_change(s, v) =~= put_change(s.take(i as int), v) + s.skip(i as int));
    }
    while i > 0 && comes_before(&c, &out[i - 1])
        invariant
            s == changes_view(out@),
            out@ == old(out)@,
            v == c@,
            i <= out@.len(),
            put_change(s, v) == put_change(s.take(i as int), v) + s.skip(i as int),
        decreases i,
    {
        proof {
            let t = s.take(i as int);
            assert(t.last() == s[i - 1] && s[i - 1] == out@[i - 1]@);
            assert(t.drop_last() =~= s.take(i - 1));
            let u = put_change(s.take(i - 1), v);
            assert(put_change(t, v) == u.push(s[i - 1]));
            assert(u.push(s[i - 1]) + s.skip(i as int) =~= u + s.skip(i - 1));
        }
        i -= 1;
    }
    proof {
        if i > 0 {
            assert(s.take(i as int).last() == out@[i - 1]@);
        }
        assert(put_change(s.take(i as int), v) == s.take(i as int).push(v));
    }
    out.insert(i, c);
    proof {
        assert(changes_view(out@) =~= s.take(i as int).push(v) + s.skip(i as int));
    }
}

/// Changes in path order.
fn sorted_changes(raw: Vec<Change>) -> (out: Vec<Change>)
    ensures
        changes_view(out@) == by_path(changes_view(raw@)),
{
    let ghost all = changes_view(raw@);
    let mut from: Vec<Change> = raw;
    let mut back: Vec<Change> = Vec::new();
    while from.len() > 0
        invariant
            from@.len() + back@.len() == all.len(),
            changes_view(from@) == all.take(from@.len() as int),
            forall|i: int|
                0 <= i < back@.len() ==> (#[trigger] back@[i])@ == all[all.len() - 1 - i],
        decreases from@.len(),
    {
        let ghost n = from@.len();
        let ghost before = from@;
        if let Some(c) = from.pop() {
            proof {
                assert(changes_view(before)[n - 1] == before[n - 1]@);
                assert(changes_view(from@) =~= all.take(n - 1));
            }
            back.push(c);
        }
    }
    let mut out: Vec<Change> = Vec::new();
    proof {
        assert(changes_view(out@) =~= by_path(all.take(0)));
    }
    while back.len() > 0
        invariant
            back@.len() <= all.len(),
            forall|i: int|
                0 <= i < back@.len() ==> (#[trigger] back@[i])@ == all[all.len() - 1 - i],
            changes_view(out@) == by_path(all.take(all.len() - back@.len())),
        decreases back@.len(),
    {
        let ghost n = back@.len();
        if let Some(c) = back.pop() {
            proof {
                let k = all.len() - n;
                assert(c@ == all[k]);
                assert(all.take(k + 1).drop_last() =~= all.take(k));
            }
            put_in_order(&mut out, c);
        }
    }
    proof {
        assert(all.take(all.len() as int) =~= all);
    }
    out
}

/// The structural changes that turn `old` into `new`, ordered by path.
pub fn diff(old: &Document, new: &Document) -> (out: Vec<Change>)
    requires
        old.wf(),
        new.wf(),
        old@.tree.diffable(),
        new@.tree.diffable(),
    ensures
        changes_view(out@) == diff_trees(old@.tree, new@.tree),
{
    let mut out: Vec<Change> = Vec::new();
    let prefix = KeyPath::root();
    let fuel: u128 = old.tree.maps.len() as u128 + new.tree.maps.len() as u128
        + old.tree.lists.len() as u128 + new.tree.lists.len() as u128;
    proof {
        assert(changes_view(out@) =~= Seq::empty());
        assert(prefix@ =~= Seq::empty());
    }
    diff_map(&old.tree, &new.tree, root_id(), root_id(), &prefix, &mut out, fuel);
    proof {
        let root = ElementV::LwwMap(root_element());
        assert(changes_view(out@) =~= diff_elements(
            old@.tree,
            new@.tree,
            root,
            root,
            Seq::empty(),
            depth_bound(old@.tree, new@.tree),
        ));
    }
    sorted_changes(out)
}

} // verus!
