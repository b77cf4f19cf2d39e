//! Structural changes between two snapshots, and their byte form.
//!
//! A change list is a count, then each change led by a tag. It carries a computed result
//! from one side of a boundary to the other and is never stored.

use crate::codec::{
    len_u32, put_bytes, put_i64, put_scalar, put_text, put_u32, put_u64, put_u8, reads, reads_view,
    Cursor,
};
use crate::elementid::{law_kind_tags_round_trip, ElementKind};
use crate::format::{
    enc_bytes, enc_i64, enc_scalar, enc_text, enc_u32, enc_u64, enc_u8, exactly, fits_u32,
    lemma_concat_assoc, lemma_concat_empty, parse_bytes, parse_i64, parse_scalar, parse_text,
    parse_u32, parse_u64, parse_u8, scalar_fits, DecodeError, Parsed,
};
use crate::many::{
    enc_many, lemma_enc_many_none, lemma_enc_many_take, lemma_fold_reads_back, parse_fold,
};
use crate::roundtrip::{
    can_bytes, can_i64, can_scalar, can_text, can_u32, can_u64, can_u8, rt_bytes, rt_i64,
    rt_scalar, rt_text, rt_u32, rt_u64, rt_u8,
};
use crate::scalar::{Scalar, ScalarV};
use vstd::prelude::*;
use vstd::utf8::encode_utf8;

verus! {

/// One structural change between two snapshots, addressed by its path.
#[derive(PartialEq, Eq, Debug)]
pub enum Change {
    /// A slot the new snapshot has and the old has not.
    Added { path: Vec<u8>, kind: ElementKind },
    /// A slot the old snapshot has and the new has not.
    Removed { path: Vec<u8>, kind: ElementKind },
    /// A scalar leaf, inline or in a register, whose value changed.
    Value { path: Vec<u8>, old: Scalar, new: Scalar },
    /// A counter whose value changed.
    Counter { path: Vec<u8>, old: i64, new: i64 },
    /// A run of items inserted into a list, at its index in the new list.
    ListInsert { path: Vec<u8>, index: usize, items: Vec<SeqItem> },
    /// A run of items deleted from a list, at its index in the old list.
    ListDelete { path: Vec<u8>, index: usize, items: Vec<SeqItem> },
    /// A run of codepoints inserted into a text, at its index in the new text.
    TextInsert { path: Vec<u8>, index: usize, text: String },
    /// A run of codepoints deleted from a text, at its index in the old text.
    TextDelete { path: Vec<u8>, index: usize, text: String },
}

/// A list item in a change: a scalar value, or a composite's kind. What changed inside a
/// composite is reported at its own path.
#[derive(PartialEq, Eq, Debug)]
pub enum SeqItem {
    Scalar(Scalar),
    Composite(ElementKind),
}

/// A change as a value.
pub enum ChangeV {
    Added { path: Seq<u8>, kind: ElementKind },
    Removed { path: Seq<u8>, kind: ElementKind },
    Value { path: Seq<u8>, old: ScalarV, new: ScalarV },
    Counter { path: Seq<u8>, old: i64, new: i64 },
    ListInsert { path: Seq<u8>, index: usize, items: Seq<SeqItemV> },
    ListDelete { path: Seq<u8>, index: usize, items: Seq<SeqItemV> },
    TextInsert { path: Seq<u8>, index: usize, text: Seq<char> },
    TextDelete { path: Seq<u8>, index: usize, text: Seq<char> },
}

/// A list item in a change, as a value.
pub enum SeqItemV {
    Scalar(ScalarV),
    Composite(ElementKind),
}

impl View for SeqItem {
    type V = SeqItemV;

    open spec fn view(&self) -> SeqItemV {
        match *self {
            SeqItem::Scalar(s) => SeqItemV::Scalar(s@),
            SeqItem::Composite(k) => SeqItemV::Composite(k),
        }
    }
}

pub open spec fn items_view(items: Seq<SeqItem>) -> Seq<SeqItemV> {
    items.map_values(|i: SeqItem| i@)
}

impl View for Change {
    type V = ChangeV;

    open spec fn view(&self) -> ChangeV {
        match *self {
            Change::Added { path, kind } => ChangeV::Added { path: path@, kind },
            Change::Removed { path, kind } => ChangeV::Removed { path: path@, kind },
            Change::Value { path, old, new } => ChangeV::Value {
                path: path@,
                old: old@,
                new: new@,
            },
            Change::Counter { path, old, new } => ChangeV::Counter { path: path@, old, new },
            Change::ListInsert { path, index, items } => ChangeV::ListInsert {
                path: path@,
                index,
                items: items_view(items@),
            },
            Change::ListDelete { path, index, items } => ChangeV::ListDelete {
                path: path@,
                index,
                items: items_view(items@),
            },
            Change::TextInsert { path, index, text } => ChangeV::TextInsert {
                path: path@,
                index,
                text: text@,
            },
            Change::TextDelete { path, index, text } => ChangeV::TextDelete {
                path: path@,
                index,
                text: text@,
            },
        }
    }
}

pub open spec fn changes_view(changes: Seq<Change>) -> Seq<ChangeV> {
    changes.map_values(|c: Change| c@)
}

impl Clone for SeqItem {
    fn clone(&self) -> (r: Self)
        ensures
            r@ == self@,
    {
        match self {
            SeqItem::Scalar(s) => SeqItem::Scalar(s.clone()),
            SeqItem::Composite(k) => SeqItem::Composite(*k),
        }
    }
}

// --- the format ---

pub open spec fn enc_item(item: SeqItemV) -> Seq<u8> {
    match item {
        SeqItemV::Scalar(s) => enc_u8(0) + enc_scalar(s),
        SeqItemV::Composite(k) => enc_u8(1) + enc_u8(k.spec_tag()),
    }
}

pub open spec fn item_enc() -> spec_fn(SeqItemV) -> Seq<u8> {
    |i: SeqItemV| enc_item(i)
}

#[verifier::opaque]
pub open spec fn enc_items(items: Seq<SeqItemV>) -> Seq<u8> {
    enc_u32(items.len() as u32) + enc_many(items, item_enc())
}

#[verifier::opaque]
pub open spec fn enc_change(c: ChangeV) -> Seq<u8> {
    match c {
        ChangeV::Added { path, kind } => enc_u8(0) + enc_bytes(path) + enc_u8(kind.spec_tag()),
        ChangeV::Removed { path, kind } => enc_u8(1) + enc_bytes(path) + enc_u8(kind.spec_tag()),
        ChangeV::Value { path, old, new } => enc_u8(2) + enc_bytes(path) + enc_scalar(old)
            + enc_scalar(new),
        ChangeV::Counter { path, old, new } => enc_u8(3) + enc_bytes(path) + enc_i64(old) + enc_i64(
            new,
        ),
        ChangeV::ListInsert { path, index, items } => enc_u8(4) + enc_bytes(path) + enc_u64(
            index as u64,
        ) + enc_items(items),
        ChangeV::ListDelete { path, index, items } => enc_u8(5) + enc_bytes(path) + enc_u64(
            index as u64,
        ) + enc_items(items),
        ChangeV::TextInsert { path, index, text } => enc_u8(6) + enc_bytes(path) + enc_u64(
            index as u64,
        ) + enc_text(text),
        ChangeV::TextDelete { path, index, text } => enc_u8(7) + enc_bytes(path) + enc_u64(
            index as u64,
        ) + enc_text(text),
    }
}

pub open spec fn change_enc() -> spec_fn(ChangeV) -> Seq<u8> {
    |c: ChangeV| enc_change(c)
}

pub open spec fn enc_changes(changes: Seq<ChangeV>) -> Seq<u8> {
    enc_u32(changes.len() as u32) + enc_many(changes, change_enc())
}

pub open spec fn item_fits(item: SeqItemV) -> bool {
    item matches SeqItemV::Scalar(s) ==> scalar_fits(s)
}

pub open spec fn items_fit(items: Seq<SeqItemV>) -> bool {
    fits_u32(items.len()) && forall|i: int| 0 <= i < items.len() ==> item_fits(#[trigger] items[i])
}

/// Whether no length of a change is past its prefix.
pub open spec fn change_fits(c: ChangeV) -> bool {
    match c {
        ChangeV::Added { path, kind } => fits_u32(path.len()),
        ChangeV::Removed { path, kind } => fits_u32(path.len()),
        ChangeV::Value { path, old, new } => fits_u32(path.len()) && scalar_fits(old)
            && scalar_fits(new),
        ChangeV::Counter { path, old, new } => fits_u32(path.len()),
        ChangeV::ListInsert { path, index, items } => fits_u32(path.len()) && items_fit(items),
        ChangeV::ListDelete { path, index, items } => fits_u32(path.len()) && items_fit(items),
        ChangeV::TextInsert { path, index, text } => fits_u32(path.len()) && fits_u32(
            encode_utf8(text).len(),
        ),
        ChangeV::TextDelete { path, index, text } => fits_u32(path.len()) && fits_u32(
            encode_utf8(text).len(),
        ),
    }
}

pub open spec fn changes_fit(changes: Seq<ChangeV>) -> bool {
    fits_u32(changes.len()) && forall|i: int|
        0 <= i < changes.len() ==> change_fits(#[trigger] changes[i])
}

pub open spec fn parse_kind(s: Seq<u8>) -> Parsed<ElementKind> {
    match parse_u8(s) {
        Err(e) => Err(e),
        Ok((tag, r)) => match ElementKind::spec_from_tag(tag) {
            Some(k) => Ok((k, r)),
            None => Err(DecodeError::BadTag { what: "element kind", tag }),
        },
    }
}

pub open spec fn parse_item(s: Seq<u8>) -> Parsed<SeqItemV> {
    match parse_u8(s) {
        Err(e) => Err(e),
        Ok((0u8, r)) => match parse_scalar(r) {
            Err(e) => Err(e),
            Ok((v, r)) => Ok((SeqItemV::Scalar(v), r)),
        },
        Ok((1u8, r)) => match parse_kind(r) {
            Err(e) => Err(e),
            Ok((k, r)) => Ok((SeqItemV::Composite(k), r)),
        },
        Ok((tag, _)) => Err(DecodeError::BadTag { what: "diff item", tag }),
    }
}

/// One item read after those before it.
pub open spec fn item_step() -> spec_fn(Seq<SeqItemV>, Seq<u8>) -> Parsed<Seq<SeqItemV>> {
    |acc: Seq<SeqItemV>, s: Seq<u8>|
        match parse_item(s) {
            Err(e) => Err(e),
            Ok((i, r)) => Ok((acc.push(i), r)),
        }
}

pub open spec fn parse_items(s: Seq<u8>) -> Parsed<Seq<SeqItemV>> {
    match parse_u32(s) {
        Err(e) => Err(e),
        Ok((n, r)) => parse_fold(r, n as nat, Seq::empty(), item_step()),
    }
}

/// A change's fields after its tag and path.
pub open spec fn parse_change_body(tag: u8, path: Seq<u8>, s: Seq<u8>) -> Parsed<ChangeV> {
    match tag {
        0u8 => match parse_kind(s) {
            Err(e) => Err(e),
            Ok((kind, r)) => Ok((ChangeV::Added { path, kind }, r)),
        },
        1u8 => match parse_kind(s) {
            Err(e) => Err(e),
            Ok((kind, r)) => Ok((ChangeV::Removed { path, kind }, r)),
        },
        2u8 => match parse_scalar(s) {
            Err(e) => Err(e),
            Ok((old, r)) => match parse_scalar(r) {
                Err(e) => Err(e),
                Ok((new, r)) => Ok((ChangeV::Value { path, old, new }, r)),
            },
        },
        3u8 => match parse_i64(s) {
            Err(e) => Err(e),
            Ok((old, r)) => match parse_i64(r) {
                Err(e) => Err(e),
                Ok((new, r)) => Ok((ChangeV::Counter { path, old, new }, r)),
            },
        },
        _ => match parse_u64(s) {
            Err(e) => Err(e),
            Ok((n, r)) => if tag == 4 || tag == 5 {
                match parse_items(r) {
                    Err(e) => Err(e),
                    Ok((items, r)) => if tag == 4 {
                        Ok((ChangeV::ListInsert { path, index: n as usize, items }, r))
                    } else {
                        Ok((ChangeV::ListDelete { path, index: n as usize, items }, r))
                    },
                }
            } else {
                match parse_text(r) {
                    Err(e) => Err(e),
                    Ok((text, r)) => if tag == 6 {
                        Ok((ChangeV::TextInsert { path, index: n as usize, text }, r))
                    } else {
                        Ok((ChangeV::TextDelete { path, index: n as usize, text }, r))
                    },
                }
            },
        },
    }
}

#[verifier::opaque]
pub open spec fn parse_change(s: Seq<u8>) -> Parsed<ChangeV> {
    match parse_u8(s) {
        Err(e) => Err(e),
        Ok((tag, r)) => if tag > 7 {
            Err(DecodeError::BadTag { what: "diff change", tag })
        } else {
            match parse_bytes(r) {
                Err(e) => Err(e),
                Ok((path, r)) => parse_change_body(tag, path, r),
            }
        },
    }
}

pub open spec fn change_step() -> spec_fn(Seq<ChangeV>, Seq<u8>) -> Parsed<Seq<ChangeV>> {
    |acc: Seq<ChangeV>, s: Seq<u8>|
        match parse_change(s) {
            Err(e) => Err(e),
            Ok((c, r)) => Ok((acc.push(c), r)),
        }
}

/// A byte string read as a change list.
pub open spec fn parse_changes(s: Seq<u8>) -> Result<Seq<ChangeV>, DecodeError> {
    exactly(
        match parse_u32(s) {
            Err(e) => Err(e),
            Ok((n, r)) => parse_fold(r, n as nat, Seq::empty(), change_step()),
        },
    )
}

// --- writing ---

fn put_item(out: &mut Vec<u8>, item: &SeqItem)
    requires
        item_fits(item@),
    ensures
        final(out)@ == old(out)@ + enc_item(item@),
{
    let ghost start = out@;
    match item {
        SeqItem::Scalar(s) => {
            put_u8(out, 0);
            put_scalar(out, s);
            proof {
                lemma_concat_assoc(start, enc_u8(0), enc_scalar(s@));
            }
        },
        SeqItem::Composite(k) => {
            put_u8(out, 1);
            put_u8(out, k.tag());
            proof {
                lemma_concat_assoc(start, enc_u8(1), enc_u8(k.spec_tag()));
            }
        },
    }
}

fn put_items(out: &mut Vec<u8>, items: &Vec<SeqItem>)
    requires
        items_fit(items_view(items@)),
    ensures
        final(out)@ == old(out)@ + enc_items(items_view(items@)),
{
    let ghost vs = items_view(items@);
    put_u32(out, len_u32(items.len()));
    let ghost start = out@;
    let mut i: usize = 0;
    proof {
        lemma_enc_many_none(vs, item_enc());
        lemma_concat_empty(start);
    }
    while i < items.len()
        invariant
            vs == items_view(items@),
            items_fit(vs),
            i <= items@.len(),
            out@ == start + enc_many(vs.take(i as int), item_enc()),
        decreases items@.len() - i,
    {
        proof {
            assert(vs[i as int] == items@[i as int]@);
            lemma_enc_many_take(vs, i as int, item_enc());
            lemma_concat_assoc(start, enc_many(vs.take(i as int), item_enc()), enc_item(vs[i as int]));
        }
        put_item(out, &items[i]);
        i += 1;
    }
    proof {
        reveal(enc_items);
        assert(vs.take(i as int) =~= vs);
        lemma_concat_assoc(old(out)@, enc_u32(vs.len() as u32), enc_many(vs, item_enc()));
    }
}

fn put_change(out: &mut Vec<u8>, change: &Change)
    requires
        change_fits(change@),
    ensures
        final(out)@ == old(out)@ + enc_change(change@),
{
    broadcast use lemma_concat_assoc;

    reveal(enc_change);
    match change {
        Change::Added { path, kind } => {
            put_u8(out, 0);
            put_bytes(out, path.as_slice());
            put_u8(out, kind.tag());
        },
        Change::Removed { path, kind } => {
            put_u8(out, 1);
            put_bytes(out, path.as_slice());
            put_u8(out, kind.tag());
        },
        Change::Value { path, old, new } => {
            put_u8(out, 2);
            put_bytes(out, path.as_slice());
            put_scalar(out, old);
            put_scalar(out, new);
        },
        Change::Counter { path, old, new } => {
            put_u8(out, 3);
            put_bytes(out, path.as_slice());
            put_i64(out, *old);
            put_i64(out, *new);
        },
        Change::ListInsert { path, index, items } => {
            put_u8(out, 4);
            put_bytes(out, path.as_slice());
            put_u64(out, *index as u64);
            put_items(out, items);
        },
        Change::ListDelete { path, index, items } => {
            put_u8(out, 5);
            put_bytes(out, path.as_slice());
            put_u64(out, *index as u64);
            put_items(out, items);
        },
        Change::TextInsert { path, index, text } => {
            put_u8(out, 6);
            put_bytes(out, path.as_slice());
            put_u64(out, *index as u64);
            put_text(out, text.as_str());
        },
        Change::TextDelete { path, index, text } => {
            put_u8(out, 7);
            put_bytes(out, path.as_slice());
            put_u64(out, *index as u64);
            put_text(out, text.as_str());
        },
    }
}

/// A change list as bytes.
pub fn encode_changes(changes: &[Change]) -> (out: Vec<u8>)
    requires
        changes_fit(changes_view(changes@)),
    ensures
        out@ == enc_changes(changes_view(changes@)),
{
    let ghost vs = changes_view(changes@);
    let mut out: Vec<u8> = Vec::new();
    put_u32(&mut out, len_u32(changes.len()));
    let ghost start = out@;
    let mut i: usize = 0;
    proof {
        lemma_enc_many_none(vs, change_enc());
        lemma_concat_empty(start);
        assert(start =~= enc_u32(vs.len() as u32));
    }
    while i < changes.len()
        invariant
            vs == changes_view(changes@),
            changes_fit(vs),
            i <= changes@.len(),
            out@ == start + enc_many(vs.take(i as int), change_enc()),
        decreases changes@.len() - i,
    {
            proof {
            assert(vs[i as int] == changes@[i as int]@);
            lemma_enc_many_take(vs, i as int, change_enc());
            lemma_concat_assoc(
                start,
                enc_many(vs.take(i as int), change_enc()),
                enc_change(vs[i as int]),
            );
        }
        put_change(&mut out, &changes[i]);
        i += 1;
    }
    proof {
        assert(vs.take(i as int) =~= vs);
    }
    out
}

// --- reading ---

fn read_kind(cur: &mut Cursor) -> (r: Result<ElementKind, DecodeError>)
    ensures
        reads(r, parse_kind(old(cur).rest@), final(cur).rest@),
{
    let tag: u8 = cur.u8()?;
    match ElementKind::from_tag(tag) {
        Some(k) => Ok(k),
        None => Err(DecodeError::BadTag { what: "element kind", tag }),
    }
}

fn read_item(cur: &mut Cursor) -> (r: Result<SeqItem, DecodeError>)
    ensures
        reads_view(r, parse_item(old(cur).rest@), final(cur).rest@),
{
    let tag: u8 = cur.u8()?;
    match tag {
        0 => Ok(SeqItem::Scalar(cur.scalar()?)),
        1 => Ok(SeqItem::Composite(read_kind(cur)?)),
        _ => Err(DecodeError::BadTag { what: "diff item", tag }),
    }
}

fn read_items(cur: &mut Cursor) -> (r: Result<Vec<SeqItem>, DecodeError>)
    ensures
        match parse_items(old(cur).rest@) {
            Ok((v, rest)) => r is Ok && items_view(r->Ok_0@) == v && final(cur).rest@ == rest,
            Err(e) => r == Err::<Vec<SeqItem>, DecodeError>(e),
        },
{
    let ghost whole = cur.rest@;
    let n: u32 = cur.u32()?;
    let ghost body = cur.rest@;
    let mut out: Vec<SeqItem> = Vec::new();
    let mut left: u32 = n;
    proof {
        assert(items_view(out@) =~= Seq::empty());
    }
    while left > 0
        invariant
            parse_items(whole) == parse_fold(body, n as nat, Seq::empty(), item_step()),
            parse_fold(body, n as nat, Seq::empty(), item_step()) == parse_fold(
                cur.rest@,
                left as nat,
                items_view(out@),
                item_step(),
            ),
            whole == old(cur).rest@,
        decreases left,
    {
        let ghost before = items_view(out@);
        let item = read_item(cur)?;
        let ghost v = item@;
        out.push(item);
        left -= 1;
        proof {
            assert(items_view(out@) =~= before.push(v));
        }
    }
    Ok(out)
}

fn read_change_body(tag: u8, path: Vec<u8>, cur: &mut Cursor) -> (r: Result<Change, DecodeError>)
    requires
        tag <= 7,
    ensures
        reads_view(r, parse_change_body(tag, path@, old(cur).rest@), final(cur).rest@),
{
    if tag == 0 {
        let kind = read_kind(cur)?;
        Ok(Change::Added { path, kind })
    } else if tag == 1 {
        let kind = read_kind(cur)?;
        Ok(Change::Removed { path, kind })
    } else if tag == 2 {
        let old = cur.scalar()?;
        let new = cur.scalar()?;
        Ok(Change::Value { path, old, new })
    } else if tag == 3 {
        let old: i64 = cur.i64()?;
        let new: i64 = cur.i64()?;
        Ok(Change::Counter { path, old, new })
    } else {
        let n: u64 = cur.u64()?;
        let index: usize = n as usize;
        if tag == 4 {
            let items = read_items(cur)?;
            Ok(Change::ListInsert { path, index, items })
        } else if tag == 5 {
            let items = read_items(cur)?;
            Ok(Change::ListDelete { path, index, items })
        } else if tag == 6 {
            let text = cur.string()?;
            Ok(Change::TextInsert { path, index, text })
        } else {
            let text = cur.string()?;
            Ok(Change::TextDelete { path, index, text })
        }
    }
}

fn read_change(cur: &mut Cursor) -> (r: Result<Change, DecodeError>)
    ensures
        reads_view(r, parse_change(old(cur).rest@), final(cur).rest@),
{
    reveal(parse_change);
    let tag: u8 = cur.u8()?;
    if tag > 7 {
        return Err(DecodeError::BadTag { what: "diff change", tag });
    }
    let path = cur.bytes()?;
    read_change_body(tag, path, cur)
}

/// Read a change list, rejecting trailing bytes.
pub fn decode_changes(bytes: &[u8]) -> (r: Result<Vec<Change>, DecodeError>)
    ensures
        match parse_changes(bytes@) {
            Ok(v) => r is Ok && changes_view(r->Ok_0@) == v,
            Err(e) => r == Err::<Vec<Change>, DecodeError>(e),
        },
{
    let mut cur = Cursor::new(bytes);
    let n: u32 = cur.u32()?;
    let ghost body = cur.rest@;
    let mut out: Vec<Change> = Vec::new();
    let mut left: u32 = n;
    proof {
        assert(changes_view(out@) =~= Seq::empty());
    }
    while left > 0
        invariant
            parse_u32(bytes@) == Ok::<(u32, Seq<u8>), DecodeError>((n, body)),
            parse_fold(body, n as nat, Seq::empty(), change_step()) == parse_fold(
                cur.rest@,
                left as nat,
                changes_view(out@),
                change_step(),
            ),
        decreases left,
    {
        let ghost before = changes_view(out@);
        let change = read_change(&mut cur)?;
        let ghost v = change@;
        out.push(change);
        left -= 1;
        proof {
            assert(changes_view(out@) =~= before.push(v));
        }
    }
    if cur.at_end() {
        Ok(out)
    } else {
        Err(DecodeError::TrailingBytes)
    }
}

// --- round trip ---

proof fn rt_kind(k: ElementKind, rest: Seq<u8>)
    ensures
        parse_kind(enc_u8(k.spec_tag()) + rest) == Ok::<(ElementKind, Seq<u8>), DecodeError>(
            (k, rest),
        ),
{
    rt_u8(k.spec_tag(), rest);
    law_kind_tags_round_trip(k, k.spec_tag());
}

proof fn rt_item(item: SeqItemV, rest: Seq<u8>)
    requires
        item_fits(item),
    ensures
        parse_item(enc_item(item) + rest) == Ok::<(SeqItemV, Seq<u8>), DecodeError>((item, rest)),
{
    match item {
        SeqItemV::Scalar(s) => {
            lemma_concat_assoc(enc_u8(0), enc_scalar(s), rest);
            rt_u8(0, enc_scalar(s) + rest);
            rt_scalar(s, rest);
        },
        SeqItemV::Composite(k) => {
            lemma_concat_assoc(enc_u8(1), enc_u8(k.spec_tag()), rest);
            rt_u8(1, enc_u8(k.spec_tag()) + rest);
            rt_kind(k, rest);
        },
    }
}

proof fn rt_items(items: Seq<SeqItemV>, rest: Seq<u8>)
    requires
        items_fit(items),
    ensures
        parse_items(enc_items(items) + rest) == Ok::<(Seq<SeqItemV>, Seq<u8>), DecodeError>(
            (items, rest),
        ),
{
    reveal(enc_items);
    let body = enc_many(items, item_enc());
    lemma_concat_assoc(enc_u32(items.len() as u32), body, rest);
    rt_u32(items.len() as u32, body + rest);
    let accs = Seq::new(items.len() + 1, |i: int| items.take(i));
    assert forall|i: int, r: Seq<u8>| 0 <= i < items.len() implies #[trigger] item_step()(
        accs[i],
        item_enc()(items[i]) + r,
    ) == Ok::<(Seq<SeqItemV>, Seq<u8>), DecodeError>((accs[i + 1], r)) by {
        rt_item(items[i], r);
        assert(items.take(i).push(items[i]) =~= items.take(i + 1));
    }
    lemma_fold_reads_back(items, item_enc(), accs, item_step(), rest);
    assert(accs[0] =~= Seq::empty());
    assert(accs.last() =~= items);
}

proof fn rt_change(c: ChangeV, rest: Seq<u8>)
    requires
        change_fits(c),
    ensures
        parse_change(enc_change(c) + rest) == Ok::<(ChangeV, Seq<u8>), DecodeError>((c, rest)),
{
    broadcast use {lemma_concat_assoc, rt_u8, rt_bytes, rt_scalar, rt_i64, rt_u64, rt_text};

    reveal(enc_change);
    reveal(parse_change);
    match c {
        ChangeV::Added { path, kind } => {
            rt_kind(kind, rest);
        },
        ChangeV::Removed { path, kind } => {
            rt_kind(kind, rest);
        },
        ChangeV::ListInsert { path, index, items } => {
            rt_items(items, rest);
        },
        ChangeV::ListDelete { path, index, items } => {
            rt_items(items, rest);
        },
        _ => {},
    }
}

/// A change list reads back from its bytes.
pub proof fn law_changes_round_trip(changes: Seq<ChangeV>)
    requires
        changes_fit(changes),
    ensures
        parse_changes(enc_changes(changes)) == Ok::<Seq<ChangeV>, DecodeError>(changes),
{
    let body = enc_many(changes, change_enc());
    rt_u32(changes.len() as u32, body);
    let accs = Seq::new(changes.len() + 1, |i: int| changes.take(i));
    assert forall|i: int, r: Seq<u8>| 0 <= i < changes.len() implies #[trigger] change_step()(
        accs[i],
        change_enc()(changes[i]) + r,
    ) == Ok::<(Seq<ChangeV>, Seq<u8>), DecodeError>((accs[i + 1], r)) by {
        rt_change(changes[i], r);
        assert(changes.take(i).push(changes[i]) =~= changes.take(i + 1));
    }
    lemma_fold_reads_back(changes, change_enc(), accs, change_step(), Seq::empty());
    lemma_concat_empty(body);
    assert(accs[0] =~= Seq::empty());
    assert(accs.last() =~= changes);
}

// --- one form ---

proof fn can_kind(s: Seq<u8>)
    ensures
        parse_kind(s) matches Ok((k, r)) ==> s == enc_u8(k.spec_tag()) + r,
{
    can_u8(s);
    if let Ok((tag, r)) = parse_u8(s) {
        if let Some(k) = ElementKind::spec_from_tag(tag) {
            law_kind_tags_round_trip(k, tag);
        }
    }
}

proof fn can_item(s: Seq<u8>)
    ensures
        parse_item(s) matches Ok((i, r)) ==> s == enc_item(i) + r && item_fits(i),
{
    can_u8(s);
    if let Ok((tag, r)) = parse_u8(s) {
        can_scalar(r);
        can_kind(r);
        if let Ok((i, t)) = parse_item(s) {
            match i {
                SeqItemV::Scalar(v) => lemma_concat_assoc(enc_u8(0), enc_scalar(v), t),
                SeqItemV::Composite(k) => lemma_concat_assoc(
                    enc_u8(1),
                    enc_u8(k.spec_tag()),
                    t,
                ),
            }
        }
    }
}

/// Whether records laid down one after another, and what is left, are some bytes.
spec fn lays<T>(s: Seq<u8>, xs: Seq<T>, enc: spec_fn(T) -> Seq<u8>, r: Seq<u8>) -> bool {
    s == enc_many(xs, enc) + r
}

proof fn lemma_lays<T>(
    s: Seq<u8>,
    x: T,
    t: Seq<u8>,
    xs: Seq<T>,
    enc: spec_fn(T) -> Seq<u8>,
    r: Seq<u8>,
)
    requires
        s == enc(x) + t,
        lays(t, xs, enc, r),
    ensures
        lays(s, seq![x] + xs, enc, r),
{
    let all = seq![x] + xs;
    assert(all.skip(1) =~= xs);
    lemma_concat_assoc(enc(x), enc_many(xs, enc), r);
}

proof fn can_items_from(s: Seq<u8>, n: nat, acc: Seq<SeqItemV>) -> (xs: Seq<SeqItemV>)
    ensures
        parse_fold(s, n, acc, item_step()) matches Ok((out, r)) ==> out == acc + xs && xs.len() == n
            && lays(s, xs, item_enc(), r) && forall|i: int|
            0 <= i < xs.len() ==> item_fits(#[trigger] xs[i]),
    decreases n,
{
    if n == 0 {
        assert(acc + Seq::<SeqItemV>::empty() =~= acc);
        assert(enc_many(Seq::<SeqItemV>::empty(), item_enc()) + s =~= s);
        Seq::empty()
    } else {
        match parse_item(s) {
            Err(e) => Seq::empty(),
            Ok((x, t)) => {
                can_item(s);
                assert(item_step()(acc, s) == Ok::<(Seq<SeqItemV>, Seq<u8>), DecodeError>(
                    (acc.push(x), t),
                ));
                let xs = can_items_from(t, (n - 1) as nat, acc.push(x));
                if let Ok((out, r)) = parse_fold(t, (n - 1) as nat, acc.push(x), item_step()) {
                    lemma_lays(s, x, t, xs, item_enc(), r);
                    assert(acc.push(x) + xs =~= acc + (seq![x] + xs));
                    let all = seq![x] + xs;
                    assert forall|i: int| 0 <= i < all.len() implies item_fits(
                        #[trigger] all[i],
                    ) by {
                        if i > 0 {
                            assert(all[i] == xs[i - 1]);
                        }
                    }
                }
                seq![x] + xs
            },
        }
    }
}

proof fn can_items(s: Seq<u8>)
    ensures
        parse_items(s) matches Ok((items, r)) ==> s == enc_items(items) + r && items_fit(items),
{
    can_u32(s);
    reveal(enc_items);
    if let Ok((n, t)) = parse_u32(s) {
        let xs = can_items_from(t, n as nat, Seq::empty());
        if let Ok((items, r)) = parse_items(s) {
            assert(Seq::<SeqItemV>::empty() + xs =~= xs);
            lemma_concat_assoc(enc_u32(n), enc_many(xs, item_enc()), r);
        }
    }
}

#[verifier::spinoff_prover]
proof fn can_change(s: Seq<u8>)
    requires
        usize::MAX == u64::MAX,
    ensures
        parse_change(s) matches Ok((c, r)) ==> s == enc_change(c) + r && change_fits(c),
{
    reveal(enc_change);
    reveal(parse_change);
    can_u8(s);
    if let Ok((tag, t)) = parse_u8(s) {
        can_bytes(t);
        if let Ok((path, u)) = parse_bytes(t) {
            let head = enc_u8(tag) + enc_bytes(path);
            lemma_concat_assoc(enc_u8(tag), enc_bytes(path), u);
            assert(s == head + u);
            can_kind(u);
            if let Ok((k, r)) = parse_kind(u) {
                lemma_concat_assoc(head, enc_u8(k.spec_tag()), r);
            }
            can_scalar(u);
            if let Ok((a, v)) = parse_scalar(u) {
                can_scalar(v);
                if let Ok((b, r)) = parse_scalar(v) {
                    lemma_concat_assoc(head, enc_scalar(a), v);
                    lemma_concat_assoc(head + enc_scalar(a), enc_scalar(b), r);
                }
            }
            can_i64(u);
            if let Ok((a, v)) = parse_i64(u) {
                can_i64(v);
                if let Ok((b, r)) = parse_i64(v) {
                    lemma_concat_assoc(head, enc_i64(a), v);
                    lemma_concat_assoc(head + enc_i64(a), enc_i64(b), r);
                }
            }
            can_u64(u);
            if let Ok((n, v)) = parse_u64(u) {
                lemma_concat_assoc(head, enc_u64(n), v);
                can_items(v);
                if let Ok((items, r)) = parse_items(v) {
                    lemma_concat_assoc(head + enc_u64(n), enc_items(items), r);
                }
                can_text(v);
                if let Ok((text, r)) = parse_text(v) {
                    lemma_concat_assoc(head + enc_u64(n), enc_text(text), r);
                }
            }
        }
    }
}

proof fn can_changes_from(s: Seq<u8>, n: nat, acc: Seq<ChangeV>) -> (xs: Seq<ChangeV>)
    requires
        usize::MAX == u64::MAX,
    ensures
        parse_fold(s, n, acc, change_step()) matches Ok((out, r)) ==> out == acc + xs && xs.len()
            == n && lays(s, xs, change_enc(), r) && forall|i: int|
            0 <= i < xs.len() ==> change_fits(#[trigger] xs[i]),
    decreases n,
{
    if n == 0 {
        assert(acc + Seq::<ChangeV>::empty() =~= acc);
        assert(enc_many(Seq::<ChangeV>::empty(), change_enc()) + s =~= s);
        Seq::empty()
    } else {
        match parse_change(s) {
            Err(e) => Seq::empty(),
            Ok((x, t)) => {
                can_change(s);
                assert(change_step()(acc, s) == Ok::<(Seq<ChangeV>, Seq<u8>), DecodeError>(
                    (acc.push(x), t),
                ));
                let xs = can_changes_from(t, (n - 1) as nat, acc.push(x));
                if let Ok((out, r)) = parse_fold(t, (n - 1) as nat, acc.push(x), change_step()) {
                    lemma_lays(s, x, t, xs, change_enc(), r);
                    assert(acc.push(x) + xs =~= acc + (seq![x] + xs));
                    let all = seq![x] + xs;
                    assert forall|i: int| 0 <= i < all.len() implies change_fits(
                        #[trigger] all[i],
                    ) by {
                        if i > 0 {
                            assert(all[i] == xs[i - 1]);
                        }
                    }
                }
                seq![x] + xs
            },
        }
    }
}

/// A byte string that decodes to a change list is that list's encoding, where an index is
/// as wide as the bytes have it.
pub proof fn law_change_lists_are_canonical(s: Seq<u8>)
    requires
        usize::MAX == u64::MAX,
    ensures
        parse_changes(s) matches Ok(changes) ==> enc_changes(changes) == s && changes_fit(changes),
{
    can_u32(s);
    if let Ok((n, t)) = parse_u32(s) {
        let xs = can_changes_from(t, n as nat, Seq::empty());
        if let Ok(changes) = parse_changes(s) {
            assert(Seq::<ChangeV>::empty() + xs =~= xs);
            let r = parse_fold(t, n as nat, Seq::empty(), change_step())->Ok_0.1;
            assert(r =~= Seq::empty());
            lemma_concat_empty(enc_many(xs, change_enc()));
        }
    }
}

} // verus!
