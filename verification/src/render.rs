//! A change list as text, one line for each change: `+` adds, `-` removes, `~` changes a
//! value. Paths print slash-joined, and runs print their index and contents.

use crate::bytes::byte_strings;
use crate::changes::{changes_view, items_view, Change, ChangeV, SeqItem, SeqItemV};
use crate::elementid::ElementKind;
use crate::path::{parse_path, read_path};
use crate::scalar::{Scalar, ScalarV};
use crate::text_out::{decimal, decimal_int, push_decimal, push_decimal_int};
use vstd::prelude::*;
use vstd::utf8::{decode_utf8, valid_utf8};

verus! {

/// What `String::from_utf8_lossy` reads bytes as.
pub uninterp spec fn utf8_lossy(b: Seq<u8>) -> Seq<char>;

/// How `str`'s `Debug` form writes text: quoted, with escapes.
pub uninterp spec fn debug_form(s: Seq<char>) -> Seq<char>;

/// `String::from_utf8_lossy`: valid UTF-8 reads as itself. What stands in for bytes that
/// are not valid is left to the name.
#[verifier::external_body]
fn from_utf8_lossy(b: &[u8]) -> (s: String)
    ensures
        s@ == utf8_lossy(b@),
        valid_utf8(b@) ==> s@ == decode_utf8(b@),
{
    String::from_utf8_lossy(b).into_owned()
}

/// `format!` with `str`'s own `Debug`: the quoted and escaped form of a string. The
/// contract claims only that the text settles it; which characters are escaped, and how,
/// is left to the name.
#[verifier::external_body]
fn debug_text(s: &str) -> (q: String)
    ensures
        q@ == debug_form(s@),
{
    format!("{s:?}")
}

// --- the text of a change ---

pub open spec fn kind_text(kind: ElementKind) -> Seq<char> {
    match kind {
        ElementKind::Scalar => "scalar"@,
        ElementKind::Register => "register"@,
        ElementKind::Counter => "counter"@,
        ElementKind::LwwMap => "map"@,
        ElementKind::List => "list"@,
        ElementKind::Text => "text"@,
        ElementKind::XmlElement => "xmlElement"@,
        ElementKind::XmlFragment => "xmlFragment"@,
    }
}

/// Keys, each after a slash.
pub open spec fn slashed(keys: Seq<Seq<u8>>) -> Seq<char>
    decreases keys.len(),
{
    if keys.len() == 0 {
        Seq::empty()
    } else {
        slashed(keys.drop_last()).push('/') + utf8_lossy(keys.last())
    }
}

pub open spec fn path_text(path: Seq<u8>) -> Seq<char> {
    match read_path(path) {
        Some(keys) => slashed(keys),
        None => "<bad path>"@,
    }
}

pub open spec fn scalar_text(s: ScalarV) -> Seq<char> {
    match s {
        ScalarV::Null => "null"@,
        ScalarV::Bool(b) => if b {
            "true"@
        } else {
            "false"@
        },
        ScalarV::Int(n) => decimal_int(n as int),
        ScalarV::Bytes(b) => "<"@ + decimal(b.len()) + " bytes>"@,
        ScalarV::BlobRef(_) => "<blobref>"@,
        ScalarV::ElementRef(_) => "<elementref>"@,
    }
}

pub open spec fn item_text(item: SeqItemV) -> Seq<char> {
    match item {
        SeqItemV::Scalar(s) => scalar_text(s),
        SeqItemV::Composite(k) => "<"@ + kind_text(k) + ">"@,
    }
}

/// Items, with a comma and a space between two.
pub open spec fn items_text(items: Seq<SeqItemV>) -> Seq<char>
    decreases items.len(),
{
    if items.len() == 0 {
        Seq::empty()
    } else if items.len() == 1 {
        item_text(items[0])
    } else {
        items_text(items.drop_last()) + ", "@ + item_text(items.last())
    }
}

/// The line of a change.
pub open spec fn change_text(c: ChangeV) -> Seq<char> {
    match c {
        ChangeV::Added { path, kind } => "+ "@ + path_text(path) + " ("@ + kind_text(kind) + ")"@,
        ChangeV::Removed { path, kind } => "- "@ + path_text(path) + " ("@ + kind_text(kind)
            + ")"@,
        ChangeV::Value { path, old, new } => "~ "@ + path_text(path) + ": "@ + scalar_text(old)
            + " -> "@ + scalar_text(new),
        ChangeV::Counter { path, old, new } => "~ "@ + path_text(path) + ": "@ + decimal_int(
            old as int,
        ) + " -> "@ + decimal_int(new as int),
        ChangeV::ListInsert { path, index, items } => run_text("+ "@, path, index) + items_text(
            items,
        ),
        ChangeV::ListDelete { path, index, items } => run_text("- "@, path, index) + items_text(
            items,
        ),
        ChangeV::TextInsert { path, index, text } => run_text("+ "@, path, index) + debug_form(
            text,
        ),
        ChangeV::TextDelete { path, index, text } => run_text("- "@, path, index) + debug_form(
            text,
        ),
    }
}

/// The part of a run's line before its contents.
pub open spec fn run_text(sign: Seq<char>, path: Seq<u8>, index: usize) -> Seq<char> {
    sign + path_text(path) + "["@ + decimal(index as nat) + "]: "@
}

// --- writing it ---

fn push_kind(out: &mut String, kind: ElementKind)
    ensures
        final(out)@ == old(out)@ + kind_text(kind),
{
    match kind {
        ElementKind::Scalar => out.push_str("scalar"),
        ElementKind::Register => out.push_str("register"),
        ElementKind::Counter => out.push_str("counter"),
        ElementKind::LwwMap => out.push_str("map"),
        ElementKind::List => out.push_str("list"),
        ElementKind::Text => out.push_str("text"),
        ElementKind::XmlElement => out.push_str("xmlElement"),
        ElementKind::XmlFragment => out.push_str("xmlFragment"),
    }
}

fn push_path(out: &mut String, path: &[u8])
    ensures
        final(out)@ == old(out)@ + path_text(path@),
{
    match parse_path(path) {
        Some(keys) => {
            let ghost ks = byte_strings(keys@);
            let ghost start = out@;
            let mut i: usize = 0;
            proof {
                assert(ks.take(0) =~= Seq::empty());
                assert(start + Seq::<char>::empty() =~= start);
            }
            while i < keys.len()
                invariant
                    ks == byte_strings(keys@),
                    i <= keys@.len(),
                    out@ == start + slashed(ks.take(i as int)),
                decreases keys@.len() - i,
            {
                proof {
                    assert(ks.take(i + 1).drop_last() =~= ks.take(i as int));
                    assert(ks.take(i + 1).last() == keys@[i as int]@);
                }
                out.push('/');
                let key = from_utf8_lossy(keys[i].as_slice());
                out.push_str(key.as_str());
                proof {
                    assert(out@ =~= start + slashed(ks.take(i + 1)));
                }
                i += 1;
            }
            proof {
                assert(ks.take(i as int) =~= ks);
            }
        },
        None => out.push_str("<bad path>"),
    }
}

fn push_scalar(out: &mut String, s: &Scalar)
    ensures
        final(out)@ == old(out)@ + scalar_text(s@),
{
    let ghost start = out@;
    match s {
        Scalar::Null => out.push_str("null"),
        Scalar::Bool(b) => {
            if *b {
                out.push_str("true");
            } else {
                out.push_str("false");
            }
        },
        Scalar::Int(n) => push_decimal_int(out, *n),
        Scalar::Bytes(b) => {
            out.push_str("<");
            push_decimal(out, b.len() as u64);
            out.push_str(" bytes>");
            proof {
                assert(out@ =~= start + scalar_text(s@));
            }
        },
        Scalar::BlobRef(_) => out.push_str("<blobref>"),
        Scalar::ElementRef(_) => out.push_str("<elementref>"),
    }
}

fn push_items(out: &mut String, items: &Vec<SeqItem>)
    ensures
        final(out)@ == old(out)@ + items_text(items_view(items@)),
{
    let ghost vs = items_view(items@);
    let ghost start = out@;
    let mut i: usize = 0;
    proof {
        assert(vs.take(0) =~= Seq::empty());
        assert(start + Seq::<char>::empty() =~= start);
    }
    while i < items.len()
        invariant
            vs == items_view(items@),
            i <= items@.len(),
            out@ == start + items_text(vs.take(i as int)),
        decreases items@.len() - i,
    {
        proof {
            assert(vs.take(i + 1).drop_last() =~= vs.take(i as int));
            assert(vs.take(i + 1).last() == items@[i as int]@);
        }
        if i > 0 {
            out.push_str(", ");
        }
        let ghost mid = out@;
        match &items[i] {
            SeqItem::Scalar(s) => push_scalar(out, s),
            SeqItem::Composite(k) => {
                out.push_str("<");
                push_kind(out, *k);
                out.push_str(">");
            },
        }
        proof {
            assert(out@ =~= mid + item_text(items@[i as int]@));
            assert(out@ =~= start + items_text(vs.take(i + 1)));
        }
        i += 1;
    }
    proof {
        assert(vs.take(i as int) =~= vs);
    }
}

fn push_run(out: &mut String, path: &[u8], index: usize)
    ensures
        final(out)@ == run_text(old(out)@, path@, index),
{
    push_path(out, path);
    out.push_str("[");
    push_decimal(out, index as u64);
    out.push_str("]: ");
}

fn render_change(change: &Change) -> (out: String)
    ensures
        out@ == change_text(change@),
{
    let mut out = String::new();
    proof {
        assert(out@ =~= Seq::empty());
        assert forall|x: Seq<char>| #[trigger] (Seq::<char>::empty() + x) == x by {
            assert(Seq::<char>::empty() + x =~= x);
        }
    }
    match change {
        Change::Added { path, kind } => {
            out.push_str("+ ");
            push_path(&mut out, path.as_slice());
            out.push_str(" (");
            push_kind(&mut out, *kind);
            out.push_str(")");
        },
        Change::Removed { path, kind } => {
            out.push_str("- ");
            push_path(&mut out, path.as_slice());
            out.push_str(" (");
            push_kind(&mut out, *kind);
            out.push_str(")");
        },
        Change::Value { path, old, new } => {
            out.push_str("~ ");
            push_path(&mut out, path.as_slice());
            out.push_str(": ");
            push_scalar(&mut out, old);
            out.push_str(" -> ");
            push_scalar(&mut out, new);
        },
        Change::Counter { path, old, new } => {
            out.push_str("~ ");
            push_path(&mut out, path.as_slice());
            out.push_str(": ");
            push_decimal_int(&mut out, *old);
            out.push_str(" -> ");
            push_decimal_int(&mut out, *new);
        },
        Change::ListInsert { path, index, items } => {
            out.push_str("+ ");
            push_run(&mut out, path.as_slice(), *index);
            push_items(&mut out, items);
        },
        Change::ListDelete { path, index, items } => {
            out.push_str("- ");
            push_run(&mut out, path.as_slice(), *index);
            push_items(&mut out, items);
        },
        Change::TextInsert { path, index, text } => {
            out.push_str("+ ");
            push_run(&mut out, path.as_slice(), *index);
            let quoted = debug_text(text.as_str());
            out.push_str(quoted.as_str());
        },
        Change::TextDelete { path, index, text } => {
            out.push_str("- ");
            push_run(&mut out, path.as_slice(), *index);
            let quoted = debug_text(text.as_str());
            out.push_str(quoted.as_str());
        },
    }
    out
}

/// A change list as lines of text.
pub fn render(changes: &[Change]) -> (out: Vec<String>)
    ensures
        out@.map_values(|s: String| s@) == changes_view(changes@).map_values(
            |c: ChangeV| change_text(c),
        ),
{
    let mut out: Vec<String> = Vec::new();
    let mut i: usize = 0;
    while i < changes.len()
        invariant
            i <= changes@.len(),
            out@.len() == i,
            forall|j: int| 0 <= j < i ==> (#[trigger] out@[j])@ == change_text(changes@[j]@),
        decreases changes@.len() - i,
    {
        out.push(render_change(&changes[i]));
        i += 1;
    }
    proof {
        assert(out@.map_values(|s: String| s@) =~= changes_view(changes@).map_values(
            |c: ChangeV| change_text(c),
        ));
    }
    out
}

} // verus!
