//! Scalar: the immutable leaf values a slot, a register or a sequence item holds.

use crate::bytes::{bytes_eq, copy_opt, opt_bytes, opt_eq};
use crate::elementid::ElementId;
use vstd::prelude::*;
use vstd::slice::slice_to_vec;

verus! {

/// A leaf value.
#[derive(PartialEq, Eq, Debug)]
pub enum Scalar {
    Null,
    Bool(bool),
    Int(i64),
    Bytes(Vec<u8>),
    BlobRef(BlobRef),
    ElementRef(ElementId),
}

/// A reference to a blob stored elsewhere, small ones carried inline.
#[derive(PartialEq, Eq, Debug)]
pub struct BlobRef {
    pub id: [u8; 16],
    pub mime: String,
    pub size: u64,
    pub inline: Option<Vec<u8>>,
}

/// A scalar as a value.
pub enum ScalarV {
    Null,
    Bool(bool),
    Int(i64),
    Bytes(Seq<u8>),
    BlobRef(BlobV),
    ElementRef(ElementId),
}

/// A blob reference as a value.
pub struct BlobV {
    pub id: Seq<u8>,
    pub mime: Seq<char>,
    pub size: u64,
    pub inline: Option<Seq<u8>>,
}

impl View for BlobRef {
    type V = BlobV;

    open spec fn view(&self) -> BlobV {
        BlobV {
            id: self.id@,
            mime: self.mime@,
            size: self.size,
            inline: opt_bytes(self.inline),
        }
    }
}

impl View for Scalar {
    type V = ScalarV;

    open spec fn view(&self) -> ScalarV {
        match *self {
            Scalar::Null => ScalarV::Null,
            Scalar::Bool(b) => ScalarV::Bool(b),
            Scalar::Int(n) => ScalarV::Int(n),
            Scalar::Bytes(b) => ScalarV::Bytes(b@),
            Scalar::BlobRef(r) => ScalarV::BlobRef(r@),
            Scalar::ElementRef(id) => ScalarV::ElementRef(id),
        }
    }
}

impl Clone for BlobRef {
    fn clone(&self) -> (r: Self)
        ensures
            r@ == self@,
    {
        BlobRef {
            id: self.id,
            mime: self.mime.clone(),
            size: self.size,
            inline: copy_opt(&self.inline),
        }
    }
}

impl Clone for Scalar {
    fn clone(&self) -> (r: Self)
        ensures
            r@ == self@,
    {
        match self {
            Scalar::Null => Scalar::Null,
            Scalar::Bool(b) => Scalar::Bool(*b),
            Scalar::Int(n) => Scalar::Int(*n),
            Scalar::Bytes(b) => Scalar::Bytes(slice_to_vec(b.as_slice())),
            Scalar::BlobRef(r) => Scalar::BlobRef(r.clone()),
            Scalar::ElementRef(id) => Scalar::ElementRef(*id),
        }
    }
}

impl Scalar {
    /// Whether two scalars are the same value.
    pub fn same(&self, other: &Scalar) -> (r: bool)
        ensures
            r == (self@ == other@),
    {
        match (self, other) {
            (Scalar::Null, Scalar::Null) => true,
            (Scalar::Bool(a), Scalar::Bool(b)) => *a == *b,
            (Scalar::Int(a), Scalar::Int(b)) => *a == *b,
            (Scalar::Bytes(a), Scalar::Bytes(b)) => bytes_eq(a.as_slice(), b.as_slice()),
            (Scalar::BlobRef(a), Scalar::BlobRef(b)) => {
                bytes_eq(a.id.as_slice(), b.id.as_slice()) && a.mime == b.mime && a.size == b.size
                    && opt_eq(&a.inline, &b.inline)
            },
            (Scalar::ElementRef(a), Scalar::ElementRef(b)) => *a == *b,
            _ => false,
        }
    }
}

} // verus!
