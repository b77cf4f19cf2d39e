//! Register: a single last-writer-wins value with an identity of its own.

use crate::codec::{put_element_id, put_scalar, put_stamp, reads_view, Cursor, DecodeError};
use crate::elementid::ElementId;
use crate::format::{
    enc_scalar, enc_stamp, lemma_concat_assoc, parse_element_id, parse_scalar, parse_stamp, Parsed,
    scalar_fits,
};
use crate::roundtrip::{rt_element_id, rt_scalar, rt_stamp};
use crate::scalar::{Scalar, ScalarV};
use crate::stamp::{stamp_lt, Stamp};
use vstd::prelude::*;

verus! {

/// A register: its id, its value and the stamp that last set it.
#[derive(PartialEq, Eq, Debug)]
pub struct Register {
    pub id: ElementId,
    pub value: Scalar,
    pub stamp: Stamp,
}

/// A register as a value.
pub struct RegisterV {
    pub id: ElementId,
    pub value: ScalarV,
    pub stamp: Stamp,
}

impl View for Register {
    type V = RegisterV;

    open spec fn view(&self) -> RegisterV {
        RegisterV { id: self.id, value: self.value@, stamp: self.stamp }
    }
}

impl Clone for Register {
    fn clone(&self) -> (r: Self)
        ensures
            r@ == self@,
    {
        Register { id: self.id, value: self.value.clone(), stamp: self.stamp }
    }
}

/// The register after a write: the later of the two.
pub open spec fn register_set(r: RegisterV, value: ScalarV, stamp: Stamp) -> RegisterV {
    if stamp_lt(r.stamp, stamp) {
        RegisterV { id: r.id, value, stamp }
    } else {
        r
    }
}

/// A register's state: its id, its stamp, then its value.
pub open spec fn enc_register(r: RegisterV) -> Seq<u8> {
    r.id.bytes() + enc_stamp(r.stamp) + enc_scalar(r.value)
}

pub open spec fn parse_register(s: Seq<u8>) -> Parsed<RegisterV> {
    match parse_element_id(s) {
        Err(e) => Err(e),
        Ok((id, r)) => match parse_stamp(r) {
            Err(e) => Err(e),
            Ok((stamp, r)) => match parse_scalar(r) {
                Err(e) => Err(e),
                Ok((value, r)) => Ok((RegisterV { id, value, stamp }, r)),
            },
        },
    }
}

pub broadcast proof fn rt_register(r: RegisterV, rest: Seq<u8>)
    requires
        scalar_fits(r.value),
        r.stamp.offset == 0,
    ensures
        #[trigger] parse_register(enc_register(r) + rest) == Ok::<(RegisterV, Seq<u8>), DecodeError>(
            (r, rest),
        ),
{
    broadcast use {lemma_concat_assoc, rt_element_id, rt_stamp, rt_scalar};

}

impl Register {
    pub fn new(id: ElementId, value: Scalar, stamp: Stamp) -> (r: Self)
        ensures
            r@ == (RegisterV { id, value: value@, stamp }),
    {
        Register { id, value, stamp }
    }

    pub fn id(&self) -> (id: ElementId)
        ensures
            id == self@.id,
    {
        self.id
    }

    /// The current value.
    pub fn read(&self) -> (v: &Scalar)
        ensures
            v@ == self@.value,
    {
        &self.value
    }

    /// Write `value` at `stamp`; the later write wins.
    pub fn set(&mut self, value: Scalar, stamp: Stamp)
        ensures
            final(self)@ == register_set(old(self)@, value@, stamp),
    {
        if stamp.gt(&self.stamp) {
            self.value = value;
            self.stamp = stamp;
        }
    }

    /// Fold another replica's register in.
    pub fn merge(&mut self, other: &Self)
        ensures
            final(self)@ == register_set(old(self)@, other@.value, other@.stamp),
    {
        self.set(other.value.clone(), other.stamp);
    }

    /// A copy under another id.
    pub fn rehomed(&self, id: ElementId) -> (r: Self)
        ensures
            r@ == (RegisterV { id, ..self@ }),
    {
        Register { id, value: self.value.clone(), stamp: self.stamp }
    }

    pub(crate) fn encode_state_into(&self, out: &mut Vec<u8>)
        requires
            scalar_fits(self@.value),
        ensures
            final(out)@ == old(out)@ + enc_register(self@),
    {
        broadcast use lemma_concat_assoc;

        put_element_id(out, &self.id);
        put_stamp(out, &self.stamp);
        put_scalar(out, &self.value);
    }

    pub(crate) fn decode_state_from(cur: &mut Cursor) -> (r: Result<Register, DecodeError>)
        ensures
            reads_view(r, parse_register(old(cur).rest@), final(cur).rest@),
    {
        let id = cur.element_id()?;
        let stamp = cur.stamp()?;
        let value = cur.scalar()?;
        Ok(Register { id, value, stamp })
    }
}

/// Writes to a register at different stamps commute.
pub proof fn law_register_writes_commute(
    r: RegisterV,
    a: ScalarV,
    sa: Stamp,
    b: ScalarV,
    sb: Stamp,
)
    requires
        sa != sb,
    ensures
        register_set(register_set(r, a, sa), b, sb) == register_set(register_set(r, b, sb), a, sa),
{
}

/// A write applied twice is a write applied once.
pub proof fn law_register_write_is_idempotent(r: RegisterV, a: ScalarV, sa: Stamp)
    ensures
        register_set(register_set(r, a, sa), a, sa) == register_set(r, a, sa),
{
}

/// The later write wins: of two writes, whichever comes first, the register reads the one
/// with the later stamp, and it is never moved by a write earlier than what it has.
pub proof fn law_the_later_write_is_read(
    r: RegisterV,
    a: ScalarV,
    sa: Stamp,
    b: ScalarV,
    sb: Stamp,
)
    requires
        stamp_lt(r.stamp, sa),
        stamp_lt(sa, sb),
    ensures
        register_set(r, a, sa).value == a,
        register_set(register_set(r, a, sa), b, sb).value == b,
        register_set(register_set(r, b, sb), a, sa).value == b,
        register_set(r, b, sb).id == r.id,
{
}

} // verus!
