//! The migration model: one edge of an app's schema chain, parsed from JSON.
//!
//! A migration reaches schema version `to` from `from`, a single contiguous step. It
//! carries an ordered list of structural [`Step`]s: add, remove or rename a named type
//! or a map field. Each step and the composed edge classify as back-compatible or
//! breaking ([`Compat`]), and each rewrites one op forward and, when back-compatible,
//! backward.

use crate::bytes::bytes_eq;
use crate::json::{items_view, json_get, pairs_view, read_json, Json, JsonErrorKind, JsonV};
use crate::op::{Op, OpKind, OpKindV, OpV};
use crate::text_out::{decimal, push_decimal, str_eq};
use crate::undo_laws::slot_write;
use vstd::prelude::*;
use vstd::slice::slice_to_vec;
use vstd::utf8::encode_utf8;

verus! {

/// A parsed, validated migration edge.
#[derive(Debug, PartialEq)]
pub struct Migration {
    /// The predecessor version this edge migrates from (at least 1).
    pub from: u32,
    /// The version this edge produces (`from + 1`).
    pub to: u32,
    pub steps: Vec<Step>,
}

/// One structural transform in a migration. Each names the type or field it acts on.
#[derive(Debug, PartialEq)]
pub enum Step {
    /// Introduce a new named type, its definition as it was written.
    AddType { name: String, def: Json },
    /// Remove a named type.
    RemoveType { name: String },
    /// Rename a named type.
    RenameType { from: String, to: String },
    /// Add a child slot to a map type, holding `field_type`.
    AddField { ty: String, field: String, field_type: String },
    /// Remove a child slot from a map type.
    RemoveField { ty: String, field: String },
    /// Rename a child slot of a map type.
    RenameField { ty: String, from: String, to: String },
}

/// A step as a value.
pub enum StepV {
    AddType { name: Seq<char>, def: JsonV },
    RemoveType { name: Seq<char> },
    RenameType { from: Seq<char>, to: Seq<char> },
    AddField { ty: Seq<char>, field: Seq<char>, field_type: Seq<char> },
    RemoveField { ty: Seq<char>, field: Seq<char> },
    RenameField { ty: Seq<char>, from: Seq<char>, to: Seq<char> },
}

impl View for Step {
    type V = StepV;

    open spec fn view(&self) -> StepV {
        match *self {
            Step::AddType { name, def } => StepV::AddType { name: name@, def: def@ },
            Step::RemoveType { name } => StepV::RemoveType { name: name@ },
            Step::RenameType { from, to } => StepV::RenameType { from: from@, to: to@ },
            Step::AddField { ty, field, field_type } => StepV::AddField {
                ty: ty@,
                field: field@,
                field_type: field_type@,
            },
            Step::RemoveField { ty, field } => StepV::RemoveField { ty: ty@, field: field@ },
            Step::RenameField { ty, from, to } => StepV::RenameField {
                ty: ty@,
                from: from@,
                to: to@,
            },
        }
    }
}

/// Steps as values.
pub open spec fn steps_view(s: Seq<Step>) -> Seq<StepV> {
    s.map_values(|x: Step| x@)
}

/// A migration as a value.
pub struct MigrationV {
    pub from: u32,
    pub to: u32,
    pub steps: Seq<StepV>,
}

impl View for Migration {
    type V = MigrationV;

    open spec fn view(&self) -> MigrationV {
        MigrationV { from: self.from, to: self.to, steps: steps_view(self.steps@) }
    }
}

/// Migrations as values.
pub open spec fn edges_view(s: Seq<Migration>) -> Seq<MigrationV> {
    s.map_values(|x: Migration| x@)
}

/// The compatibility class of a step or an edge: whether an inverse exists, so
/// mixed-version fleets can coexist across it.
#[derive(Clone, Copy, Debug, PartialEq, Eq, Structural)]
pub enum Compat {
    /// Bidirectional: a down-migration exists.
    BackCompatible,
    /// Forward-only: the down-migration is lossy or impossible.
    Breaking,
}

/// The image of one op across an edge: it survives, possibly with a rewritten slot key,
/// or it has no image at the target version and is dropped.
#[derive(Debug, PartialEq, Eq)]
pub enum OpRewrite {
    Keep(Op),
    Drop,
}

/// An op's image, by value.
pub enum OpRewriteV {
    Keep(OpV),
    Drop,
}

impl View for OpRewrite {
    type V = OpRewriteV;

    open spec fn view(&self) -> OpRewriteV {
        match *self {
            OpRewrite::Keep(op) => OpRewriteV::Keep(op@),
            OpRewrite::Drop => OpRewriteV::Drop,
        }
    }
}

/// An optional image, by value.
pub open spec fn opt_rewrite(r: Option<OpRewrite>) -> Option<OpRewriteV> {
    match r {
        Some(r) => Some(r@),
        None => None,
    }
}

// --- what a rewrite is ---

/// The slot key an op addresses. The sequence-internal kinds address by anchor or id
/// and have none.
pub open spec fn spec_op_key(kind: OpKindV) -> Option<Seq<u8>> {
    match kind {
        OpKindV::RegisterSet { key, .. } => Some(key),
        OpKindV::CounterInc { key, .. } => Some(key),
        OpKindV::CounterDec { key, .. } => Some(key),
        OpKindV::MapSet { key, .. } => Some(key),
        OpKindV::MapDelete { key } => Some(key),
        OpKindV::MapCreate { key } => Some(key),
        OpKindV::ListCreate { key } => Some(key),
        OpKindV::TextCreate { key } => Some(key),
        OpKindV::XmlElementCreate { key, .. } => Some(key),
        OpKindV::XmlFragmentCreate { key } => Some(key),
        _ => None,
    }
}

/// The kind with its slot key replaced; a kind without one is unchanged.
pub open spec fn kind_with_key(kind: OpKindV, new_key: Seq<u8>) -> OpKindV {
    match kind {
        OpKindV::RegisterSet { value, .. } => OpKindV::RegisterSet { key: new_key, value },
        OpKindV::CounterInc { amount, .. } => OpKindV::CounterInc { key: new_key, amount },
        OpKindV::CounterDec { amount, .. } => OpKindV::CounterDec { key: new_key, amount },
        OpKindV::MapSet { value, .. } => OpKindV::MapSet { key: new_key, value },
        OpKindV::MapDelete { .. } => OpKindV::MapDelete { key: new_key },
        OpKindV::MapCreate { .. } => OpKindV::MapCreate { key: new_key },
        OpKindV::ListCreate { .. } => OpKindV::ListCreate { key: new_key },
        OpKindV::TextCreate { .. } => OpKindV::TextCreate { key: new_key },
        OpKindV::XmlElementCreate { tag, .. } => OpKindV::XmlElementCreate { key: new_key, tag },
        OpKindV::XmlFragmentCreate { .. } => OpKindV::XmlFragmentCreate { key: new_key },
        other => other,
    }
}

/// Whether the op addresses the slot named by a schema field. A key is the UTF-8 of the
/// field's name.
pub open spec fn addresses(op: OpV, field: Seq<char>) -> bool {
    spec_op_key(op.kind) == Some(encode_utf8(field))
}

/// Whether a step has an inverse: the additive ones do.
pub open spec fn step_compat(step: StepV) -> Compat {
    match step {
        StepV::AddType { .. } => Compat::BackCompatible,
        StepV::AddField { .. } => Compat::BackCompatible,
        _ => Compat::Breaking,
    }
}

/// The op's image at the version the step produces: a renamed field's ops move to the
/// new key, a removed field's are dropped, every other op is kept.
pub open spec fn step_up(step: StepV, op: OpV) -> OpRewriteV {
    match step {
        StepV::RenameField { from, to, .. } => if addresses(op, from) {
            OpRewriteV::Keep(OpV { kind: kind_with_key(op.kind, encode_utf8(to)), ..op })
        } else {
            OpRewriteV::Keep(op)
        },
        StepV::RemoveField { field, .. } => if addresses(op, field) {
            OpRewriteV::Drop
        } else {
            OpRewriteV::Keep(op)
        },
        _ => OpRewriteV::Keep(op),
    }
}

/// The op's image at the version the step migrates from, where the step has an inverse:
/// an added field's ops are dropped.
pub open spec fn step_down(step: StepV, op: OpV) -> Option<OpRewriteV> {
    match step {
        StepV::AddField { field, .. } => Some(
            if addresses(op, field) {
                OpRewriteV::Drop
            } else {
                OpRewriteV::Keep(op)
            },
        ),
        StepV::AddType { .. } => Some(OpRewriteV::Keep(op)),
        _ => None,
    }
}

/// Whether every step has an inverse.
pub open spec fn all_compatible(steps: Seq<StepV>) -> bool {
    forall|i: int|
        0 <= i < steps.len() ==> step_compat(#[trigger] steps[i]) == Compat::BackCompatible
}

/// Steps applied first to last, a drop ending it.
pub open spec fn steps_up(steps: Seq<StepV>, op: OpV) -> OpRewriteV
    decreases steps.len(),
{
    if steps.len() == 0 {
        OpRewriteV::Keep(op)
    } else {
        match step_up(steps[0], op) {
            OpRewriteV::Keep(next) => steps_up(steps.skip(1), next),
            OpRewriteV::Drop => OpRewriteV::Drop,
        }
    }
}

/// Steps inverted last to first, a drop ending it and a step without an inverse
/// leaving no image.
pub open spec fn steps_down(steps: Seq<StepV>, op: OpV) -> Option<OpRewriteV>
    decreases steps.len(),
{
    if steps.len() == 0 {
        Some(OpRewriteV::Keep(op))
    } else {
        match step_down(steps.last(), op) {
            Some(OpRewriteV::Keep(next)) => steps_down(steps.drop_last(), next),
            Some(OpRewriteV::Drop) => Some(OpRewriteV::Drop),
            None => None,
        }
    }
}

/// The op's image across an edge, backward: none unless the whole edge inverts.
pub open spec fn edge_down(edge: MigrationV, op: OpV) -> Option<OpRewriteV> {
    if all_compatible(edge.steps) {
        steps_down(edge.steps, op)
    } else {
        None
    }
}

/// The op's image along a chain of edges, forward.
pub open spec fn up_along(edges: Seq<MigrationV>, op: OpV) -> OpRewriteV
    decreases edges.len(),
{
    if edges.len() == 0 {
        OpRewriteV::Keep(op)
    } else {
        match steps_up(edges[0].steps, op) {
            OpRewriteV::Keep(next) => up_along(edges.skip(1), next),
            OpRewriteV::Drop => OpRewriteV::Drop,
        }
    }
}

/// Edges inverted last to first.
pub open spec fn edges_down(edges: Seq<MigrationV>, op: OpV) -> Option<OpRewriteV>
    decreases edges.len(),
{
    if edges.len() == 0 {
        Some(OpRewriteV::Keep(op))
    } else {
        match edge_down(edges.last(), op) {
            Some(OpRewriteV::Keep(next)) => edges_down(edges.drop_last(), next),
            Some(OpRewriteV::Drop) => Some(OpRewriteV::Drop),
            None => None,
        }
    }
}

/// Whether every edge inverts.
pub open spec fn all_invert(edges: Seq<MigrationV>) -> bool {
    forall|i: int| 0 <= i < edges.len() ==> all_compatible((#[trigger] edges[i]).steps)
}

/// The op's image along a chain of edges, backward: none unless every edge inverts.
pub open spec fn down_along(edges: Seq<MigrationV>, op: OpV) -> Option<OpRewriteV> {
    if all_invert(edges) {
        edges_down(edges, op)
    } else {
        None
    }
}

// --- rewriting ---

impl Step {
    /// Whether this step has an inverse.
    pub fn compat(&self) -> (c: Compat)
        ensures
            c == step_compat(self@),
    {
        match self {
            Step::AddType { .. } | Step::AddField { .. } => Compat::BackCompatible,
            Step::RemoveType { .. } | Step::RemoveField { .. } | Step::RenameType { .. }
            | Step::RenameField { .. } => Compat::Breaking,
        }
    }

    /// Rewrite one op forward, to the version this step produces.
    pub fn rewrite_up(&self, op: &Op) -> (r: OpRewrite)
        ensures
            r@ == step_up(self@, op@),
    {
        match self {
            Step::RenameField { from, to, .. } => rename_key(op, from.as_str(), to.as_str()),
            Step::RemoveField { field, .. } => drop_on_key(op, field.as_str()),
            Step::AddField { .. } | Step::AddType { .. } | Step::RemoveType { .. }
            | Step::RenameType { .. } => OpRewrite::Keep(op.clone()),
        }
    }

    /// Rewrite one op backward, to the version this step migrates from; `None` when the
    /// step is breaking.
    pub fn rewrite_down(&self, op: &Op) -> (r: Option<OpRewrite>)
        ensures
            opt_rewrite(r) == step_down(self@, op@),
    {
        match self {
            Step::AddField { field, .. } => Some(drop_on_key(op, field.as_str())),
            Step::AddType { .. } => Some(OpRewrite::Keep(op.clone())),
            Step::RemoveType { .. } | Step::RemoveField { .. } | Step::RenameType { .. }
            | Step::RenameField { .. } => None,
        }
    }
}

/// The slot key an op addresses, for the map-level kinds that carry one.
pub fn op_key(op: &Op) -> (r: Option<&[u8]>)
    ensures
        match spec_op_key(op@.kind) {
            Some(k) => r is Some && r->Some_0@ == k,
            None => r is None,
        },
{
    match &op.kind {
        OpKind::RegisterSet { key, .. } => Some(key.as_slice()),
        OpKind::CounterInc { key, .. } => Some(key.as_slice()),
        OpKind::CounterDec { key, .. } => Some(key.as_slice()),
        OpKind::MapSet { key, .. } => Some(key.as_slice()),
        OpKind::MapDelete { key } => Some(key.as_slice()),
        OpKind::MapCreate { key } => Some(key.as_slice()),
        OpKind::ListCreate { key } => Some(key.as_slice()),
        OpKind::TextCreate { key } => Some(key.as_slice()),
        OpKind::XmlElementCreate { key, .. } => Some(key.as_slice()),
        OpKind::XmlFragmentCreate { key } => Some(key.as_slice()),
        OpKind::ListInsert { .. } | OpKind::ListDelete { .. } | OpKind::TextInsert { .. }
        | OpKind::TextDelete { .. } | OpKind::XmlInsertChild { .. } | OpKind::XmlMove { .. }
        | OpKind::XmlReveal { .. } | OpKind::RangedCreate { .. } | OpKind::RangedSetPayload { .. }
        | OpKind::RangedDelete { .. } | OpKind::AclGrant { .. } | OpKind::AclRevoke { .. } => None,
    }
}

fn addresses_field(op: &Op, field: &str) -> (b: bool)
    ensures
        b == addresses(op@, field@),
{
    match op_key(op) {
        Some(key) => bytes_eq(key, field.as_bytes()),
        None => false,
    }
}

/// Keep the op, rewriting its key from `from` to `to` when it matches.
fn rename_key(op: &Op, from: &str, to: &str) -> (r: OpRewrite)
    ensures
        r@ == if addresses(op@, from@) {
            OpRewriteV::Keep(OpV { kind: kind_with_key(op@.kind, encode_utf8(to@)), ..op@ })
        } else {
            OpRewriteV::Keep(op@)
        },
{
    if addresses_field(op, from) {
        OpRewrite::Keep(with_key(op, slice_to_vec(to.as_bytes())))
    } else {
        OpRewrite::Keep(op.clone())
    }
}

/// Drop the op when it addresses `field`, else keep it unchanged.
fn drop_on_key(op: &Op, field: &str) -> (r: OpRewrite)
    ensures
        r@ == if addresses(op@, field@) {
            OpRewriteV::Drop
        } else {
            OpRewriteV::Keep(op@)
        },
{
    if addresses_field(op, field) {
        OpRewrite::Drop
    } else {
        OpRewrite::Keep(op.clone())
    }
}

/// A copy of `op` with its slot key replaced.
fn with_key(op: &Op, new_key: Vec<u8>) -> (r: Op)
    ensures
        r@ == (OpV { kind: kind_with_key(op@.kind, new_key@), ..op@ }),
{
    let kind = match &op.kind {
        OpKind::RegisterSet { value, .. } => OpKind::RegisterSet {
            key: new_key,
            value: value.clone(),
        },
        OpKind::CounterInc { amount, .. } => OpKind::CounterInc { key: new_key, amount: *amount },
        OpKind::CounterDec { amount, .. } => OpKind::CounterDec { key: new_key, amount: *amount },
        OpKind::MapSet { value, .. } => OpKind::MapSet { key: new_key, value: value.clone() },
        OpKind::MapDelete { .. } => OpKind::MapDelete { key: new_key },
        OpKind::MapCreate { .. } => OpKind::MapCreate { key: new_key },
        OpKind::ListCreate { .. } => OpKind::ListCreate { key: new_key },
        OpKind::TextCreate { .. } => OpKind::TextCreate { key: new_key },
        OpKind::XmlElementCreate { tag, .. } => OpKind::XmlElementCreate {
            key: new_key,
            tag: slice_to_vec(tag.as_slice()),
        },
        OpKind::XmlFragmentCreate { .. } => OpKind::XmlFragmentCreate { key: new_key },
        other => other.clone(),
    };
    Op { id: op.id, stamp: op.stamp, target: op.target, kind, tx: op.tx, zone: op.zone }
}

/// Rewrite one op forward along a contiguous ascending chain of edges. An empty slice
/// is identity.
pub fn rewrite_up_along(edges: &[Migration], op: &Op) -> (r: OpRewrite)
    ensures
        r@ == up_along(edges_view(edges@), op@),
{
    let ghost all = edges_view(edges@);
    let mut current = op.clone();
    let mut i: usize = 0;
    proof {
        assert(all.skip(0) =~= all);
    }
    while i < edges.len()
        invariant
            i <= edges@.len(),
            all == edges_view(edges@),
            up_along(all, op@) == up_along(all.skip(i as int), current@),
        decreases edges@.len() - i,
    {
        proof {
            assert(all.skip(i as int)[0] == edges@[i as int]@);
            assert(all.skip(i as int).skip(1) =~= all.skip(i + 1));
        }
        match edges[i].rewrite_up(&current) {
            OpRewrite::Keep(next) => {
                current = next;
            },
            OpRewrite::Drop => return OpRewrite::Drop,
        }
        i += 1;
    }
    OpRewrite::Keep(current)
}

/// Rewrite one op backward along a contiguous ascending chain; `None` when any edge is
/// breaking. The chain inverts top-first.
pub fn rewrite_down_along(edges: &[Migration], op: &Op) -> (r: Option<OpRewrite>)
    ensures
        opt_rewrite(r) == down_along(edges_view(edges@), op@),
{
    let ghost all = edges_view(edges@);
    if !reachable_down(edges) {
        return None;
    }
    let mut current = op.clone();
    let mut i: usize = edges.len();
    proof {
        assert(all.take(i as int) =~= all);
    }
    while i > 0
        invariant
            i <= edges@.len(),
            all == edges_view(edges@),
            all_invert(all),
            edges_down(all, op@) == edges_down(all.take(i as int), current@),
        decreases i,
    {
        i -= 1;
        proof {
            assert(all.take(i + 1).last() == edges@[i as int]@);
            assert(all.take(i + 1).drop_last() =~= all.take(i as int));
        }
        match edges[i].rewrite_down(&current) {
            None => return None,
            Some(OpRewrite::Keep(next)) => {
                current = next;
            },
            Some(OpRewrite::Drop) => return Some(OpRewrite::Drop),
        }
    }
    Some(OpRewrite::Keep(current))
}

/// Whether the bottom of a contiguous ascending chain is reachable from the top by
/// down-migration: true iff every edge is back-compatible.
pub fn reachable_down(edges: &[Migration]) -> (b: bool)
    ensures
        b == all_invert(edges_view(edges@)),
{
    let ghost all = edges_view(edges@);
    let mut i: usize = 0;
    while i < edges.len()
        invariant
            i <= edges@.len(),
            all == edges_view(edges@),
            forall|j: int| 0 <= j < i ==> all_compatible((#[trigger] all[j]).steps),
        decreases edges@.len() - i,
    {
        proof {
            assert(all[i as int] == edges@[i as int]@);
        }
        if edges[i].compat() != Compat::BackCompatible {
            return false;
        }
        i += 1;
    }
    true
}

impl Migration {
    /// The steps of this edge, in declaration order.
    pub fn steps(&self) -> (s: &[Step])
        ensures
            s@ == self.steps@,
    {
        self.steps.as_slice()
    }

    /// The compatibility class of the whole edge: back-compatible only when every step
    /// is.
    pub fn compat(&self) -> (c: Compat)
        ensures
            c == if all_compatible(self@.steps) {
                Compat::BackCompatible
            } else {
                Compat::Breaking
            },
    {
        let ghost all = self@.steps;
        let mut i: usize = 0;
        while i < self.steps.len()
            invariant
                i <= self.steps@.len(),
                all == self@.steps,
                forall|j: int|
                    0 <= j < i ==> step_compat(#[trigger] all[j]) == Compat::BackCompatible,
            decreases self.steps@.len() - i,
        {
            proof {
                assert(all[i as int] == self.steps@[i as int]@);
            }
            if self.steps[i].compat() != Compat::BackCompatible {
                return Compat::Breaking;
            }
            i += 1;
        }
        Compat::BackCompatible
    }

    /// Rewrite one op forward across the whole edge.
    pub fn rewrite_up(&self, op: &Op) -> (r: OpRewrite)
        ensures
            r@ == steps_up(self@.steps, op@),
    {
        let ghost all = self@.steps;
        let mut current = op.clone();
        let mut i: usize = 0;
        proof {
            assert(all.skip(0) =~= all);
        }
        while i < self.steps.len()
            invariant
                i <= self.steps@.len(),
                all == self@.steps,
                steps_up(all, op@) == steps_up(all.skip(i as int), current@),
            decreases self.steps@.len() - i,
        {
            proof {
                assert(all.skip(i as int)[0] == self.steps@[i as int]@);
                assert(all.skip(i as int).skip(1) =~= all.skip(i + 1));
            }
            match self.steps[i].rewrite_up(&current) {
                OpRewrite::Keep(next) => {
                    current = next;
                },
                OpRewrite::Drop => return OpRewrite::Drop,
            }
            i += 1;
        }
        OpRewrite::Keep(current)
    }

    /// Rewrite one op backward across the whole edge; `None` when the edge is breaking.
    pub fn rewrite_down(&self, op: &Op) -> (r: Option<OpRewrite>)
        ensures
            opt_rewrite(r) == edge_down(self@, op@),
    {
        let ghost all = self@.steps;
        if self.compat() == Compat::Breaking {
            return None;
        }
        let mut current = op.clone();
        let mut i: usize = self.steps.len();
        proof {
            assert(all.take(i as int) =~= all);
        }
        while i > 0
            invariant
                i <= self.steps@.len(),
                all == self@.steps,
                all_compatible(all),
                steps_down(all, op@) == steps_down(all.take(i as int), current@),
            decreases i,
        {
            i -= 1;
            proof {
                assert(all.take(i + 1).last() == self.steps@[i as int]@);
                assert(all.take(i + 1).drop_last() =~= all.take(i as int));
            }
            match self.steps[i].rewrite_down(&current) {
                None => return None,
                Some(OpRewrite::Keep(next)) => {
                    current = next;
                },
                Some(OpRewrite::Drop) => return Some(OpRewrite::Drop),
            }
        }
        Some(OpRewrite::Keep(current))
    }
}

// --- parsing ---

/// Why a migration failed to parse or validate.
#[derive(Clone, Copy, PartialEq, Eq, Debug, Structural)]
pub enum MigrationErrorKind {
    /// The JSON itself did not parse.
    Json(JsonErrorKind),
    /// An object was required but the value was not one.
    NotAnObject,
    /// A required field was absent.
    MissingField,
    /// A field was present but had the wrong JSON type.
    WrongType,
    /// A key the migration language does not define at its position.
    UnknownField,
    /// A step named a `kind` that is not a structural step.
    UnknownStepKind,
    /// The versions are not a single forward step.
    NonContiguous,
    /// A version was negative, zero where a predecessor is required, or beyond `u32`.
    BadVersion,
    /// A type or field name was the empty string.
    EmptyName,
}

/// A migration failure: its kind and the field or step it occurred at.
#[derive(PartialEq, Eq, Debug)]
pub struct MigrationError {
    pub kind: MigrationErrorKind,
    pub at: String,
}

/// A migration failure, by value.
pub struct MigrationErrorV {
    pub kind: MigrationErrorKind,
    pub at: Seq<char>,
}

impl View for MigrationError {
    type V = MigrationErrorV;

    open spec fn view(&self) -> MigrationErrorV {
        MigrationErrorV { kind: self.kind, at: self.at@ }
    }
}

pub open spec fn failed<T>(kind: MigrationErrorKind, at: Seq<char>) -> Result<T, MigrationErrorV> {
    Err(MigrationErrorV { kind, at })
}

/// A readable error location: a field key joined onto its enclosing context.
pub open spec fn located(ctx: Seq<char>, key: Seq<char>) -> Seq<char> {
    if ctx.len() == 0 {
        key
    } else {
        ctx + "."@ + key
    }
}

/// A required string field.
pub open spec fn read_str(json: JsonV, key: Seq<char>, ctx: Seq<char>) -> Result<
    Seq<char>,
    MigrationErrorV,
> {
    match json_get(json, key) {
        None => failed(MigrationErrorKind::MissingField, located(ctx, key)),
        Some(JsonV::Str(t)) => Ok(t),
        Some(_) => failed(MigrationErrorKind::WrongType, located(ctx, key)),
    }
}

/// A required string field that must not be empty.
pub open spec fn read_name(json: JsonV, key: Seq<char>, ctx: Seq<char>) -> Result<
    Seq<char>,
    MigrationErrorV,
> {
    match read_str(json, key, ctx) {
        Err(e) => Err(e),
        Ok(t) => if t.len() == 0 {
            failed(MigrationErrorKind::EmptyName, located(ctx, key))
        } else {
            Ok(t)
        },
    }
}

/// A version field: an integer in `u32` range.
pub open spec fn read_version(json: JsonV, key: Seq<char>) -> Result<u32, MigrationErrorV> {
    match json_get(json, key) {
        None => failed(MigrationErrorKind::MissingField, key),
        Some(JsonV::Int(n)) => if 0 <= n <= u32::MAX {
            Ok(n as u32)
        } else {
            failed(MigrationErrorKind::BadVersion, key)
        },
        Some(_) => failed(MigrationErrorKind::WrongType, key),
    }
}

/// The first key outside `allowed`, if any.
pub open spec fn first_unknown(
    obj: Seq<(Seq<char>, JsonV)>,
    allowed: Seq<Seq<char>>,
) -> Option<Seq<char>>
    decreases obj.len(),
{
    if obj.len() == 0 {
        None
    } else if !allowed.contains(obj[0].0) {
        Some(obj[0].0)
    } else {
        first_unknown(obj.skip(1), allowed)
    }
}

/// Where step `i` stands.
pub open spec fn step_ctx(i: nat) -> Seq<char> {
    "steps["@ + decimal(i) + "]"@
}

/// Step `i` read from its JSON.
pub open spec fn read_step(json: JsonV, i: nat) -> Result<StepV, MigrationErrorV> {
    let ctx = step_ctx(i);
    match json {
        JsonV::Object(obj) => match read_str(json, "kind"@, ctx) {
            Err(e) => Err(e),
            Ok(kind) => if kind == "addType"@ {
                read_add_type(json, obj, ctx)
            } else if kind == "removeType"@ {
                match first_unknown(obj, seq!["kind"@, "name"@]) {
                    Some(k) => failed(MigrationErrorKind::UnknownField, located(ctx, k)),
                    None => match read_name(json, "name"@, ctx) {
                        Err(e) => Err(e),
                        Ok(name) => Ok(StepV::RemoveType { name }),
                    },
                }
            } else if kind == "renameType"@ {
                match first_unknown(obj, seq!["kind"@, "from"@, "to"@]) {
                    Some(k) => failed(MigrationErrorKind::UnknownField, located(ctx, k)),
                    None => match read_name(json, "from"@, ctx) {
                        Err(e) => Err(e),
                        Ok(from) => match read_name(json, "to"@, ctx) {
                            Err(e) => Err(e),
                            Ok(to) => Ok(StepV::RenameType { from, to }),
                        },
                    },
                }
            } else if kind == "addField"@ {
                read_add_field(json, obj, ctx)
            } else if kind == "removeField"@ {
                match first_unknown(obj, seq!["kind"@, "type"@, "field"@]) {
                    Some(k) => failed(MigrationErrorKind::UnknownField, located(ctx, k)),
                    None => match read_name(json, "type"@, ctx) {
                        Err(e) => Err(e),
                        Ok(ty) => match read_name(json, "field"@, ctx) {
                            Err(e) => Err(e),
                            Ok(field) => Ok(StepV::RemoveField { ty, field }),
                        },
                    },
                }
            } else if kind == "renameField"@ {
                read_rename_field(json, obj, ctx)
            } else {
                failed(MigrationErrorKind::UnknownStepKind, located(ctx, "kind"@))
            },
        },
        _ => failed(MigrationErrorKind::NotAnObject, ctx),
    }
}

pub open spec fn read_add_type(
    json: JsonV,
    obj: Seq<(Seq<char>, JsonV)>,
    ctx: Seq<char>,
) -> Result<StepV, MigrationErrorV> {
    match first_unknown(obj, seq!["kind"@, "name"@, "def"@]) {
        Some(k) => failed(MigrationErrorKind::UnknownField, located(ctx, k)),
        None => match read_name(json, "name"@, ctx) {
            Err(e) => Err(e),
            Ok(name) => match json_get(json, "def"@) {
                None => failed(MigrationErrorKind::MissingField, located(ctx, "def"@)),
                Some(def) => Ok(StepV::AddType { name, def }),
            },
        },
    }
}

pub open spec fn read_add_field(
    json: JsonV,
    obj: Seq<(Seq<char>, JsonV)>,
    ctx: Seq<char>,
) -> Result<StepV, MigrationErrorV> {
    match first_unknown(obj, seq!["kind"@, "type"@, "field"@, "fieldType"@]) {
        Some(k) => failed(MigrationErrorKind::UnknownField, located(ctx, k)),
        None => match read_name(json, "type"@, ctx) {
            Err(e) => Err(e),
            Ok(ty) => match read_name(json, "field"@, ctx) {
                Err(e) => Err(e),
                Ok(field) => match read_name(json, "fieldType"@, ctx) {
                    Err(e) => Err(e),
                    Ok(field_type) => Ok(StepV::AddField { ty, field, field_type }),
                },
            },
        },
    }
}

pub open spec fn read_rename_field(
    json: JsonV,
    obj: Seq<(Seq<char>, JsonV)>,
    ctx: Seq<char>,
) -> Result<StepV, MigrationErrorV> {
    match first_unknown(obj, seq!["kind"@, "type"@, "from"@, "to"@]) {
        Some(k) => failed(MigrationErrorKind::UnknownField, located(ctx, k)),
        None => match read_name(json, "type"@, ctx) {
            Err(e) => Err(e),
            Ok(ty) => match read_name(json, "from"@, ctx) {
                Err(e) => Err(e),
                Ok(from) => match read_name(json, "to"@, ctx) {
                    Err(e) => Err(e),
                    Ok(to) => Ok(StepV::RenameField { ty, from, to }),
                },
            },
        },
    }
}

/// The steps from index `i` on.
pub open spec fn read_steps(arr: Seq<JsonV>, i: nat) -> Result<Seq<StepV>, MigrationErrorV>
    decreases arr.len() - i,
{
    if i >= arr.len() {
        Ok(Seq::empty())
    } else {
        match read_step(arr[i as int], i) {
            Err(e) => Err(e),
            Ok(step) => match read_steps(arr, i + 1) {
                Err(e) => Err(e),
                Ok(steps) => Ok(seq![step] + steps),
            },
        }
    }
}

/// A migration read from JSON: an object with nothing but `from`, `to` and `steps`,
/// `to` one past `from`, `from` at least 1, every step well formed.
pub open spec fn read_migration(json: JsonV) -> Result<MigrationV, MigrationErrorV> {
    match json {
        JsonV::Object(obj) => match first_unknown(obj, seq!["from"@, "to"@, "steps"@]) {
            Some(k) => failed(MigrationErrorKind::UnknownField, k),
            None => match read_version(json, "from"@) {
                Err(e) => Err(e),
                Ok(from) => match read_version(json, "to"@) {
                    Err(e) => Err(e),
                    Ok(to) => if from < 1 {
                        failed(MigrationErrorKind::BadVersion, "from"@)
                    } else if from + 1 != to {
                        failed(MigrationErrorKind::NonContiguous, "to"@)
                    } else {
                        match json_get(json, "steps"@) {
                            None => failed(MigrationErrorKind::MissingField, "steps"@),
                            Some(JsonV::Array(arr)) => match read_steps(arr, 0) {
                                Err(e) => Err(e),
                                Ok(steps) => Ok(MigrationV { from, to, steps }),
                            },
                            Some(_) => failed(MigrationErrorKind::WrongType, "steps"@),
                        }
                    },
                },
            },
        },
        _ => failed(MigrationErrorKind::NotAnObject, "document"@),
    }
}

/// A migration read from its JSON source.
pub open spec fn read_source(src: Seq<char>) -> Result<MigrationV, MigrationErrorV> {
    match read_json(encode_utf8(src)) {
        Err(e) => failed(MigrationErrorKind::Json(e.kind), "byte "@ + decimal(e.at as nat)),
        Ok(json) => read_migration(json),
    }
}

/// What was returned is what was to be read, by value.
pub open spec fn yields<T: View>(
    got: Result<T, MigrationError>,
    want: Result<T::V, MigrationErrorV>,
) -> bool {
    match want {
        Ok(v) => got is Ok && got->Ok_0@ == v,
        Err(e) => got is Err && got->Err_0@ == e,
    }
}

impl MigrationErrorKind {
    /// What the kind says went wrong.
    pub open spec fn spec_what(self) -> Seq<char> {
        match self {
            MigrationErrorKind::Json(_) => "invalid migration JSON"@,
            MigrationErrorKind::NotAnObject => "expected an object"@,
            MigrationErrorKind::MissingField => "missing field"@,
            MigrationErrorKind::WrongType => "field has the wrong type"@,
            MigrationErrorKind::UnknownField => "unknown field"@,
            MigrationErrorKind::UnknownStepKind => "unknown step kind"@,
            MigrationErrorKind::NonContiguous => "versions are not a single forward step"@,
            MigrationErrorKind::BadVersion => "version out of range"@,
            MigrationErrorKind::EmptyName => "empty name"@,
        }
    }
}

/// The name of a JSON error kind.
pub open spec fn json_kind_name(k: JsonErrorKind) -> Seq<char> {
    match k {
        JsonErrorKind::UnexpectedEof => "UnexpectedEof"@,
        JsonErrorKind::Unexpected => "Unexpected"@,
        JsonErrorKind::BadEscape => "BadEscape"@,
        JsonErrorKind::BadNumber => "BadNumber"@,
        JsonErrorKind::BadUnicode => "BadUnicode"@,
        JsonErrorKind::DuplicateKey => "DuplicateKey"@,
        JsonErrorKind::TrailingBytes => "TrailingBytes"@,
        JsonErrorKind::DepthLimit => "DepthLimit"@,
    }
}

impl MigrationError {
    fn new(kind: MigrationErrorKind, at: String) -> (e: Self)
        ensures
            e@ == (MigrationErrorV { kind, at: at@ }),
    {
        MigrationError { kind, at }
    }

    /// A readable message: what went wrong and where. A JSON failure names its kind.
    pub fn message(&self) -> (m: String)
        ensures
            m@ == match self.kind {
                MigrationErrorKind::Json(k) => self.kind.spec_what() + " ("@ + json_kind_name(k)
                    + ")"@ + " at "@ + self.at@,
                _ => self.kind.spec_what() + " at "@ + self.at@,
            },
    {
        let mut m = String::new();
        match self.kind {
            MigrationErrorKind::Json(k) => {
                m.push_str("invalid migration JSON");
                m.push_str(" (");
                m.push_str(
                    match k {
                        JsonErrorKind::UnexpectedEof => "UnexpectedEof",
                        JsonErrorKind::Unexpected => "Unexpected",
                        JsonErrorKind::BadEscape => "BadEscape",
                        JsonErrorKind::BadNumber => "BadNumber",
                        JsonErrorKind::BadUnicode => "BadUnicode",
                        JsonErrorKind::DuplicateKey => "DuplicateKey",
                        JsonErrorKind::TrailingBytes => "TrailingBytes",
                        JsonErrorKind::DepthLimit => "DepthLimit",
                    },
                );
                m.push_str(")");
            },
            MigrationErrorKind::NotAnObject => m.push_str("expected an object"),
            MigrationErrorKind::MissingField => m.push_str("missing field"),
            MigrationErrorKind::WrongType => m.push_str("field has the wrong type"),
            MigrationErrorKind::UnknownField => m.push_str("unknown field"),
            MigrationErrorKind::UnknownStepKind => m.push_str("unknown step kind"),
            MigrationErrorKind::NonContiguous => m.push_str(
                "versions are not a single forward step",
            ),
            MigrationErrorKind::BadVersion => m.push_str("version out of range"),
            MigrationErrorKind::EmptyName => m.push_str("empty name"),
        }
        m.push_str(" at ");
        m.push_str(self.at.as_str());
        proof {
            assert(m@ =~= match self.kind {
                MigrationErrorKind::Json(k) => self.kind.spec_what() + " ("@ + json_kind_name(k)
                    + ")"@ + " at "@ + self.at@,
                _ => self.kind.spec_what() + " at "@ + self.at@,
            });
        }
        m
    }
}

/// A readable error location.
fn at(ctx: &str, key: &str) -> (s: String)
    ensures
        s@ == located(ctx@, key@),
{
    let mut s = String::new();
    if !ctx.is_empty() {
        s.push_str(ctx);
        s.push_str(".");
    }
    s.push_str(key);
    proof {
        assert(s@ =~= located(ctx@, key@));
    }
    s
}

fn owned(s: &str) -> (r: String)
    ensures
        r@ == s@,
{
    let mut r = String::new();
    r.push_str(s);
    proof {
        assert(r@ =~= s@);
    }
    r
}

fn required_str<'a>(json: &'a Json, key: &str, ctx: &str) -> (r: Result<&'a str, MigrationError>)
    ensures
        match read_str(json@, key@, ctx@) {
            Ok(t) => r is Ok && r->Ok_0@ == t,
            Err(e) => r is Err && r->Err_0@ == e,
        },
{
    match json.get(key) {
        None => Err(MigrationError::new(MigrationErrorKind::MissingField, at(ctx, key))),
        Some(v) => match v.as_str() {
            Some(t) => Ok(t),
            None => Err(MigrationError::new(MigrationErrorKind::WrongType, at(ctx, key))),
        },
    }
}

/// A required string field that must not be empty.
fn required_name(json: &Json, key: &str, ctx: &str) -> (r: Result<String, MigrationError>)
    ensures
        yields(r, read_name(json@, key@, ctx@)),
{
    let s = required_str(json, key, ctx)?;
    if s.is_empty() {
        return Err(MigrationError::new(MigrationErrorKind::EmptyName, at(ctx, key)));
    }
    Ok(owned(s))
}

/// A version field parsed as a `u32`.
fn version(json: &Json, key: &str) -> (r: Result<u32, MigrationError>)
    ensures
        yields(r, read_version(json@, key@)),
{
    match json.get(key) {
        None => Err(MigrationError::new(MigrationErrorKind::MissingField, owned(key))),
        Some(v) => match v.as_i64() {
            None => Err(MigrationError::new(MigrationErrorKind::WrongType, owned(key))),
            Some(n) => if 0 <= n && n <= u32::MAX as i64 {
                Ok(n as u32)
            } else {
                Err(MigrationError::new(MigrationErrorKind::BadVersion, owned(key)))
            },
        },
    }
}

spec fn strs(a: Seq<&str>) -> Seq<Seq<char>> {
    a.map_values(|s: &str| s@)
}

/// Whether `key` is one of `allowed`.
fn is_allowed(allowed: &[&str], key: &str) -> (b: bool)
    ensures
        b == strs(allowed@).contains(key@),
{
    let ghost all = strs(allowed@);
    let mut i: usize = 0;
    while i < allowed.len()
        invariant
            i <= allowed@.len(),
            all == strs(allowed@),
            forall|j: int| 0 <= j < i ==> (#[trigger] all[j]) != key@,
        decreases allowed@.len() - i,
    {
        if str_eq(allowed[i], key) {
            proof {
                assert(all[i as int] == key@);
            }
            return true;
        }
        i += 1;
    }
    false
}

/// The first key of `obj` outside `allowed`.
fn unknown_key(obj: &[(String, Json)], allowed: &[&str]) -> (r: Option<String>)
    ensures
        match first_unknown(pairs_view(obj@), strs(allowed@)) {
            Some(k) => r is Some && r->Some_0@ == k,
            None => r is None,
        },
{
    let ghost pv = pairs_view(obj@);
    let mut i: usize = 0;
    proof {
        assert(pv.skip(0) =~= pv);
    }
    while i < obj.len()
        invariant
            i <= obj@.len(),
            pv == pairs_view(obj@),
            first_unknown(pv, strs(allowed@)) == first_unknown(pv.skip(i as int), strs(allowed@)),
        decreases obj@.len() - i,
    {
        proof {
            assert(pv.skip(i as int)[0] == pv[i as int]);
            assert(pv.skip(i as int).skip(1) =~= pv.skip(i + 1));
        }
        if !is_allowed(allowed, obj[i].0.as_str()) {
            return Some(obj[i].0.clone());
        }
        i += 1;
    }
    None
}

/// Reject any key of `obj` outside `allowed`, so a mistyped field fails loud.
fn reject_unknown(obj: &[(String, Json)], allowed: &[&str], ctx: &str) -> (r: Result<
    (),
    MigrationError,
>)
    ensures
        match first_unknown(pairs_view(obj@), strs(allowed@)) {
            Some(k) => r is Err && r->Err_0@ == (MigrationErrorV {
                kind: MigrationErrorKind::UnknownField,
                at: located(ctx@, k),
            }),
            None => r is Ok,
        },
{
    match unknown_key(obj, allowed) {
        Some(k) => Err(
            MigrationError::new(MigrationErrorKind::UnknownField, at(ctx, k.as_str())),
        ),
        None => Ok(()),
    }
}

fn parse_step(json: &Json, index: usize) -> (r: Result<Step, MigrationError>)
    ensures
        yields(r, read_step(json@, index as nat)),
{
    let mut ctx = String::new();
    ctx.push_str("steps[");
    push_decimal(&mut ctx, index as u64);
    ctx.push_str("]");
    proof {
        assert(ctx@ =~= step_ctx(index as nat));
    }
    let ctx = ctx.as_str();
    let obj = match json.as_object() {
        Some(o) => o,
        None => return Err(MigrationError::new(MigrationErrorKind::NotAnObject, owned(ctx))),
    };
    let kind = required_str(json, "kind", ctx)?;
    if str_eq(kind, "addType") {
        let allowed: [&str; 3] = ["kind", "name", "def"];
        proof {
            assert(strs(allowed@) =~= seq!["kind"@, "name"@, "def"@]);
        }
        reject_unknown(obj, &allowed, ctx)?;
        let name = required_name(json, "name", ctx)?;
        match json.get("def") {
            None => Err(MigrationError::new(MigrationErrorKind::MissingField, at(ctx, "def"))),
            Some(def) => Ok(Step::AddType { name, def: def.copy() }),
        }
    } else if str_eq(kind, "removeType") {
        let allowed: [&str; 2] = ["kind", "name"];
        proof {
            assert(strs(allowed@) =~= seq!["kind"@, "name"@]);
        }
        reject_unknown(obj, &allowed, ctx)?;
        let name = required_name(json, "name", ctx)?;
        Ok(Step::RemoveType { name })
    } else if str_eq(kind, "renameType") {
        let allowed: [&str; 3] = ["kind", "from", "to"];
        proof {
            assert(strs(allowed@) =~= seq!["kind"@, "from"@, "to"@]);
        }
        reject_unknown(obj, &allowed, ctx)?;
        let from = required_name(json, "from", ctx)?;
        let to = required_name(json, "to", ctx)?;
        Ok(Step::RenameType { from, to })
    } else if str_eq(kind, "addField") {
        let allowed: [&str; 4] = ["kind", "type", "field", "fieldType"];
        proof {
            assert(strs(allowed@) =~= seq!["kind"@, "type"@, "field"@, "fieldType"@]);
        }
        reject_unknown(obj, &allowed, ctx)?;
        let ty = required_name(json, "type", ctx)?;
        let field = required_name(json, "field", ctx)?;
        let field_type = required_name(json, "fieldType", ctx)?;
        Ok(Step::AddField { ty, field, field_type })
    } else if str_eq(kind, "removeField") {
        let allowed: [&str; 3] = ["kind", "type", "field"];
        proof {
            assert(strs(allowed@) =~= seq!["kind"@, "type"@, "field"@]);
        }
        reject_unknown(obj, &allowed, ctx)?;
        let ty = required_name(json, "type", ctx)?;
        let field = required_name(json, "field", ctx)?;
        Ok(Step::RemoveField { ty, field })
    } else if str_eq(kind, "renameField") {
        let allowed: [&str; 4] = ["kind", "type", "from", "to"];
        proof {
            assert(strs(allowed@) =~= seq!["kind"@, "type"@, "from"@, "to"@]);
        }
        reject_unknown(obj, &allowed, ctx)?;
        let ty = required_name(json, "type", ctx)?;
        let from = required_name(json, "from", ctx)?;
        let to = required_name(json, "to", ctx)?;
        Ok(Step::RenameField { ty, from, to })
    } else {
        Err(MigrationError::new(MigrationErrorKind::UnknownStepKind, at(ctx, "kind")))
    }
}

impl Migration {
    /// Parse and validate a migration from its JSON source.
    pub fn parse(src: &str) -> (r: Result<Migration, MigrationError>)
        requires
            encode_utf8(src@).len() + 8 <= usize::MAX,
        ensures
            yields(r, read_source(src@)),
    {
        match Json::parse(src) {
            Err(e) => {
                let mut at = String::new();
                at.push_str("byte ");
                push_decimal(&mut at, e.at as u64);
                proof {
                    assert(at@ =~= "byte "@ + decimal(e.at as nat));
                }
                Err(MigrationError::new(MigrationErrorKind::Json(e.kind), at))
            },
            Ok(json) => Migration::from_json(&json),
        }
    }

    /// Build a migration from an already-parsed JSON value.
    pub fn from_json(json: &Json) -> (r: Result<Migration, MigrationError>)
        ensures
            yields(r, read_migration(json@)),
    {
        let obj = match json.as_object() {
            Some(o) => o,
            None => return Err(
                MigrationError::new(MigrationErrorKind::NotAnObject, owned("document")),
            ),
        };
        let allowed: [&str; 3] = ["from", "to", "steps"];
        proof {
            assert(strs(allowed@) =~= seq!["from"@, "to"@, "steps"@]);
        }
        match unknown_key(obj, &allowed) {
            Some(k) => return Err(MigrationError::new(MigrationErrorKind::UnknownField, k)),
            None => {},
        }
        let from: u32 = version(json, "from")?;
        let to: u32 = version(json, "to")?;
        if from < 1 {
            return Err(MigrationError::new(MigrationErrorKind::BadVersion, owned("from")));
        }
        if from == u32::MAX || from + 1 != to {
            return Err(MigrationError::new(MigrationErrorKind::NonContiguous, owned("to")));
        }
        let arr = match json.get("steps") {
            None => return Err(
                MigrationError::new(MigrationErrorKind::MissingField, owned("steps")),
            ),
            Some(v) => match v.as_array() {
                None => return Err(
                    MigrationError::new(MigrationErrorKind::WrongType, owned("steps")),
                ),
                Some(a) => a,
            },
        };
        let ghost av = items_view(arr@);
        let mut steps: Vec<Step> = Vec::new();
        let mut i: usize = 0;
        proof {
            assert(steps_view(steps@) =~= Seq::empty());
            if let Ok(rest) = read_steps(av, 0) {
                assert(Seq::<StepV>::empty() + rest =~= rest);
            }
        }
        while i < arr.len()
            invariant
                i <= arr@.len(),
                av == items_view(arr@),
                read_migration(json@) == match read_steps(av, 0) {
                    Err(e) => Err::<MigrationV, MigrationErrorV>(e),
                    Ok(steps) => Ok(MigrationV { from, to, steps }),
                },
                match read_steps(av, i as nat) {
                    Ok(rest) => read_steps(av, 0) == Ok::<Seq<StepV>, MigrationErrorV>(
                        steps_view(steps@) + rest,
                    ),
                    Err(e) => read_steps(av, 0) == Err::<Seq<StepV>, MigrationErrorV>(e),
                },
            decreases arr@.len() - i,
        {
            let ghost done = steps_view(steps@);
            let step = parse_step(&arr[i], i)?;
            let ghost sv = step@;
            steps.push(step);
            proof {
                assert(steps_view(steps@) =~= done.push(sv));
                if let Ok(rest) = read_steps(av, (i + 1) as nat) {
                    assert(done + (seq![sv] + rest) =~= steps_view(steps@) + rest);
                }
            }
            i += 1;
        }
        proof {
            assert(steps_view(steps@) + Seq::<StepV>::empty() =~= steps_view(steps@));
        }
        Ok(Migration { from, to, steps })
    }
}

// --- laws ---

/// A step has a down-rewrite exactly when it is back-compatible.
pub proof fn law_step_inverts_iff_compatible(step: StepV, op: OpV)
    ensures
        step_down(step, op) is Some <==> step_compat(step) == Compat::BackCompatible,
{
}

proof fn lemma_compatible_steps_invert(steps: Seq<StepV>, op: OpV)
    requires
        all_compatible(steps),
    ensures
        steps_down(steps, op) is Some,
    decreases steps.len(),
{
    if steps.len() > 0 {
        let init = steps.drop_last();
        assert(step_compat(steps[steps.len() - 1]) == Compat::BackCompatible);
        assert forall|i: int| 0 <= i < init.len() implies step_compat(#[trigger] init[i])
            == Compat::BackCompatible by {
            assert(init[i] == steps[i]);
        }
        if let Some(OpRewriteV::Keep(next)) = step_down(steps.last(), op) {
            lemma_compatible_steps_invert(init, next);
        }
    }
}

/// An edge has a down-rewrite exactly when every step has an inverse.
pub proof fn law_edge_inverts_iff_compatible(edge: MigrationV, op: OpV)
    ensures
        edge_down(edge, op) is Some <==> all_compatible(edge.steps),
{
    if all_compatible(edge.steps) {
        lemma_compatible_steps_invert(edge.steps, op);
    }
}

proof fn lemma_inverting_edges_invert(edges: Seq<MigrationV>, op: OpV)
    requires
        all_invert(edges),
    ensures
        edges_down(edges, op) is Some,
    decreases edges.len(),
{
    if edges.len() > 0 {
        let init = edges.drop_last();
        assert(all_compatible(edges[edges.len() - 1].steps));
        law_edge_inverts_iff_compatible(edges.last(), op);
        assert forall|i: int| 0 <= i < init.len() implies all_compatible(
            (#[trigger] init[i]).steps,
        ) by {
            assert(init[i] == edges[i]);
        }
        if let Some(OpRewriteV::Keep(next)) = edge_down(edges.last(), op) {
            lemma_inverting_edges_invert(init, next);
        }
    }
}

/// Rewriting down a chain gives an image exactly when the bottom is reachable from the
/// top.
pub proof fn law_chain_inverts_iff_reachable(edges: Seq<MigrationV>, op: OpV)
    ensures
        down_along(edges, op) is Some <==> all_invert(edges),
{
    if all_invert(edges) {
        lemma_inverting_edges_invert(edges, op);
    }
}

/// An empty chain, and an edge without steps, are identity both ways.
pub proof fn law_empty_chain_is_identity(op: OpV)
    ensures
        up_along(Seq::empty(), op) == OpRewriteV::Keep(op),
        down_along(Seq::empty(), op) == Some(OpRewriteV::Keep(op)),
        steps_up(Seq::empty(), op) == OpRewriteV::Keep(op),
        steps_down(Seq::empty(), op) == Some(OpRewriteV::Keep(op)),
{
}

/// Rewriting along two chains laid end to end is rewriting along the first, then the
/// second, a drop in the first ending it.
pub proof fn law_chains_compose(a: Seq<MigrationV>, b: Seq<MigrationV>, op: OpV)
    ensures
        up_along(a + b, op) == match up_along(a, op) {
            OpRewriteV::Keep(next) => up_along(b, next),
            OpRewriteV::Drop => OpRewriteV::Drop,
        },
    decreases a.len(),
{
    if a.len() == 0 {
        assert(a + b =~= b);
    } else {
        assert((a + b).skip(1) =~= a.skip(1) + b);
        if let OpRewriteV::Keep(next) = steps_up(a[0].steps, op) {
            law_chains_compose(a.skip(1), b, next);
        }
    }
}

/// Whether an image is the op but for its slot key.
pub open spec fn same_but_key(op: OpV, r: OpRewriteV) -> bool {
    r matches OpRewriteV::Keep(o) ==> o.id == op.id && o.stamp == op.stamp && o.target == op.target
        && o.tx == op.tx && (o.kind == op.kind || exists|k: Seq<u8>|
        o.kind == #[trigger] kind_with_key(op.kind, k))
}

/// A forward rewrite keeps an op's identity, position, target and group, and changes
/// nothing of what it does but the slot key.
pub proof fn law_rewrite_changes_only_the_key(steps: Seq<StepV>, op: OpV)
    ensures
        same_but_key(op, steps_up(steps, op)),
    decreases steps.len(),
{
    if steps.len() > 0 {
        if let OpRewriteV::Keep(next) = step_up(steps[0], op) {
            law_rewrite_changes_only_the_key(steps.skip(1), next);
            if let OpRewriteV::Keep(o) = steps_up(steps.skip(1), next) {
                if next.kind != op.kind {
                    let k0 = choose|k: Seq<u8>| next.kind == #[trigger] kind_with_key(op.kind, k);
                    assert(next.kind == kind_with_key(op.kind, k0)) by {
                        if let StepV::RenameField { to, .. } = steps[0] {
                            assert(next.kind == kind_with_key(op.kind, encode_utf8(to)));
                        }
                    }
                    if o.kind != next.kind {
                        let k = choose|k: Seq<u8>|
                            o.kind == #[trigger] kind_with_key(next.kind, k);
                        assert(o.kind == kind_with_key(op.kind, k));
                    }
                }
            }
        }
    }
}

/// A back-compatible edge leaves every op as it is on the way up.
pub proof fn law_compatible_edge_keeps_ops(steps: Seq<StepV>, op: OpV)
    requires
        all_compatible(steps),
    ensures
        steps_up(steps, op) == OpRewriteV::Keep(op),
    decreases steps.len(),
{
    if steps.len() > 0 {
        assert(step_compat(steps[0]) == Compat::BackCompatible);
        let tail = steps.skip(1);
        assert forall|i: int| 0 <= i < tail.len() implies step_compat(#[trigger] tail[i])
            == Compat::BackCompatible by {
            assert(tail[i] == steps[i + 1]);
        }
        law_compatible_edge_keeps_ops(tail, op);
    }
}

/// An op that names no slot key passes every chain unchanged, forward.
pub proof fn law_keyless_ops_pass(steps: Seq<StepV>, op: OpV)
    requires
        spec_op_key(op.kind) is None,
    ensures
        steps_up(steps, op) == OpRewriteV::Keep(op),
    decreases steps.len(),
{
    if steps.len() > 0 {
        law_keyless_ops_pass(steps.skip(1), op);
    }
}

/// A migration that parses is a single forward step from a version that exists.
pub proof fn law_parsed_edges_are_contiguous(src: Seq<char>)
    ensures
        read_source(src) matches Ok(m) ==> m.from >= 1 && m.to == m.from + 1,
{
}

/// A step moves the keys it names and no others: the writes of a renamed field are at its
/// new name, those of a removed field are dropped, and so, on the way down, are those of an
/// added one. Every other write is as it was.
pub proof fn law_a_step_moves_the_keys_it_names(step: StepV, op: OpV)
    requires
        slot_write(op) is Some,
    ensures
        ({
            let key = slot_write(op)->Some_0.0;
            match step {
                StepV::RenameField { from, to, .. } => step_up(step, op) matches OpRewriteV::Keep(o)
                    && (if key == encode_utf8(from) {
                    slot_write(o) matches Some(w) && w.0 == encode_utf8(to)
                } else {
                    o == op
                }),
                StepV::RemoveField { field, .. } => step_up(step, op) == if key == encode_utf8(
                    field,
                ) {
                    OpRewriteV::Drop
                } else {
                    OpRewriteV::Keep(op)
                },
                StepV::AddField { field, .. } => step_up(step, op) == OpRewriteV::Keep(op)
                    && step_down(step, op) == Some(
                    if key == encode_utf8(field) {
                        OpRewriteV::Drop
                    } else {
                        OpRewriteV::Keep(op)
                    },
                ),
                StepV::AddType { .. } => step_up(step, op) == OpRewriteV::Keep(op) && step_down(
                    step,
                    op,
                ) == Some(OpRewriteV::Keep(op)),
                _ => true,
            }
        }),
{
}

} // verus!
