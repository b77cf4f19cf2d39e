//! Counted records: laying values end to end and reading them back one at a time.

use crate::format::{lemma_concat_assoc, DecodeError, Parsed};
use vstd::prelude::*;

verus! {

/// The encodings of `xs`, end to end.
pub open spec fn enc_many<T>(xs: Seq<T>, enc: spec_fn(T) -> Seq<u8>) -> Seq<u8>
    decreases xs.len(),
{
    if xs.len() == 0 {
        Seq::empty()
    } else {
        enc(xs[0]) + enc_many(xs.skip(1), enc)
    }
}

/// Reads `n` records, each folded into what was read before it.
pub open spec fn parse_fold<A>(
    s: Seq<u8>,
    n: nat,
    acc: A,
    step: spec_fn(A, Seq<u8>) -> Parsed<A>,
) -> Parsed<A>
    decreases n,
{
    if n == 0 {
        Ok((acc, s))
    } else {
        match step(acc, s) {
            Err(e) => Err(e),
            Ok((a, r)) => parse_fold(r, (n - 1) as nat, a, step),
        }
    }
}

/// Records read back as they were laid down, where each step reads its record.
pub proof fn lemma_fold_reads_back<T, A>(
    xs: Seq<T>,
    enc: spec_fn(T) -> Seq<u8>,
    accs: Seq<A>,
    step: spec_fn(A, Seq<u8>) -> Parsed<A>,
    rest: Seq<u8>,
)
    requires
        accs.len() == xs.len() + 1,
        forall|i: int, r: Seq<u8>|
            0 <= i < xs.len() ==> #[trigger] step(accs[i], enc(xs[i]) + r) == Ok::<
                (A, Seq<u8>),
                DecodeError,
            >((accs[i + 1], r)),
    ensures
        parse_fold(enc_many(xs, enc) + rest, xs.len(), accs[0], step) == Ok::<
            (A, Seq<u8>),
            DecodeError,
        >((accs.last(), rest)),
    decreases xs.len(),
{
    if xs.len() == 0 {
        assert(enc_many(xs, enc) + rest =~= rest);
    } else {
        let t = xs.skip(1);
        let tail = enc_many(t, enc) + rest;
        lemma_concat_assoc(enc(xs[0]), enc_many(t, enc), rest);
        assert(step(accs[0], enc(xs[0]) + tail) == Ok::<(A, Seq<u8>), DecodeError>((accs[1], tail)));
        let later = accs.skip(1);
        assert forall|i: int, r: Seq<u8>| 0 <= i < t.len() implies #[trigger] step(
            later[i],
            enc(t[i]) + r,
        ) == Ok::<(A, Seq<u8>), DecodeError>((later[i + 1], r)) by {
            assert(t[i] == xs[i + 1] && later[i] == accs[i + 1] && later[i + 1] == accs[i + 2]);
            assert(step(accs[i + 1], enc(xs[i + 1]) + r) == Ok::<(A, Seq<u8>), DecodeError>(
                (accs[i + 1 + 1], r),
            ));
        }
        lemma_fold_reads_back(t, enc, later, step, rest);
    }
}

/// The records of two runs of values, end to end.
pub proof fn lemma_enc_many_concat<T>(a: Seq<T>, b: Seq<T>, enc: spec_fn(T) -> Seq<u8>)
    ensures
        enc_many(a + b, enc) == enc_many(a, enc) + enc_many(b, enc),
    decreases a.len(),
{
    if a.len() == 0 {
        assert(a + b =~= b);
        assert(Seq::<u8>::empty() + enc_many(b, enc) =~= enc_many(b, enc));
    } else {
        assert((a + b).skip(1) =~= a.skip(1) + b);
        assert((a + b)[0] == a[0]);
        lemma_enc_many_concat(a.skip(1), b, enc);
        lemma_concat_assoc(enc(a[0]), enc_many(a.skip(1), enc), enc_many(b, enc));
    }
}

/// One more record at the end.
pub proof fn lemma_enc_many_take<T>(xs: Seq<T>, i: int, enc: spec_fn(T) -> Seq<u8>)
    requires
        0 <= i < xs.len(),
    ensures
        enc_many(xs.take(i + 1), enc) == enc_many(xs.take(i), enc) + enc(xs[i]),
{
    assert(xs.take(i + 1) =~= xs.take(i) + seq![xs[i]]);
    lemma_enc_many_concat(xs.take(i), seq![xs[i]], enc);
    assert(seq![xs[i]].skip(1) =~= Seq::empty());
    assert(enc_many(seq![xs[i]].skip(1), enc) =~= Seq::empty());
    assert(enc_many(seq![xs[i]], enc) =~= enc(xs[i]));
}

/// No records have no bytes.
pub proof fn lemma_enc_many_none<T>(xs: Seq<T>, enc: spec_fn(T) -> Seq<u8>)
    ensures
        enc_many(xs.take(0), enc) == Seq::<u8>::empty(),
{
    assert(xs.take(0) =~= Seq::empty());
}

} // verus!
