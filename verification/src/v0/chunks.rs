//! Helpers for reasoning about chunks built by concatenating records.
use vstd::prelude::*;
use vstd::seq_lib::lemma_flatten_concat;

verus! {

/// Flattening one more record appends that record's bytes.
pub proof fn lemma_flatten_take_succ<A>(s: Seq<Seq<A>>, i: int)
    requires
        0 <= i < s.len(),
    ensures
        s.take(i + 1).flatten() == s.take(i).flatten() + s[i],
{
    assert(s.take(i + 1) =~= s.take(i) + seq![s[i]]);
    lemma_flatten_concat(s.take(i), seq![s[i]]);
    seq![s[i]].lemma_flatten_one_element();
}

/// A flattened sequence splits at any record boundary.
pub proof fn lemma_flatten_split<A>(s: Seq<Seq<A>>, i: int)
    requires
        0 <= i <= s.len(),
    ensures
        s.flatten() == s.take(i).flatten() + s.skip(i).flatten(),
{
    assert(s =~= s.take(i) + s.skip(i));
    lemma_flatten_concat(s.take(i), s.skip(i));
}

/// Taking every record flattens to the whole chunk.
pub proof fn lemma_flatten_take_all<A>(s: Seq<Seq<A>>)
    ensures
        s.take(s.len() as int).flatten() == s.flatten(),
{
    assert(s.take(s.len() as int) =~= s);
}

/// When every record has the same width, the chunk's length is their count
/// times that width, and each record sits at its index times the width.
pub proof fn lemma_flatten_fixed_len<A>(s: Seq<Seq<A>>, w: nat)
    requires
        forall|i: int| 0 <= i < s.len() ==> (#[trigger] s[i]).len() == w,
    ensures
        s.flatten().len() == s.len() * w,
    decreases s.len(),
{
    if s.len() == 0 {
    } else {
        lemma_flatten_fixed_len(s.drop_first(), w);
        assert(s.flatten().len() == w + (s.len() - 1) * w);
        assert(w + (s.len() - 1) * w == s.len() * w) by (nonlinear_arith);
    }
}

/// In a chunk of fixed-width records, record `i` sits at `i * w`.
pub proof fn lemma_flatten_index_fixed(s: Seq<Seq<u8>>, w: nat, i: int)
    requires
        forall|k: int| 0 <= k < s.len() ==> (#[trigger] s[k]).len() == w,
        0 <= i < s.len(),
    ensures
        s.flatten().len() == s.len() * w,
        0 <= i * w,
        i * w + w <= s.flatten().len(),
        s.flatten().subrange(i * w, i * w + w) == s[i],
{
    lemma_flatten_fixed_len(s, w);
    lemma_flatten_split(s, i);
    lemma_flatten_fixed_len(s.take(i), w);
    assert(s.skip(i).len() > 0);
    assert(s.skip(i).flatten() == s.skip(i).first() + s.skip(i).drop_first().flatten());
    assert(s.skip(i).first() == s[i]);
    assert(i * w + w <= s.len() * w && 0 <= i * w && i * w == s.take(i).len() * w) by (nonlinear_arith)
        requires
            0 <= i < s.len(),
            s.take(i).len() == i,
    ;
    assert(s.flatten().subrange(i * w, i * w + w) =~= s[i]);
}

/// Record `i` of any chunk sits right after the records before it.
pub proof fn lemma_flatten_index_var<A>(s: Seq<Seq<A>>, i: int)
    requires
        0 <= i < s.len(),
    ensures
        s.take(i).flatten().len() + s[i].len() <= s.flatten().len(),
        s.flatten().subrange(
            s.take(i).flatten().len() as int,
            s.take(i).flatten().len() + s[i].len() as int,
        ) == s[i],
{
    lemma_flatten_split(s, i);
    assert(s.skip(i).len() > 0);
    assert(s.skip(i).flatten() == s.skip(i).first() + s.skip(i).drop_first().flatten());
    assert(s.skip(i).first() == s[i]);
    assert(s.flatten().subrange(
        s.take(i).flatten().len() as int,
        s.take(i).flatten().len() + s[i].len() as int,
    ) =~= s[i]);
}

} // verus!
