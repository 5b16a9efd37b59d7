//! Concatenation of byte sequences, and where each piece lands.
use vstd::prelude::*;

verus! {

/// All pieces, one after the other.
pub open spec fn concat(ss: Seq<Seq<u8>>) -> Seq<u8>
    decreases ss.len(),
{
    if ss.len() == 0 {
        Seq::empty()
    } else {
        concat(ss.drop_last()) + ss.last()
    }
}

/// Where piece `i` starts inside `concat(ss)`.
pub open spec fn start_of(ss: Seq<Seq<u8>>, i: int) -> int {
    concat(ss.take(i)).len() as int
}

pub proof fn lemma_concat_new_step(f: spec_fn(int) -> Seq<u8>, i: int)
    requires
        0 <= i,
    ensures
        concat(Seq::new((i + 1) as nat, f)) == concat(Seq::new(i as nat, f)) + f(i),
{
    assert(Seq::new((i + 1) as nat, f).drop_last() =~= Seq::new(i as nat, f));
}

/// Every piece of `ss` sits in `concat(ss)` at `start_of(ss, i)`, and the
/// pieces that precede it fill the bytes before it.
pub proof fn lemma_concat_piece(ss: Seq<Seq<u8>>, i: int)
    requires
        0 <= i < ss.len(),
    ensures
        start_of(ss, i) + ss[i].len() <= concat(ss).len(),
        concat(ss).subrange(start_of(ss, i), start_of(ss, i) + ss[i].len()) == ss[i],
        concat(ss.take(i + 1)) == concat(ss.take(i)) + ss[i],
    decreases ss.len(),
{
    assert(ss.take(i + 1).drop_last() =~= ss.take(i));
    if i == ss.len() - 1 {
        assert(ss.drop_last() =~= ss.take(i));
        assert(concat(ss).subrange(start_of(ss, i), start_of(ss, i) + ss[i].len()) =~= ss[i]);
    } else {
        let d = ss.drop_last();
        lemma_concat_piece(d, i);
        assert(d.take(i) =~= ss.take(i));
        assert(d[i] == ss[i]);
        assert(concat(ss).subrange(start_of(ss, i), start_of(ss, i) + ss[i].len()) =~= concat(
            d,
        ).subrange(start_of(ss, i), start_of(ss, i) + ss[i].len()));
    }
}

/// When every piece has length `k`, piece `i` starts at `k * i`.
pub proof fn lemma_concat_uniform(ss: Seq<Seq<u8>>, k: int, i: int)
    requires
        0 <= i <= ss.len(),
        k >= 0,
        forall|j: int| 0 <= j < ss.len() ==> (#[trigger] ss[j]).len() == k,
    ensures
        start_of(ss, i) == k * i,
        concat(ss).len() == k * ss.len(),
    decreases ss.len(),
{
    if ss.len() > 0 {
        let d = ss.drop_last();
        if i < ss.len() {
            assert(d.take(i) =~= ss.take(i));
            lemma_concat_uniform(d, k, i);
        } else {
            assert(ss.take(i) =~= ss);
            lemma_concat_uniform(d, k, d.len() as int);
        }
        lemma_concat_uniform(d, k, 0);
        assert(k * ss.len() == k * d.len() + k) by (nonlinear_arith)
            requires
                ss.len() == d.len() + 1,
        ;
    } else {
        assert(ss.take(i) =~= ss);
    }
}

/// Starts grow with the index.
pub proof fn lemma_start_monotone(ss: Seq<Seq<u8>>, i: int, j: int)
    requires
        0 <= i <= j <= ss.len(),
    ensures
        start_of(ss, i) <= start_of(ss, j),
    decreases j - i,
{
    if i < j {
        lemma_start_monotone(ss, i, j - 1);
        lemma_concat_piece(ss, j - 1);
    }
}

/// No piece starts past the end of the concatenation.
pub proof fn lemma_start_le_total(ss: Seq<Seq<u8>>, i: int)
    requires
        0 <= i <= ss.len(),
    ensures
        start_of(ss, i) <= concat(ss).len(),
        start_of(ss, ss.len() as int) == concat(ss).len(),
{
    assert(ss.take(ss.len() as int) =~= ss);
    lemma_start_monotone(ss, i, ss.len() as int);
}

} // verus!
