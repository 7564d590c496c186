//! Counting state encodings.
//!
//! The solver deduplicates states by their encoding: a fixed-length
//! sequence of cell indices. There are at most `n ^ len` such sequences
//! over a grid of `n` cells, so the set of encodings ever recorded is
//! finite — which is what makes the search terminate.

use vstd::arithmetic::power::pow;
use vstd::prelude::*;
use vstd::set_lib::*;

verus! {

/// A sequence of exactly `len` cell indices, each below `n`.
pub open spec fn bounded_seq(s: Seq<usize>, n: nat, len: nat) -> bool {
    &&& s.len() == len
    &&& forall|i: int| 0 <= i < s.len() ==> s[i] < n
}

/// All encodings of length `len` over `n` cells.
pub open spec fn enc_space(n: nat, len: nat) -> Set<Seq<usize>> {
    Set::new(|s: Seq<usize>| bounded_seq(s, n, len))
}

/// The encodings whose first index is below `v`.
spec fn enc_upto(n: nat, len: nat, v: nat) -> Set<Seq<usize>> {
    Set::new(|s: Seq<usize>| bounded_seq(s, n, len) && len > 0 && s[0] < v)
}

proof fn lemma_enc_upto(n: nat, len: nat, v: nat)
    requires
        len >= 1,
        v <= n,
        n <= usize::MAX,
        enc_space(n, (len - 1) as nat).finite(),
        enc_space(n, (len - 1) as nat).len() <= pow(n as int, (len - 1) as nat),
    ensures
        enc_upto(n, len, v).finite(),
        enc_upto(n, len, v).len() <= v * pow(n as int, (len - 1) as nat),
    decreases v,
{
    let b = enc_space(n, (len - 1) as nat);
    let p = pow(n as int, (len - 1) as nat);
    if v == 0 {
        assert(enc_upto(n, len, 0) =~= Set::<Seq<usize>>::empty());
    } else {
        vstd::arithmetic::power::lemma_pow_positive(n as int, (len - 1) as nat);
        lemma_enc_upto(n, len, (v - 1) as nat);
        let w = (v - 1) as usize;
        let f = |s: Seq<usize>| seq![w] + s;
        let img = b.map(f);
        lemma_map_size_bound(b, img, f);
        assert forall|s: Seq<usize>| enc_upto(n, len, v).contains(s) implies enc_upto(
            n,
            len,
            (v - 1) as nat,
        ).union(img).contains(s) by {
            if s[0] < v - 1 {
                assert(enc_upto(n, len, (v - 1) as nat).contains(s));
            } else {
                assert(s[0] == w);
                let rest = s.drop_first();
                assert(bounded_seq(rest, n, (len - 1) as nat));
                assert(b.contains(rest));
                assert(f(rest) =~= s);
                assert(img.contains(s));
            }
        }
        lemma_len_subset(
            enc_upto(n, len, v),
            enc_upto(n, len, (v - 1) as nat).union(img),
        );
        lemma_len_union(enc_upto(n, len, (v - 1) as nat), img);
        assert((v - 1) * p + p == v * p) by (nonlinear_arith);
    }
}

/// There are at most `n ^ len` encodings of length `len` over `n` cells.
pub proof fn lemma_enc_space_card(n: nat, len: nat)
    requires
        n <= usize::MAX,
    ensures
        enc_space(n, len).finite(),
        enc_space(n, len).len() <= pow(n as int, len),
    decreases len,
{
    if len == 0 {
        let single = Set::<Seq<usize>>::empty().insert(Seq::<usize>::empty());
        assert forall|s: Seq<usize>| enc_space(n, 0).contains(s) implies single.contains(s) by {
            assert(s =~= Seq::<usize>::empty());
        }
        assert forall|s: Seq<usize>| single.contains(s) implies enc_space(n, 0).contains(s) by {}
        assert(enc_space(n, 0) =~= single);
        assert(single.len() == 1);
        vstd::arithmetic::power::lemma_pow0(n as int);
    } else {
        lemma_enc_space_card(n, (len - 1) as nat);
        lemma_enc_upto(n, len, n);
        assert(enc_space(n, len) =~= enc_upto(n, len, n));
        assert(pow(n as int, len) == n * pow(n as int, (len - 1) as nat)) by {
            vstd::arithmetic::power::lemma_pow1(n as int);
            vstd::arithmetic::power::lemma_pow_adds(n as int, 1, (len - 1) as nat);
        }
    }
}

/// A duplicate-free sequence drawn from a finite set is no longer than the
/// set's cardinality.
pub proof fn lemma_no_dup_in_set<A>(s: Seq<A>, big: Set<A>)
    requires
        s.no_duplicates(),
        forall|x: A| s.contains(x) ==> big.contains(x),
        big.finite(),
    ensures
        s.len() <= big.len(),
{
    s.unique_seq_to_set();
    assert forall|x: A| s.to_set().contains(x) implies big.contains(x) by {
        assert(s.contains(x));
    }
    lemma_len_subset(s.to_set(), big);
}

} // verus!
