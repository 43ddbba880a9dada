use vstd::prelude::*;
use crate::error::Error;

verus! {

/// The `i`-th share when `total` is split into `parts` nearly-equal parts:
/// the first `total % parts` shares get `total / parts + 1`, the rest get
/// `total / parts`.
pub open spec fn share(total: int, parts: int, i: int) -> int {
    total / parts + if i < total % parts {
        1int
    } else {
        0int
    }
}

/// Sum of the first `k` shares, in closed form.
pub open spec fn prefix_of_shares(total: int, parts: int, k: int) -> int {
    k * (total / parts) + if k <= total % parts {
        k
    } else {
        total % parts
    }
}

/// Sum of a sequence of `usize` values.
pub open spec fn seq_sum(s: Seq<usize>) -> int
    decreases s.len(),
{
    if s.len() == 0 {
        0
    } else {
        seq_sum(s.drop_last()) + s.last()
    }
}

/// Adjacent prefixes of the share sequence differ by exactly one share.
pub proof fn lemma_prefix_step(total: int, parts: int, k: int)
    requires
        total >= 0,
        parts > 0,
        0 <= k,
    ensures
        prefix_of_shares(total, parts, k + 1) == prefix_of_shares(total, parts, k)
            + share(total, parts, k),
{
    assert((k + 1) * (total / parts) == k * (total / parts) + total / parts) by (nonlinear_arith);
}

/// All `parts` shares together sum to `total`.
pub proof fn lemma_prefix_total(total: int, parts: int)
    requires
        total >= 0,
        parts > 0,
    ensures
        prefix_of_shares(total, parts, parts) == total,
{
    vstd::arithmetic::div_mod::lemma_fundamental_div_mod(total, parts);
    vstd::arithmetic::div_mod::lemma_mod_bound(total, parts);
    assert(parts * (total / parts) == (total / parts) * parts) by (nonlinear_arith);
}

/// A sequence whose entries are pointwise the shares sums, over any prefix,
/// to the closed-form prefix of shares.
pub proof fn lemma_share_seq_sum(total: int, parts: int, s: Seq<usize>, k: int)
    requires
        total >= 0,
        parts > 0,
        s.len() <= parts,
        forall|i: int| 0 <= i < s.len() ==> #[trigger] s[i] == share(total, parts, i),
        0 <= k <= s.len(),
    ensures
        seq_sum(s.take(k)) == prefix_of_shares(total, parts, k),
    decreases k,
{
    if k == 0 {
        assert(s.take(0).len() == 0);
        assert(0 * (total / parts) == 0);
    } else {
        lemma_share_seq_sum(total, parts, s, k - 1);
        assert(s.take(k).drop_last() =~= s.take(k - 1));
        assert(s.take(k).last() == s[k - 1]);
        lemma_prefix_step(total, parts, k - 1);
    }
}

/// Splits `total` into `parts` nearly-equal non-negative integers: entry `i`
/// is `total / parts`, plus one for the first `total % parts` entries, so the
/// result is fully determined by the inputs, each entry is within one of
/// `total / parts`, and the entries sum to exactly `total`. Zero parts is
/// invalid input.
pub fn divide(total: usize, parts: usize) -> (r: Result<Vec<usize>, Error>)
    ensures
        parts == 0 ==> r == Result::<Vec<usize>, Error>::Err(Error::InvalidInput),
        parts > 0 ==> {
            &&& r is Ok
            &&& r->Ok_0@.len() == parts
            &&& forall|i: int|
                0 <= i < parts ==> #[trigger] r->Ok_0@[i] == share(total as int, parts as int, i)
            &&& seq_sum(r->Ok_0@) == total
        },
{
    if parts == 0 {
        return Err(Error::InvalidInput);
    }
    let base: usize = total / parts;
    let rem: usize = total % parts;
    let mut r: Vec<usize> = Vec::new();
    let mut i: usize = 0;
    while i < parts
        invariant
            parts > 0,
            i <= parts,
            base == total as int / parts as int,
            rem == total as int % parts as int,
            r@.len() == i,
            forall|j: int|
                0 <= j < i ==> #[trigger] r@[j] == share(total as int, parts as int, j),
        decreases parts - i,
    {
        proof {
            vstd::arithmetic::div_mod::lemma_fundamental_div_mod(total as int, parts as int);
            vstd::arithmetic::div_mod::lemma_mod_bound(total as int, parts as int);
            assert(parts as int * (total as int / parts as int) >= total as int / parts as int)
                by (nonlinear_arith)
                requires parts >= 1 && total as int / parts as int >= 0;
        }
        if i < rem {
            r.push(base + 1);
        } else {
            r.push(base);
        }
        i = i + 1;
    }
    proof {
        lemma_share_seq_sum(total as int, parts as int, r@, parts as int);
        assert(r@.take(parts as int) =~= r@);
        lemma_prefix_total(total as int, parts as int);
    }
    Ok(r)
}

/// Sum of a sequence of mathematical integers.
pub open spec fn seq_sum_int(s: Seq<int>) -> int
    decreases s.len(),
{
    if s.len() == 0 {
        0
    } else {
        seq_sum_int(s.drop_last()) + s.last()
    }
}

/// The integers a sequence of machine words stands for.
pub open spec fn to_ints(s: Seq<usize>) -> Seq<int> {
    s.map(|i: int, v: usize| v as int)
}

/// Summing machine words or their integers is the same.
pub proof fn lemma_seq_sum_to_ints(s: Seq<usize>)
    ensures
        seq_sum_int(to_ints(s)) == seq_sum(s),
    decreases s.len(),
{
    if s.len() > 0 {
        lemma_seq_sum_to_ints(s.drop_last());
        assert(to_ints(s).drop_last() =~= to_ints(s.drop_last()));
        assert(to_ints(s).last() == s.last());
    }
}

/// Replacing one entry changes the sum by the difference at that entry.
pub proof fn lemma_sum_int_update(s: Seq<int>, i: int, v: int)
    requires
        0 <= i < s.len(),
    ensures
        seq_sum_int(s.update(i, v)) == seq_sum_int(s) - s[i] + v,
    decreases s.len(),
{
    let b = s.update(i, v);
    if i == s.len() - 1 {
        assert(b.drop_last() =~= s.drop_last());
        assert(b.last() == v);
    } else {
        assert(b.drop_last() =~= s.drop_last().update(i, v));
        assert(b.last() == s.last());
        lemma_sum_int_update(s.drop_last(), i, v);
    }
}

/// A pointwise smaller sequence has a sum at most that of the larger one.
pub proof fn lemma_sum_int_le(a: Seq<int>, b: Seq<int>)
    requires
        a.len() == b.len(),
        forall|k: int| 0 <= k < a.len() ==> a[k] <= b[k],
    ensures
        seq_sum_int(a) <= seq_sum_int(b),
    decreases a.len(),
{
    if a.len() > 0 {
        lemma_sum_int_le(a.drop_last(), b.drop_last());
    }
}

/// Pointwise smaller sequences with equal sums are equal at every entry.
pub proof fn lemma_le_and_sum_eq(a: Seq<int>, b: Seq<int>)
    requires
        a.len() == b.len(),
        forall|k: int| 0 <= k < a.len() ==> a[k] <= b[k],
        seq_sum_int(a) == seq_sum_int(b),
    ensures
        forall|k: int| 0 <= k < a.len() ==> a[k] == b[k],
    decreases a.len(),
{
    if a.len() > 0 {
        lemma_sum_int_le(a.drop_last(), b.drop_last());
        assert(seq_sum_int(a) == seq_sum_int(a.drop_last()) + a.last());
        lemma_le_and_sum_eq(a.drop_last(), b.drop_last());
        assert forall|k: int| 0 <= k < a.len() implies a[k] == b[k] by {
            if k < a.len() - 1 {
                assert(a.drop_last()[k] == b.drop_last()[k]);
            }
        }
    }
}

} // verus!
