//! Ordered selections of distinct word indices ("arrangements"), produced
//! by itertools' `permutations` and described here in lexicographic order.
use vstd::prelude::*;
use itertools::Itertools;
use itertools::structs::Permutations;
use std::ops::Range;
use crate::combinatorics::falling;

verus! {

#[verifier::external_type_specification]
#[verifier::external_body]
#[verifier::reject_recursive_types(I)]
pub struct ExPermutations<I: Iterator>(Permutations<I>);

/// Every completion of `prefix` to `k` distinct indices below `n`, in
/// lexicographic order.
pub open spec fn completions(n: nat, k: nat, prefix: Seq<usize>) -> Seq<Seq<usize>>
    decreases k - prefix.len(), n + 1,
{
    if prefix.len() >= k {
        seq![prefix]
    } else {
        completions_from(n, k, prefix, 0)
    }
}

/// The completions of `prefix` whose next index is `i` or greater.
pub open spec fn completions_from(n: nat, k: nat, prefix: Seq<usize>, i: nat) -> Seq<
    Seq<usize>,
>
    decreases k - prefix.len(), n - i,
{
    if prefix.len() >= k || i >= n {
        Seq::empty()
    } else {
        let rest = completions_from(n, k, prefix, i + 1);
        if prefix.contains(i as usize) {
            rest
        } else {
            completions(n, k, prefix.push(i as usize)) + rest
        }
    }
}

/// Every ordered selection of `k` distinct indices below `n`, in
/// lexicographic order.
pub open spec fn arrangements(n: nat, k: nat) -> Seq<Seq<usize>> {
    completions(n, k, Seq::empty())
}

/// The arrangements that a `Permutations` iterator has yet to yield.
pub uninterp spec fn arrangements_left(p: Permutations<Range<usize>>) -> Seq<Seq<usize>>;

/// Relies on itertools' `Itertools::permutations` over `0..n`: it yields
/// each ordered selection of `k` distinct indices once, lexicographically
/// (the input being increasing), a single empty selection when `k == 0`,
/// and none when `k > n`.
#[verifier::external_body]
pub(crate) fn index_arrangements(n: usize, k: usize) -> (r: Permutations<Range<usize>>)
    ensures
        arrangements_left(r) == arrangements(n as nat, k as nat),
{
    (0..n).permutations(k)
}

/// Relies on `Iterator::next` of itertools' `Permutations`: it yields the
/// next arrangement, and nothing once all were yielded.
#[verifier::external_body]
pub(crate) fn next_arrangement(p: &mut Permutations<Range<usize>>) -> (r: Option<Vec<usize>>)
    ensures
        arrangements_left(*old(p)).len() == 0 ==> r is None && arrangements_left(*final(p)).len()
            == 0,
        arrangements_left(*old(p)).len() > 0 ==> r is Some && r->Some_0@ == arrangements_left(
            *old(p),
        )[0] && arrangements_left(*final(p)) == arrangements_left(*old(p)).drop_first(),
{
    p.next()
}

/// Every index of every completion is below `n`.
pub proof fn lemma_completions_in_range(n: nat, k: nat, prefix: Seq<usize>)
    requires
        forall|j: int| 0 <= j < prefix.len() ==> prefix[j] < n,
    ensures
        forall|a: int, j: int|
            0 <= a < completions(n, k, prefix).len() && 0 <= j < completions(n, k, prefix)[a].len()
                ==> #[trigger] completions(n, k, prefix)[a][j] < n,
    decreases k - prefix.len(), n + 1,
{
    if prefix.len() < k {
        lemma_completions_from_in_range(n, k, prefix, 0);
        assert(completions(n, k, prefix) == completions_from(n, k, prefix, 0));
    } else {
        assert forall|a: int, j: int|
            0 <= a < completions(n, k, prefix).len() && 0 <= j < completions(n, k, prefix)[a].len()
                implies #[trigger] completions(n, k, prefix)[a][j] < n by {
            assert(completions(n, k, prefix)[a] == prefix);
        }
    }
}

/// Every index of every completion from `i` on is below `n`.
pub proof fn lemma_completions_from_in_range(n: nat, k: nat, prefix: Seq<usize>, i: nat)
    requires
        forall|j: int| 0 <= j < prefix.len() ==> prefix[j] < n,
    ensures
        forall|a: int, j: int|
            0 <= a < completions_from(n, k, prefix, i).len() && 0 <= j < completions_from(
                n,
                k,
                prefix,
                i,
            )[a].len() ==> #[trigger] completions_from(n, k, prefix, i)[a][j] < n,
    decreases k - prefix.len(), n - i,
{
    if prefix.len() < k && i < n {
        lemma_completions_from_in_range(n, k, prefix, i + 1);
        if prefix.contains(i as usize) {
            assert(completions_from(n, k, prefix, i) == completions_from(n, k, prefix, i + 1));
        } else {
            let p2 = prefix.push(i as usize);
            assert forall|j: int| 0 <= j < p2.len() implies p2[j] < n by {
                if j < prefix.len() {
                    assert(p2[j] == prefix[j]);
                }
            }
            lemma_completions_in_range(n, k, p2);
            let left = completions(n, k, p2);
            let rest = completions_from(n, k, prefix, i + 1);
            assert forall|a: int, j: int|
                0 <= a < (left + rest).len() && 0 <= j < (left + rest)[a].len() implies #[trigger] (
            left + rest)[a][j] < n by {
                if a < left.len() {
                    assert((left + rest)[a] == left[a]);
                } else {
                    assert((left + rest)[a] == rest[a - left.len()]);
                }
            }
            assert(completions_from(n, k, prefix, i) == left + rest);
        }
    }
}

/// How many indices in `lo..n` `prefix` does not hold.
pub open spec fn unused(prefix: Seq<usize>, lo: nat, n: nat) -> nat
    decreases n - lo,
{
    if lo >= n {
        0
    } else {
        (if prefix.contains(lo as usize) { 0nat } else { 1nat }) + unused(prefix, lo + 1, n)
    }
}

/// How many indices in `lo..n` `prefix` holds.
pub open spec fn used(prefix: Seq<usize>, lo: nat, n: nat) -> nat
    decreases n - lo,
{
    if lo >= n {
        0
    } else {
        (if prefix.contains(lo as usize) { 1nat } else { 0nat }) + used(prefix, lo + 1, n)
    }
}

proof fn lemma_used_unused(prefix: Seq<usize>, lo: nat, n: nat)
    requires
        lo <= n,
    ensures
        used(prefix, lo, n) + unused(prefix, lo, n) == n - lo,
    decreases n - lo,
{
    if lo < n {
        lemma_used_unused(prefix, lo + 1, n);
    }
}

proof fn lemma_used_drop_last(p: Seq<usize>, lo: nat, n: nat)
    requires
        p.len() > 0,
        !p.drop_last().contains(p.last()),
        n <= usize::MAX + 1,
    ensures
        used(p, lo, n) == used(p.drop_last(), lo, n) + if lo <= p.last() < n {
            1nat
        } else {
            0nat
        },
    decreases n - lo,
{
    let d = p.drop_last();
    if lo < n {
        lemma_used_drop_last(p, lo + 1, n);
        assert(p == d.push(p.last()));
        assert(p.contains(lo as usize) <==> d.contains(lo as usize) || p.last() == lo as usize) by {
            if p.contains(lo as usize) && !d.contains(lo as usize) {
                let q = choose|q: int| 0 <= q < p.len() && p[q] == lo as usize;
                if q < d.len() {
                    assert(d[q] == p[q]);
                }
            }
            if d.contains(lo as usize) {
                let q = choose|q: int| 0 <= q < d.len() && d[q] == lo as usize;
                assert(p[q] == d[q]);
            }
            if p.last() == lo as usize {
                assert(p[p.len() - 1] == lo as usize);
            }
        }
    }
}

proof fn lemma_used_all(p: Seq<usize>, n: nat)
    requires
        p.no_duplicates(),
        forall|j: int| 0 <= j < p.len() ==> p[j] < n,
        n <= usize::MAX + 1,
    ensures
        used(p, 0, n) == p.len(),
    decreases p.len(),
{
    if p.len() == 0 {
        lemma_used_empty(p, 0, n);
    } else {
        let d = p.drop_last();
        assert(!d.contains(p.last())) by {
            if d.contains(p.last()) {
                let q = choose|q: int| 0 <= q < d.len() && d[q] == p.last();
                assert(p[q] == p[p.len() - 1]);
            }
        }
        assert(d.no_duplicates()) by {
            assert forall|i: int, j: int| 0 <= i < d.len() && 0 <= j < d.len() && i != j implies d[i]
                != d[j] by {
                assert(p[i] == d[i] && p[j] == d[j]);
            }
        }
        assert forall|j: int| 0 <= j < d.len() implies d[j] < n by {
            assert(p[j] == d[j]);
        }
        assert(p.last() == p[p.len() - 1]);
        lemma_used_all(d, n);
        lemma_used_drop_last(p, 0, n);
    }
}

proof fn lemma_used_empty(p: Seq<usize>, lo: nat, n: nat)
    requires
        p.len() == 0,
    ensures
        used(p, lo, n) == 0,
    decreases n - lo,
{
    if lo < n {
        lemma_used_empty(p, lo + 1, n);
    }
}

proof fn lemma_completions_from_count(n: nat, k: nat, prefix: Seq<usize>, i: nat)
    requires
        prefix.len() < k,
        prefix.no_duplicates(),
        forall|j: int| 0 <= j < prefix.len() ==> prefix[j] < n,
        n <= usize::MAX + 1,
    ensures
        completions_from(n, k, prefix, i).len() == unused(prefix, i, n) * falling(
            (n - prefix.len() - 1) as nat,
            (k - prefix.len() - 1) as nat,
        ),
    decreases k - prefix.len(), n - i,
{
    let f = falling((n - prefix.len() - 1) as nat, (k - prefix.len() - 1) as nat);
    if i < n {
        lemma_completions_from_count(n, k, prefix, i + 1);
        let rest = completions_from(n, k, prefix, i + 1);
        if !prefix.contains(i as usize) {
            let p2 = prefix.push(i as usize);
            assert(p2.no_duplicates()) by {
                assert forall|a: int, b: int| 0 <= a < p2.len() && 0 <= b < p2.len() && a != b implies p2[a]
                    != p2[b] by {
                    if a < prefix.len() && b < prefix.len() {
                        assert(p2[a] == prefix[a] && p2[b] == prefix[b]);
                    } else if a < prefix.len() {
                        assert(p2[a] == prefix[a]);
                        assert(prefix.contains(prefix[a]));
                    } else if b < prefix.len() {
                        assert(p2[b] == prefix[b]);
                        assert(prefix.contains(prefix[b]));
                    }
                }
            }
            assert forall|j: int| 0 <= j < p2.len() implies p2[j] < n by {
                if j < prefix.len() {
                    assert(p2[j] == prefix[j]);
                }
            }
            lemma_completions_count(n, k, p2);
            assert(completions_from(n, k, prefix, i) == completions(n, k, p2) + rest);
            assert(f + unused(prefix, i + 1, n) * f == (1 + unused(prefix, i + 1, n)) * f)
                by (nonlinear_arith);
        } else {
            assert(completions_from(n, k, prefix, i) == rest);
        }
    } else {
        assert(0 * f == 0);
    }
}

/// A prefix of distinct indices below `n` has `P(n - len, k - len)`
/// completions.
pub proof fn lemma_completions_count(n: nat, k: nat, prefix: Seq<usize>)
    requires
        prefix.len() <= k,
        prefix.no_duplicates(),
        forall|j: int| 0 <= j < prefix.len() ==> prefix[j] < n,
        n <= usize::MAX + 1,
    ensures
        completions(n, k, prefix).len() == falling(
            (n - prefix.len()) as nat,
            (k - prefix.len()) as nat,
        ),
    decreases k - prefix.len(), n + 1,
{
    if prefix.len() < k {
        lemma_completions_from_count(n, k, prefix, 0);
        assert(completions(n, k, prefix) == completions_from(n, k, prefix, 0));
        lemma_used_all(prefix, n);
        lemma_used_unused(prefix, 0, n);
        let r = (n - prefix.len()) as nat;
        let f = falling((n - prefix.len() - 1) as nat, (k - prefix.len() - 1) as nat);
        assert(unused(prefix, 0, n) == r);
        assert(completions(n, k, prefix).len() == r * f);
        if r == 0 {
            assert(falling(r, (k - prefix.len()) as nat) == 0);
            assert(r * f == 0) by (nonlinear_arith)
                requires
                    r == 0,
            ;
        } else {
            assert((r - 1) as nat == (n - prefix.len() - 1) as nat);
            assert(falling(r, (k - prefix.len()) as nat) == r * falling(
                (r - 1) as nat,
                (k - prefix.len() - 1) as nat,
            ));
        }
    } else {
        assert(completions(n, k, prefix) == seq![prefix]);
        assert(falling((n - prefix.len()) as nat, 0) == 1);
    }
}

/// There are `P(n, k)` arrangements of `k` indices out of `n`.
pub proof fn lemma_arrangements_count(n: nat, k: nat)
    requires
        n <= usize::MAX + 1,
    ensures
        arrangements(n, k).len() == falling(n, k),
{
    lemma_completions_count(n, k, Seq::empty());
}

} // verus!
