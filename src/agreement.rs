//! The counter and the assembler agree: with a length window that keeps
//! every candidate, a run emits exactly as many candidates as the counter
//! predicts (below the cap); and each base has exactly 650 paddings.
use vstd::prelude::*;
use vstd::utf8::encode_utf8;
use crate::text::byte_len;
use crate::generator::{
    arrangement_candidates, arrangement_lists, arrangement_pads, base_outputs, block,
    expected_output, extend_all, extend_one, in_window, limited, lists_match, multi_pads,
    outputs_of, pad_forms, pads_in_window, product_of, pruned_product, schedule,
    special_alphabet, stream_of,
};
use crate::arrangements::{
    arrangements, completions, completions_from, lemma_arrangements_count,
    lemma_completions_in_range,
};
use crate::combinatorics::{
    analysis_matches, arrangement_product, arrangements_total, breakdown_sum, cap_at,
    combinations_for, counts_of, dedup_first, effective_max, falling, multi_padding_count,
    padding_count, special_factor, variant_count, COUNT_CAP, CombinatorialAnalysis,
};
use crate::words::{leet_count, variant_set};
use crate::text::lower_of;

verus! {

/// The byte length of a concatenation is the sum of the byte lengths.
pub proof fn lemma_byte_len_concat(a: Seq<char>, b: Seq<char>)
    ensures
        byte_len(a + b) == byte_len(a) + byte_len(b),
    decreases a.len(),
{
    if a.len() == 0 {
        assert(a + b =~= b);
        assert(encode_utf8(a).len() == 0);
    } else {
        lemma_byte_len_concat(a.drop_first(), b);
        assert((a + b).drop_first() =~= a.drop_first() + b);
        assert((a + b)[0] == a[0]);
    }
}

/// Every string of every list is at most `m` bytes long.
pub open spec fn all_within(lists: Seq<Seq<Seq<char>>>, m: nat) -> bool {
    forall|i: int, j: int|
        0 <= i < lists.len() && 0 <= j < lists[i].len() ==> byte_len(#[trigger] lists[i][j]) <= m
}

/// Every string of every list is at least `m` bytes long.
pub open spec fn all_at_least(lists: Seq<Seq<Seq<char>>>, m: nat) -> bool {
    forall|i: int, j: int|
        0 <= i < lists.len() && 0 <= j < lists[i].len() ==> m <= byte_len(#[trigger] lists[i][j])
}

/// The product of the sizes of the lists.
pub open spec fn size_product(lists: Seq<Seq<Seq<char>>>) -> nat
    decreases lists.len(),
{
    if lists.len() == 0 {
        1
    } else {
        size_product(lists.drop_last()) * lists.last().len()
    }
}

proof fn lemma_extend_one_unpruned(b: Seq<char>, vs: Seq<Seq<char>>, m: nat, max_len: nat)
    requires
        forall|j: int| 0 <= j < vs.len() ==> byte_len(#[trigger] vs[j]) <= m,
        byte_len(b) + m <= max_len,
    ensures
        extend_one(b, vs, max_len) == vs.map_values(|v: Seq<char>| b + v),
    decreases vs.len(),
{
    if vs.len() > 0 {
        let d = vs.drop_last();
        lemma_extend_one_unpruned(b, d, m, max_len);
        lemma_byte_len_concat(b, vs.last());
        assert(vs.map_values(|v: Seq<char>| b + v) =~= d.map_values(|v: Seq<char>| b + v).push(
            b + vs.last(),
        ));
    } else {
        assert(vs.map_values(|v: Seq<char>| b + v) =~= Seq::<Seq<char>>::empty());
    }
}

proof fn lemma_extend_all_unpruned(
    bs: Seq<Seq<char>>,
    vs: Seq<Seq<char>>,
    t: nat,
    m: nat,
    tl: nat,
    ml: nat,
    max_len: nat,
)
    requires
        forall|j: int| 0 <= j < bs.len() ==> tl <= byte_len(#[trigger] bs[j]) <= t,
        forall|j: int| 0 <= j < vs.len() ==> ml <= byte_len(#[trigger] vs[j]) <= m,
        t + m <= max_len,
    ensures
        extend_all(bs, vs, max_len).len() == bs.len() * vs.len(),
        forall|j: int|
            0 <= j < extend_all(bs, vs, max_len).len() ==> tl + ml <= byte_len(
                #[trigger] extend_all(bs, vs, max_len)[j],
            ) <= t + m,
    decreases bs.len(),
{
    if bs.len() == 0 {
        assert(bs.len() * vs.len() == 0);
    } else {
        let d = bs.drop_last();
        let b = bs.last();
        assert forall|j: int| 0 <= j < d.len() implies tl <= byte_len(#[trigger] d[j]) <= t by {
            assert(d[j] == bs[j]);
        }
        assert(b == bs[bs.len() - 1]);
        lemma_extend_all_unpruned(d, vs, t, m, tl, ml, max_len);
        lemma_extend_one_unpruned(b, vs, m, max_len);
        let front = extend_all(d, vs, max_len);
        let back = extend_one(b, vs, max_len);
        assert(extend_all(bs, vs, max_len) == front + back);
        assert(d.len() * vs.len() + vs.len() == bs.len() * vs.len()) by (nonlinear_arith)
            requires
                d.len() + 1 == bs.len(),
        ;
        assert forall|j: int| 0 <= j < (front + back).len() implies tl + ml <= byte_len(
            #[trigger] (front + back)[j],
        ) <= t + m by {
            if j >= front.len() {
                let v = vs[j - front.len()];
                assert((front + back)[j] == b + v);
                lemma_byte_len_concat(b, v);
            }
        }
    }
}

/// With every string at most `m` bytes and `lists.len() * m` within the
/// maximum, nothing is pruned: the product has one string per choice, each
/// at most `lists.len() * m` bytes long.
pub proof fn lemma_product_unpruned(lists: Seq<Seq<Seq<char>>>, m: nat, lo: nat, max_len: nat)
    requires
        all_within(lists, m),
        all_at_least(lists, lo),
        lists.len() * m <= max_len,
    ensures
        pruned_product(lists, max_len).len() == size_product(lists),
        forall|j: int|
            0 <= j < pruned_product(lists, max_len).len() ==> lists.len() * lo <= byte_len(
                #[trigger] pruned_product(lists, max_len)[j],
            ) <= lists.len() * m,
    decreases lists.len(),
{
    if lists.len() == 0 {
        assert(encode_utf8(Seq::<char>::empty()).len() == 0);
        assert(pruned_product(lists, max_len)[0] == Seq::<char>::empty());
        assert(lists.len() * lo == 0);
    } else {
        let d = lists.drop_last();
        let t = (d.len() * m) as nat;
        assert(d.len() * m <= lists.len() * m) by (nonlinear_arith)
            requires
                d.len() + 1 == lists.len(),
        ;
        let tl = (d.len() * lo) as nat;
        assert(tl + lo == lists.len() * lo) by (nonlinear_arith)
            requires
                d.len() + 1 == lists.len(),
                tl == d.len() * lo,
        ;
        assert(all_at_least(d, lo)) by {
            assert forall|i: int, j: int| 0 <= i < d.len() && 0 <= j < d[i].len() implies lo <= byte_len(
                #[trigger] d[i][j],
            ) by {
                assert(d[i] == lists[i]);
            }
        }
        assert(all_within(d, m)) by {
            assert forall|i: int, j: int| 0 <= i < d.len() && 0 <= j < d[i].len() implies byte_len(
                #[trigger] d[i][j],
            ) <= m by {
                assert(d[i] == lists[i]);
            }
        }
        lemma_product_unpruned(d, m, lo, max_len);
        assert(t + m == lists.len() * m) by (nonlinear_arith)
            requires
                d.len() + 1 == lists.len(),
                t == d.len() * m,
        ;
        let last = lists.last();
        assert forall|j: int| 0 <= j < last.len() implies lo <= byte_len(#[trigger] last[j]) <= m by {
            assert(last == lists[lists.len() - 1]);
        }
        lemma_extend_all_unpruned(pruned_product(d, max_len), last, t, m, tl, lo, max_len);
    }
}

proof fn lemma_outputs_all_kept(bases: Seq<Seq<char>>, min_len: nat, max_len: nat, pad: bool)
    requires
        forall|j: int|
            0 <= j < bases.len() ==> min_len <= byte_len(#[trigger] bases[j]) && byte_len(bases[j])
                + (if pad { 5nat } else { 0nat }) <= max_len,
    ensures
        outputs_of(bases, min_len, max_len, pad).len() == bases.len() * special_factor(pad),
    decreases bases.len(),
{
    if bases.len() > 0 {
        let d = bases.drop_last();
        let b = bases.last();
        assert(b == bases[bases.len() - 1]);
        assert forall|j: int| 0 <= j < d.len() implies min_len <= byte_len(#[trigger] d[j]) && byte_len(
            d[j],
        ) + (if pad { 5nat } else { 0nat }) <= max_len by {
            assert(d[j] == bases[j]);
        }
        lemma_outputs_all_kept(d, min_len, max_len, pad);
        assert(in_window(byte_len(b), min_len, max_len));
        if pad {
            lemma_padding_count(b, min_len, max_len);
            reveal_with_fuel(falling, 6);
            reveal_with_fuel(multi_padding_count, 6);
            assert(special_factor(true) == 651);
            assert(base_outputs(b, min_len, max_len, true).len() == 651);
        } else {
            assert(base_outputs(b, min_len, max_len, false).len() == 1);
        }
        assert(d.len() * special_factor(pad) + special_factor(pad) == bases.len() * special_factor(
            pad,
        )) by (nonlinear_arith)
            requires
                d.len() + 1 == bases.len(),
        ;
    }
}

proof fn lemma_size_product_counts(vv: Seq<Seq<Seq<char>>>, a: Seq<usize>, c: Seq<nat>)
    requires
        c.len() == vv.len(),
        forall|i: int| 0 <= i < vv.len() ==> #[trigger] c[i] == vv[i].len(),
        forall|t: int| 0 <= t < a.len() ==> #[trigger] a[t] < vv.len(),
    ensures
        size_product(arrangement_lists(vv, a)) == arrangement_product(a, c),
    decreases a.len(),
{
    if a.len() > 0 {
        let d = a.drop_last();
        lemma_size_product_counts(vv, d, c);
        assert(arrangement_lists(vv, a).drop_last() =~= arrangement_lists(vv, d));
        assert(arrangement_lists(vv, a).last() == vv[a.last() as int]);
    }
}

/// Every completion of a prefix no longer than `k` has exactly `k`
/// indices.
proof fn lemma_completions_len(n: nat, k: nat, prefix: Seq<usize>)
    requires
        prefix.len() <= k,
    ensures
        forall|a: int|
            0 <= a < completions(n, k, prefix).len() ==> #[trigger] completions(n, k, prefix)[a].len()
                == k,
    decreases k - prefix.len(), n + 1,
{
    if prefix.len() < k {
        lemma_completions_from_len(n, k, prefix, 0);
        assert(completions(n, k, prefix) == completions_from(n, k, prefix, 0));
    } else {
        assert forall|a: int| 0 <= a < completions(n, k, prefix).len() implies #[trigger] completions(
            n,
            k,
            prefix,
        )[a].len() == k by {
            assert(completions(n, k, prefix)[a] == prefix);
        }
    }
}

proof fn lemma_completions_from_len(n: nat, k: nat, prefix: Seq<usize>, i: nat)
    requires
        prefix.len() < k,
    ensures
        forall|a: int|
            0 <= a < completions_from(n, k, prefix, i).len() ==> #[trigger] completions_from(
                n,
                k,
                prefix,
                i,
            )[a].len() == k,
    decreases k - prefix.len(), n - i,
{
    if i < n {
        lemma_completions_from_len(n, k, prefix, i + 1);
        let rest = completions_from(n, k, prefix, i + 1);
        if prefix.contains(i as usize) {
            assert(completions_from(n, k, prefix, i) == rest);
        } else {
            let left = completions(n, k, prefix.push(i as usize));
            lemma_completions_len(n, k, prefix.push(i as usize));
            assert(completions_from(n, k, prefix, i) == left + rest);
            assert forall|a: int| 0 <= a < (left + rest).len() implies #[trigger] (left + rest)[a].len()
                == k by {
                if a < left.len() {
                    assert((left + rest)[a] == left[a]);
                } else {
                    assert((left + rest)[a] == rest[a - left.len()]);
                }
            }
        }
    }
}

/// Each arrangement of the schedule selects one to `m` indices below `n`.
proof fn lemma_schedule_shape(n: nat, m: nat)
    ensures
        forall|x: int, t: int|
            0 <= x < schedule(n, m).len() && 0 <= t < schedule(n, m)[x].len() ==> #[trigger] schedule(
                n,
                m,
            )[x][t] < n,
        forall|x: int|
            0 <= x < schedule(n, m).len() ==> 1 <= #[trigger] schedule(n, m)[x].len() <= m,
    decreases m,
{
    if m > 0 {
        lemma_schedule_shape(n, (m - 1) as nat);
        let front = schedule(n, (m - 1) as nat);
        let here = arrangements(n, m);
        lemma_completions_in_range(n, m, Seq::empty());
        lemma_completions_len(n, m, Seq::empty());
        assert(schedule(n, m) == front + here);
        assert forall|x: int, t: int|
            0 <= x < (front + here).len() && 0 <= t < (front + here)[x].len() implies #[trigger] (
            front + here)[x][t] < n by {
            if x < front.len() {
                assert((front + here)[x] == front[x]);
            } else {
                assert((front + here)[x] == here[x - front.len()]);
            }
        }
        assert forall|x: int| 0 <= x < (front + here).len() implies 1 <= #[trigger] (front
            + here)[x].len() <= m by {
            if x < front.len() {
                assert((front + here)[x] == front[x]);
            } else {
                assert((front + here)[x] == here[x - front.len()]);
            }
        }
    }
}

proof fn lemma_stream_len(
    vv: Seq<Seq<Seq<char>>>,
    s: Seq<Seq<usize>>,
    c: Seq<nat>,
    longest: nat,
    shortest: nat,
    k: nat,
    min_len: nat,
    max_len: nat,
    pad: bool,
)
    requires
        c.len() == vv.len(),
        forall|i: int| 0 <= i < vv.len() ==> #[trigger] c[i] == vv[i].len(),
        all_within(vv, longest),
        all_at_least(vv, shortest),
        min_len <= shortest,
        k * longest + (if pad { 5nat } else { 0nat }) <= max_len,
        forall|x: int, t: int|
            0 <= x < s.len() && 0 <= t < s[x].len() ==> #[trigger] s[x][t] < vv.len(),
        forall|x: int| 0 <= x < s.len() ==> 1 <= #[trigger] s[x].len() <= k,
    ensures
        stream_of(vv, s, min_len, max_len, pad).len() == special_factor(pad) * arrangements_total(s, c),
    decreases s.len(),
{
    if s.len() > 0 {
        let d = s.drop_last();
        assert forall|x: int, t: int| 0 <= x < d.len() && 0 <= t < d[x].len() implies #[trigger] d[x][t]
            < vv.len() by {
            assert(d[x] == s[x]);
        }
        assert forall|x: int| 0 <= x < d.len() implies 1 <= #[trigger] d[x].len() <= k by {
            assert(d[x] == s[x]);
        }
        lemma_stream_len(vv, d, c, longest, shortest, k, min_len, max_len, pad);
        let a = s.last();
        assert(a == s[s.len() - 1]);
        assert forall|t: int| 0 <= t < a.len() implies #[trigger] a[t] < vv.len() by {
            assert(s[s.len() - 1][t] < vv.len());
        }
        let lists = arrangement_lists(vv, a);
        assert(all_within(lists, longest)) by {
            assert forall|i: int, j: int| 0 <= i < lists.len() && 0 <= j < lists[i].len() implies byte_len(
                #[trigger] lists[i][j],
            ) <= longest by {
                assert(lists[i] == vv[a[i] as int]);
            }
        }
        assert(all_at_least(lists, shortest)) by {
            assert forall|i: int, j: int| 0 <= i < lists.len() && 0 <= j < lists[i].len() implies shortest
                <= byte_len(#[trigger] lists[i][j]) by {
                assert(lists[i] == vv[a[i] as int]);
            }
        }
        assert(shortest <= lists.len() * shortest) by (nonlinear_arith)
            requires
                lists.len() >= 1,
        ;
        assert(lists.len() * longest <= k * longest) by (nonlinear_arith)
            requires
                lists.len() <= k,
        ;
        lemma_product_unpruned(lists, longest, shortest, max_len);
        let bases = pruned_product(lists, max_len);
        assert forall|j: int| 0 <= j < bases.len() implies min_len <= byte_len(#[trigger] bases[j])
            && byte_len(bases[j]) + (if pad { 5nat } else { 0nat }) <= max_len by {
            assert(byte_len(bases[j]) <= lists.len() * longest);
        }
        lemma_outputs_all_kept(bases, min_len, max_len, pad);
        assert(product_of(lists, max_len) == bases);
        lemma_size_product_counts(vv, a, c);
        let sf = special_factor(pad);
        let t = arrangements_total(d, c);
        let p = arrangement_product(a, c);
        assert(sf * t + bases.len() * sf == sf * (t + p)) by (nonlinear_arith)
            requires
                bases.len() == p,
        ;
        assert(arrangement_candidates(vv, a, min_len, max_len, pad) == outputs_of(
            bases,
            min_len,
            max_len,
            pad,
        ));
        assert(s.drop_last() == d);
    } else {
        assert(special_factor(pad) * 0 == 0);
    }
}

proof fn lemma_total_concat(s1: Seq<Seq<usize>>, s2: Seq<Seq<usize>>, c: Seq<nat>)
    ensures
        arrangements_total(s1 + s2, c) == arrangements_total(s1, c) + arrangements_total(s2, c),
    decreases s2.len(),
{
    if s2.len() == 0 {
        assert(s1 + s2 =~= s1);
    } else {
        lemma_total_concat(s1, s2.drop_last(), c);
        assert((s1 + s2).drop_last() =~= s1 + s2.drop_last());
        assert((s1 + s2).last() == s2.last());
    }
}

proof fn lemma_uncapped_sum(ws: Seq<Seq<char>>, m: nat, pad: bool)
    requires
        breakdown_sum(ws, m, pad) < COUNT_CAP,
    ensures
        breakdown_sum(ws, m, pad) == special_factor(pad) * arrangements_total(
            schedule(ws.len(), m),
            counts_of(ws),
        ),
    decreases m,
{
    if m > 0 {
        lemma_uncapped_sum(ws, (m - 1) as nat, pad);
        let here = arrangements(ws.len(), m);
        let front = schedule(ws.len(), (m - 1) as nat);
        let t = arrangements_total(here, counts_of(ws));
        let t0 = arrangements_total(front, counts_of(ws));
        let sf = special_factor(pad);
        assert(combinations_for(ws, m, pad) == cap_at(sf * t, COUNT_CAP as nat));
        lemma_total_concat(front, here, counts_of(ws));
        assert(sf * t0 + sf * t == sf * (t0 + t)) by (nonlinear_arith);
    } else {
        assert(special_factor(pad) * 0 == 0);
    }
}

/// The counter predicts the run: with a window from at most `shortest` to
/// at least `words * longest` bytes, five more with padding (every variant
/// being `shortest` to `longest` bytes long), the candidates of the whole
/// run are exactly as many as the counter's total, wherever that total is
/// below the cap and no word has 64 or more substitutable characters.
pub proof fn lemma_generation_matches_count(
    a: CombinatorialAnalysis,
    words: Seq<Seq<char>>,
    max_words: nat,
    lists: Seq<Seq<Seq<char>>>,
    shortest: nat,
    longest: nat,
    min_len: nat,
    max_len: nat,
    pad: bool,
)
    requires
        analysis_matches(a, words, max_words, pad),
        a.total_combinations < COUNT_CAP,
        lists_match(lists, dedup_first(words)),
        forall|i: int|
            0 <= i < lists.len() ==> leet_count(lower_of(#[trigger] dedup_first(words)[i])) < 64,
        all_within(lists, longest),
        all_at_least(lists, shortest),
        min_len <= shortest,
        lists.len() * longest + (if pad { 5nat } else { 0nat }) <= max_len,
    ensures
        expected_output(
            lists,
            effective_max(max_words, lists.len()),
            min_len,
            max_len,
            pad,
            0,
        ).len() == a.total_combinations,
{
    let uw = dedup_first(words);
    let n = uw.len();
    let m = effective_max(max_words, n);
    let c = counts_of(uw);
    assert forall|i: int| 0 <= i < lists.len() implies #[trigger] c[i] == lists[i].len() by {
        assert(variant_count(uw[i]) == variant_set(uw[i]).len());
        lists[i].unique_seq_to_set();
    }
    lemma_schedule_shape(n, m);
    assert(m * longest <= n * longest) by (nonlinear_arith)
        requires
            m <= n,
    ;
    lemma_stream_len(lists, schedule(n, m), c, longest, shortest, m, min_len, max_len, pad);
    lemma_uncapped_sum(uw, m, pad);
    let st = stream_of(lists, schedule(n, m), min_len, max_len, pad);
    assert(limited(st, 0) == st);
}

/// A string of ASCII characters is as many bytes long as it has characters.
pub proof fn lemma_ascii_byte_len(s: Seq<char>)
    requires
        forall|i: int| 0 <= i < s.len() ==> (#[trigger] s[i] as u32) < 0x80,
    ensures
        byte_len(s) == s.len(),
    decreases s.len(),
{
    if s.len() > 0 {
        lemma_ascii_byte_len(s.drop_first());
    }
}

proof fn lemma_arrangement_pads_shape(b: Seq<char>, qs: Seq<Seq<usize>>, j: nat)
    requires
        forall|x: int, t: int| 0 <= x < qs.len() && 0 <= t < qs[x].len() ==> #[trigger] qs[x][t] < 5,
        forall|x: int| 0 <= x < qs.len() ==> #[trigger] qs[x].len() == j,
    ensures
        arrangement_pads(b, qs).len() == 2 * qs.len(),
        forall|x: int|
            0 <= x < arrangement_pads(b, qs).len() ==> byte_len(#[trigger] arrangement_pads(b, qs)[x])
                == byte_len(b) + j,
    decreases qs.len(),
{
    if qs.len() > 0 {
        let d = qs.drop_last();
        assert forall|x: int, t: int| 0 <= x < d.len() && 0 <= t < d[x].len() implies #[trigger] d[x][t]
            < 5 by {
            assert(d[x] == qs[x]);
        }
        assert forall|x: int| 0 <= x < d.len() implies #[trigger] d[x].len() == j by {
            assert(d[x] == qs[x]);
        }
        lemma_arrangement_pads_shape(b, d, j);
        let q = qs.last();
        assert(q == qs[qs.len() - 1]);
        let blk = block(q);
        assert forall|i: int| 0 <= i < blk.len() implies (#[trigger] blk[i] as u32) < 0x80 by {
            assert(q[i] < 5);
            assert(blk[i] == special_alphabet()[q[i] as int]);
        }
        lemma_ascii_byte_len(blk);
        lemma_byte_len_concat(blk, b);
        lemma_byte_len_concat(b, blk);
        let front = arrangement_pads(b, d);
        let two = seq![blk + b, b + blk];
        assert(arrangement_pads(b, qs) == front + two);
        assert forall|x: int| 0 <= x < (front + two).len() implies byte_len(#[trigger] (front + two)[x])
            == byte_len(b) + j by {
            if x >= front.len() {
                assert((front + two)[x] == two[x - front.len()]);
            }
        }
    }
}

proof fn lemma_multi_pads_shape(b: Seq<char>, j: nat)
    requires
        j <= 5,
    ensures
        multi_pads(b, j).len() == multi_padding_count(5, j),
        forall|x: int|
            0 <= x < multi_pads(b, j).len() ==> byte_len(b) + 2 <= byte_len(
                #[trigger] multi_pads(b, j)[x],
            ) <= byte_len(b) + j,
    decreases j,
{
    if j >= 2 {
        lemma_multi_pads_shape(b, (j - 1) as nat);
        let qs = arrangements(5, j);
        lemma_completions_in_range(5, j, Seq::empty());
        lemma_completions_len(5, j, Seq::empty());
        lemma_arrangement_pads_shape(b, qs, j);
        lemma_arrangements_count(5, j);
        let front = multi_pads(b, (j - 1) as nat);
        let back = arrangement_pads(b, qs);
        assert(multi_pads(b, j) == front + back);
        assert forall|x: int| 0 <= x < (front + back).len() implies byte_len(b) + 2 <= byte_len(
            #[trigger] (front + back)[x],
        ) <= byte_len(b) + j by {
            if x < front.len() {
                assert((front + back)[x] == front[x]);
            } else {
                assert((front + back)[x] == back[x - front.len()]);
            }
        }
    }
}

/// A base has 650 paddings, one to five bytes longer than it, so all of
/// them lie in a window that runs from at most one byte above the base to
/// at least five bytes above it.
pub proof fn lemma_padding_count(b: Seq<char>, min_len: nat, max_len: nat)
    ensures
        pad_forms(b).len() == padding_count(5) - 1,
        pad_forms(b).len() == 650,
        min_len <= byte_len(b) + 1 && byte_len(b) + 5 <= max_len ==> pads_in_window(
            b,
            min_len,
            max_len,
        ) == pad_forms(b),
{
    lemma_multi_pads_shape(b, 5);
    let pre = special_alphabet().map_values(|c: char| seq![c] + b);
    let suf = special_alphabet().map_values(|c: char| b + seq![c]);
    let multi = multi_pads(b, 5);
    reveal_with_fuel(falling, 6);
    reveal_with_fuel(multi_padding_count, 6);
    assert(falling(5, 2) == 20);
    assert(falling(5, 3) == 60);
    assert(falling(5, 4) == 120);
    assert(multi_padding_count(5, 5) == 640);
    assert(pad_forms(b) == pre + suf + multi);
    if min_len <= byte_len(b) + 1 && byte_len(b) + 5 <= max_len {
        let all = pad_forms(b);
        let pred = |s: Seq<char>| in_window(byte_len(s), min_len, max_len);
        assert forall|x: int| 0 <= x < all.len() implies #[trigger] pred(all[x]) by {
            if x < 5 {
                let c = special_alphabet()[x];
                assert(all[x] == seq![c] + b);
                lemma_ascii_byte_len(seq![c]);
                lemma_byte_len_concat(seq![c], b);
            } else if x < 10 {
                let c = special_alphabet()[x - 5];
                assert(all[x] == b + seq![c]);
                lemma_ascii_byte_len(seq![c]);
                lemma_byte_len_concat(b, seq![c]);
            } else {
                assert(all[x] == multi[x - 10]);
            }
        }
        lemma_filter_all(all, pred);
    }
}

proof fn lemma_filter_all(s: Seq<Seq<char>>, p: spec_fn(Seq<char>) -> bool)
    requires
        forall|x: int| 0 <= x < s.len() ==> #[trigger] p(s[x]),
    ensures
        s.filter(p) == s,
    decreases s.len(),
{
    if s.len() > 0 {
        let d = s.drop_last();
        assert forall|x: int| 0 <= x < d.len() implies #[trigger] p(d[x]) by {
            assert(d[x] == s[x]);
        }
        lemma_filter_all(d, p);
        d.lemma_filter_push(s.last(), p);
        assert(p(s[s.len() - 1]));
        assert(d.push(s.last()) == s);
    } else {
        assert(s.filter(p) =~= s);
    }
}

} // verus!
