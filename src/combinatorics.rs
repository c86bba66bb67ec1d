//! The counter: how many candidates a run will produce, computed from the
//! variant counts of the words without generating them, with every count
//! saturating at a fixed ceiling; and the human-readable forms of counts
//! and sizes.
use vstd::prelude::*;
use vstd::arithmetic::power2::pow2;
use vstd::string::*;
use crate::arrangements::{
    arrangements, arrangements_left, index_arrangements, lemma_completions_in_range,
    next_arrangement,
};
use crate::text::{byte_len, byte_length, lower_of, lowercase, push_char, views};
use crate::words::{
    chars_of, count_leetable, create_word_variants, leet_count, pow2_u64, variant_set,
};

verus! {

/// The falling factorial `n * (n - 1) * ... * (n - k + 1)`: the number of
/// ordered selections of `k` distinct items out of `n` (zero when `k > n`).
pub open spec fn falling(n: nat, k: nat) -> nat
    decreases k,
{
    if k == 0 {
        1
    } else if n == 0 {
        0
    } else {
        n * falling((n - 1) as nat, (k - 1) as nat)
    }
}

/// Taking one more item multiplies by the number of items still left.
pub proof fn lemma_falling_step(n: nat, i: nat)
    requires
        i < n,
    ensures
        falling(n, i + 1) == falling(n, i) * (n - i),
    decreases i,
{
    let m = (n - 1) as nat;
    assert(falling(n, i + 1) == n * falling(m, i));
    if i == 0 {
        assert(falling(m, 0) == 1);
        assert(falling(n, 0) == 1);
        assert(n * falling(m, i) == n) by (nonlinear_arith)
            requires
                falling(m, i) == 1,
        ;
    } else {
        let f = falling(m, (i - 1) as nat);
        lemma_falling_step(m, (i - 1) as nat);
        assert(falling(m, i) == f * (m - (i - 1)));
        assert(falling(n, i) == n * f);
        assert(n * (f * (m - (i - 1))) == (n * f) * (n - i)) by (nonlinear_arith)
            requires
                m - (i - 1) == n - i,
        ;
        assert(falling(n, i + 1) == falling(n, i) * (n - i));
    }
}

/// There is no way to pick more distinct items than there are.
pub proof fn lemma_falling_zero(n: nat, k: nat)
    requires
        k > n,
    ensures
        falling(n, k) == 0,
    decreases k,
{
    if n > 0 {
        lemma_falling_zero((n - 1) as nat, (k - 1) as nat);
        assert(falling(n, k) == n * falling((n - 1) as nat, (k - 1) as nat));
    } else {
        assert(falling(0, k) == 0);
    }
}

/// Every falling factorial with `k <= n` is at least one.
pub proof fn lemma_falling_positive(n: nat, k: nat)
    requires
        k <= n,
    ensures
        falling(n, k) >= 1,
    decreases k,
{
    if k > 0 {
        lemma_falling_positive((n - 1) as nat, (k - 1) as nat);
        assert(n * falling((n - 1) as nat, (k - 1) as nat) >= 1) by (nonlinear_arith)
            requires
                n >= 1,
                falling((n - 1) as nat, (k - 1) as nat) >= 1,
        ;
    }
}

/// `P(n, k)`, the number of ordered arrangements of `k` distinct items out
/// of `n`. Fails only when that number does not fit in a `u64`.
pub fn permutation_count(n: usize, k: usize) -> (r: Result<u64, String>)
    ensures
        r is Ok <==> falling(n as nat, k as nat) <= u64::MAX,
        r is Ok ==> r->Ok_0 == falling(n as nat, k as nat),
{
    if k > n {
        proof {
            lemma_falling_zero(n as nat, k as nat);
        }
        return Ok(0);
    }
    let mut result: u64 = 1;
    let mut i: usize = 0;
    while i < k
        invariant
            i <= k <= n,
            result == falling(n as nat, i as nat),
        decreases k - i,
    {
        proof {
            lemma_falling_step(n as nat, i as nat);
        }
        match result.checked_mul((n - i) as u64) {
            Some(v) => {
                result = v;
            },
            None => {
                proof {
                    lemma_falling_grows(n as nat, (i + 1) as nat, k as nat);
                }
                return Err("overflow in permutation count".to_owned());
            },
        }
        i = i + 1;
    }
    Ok(result)
}

/// Within `k <= n`, taking more items never gives fewer arrangements.
pub proof fn lemma_falling_grows(n: nat, i: nat, k: nat)
    requires
        i <= k <= n,
    ensures
        falling(n, i) <= falling(n, k),
    decreases k - i,
{
    if i < k {
        lemma_falling_grows(n, (i + 1) as nat, k);
        lemma_falling_step(n, i);
        lemma_falling_positive(n, i);
        assert(falling(n, i) <= falling(n, i) * (n - i)) by (nonlinear_arith)
            requires
                n - i >= 1,
        ;
    }
}

/// The ceiling at which candidate counts saturate.
pub const COUNT_CAP: u64 = 1_000_000_000;

/// The number of special characters used for padding.
pub const SPECIAL_CHAR_COUNT: usize = 5;

/// `x`, or `cap` where `x` exceeds it.
pub open spec fn cap_at(x: nat, cap: nat) -> nat {
    if x > cap {
        cap
    } else {
        x
    }
}

/// Saturating a product whose factors were saturated first gives the
/// saturated product.
pub proof fn lemma_cap_mul(x: nat, y: nat, c: nat)
    requires
        c >= 1,
    ensures
        cap_at(cap_at(x, c) * cap_at(y, c), c) == cap_at(x * y, c),
{
    if x == 0 || y == 0 {
        assert(x * y == 0) by (nonlinear_arith)
            requires
                x == 0 || y == 0,
        ;
        assert(cap_at(x, c) * cap_at(y, c) == 0) by (nonlinear_arith)
            requires
                cap_at(x, c) == 0 || cap_at(y, c) == 0,
        ;
    } else if x > c || y > c {
        assert(x * y >= x && x * y >= y) by (nonlinear_arith)
            requires
                x >= 1,
                y >= 1,
        ;
        assert(cap_at(x, c) * cap_at(y, c) >= c) by (nonlinear_arith)
            requires
                cap_at(x, c) >= 1,
                cap_at(y, c) >= 1,
                cap_at(x, c) == c || cap_at(y, c) == c,
        ;
    }
}

/// Saturating a sum whose terms were saturated first gives the saturated
/// sum.
pub proof fn lemma_cap_add(x: nat, y: nat, c: nat)
    ensures
        cap_at(cap_at(x, c) + cap_at(y, c), c) == cap_at(x + y, c),
{
}

/// The number of distinct variants of a word, or `u64::MAX` when its
/// lower-cased form has 64 or more substitutable characters.
pub open spec fn variant_count(word: Seq<char>) -> nat {
    if leet_count(lower_of(word)) >= 64 {
        u64::MAX as nat
    } else {
        variant_set(word).len()
    }
}

/// The number of leet forms of a word, or `u64::MAX` when that is `2^64`
/// or more.
pub open spec fn leet_variant_count(word: Seq<char>) -> nat {
    if leet_count(lower_of(word)) >= 64 {
        u64::MAX as nat
    } else {
        pow2(leet_count(lower_of(word)))
    }
}

/// The number of leet forms of a word: `2^k` for `k` substitutable
/// characters in its lower-cased form, `u64::MAX` once that does not fit.
pub fn calculate_leet_variants(word: &str) -> (r: u64)
    ensures
        r == leet_variant_count(word@),
{
    let lower = lowercase(word);
    let cs = chars_of(lower.as_str());
    let k = count_leetable(&cs);
    if k >= 64 {
        return u64::MAX;
    }
    pow2_u64(k as u64)
}

/// The number of distinct variants that `create_word_variants` yields for
/// a word; `u64::MAX`, without expanding, when the word has 64 or more
/// substitutable characters.
pub fn calculate_actual_word_variants(word: &str) -> (r: u64)
    ensures
        r == variant_count(word@),
{
    let lower = lowercase(word);
    let cs = chars_of(lower.as_str());
    if count_leetable(&cs) >= 64 {
        return u64::MAX;
    }
    let variants = create_word_variants(word);
    proof {
        views(variants@).unique_seq_to_set();
    }
    variants.len() as u64
}

/// `2 * (P(n, 2) + ... + P(n, j))`: the multi-character paddings made of up
/// to `j` characters, each as a prefix and as a suffix.
pub open spec fn multi_padding_count(n: nat, j: nat) -> nat
    decreases j,
{
    if j < 2 {
        0
    } else {
        multi_padding_count(n, (j - 1) as nat) + 2 * falling(n, j)
    }
}

/// The number of padding choices over `n` special characters: none, one
/// character as prefix or suffix, and every ordered arrangement of two to
/// `n` distinct characters as prefix or suffix.
pub open spec fn padding_count(n: nat) -> nat {
    1 + 2 * n + multi_padding_count(n, n)
}

/// The factor by which padding multiplies each base candidate.
pub open spec fn special_factor(include_special_chars: bool) -> nat {
    if include_special_chars {
        padding_count(SPECIAL_CHAR_COUNT as nat)
    } else {
        1
    }
}

/// The number of padding choices over the special characters.
pub fn calculate_special_char_variants() -> (r: u64)
    ensures
        r == padding_count(SPECIAL_CHAR_COUNT as nat),
        r == 651,
{
    let n = SPECIAL_CHAR_COUNT;
    let mut total: u64 = 1 + 2 * (n as u64);
    let mut j: usize = 2;
    proof {
        reveal_with_fuel(falling, 6);
        assert(falling(5, 5) == 120);
    }
    while j <= n
        invariant
            n == 5,
            2 <= j <= n + 1,
            total == 1 + 2 * n + multi_padding_count(n as nat, (j - 1) as nat),
            total <= 11 + 240 * (j - 2),
            falling(5, 5) == 120,
        decreases n + 1 - j,
    {
        proof {
            lemma_falling_grows(n as nat, j as nat, n as nat);
        }
        // P(5, j) is at most 120, so the count never fails here.
        let p = match permutation_count(n, j) {
            Ok(v) => v,
            Err(_) => 0,
        };
        total = total + 2 * p;
        j = j + 1;
    }
    proof {
        reveal_with_fuel(falling, 6);
        reveal_with_fuel(multi_padding_count, 6);
        assert(falling(5, 2) == 20);
        assert(falling(5, 3) == 60);
        assert(falling(5, 4) == 120);
        assert(padding_count(5) == 651);
    }
    total
}

/// `P(n, 1) + ... + P(n, m)`.
pub open spec fn permutation_sum(n: nat, m: nat) -> nat
    decreases m,
{
    if m == 0 {
        0
    } else {
        permutation_sum(n, (m - 1) as nat) + falling(n, m)
    }
}

/// The largest combination size: `max_words`, where 0 means no limit,
/// clamped to the number of words.
pub open spec fn effective_max(max_words: nat, n: nat) -> nat {
    if max_words == 0 || max_words > n {
        n
    } else {
        max_words
    }
}

/// Sums of more terms are never smaller.
pub proof fn lemma_permutation_sum_grows(n: nat, j: nat, m: nat)
    requires
        j <= m,
    ensures
        permutation_sum(n, j) <= permutation_sum(n, m),
        1 <= j ==> falling(n, j) <= permutation_sum(n, m),
    decreases m - j,
{
    if j < m {
        lemma_permutation_sum_grows(n, j, (m - 1) as nat);
    }
}

/// The number of ordered arrangements of one to `max_words` distinct words
/// out of `n` (`max_words == 0`: no limit). Fails when it does not fit in a
/// `u64`.
pub fn calculate_word_permutations(n: usize, max_words: usize) -> (r: Result<u64, String>)
    ensures
        r is Ok <==> permutation_sum(n as nat, effective_max(max_words as nat, n as nat))
            <= u64::MAX,
        r is Ok ==> r->Ok_0 == permutation_sum(
            n as nat,
            effective_max(max_words as nat, n as nat),
        ),
{
    let m = if max_words == 0 || max_words > n {
        n
    } else {
        max_words
    };
    let mut total: u64 = 0;
    let mut done: usize = 0;
    while done < m
        invariant
            m == effective_max(max_words as nat, n as nat),
            m <= n,
            done <= m,
            total == permutation_sum(n as nat, done as nat),
        decreases m - done,
    {
        let k = done + 1;
        match permutation_count(n, k) {
            Ok(p) => {
                match total.checked_add(p) {
                    Some(t) => {
                        total = t;
                    },
                    None => {
                        proof {
                            lemma_permutation_sum_grows(n as nat, k as nat, m as nat);
                        }
                        return Err("overflow in word permutation count".to_owned());
                    },
                }
            },
            Err(e) => {
                proof {
                    lemma_permutation_sum_grows(n as nat, k as nat, m as nat);
                }
                return Err(e);
            },
        }
        done = k;
    }
    Ok(total)
}

/// The product of the variant counts of the words an arrangement selects.
pub open spec fn arrangement_product(a: Seq<usize>, c: Seq<nat>) -> nat
    decreases a.len(),
{
    if a.len() == 0 {
        1
    } else {
        arrangement_product(a.drop_last(), c) * c[a.last() as int]
    }
}

/// The sum of `arrangement_product` over a sequence of arrangements.
pub open spec fn arrangements_total(s: Seq<Seq<usize>>, c: Seq<nat>) -> nat
    decreases s.len(),
{
    if s.len() == 0 {
        0
    } else {
        arrangements_total(s.drop_last(), c) + arrangement_product(s.last(), c)
    }
}

/// The variant count of each word.
pub open spec fn counts_of(words: Seq<Seq<char>>) -> Seq<nat> {
    words.map_values(|w: Seq<char>| variant_count(w))
}

/// The number of candidates made of `k` distinct words (before length
/// filtering): over every arrangement of `k` words, the product of their
/// variant counts, summed and multiplied by the padding factor; saturated at
/// `COUNT_CAP`.
pub open spec fn combinations_for(words: Seq<Seq<char>>, k: nat, include_special_chars: bool) -> nat {
    cap_at(
        special_factor(include_special_chars) * arrangements_total(
            arrangements(words.len(), k),
            counts_of(words),
        ),
        COUNT_CAP as nat,
    )
}

/// A prefix of a sequence of arrangements never sums to more than the whole.
pub proof fn lemma_arrangements_total_prefix(s: Seq<Seq<usize>>, c: Seq<nat>, j: int)
    requires
        0 <= j <= s.len(),
    ensures
        arrangements_total(s.take(j), c) <= arrangements_total(s, c),
    decreases s.len(),
{
    if j < s.len() {
        lemma_arrangements_total_prefix(s.drop_last(), c, j);
        assert(s.drop_last().take(j) == s.take(j));
    } else {
        assert(s.take(j) == s);
    }
}

/// The candidates made of `k` distinct words, from the variant count of
/// each word: `combinations_for` computed by walking every arrangement.
fn combinations_for_word_count(
    counts: &Vec<u64>,
    k: usize,
    include_special_chars: bool,
    words: Ghost<Seq<Seq<char>>>,
) -> (r: u64)
    requires
        counts@.len() == words@.len(),
        forall|i: int| 0 <= i < counts@.len() ==> counts@[i] == #[trigger] counts_of(words@)[i],
    ensures
        r == combinations_for(words@, k as nat, include_special_chars),
{
    let n = counts.len();
    let ghost c = counts_of(words@);
    let ghost all = arrangements(n as nat, k as nat);
    proof {
        lemma_completions_in_range(n as nat, k as nat, Seq::empty());
    }
    let mut it = index_arrangements(n, k);
    let mut total: u64 = 0;
    let ghost mut done: int = 0;
    loop
        invariant
            n == counts@.len(),
            c.len() == n,
            forall|i: int| 0 <= i < n ==> counts@[i] == #[trigger] c[i],
            all == arrangements(n as nat, k as nat),
            forall|a: int, j: int|
                0 <= a < all.len() && 0 <= j < all[a].len() ==> #[trigger] all[a][j] < n,
            0 <= done <= all.len(),
            arrangements_left(it) == all.subrange(done, all.len() as int),
            total == cap_at(arrangements_total(all.take(done), c), COUNT_CAP as nat),
        ensures
            total == cap_at(arrangements_total(all, c), COUNT_CAP as nat),
        decreases arrangements_left(it).len(),
    {
        let next = next_arrangement(&mut it);
        match next {
            None => {
                proof {
                    assert(done == all.len());
                    assert(all.take(done) == all);
                }
                break;
            },
            Some(a) => {
                let ghost av = a@;
                proof {
                    assert(av == all[done]);
                }
                let mut p: u64 = 1;
                let mut i: usize = 0;
                while i < a.len()
                    invariant
                        n == counts@.len(),
                        c.len() == n,
                        forall|x: int| 0 <= x < n ==> counts@[x] == #[trigger] c[x],
                        av == a@,
                        forall|j: int| 0 <= j < av.len() ==> #[trigger] av[j] < n,
                        i <= av.len(),
                        p == cap_at(arrangement_product(av.take(i as int), c), COUNT_CAP as nat),
                    decreases av.len() - i,
                {
                    let idx = a[i];
                    let w = if counts[idx] > COUNT_CAP {
                        COUNT_CAP
                    } else {
                        counts[idx]
                    };
                    proof {
                        assert(av.take(i + 1).drop_last() == av.take(i as int));
                        lemma_cap_mul(
                            arrangement_product(av.take(i as int), c),
                            c[idx as int],
                            COUNT_CAP as nat,
                        );
                        assert(p * w <= 1_000_000_000_000_000_000) by (nonlinear_arith)
                            requires
                                p <= 1_000_000_000,
                                w <= 1_000_000_000,
                        ;
                    }
                    p = p * w;
                    if p > COUNT_CAP {
                        p = COUNT_CAP;
                    }
                    i = i + 1;
                }
                proof {
                    assert(av.take(av.len() as int) == av);
                    assert(all.take(done + 1).drop_last() == all.take(done));
                    lemma_cap_add(
                        arrangements_total(all.take(done), c),
                        arrangement_product(av, c),
                        COUNT_CAP as nat,
                    );
                    assert(all.subrange(done + 1, all.len() as int) == all.subrange(
                        done,
                        all.len() as int,
                    ).drop_first());
                    done = done + 1;
                }
                total = total + p;
                if total >= COUNT_CAP {
                    total = COUNT_CAP;
                    proof {
                        lemma_arrangements_total_prefix(all, c, done);
                    }
                    break;
                }
            },
        }
    }
    let special = if include_special_chars {
        calculate_special_char_variants()
    } else {
        1
    };
    proof {
        lemma_cap_mul(
            special as nat,
            arrangements_total(all, c),
            COUNT_CAP as nat,
        );
        assert(special * total <= 651_000_000_000) by (nonlinear_arith)
            requires
                special <= 651,
                total <= 1_000_000_000,
        ;
    }
    let r = special * total;
    if r > COUNT_CAP {
        COUNT_CAP
    } else {
        r
    }
}

/// What the counter is asked: the largest combination size (0: no limit)
/// and whether padding with special characters is counted.
pub struct CombinatorialConfig {
    pub max_words: usize,
    pub include_special_chars: bool,
}

/// The count of one combination size.
#[derive(Debug)]
pub struct WordCountBreakdown {
    /// The number of words combined.
    pub word_count: usize,
    /// The candidates made of that many words, saturated at `COUNT_CAP`.
    pub combinations: u64,
    /// The combined length in bytes of the first `word_count` words.
    pub average_length: usize,
}

/// The parts the count is built from.
#[derive(Debug)]
pub struct CombinationBreakdown {
    /// Arrangements of one to `max_words` words, saturated at `u64::MAX`.
    pub word_permutations: u64,
    /// The product of the leet form counts of the words, saturated.
    pub leet_variants: u64,
    /// Case forms per leet form.
    pub case_variants: u64,
    /// Padding choices per base candidate (1 when padding is off).
    pub special_char_variants: u64,
    /// One entry per combination size, from 1 up.
    pub by_word_count: Vec<WordCountBreakdown>,
}

/// The predicted output of a generation run.
#[derive(Debug)]
pub struct CombinatorialAnalysis {
    /// The sum of the per-size counts, saturated at `COUNT_CAP`.
    pub total_combinations: u64,
    /// `total_combinations` times the estimated line length, saturated.
    pub estimated_file_size_bytes: u64,
    pub breakdown: CombinationBreakdown,
}

/// The words with every repetition of an earlier word left out.
pub open spec fn dedup_first(s: Seq<Seq<char>>) -> Seq<Seq<char>>
    decreases s.len(),
{
    if s.len() == 0 {
        s
    } else {
        let d = dedup_first(s.drop_last());
        if d.contains(s.last()) {
            d
        } else {
            d.push(s.last())
        }
    }
}

/// The words in their first order, each once.
pub fn unique_words(words: &[String]) -> (r: Vec<String>)
    ensures
        views(r@) == dedup_first(views(words@)),
{
    let ghost ws = views(words@);
    let mut out: Vec<String> = Vec::new();
    let mut i: usize = 0;
    while i < words.len()
        invariant
            ws == views(words@),
            i <= words@.len(),
            views(out@) == dedup_first(ws.take(i as int)),
        decreases words@.len() - i,
    {
        let mut found = false;
        let mut j: usize = 0;
        while j < out.len()
            invariant
                i < words@.len(),
                j <= out@.len(),
                found <==> views(out@).take(j as int).contains(words@[i as int]@),
            decreases out@.len() - j,
        {
            let same = out[j] == words[i];
            if same {
                found = true;
            }
            proof {
                let t = views(out@).take(j as int);
                let x = words@[i as int]@;
                assert(views(out@).take(j + 1) == t.push(out@[j as int]@));
                if t.push(out@[j as int]@).contains(x) && !t.contains(x) {
                    let q = choose|q: int| 0 <= q < t.len() + 1 && t.push(out@[j as int]@)[q] == x;
                    assert(q == t.len());
                }
                if same {
                    assert(t.push(out@[j as int]@)[t.len() as int] == x);
                }
            }
            j = j + 1;
        }
        proof {
            assert(views(out@).take(out@.len() as int) == views(out@));
            assert(ws.take(i + 1).drop_last() == ws.take(i as int));
            assert(ws.take(i + 1).last() == words@[i as int]@);
        }
        if !found {
            out.push(words[i].clone());
            proof {
                assert(views(out@) == views(out@).drop_last().push(words@[i as int]@));
            }
        }
        i = i + 1;
    }
    proof {
        assert(ws.take(words@.len() as int) == ws);
    }
    out
}

/// The total length in UTF-8 bytes of the words.
pub open spec fn total_length(ws: Seq<Seq<char>>) -> nat
    decreases ws.len(),
{
    if ws.len() == 0 {
        0
    } else {
        total_length(ws.drop_last()) + byte_len(ws.last())
    }
}

/// The product of the leet form counts of the words.
pub open spec fn leet_product(ws: Seq<Seq<char>>) -> nat
    decreases ws.len(),
{
    if ws.len() == 0 {
        1
    } else {
        leet_product(ws.drop_last()) * leet_variant_count(ws.last())
    }
}

/// `combinations_for` summed over the sizes `1..=m`.
pub open spec fn breakdown_sum(ws: Seq<Seq<char>>, m: nat, include_special_chars: bool) -> nat
    decreases m,
{
    if m == 0 {
        0
    } else {
        breakdown_sum(ws, (m - 1) as nat, include_special_chars) + combinations_for(
            ws,
            m,
            include_special_chars,
        )
    }
}

/// The estimated length of a candidate: the average word length (floored)
/// times 1.5 with padding or 1.2 without, floored; saturated.
pub open spec fn average_length_estimate(ws: Seq<Seq<char>>, include_special_chars: bool) -> nat {
    if ws.len() == 0 {
        0
    } else {
        let a = cap_at(total_length(ws), usize::MAX as nat) / ws.len();
        cap_at(a + if include_special_chars { a / 2 } else { a / 5 }, usize::MAX as nat)
    }
}

/// The breakdown entry for `k + 1` words.
pub open spec fn entry_matches(e: WordCountBreakdown, ws: Seq<Seq<char>>, k: nat, include_special_chars: bool) -> bool {
    &&& e.word_count == k + 1
    &&& e.combinations == combinations_for(ws, k + 1, include_special_chars)
    &&& e.average_length == cap_at(total_length(ws.take(k + 1 as int)), usize::MAX as nat)
}

/// `a` is the analysis of `words`: each field as the counter defines it,
/// over the words with repetitions left out.
pub open spec fn analysis_matches(
    a: CombinatorialAnalysis,
    words: Seq<Seq<char>>,
    max_words: nat,
    include_special_chars: bool,
) -> bool {
    let uw = dedup_first(words);
    let m = effective_max(max_words, uw.len());
    &&& a.total_combinations == cap_at(breakdown_sum(uw, m, include_special_chars), COUNT_CAP as nat)
    &&& a.estimated_file_size_bytes == cap_at(
        (a.total_combinations * (average_length_estimate(uw, include_special_chars) + 1)) as nat,
        u64::MAX as nat,
    )
    &&& a.breakdown.word_permutations == cap_at(permutation_sum(uw.len(), m), u64::MAX as nat)
    &&& a.breakdown.leet_variants == cap_at(leet_product(uw), u64::MAX as nat)
    &&& a.breakdown.case_variants == 3
    &&& a.breakdown.special_char_variants == special_factor(include_special_chars)
    &&& a.breakdown.by_word_count@.len() == m
    &&& forall|k: int|
        0 <= k < m ==> entry_matches(
            #[trigger] a.breakdown.by_word_count@[k],
            uw,
            k as nat,
            include_special_chars,
        )
}

/// One breakdown entry per combination size from 1 to `max_words`
/// (0: no limit, clamped to the number of words).
fn calculate_breakdown_by_word_count(
    words: &[String],
    max_words: usize,
    include_special_chars: bool,
) -> (r: Vec<WordCountBreakdown>)
    ensures
        r@.len() == effective_max(max_words as nat, words@.len()),
        forall|k: int|
            0 <= k < r@.len() ==> entry_matches(
                #[trigger] r@[k],
                views(words@),
                k as nat,
                include_special_chars,
            ),
{
    let ghost ws = views(words@);
    let n = words.len();
    let m = if max_words == 0 || max_words > n {
        n
    } else {
        max_words
    };
    let mut counts: Vec<u64> = Vec::new();
    let mut i: usize = 0;
    while i < n
        invariant
            n == words@.len(),
            ws == views(words@),
            i <= n,
            counts@.len() == i,
            forall|j: int| 0 <= j < i ==> counts@[j] == #[trigger] counts_of(ws)[j],
        decreases n - i,
    {
        counts.push(calculate_actual_word_variants(words[i].as_str()));
        i = i + 1;
    }
    let mut out: Vec<WordCountBreakdown> = Vec::new();
    let mut length: usize = 0;
    let mut done: usize = 0;
    while done < m
        invariant
            n == words@.len(),
            ws == views(words@),
            m == effective_max(max_words as nat, n as nat),
            m <= n,
            counts@.len() == n,
            forall|j: int| 0 <= j < n ==> counts@[j] == #[trigger] counts_of(ws)[j],
            done <= m,
            out@.len() == done,
            length == cap_at(total_length(ws.take(done as int)), usize::MAX as nat),
            forall|k: int|
                0 <= k < done ==> entry_matches(#[trigger] out@[k], ws, k as nat, include_special_chars),
        decreases m - done,
    {
        let k = done + 1;
        let wl = byte_length(words[done].as_str());
        proof {
            assert(ws.take(k as int).drop_last() == ws.take(done as int));
            assert(ws.take(k as int).last() == words@[done as int]@);
        }
        length = match length.checked_add(wl) {
            Some(v) => v,
            None => usize::MAX,
        };
        let combinations = combinations_for_word_count(&counts, k, include_special_chars, Ghost(ws));
        out.push(WordCountBreakdown { word_count: k, combinations, average_length: length });
        done = k;
    }
    out
}

/// The estimated length in bytes of a candidate (see
/// `average_length_estimate`).
pub fn estimate_average_password_length(words: &[String], include_special_chars: bool) -> (r: usize)
    ensures
        r == average_length_estimate(views(words@), include_special_chars),
{
    let ghost ws = views(words@);
    let n = words.len();
    if n == 0 {
        return 0;
    }
    let mut sum: usize = 0;
    let mut i: usize = 0;
    while i < n
        invariant
            n == words@.len(),
            ws == views(words@),
            i <= n,
            sum == cap_at(total_length(ws.take(i as int)), usize::MAX as nat),
        decreases n - i,
    {
        proof {
            assert(ws.take(i + 1).drop_last() == ws.take(i as int));
            assert(ws.take(i + 1).last() == words@[i as int]@);
        }
        sum = match sum.checked_add(byte_length(words[i].as_str())) {
            Some(v) => v,
            None => usize::MAX,
        };
        i = i + 1;
    }
    proof {
        assert(ws.take(n as int) == ws);
    }
    let a = sum / n;
    let extra = if include_special_chars {
        a / 2
    } else {
        a / 5
    };
    match a.checked_add(extra) {
        Some(v) => v,
        None => usize::MAX,
    }
}

/// `count` lines of `length` bytes and a newline each, saturated at
/// `u64::MAX`.
fn file_size_estimate(count: u64, length: u64) -> (r: u64)
    ensures
        r == cap_at((count * (length + 1)) as nat, u64::MAX as nat),
{
    if count == 0 {
        return 0;
    }
    if length == u64::MAX {
        proof {
            assert(count * (length + 1) >= length + 1) by (nonlinear_arith)
                requires
                    count >= 1,
            ;
        }
        return u64::MAX;
    }
    match count.checked_mul(length + 1) {
        Some(b) => b,
        None => u64::MAX,
    }
}

/// Counts, without generating them, the candidates that generation would
/// produce for `words` (repetitions left out): per combination size the sum
/// over arrangements of the product of variant counts, times the padding
/// factor, each saturated at `COUNT_CAP`, and their saturated sum. Fails
/// only on an empty word list.
pub fn calculate_total_combinations(words: &[String], config: &CombinatorialConfig) -> (r: Result<
    CombinatorialAnalysis,
    String,
>)
    ensures
        r is Err <==> words@.len() == 0,
        r is Ok ==> analysis_matches(
            r->Ok_0,
            views(words@),
            config.max_words as nat,
            config.include_special_chars,
        ),
{
    if words.len() == 0 {
        return Err("No words provided for combinatorial analysis".to_owned());
    }
    let unique = unique_words(words);
    let ghost uw = views(unique@);
    let n = unique.len();
    let inc = config.include_special_chars;
    // Counting never fails: an arrangement count past `u64::MAX` saturates.
    let word_permutations = match calculate_word_permutations(n, config.max_words) {
        Ok(v) => v,
        Err(_) => u64::MAX,
    };
    let mut leet_variants: u64 = 1;
    let mut i: usize = 0;
    while i < n
        invariant
            n == unique@.len(),
            uw == views(unique@),
            i <= n,
            leet_variants == cap_at(leet_product(uw.take(i as int)), u64::MAX as nat),
        decreases n - i,
    {
        let v = calculate_leet_variants(unique[i].as_str());
        proof {
            assert(uw.take(i + 1).drop_last() == uw.take(i as int));
            assert(uw.take(i + 1).last() == unique@[i as int]@);
            lemma_cap_mul(leet_product(uw.take(i as int)), v as nat, u64::MAX as nat);
        }
        leet_variants = match leet_variants.checked_mul(v) {
            Some(p) => p,
            None => u64::MAX,
        };
        i = i + 1;
    }
    proof {
        assert(uw.take(n as int) == uw);
    }
    let special_char_variants: u64 = if inc {
        calculate_special_char_variants()
    } else {
        1
    };
    let by_word_count = calculate_breakdown_by_word_count(unique.as_slice(), config.max_words, inc);
    let m = by_word_count.len();
    let mut total: u64 = 0;
    let mut k: usize = 0;
    while k < m
        invariant
            m == by_word_count@.len(),
            m == effective_max(config.max_words as nat, n as nat),
            uw == views(unique@),
            forall|j: int|
                0 <= j < m ==> entry_matches(#[trigger] by_word_count@[j], uw, j as nat, inc),
            k <= m,
            total == cap_at(breakdown_sum(uw, k as nat, inc), COUNT_CAP as nat),
        decreases m - k,
    {
        let c = by_word_count[k].combinations;
        proof {
            assert(entry_matches(by_word_count@[k as int], uw, k as nat, inc));
            lemma_cap_add(breakdown_sum(uw, k as nat, inc), c as nat, COUNT_CAP as nat);
        }
        total = total + c;
        if total > COUNT_CAP {
            total = COUNT_CAP;
        }
        k = k + 1;
    }
    let unique_slice = unique.as_slice();
    let avg_len = estimate_average_password_length(unique_slice, inc);
    proof {
        assert(unique_slice@ == unique@);
        assert(avg_len == average_length_estimate(uw, inc));
    }
    let avg = avg_len as u64;
    let estimated_file_size_bytes = file_size_estimate(total, avg);
    let analysis = CombinatorialAnalysis {
        total_combinations: total,
        estimated_file_size_bytes,
        breakdown: CombinationBreakdown {
            word_permutations,
            leet_variants,
            case_variants: 3,
            special_char_variants,
            by_word_count,
        },
    };
    proof {
        let a = analysis;
        assert(uw == dedup_first(views(words@)));
        assert(a.total_combinations == cap_at(breakdown_sum(uw, m as nat, inc), COUNT_CAP as nat));
        assert(a.breakdown.word_permutations == cap_at(permutation_sum(n as nat, m as nat), u64::MAX as nat));
        assert(a.breakdown.leet_variants == cap_at(leet_product(uw), u64::MAX as nat));
        assert(a.breakdown.special_char_variants == special_factor(inc));
        assert(a.estimated_file_size_bytes == cap_at(
            (a.total_combinations * (average_length_estimate(uw, inc) + 1)) as nat,
            u64::MAX as nat,
        ));
        assert(a.breakdown.by_word_count@.len() == m);
    }
    Ok(analysis)
}

/// The decimal digit for `d < 10`.
pub open spec fn digit_char(d: nat) -> char {
    if d == 0 {
        '0'
    } else if d == 1 {
        '1'
    } else if d == 2 {
        '2'
    } else if d == 3 {
        '3'
    } else if d == 4 {
        '4'
    } else if d == 5 {
        '5'
    } else if d == 6 {
        '6'
    } else if d == 7 {
        '7'
    } else if d == 8 {
        '8'
    } else {
        '9'
    }
}

/// `n` written in decimal, without leading zeros.
pub open spec fn decimal(n: nat) -> Seq<char>
    decreases n,
{
    if n < 10 {
        seq![digit_char(n)]
    } else {
        decimal(n / 10).push(digit_char(n % 10))
    }
}

fn digit(d: u64) -> (r: char)
    requires
        d < 10,
    ensures
        r == digit_char(d as nat),
{
    if d == 0 {
        '0'
    } else if d == 1 {
        '1'
    } else if d == 2 {
        '2'
    } else if d == 3 {
        '3'
    } else if d == 4 {
        '4'
    } else if d == 5 {
        '5'
    } else if d == 6 {
        '6'
    } else if d == 7 {
        '7'
    } else if d == 8 {
        '8'
    } else {
        '9'
    }
}

/// Appends `n` in decimal to `out`.
fn push_decimal(out: &mut String, n: u64)
    ensures
        final(out)@ == old(out)@ + decimal(n as nat),
    decreases n,
{
    if n >= 10 {
        push_decimal(out, n / 10);
    }
    push_char(out, digit(n % 10));
    proof {
        if n >= 10 {
            assert(old(out)@ + decimal(n as nat) =~= old(out)@ + decimal((n / 10) as nat) + seq![
                digit_char((n % 10) as nat),
            ]);
        } else {
            assert(old(out)@ + decimal(n as nat) =~= old(out)@.push(digit_char(n as nat)));
        }
    }
}

/// `floor(log2(n / 5))` for `n >= 5`: the largest `e` with `5 * 2^e <= n`.
pub open spec fn log2_fifth(n: nat) -> nat
    decreases n,
{
    if n < 10 {
        0
    } else {
        1 + log2_fifth(n / 2)
    }
}

/// `2^s mod 5`, which repeats with period four.
pub open spec fn pow2_mod5(s: nat) -> nat {
    if s % 4 == 0 {
        1
    } else if s % 4 == 1 {
        2
    } else if s % 4 == 2 {
        4
    } else {
        3
    }
}

/// Whether the `f64` nearest to `n / 20` (`n` odd, not a multiple of 5,
/// at least 5) lies above it. `n / 5` is a non-terminating binary fraction;
/// scaled by `2^s` into `[2^52, 2^53)` its fractional part is
/// `(n * 2^s mod 5) / 5`, which rounds up exactly when that is above one
/// half. Dividing by 4 afterwards is exact.
pub open spec fn nearest_double_above(n: nat) -> bool {
    let s: nat = if log2_fifth(n) <= 52 {
        (52 - log2_fifth(n)) as nat
    } else {
        0
    };
    (n % 5) * pow2_mod5(s) % 5 >= 3
}

/// Whether a quotient exactly halfway between `t` and `t + 1` tenths is
/// shown as `t + 1`, as `{:.1}` on the `f64` quotient shows it. A unit that
/// is a power of two makes the halfway value a binary fraction, which is
/// exactly representable and rounds to the even digit; so does a unit of
/// 1000s when 5 divides `2t + 1`. Otherwise the `f64` lies above or below
/// the halfway value and rounds that way.
pub open spec fn tie_rounds_up(t: nat, binary_unit: bool) -> bool {
    if binary_unit || (2 * t + 1) % 5 == 0 {
        t % 2 == 1
    } else {
        nearest_double_above(2 * t + 1)
    }
}

/// `value / unit` in tenths, rounded to nearest; an exact tie goes as
/// `tie_rounds_up` says.
pub open spec fn tenths(value: nat, unit: nat, binary_unit: bool) -> nat
    recommends
        unit > 0,
{
    let t = (value / unit) * 10 + (10 * (value % unit)) / unit;
    let r = (10 * (value % unit)) % unit;
    if 2 * r > unit {
        t + 1
    } else if 2 * r < unit {
        t
    } else if tie_rounds_up(t, binary_unit) {
        t + 1
    } else {
        t
    }
}

/// `value / unit` with one decimal (see `tenths`), then a space and the
/// unit's name.
pub open spec fn scaled_text(value: nat, unit: nat, binary_unit: bool, name: Seq<char>) -> Seq<
    char,
> {
    decimal(tenths(value, unit, binary_unit) / 10) + seq![
        '.',
        digit_char(tenths(value, unit, binary_unit) % 10),
        ' ',
    ] + name
}

/// `log2_fifth(n)`.
fn log2_of_fifth(n: u64) -> (r: u64)
    ensures
        r == log2_fifth(n as nat),
{
    let mut m = n;
    let mut e: u64 = 0;
    while m >= 10
        invariant
            e + log2_fifth(m as nat) == log2_fifth(n as nat),
            e + m <= n,
        decreases m,
    {
        m = m / 2;
        e = e + 1;
    }
    e
}

fn rounds_up_at_tie(t: u64, binary_unit: bool) -> (r: bool)
    requires
        t <= 2_000_000_000_000_000,
    ensures
        r == tie_rounds_up(t as nat, binary_unit),
{
    let n = 2 * t + 1;
    if binary_unit || n % 5 == 0 {
        return t % 2 == 1;
    }
    let e = log2_of_fifth(n);
    let s = if e <= 52 {
        52 - e
    } else {
        0
    };
    let p: u64 = if s % 4 == 0 {
        1
    } else if s % 4 == 1 {
        2
    } else if s % 4 == 2 {
        4
    } else {
        3
    };
    (n % 5) * p % 5 >= 3
}

fn push_scaled(out: &mut String, value: u64, unit: u64, binary_unit: bool, name: &str)
    requires
        unit > 0,
        unit <= 1_000_000_000_000_000,
        value / unit <= 100_000_000_000_000,
    ensures
        final(out)@ == old(out)@ + scaled_text(value as nat, unit as nat, binary_unit, name@),
{
    let q = value / unit;
    let rem = value % unit;
    proof {
        assert((10 * rem as int) / (unit as int) <= 10) by (nonlinear_arith)
            requires
                rem < unit,
                unit > 0,
        ;
    }
    let t0 = q * 10 + (10 * rem) / unit;
    let r = (10 * rem) % unit;
    let t = if 2 * r > unit {
        t0 + 1
    } else if 2 * r < unit {
        t0
    } else if rounds_up_at_tie(t0, binary_unit) {
        t0 + 1
    } else {
        t0
    };
    push_decimal(out, t / 10);
    push_char(out, '.');
    push_char(out, digit(t % 10));
    push_char(out, ' ');
    out.append(name);
    proof {
        assert(t == tenths(value as nat, unit as nat, binary_unit));
        assert(final(out)@ =~= old(out)@ + scaled_text(
            value as nat,
            unit as nat,
            binary_unit,
            name@,
        ));
    }
}

/// The largest `i <= 4` with `base^i <= value` (0 when `value == 0`).
pub open spec fn scale_index(value: nat, base: nat) -> nat {
    if value >= base * base * base * base {
        4
    } else if value >= base * base * base {
        3
    } else if value >= base * base {
        2
    } else if value >= base {
        1
    } else {
        0
    }
}

/// The text for a byte count: `"0 B"`, the exact count in bytes below 1024,
/// else the count in KB, MB, GB or TB (the largest that is at least one,
/// TB at most) with one decimal (see `tenths`).
pub open spec fn file_size_text(bytes: nat) -> Seq<char> {
    let i = scale_index(bytes, 1024);
    if i == 0 {
        decimal(bytes) + " B"@
    } else if i == 1 {
        scaled_text(bytes, 1024, true, "KB"@)
    } else if i == 2 {
        scaled_text(bytes, 1024 * 1024, true, "MB"@)
    } else if i == 3 {
        scaled_text(bytes, 1024 * 1024 * 1024, true, "GB"@)
    } else {
        scaled_text(bytes, 1024 * 1024 * 1024 * 1024, true, "TB"@)
    }
}

/// The text for a candidate count: `"too many to count"` for the overflow
/// sentinel `u64::MAX`, the exact count below 1000, else the count in
/// thousands, millions, billions or trillions (the largest that is at least
/// one, trillions at most) with one decimal (see `tenths`).
pub open spec fn combination_count_text(count: nat) -> Seq<char> {
    let i = scale_index(count, 1000);
    if count == u64::MAX {
        "too many to count"@
    } else if i == 0 {
        decimal(count)
    } else if i == 1 {
        scaled_text(count, 1000, false, "thousand"@)
    } else if i == 2 {
        scaled_text(count, 1000_000, false, "million"@)
    } else if i == 3 {
        scaled_text(count, 1000_000_000, false, "billion"@)
    } else {
        scaled_text(count, 1000_000_000_000, false, "trillion"@)
    }
}

/// A byte count for people to read (see `file_size_text`).
pub fn format_file_size(bytes: u64) -> (r: String)
    ensures
        r@ == file_size_text(bytes as nat),
{
    let mut out = String::new();
    if bytes >= 1024 * 1024 * 1024 * 1024 {
        proof {
            assert(bytes / 1099511627776 <= 16777216) by (nonlinear_arith)
                requires
                    bytes <= 0xffff_ffff_ffff_ffff,
            ;
        }
        push_scaled(&mut out, bytes, 1024 * 1024 * 1024 * 1024, true, "TB");
    } else if bytes >= 1024 * 1024 * 1024 {
        push_scaled(&mut out, bytes, 1024 * 1024 * 1024, true, "GB");
    } else if bytes >= 1024 * 1024 {
        push_scaled(&mut out, bytes, 1024 * 1024, true, "MB");
    } else if bytes >= 1024 {
        push_scaled(&mut out, bytes, 1024, true, "KB");
    } else {
        push_decimal(&mut out, bytes);
        out.append(" B");
    }
    proof {
        assert(out@ =~= file_size_text(bytes as nat));
    }
    out
}

/// A candidate count for people to read (see `combination_count_text`).
pub fn format_combination_count(count: u64) -> (r: String)
    ensures
        r@ == combination_count_text(count as nat),
        count == u64::MAX ==> r@ == "too many to count"@,
{
    if count == u64::MAX {
        return "too many to count".to_owned();
    }
    let mut out = String::new();
    if count >= 1000_000_000_000 {
        proof {
            assert(count / 1000_000_000_000 <= 18446745) by (nonlinear_arith)
                requires
                    count <= 0xffff_ffff_ffff_ffff,
            ;
        }
        push_scaled(&mut out, count, 1000_000_000_000, false, "trillion");
    } else if count >= 1000_000_000 {
        push_scaled(&mut out, count, 1000_000_000, false, "billion");
    } else if count >= 1000_000 {
        push_scaled(&mut out, count, 1000_000, false, "million");
    } else if count >= 1000 {
        push_scaled(&mut out, count, 1000, false, "thousand");
    } else {
        push_decimal(&mut out, count);
    }
    proof {
        assert(out@ =~= combination_count_text(count as nat));
    }
    out
}

/// The sum of the `combinations` of breakdown entries.
pub open spec fn entries_sum(es: Seq<WordCountBreakdown>) -> nat
    decreases es.len(),
{
    if es.len() == 0 {
        0
    } else {
        entries_sum(es.drop_last()) + es.last().combinations as nat
    }
}

/// The counter is deterministic: two analyses of the same words under the
/// same configuration agree in every field.
pub proof fn lemma_analysis_deterministic(
    a1: CombinatorialAnalysis,
    a2: CombinatorialAnalysis,
    words: Seq<Seq<char>>,
    max_words: nat,
    include_special_chars: bool,
)
    requires
        analysis_matches(a1, words, max_words, include_special_chars),
        analysis_matches(a2, words, max_words, include_special_chars),
    ensures
        a1.total_combinations == a2.total_combinations,
        a1.estimated_file_size_bytes == a2.estimated_file_size_bytes,
        a1.breakdown.word_permutations == a2.breakdown.word_permutations,
        a1.breakdown.leet_variants == a2.breakdown.leet_variants,
        a1.breakdown.case_variants == a2.breakdown.case_variants,
        a1.breakdown.special_char_variants == a2.breakdown.special_char_variants,
        a1.breakdown.by_word_count@ == a2.breakdown.by_word_count@,
{
    let uw = dedup_first(words);
    assert forall|k: int| 0 <= k < a1.breakdown.by_word_count@.len() implies
        a1.breakdown.by_word_count@[k] == a2.breakdown.by_word_count@[k] by {
        assert(entry_matches(a1.breakdown.by_word_count@[k], uw, k as nat, include_special_chars));
        assert(entry_matches(a2.breakdown.by_word_count@[k], uw, k as nat, include_special_chars));
    }
    assert(a1.breakdown.by_word_count@ =~= a2.breakdown.by_word_count@);
}

proof fn lemma_entries_sum(es: Seq<WordCountBreakdown>, ws: Seq<Seq<char>>, k: nat, inc: bool)
    requires
        k <= es.len(),
        forall|j: int| 0 <= j < es.len() ==> entry_matches(#[trigger] es[j], ws, j as nat, inc),
    ensures
        entries_sum(es.take(k as int)) == breakdown_sum(ws, k, inc),
    decreases k,
{
    if k > 0 {
        lemma_entries_sum(es, ws, (k - 1) as nat, inc);
        assert(es.take(k as int).drop_last() == es.take(k - 1));
        assert(entry_matches(es[k - 1], ws, (k - 1) as nat, inc));
    }
}

/// Below the cap, the total is exactly the sum of the per-size counts.
pub proof fn lemma_total_is_sum_of_breakdown(
    a: CombinatorialAnalysis,
    words: Seq<Seq<char>>,
    max_words: nat,
    include_special_chars: bool,
)
    requires
        analysis_matches(a, words, max_words, include_special_chars),
        a.total_combinations < COUNT_CAP,
    ensures
        a.total_combinations == entries_sum(a.breakdown.by_word_count@),
{
    let es = a.breakdown.by_word_count@;
    lemma_entries_sum(es, dedup_first(words), es.len(), include_special_chars);
    assert(es.take(es.len() as int) == es);
}

proof fn lemma_breakdown_sum_special(ws: Seq<Seq<char>>, m: nat)
    ensures
        breakdown_sum(ws, m, false) <= breakdown_sum(ws, m, true),
    decreases m,
{
    if m > 0 {
        lemma_breakdown_sum_special(ws, (m - 1) as nat);
        let t = arrangements_total(arrangements(ws.len(), m), counts_of(ws));
        reveal_with_fuel(falling, 6);
        reveal_with_fuel(multi_padding_count, 6);
        assert(special_factor(true) == 651);
        assert(t <= 651 * t) by (nonlinear_arith);
    }
}

/// Counting the padding with special characters never lowers the total.
pub proof fn lemma_special_chars_never_decrease(
    plain: CombinatorialAnalysis,
    padded: CombinatorialAnalysis,
    words: Seq<Seq<char>>,
    max_words: nat,
)
    requires
        analysis_matches(plain, words, max_words, false),
        analysis_matches(padded, words, max_words, true),
    ensures
        plain.total_combinations <= padded.total_combinations,
{
    let uw = dedup_first(words);
    lemma_breakdown_sum_special(uw, effective_max(max_words, uw.len()));
}

proof fn lemma_breakdown_sum_grows(ws: Seq<Seq<char>>, m1: nat, m2: nat, inc: bool)
    requires
        m1 <= m2,
    ensures
        breakdown_sum(ws, m1, inc) <= breakdown_sum(ws, m2, inc),
    decreases m2,
{
    if m1 < m2 {
        lemma_breakdown_sum_grows(ws, m1, (m2 - 1) as nat, inc);
    }
}

/// Allowing more words per candidate (from at least one) never lowers the
/// total.
pub proof fn lemma_more_words_never_decrease(
    fewer: CombinatorialAnalysis,
    more: CombinatorialAnalysis,
    words: Seq<Seq<char>>,
    max_words_fewer: nat,
    max_words_more: nat,
    include_special_chars: bool,
)
    requires
        1 <= max_words_fewer <= max_words_more,
        analysis_matches(fewer, words, max_words_fewer, include_special_chars),
        analysis_matches(more, words, max_words_more, include_special_chars),
    ensures
        fewer.total_combinations <= more.total_combinations,
{
    let uw = dedup_first(words);
    lemma_breakdown_sum_grows(
        uw,
        effective_max(max_words_fewer, uw.len()),
        effective_max(max_words_more, uw.len()),
        include_special_chars,
    );
}

proof fn lemma_dedup_first_contains(s: Seq<Seq<char>>)
    ensures
        forall|x: Seq<char>| dedup_first(s).contains(x) <==> s.contains(x),
        dedup_first(s).no_duplicates(),
    decreases s.len(),
{
    if s.len() > 0 {
        let p = s.drop_last();
        lemma_dedup_first_contains(p);
        let d = dedup_first(p);
        assert forall|x: Seq<char>| dedup_first(s).contains(x) <==> s.contains(x) by {
            assert(s == p.push(s.last()));
            if s.contains(x) && !p.contains(x) {
                let i = choose|i: int| 0 <= i < s.len() && s[i] == x;
                assert(i == s.len() - 1);
            }
            if !d.contains(s.last()) && d.push(s.last()).contains(x) && !d.contains(x) {
                let i = choose|i: int| 0 <= i < d.len() + 1 && d.push(s.last())[i] == x;
                assert(i == d.len());
            }
            if p.contains(x) {
                let i = choose|i: int| 0 <= i < p.len() && p[i] == x;
                assert(s[i] == x);
            }
            if !d.contains(s.last()) && d.contains(x) {
                let i = choose|i: int| 0 <= i < d.len() && d[i] == x;
                assert(d.push(s.last())[i] == x);
            }
            if !d.contains(s.last()) && x == s.last() {
                assert(d.push(s.last())[d.len() as int] == x);
            }
        }
    }
}

proof fn lemma_dedup_first_unique(s: Seq<Seq<char>>)
    requires
        s.no_duplicates(),
    ensures
        dedup_first(s) == s,
    decreases s.len(),
{
    if s.len() > 0 {
        let p = s.drop_last();
        lemma_dedup_first_unique(p);
        assert(!p.contains(s.last())) by {
            if p.contains(s.last()) {
                let i = choose|i: int| 0 <= i < p.len() && p[i] == s.last();
                assert(s[i] == s[s.len() - 1]);
            }
        }
        assert(p.push(s.last()) == s);
    }
}

/// Repeated words change nothing: an analysis of the words is exactly an
/// analysis of the words with repetitions left out.
pub proof fn lemma_duplicates_ignored(
    a: CombinatorialAnalysis,
    words: Seq<Seq<char>>,
    max_words: nat,
    include_special_chars: bool,
)
    ensures
        analysis_matches(a, words, max_words, include_special_chars) <==> analysis_matches(
            a,
            dedup_first(words),
            max_words,
            include_special_chars,
        ),
{
    lemma_dedup_first_contains(words);
    lemma_dedup_first_unique(dedup_first(words));
}

} // verus!
