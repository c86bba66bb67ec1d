//! The assembler: for every arrangement of distinct words, the cartesian
//! product of their variants (pruned at the maximum length), filtered to
//! the length window and padded with special characters.
use vstd::prelude::*;
use vstd::string::*;
use crate::arrangements::{
    arrangements, arrangements_left, index_arrangements, lemma_completions_in_range,
    next_arrangement,
};
use crate::text::{byte_len, byte_length, lemma_sorted_unique, push_char, sorted, views};
use crate::words::{create_word_variants, variant_set};
use crate::combinatorics::{dedup_first, effective_max, unique_words};
use itertools::structs::Permutations;
use rayon::iter::{IntoParallelRefIterator, ParallelIterator};
use std::ops::Range;

verus! {

/// The special characters used for padding, in order.
pub open spec fn special_alphabet() -> Seq<char> {
    seq!['!', '@', '#', '$', '%']
}

/// The special characters used for padding.
pub fn special_chars() -> (r: Vec<char>)
    ensures
        r@ == special_alphabet(),
{
    let r = vec!['!', '@', '#', '$', '%'];
    proof {
        assert(r@ =~= special_alphabet());
    }
    r
}

/// The variant lists of the words, as sequences of strings.
pub open spec fn variant_views(variants: Seq<Vec<String>>) -> Seq<Seq<Seq<char>>> {
    variants.map_values(|v: Vec<String>| views(v@))
}

/// The variant lists of the words an arrangement selects, in its order.
pub open spec fn arrangement_lists(vv: Seq<Seq<Seq<char>>>, a: Seq<usize>) -> Seq<Seq<Seq<char>>> {
    a.map_values(|i: usize| vv[i as int])
}

/// `b` followed by each string of `vs` in turn, keeping those of at most
/// `max_len` bytes.
pub open spec fn extend_one(b: Seq<char>, vs: Seq<Seq<char>>, max_len: nat) -> Seq<Seq<char>>
    decreases vs.len(),
{
    if vs.len() == 0 {
        Seq::empty()
    } else {
        extend_one(b, vs.drop_last(), max_len) + if byte_len(b + vs.last()) <= max_len {
            seq![b + vs.last()]
        } else {
            Seq::empty()
        }
    }
}

/// `extend_one` for each of `bs` in turn.
pub open spec fn extend_all(bs: Seq<Seq<char>>, vs: Seq<Seq<char>>, max_len: nat) -> Seq<Seq<char>>
    decreases bs.len(),
{
    if bs.len() == 0 {
        Seq::empty()
    } else {
        extend_all(bs.drop_last(), vs, max_len) + extend_one(bs.last(), vs, max_len)
    }
}

/// Every concatenation of one string from each list, in order, leaving out
/// any whose partial concatenation already exceeds `max_len` bytes; one
/// empty string for no lists.
pub open spec fn pruned_product(lists: Seq<Seq<Seq<char>>>, max_len: nat) -> Seq<Seq<char>>
    decreases lists.len(),
{
    if lists.len() == 0 {
        seq![Seq::empty()]
    } else {
        extend_all(pruned_product(lists.drop_last(), max_len), lists.last(), max_len)
    }
}

/// `pruned_product`, but nothing at all for no lists.
pub open spec fn product_of(lists: Seq<Seq<Seq<char>>>, max_len: nat) -> Seq<Seq<char>> {
    if lists.len() == 0 {
        Seq::empty()
    } else {
        pruned_product(lists, max_len)
    }
}

/// `a` followed by `b`.
fn concat(a: &String, b: &String) -> (r: String)
    ensures
        r@ == a@ + b@,
{
    let mut s = a.clone();
    s.append(b.as_str());
    s
}

/// The product of the variant lists that arrangement `a` selects (see
/// `product_of`): the prefix tree is cut wherever a partial concatenation
/// is already too long; empty for an empty arrangement.
pub fn generate_cartesian_product(variants: &Vec<Vec<String>>, a: &Vec<usize>, max_len: usize) -> (r:
    Vec<String>)
    requires
        forall|t: int| 0 <= t < a@.len() ==> #[trigger] a@[t] < variants@.len(),
    ensures
        views(r@) == product_of(arrangement_lists(variant_views(variants@), a@), max_len as nat),
{
    let ghost lists = arrangement_lists(variant_views(variants@), a@);
    if a.len() == 0 {
        let r: Vec<String> = Vec::new();
        proof {
            assert(views(r@) =~= Seq::<Seq<char>>::empty());
        }
        return r;
    }
    let mut result: Vec<String> = vec![String::new()];
    proof {
        assert(views(result@) =~= pruned_product(lists.take(0), max_len as nat));
    }
    let mut t: usize = 0;
    while t < a.len()
        invariant
            lists == arrangement_lists(variant_views(variants@), a@),
            forall|x: int| 0 <= x < a@.len() ==> #[trigger] a@[x] < variants@.len(),
            t <= a@.len(),
            views(result@) == pruned_product(lists.take(t as int), max_len as nat),
        decreases a@.len() - t,
    {
        let vs = &variants[a[t]];
        let ghost vv = views(vs@);
        proof {
            assert(lists.take(t + 1).drop_last() == lists.take(t as int));
            assert(lists.take(t + 1).last() == vv);
        }
        let mut next: Vec<String> = Vec::new();
        let mut bi: usize = 0;
        while bi < result.len()
            invariant
                vv == views(vs@),
                bi <= result@.len(),
                views(next@) == extend_all(views(result@).take(bi as int), vv, max_len as nat),
            decreases result@.len() - bi,
        {
            let ghost before = views(next@);
            let mut vi: usize = 0;
            while vi < vs.len()
                invariant
                    vv == views(vs@),
                    bi < result@.len(),
                    vi <= vs@.len(),
                    views(next@) == before + extend_one(
                        result@[bi as int]@,
                        vv.take(vi as int),
                        max_len as nat,
                    ),
                decreases vs@.len() - vi,
            {
                let s = concat(&result[bi], &vs[vi]);
                let ghost prev = views(next@);
                proof {
                    assert(vv.take(vi + 1).drop_last() == vv.take(vi as int));
                    assert(vv.take(vi + 1).last() == vs@[vi as int]@);
                }
                if byte_length(s.as_str()) <= max_len {
                    next.push(s);
                    proof {
                        assert(views(next@) == prev.push(s@));
                        assert(views(next@) =~= before + extend_one(
                            result@[bi as int]@,
                            vv.take(vi + 1),
                            max_len as nat,
                        ));
                    }
                } else {
                    proof {
                        assert(views(next@) =~= before + extend_one(
                            result@[bi as int]@,
                            vv.take(vi + 1),
                            max_len as nat,
                        ));
                    }
                }
                vi = vi + 1;
            }
            proof {
                assert(vv.take(vs@.len() as int) == vv);
                assert(views(result@).take(bi + 1).drop_last() == views(result@).take(bi as int));
                assert(views(result@).take(bi + 1).last() == result@[bi as int]@);
            }
            bi = bi + 1;
        }
        proof {
            assert(views(result@).take(result@.len() as int) == views(result@));
        }
        result = next;
        t = t + 1;
    }
    proof {
        assert(lists.take(a@.len() as int) == lists);
    }
    result
}

/// The special characters an arrangement of alphabet indices selects.
pub open spec fn block(q: Seq<usize>) -> Seq<char> {
    q.map_values(|i: usize| special_alphabet()[i as int])
}

/// For each arrangement in turn: its block as a prefix, then as a suffix.
pub open spec fn arrangement_pads(b: Seq<char>, qs: Seq<Seq<usize>>) -> Seq<Seq<char>>
    decreases qs.len(),
{
    if qs.len() == 0 {
        Seq::empty()
    } else {
        arrangement_pads(b, qs.drop_last()) + seq![block(qs.last()) + b, b + block(qs.last())]
    }
}

/// The paddings of `b` with blocks of two to `j` distinct special
/// characters.
pub open spec fn multi_pads(b: Seq<char>, j: nat) -> Seq<Seq<char>>
    decreases j,
{
    if j < 2 {
        Seq::empty()
    } else {
        multi_pads(b, (j - 1) as nat) + arrangement_pads(b, arrangements(5, j))
    }
}

/// Every padding of `b`: each special character as a prefix, each as a
/// suffix, then for two to five characters every ordered arrangement of
/// distinct ones as a prefix and as a suffix.
pub open spec fn pad_forms(b: Seq<char>) -> Seq<Seq<char>> {
    special_alphabet().map_values(|c: char| seq![c] + b) + special_alphabet().map_values(
        |c: char| b + seq![c],
    ) + multi_pads(b, 5)
}

/// The string of the special characters that `q` selects.
fn block_string(q: &Vec<usize>, alphabet: &Vec<char>) -> (r: String)
    requires
        alphabet@ == special_alphabet(),
        forall|t: int| 0 <= t < q@.len() ==> #[trigger] q@[t] < 5,
    ensures
        r@ == block(q@),
{
    let mut s = String::new();
    let mut t: usize = 0;
    while t < q.len()
        invariant
            alphabet@ == special_alphabet(),
            forall|x: int| 0 <= x < q@.len() ==> #[trigger] q@[x] < 5,
            t <= q@.len(),
            s@ == block(q@).take(t as int),
        decreases q@.len() - t,
    {
        push_char(&mut s, alphabet[q[t]]);
        proof {
            assert(block(q@).take(t + 1) =~= block(q@).take(t as int).push(alphabet@[q@[t as int] as int]));
        }
        t = t + 1;
    }
    proof {
        assert(block(q@).take(q@.len() as int) =~= block(q@));
    }
    s
}

/// Every padding of `base` (see `pad_forms`), before length filtering.
pub fn padded_forms(base: &String) -> (r: Vec<String>)
    ensures
        views(r@) == pad_forms(base@),
{
    let alphabet = special_chars();
    let ghost b = base@;
    let mut out: Vec<String> = Vec::new();
    let mut i: usize = 0;
    while i < 5
        invariant
            alphabet@ == special_alphabet(),
            b == base@,
            i <= 5,
            out@.len() == i,
            forall|t: int| 0 <= t < i ==> (#[trigger] out@[t])@ == seq![special_alphabet()[t]] + b,
        decreases 5 - i,
    {
        let mut s = String::new();
        push_char(&mut s, alphabet[i]);
        s.append(base.as_str());
        out.push(s);
        i = i + 1;
    }
    let ghost prefixes = special_alphabet().map_values(|c: char| seq![c] + b);
    proof {
        assert(views(out@) =~= prefixes);
    }
    i = 0;
    while i < 5
        invariant
            alphabet@ == special_alphabet(),
            b == base@,
            i <= 5,
            out@.len() == 5 + i,
            forall|t: int| 0 <= t < 5 ==> (#[trigger] out@[t])@ == prefixes[t],
            forall|t: int| 5 <= t < 5 + i ==> (#[trigger] out@[t])@ == b + seq![special_alphabet()[t - 5]],
        decreases 5 - i,
    {
        let mut s = base.clone();
        push_char(&mut s, alphabet[i]);
        out.push(s);
        i = i + 1;
    }
    let ghost singles = prefixes + special_alphabet().map_values(|c: char| b + seq![c]);
    proof {
        assert(views(out@) =~= singles);
        assert(views(out@) =~= singles + multi_pads(b, 1));
    }
    let mut j: usize = 2;
    while j <= 5
        invariant
            alphabet@ == special_alphabet(),
            b == base@,
            2 <= j <= 6,
            views(out@) == singles + multi_pads(b, (j - 1) as nat),
        decreases 6 - j,
    {
        let ghost all = arrangements(5, j as nat);
        let ghost head = views(out@);
        proof {
            lemma_completions_in_range(5, j as nat, Seq::empty());
            assert(head + arrangement_pads(b, all.take(0)) =~= head);
        }
        let mut it = index_arrangements(5, j);
        let ghost mut done: int = 0;
        loop
            invariant
                alphabet@ == special_alphabet(),
                b == base@,
                all == arrangements(5, j as nat),
                forall|a: int, x: int|
                    0 <= a < all.len() && 0 <= x < all[a].len() ==> #[trigger] all[a][x] < 5,
                0 <= done <= all.len(),
                arrangements_left(it) == all.subrange(done, all.len() as int),
                views(out@) == head + arrangement_pads(b, all.take(done)),
            ensures
                views(out@) == head + arrangement_pads(b, all),
            decreases arrangements_left(it).len(),
        {
            match next_arrangement(&mut it) {
                None => {
                    proof {
                        assert(all.take(done) == all);
                    }
                    break;
                },
                Some(q) => {
                    proof {
                        assert(q@ == all[done]);
                        assert forall|t: int| 0 <= t < q@.len() implies #[trigger] q@[t] < 5 by {
                            assert(all[done][t] < 5);
                        }
                    }
                    let blk = block_string(&q, &alphabet);
                    let ghost prev = views(out@);
                    out.push(concat(&blk, base));
                    out.push(concat(base, &blk));
                    proof {
                        assert(all.take(done + 1).drop_last() == all.take(done));
                        assert(all.take(done + 1).last() == q@);
                        assert(views(out@) =~= prev + seq![block(q@) + b, b + block(q@)]);
                        assert(all.subrange(done + 1, all.len() as int) == all.subrange(
                            done,
                            all.len() as int,
                        ).drop_first());
                        done = done + 1;
                    }
                },
            }
        }
        j = j + 1;
    }
    proof {
        assert(views(out@) =~= pad_forms(b));
    }
    out
}

/// Whether a length (in bytes) lies in `[min_len, max_len]`.
pub open spec fn in_window(len: nat, min_len: nat, max_len: nat) -> bool {
    min_len <= len <= max_len
}

/// The paddings of `b` whose length in bytes lies in the window.
pub open spec fn pads_in_window(b: Seq<char>, min_len: nat, max_len: nat) -> Seq<Seq<char>> {
    pad_forms(b).filter(|s: Seq<char>| in_window(byte_len(s), min_len, max_len))
}

/// What one base string contributes: nothing when it lies outside the
/// window; else itself and, with padding, each of its paddings that lies in
/// the window.
pub open spec fn base_outputs(b: Seq<char>, min_len: nat, max_len: nat, pad: bool) -> Seq<
    Seq<char>,
> {
    if !in_window(byte_len(b), min_len, max_len) {
        Seq::empty()
    } else if pad {
        seq![b] + pads_in_window(b, min_len, max_len)
    } else {
        seq![b]
    }
}

/// `base_outputs` for each base in turn.
pub open spec fn outputs_of(bases: Seq<Seq<char>>, min_len: nat, max_len: nat, pad: bool) -> Seq<
    Seq<char>,
>
    decreases bases.len(),
{
    if bases.len() == 0 {
        Seq::empty()
    } else {
        outputs_of(bases.drop_last(), min_len, max_len, pad) + base_outputs(
            bases.last(),
            min_len,
            max_len,
            pad,
        )
    }
}

/// The candidates of one arrangement, in order.
pub open spec fn arrangement_candidates(
    vv: Seq<Seq<Seq<char>>>,
    a: Seq<usize>,
    min_len: nat,
    max_len: nat,
    pad: bool,
) -> Seq<Seq<char>> {
    outputs_of(product_of(arrangement_lists(vv, a), max_len), min_len, max_len, pad)
}

/// Appends the paddings of `base` whose length in bytes lies in the
/// window, in the order of `pad_forms`.
fn add_special_char_variations(out: &mut Vec<String>, base: &String, min_len: usize, max_len: usize)
    ensures
        views(final(out)@) == views(old(out)@) + pads_in_window(
            base@,
            min_len as nat,
            max_len as nat,
        ),
{
    let ghost head = views(out@);
    let pads = padded_forms(base);
    let ghost pv = views(pads@);
    let ghost pred = |s: Seq<char>| in_window(byte_len(s), min_len as nat, max_len as nat);
    let mut i: usize = 0;
    proof {
        assert(pv.take(0).filter(pred) =~= Seq::<Seq<char>>::empty());
        assert(views(out@) =~= head + pv.take(0).filter(pred));
    }
    while i < pads.len()
        invariant
            pv == views(pads@),
            i <= pads@.len(),
            pred == (|s: Seq<char>| in_window(byte_len(s), min_len as nat, max_len as nat)),
            views(out@) == head + pv.take(i as int).filter(pred),
        decreases pads@.len() - i,
    {
        let l = byte_length(pads[i].as_str());
        proof {
            assert(pv.take(i + 1) == pv.take(i as int).push(pv[i as int]));
            pv.take(i as int).lemma_filter_push(pv[i as int], pred);
        }
        if min_len <= l && l <= max_len {
            let ghost prev = views(out@);
            out.push(pads[i].clone());
            proof {
                assert(views(out@) == prev.push(pads@[i as int]@));
            }
        }
        i = i + 1;
    }
    proof {
        assert(pv.take(pads@.len() as int) == pv);
        assert(views(out@) =~= head + pads_in_window(base@, min_len as nat, max_len as nat));
    }
}

/// Every candidate of one arrangement (see `arrangement_candidates`).
pub fn generate_word_combinations(
    variants: &Vec<Vec<String>>,
    a: &Vec<usize>,
    min_len: usize,
    max_len: usize,
    pad: bool,
) -> (r: Vec<String>)
    requires
        forall|t: int| 0 <= t < a@.len() ==> #[trigger] a@[t] < variants@.len(),
    ensures
        views(r@) == arrangement_candidates(
            variant_views(variants@),
            a@,
            min_len as nat,
            max_len as nat,
            pad,
        ),
{
    let bases = generate_cartesian_product(variants, a, max_len);
    let ghost bv = views(bases@);
    let mut out: Vec<String> = Vec::new();
    let mut i: usize = 0;
    proof {
        assert(views(out@) =~= outputs_of(bv.take(0), min_len as nat, max_len as nat, pad));
    }
    while i < bases.len()
        invariant
            bv == views(bases@),
            i <= bases@.len(),
            views(out@) == outputs_of(bv.take(i as int), min_len as nat, max_len as nat, pad),
        decreases bases@.len() - i,
    {
        let ghost prev = views(out@);
        let ghost b = bases@[i as int]@;
        let len = byte_length(bases[i].as_str());
        if min_len <= len && len <= max_len {
            out.push(bases[i].clone());
            if pad {
                add_special_char_variations(&mut out, &bases[i], min_len, max_len);
            }
        }
        proof {
            assert(views(out@) =~= prev + base_outputs(b, min_len as nat, max_len as nat, pad));
            assert(bv.take(i + 1).drop_last() == bv.take(i as int));
            assert(bv.take(i + 1).last() == bases@[i as int]@);
        }
        i = i + 1;
    }
    proof {
        assert(bv.take(bases@.len() as int) == bv);
    }
    out
}

/// The arrangements of one word, then of two, up to `m` words.
pub open spec fn schedule(n: nat, m: nat) -> Seq<Seq<usize>>
    decreases m,
{
    if m == 0 {
        Seq::empty()
    } else {
        schedule(n, (m - 1) as nat) + arrangements(n, m)
    }
}

/// The candidates of each arrangement in turn.
pub open spec fn stream_of(
    vv: Seq<Seq<Seq<char>>>,
    s: Seq<Seq<usize>>,
    min_len: nat,
    max_len: nat,
    pad: bool,
) -> Seq<Seq<char>>
    decreases s.len(),
{
    if s.len() == 0 {
        Seq::empty()
    } else {
        stream_of(vv, s.drop_last(), min_len, max_len, pad) + arrangement_candidates(
            vv,
            s.last(),
            min_len,
            max_len,
            pad,
        )
    }
}

/// The first `limit` items of `s` (all of them when `limit == 0`).
pub open spec fn limited(s: Seq<Seq<char>>, limit: nat) -> Seq<Seq<char>> {
    if limit > 0 && s.len() > limit {
        s.take(limit as int)
    } else {
        s
    }
}

/// The whole output of a run over the given variant lists: the candidates
/// of every arrangement of one to `m` words, in order, cut after `limit`.
pub open spec fn expected_output(
    vv: Seq<Seq<Seq<char>>>,
    m: nat,
    min_len: nat,
    max_len: nat,
    pad: bool,
    limit: nat,
) -> Seq<Seq<char>> {
    limited(stream_of(vv, schedule(vv.len(), m), min_len, max_len, pad), limit)
}

proof fn lemma_schedule_prefix(n: nat, k: nat, m: nat)
    requires
        k <= m,
    ensures
        schedule(n, m).take(schedule(n, k).len() as int) == schedule(n, k),
        schedule(n, k).len() <= schedule(n, m).len(),
    decreases m,
{
    if k < m {
        lemma_schedule_prefix(n, k, (m - 1) as nat);
        let a = schedule(n, (m - 1) as nat);
        assert((a + arrangements(n, m)).take(schedule(n, k).len() as int) == a.take(
            schedule(n, k).len() as int,
        ));
    } else {
        assert(schedule(n, m).take(schedule(n, m).len() as int) == schedule(n, m));
    }
}

proof fn lemma_stream_prefix(
    vv: Seq<Seq<Seq<char>>>,
    s: Seq<Seq<usize>>,
    c: int,
    min_len: nat,
    max_len: nat,
    pad: bool,
)
    requires
        0 <= c <= s.len(),
    ensures
        stream_of(vv, s.take(c), min_len, max_len, pad).len() <= stream_of(vv, s, min_len, max_len, pad).len(),
        stream_of(vv, s, min_len, max_len, pad).take(
            stream_of(vv, s.take(c), min_len, max_len, pad).len() as int,
        ) == stream_of(vv, s.take(c), min_len, max_len, pad),
    decreases s.len(),
{
    let whole = stream_of(vv, s, min_len, max_len, pad);
    if c < s.len() {
        lemma_stream_prefix(vv, s.drop_last(), c, min_len, max_len, pad);
        assert(s.drop_last().take(c) == s.take(c));
        let front = stream_of(vv, s.drop_last(), min_len, max_len, pad);
        let part = stream_of(vv, s.take(c), min_len, max_len, pad);
        assert(whole.take(part.len() as int) =~= front.take(part.len() as int));
    } else {
        assert(s.take(c) == s);
        assert(whole.take(whole.len() as int) == whole);
    }
}

/// Relies on rayon's `par_iter().map(..).collect()` into a `Vec`, which
/// keeps the order of the input: item `i` is `create_word_variants` of
/// word `i`, whose contract is restated here.
#[verifier::external_body]
fn expand_words(words: &Vec<String>) -> (r: Vec<Vec<String>>)
    ensures
        r@.len() == words@.len(),
        forall|i: int|
            0 <= i < r@.len() ==> sorted(views(#[trigger] r@[i]@)) && views(r@[i]@).no_duplicates()
                && views(r@[i]@).to_set() == variant_set(words@[i]@),
{
    words.par_iter().map(|w| create_word_variants(w.as_str())).collect()
}

/// Each list holds exactly the variants of the word at its place, sorted,
/// each once.
pub open spec fn lists_match(lists: Seq<Seq<Seq<char>>>, words: Seq<Seq<char>>) -> bool {
    &&& lists.len() == words.len()
    &&& forall|i: int|
        0 <= i < lists.len() ==> sorted(#[trigger] lists[i]) && lists[i].no_duplicates()
            && lists[i].to_set() == variant_set(words[i])
}

/// What a generation run is asked.
pub struct GeneratorConfig {
    /// The length window, in UTF-8 bytes.
    pub min_len: usize,
    pub max_len: usize,
    /// Stop after this many candidates (0: no limit).
    pub limit: usize,
    pub output_file: String,
    pub chunk_size: usize,
    pub quiet: bool,
    pub append: bool,
    /// The largest combination size (0: no limit).
    pub max_words: usize,
    pub no_special_chars: bool,
}

/// The generation process: yields the candidates one arrangement at a
/// time, so that the caller can write them out as they come.
pub struct Assembler {
    variants: Vec<Vec<String>>,
    min_len: usize,
    max_len: usize,
    pad: bool,
    limit: usize,
    max_k: usize,
    k: usize,
    perms: Permutations<Range<usize>>,
    emitted: usize,
    finished: bool,
    consumed: Ghost<nat>,
    produced: Ghost<Seq<Seq<char>>>,
    words: Ghost<Seq<Seq<char>>>,
}

impl Assembler {
    /// The distinct words, in their first order.
    pub closed spec fn word_views(&self) -> Seq<Seq<char>> {
        self.words@
    }

    /// The variant lists of the words.
    pub closed spec fn variant_lists(&self) -> Seq<Seq<Seq<char>>> {
        variant_views(self.variants@)
    }

    /// The number of words combined in the current arrangements.
    pub closed spec fn size(&self) -> nat {
        self.k as nat
    }

    /// The number of words combined in the current arrangements.
    pub fn combination_size(&self) -> (r: usize)
        ensures
            r == self.size(),
    {
        self.k
    }

    /// Every candidate yielded so far, in order.
    pub closed spec fn produced(&self) -> Seq<Seq<char>> {
        self.produced@
    }

    /// The arrangements not yet consumed, plus one for the final `None`;
    /// zero once the run is over.
    pub closed spec fn remaining(&self) -> nat {
        if self.finished {
            0
        } else {
            (schedule(self.variants@.len(), self.max_k as nat).len() - self.consumed@ + 1) as nat
        }
    }

    /// What was yielded so far begins the output of the whole run.
    pub open spec fn on_track(&self) -> bool {
        self.expected().take(self.produced().len() as int) == self.produced()
    }

    /// The output of the whole run.
    pub closed spec fn expected(&self) -> Seq<Seq<char>> {
        expected_output(
            variant_views(self.variants@),
            self.max_k as nat,
            self.min_len as nat,
            self.max_len as nat,
            self.pad,
            self.limit as nat,
        )
    }

    /// The state is consistent: what was yielded is the output of the
    /// arrangements consumed so far, and the iterator holds the rest.
    pub closed spec fn wf(&self) -> bool {
        let n = self.variants@.len();
        let vv = variant_views(self.variants@);
        let full = schedule(n, self.max_k as nat);
        let before = schedule(n, (self.k - 1) as nat).len();
        let here = arrangements(n, self.k as nat);
        &&& self.words@.len() == n
        &&& forall|i: int|
            0 <= i < n ==> sorted(views(#[trigger] self.variants@[i]@)) && views(
                self.variants@[i]@,
            ).no_duplicates() && views(self.variants@[i]@).to_set() == variant_set(self.words@[i])
        &&& 1 <= self.k <= self.max_k <= n
        &&& before <= self.consumed@ <= before + here.len()
        &&& self.consumed@ <= full.len()
        &&& arrangements_left(self.perms) == here.subrange(
            self.consumed@ - before,
            here.len() as int,
        )
        &&& forall|a: int, j: int|
            0 <= a < here.len() && 0 <= j < here[a].len() ==> #[trigger] here[a][j] < n
        &&& self.produced@ == limited(
            stream_of(
                vv,
                full.take(self.consumed@ as int),
                self.min_len as nat,
                self.max_len as nat,
                self.pad,
            ),
            self.limit as nat,
        )
        &&& self.limit > 0 ==> self.emitted == self.produced@.len()
        &&& !self.finished ==> (self.limit == 0 || self.emitted < self.limit)
        &&& self.finished ==> self.produced@ == self.expected()
    }

    proof fn lemma_on_track(&self)
        requires
            self.wf(),
        ensures
            self.on_track(),
    {
        let vv = variant_views(self.variants@);
        let full = schedule(self.variants@.len(), self.max_k as nat);
        let c = self.consumed@ as int;
        let lo = self.min_len as nat;
        let hi = self.max_len as nat;
        lemma_stream_prefix(vv, full, c, lo, hi, self.pad);
        let sp = stream_of(vv, full.take(c), lo, hi, self.pad);
        let sf = stream_of(vv, full, lo, hi, self.pad);
        let l = self.limit as nat;
        if l > 0 && sp.len() > l {
            assert(sp.take(l as int) =~= sf.take(l as int));
            assert(sf.len() > l);
            assert(self.expected() == sf.take(l as int));
            assert(self.expected().take(l as int) =~= sf.take(l as int));
        } else if l > 0 && sf.len() > l {
            assert(self.expected() == sf.take(l as int));
            assert(self.expected().take(sp.len() as int) =~= sf.take(sp.len() as int));
        } else {
            assert(self.expected() == sf);
        }
    }

    /// Starts a run over `words` (repetitions left out). Fails when there
    /// are no words or `min_len > max_len`.
    pub fn new(words: &[String], config: &GeneratorConfig) -> (r: Result<Assembler, String>)
        ensures
            r is Err <==> words@.len() == 0 || config.min_len > config.max_len,
            r is Ok ==> ({
                let a = r->Ok_0;
                &&& a.wf()
                &&& a.on_track()
                &&& a.remaining() > 0
                &&& a.produced().len() == 0
                &&& a.word_views() == dedup_first(views(words@))
                &&& lists_match(a.variant_lists(), a.word_views())
                &&& a.expected() == expected_output(
                    a.variant_lists(),
                    effective_max(config.max_words as nat, a.word_views().len()),
                    config.min_len as nat,
                    config.max_len as nat,
                    !config.no_special_chars,
                    config.limit as nat,
                )
            }),
    {
        if words.len() == 0 {
            return Err("No words provided".to_owned());
        }
        if config.min_len > config.max_len {
            return Err("The minimum length exceeds the maximum length".to_owned());
        }
        let unique = unique_words(words);
        let variants = expand_words(&unique);
        let n = variants.len();
        proof {
            assert(words@.len() > 0 ==> dedup_first(views(words@)).len() > 0) by {
                let ws = views(words@);
                if ws.len() > 0 {
                    lemma_dedup_first_nonempty(ws);
                }
            }
        }
        let max_k = if config.max_words == 0 || config.max_words > n {
            n
        } else {
            config.max_words
        };
        proof {
            lemma_completions_in_range(n as nat, 1, Seq::empty());
        }
        let perms = index_arrangements(n, 1);
        let a = Assembler {
            variants,
            min_len: config.min_len,
            max_len: config.max_len,
            pad: !config.no_special_chars,
            limit: config.limit,
            max_k,
            k: 1,
            perms,
            emitted: 0,
            finished: false,
            consumed: Ghost(0),
            produced: Ghost(Seq::empty()),
            words: Ghost(views(unique@)),
        };
        proof {
            let vl = variant_views(a.variants@);
            assert forall|i: int| 0 <= i < vl.len() implies sorted(#[trigger] vl[i])
                && vl[i].no_duplicates() && vl[i].to_set() == variant_set(a.words@[i]) by {
                assert(vl[i] == views(a.variants@[i]@));
            }
            let full = schedule(n as nat, max_k as nat);
            assert(full.take(0) =~= Seq::<Seq<usize>>::empty());
            assert(a.expected().take(0) =~= a.produced());
            assert(schedule(n as nat, 0).len() == 0);
            assert(arrangements(n as nat, 1).subrange(0, arrangements(n as nat, 1).len() as int)
                == arrangements(n as nat, 1));
        }
        Ok(a)
    }

    /// The candidates of the next arrangement, cut where the limit is
    /// reached; `None` once the run is over, when all that was yielded is
    /// the output of the whole run.
    #[verifier::rlimit(40)]
    pub fn next_batch(&mut self) -> (r: Option<Vec<String>>)
        requires
            old(self).wf(),
        ensures
            final(self).wf(),
            final(self).on_track(),
            old(self).remaining() == 0 ==> r is None,
            r is Some ==> final(self).remaining() < old(self).remaining(),
            r is None ==> final(self).remaining() == 0,
            final(self).expected() == old(self).expected(),
            final(self).word_views() == old(self).word_views(),
            final(self).variant_lists() == old(self).variant_lists(),
            r is None ==> final(self).produced() == old(self).produced() && final(self).produced()
                == final(self).expected(),
            r is Some ==> final(self).produced() == old(self).produced() + views(r->Some_0@),
    {
        if self.finished {
            proof {
                self.lemma_on_track();
            }
            return None;
        }
        let n = self.variants.len();
        let ghost vv = variant_views(self.variants@);
        let ghost full = schedule(n as nat, self.max_k as nat);
        let ghost start = *self;
        proof {
            assert(old(self).remaining() == full.len() - start.consumed@ + 1);
        }
        loop
            invariant
                self.wf(),
                !self.finished,
                n == self.variants@.len(),
                vv == variant_views(self.variants@),
                full == schedule(n as nat, self.max_k as nat),
                self.variants == start.variants,
                self.words == start.words,
                self.max_k == start.max_k,
                self.min_len == start.min_len,
                self.max_len == start.max_len,
                self.pad == start.pad,
                self.limit == start.limit,
                self.produced == start.produced,
                self.consumed == start.consumed,
                start == *old(self),
                old(self).remaining() == full.len() - start.consumed@ + 1,
            decreases self.max_k - self.k, arrangements_left(self.perms).len(),
        {
            let ghost before = schedule(n as nat, (self.k - 1) as nat).len();
            let ghost here = arrangements(n as nat, self.k as nat);
            let ghost c = self.consumed@;
            proof {
                lemma_schedule_prefix(n as nat, self.k as nat, self.max_k as nat);
                assert(schedule(n as nat, self.k as nat) == schedule(n as nat, (self.k - 1) as nat)
                    + here);
            }
            match next_arrangement(&mut self.perms) {
                None => {
                    proof {
                        assert(c == schedule(n as nat, self.k as nat).len());
                        assert(arrangements_left(self.perms) =~= here.subrange(
                            c - before,
                            here.len() as int,
                        ));
                    }
                    if self.k >= self.max_k {
                        self.finished = true;
                        proof {
                            assert(full.take(c as int) == full);
                            assert(self.produced@ == self.expected());
                            assert(self.expected() == start.expected());
                            self.lemma_on_track();
                        }
                        return None;
                    }
                    self.k = self.k + 1;
                    proof {
                        lemma_completions_in_range(n as nat, self.k as nat, Seq::empty());
                        let nh = arrangements(n as nat, self.k as nat);
                        assert(nh.subrange(0, nh.len() as int) == nh);
                    }
                    self.perms = index_arrangements(n, self.k);
                },
                Some(a) => {
                    proof {
                        assert(a@ == here[c - before]);
                        let sk = schedule(n as nat, self.k as nat);
                        assert(sk[c as int] == here[c - before]);
                        assert(full.take(sk.len() as int)[c as int] == full[c as int]);
                        assert(full[c as int] == a@);
                        assert(full.take(c + 1 as int).drop_last() == full.take(c as int));
                        assert forall|t: int| 0 <= t < a@.len() implies #[trigger] a@[t] < n by {
                            assert(here[c - before][t] < n);
                        }
                    }
                    let mut batch = generate_word_combinations(
                        &self.variants,
                        &a,
                        self.min_len,
                        self.max_len,
                        self.pad,
                    );
                    let ghost cands = views(batch@);
                    let ghost s_old = stream_of(
                        vv,
                        full.take(c as int),
                        self.min_len as nat,
                        self.max_len as nat,
                        self.pad,
                    );
                    let ghost s_new = stream_of(
                        vv,
                        full.take(c + 1 as int),
                        self.min_len as nat,
                        self.max_len as nat,
                        self.pad,
                    );
                    proof {
                        assert(s_new == s_old + cands);
                        assert(self.produced@ == s_old);
                    }
                    if self.limit > 0 {
                        let room = self.limit - self.emitted;
                        if batch.len() > room {
                            batch.truncate(room);
                        }
                        self.emitted = self.emitted + batch.len();
                    }
                    proof {
                        assert(views(batch@) == cands.take(views(batch@).len() as int));
                        let np = self.produced@ + views(batch@);
                        assert(np =~= limited(s_new, self.limit as nat));
                        self.produced = Ghost(np);
                        self.consumed = Ghost(c + 1);
                        assert(arrangements_left(self.perms) == here.subrange(
                            c + 1 - before,
                            here.len() as int,
                        ));
                    }
                    if self.limit > 0 && self.emitted == self.limit {
                        self.finished = true;
                        proof {
                            lemma_stream_prefix(
                                vv,
                                full,
                                c + 1 as int,
                                self.min_len as nat,
                                self.max_len as nat,
                                self.pad,
                            );
                            assert(self.produced@ =~= self.expected());
                        }
                    }
                    proof {
                        assert(self.expected() == start.expected());
                        lemma_schedule_prefix(n as nat, self.k as nat, self.max_k as nat);
                        self.lemma_on_track();
                    }
                    return Some(batch);
                },
            }
        }
    }
}

proof fn lemma_dedup_first_nonempty(s: Seq<Seq<char>>)
    requires
        s.len() > 0,
    ensures
        dedup_first(s).len() > 0,
    decreases s.len(),
{
    if s.len() > 1 {
        lemma_dedup_first_nonempty(s.drop_last());
    }
}

/// Generation is repeatable: two runs over the same words, with the same
/// configuration, produce the same candidates in the same order.
pub proof fn lemma_runs_agree(
    a1: Assembler,
    a2: Assembler,
    max_words: nat,
    min_len: nat,
    max_len: nat,
    pad: bool,
    limit: nat,
)
    requires
        lists_match(a1.variant_lists(), a1.word_views()),
        lists_match(a2.variant_lists(), a2.word_views()),
        a1.word_views() == a2.word_views(),
        a1.expected() == expected_output(
            a1.variant_lists(),
            effective_max(max_words, a1.word_views().len()),
            min_len,
            max_len,
            pad,
            limit,
        ),
        a2.expected() == expected_output(
            a2.variant_lists(),
            effective_max(max_words, a2.word_views().len()),
            min_len,
            max_len,
            pad,
            limit,
        ),
    ensures
        a1.variant_lists() == a2.variant_lists(),
        a1.expected() == a2.expected(),
{
    let v1 = a1.variant_lists();
    let v2 = a2.variant_lists();
    assert forall|i: int| 0 <= i < v1.len() implies v1[i] == v2[i] by {
        assert(sorted(v1[i]));
        assert(sorted(v2[i]));
        lemma_sorted_unique(v1[i], v2[i]);
    }
    assert(v1 =~= v2);
}

} // verus!
