//! Variants of one word: every subset of leet substitutions, each in three
//! case forms, sorted and deduplicated.
use vstd::prelude::*;
use vstd::arithmetic::power2::*;
use vstd::string::*;
use rayon::iter::{IntoParallelRefIterator, ParallelIterator};
use crate::text::{
    alphabetic, is_alphabetic, lower_of, lowercase, push_char, sort_dedup, sorted, upper_char_of,
    upper_of, uppercase, uppercase_char, views,
};

verus! {

/// The leet alphabet: `a→4, e→3, i→1, l→1, o→0, s→5`.
pub open spec fn leet_sub(c: char) -> Option<char> {
    if c == 'a' {
        Some('4')
    } else if c == 'e' {
        Some('3')
    } else if c == 'i' {
        Some('1')
    } else if c == 'l' {
        Some('1')
    } else if c == 'o' {
        Some('0')
    } else if c == 's' {
        Some('5')
    } else {
        None
    }
}

/// How many characters of `w` have a leet substitute.
pub open spec fn leet_count(w: Seq<char>) -> nat
    decreases w.len(),
{
    if w.len() == 0 {
        0
    } else {
        (if leet_sub(w[0]) is Some { 1nat } else { 0nat }) + leet_count(w.drop_first())
    }
}

/// `w` with the substitutable characters replaced as the bits of `mask`
/// say: bit `b` stands for the `b`-th substitutable character from the left.
pub open spec fn leet_apply(w: Seq<char>, mask: nat) -> Seq<char>
    decreases w.len(),
{
    if w.len() == 0 {
        w
    } else {
        match leet_sub(w[0]) {
            Some(t) => seq![if mask % 2 == 1 { t } else { w[0] }] + leet_apply(
                w.drop_first(),
                mask / 2,
            ),
            None => seq![w[0]] + leet_apply(w.drop_first(), mask),
        }
    }
}

/// How many leet forms the leet stage makes of `w`: one per subset of the
/// substitutable characters; with 64 or more of them, only `w` itself.
pub open spec fn leet_form_count(w: Seq<char>) -> nat {
    if leet_count(w) < 64 {
        pow2(leet_count(w))
    } else {
        1
    }
}

/// `s` with its first alphabetic character in upper case.
pub open spec fn capitalized(s: Seq<char>) -> Seq<char>
    decreases s.len(),
{
    if s.len() == 0 {
        s
    } else if alphabetic(s[0]) {
        upper_char_of(s[0]) + s.drop_first()
    } else {
        seq![s[0]] + capitalized(s.drop_first())
    }
}

/// The three case forms of a leet form: as it is (lower case), with the
/// first alphabetic character upper-cased, and all upper case.
pub open spec fn case_forms(f: Seq<char>) -> Seq<Seq<char>> {
    seq![f, capitalized(f), upper_of(f)]
}

/// The case forms of the first `m` leet forms of `w`, in order.
pub open spec fn raw_forms_upto(w: Seq<char>, m: nat) -> Seq<Seq<char>>
    decreases m,
{
    if m == 0 {
        Seq::empty()
    } else {
        raw_forms_upto(w, (m - 1) as nat) + case_forms(leet_apply(w, (m - 1) as nat))
    }
}

/// Every case form of every leet form of the lower-cased word, before
/// duplicates are removed.
pub open spec fn raw_forms(word: Seq<char>) -> Seq<Seq<char>> {
    raw_forms_upto(lower_of(word), leet_form_count(lower_of(word)))
}

/// The distinct variants of a word.
pub open spec fn variant_set(word: Seq<char>) -> Set<Seq<char>> {
    raw_forms(word).to_set()
}

/// The leet substitute of a character, if it has one.
pub fn leet_replacement(c: char) -> (r: Option<char>)
    ensures
        r == leet_sub(c),
{
    if c == 'a' {
        Some('4')
    } else if c == 'e' {
        Some('3')
    } else if c == 'i' {
        Some('1')
    } else if c == 'l' {
        Some('1')
    } else if c == 'o' {
        Some('0')
    } else if c == 's' {
        Some('5')
    } else {
        None
    }
}

/// The characters of a string.
pub fn chars_of(s: &str) -> (r: Vec<char>)
    ensures
        r@ == s@,
{
    let n = s.unicode_len();
    let mut out: Vec<char> = Vec::new();
    let mut i: usize = 0;
    while i < n
        invariant
            n == s@.len(),
            i <= n,
            out@ == s@.subrange(0, i as int),
        decreases n - i,
    {
        out.push(s.get_char(i));
        i = i + 1;
    }
    out
}

/// The string made of the given characters.
pub fn string_of(cs: &Vec<char>) -> (r: String)
    ensures
        r@ == cs@,
{
    let mut out = String::new();
    let mut i: usize = 0;
    while i < cs.len()
        invariant
            i <= cs@.len(),
            out@ == cs@.subrange(0, i as int),
        decreases cs@.len() - i,
    {
        push_char(&mut out, cs[i]);
        proof {
            assert(cs@.subrange(0, i + 1) == cs@.subrange(0, i as int).push(cs@[i as int]));
        }
        i = i + 1;
    }
    proof {
        assert(cs@.subrange(0, cs@.len() as int) == cs@);
    }
    out
}

proof fn lemma_suffix_step(w: Seq<char>, i: int)
    requires
        0 <= i < w.len(),
    ensures
        w.subrange(i, w.len() as int)[0] == w[i],
        w.subrange(i, w.len() as int).drop_first() == w.subrange(i + 1, w.len() as int),
{
    assert(w.subrange(i, w.len() as int).drop_first() =~= w.subrange(i + 1, w.len() as int));
}

/// The number of characters of `cs` that have a leet substitute.
pub fn count_leetable(cs: &Vec<char>) -> (r: usize)
    ensures
        r == leet_count(cs@),
{
    let n = cs.len();
    let mut count: usize = 0;
    let mut i: usize = 0;
    proof {
        assert(cs@.subrange(0, n as int) == cs@);
    }
    while i < n
        invariant
            n == cs@.len(),
            i <= n,
            count <= i,
            count + leet_count(cs@.subrange(i as int, n as int)) == leet_count(cs@),
        decreases n - i,
    {
        proof {
            lemma_suffix_step(cs@, i as int);
        }
        if leet_replacement(cs[i]).is_some() {
            count = count + 1;
        }
        i = i + 1;
    }
    proof {
        assert(cs@.subrange(n as int, n as int).len() == 0);
    }
    count
}

/// `cs` with the substitutions that the bits of `mask` select.
pub fn apply_leet_mask(cs: &Vec<char>, mask: u64) -> (r: Vec<char>)
    ensures
        r@ == leet_apply(cs@, mask as nat),
{
    let n = cs.len();
    let mut out: Vec<char> = Vec::new();
    let mut bits: u64 = mask;
    let mut i: usize = 0;
    proof {
        assert(cs@.subrange(0, n as int) == cs@);
        assert(out@ + leet_apply(cs@, mask as nat) =~= leet_apply(cs@, mask as nat));
    }
    while i < n
        invariant
            n == cs@.len(),
            i <= n,
            out@ + leet_apply(cs@.subrange(i as int, n as int), bits as nat) == leet_apply(
                cs@,
                mask as nat,
            ),
        decreases n - i,
    {
        proof {
            lemma_suffix_step(cs@, i as int);
        }
        let ghost rest = cs@.subrange(i + 1, n as int);
        let c = cs[i];
        match leet_replacement(c) {
            Some(t) => {
                let ghost b = bits as nat;
                if bits % 2 == 1 {
                    out.push(t);
                } else {
                    out.push(c);
                }
                bits = bits / 2;
                proof {
                    assert(out@ + leet_apply(rest, bits as nat) =~= (out@.drop_last() + seq![
                        out@.last(),
                    ]) + leet_apply(rest, bits as nat));
                    assert(out@.drop_last() + leet_apply(cs@.subrange(i as int, n as int), b)
                        =~= out@ + leet_apply(rest, bits as nat));
                }
            },
            None => {
                out.push(c);
                proof {
                    assert(out@.drop_last() + leet_apply(cs@.subrange(i as int, n as int), bits as nat)
                        =~= out@ + leet_apply(rest, bits as nat));
                }
            },
        }
        i = i + 1;
    }
    proof {
        assert(out@ + leet_apply(cs@.subrange(n as int, n as int), bits as nat) =~= out@);
    }
    out
}

/// `2^e` as a `u64`.
pub fn pow2_u64(e: u64) -> (r: u64)
    requires
        e < 64,
    ensures
        r == pow2(e as nat),
{
    let mut r: u64 = 1;
    let mut i: u64 = 0;
    proof {
        lemma2_to64();
    }
    while i < e
        invariant
            i <= e < 64,
            r == pow2(i as nat),
        decreases e - i,
    {
        proof {
            lemma_pow2_unfold((i + 1) as nat);
            lemma_pow2_strictly_increases(i as nat, 63);
            lemma2_to64_rest();
            assert(r < 0x8000000000000000);
        }
        r = r * 2;
        i = i + 1;
    }
    r
}

proof fn lemma_capitalized_from(w: Seq<char>, i: int)
    requires
        0 <= i < w.len(),
        alphabetic(w[i]),
    ensures
        capitalized(w.subrange(i, w.len() as int)) == upper_char_of(w[i]) + w.subrange(
            i + 1,
            w.len() as int,
        ),
{
    lemma_suffix_step(w, i);
}

/// `word` with its first alphabetic character upper-cased; unchanged when it
/// has none.
pub fn capitalize_word(word: &str) -> (r: String)
    ensures
        r@ == capitalized(word@),
{
    let cs = chars_of(word);
    let n = cs.len();
    let mut out = String::new();
    let mut i: usize = 0;
    proof {
        assert(cs@.subrange(0, n as int) == cs@);
        assert(out@ + capitalized(cs@) =~= capitalized(cs@));
    }
    while i < n
        invariant
            n == cs@.len(),
            cs@ == word@,
            i <= n,
            out@ + capitalized(cs@.subrange(i as int, n as int)) == capitalized(cs@),
        decreases n - i,
    {
        proof {
            lemma_suffix_step(cs@, i as int);
        }
        let c = cs[i];
        if is_alphabetic(c) {
            let up = uppercase_char(c);
            let ghost head = out@;
            out.append(up.as_str());
            let mut j: usize = i + 1;
            proof {
                lemma_capitalized_from(cs@, i as int);
            }
            while j < n
                invariant
                    n == cs@.len(),
                    i < j <= n,
                    out@ == head + up@ + cs@.subrange(i + 1, j as int),
                decreases n - j,
            {
                push_char(&mut out, cs[j]);
                proof {
                    assert(cs@.subrange(i + 1, j + 1) == cs@.subrange(i + 1, j as int).push(
                        cs@[j as int],
                    ));
                }
                j = j + 1;
            }
            proof {
                assert(out@ =~= head + (up@ + cs@.subrange(i + 1, n as int)));
            }
            return out;
        }
        let ghost head = out@;
        push_char(&mut out, c);
        proof {
            assert(head + capitalized(cs@.subrange(i as int, n as int)) =~= out@ + capitalized(
                cs@.subrange(i + 1, n as int),
            ));
        }
        i = i + 1;
    }
    proof {
        assert(out@ + capitalized(cs@.subrange(n as int, n as int)) =~= out@);
    }
    out
}

/// Every leet form of an already lower-cased word, one per subset of its
/// substitutable characters, in the order of the bit masks.
pub fn generate_all_leet_for_word(word: &str) -> (r: Vec<String>)
    ensures
        r@.len() == leet_form_count(word@),
        forall|m: int| 0 <= m < r@.len() ==> (#[trigger] r@[m])@ == leet_apply(word@, m as nat),
{
    let cs = chars_of(word);
    let k = count_leetable(&cs);
    let total: u64 = if k < 64 {
        pow2_u64(k as u64)
    } else {
        1
    };
    let mut out: Vec<String> = Vec::new();
    let mut m: u64 = 0;
    while m < total
        invariant
            cs@ == word@,
            total == leet_form_count(word@),
            m <= total,
            out@.len() == m,
            forall|j: int| 0 <= j < m ==> (#[trigger] out@[j])@ == leet_apply(word@, j as nat),
        decreases total - m,
    {
        let form = apply_leet_mask(&cs, m);
        out.push(string_of(&form));
        m = m + 1;
    }
    out
}

/// The three case forms of one leet form, in order (see `case_forms`).
pub fn case_forms_of(form: &String) -> (r: Vec<String>)
    ensures
        views(r@) == case_forms(form@),
{
    let r = vec![form.clone(), capitalize_word(form.as_str()), uppercase(form.as_str())];
    proof {
        assert(views(r@) =~= case_forms(form@));
    }
    r
}

/// The case forms of each leet form in turn.
pub open spec fn all_case_forms(fs: Seq<Seq<char>>) -> Seq<Seq<char>>
    decreases fs.len(),
{
    if fs.len() == 0 {
        Seq::empty()
    } else {
        all_case_forms(fs.drop_last()) + case_forms(fs.last())
    }
}

/// Relies on rayon's `par_iter().flat_map(..).collect()` into a `Vec`,
/// which keeps the order of the input: the items of form `i` are
/// `case_forms_of` of form `i`, whose contract is restated here.
#[verifier::external_body]
fn case_forms_all(forms: &Vec<String>) -> (r: Vec<String>)
    ensures
        views(r@) == all_case_forms(views(forms@)),
{
    forms.par_iter().flat_map(|f| case_forms_of(f)).collect()
}

proof fn lemma_all_case_forms(fs: Seq<Seq<char>>, w: Seq<char>, j: nat)
    requires
        j <= fs.len(),
        forall|m: int| 0 <= m < fs.len() ==> #[trigger] fs[m] == leet_apply(w, m as nat),
    ensures
        all_case_forms(fs.take(j as int)) == raw_forms_upto(w, j),
    decreases j,
{
    if j > 0 {
        lemma_all_case_forms(fs, w, (j - 1) as nat);
        assert(fs.take(j as int).drop_last() == fs.take(j - 1));
        assert(fs.take(j as int).last() == fs[j - 1]);
    }
}

/// Every variant of a word: the word is lower-cased, each of its leet forms
/// is taken as it is, with its first alphabetic character upper-cased, and
/// all upper case; the result is sorted and holds each string once.
pub fn create_word_variants(word: &str) -> (r: Vec<String>)
    ensures
        sorted(views(r@)),
        views(r@).no_duplicates(),
        views(r@).to_set() == variant_set(word@),
{
    let lower = lowercase(word);
    let leets = generate_all_leet_for_word(lower.as_str());
    let raw = case_forms_all(&leets);
    proof {
        let fs = views(leets@);
        assert forall|m: int| 0 <= m < fs.len() implies #[trigger] fs[m] == leet_apply(
            lower_of(word@),
            m as nat,
        ) by {
            assert(fs[m] == leets@[m]@);
        }
        lemma_all_case_forms(fs, lower_of(word@), fs.len());
        assert(fs.take(fs.len() as int) == fs);
    }
    sort_dedup(raw)
}

proof fn lemma_raw_forms_upto_len(w: Seq<char>, m: nat)
    ensures
        raw_forms_upto(w, m).len() == 3 * m,
    decreases m,
{
    if m > 0 {
        lemma_raw_forms_upto_len(w, (m - 1) as nat);
    }
}

/// Before duplicates are removed a word has exactly three case forms per
/// leet form, so at most `3 * 2^k` distinct variants for `k` substitutable
/// characters (fewer than 64 of them).
pub proof fn lemma_variant_bound(word: Seq<char>)
    ensures
        raw_forms(word).len() == 3 * leet_form_count(lower_of(word)),
        variant_set(word).len() <= 3 * leet_form_count(lower_of(word)),
        leet_count(lower_of(word)) < 64 ==> variant_set(word).len() <= 3 * pow2(
            leet_count(lower_of(word)),
        ),
{
    lemma_raw_forms_upto_len(lower_of(word), leet_form_count(lower_of(word)));
    raw_forms(word).lemma_cardinality_of_set();
}

proof fn lemma_leet_apply_zero(w: Seq<char>)
    ensures
        leet_apply(w, 0) == w,
    decreases w.len(),
{
    if w.len() > 0 {
        lemma_leet_apply_zero(w.drop_first());
        assert(w == seq![w[0]] + w.drop_first());
    }
}

/// The lower-cased word is always one of its variants, so no word has
/// none.
pub proof fn lemma_lowercase_is_variant(word: Seq<char>)
    ensures
        variant_set(word).contains(lower_of(word)),
        variant_set(word).len() >= 1,
{
    let w = lower_of(word);
    lemma_leet_apply_zero(w);
    lemma_pow2_pos(leet_count(w));
    let m = leet_form_count(w);
    lemma_raw_forms_prefix(w, 1, m);
    assert(raw_forms_upto(w, 0) =~= Seq::<Seq<char>>::empty());
    assert(raw_forms_upto(w, 1) =~= case_forms(leet_apply(w, 0)));
    assert(raw_forms(word)[0] == w);
    assert(raw_forms(word).to_set().contains(w));
    vstd::seq_lib::seq_to_set_is_finite(raw_forms(word));
    if raw_forms(word).to_set().len() == 0 {
        raw_forms(word).to_set().lemma_len0_is_empty();
    }
}

proof fn lemma_raw_forms_prefix(w: Seq<char>, j: nat, m: nat)
    requires
        j <= m,
    ensures
        raw_forms_upto(w, m).len() >= raw_forms_upto(w, j).len(),
        forall|i: int|
            0 <= i < raw_forms_upto(w, j).len() ==> #[trigger] raw_forms_upto(w, m)[i]
                == raw_forms_upto(w, j)[i],
    decreases m,
{
    if j < m {
        lemma_raw_forms_prefix(w, j, (m - 1) as nat);
    }
}

} // verus!
