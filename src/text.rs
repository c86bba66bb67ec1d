//! Text operations taken from std, each behind a small trusted wrapper, and
//! the character-wise order on strings that sorting uses.
use vstd::prelude::*;
use vstd::string::*;
use vstd::utf8::encode_utf8;

verus! {

/// What `str::to_lowercase` makes of a string.
pub uninterp spec fn lower_of(s: Seq<char>) -> Seq<char>;

/// What `str::to_uppercase` makes of a string.
pub uninterp spec fn upper_of(s: Seq<char>) -> Seq<char>;

/// What `char::to_uppercase` makes of one character, as a string.
pub uninterp spec fn upper_char_of(c: char) -> Seq<char>;

/// Whether `char::is_alphabetic` holds of a character.
pub uninterp spec fn alphabetic(c: char) -> bool;

/// Relies on `str::to_lowercase`: the result depends on the characters alone.
#[verifier::external_body]
pub(crate) fn lowercase(s: &str) -> (r: String)
    ensures
        r@ == lower_of(s@),
{
    s.to_lowercase()
}

/// Relies on `str::to_uppercase`: the result depends on the characters alone.
#[verifier::external_body]
pub(crate) fn uppercase(s: &str) -> (r: String)
    ensures
        r@ == upper_of(s@),
{
    s.to_uppercase()
}

/// Relies on `char::to_uppercase`, whose characters are collected into a
/// string: the result depends on the character alone.
#[verifier::external_body]
pub(crate) fn uppercase_char(c: char) -> (r: String)
    ensures
        r@ == upper_char_of(c),
{
    c.to_uppercase().collect::<String>()
}

/// Relies on `char::is_alphabetic`.
#[verifier::external_body]
pub(crate) fn is_alphabetic(c: char) -> (r: bool)
    ensures
        r == alphabetic(c),
{
    c.is_alphabetic()
}

/// Relies on `String::push`: the character is appended at the end.
#[verifier::external_body]
pub(crate) fn push_char(s: &mut String, c: char)
    ensures
        final(s)@ == old(s)@.push(c),
{
    s.push(c)
}

/// The length of a string in UTF-8 bytes.
pub open spec fn byte_len(s: Seq<char>) -> nat {
    encode_utf8(s).len()
}

/// The length of a string in UTF-8 bytes.
pub fn byte_length(s: &str) -> (r: usize)
    ensures
        r == byte_len(s@),
{
    let bytes = s.as_bytes();
    bytes.len()
}

/// Lexicographic order on strings by code point; a proper prefix comes first.
pub open spec fn lex_le(a: Seq<char>, b: Seq<char>) -> bool
    decreases a.len(),
{
    if a.len() == 0 {
        true
    } else if b.len() == 0 {
        false
    } else if a[0] != b[0] {
        (a[0] as u32) < (b[0] as u32)
    } else {
        lex_le(a.drop_first(), b.drop_first())
    }
}

/// The views of a sequence of strings.
pub open spec fn views(v: Seq<String>) -> Seq<Seq<char>> {
    v.map_values(|s: String| s@)
}

/// Every string is ordered before or equal to every later one.
pub open spec fn sorted(v: Seq<Seq<char>>) -> bool {
    forall|i: int, j: int| 0 <= i < j < v.len() ==> lex_le(#[trigger] v[i], #[trigger] v[j])
}

/// Relies on `slice::sort` over `String`, whose `Ord` compares the UTF-8
/// bytes, which orders strings as `lex_le` does; the sort only reorders.
#[verifier::external_body]
pub(crate) fn sort_strings(v: &mut Vec<String>)
    ensures
        views(final(v)@).to_multiset() == views(old(v)@).to_multiset(),
        final(v)@.len() == old(v)@.len(),
        sorted(views(final(v)@)),
{
    v.sort()
}

/// Two strings each ordered before the other are equal.
pub proof fn lemma_lex_antisymmetric(a: Seq<char>, b: Seq<char>)
    requires
        lex_le(a, b),
        lex_le(b, a),
    ensures
        a == b,
    decreases a.len(),
{
    if a.len() > 0 && b.len() > 0 {
        lemma_lex_antisymmetric(a.drop_first(), b.drop_first());
        assert(a == seq![a[0]] + a.drop_first());
        assert(b == seq![b[0]] + b.drop_first());
    } else if a.len() == 0 && b.len() > 0 {
        assert(!lex_le(b, a));
    }
}

/// Sorts `v` and keeps one copy of each string: the result is in order,
/// holds no string twice, and holds exactly the strings that `v` held.
pub fn sort_dedup(v: Vec<String>) -> (r: Vec<String>)
    ensures
        sorted(views(r@)),
        views(r@).no_duplicates(),
        views(r@).to_set() == views(v@).to_set(),
{
    let mut v = v;
    let ghost before = views(v@);
    sort_strings(&mut v);
    let ghost sv = views(v@);
    proof {
        assert forall|x: Seq<char>| sv.contains(x) <==> before.contains(x) by {
            before.to_multiset_ensures();
            sv.to_multiset_ensures();
            assert(sv.to_multiset().count(x) == before.to_multiset().count(x));
        }
        assert(sv.to_set() =~= before.to_set());
    }
    let mut out: Vec<String> = Vec::new();
    let n = v.len();
    let mut i: usize = 0;
    while i < n
        invariant
            n == v@.len(),
            sv == views(v@),
            sorted(sv),
            i <= n,
            sorted(views(out@)),
            views(out@).no_duplicates(),
            views(out@).to_set() == sv.subrange(0, i as int).to_set(),
            i > 0 ==> out@.len() > 0 && views(out@).last() == sv[i - 1],
        decreases n - i,
    {
        let ghost ov = views(out@);
        let keep = out.len() == 0 || out[out.len() - 1] != v[i];
        proof {
            assert(sv.subrange(0, i + 1) == sv.subrange(0, i as int).push(sv[i as int]));
            sv.subrange(0, i as int).lemma_push_to_set_commute(sv[i as int]);
            assert forall|j: int| 0 <= j < ov.len() implies lex_le(ov[j], sv[i as int]) by {
                assert(ov.to_set().contains(ov[j]));
                assert(sv.subrange(0, i as int).to_set().contains(ov[j]));
                let a = choose|a: int| 0 <= a < i && sv.subrange(0, i as int)[a] == ov[j];
                assert(sv[a] == ov[j]);
            }
        }
        if keep {
            proof {
                assert forall|j: int| 0 <= j < ov.len() implies ov[j] != sv[i as int] by {
                    if ov[j] == sv[i as int] {
                        let last = ov.len() - 1;
                        if j < last {
                            assert(lex_le(ov[j], ov[last]));
                            assert(lex_le(ov[last], sv[i as int]));
                            lemma_lex_antisymmetric(ov[j], ov[last]);
                        }
                    }
                }
            }
            out.push(v[i].clone());
            proof {
                assert(views(out@) == ov.push(sv[i as int]));
                ov.lemma_push_to_set_commute(sv[i as int]);
            }
        } else {
            proof {
                assert(sv.subrange(0, i as int).to_set().contains(sv[i as int]) || ov.last()
                    == sv[i as int]);
                assert(ov.to_set().contains(ov.last()));
                assert(ov.to_set().insert(sv[i as int]) =~= ov.to_set());
            }
        }
        i = i + 1;
    }
    proof {
        assert(sv.subrange(0, n as int) == sv);
    }
    out
}

/// Two sorted sequences without duplicates that hold the same strings are
/// equal.
pub proof fn lemma_sorted_unique(s1: Seq<Seq<char>>, s2: Seq<Seq<char>>)
    requires
        sorted(s1),
        sorted(s2),
        s1.no_duplicates(),
        s2.no_duplicates(),
        s1.to_set() == s2.to_set(),
    ensures
        s1 == s2,
    decreases s1.len(),
{
    if s1.len() == 0 {
        if s2.len() > 0 {
            assert(s2.to_set().contains(s2[0]));
        }
        assert(s1 =~= s2);
    } else if s2.len() == 0 {
        assert(s1.to_set().contains(s1[0]));
    } else {
        assert(s1.to_set().contains(s1[0]));
        assert(s2.to_set().contains(s2[0]));
        let j = choose|j: int| 0 <= j < s2.len() && s2[j] == s1[0];
        let i = choose|i: int| 0 <= i < s1.len() && s1[i] == s2[0];
        if j > 0 {
            assert(lex_le(s2[0], s2[j]));
        } else {
            assert(lex_le(s2[0], s1[0])) by {
                lemma_lex_reflexive(s2[0]);
            }
        }
        if i > 0 {
            assert(lex_le(s1[0], s1[i]));
        } else {
            assert(lex_le(s1[0], s2[0])) by {
                lemma_lex_reflexive(s1[0]);
            }
        }
        lemma_lex_antisymmetric(s1[0], s2[0]);
        let t1 = s1.drop_first();
        let t2 = s2.drop_first();
        assert forall|x: Seq<char>| t1.to_set().contains(x) <==> t2.to_set().contains(x) by {
            if t1.to_set().contains(x) {
                let a = choose|a: int| 0 <= a < t1.len() && t1[a] == x;
                assert(s1[a + 1] == x);
                assert(s1.to_set().contains(x));
                let b = choose|b: int| 0 <= b < s2.len() && s2[b] == x;
                assert(b != 0);
                assert(t2[b - 1] == x);
            }
            if t2.to_set().contains(x) {
                let a = choose|a: int| 0 <= a < t2.len() && t2[a] == x;
                assert(s2[a + 1] == x);
                assert(s2.to_set().contains(x));
                let b = choose|b: int| 0 <= b < s1.len() && s1[b] == x;
                assert(b != 0);
                assert(t1[b - 1] == x);
            }
        }
        assert(t1.to_set() =~= t2.to_set());
        assert forall|a: int, b: int| 0 <= a < b < t1.len() implies lex_le(
            #[trigger] t1[a],
            #[trigger] t1[b],
        ) by {
            assert(lex_le(s1[a + 1], s1[b + 1]));
        }
        assert forall|a: int, b: int| 0 <= a < b < t2.len() implies lex_le(
            #[trigger] t2[a],
            #[trigger] t2[b],
        ) by {
            assert(lex_le(s2[a + 1], s2[b + 1]));
        }
        lemma_sorted_unique(t1, t2);
        assert(s1 =~= seq![s1[0]] + t1);
        assert(s2 =~= seq![s2[0]] + t2);
    }
}

/// Every string is ordered before or equal to itself.
pub proof fn lemma_lex_reflexive(a: Seq<char>)
    ensures
        lex_le(a, a),
    decreases a.len(),
{
    if a.len() > 0 {
        lemma_lex_reflexive(a.drop_first());
    }
}

} // verus!
