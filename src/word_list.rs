//! The seed words: those given directly and those read from a word list,
//! one per line or comma-separated, sorted, each once, none empty.
use vstd::prelude::*;
use vstd::string::*;
use crate::text::{push_char, sort_dedup, sorted, views};
use crate::words::string_of;

verus! {

/// Whether a character has the Unicode White_Space property, which is what
/// `str::trim` strips: U+0009 to U+000D, U+0020, U+0085, U+00A0, U+1680,
/// U+2000 to U+200A, U+2028, U+2029, U+202F, U+205F and U+3000.
pub open spec fn white_space(c: char) -> bool {
    let v = c as u32;
    (0x9 <= v <= 0xd) || v == 0x20 || v == 0x85 || v == 0xa0 || v == 0x1680 || (0x2000 <= v
        <= 0x200a) || v == 0x2028 || v == 0x2029 || v == 0x202f || v == 0x205f || v == 0x3000
}

fn is_white_space(c: char) -> (r: bool)
    ensures
        r == white_space(c),
{
    let v = c as u32;
    (0x9 <= v && v <= 0xd) || v == 0x20 || v == 0x85 || v == 0xa0 || v == 0x1680 || (0x2000 <= v
        && v <= 0x200a) || v == 0x2028 || v == 0x2029 || v == 0x202f || v == 0x205f || v == 0x3000
}

/// `s` without its leading white space.
pub open spec fn trim_start(s: Seq<char>) -> Seq<char>
    decreases s.len(),
{
    if s.len() > 0 && white_space(s[0]) {
        trim_start(s.drop_first())
    } else {
        s
    }
}

/// `s` without its trailing white space.
pub open spec fn trim_end(s: Seq<char>) -> Seq<char>
    decreases s.len(),
{
    if s.len() > 0 && white_space(s.last()) {
        trim_end(s.drop_last())
    } else {
        s
    }
}

/// `s` without leading and trailing white space, as `str::trim` leaves it.
pub open spec fn trimmed(s: Seq<char>) -> Seq<char> {
    trim_end(trim_start(s))
}

/// Relies on `str::chars`, collected: the characters of the string, in
/// order.
#[verifier::external_body]
fn char_vec(s: &str) -> (r: Vec<char>)
    ensures
        r@ == s@,
{
    s.chars().collect()
}

/// `s` without leading and trailing white space (see `trimmed`).
pub fn trim(s: &str) -> (r: String)
    ensures
        r@ == trimmed(s@),
{
    let cs = char_vec(s);
    let n = cs.len();
    let mut i: usize = 0;
    proof {
        assert(cs@.subrange(0, n as int) == cs@);
    }
    while i < n && is_white_space(cs[i])
        invariant
            n == cs@.len(),
            i <= n,
            trim_start(cs@.subrange(i as int, n as int)) == trim_start(cs@),
        decreases n - i,
    {
        proof {
            assert(cs@.subrange(i as int, n as int).drop_first() == cs@.subrange(i + 1, n as int));
        }
        i = i + 1;
    }
    proof {
        if i < n {
            assert(cs@.subrange(i as int, n as int)[0] == cs@[i as int]);
        }
    }
    let mut j: usize = n;
    while j > i && is_white_space(cs[j - 1])
        invariant
            n == cs@.len(),
            i <= j <= n,
            trim_end(cs@.subrange(i as int, j as int)) == trimmed(cs@),
        decreases j,
    {
        proof {
            assert(cs@.subrange(i as int, j as int).drop_last() == cs@.subrange(i as int, j - 1));
        }
        j = j - 1;
    }
    let mut out = String::new();
    let mut k: usize = i;
    while k < j
        invariant
            n == cs@.len(),
            i <= k <= j <= n,
            out@ == cs@.subrange(i as int, k as int),
        decreases j - k,
    {
        push_char(&mut out, cs[k]);
        proof {
            assert(cs@.subrange(i as int, k + 1) == cs@.subrange(i as int, k as int).push(
                cs@[k as int],
            ));
        }
        k = k + 1;
    }
    proof {
        let t = cs@.subrange(i as int, j as int);
        if j > i {
            assert(t.last() == cs@[j - 1]);
        }
        assert(trim_end(t) == t);
    }
    out
}

/// `l` without one trailing carriage return.
pub open spec fn strip_cr(l: Seq<char>) -> Seq<char> {
    if l.len() > 0 && l.last() == '\r' {
        l.drop_last()
    } else {
        l
    }
}

/// The lines ended so far, and the line under way, after reading `s`.
pub open spec fn lines_state(s: Seq<char>) -> (Seq<Seq<char>>, Seq<char>)
    decreases s.len(),
{
    if s.len() == 0 {
        (Seq::empty(), Seq::empty())
    } else {
        let (done, cur) = lines_state(s.drop_last());
        if s.last() == '\n' {
            (done.push(strip_cr(cur)), Seq::empty())
        } else {
            (done, cur.push(s.last()))
        }
    }
}

/// The lines of a text as `str::lines` gives them: split after each line
/// feed, which is dropped with one carriage return just before it; a last
/// line without a line feed is kept as it is, and no empty line follows a
/// final line feed.
pub open spec fn lines_of(s: Seq<char>) -> Seq<Seq<char>> {
    let (done, cur) = lines_state(s);
    if cur.len() == 0 {
        done
    } else {
        done.push(cur)
    }
}

/// The lines of a text (see `lines_of`).
pub fn text_lines(s: &str) -> (r: Vec<String>)
    ensures
        views(r@) == lines_of(s@),
{
    let cs = char_vec(s);
    let n = cs.len();
    let mut out: Vec<String> = Vec::new();
    let mut cur: Vec<char> = Vec::new();
    let mut i: usize = 0;
    proof {
        assert(cs@.take(0) =~= Seq::<char>::empty());
        assert(views(out@) =~= Seq::<Seq<char>>::empty());
    }
    while i < n
        invariant
            n == cs@.len(),
            i <= n,
            lines_state(cs@.take(i as int)) == (views(out@), cur@),
        decreases n - i,
    {
        let c = cs[i];
        proof {
            assert(cs@.take(i + 1).drop_last() == cs@.take(i as int));
            assert(cs@.take(i + 1).last() == c);
        }
        if c == '\n' {
            let ghost before = cur@;
            if cur.len() > 0 && cur[cur.len() - 1] == '\r' {
                cur.pop();
            }
            let line = string_of(&cur);
            let ghost prev = views(out@);
            out.push(line);
            proof {
                assert(cur@ == strip_cr(before));
                assert(views(out@) == prev.push(strip_cr(before)));
            }
            cur = Vec::new();
        } else {
            cur.push(c);
        }
        i = i + 1;
    }
    proof {
        assert(cs@.take(n as int) == cs@);
    }
    if cur.len() > 0 {
        let ghost prev = views(out@);
        out.push(string_of(&cur));
        proof {
            assert(views(out@) == prev.push(cur@));
        }
    }
    out
}

/// The pieces of `s` between commas (one piece when it has none).
pub open spec fn split_commas(s: Seq<char>) -> Seq<Seq<char>>
    decreases s.len(),
{
    if s.len() == 0 {
        seq![Seq::empty()]
    } else {
        let p = split_commas(s.drop_last());
        if s.last() == ',' {
            p.push(Seq::empty())
        } else {
            p.update(p.len() - 1, p.last().push(s.last()))
        }
    }
}

proof fn lemma_split_commas_nonempty(s: Seq<char>)
    ensures
        split_commas(s).len() >= 1,
    decreases s.len(),
{
    if s.len() > 0 {
        lemma_split_commas_nonempty(s.drop_last());
    }
}

/// The pieces of `s` between commas.
pub fn split_at_commas(s: &str) -> (r: Vec<String>)
    ensures
        views(r@) == split_commas(s@),
{
    let n = s.unicode_len();
    let mut parts: Vec<String> = Vec::new();
    let mut cur = String::new();
    let mut i: usize = 0;
    proof {
        assert(s@.take(0) =~= Seq::<char>::empty());
        assert(views(parts@).push(cur@) =~= split_commas(s@.take(0)));
    }
    while i < n
        invariant
            n == s@.len(),
            i <= n,
            views(parts@).push(cur@) == split_commas(s@.take(i as int)),
        decreases n - i,
    {
        let c = s.get_char(i);
        let ghost prev = split_commas(s@.take(i as int));
        proof {
            assert(s@.take(i + 1).drop_last() == s@.take(i as int));
            assert(s@.take(i + 1).last() == c);
            lemma_split_commas_nonempty(s@.take(i as int));
        }
        if c == ',' {
            parts.push(cur);
            cur = String::new();
            proof {
                assert(views(parts@).push(cur@) =~= prev.push(Seq::empty()));
            }
        } else {
            let ghost before = views(parts@);
            push_char(&mut cur, c);
            proof {
                assert(before.push(cur@) =~= prev.update(prev.len() - 1, prev.last().push(c)));
            }
        }
        i = i + 1;
    }
    proof {
        assert(s@.take(n as int) == s@);
    }
    parts.push(cur);
    parts
}

/// The words of one line: none when it is blank; the trimmed pieces
/// between commas when it has a comma; else the trimmed line.
pub open spec fn line_words(line: Seq<char>) -> Seq<Seq<char>> {
    let t = trimmed(line);
    if t.len() == 0 {
        Seq::empty()
    } else if t.contains(',') {
        split_commas(t).map_values(|p: Seq<char>| trimmed(p))
    } else {
        seq![t]
    }
}

/// The words of the lines, in order.
pub open spec fn lines_words(ls: Seq<Seq<char>>) -> Seq<Seq<char>>
    decreases ls.len(),
{
    if ls.len() == 0 {
        Seq::empty()
    } else {
        lines_words(ls.drop_last()) + line_words(ls.last())
    }
}

/// The words of a word list.
pub open spec fn list_words(content: Seq<char>) -> Seq<Seq<char>> {
    lines_words(lines_of(content))
}

/// Whether `s` has a comma.
fn has_comma(s: &str) -> (r: bool)
    ensures
        r == s@.contains(','),
{
    let n = s.unicode_len();
    let mut i: usize = 0;
    while i < n
        invariant
            n == s@.len(),
            i <= n,
            forall|j: int| 0 <= j < i ==> s@[j] != ',',
        decreases n - i,
    {
        if s.get_char(i) == ',' {
            return true;
        }
        i = i + 1;
    }
    false
}

/// Appends the words of one line (see `line_words`).
fn push_line_words(out: &mut Vec<String>, line: &str)
    ensures
        views(final(out)@) == views(old(out)@) + line_words(line@),
{
    let t = trim(line);
    let ghost head = views(out@);
    if t.as_str().unicode_len() == 0 {
        proof {
            assert(views(out@) =~= head + line_words(line@));
        }
        return;
    }
    if !has_comma(t.as_str()) {
        out.push(t);
        proof {
            assert(views(out@) =~= head + line_words(line@));
        }
        return;
    }
    let pieces = split_at_commas(t.as_str());
    let ghost pv = views(pieces@);
    let mut i: usize = 0;
    while i < pieces.len()
        invariant
            pv == views(pieces@),
            i <= pieces@.len(),
            views(out@) == head + pv.take(i as int).map_values(|p: Seq<char>| trimmed(p)),
        decreases pieces@.len() - i,
    {
        let w = trim(pieces[i].as_str());
        let ghost prev = views(out@);
        out.push(w);
        proof {
            assert(views(out@) == prev.push(w@));
            assert(pv.take(i + 1).map_values(|p: Seq<char>| trimmed(p)) =~= pv.take(i as int).map_values(
                |p: Seq<char>| trimmed(p),
            ).push(trimmed(pv[i as int])));
        }
        i = i + 1;
    }
    proof {
        assert(pv.take(pieces@.len() as int) == pv);
    }
}

/// The seed words: those given directly and those of the word list, if
/// any, sorted, each once, the empty word left out.
pub fn parse_words(arg_words: &[String], content: Option<&str>) -> (r: Vec<String>)
    ensures
        sorted(views(r@)),
        views(r@).no_duplicates(),
        views(r@).to_set() == (views(arg_words@) + match content {
            Some(c) => list_words(c@),
            None => Seq::empty(),
        }).to_set().filter(|w: Seq<char>| w.len() > 0),
{
    let mut all: Vec<String> = Vec::new();
    let mut i: usize = 0;
    while i < arg_words.len()
        invariant
            i <= arg_words@.len(),
            views(all@) == views(arg_words@).take(i as int),
        decreases arg_words@.len() - i,
    {
        all.push(arg_words[i].clone());
        proof {
            assert(views(arg_words@).take(i + 1) == views(arg_words@).take(i as int).push(
                arg_words@[i as int]@,
            ));
        }
        i = i + 1;
    }
    proof {
        assert(views(arg_words@).take(arg_words@.len() as int) == views(arg_words@));
    }
    let ghost extra: Seq<Seq<char>> = match content {
        Some(c) => list_words(c@),
        None => Seq::empty(),
    };
    match content {
        Some(c) => {
            let lines = text_lines(c);
            let ghost lv = views(lines@);
            let ghost head = views(all@);
            let mut j: usize = 0;
            proof {
                assert(head + lines_words(lv.take(0)) =~= head);
            }
            while j < lines.len()
                invariant
                    lv == views(lines@),
                    j <= lines@.len(),
                    views(all@) == head + lines_words(lv.take(j as int)),
                decreases lines@.len() - j,
            {
                push_line_words(&mut all, lines[j].as_str());
                proof {
                    assert(lv.take(j + 1).drop_last() == lv.take(j as int));
                    assert(lv.take(j + 1).last() == lines@[j as int]@);
                }
                j = j + 1;
            }
            proof {
                assert(lv.take(lines@.len() as int) == lv);
            }
        },
        None => {
            proof {
                assert(views(all@) =~= views(arg_words@) + extra);
            }
        },
    }
    let ghost everything = views(all@);
    let sorted_words = sort_dedup(all);
    let mut out: Vec<String> = Vec::new();
    let ghost sv = views(sorted_words@);
    let ghost nonempty = |w: Seq<char>| w.len() > 0;
    let mut k: usize = 0;
    proof {
        assert(sv.take(0).filter(nonempty) =~= Seq::<Seq<char>>::empty());
    }
    while k < sorted_words.len()
        invariant
            sv == views(sorted_words@),
            k <= sorted_words@.len(),
            nonempty == (|w: Seq<char>| w.len() > 0),
            views(out@) == sv.take(k as int).filter(nonempty),
        decreases sorted_words@.len() - k,
    {
        proof {
            assert(sv.take(k + 1) == sv.take(k as int).push(sv[k as int]));
            sv.take(k as int).lemma_filter_push(sv[k as int], nonempty);
        }
        if sorted_words[k].as_str().unicode_len() > 0 {
            let ghost prev = views(out@);
            out.push(sorted_words[k].clone());
            proof {
                assert(views(out@) == prev.push(sorted_words@[k as int]@));
            }
        }
        k = k + 1;
    }
    proof {
        assert(sv.take(sorted_words@.len() as int) == sv);
        let f = sv.filter(nonempty);
        broadcast use vstd::seq_lib::group_filter_ensures;
        assert forall|a: int, b: int| 0 <= a < b < f.len() implies crate::text::lex_le(
            #[trigger] f[a],
            #[trigger] f[b],
        ) by {
            lemma_filter_sorted(sv, nonempty, a, b);
        }
        lemma_filter_no_duplicates(sv, nonempty);
        assert forall|w: Seq<char>| f.to_set().contains(w) <==> everything.to_set().filter(
            nonempty,
        ).contains(w) by {
            if f.contains(w) {
                sv.lemma_filter_contains_rev(nonempty, w);
                assert(sv.to_set().contains(w));
            }
            if everything.to_set().contains(w) && nonempty(w) {
                assert(sv.to_set().contains(w));
                let q = choose|q: int| 0 <= q < sv.len() && sv[q] == w;
                sv.lemma_filter_contains(nonempty, q);
            }
        }
        assert(f.to_set() =~= everything.to_set().filter(nonempty));
    }
    out
}

proof fn lemma_filter_sorted(s: Seq<Seq<char>>, p: spec_fn(Seq<char>) -> bool, a: int, b: int)
    requires
        sorted(s),
        0 <= a < b < s.filter(p).len(),
    ensures
        crate::text::lex_le(s.filter(p)[a], s.filter(p)[b]),
    decreases s.len(),
{
    broadcast use vstd::seq_lib::group_filter_ensures;

    let f = s.filter(p);
    if s.len() > 0 {
        let d = s.drop_last();
        assert(s == d.push(s.last()));
        d.lemma_filter_push(s.last(), p);
        assert(sorted(d)) by {
            assert forall|i: int, j: int| 0 <= i < j < d.len() implies crate::text::lex_le(
                #[trigger] d[i],
                #[trigger] d[j],
            ) by {
                assert(s[i] == d[i] && s[j] == d[j]);
            }
        }
        if p(s.last()) && b == f.len() - 1 {
            let x = f[a];
            assert(f[a] == d.filter(p)[a]);
            assert(d.filter(p).contains(x));
            d.lemma_filter_contains_rev(p, x);
            let q = choose|q: int| 0 <= q < d.len() && d[q] == x;
            assert(s[q] == x);
            assert(crate::text::lex_le(s[q], s[s.len() - 1]));
        } else {
            lemma_filter_sorted(d, p, a, b);
        }
    }
}

proof fn lemma_filter_no_duplicates(s: Seq<Seq<char>>, p: spec_fn(Seq<char>) -> bool)
    requires
        s.no_duplicates(),
    ensures
        s.filter(p).no_duplicates(),
    decreases s.len(),
{
    if s.len() > 0 {
        let d = s.drop_last();
        assert(s == d.push(s.last()));
        d.lemma_filter_push(s.last(), p);
        assert(d.no_duplicates()) by {
            assert forall|i: int, j: int| 0 <= i < d.len() && 0 <= j < d.len() && i != j implies d[i]
                != d[j] by {
                assert(s[i] == d[i] && s[j] == d[j]);
            }
        }
        lemma_filter_no_duplicates(d, p);
        if p(s.last()) {
            let f = d.filter(p);
            assert(!f.contains(s.last())) by {
                if f.contains(s.last()) {
                    d.lemma_filter_contains_rev(p, s.last());
                    let q = choose|q: int| 0 <= q < d.len() && d[q] == s.last();
                    assert(s[q] == s[s.len() - 1]);
                }
            }
            assert forall|i: int, j: int|
                0 <= i < f.push(s.last()).len() && 0 <= j < f.push(s.last()).len() && i != j implies
                f.push(s.last())[i] != f.push(s.last())[j] by {
                if i == f.len() {
                    assert(f.contains(f[j]));
                } else if j == f.len() {
                    assert(f.contains(f[i]));
                }
            }
        }
    }
}

} // verus!
