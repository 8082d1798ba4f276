//! Character-level helpers: reading a string's characters, the order that
//! `String`'s `Ord` uses, and sorting a list of strings by it.

use vstd::prelude::*;
use vstd::string::StrSliceExecFns;

verus! {

broadcast use vstd::seq_lib::group_seq_properties;

/// The characters of `s`, in order.
pub fn chars_of(s: &str) -> (v: Vec<char>)
    ensures
        v@ == s@,
{
    let mut v: Vec<char> = Vec::new();
    for c in it: s.chars()
        invariant
            v@ == it.seq().take(it.index() as int),
    {
        v.push(c);
    }
    v
}

/// Lexicographic order by code point. UTF-8 preserves code point order, so
/// this is the byte-wise order of `String`'s `Ord`.
pub open spec fn lex_le(a: Seq<char>, b: Seq<char>) -> bool
    decreases a.len(),
{
    if a.len() == 0 {
        true
    } else if b.len() == 0 {
        false
    } else if a[0] != b[0] {
        a[0] < b[0]
    } else {
        lex_le(a.drop_first(), b.drop_first())
    }
}

pub proof fn lemma_lex_total(a: Seq<char>, b: Seq<char>)
    ensures
        lex_le(a, b) || lex_le(b, a),
    decreases a.len(),
{
    if a.len() > 0 && b.len() > 0 && a[0] == b[0] {
        lemma_lex_total(a.drop_first(), b.drop_first());
    }
}

pub proof fn lemma_lex_antisymmetric(a: Seq<char>, b: Seq<char>)
    requires
        lex_le(a, b),
        lex_le(b, a),
    ensures
        a == b,
    decreases a.len(),
{
    if a.len() > 0 && b.len() > 0 {
        lemma_lex_antisymmetric(a.drop_first(), b.drop_first());
        assert(a =~= seq![a[0]] + a.drop_first());
        assert(b =~= seq![b[0]] + b.drop_first());
    } else {
        assert(a =~= b);
    }
}

pub proof fn lemma_lex_transitive(a: Seq<char>, b: Seq<char>, c: Seq<char>)
    requires
        lex_le(a, b),
        lex_le(b, c),
    ensures
        lex_le(a, c),
    decreases a.len(),
{
    if a.len() > 0 && b.len() > 0 && c.len() > 0 && a[0] == b[0] && b[0] == c[0] {
        lemma_lex_transitive(a.drop_first(), b.drop_first(), c.drop_first());
    }
}

/// Whether `a` comes no later than `b` in `String`'s order.
pub fn str_le(a: &str, b: &str) -> (r: bool)
    ensures
        r == lex_le(a@, b@),
{
    let x = chars_of(a);
    let y = chars_of(b);
    let mut i: usize = 0;
    while i < x.len() && i < y.len()
        invariant
            x@ == a@,
            y@ == b@,
            i <= x@.len(),
            i <= y@.len(),
            x@.take(i as int) == y@.take(i as int),
            lex_le(x@, y@) == lex_le(x@.skip(i as int), y@.skip(i as int)),
        decreases x.len() - i,
    {
        if x[i] != y[i] {
            let r = x[i] < y[i];
            assert(x@.skip(i as int)[0] == x@[i as int]);
            assert(y@.skip(i as int)[0] == y@[i as int]);
            assert(x@.skip(i as int).len() > 0 && y@.skip(i as int).len() > 0);
            assert(r == lex_le(x@.skip(i as int), y@.skip(i as int)));
            return r;
        }
        assert(x@.skip(i as int).drop_first() =~= x@.skip(i + 1));
        assert(y@.skip(i as int).drop_first() =~= y@.skip(i + 1));
        assert(x@.take(i + 1) =~= x@.take(i as int).push(x@[i as int]));
        assert(y@.take(i + 1) =~= y@.take(i as int).push(y@[i as int]));
        i = i + 1;
    }
    assert(i == x@.len() ==> x@.skip(i as int).len() == 0);
    assert(i == y@.len() ==> y@.skip(i as int).len() == 0);
    i == x.len()
}

/// The views of a list of strings.
pub open spec fn views(v: Seq<String>) -> Seq<Seq<char>> {
    v.map_values(|s: String| s@)
}

/// Non-decreasing in `String`'s order.
pub open spec fn sorted(s: Seq<Seq<char>>) -> bool {
    forall|i: int, j: int| 0 <= i < j < s.len() ==> lex_le(#[trigger] s[i], #[trigger] s[j])
}

/// A sorted arrangement of a collection of strings is unique: two sorted
/// lists holding the same strings are the same list.
pub proof fn lemma_sorted_unique(a: Seq<Seq<char>>, b: Seq<Seq<char>>)
    requires
        sorted(a),
        sorted(b),
        a.to_multiset() == b.to_multiset(),
    ensures
        a == b,
    decreases a.len(),
{
    vstd::seq_lib::to_multiset_len(a);
    vstd::seq_lib::to_multiset_len(b);
    if a.len() == 0 {
        assert(a =~= b);
    } else {
        vstd::seq_lib::to_multiset_contains(a, a[0]);
        vstd::seq_lib::to_multiset_contains(b, a[0]);
        vstd::seq_lib::to_multiset_contains(a, b[0]);
        vstd::seq_lib::to_multiset_contains(b, b[0]);
        assert(a.contains(a[0]));
        assert(b.contains(b[0]));
        let j = choose|j: int| 0 <= j < b.len() && b[j] == a[0];
        let i = choose|i: int| 0 <= i < a.len() && a[i] == b[0];
        if j > 0 {
            assert(lex_le(b[0], b[j]));
        } else {
            lemma_lex_total(b[0], b[j]);
        }
        if i > 0 {
            assert(lex_le(a[0], a[i]));
        } else {
            lemma_lex_total(a[0], a[i]);
        }
        lemma_lex_antisymmetric(a[0], b[0]);
        vstd::seq_lib::to_multiset_remove(a, 0);
        vstd::seq_lib::to_multiset_remove(b, 0);
        assert(a.remove(0) =~= a.drop_first());
        assert(b.remove(0) =~= b.drop_first());
        assert(sorted(a.drop_first())) by {
            assert forall|x: int, y: int| 0 <= x < y < a.drop_first().len() implies lex_le(
                #[trigger] a.drop_first()[x],
                #[trigger] a.drop_first()[y],
            ) by {
                assert(a.drop_first()[x] == a[x + 1]);
                assert(a.drop_first()[y] == a[y + 1]);
            }
        }
        assert(sorted(b.drop_first())) by {
            assert forall|x: int, y: int| 0 <= x < y < b.drop_first().len() implies lex_le(
                #[trigger] b.drop_first()[x],
                #[trigger] b.drop_first()[y],
            ) by {
                assert(b.drop_first()[x] == b[x + 1]);
                assert(b.drop_first()[y] == b[y + 1]);
            }
        }
        lemma_sorted_unique(a.drop_first(), b.drop_first());
        assert(a =~= seq![a[0]] + a.drop_first());
        assert(b =~= seq![b[0]] + b.drop_first());
    }
}

/// The strings of `v`, sorted into `String`'s order, as `Vec::sort` leaves
/// them: a sorted arrangement of the same strings, which is unique.
pub fn sort_strings(v: Vec<String>) -> (r: Vec<String>)
    ensures
        sorted(views(r@)),
        views(r@).to_multiset() == views(v@).to_multiset(),
{
    let mut r: Vec<String> = Vec::new();
    let n = v.len();
    let mut k: usize = 0;
    let ghost src = v@;
    let mut v = v;
    // take elements from the back so that each removal is cheap
    while k < n
        invariant
            n == src.len(),
            k <= n,
            v@ == src.take(n - k),
            sorted(views(r@)),
            views(r@).to_multiset() == views(src.skip(n - k)).to_multiset(),
        decreases n - k,
    {
        let x = v.pop().unwrap();
        assert(x == src[n - k - 1]);
        let mut p: usize = 0;
        while p < r.len() && str_le(r[p].as_str(), x.as_str())
            invariant
                p <= r@.len(),
                forall|q: int| 0 <= q < p ==> lex_le(#[trigger] views(r@)[q], x@),
            decreases r.len() - p,
        {
            p = p + 1;
        }
        proof {
            if p < r@.len() {
                assert(!lex_le(views(r@)[p as int], x@));
                lemma_lex_total(views(r@)[p as int], x@);
            }
        }
        let ghost old_r = r@;
        r.insert(p, x);
        proof {
            assert(views(r@) =~= views(old_r).insert(p as int, x@));
            vstd::seq_lib::to_multiset_insert(views(old_r), p as int, x@);
            let w = views(old_r);
            assert forall|q: int| p <= q < w.len() implies lex_le(x@, #[trigger] w[q]) by {
                lemma_lex_total(w[p as int], x@);
                if q > p {
                    lemma_lex_transitive(x@, w[p as int], w[q]);
                }
            }
            assert forall|i: int, j: int| 0 <= i < j < views(r@).len() implies lex_le(
                #[trigger] views(r@)[i],
                #[trigger] views(r@)[j],
            ) by {
                if j < p {
                } else if i > p {
                } else if i == p {
                    assert(lex_le(x@, w[j - 1]));
                } else if j == p {
                } else {
                    assert(lex_le(x@, w[j - 1]));
                    lemma_lex_transitive(w[i], x@, w[j - 1]);
                }
            }
            assert(src.skip(n - k - 1) =~= src.skip(n - k).insert(0, x));
            assert(views(src.skip(n - k - 1)) =~= views(src.skip(n - k)).insert(0, x@));
            vstd::seq_lib::to_multiset_insert(views(src.skip(n - k)), 0, x@);
            assert(v@ =~= src.take(n - k - 1));
        }
        k = k + 1;
    }
    assert(src.skip(0) =~= src);
    r
}

/// The pieces of `s` between occurrences of `sep`, scanning from position
/// `i` with the current piece starting at `start`.
pub open spec fn split_from(s: Seq<char>, sep: char, start: int, i: int) -> Seq<Seq<char>>
    decreases s.len() - i,
{
    if i < 0 || i >= s.len() {
        seq![s.subrange(start, s.len() as int)]
    } else if s[i] == sep {
        seq![s.subrange(start, i)] + split_from(s, sep, i + 1, i + 1)
    } else {
        split_from(s, sep, start, i + 1)
    }
}

/// The pieces of `s` between occurrences of `sep`, as `str::split` gives
/// them (empty pieces included).
pub open spec fn split_on(s: Seq<char>, sep: char) -> Seq<Seq<char>> {
    split_from(s, sep, 0, 0)
}

/// The pieces of `s` between occurrences of `sep`.
pub fn split_str(s: &str, sep: char) -> (pieces: Vec<String>)
    ensures
        views(pieces@) == split_on(s@, sep),
{
    let cs = chars_of(s);
    let n = cs.len();
    let mut pieces: Vec<String> = Vec::new();
    let mut start: usize = 0;
    let mut i: usize = 0;
    while i < n
        invariant
            n == s@.len(),
            cs@ == s@,
            start <= i <= n,
            split_on(s@, sep) == views(pieces@) + split_from(s@, sep, start as int, i as int),
        decreases n - i,
    {
        if cs[i] == sep {
            let piece = s.substring_char(start, i).to_owned();
            let ghost before = views(pieces@);
            pieces.push(piece);
            assert(views(pieces@) =~= before.push(piece@));
            assert(before + split_from(s@, sep, start as int, i as int) =~= views(pieces@) + split_from(
                s@,
                sep,
                (i + 1) as int,
                (i + 1) as int,
            ));
            start = i + 1;
        }
        i = i + 1;
    }
    let piece = s.substring_char(start, n).to_owned();
    let ghost before = views(pieces@);
    pieces.push(piece);
    assert(views(pieces@) =~= before.push(piece@));
    assert(views(pieces@) =~= before + split_from(s@, sep, start as int, n as int));
    pieces
}

/// The non-empty strings of `v`, in order.
pub open spec fn non_empty(v: Seq<Seq<char>>) -> Seq<Seq<char>>
    decreases v.len(),
{
    if v.len() == 0 {
        seq![]
    } else if v.last().len() == 0 {
        non_empty(v.drop_last())
    } else {
        non_empty(v.drop_last()).push(v.last())
    }
}

} // verus!
