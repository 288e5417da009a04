//! Splitting and joining character sequences on a separator, and searching
//! for single characters, with verified executable counterparts on `&str`.

use vstd::prelude::*;

verus! {

/// The pieces of `s` between occurrences of `sep`, in order.  A sequence with
/// no separator is one piece; every separator starts a new (possibly empty)
/// piece, so the result always has one piece more than `s` has separators.
pub open spec fn split_char(s: Seq<char>, sep: char) -> Seq<Seq<char>>
    decreases s.len(),
{
    if s.len() == 0 {
        seq![Seq::<char>::empty()]
    } else if s.last() == sep {
        split_char(s.drop_last(), sep).push(Seq::<char>::empty())
    } else {
        let r = split_char(s.drop_last(), sep);
        r.update(r.len() - 1, r.last().push(s.last()))
    }
}

/// The pieces interleaved with the separator: the inverse of `split_char`.
pub open spec fn join_char(ps: Seq<Seq<char>>, sep: char) -> Seq<char>
    decreases ps.len(),
{
    if ps.len() == 0 {
        Seq::<char>::empty()
    } else if ps.len() == 1 {
        ps[0]
    } else {
        join_char(ps.drop_last(), sep).push(sep) + ps.last()
    }
}

/// Index of the first occurrence of `c` in `s` (meaningful when `s` contains `c`).
pub open spec fn find_char(s: Seq<char>, c: char) -> int
    decreases s.len(),
{
    if s.len() == 0 {
        0
    } else if s[0] == c {
        0
    } else {
        1 + find_char(s.drop_first(), c)
    }
}

/// A sequence without the separator splits into itself alone.
pub proof fn lemma_split_char_whole(s: Seq<char>, sep: char)
    requires
        !s.contains(sep),
    ensures
        split_char(s, sep) == seq![s],
    decreases s.len(),
{
    if s.len() == 0 {
        assert(s =~= Seq::<char>::empty());
        assert(split_char(s, sep) =~= seq![s]);
    } else {
        assert(!s.drop_last().contains(sep)) by {
            assert(forall|i: int|
                0 <= i < s.drop_last().len() ==> s.drop_last()[i] == s[i]);
        }
        lemma_split_char_whole(s.drop_last(), sep);
        assert(s[s.len() - 1] != sep);
        assert(s.last() != sep);
        assert(split_char(s, sep) =~= seq![s.drop_last().push(s.last())]);
        assert(s.drop_last().push(s.last()) =~= s);
        assert(split_char(s, sep) =~= seq![s]);
    }
}

pub proof fn lemma_split_char_min_len(s: Seq<char>, sep: char)
    ensures
        split_char(s, sep).len() >= 1,
    decreases s.len(),
{
    if s.len() > 0 {
        lemma_split_char_min_len(s.drop_last(), sep);
    }
}

/// Splitting distributes over a separator: the pieces of `a + sep + b` are
/// the pieces of `a` followed by the pieces of `b`.
pub proof fn lemma_split_char_concat(a: Seq<char>, b: Seq<char>, sep: char)
    ensures
        split_char(a + seq![sep] + b, sep) == split_char(a, sep) + split_char(b, sep),
    decreases b.len(),
{
    lemma_split_char_min_len(a, sep);
    if b.len() == 0 {
        assert(a + seq![sep] + b =~= a.push(sep));
        assert(split_char(a.push(sep), sep) == split_char(a.push(sep).drop_last(), sep).push(
            Seq::<char>::empty(),
        )) by {
            assert(a.push(sep).last() == sep);
        }
        assert(a.push(sep).drop_last() =~= a);
        assert(split_char(b, sep) =~= seq![Seq::<char>::empty()]);
        assert(split_char(a, sep) + split_char(b, sep) =~= split_char(a, sep).push(
            Seq::<char>::empty(),
        ));
    } else {
        let b0 = b.drop_last();
        let x = b.last();
        lemma_split_char_concat(a, b0, sep);
        lemma_split_char_min_len(b0, sep);
        let s = a + seq![sep] + b;
        assert(s.drop_last() =~= a + seq![sep] + b0);
        assert(s.last() == x);
        if x == sep {
            assert(split_char(s, sep) == (split_char(a, sep) + split_char(b0, sep)).push(
                Seq::<char>::empty(),
            ));
            assert((split_char(a, sep) + split_char(b0, sep)).push(Seq::<char>::empty())
                =~= split_char(a, sep) + split_char(b0, sep).push(Seq::<char>::empty()));
        } else {
            let r = split_char(a, sep) + split_char(b0, sep);
            let rb = split_char(b0, sep);
            assert(split_char(s, sep) == r.update(r.len() - 1, r.last().push(x)));
            assert(r.last() == rb.last());
            assert(split_char(b, sep) == rb.update(rb.len() - 1, rb.last().push(x)));
            assert(r.update(r.len() - 1, r.last().push(x)) =~= split_char(a, sep) + rb.update(
                rb.len() - 1,
                rb.last().push(x),
            ));
        }
    }
}

/// Joining the pieces with the separator recovers the original sequence.
pub proof fn lemma_split_char_join(s: Seq<char>, sep: char)
    ensures
        join_char(split_char(s, sep), sep) == s,
    decreases s.len(),
{
    if s.len() == 0 {
        assert(join_char(split_char(s, sep), sep) =~= s);
    } else {
        lemma_split_char_join(s.drop_last(), sep);
        lemma_split_char_min_len(s.drop_last(), sep);
        let r = split_char(s.drop_last(), sep);
        if s.last() == sep {
            assert(split_char(s, sep) == r.push(Seq::<char>::empty()));
            assert(r.push(Seq::<char>::empty()).drop_last() =~= r);
            assert(join_char(r.push(Seq::<char>::empty()), sep) == join_char(r, sep).push(sep)
                + Seq::<char>::empty());
            assert(join_char(r, sep).push(sep) + Seq::<char>::empty() =~= s.drop_last().push(
                s.last(),
            ));
            assert(s.drop_last().push(s.last()) =~= s);
        } else {
            let u = r.update(r.len() - 1, r.last().push(s.last()));
            assert(split_char(s, sep) == u);
            if r.len() == 1 {
                assert(u.len() == 1);
                assert(join_char(u, sep) == u[0]);
                assert(u[0] == r[0].push(s.last()));
                assert(join_char(r, sep) == r[0]);
                assert(r[0].push(s.last()) =~= s.drop_last().push(s.last()));
                assert(s.drop_last().push(s.last()) =~= s);
            } else {
                assert(u.drop_last() =~= r.drop_last());
                assert(u.last() == r.last().push(s.last()));
                assert(join_char(u, sep) == join_char(r.drop_last(), sep).push(sep) + r.last().push(
                    s.last(),
                ));
                assert(join_char(r, sep) == join_char(r.drop_last(), sep).push(sep) + r.last());
                assert(join_char(r.drop_last(), sep).push(sep) + r.last().push(s.last())
                    =~= (join_char(r.drop_last(), sep).push(sep) + r.last()).push(s.last()));
                assert(join_char(u, sep) =~= s.drop_last().push(s.last()));
                assert(s.drop_last().push(s.last()) =~= s);
            }
        }
    }
}

/// The first index satisfying a first-occurrence description is `find_char`.
pub proof fn lemma_find_char_is_first(s: Seq<char>, c: char, k: int)
    requires
        0 <= k < s.len(),
        s[k] == c,
        forall|j: int| 0 <= j < k ==> s[j] != c,
    ensures
        find_char(s, c) == k,
    decreases s.len(),
{
    if s[0] == c {
        assert(k == 0);
    } else {
        assert(k >= 1);
        lemma_find_char_is_first(s.drop_first(), c, k - 1);
    }
}

pub proof fn lemma_find_char_in_range(s: Seq<char>, c: char)
    requires
        s.contains(c),
    ensures
        0 <= find_char(s, c) < s.len(),
        s[find_char(s, c)] == c,
        forall|j: int| 0 <= j < find_char(s, c) ==> s[j] != c,
    decreases s.len(),
{
    if s[0] != c {
        assert(s.drop_first().contains(c)) by {
            let i = choose|i: int| 0 <= i < s.len() && s[i] == c;
            assert(s.drop_first()[i - 1] == c);
        }
        lemma_find_char_in_range(s.drop_first(), c);
        assert(forall|j: int|
            0 <= j < find_char(s, c) ==> #[trigger] s[j] == if j == 0 {
                s[0]
            } else {
                s.drop_first()[j - 1]
            });
    }
}

/// Whether `s` contains the character `c`.
pub fn str_contains_char(s: &str, c: char) -> (r: bool)
    ensures
        r == s@.contains(c),
{
    let n = s.unicode_len();
    let mut i: usize = 0;
    while i < n
        invariant
            n == s@.len(),
            i <= n,
            forall|j: int| 0 <= j < i ==> s@[j] != c,
        decreases n - i,
    {
        if s.get_char(i) == c {
            assert(s@.contains(c)) by {
                assert(s@[i as int] == c);
            }
            return true;
        }
        i = i + 1;
    }
    false
}

/// Index of the first occurrence of `c` in `s`, if any.
pub fn str_find_char(s: &str, c: char) -> (r: Option<usize>)
    ensures
        match r {
            Some(k) => s@.contains(c) && k == find_char(s@, c),
            None => !s@.contains(c),
        },
{
    let n = s.unicode_len();
    let mut i: usize = 0;
    while i < n
        invariant
            n == s@.len(),
            i <= n,
            forall|j: int| 0 <= j < i ==> s@[j] != c,
        decreases n - i,
    {
        if s.get_char(i) == c {
            proof {
                assert(s@[i as int] == c);
                assert(s@.contains(c));
                lemma_find_char_is_first(s@, c, i as int);
            }
            return Some(i);
        }
        i = i + 1;
    }
    None
}

/// The pieces of `s` between occurrences of `sep`, as owned strings.
pub fn split_str(s: &str, sep: char) -> (r: Vec<String>)
    ensures
        r@.len() == split_char(s@, sep).len(),
        forall|i: int| 0 <= i < r@.len() ==> r@[i]@ == split_char(s@, sep)[i],
{
    let n = s.unicode_len();
    let mut r: Vec<String> = Vec::new();
    let mut start: usize = 0;
    let mut i: usize = 0;
    while i < n
        invariant
            n == s@.len(),
            start <= i <= n,
            split_char(s@.take(i as int), sep).len() == r@.len() + 1,
            forall|j: int|
                0 <= j < r@.len() ==> r@[j]@ == split_char(s@.take(i as int), sep)[j],
            split_char(s@.take(i as int), sep).last() == s@.subrange(start as int, i as int),
        decreases n - i,
    {
        let c = s.get_char(i);
        proof {
            assert(s@.take(i + 1).drop_last() =~= s@.take(i as int));
            assert(s@.take(i + 1).last() == s@[i as int]);
            lemma_split_char_min_len(s@.take(i as int), sep);
        }
        if c == sep {
            let piece = s.substring_char(start, i);
            r.push(String::from_str(piece));
            proof {
                assert(split_char(s@.take(i + 1), sep) == split_char(s@.take(i as int), sep).push(
                    Seq::<char>::empty(),
                ));
                assert(s@.subrange(i + 1, i + 1) =~= Seq::<char>::empty());
                assert(forall|j: int|
                    0 <= j < r@.len() ==> r@[j]@ == split_char(s@.take(i + 1), sep)[j]);
            }
            start = i + 1;
        } else {
            proof {
                let old_split = split_char(s@.take(i as int), sep);
                assert(split_char(s@.take(i + 1), sep) == old_split.update(
                    old_split.len() - 1,
                    old_split.last().push(s@[i as int]),
                ));
                assert(s@.subrange(start as int, i as int).push(s@[i as int]) =~= s@.subrange(
                    start as int,
                    i + 1,
                ));
            }
        }
        i = i + 1;
    }
    proof {
        assert(s@.take(n as int) =~= s@);
    }
    let piece = s.substring_char(start, n);
    r.push(String::from_str(piece));
    r
}

} // verus!
