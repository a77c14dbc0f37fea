//! Sequences, strings and the few string operations the protocol uses,
//! stated over `Seq` and implemented over vectors of characters and bytes.
use vstd::prelude::*;

verus! {

/// `p` is a prefix of `s`.
pub open spec fn starts_with<A>(s: Seq<A>, p: Seq<A>) -> bool {
    p.len() <= s.len() && s.subrange(0, p.len() as int) == p
}

/// `p` occurs in `s` at position `i`.
pub open spec fn occurs_at<A>(s: Seq<A>, p: Seq<A>, i: int) -> bool {
    0 <= i && i + p.len() <= s.len() && s.subrange(i, i + p.len()) == p
}

/// `p` occurs somewhere in `s`.
pub open spec fn contains<A>(s: Seq<A>, p: Seq<A>) -> bool {
    exists|i: int| occurs_at(s, p, i)
}

/// The first position at or after `i` where `p` occurs in `s`.
pub open spec fn find_from<A>(s: Seq<A>, p: Seq<A>, i: int) -> Option<int>
    decreases s.len() - i,
{
    if i < 0 || i + p.len() > s.len() {
        None
    } else if p.len() == 0 || s.subrange(i, i + p.len()) == p {
        Some(i)
    } else {
        find_from(s, p, i + 1)
    }
}

pub proof fn lemma_find_from<A>(s: Seq<A>, p: Seq<A>, i: int)
    requires
        0 <= i,
    ensures
        find_from(s, p, i) matches Some(j) ==> i <= j && occurs_at(s, p, j) && forall|k: int|
            i <= k < j ==> !occurs_at(s, p, k),
        find_from(s, p, i) is None ==> forall|k: int| i <= k ==> !occurs_at(s, p, k),
    decreases s.len() - i,
{
    if i + p.len() > s.len() {
    } else if p.len() == 0 {
        assert(s.subrange(i, i + p.len()) =~= p);
    } else if s.subrange(i, i + p.len()) == p {
    } else {
        lemma_find_from(s, p, i + 1);
    }
}

/// The pieces of `s[start..]` between the non-overlapping occurrences of
/// the non-empty separator `p`, found from left to right.
pub open spec fn split_from<A>(s: Seq<A>, p: Seq<A>, start: int) -> Seq<Seq<A>>
    decreases s.len() - start,
{
    if p.len() == 0 || start < 0 || start > s.len() {
        seq![]
    } else {
        match find_from(s, p, start) {
            Some(i) => {
                proof {
                    lemma_find_from(s, p, start);
                }
                seq![s.subrange(start, i)] + split_from(s, p, i + p.len())
            },
            None => seq![s.subrange(start, s.len() as int)],
        }
    }
}

pub proof fn lemma_split_from_nonempty<A>(s: Seq<A>, p: Seq<A>, start: int)
    requires
        p.len() > 0,
        0 <= start <= s.len(),
    ensures
        split_from(s, p, start).len() >= 1,
        split_from(s, p, start)[0] == s.subrange(
            start,
            match find_from(s, p, start) {
                Some(i) => i,
                None => s.len() as int,
            },
        ),
        split_from(s, p, start).len() >= 2 <==> find_from(s, p, start) is Some,
    decreases s.len() - start,
{
    lemma_find_from(s, p, start);
    match find_from(s, p, start) {
        Some(i) => {
            lemma_split_from_nonempty(s, p, i + p.len());
        },
        None => {},
    }
}

/// For a non-empty separator, `s.split(p)` has a second piece exactly when
/// `p` occurs in `s`; the first piece always exists.
pub proof fn lemma_split_len<A>(s: Seq<A>, p: Seq<A>)
    ensures
        split(s, p).len() >= 1,
        p.len() > 0 ==> (split(s, p).len() >= 2 <==> contains(s, p)),
{
    if p.len() > 0 {
        lemma_split_from_nonempty(s, p, 0);
        lemma_find_from(s, p, 0);
        if contains(s, p) {
            let i = choose|i: int| occurs_at(s, p, i);
            assert(occurs_at(s, p, i));
        }
    }
}

/// `s.split(p)`: the pieces of `s` between the non-overlapping occurrences
/// of `p`. An empty separator matches before and after every element.
pub open spec fn split<A>(s: Seq<A>, p: Seq<A>) -> Seq<Seq<A>> {
    if p.len() == 0 {
        seq![Seq::<A>::empty()] + s.map_values(|c: A| seq![c]) + seq![Seq::<A>::empty()]
    } else {
        split_from(s, p, 0)
    }
}

/// `parts.join(sep)`.
pub open spec fn join<A>(parts: Seq<Seq<A>>, sep: Seq<A>) -> Seq<A>
    decreases parts.len(),
{
    if parts.len() == 0 {
        Seq::<A>::empty()
    } else if parts.len() == 1 {
        parts[0]
    } else {
        join(parts.drop_last(), sep) + sep + parts.last()
    }
}

pub proof fn lemma_join_front<A>(parts: Seq<Seq<A>>, sep: Seq<A>)
    requires
        parts.len() >= 2,
    ensures
        join(parts, sep) == parts[0] + sep + join(parts.drop_first(), sep),
    decreases parts.len(),
{
    if parts.len() == 2 {
        assert(parts.drop_first().len() == 1);
        assert(parts.drop_last().len() == 1);
        assert(join(parts.drop_last(), sep) == parts.drop_last()[0]);
        assert(join(parts.drop_first(), sep) == parts.drop_first()[0]);
        assert(parts.drop_last()[0] == parts[0]);
        assert(parts.drop_first()[0] == parts.last());
    } else {
        lemma_join_front(parts.drop_last(), sep);
        assert(parts.drop_last().drop_first() =~= parts.drop_first().drop_last());
        assert(join(parts.drop_first(), sep) == join(parts.drop_first().drop_last(), sep) + sep
            + parts.drop_first().last());
        assert(parts.drop_first().last() == parts.last());
        assert(parts.drop_last()[0] == parts[0]);
        assert(join(parts, sep) =~= parts[0] + sep + join(parts.drop_first(), sep));
    }
}

/// Joining the pieces of `s[start..]` with the separator gives `s[start..]` back.
proof fn lemma_join_split_from<A>(s: Seq<A>, p: Seq<A>, start: int)
    requires
        p.len() > 0,
        0 <= start <= s.len(),
    ensures
        join(split_from(s, p, start), p) == s.subrange(start, s.len() as int),
    decreases s.len() - start,
{
    lemma_find_from(s, p, start);
    match find_from(s, p, start) {
        Some(i) => {
            let rest = split_from(s, p, i + p.len());
            lemma_join_split_from(s, p, i + p.len());
            lemma_split_from_nonempty(s, p, i + p.len());
            let parts = seq![s.subrange(start, i)] + rest;
            assert(split_from(s, p, start) == parts);
            if rest.len() >= 1 {
                lemma_join_front(parts, p);
                assert(parts.drop_first() =~= rest);
            }
            assert(s.subrange(start, s.len() as int) =~= s.subrange(start, i) + p + s.subrange(
                i + p.len(),
                s.len() as int,
            ));
        },
        None => {},
    }
}

/// Splitting at a separator and joining with it gives the text back.
pub proof fn lemma_join_split<A>(s: Seq<A>, p: Seq<A>)
    ensures
        join(split(s, p), p) == s,
{
    if p.len() > 0 {
        lemma_join_split_from(s, p, 0);
        assert(s.subrange(0, s.len() as int) =~= s);
    } else {
        assert(p =~= Seq::<A>::empty());
        lemma_join_singletons(s);
    }
}

/// Joining the empty piece, the one-element pieces of `s` and the empty
/// piece, with nothing between them, gives `s`.
proof fn lemma_join_singletons<A>(s: Seq<A>)
    ensures
        join(
            seq![Seq::<A>::empty()] + s.map_values(|c: A| seq![c]) + seq![Seq::<A>::empty()],
            Seq::<A>::empty(),
        ) == s,
    decreases s.len(),
{
    let e = Seq::<A>::empty();
    let parts = seq![e] + s.map_values(|c: A| seq![c]) + seq![e];
    assert(parts.drop_last() =~= seq![e] + s.map_values(|c: A| seq![c]));
    lemma_join_prefix_singletons(s);
    assert(join(parts, e) =~= join(parts.drop_last(), e) + e + e);
}

proof fn lemma_join_prefix_singletons<A>(s: Seq<A>)
    ensures
        join(seq![Seq::<A>::empty()] + s.map_values(|c: A| seq![c]), Seq::<A>::empty()) == s,
    decreases s.len(),
{
    let e = Seq::<A>::empty();
    let parts = seq![e] + s.map_values(|c: A| seq![c]);
    if s.len() == 0 {
        assert(parts =~= seq![e]);
    } else {
        lemma_join_prefix_singletons(s.drop_last());
        assert(parts.drop_last() =~= seq![e] + s.drop_last().map_values(|c: A| seq![c]));
        assert(parts.last() == seq![s.last()]);
        assert(s =~= s.drop_last() + e + seq![s.last()]);
    }
}

/// The first occurrence at or after `i` is the earliest one.
pub proof fn lemma_find_first<A>(s: Seq<A>, p: Seq<A>, i: int, j: int)
    requires
        0 <= i <= j,
        occurs_at(s, p, j),
        forall|k: int| i <= k < j ==> !occurs_at(s, p, k),
    ensures
        find_from(s, p, i) == Some(j),
    decreases j - i,
{
    if i == j {
        assert(occurs_at(s, p, i));
    } else {
        if p.len() == 0 {
            assert(s.subrange(i, i) =~= p);
            assert(occurs_at(s, p, i));
        }
        assert(!occurs_at(s, p, i));
        assert(s.subrange(i, i + p.len()) != p);
        lemma_find_first(s, p, i + 1, j);
        assert(find_from(s, p, i) == find_from(s, p, i + 1));
    }
}

/// Searching a suffix finds the same occurrences, shifted.
proof fn lemma_find_shift<A>(s: Seq<A>, p: Seq<A>, d: int, i: int)
    requires
        0 <= d <= i,
        d <= s.len(),
    ensures
        find_from(s, p, i) == (match find_from(s.subrange(d, s.len() as int), p, i - d) {
            Some(j) => Some(j + d),
            None => None,
        }),
    decreases s.len() - i,
{
    let t = s.subrange(d, s.len() as int);
    if i + p.len() > s.len() {
    } else {
        assert(t.subrange(i - d, i - d + p.len()) =~= s.subrange(i, i + p.len()));
        if p.len() == 0 || s.subrange(i, i + p.len()) == p {
        } else {
            lemma_find_shift(s, p, d, i + 1);
        }
    }
}

/// Splitting from a position only looks at the suffix from there.
pub proof fn lemma_split_from_shift<A>(s: Seq<A>, p: Seq<A>, d: int, start: int)
    requires
        p.len() > 0,
        0 <= d <= start <= s.len(),
    ensures
        split_from(s, p, start) == split_from(s.subrange(d, s.len() as int), p, start - d),
    decreases s.len() - start,
{
    let t = s.subrange(d, s.len() as int);
    lemma_find_shift(s, p, d, start);
    lemma_find_from(s, p, start);
    match find_from(s, p, start) {
        Some(i) => {
            lemma_split_from_shift(s, p, d, i + p.len());
            assert(t.subrange(start - d, i - d) =~= s.subrange(start, i));
        },
        None => {
            assert(t.subrange(start - d, t.len() as int) =~= s.subrange(start, s.len() as int));
        },
    }
}

/// A text made of pieces joined by a one-element separator that none of
/// the pieces holds splits back into those pieces.
pub proof fn lemma_split_join<A>(parts: Seq<Seq<A>>, sep: Seq<A>)
    requires
        sep.len() == 1,
        parts.len() >= 1,
        forall|k: int| 0 <= k < parts.len() ==> !contains(#[trigger] parts[k], sep),
    ensures
        split(join(parts, sep), sep) == parts,
    decreases parts.len(),
{
    let s = join(parts, sep);
    if parts.len() == 1 {
        assert(!contains(parts[0], sep));
        lemma_find_from(s, sep, 0);
        assert(split_from(s, sep, 0) == seq![s.subrange(0, s.len() as int)]);
        assert(s.subrange(0, s.len() as int) =~= s);
        assert(split(s, sep) =~= parts);
    } else {
        let first = parts[0];
        let rest = parts.drop_first();
        assert forall|k: int| 0 <= k < rest.len() implies !contains(#[trigger] rest[k], sep) by {
            assert(rest[k] == parts[k + 1]);
        }
        lemma_split_join(rest, sep);
        lemma_join_front(parts, sep);
        let t = join(rest, sep);
        assert(s == first + sep + t);
        let n0 = first.len() as int;
        assert(!contains(first, sep));
        assert forall|k: int| 0 <= k < n0 implies !occurs_at(s, sep, k) by {
            if occurs_at(s, sep, k) {
                assert(s.subrange(k, k + 1)[0] == s[k]);
                assert(first.subrange(k, k + 1) =~= s.subrange(k, k + 1));
                assert(occurs_at(first, sep, k));
            }
        }
        assert(s.subrange(n0, n0 + 1) =~= sep);
        lemma_find_first(s, sep, 0, n0);
        lemma_split_from_shift(s, sep, n0 + 1, n0 + 1);
        assert(s.subrange(n0 + 1, s.len() as int) =~= t);
        assert(s.subrange(0, n0) =~= first);
        assert(split_from(s, sep, 0) == seq![first] + split_from(t, sep, 0));
        assert(split(s, sep) =~= parts);
    }
}

/// The piece after a leading separator, when the rest does not hold it.
pub proof fn lemma_split_after_prefix<A>(p: Seq<A>, x: Seq<A>)
    requires
        p.len() > 0,
        !contains(x, p),
    ensures
        split(p + x, p).len() == 2,
        split(p + x, p)[0] == Seq::<A>::empty(),
        split(p + x, p)[1] == x,
{
    let s = p + x;
    let n = p.len() as int;
    assert(s.subrange(0, n) =~= p);
    lemma_find_first(s, p, 0, 0);
    assert forall|k: int| n <= k implies !occurs_at(s, p, k) by {
        if occurs_at(s, p, k) {
            assert(x.subrange(k - n, k - n + p.len()) =~= s.subrange(k, k + p.len()));
            assert(occurs_at(x, p, k - n));
        }
    }
    lemma_find_from(s, p, n);
    assert(find_from(s, p, n) is None);
    assert(s.subrange(n, s.len() as int) =~= x);
    assert(s.subrange(0, 0) =~= Seq::<A>::empty());
    assert(split_from(s, p, n) == seq![x]);
    assert(split_from(s, p, 0) == seq![Seq::<A>::empty()] + seq![x]);
    assert(split(s, p) =~= seq![Seq::<A>::empty(), x]);
}

/// Putting text in front whose elements all differ from the first element
/// of `p` creates no occurrence of `p`.
pub proof fn lemma_not_contains_prepend<A>(a: Seq<A>, x: Seq<A>, p: Seq<A>)
    requires
        p.len() > 0,
        !contains(x, p),
        forall|i: int| 0 <= i < a.len() ==> a[i] != p[0],
    ensures
        !contains(a + x, p),
{
    let s = a + x;
    assert forall|k: int| !occurs_at(s, p, k) by {
        if occurs_at(s, p, k) {
            assert(s.subrange(k, k + p.len())[0] == s[k]);
            if k < a.len() {
                assert(s[k] == a[k]);
            } else {
                assert(x.subrange(k - a.len(), k - a.len() + p.len()) =~= s.subrange(k, k + p.len()));
                assert(occurs_at(x, p, k - a.len()));
            }
        }
    }
}

/// Splitting at a one-element separator: a first piece without the
/// separator, the separator, then the rest, splits into that piece followed
/// by the pieces of the rest.
pub proof fn lemma_split_front<A>(a: Seq<A>, p: Seq<A>, b: Seq<A>)
    requires
        p.len() == 1,
        lacks(a, p[0]),
    ensures
        split(a + p + b, p) == seq![a] + split(b, p),
{
    let s = a + p + b;
    let n = a.len() as int;
    assert(s.subrange(n, n + 1) =~= p);
    assert forall|k: int| 0 <= k < n implies !occurs_at(s, p, k) by {
        assert(s.subrange(k, k + 1)[0] == s[k]);
        assert(s[k] == a[k]);
    }
    lemma_find_first(s, p, 0, n);
    lemma_split_from_shift(s, p, n + 1, n + 1);
    assert(s.subrange(n + 1, s.len() as int) =~= b);
    assert(s.subrange(0, n) =~= a);
    assert(split_from(s, p, 0) == seq![a] + split_from(s, p, n + 1));
}

/// Text without the one-element separator is a single piece.
pub proof fn lemma_split_whole<A>(t: Seq<A>, p: Seq<A>)
    requires
        p.len() == 1,
        lacks(t, p[0]),
    ensures
        split(t, p) == seq![t],
{
    assert forall|k: int| !occurs_at(t, p, k) by {
        if occurs_at(t, p, k) {
            assert(t.subrange(k, k + 1)[0] == t[k]);
        }
    }
    lemma_find_from(t, p, 0);
    assert(t.subrange(0, t.len() as int) =~= t);
}

/// The piece after a leading separator is the first piece of the rest.
pub proof fn lemma_split_after_lead<A>(p: Seq<A>, t: Seq<A>)
    requires
        p.len() > 0,
    ensures
        split(p + t, p).len() >= 2,
        split(p + t, p)[1] == split(t, p)[0],
{
    let s = p + t;
    let n = p.len() as int;
    assert(s.subrange(0, n) =~= p);
    lemma_find_first(s, p, 0, 0);
    lemma_split_from_nonempty(s, p, n);
    lemma_split_from_shift(s, p, n, n);
    assert(s.subrange(n, s.len() as int) =~= t);
    assert(split_from(s, p, 0) == seq![s.subrange(0, 0)] + split_from(s, p, n));
}

/// The first piece of a split keeps a prefix of the text in which the
/// separator cannot start.
pub proof fn lemma_first_piece_keeps_prefix<A>(t: Seq<A>, p: Seq<A>, q: Seq<A>)
    requires
        p.len() > 0,
        starts_with(t, q),
        forall|i: int| 0 <= i < q.len() ==> q[i] != p[0],
    ensures
        starts_with(split(t, p)[0], q),
{
    lemma_split_from_nonempty(t, p, 0);
    lemma_find_from(t, p, 0);
    match find_from(t, p, 0) {
        Some(k) => {
            if k < q.len() {
                assert(t.subrange(k, k + p.len())[0] == t[k]);
                assert(t.subrange(0, q.len() as int)[k] == t[k]);
            }
            assert(t.subrange(0, k).subrange(0, q.len() as int) =~= t.subrange(0, q.len() as int));
        },
        None => {
            assert(t.subrange(0, t.len() as int) =~= t);
        },
    }
}

/// No element of `s` is `x`.
pub open spec fn lacks<A>(s: Seq<A>, x: A) -> bool {
    forall|i: int| 0 <= i < s.len() ==> s[i] != x
}

/// A one-element pattern occurs exactly where its element does.
pub proof fn lemma_lacks_contains<A>(s: Seq<A>, x: A)
    ensures
        lacks(s, x) <==> !contains(s, seq![x]),
{
    if !lacks(s, x) {
        let i = choose|i: int| 0 <= i < s.len() && s[i] == x;
        assert(s.subrange(i, i + 1) =~= seq![x]);
        assert(occurs_at(s, seq![x], i));
    }
    if contains(s, seq![x]) {
        let i = choose|i: int| occurs_at(s, seq![x], i);
        assert(s.subrange(i, i + 1)[0] == s[i]);
    }
}

/// Every piece of a split of a text that lacks `x` lacks it too.
proof fn lemma_split_from_lacks<A>(s: Seq<A>, p: Seq<A>, start: int, x: A)
    requires
        p.len() > 0,
        0 <= start <= s.len(),
        lacks(s, x),
    ensures
        forall|k: int| 0 <= k < split_from(s, p, start).len() ==> lacks(#[trigger] split_from(s, p, start)[k], x),
    decreases s.len() - start,
{
    lemma_find_from(s, p, start);
    match find_from(s, p, start) {
        Some(i) => {
            lemma_split_from_lacks(s, p, i + p.len(), x);
            let parts = split_from(s, p, start);
            assert forall|k: int| 0 <= k < parts.len() implies lacks(#[trigger] parts[k], x) by {
                if k > 0 {
                    assert(parts[k] == split_from(s, p, i + p.len())[k - 1]);
                }
            }
        },
        None => {},
    }
}

pub proof fn lemma_split_lacks<A>(s: Seq<A>, p: Seq<A>, x: A)
    requires
        lacks(s, x),
    ensures
        forall|k: int| 0 <= k < split(s, p).len() ==> lacks(#[trigger] split(s, p)[k], x),
{
    if p.len() > 0 {
        lemma_split_from_lacks(s, p, 0, x);
    } else {
        let parts = split(s, p);
        assert forall|k: int| 0 <= k < parts.len() implies lacks(#[trigger] parts[k], x) by {
            if 0 < k < parts.len() - 1 {
                assert(parts[k] == seq![s[k - 1]]);
            }
        }
    }
}

/// No piece of a split at a one-element separator holds that element.
proof fn lemma_split_from_sep_lacks<A>(s: Seq<A>, x: A, start: int)
    requires
        0 <= start <= s.len(),
    ensures
        forall|k: int| 0 <= k < split_from(s, seq![x], start).len() ==> lacks(#[trigger] split_from(s, seq![x], start)[k], x),
    decreases s.len() - start,
{
    let p = seq![x];
    lemma_find_from(s, p, start);
    let parts = split_from(s, p, start);
    match find_from(s, p, start) {
        Some(i) => {
            lemma_split_from_sep_lacks(s, x, i + 1);
            assert forall|k: int| 0 <= k < parts.len() implies lacks(#[trigger] parts[k], x) by {
                if k > 0 {
                    assert(parts[k] == split_from(s, p, i + 1)[k - 1]);
                } else {
                    assert forall|j: int| 0 <= j < parts[0].len() implies parts[0][j] != x by {
                        assert(parts[0][j] == s[start + j]);
                        if s[start + j] == x {
                            assert(s.subrange(start + j, start + j + 1) =~= p);
                            assert(occurs_at(s, p, start + j));
                        }
                    }
                }
            }
        },
        None => {
            assert forall|j: int| 0 <= j < parts[0].len() implies parts[0][j] != x by {
                assert(parts[0][j] == s[start + j]);
                if s[start + j] == x {
                    assert(s.subrange(start + j, start + j + 1) =~= p);
                    assert(occurs_at(s, p, start + j));
                }
            }
        },
    }
}

pub proof fn lemma_split_sep_lacks<A>(s: Seq<A>, x: A)
    ensures
        forall|k: int| 0 <= k < split(s, seq![x]).len() ==> lacks(#[trigger] split(s, seq![x])[k], x),
{
    lemma_split_from_sep_lacks(s, x, 0);
}

/// Joining pieces that lack `x` with a separator that lacks it gives a
/// text that lacks it.
pub proof fn lemma_join_lacks<A>(parts: Seq<Seq<A>>, sep: Seq<A>, x: A)
    requires
        lacks(sep, x),
        forall|k: int| 0 <= k < parts.len() ==> lacks(#[trigger] parts[k], x),
    ensures
        lacks(join(parts, sep), x),
    decreases parts.len(),
{
    if parts.len() > 1 {
        let init = parts.drop_last();
        assert forall|k: int| 0 <= k < init.len() implies lacks(#[trigger] init[k], x) by {
            assert(init[k] == parts[k]);
        }
        lemma_join_lacks(init, sep, x);
        assert(lacks(parts[parts.len() - 1], x));
    } else if parts.len() == 1 {
        assert(lacks(parts[0], x));
    }
}

/// The slices of `s` that a list of ranges picks out.
pub open spec fn pieces<A>(s: Seq<A>, rs: Seq<(usize, usize)>) -> Seq<Seq<A>> {
    rs.map_values(|r: (usize, usize)| s.subrange(r.0 as int, r.1 as int))
}

/// Every range lies within a sequence of length `n`.
pub open spec fn ranges_within(rs: Seq<(usize, usize)>, n: int) -> bool {
    forall|k: int| 0 <= k < rs.len() ==> (#[trigger] rs[k]).0 <= rs[k].1 <= n
}

/// The character views of a list of strings.
pub open spec fn views(v: Seq<String>) -> Seq<Seq<char>> {
    v.map_values(|s: String| s@)
}

/// The characters of a string, in order.
pub fn chars_of(s: &str) -> (res: Vec<char>)
    ensures
        res@ == s@,
{
    let n = s.unicode_len();
    let mut res: Vec<char> = Vec::new();
    let mut i: usize = 0;
    while i < n
        invariant
            n == s@.len(),
            i <= n,
            res@ == s@.subrange(0, i as int),
        decreases n - i,
    {
        res.push(s.get_char(i));
        i = i + 1;
    }
    res
}

/// Whether `p` occurs in `s` at `i`.
pub fn chars_match_at(s: &[char], p: &[char], i: usize) -> (res: bool)
    requires
        i <= s@.len(),
    ensures
        res == occurs_at(s@, p@, i as int),
{
    if p.len() > s.len() - i {
        return false;
    }
    let mut k: usize = 0;
    while k < p.len()
        invariant
            i + p@.len() <= s@.len(),
            s@.len() == s.len(),
            k <= p@.len(),
            forall|j: int| 0 <= j < k ==> s@[i + j] == p@[j],
        decreases p@.len() - k,
    {
        if s[i + k] != p[k] {
            assert(s@.subrange(i as int, i + p@.len())[k as int] != p@[k as int]);
            return false;
        }
        k = k + 1;
    }
    assert(s@.subrange(i as int, i + p@.len()) =~= p@);
    true
}

/// The first occurrence of `p` in `s` at or after `from`.
pub fn chars_find(s: &[char], p: &[char], from: usize) -> (res: Option<usize>)
    requires
        from <= s@.len(),
    ensures
        match res {
            Some(i) => find_from(s@, p@, from as int) == Some(i as int),
            None => find_from(s@, p@, from as int) is None,
        },
{
    if p.len() == 0 {
        assert(s@.subrange(from as int, from as int) =~= p@);
        return Some(from);
    }
    let mut i = from;
    while i <= s.len()
        invariant
            p@.len() > 0,
            s@.len() == s.len(),
            from <= i,
            find_from(s@, p@, from as int) == find_from(s@, p@, i as int),
        decreases s@.len() + 1 - i,
    {
        if p.len() > s.len() - i {
            return None;
        }
        if chars_match_at(s, p, i) {
            assert(p@.len() == 0 || s@.subrange(i as int, i + p@.len()) == p@);
            return Some(i);
        }
        i = i + 1;
    }
    None
}

/// Whether `s` begins with `p`.
pub fn chars_starts_with(s: &[char], p: &[char]) -> (res: bool)
    ensures
        res == starts_with(s@, p@),
{
    chars_match_at(s, p, 0)
}

/// Whether `p` occurs in `s`.
pub fn chars_contains(s: &[char], p: &[char]) -> (res: bool)
    ensures
        res == contains(s@, p@),
{
    let r = chars_find(s, p, 0);
    proof {
        lemma_find_from(s@, p@, 0);
    }
    r.is_some()
}

/// The ranges of the pieces of `s.split(p)` for a non-empty `p`.
pub fn chars_split_ranges(s: &[char], p: &[char]) -> (res: Vec<(usize, usize)>)
    requires
        p@.len() > 0,
    ensures
        ranges_within(res@, s@.len() as int),
        pieces(s@, res@) == split(s@, p@),
{
    let mut out: Vec<(usize, usize)> = Vec::new();
    let mut start: usize = 0;
    loop
        invariant
            p@.len() > 0,
            start <= s@.len(),
            ranges_within(out@, s@.len() as int),
            pieces(s@, out@) + split_from(s@, p@, start as int) == split_from(s@, p@, 0),
        decreases s@.len() - start,
    {
        let found = chars_find(s, p, start);
        assert(s@.len() == s.len());
        proof {
            lemma_find_from(s@, p@, start as int);
        }
        match found {
            Some(i) => {
                let ghost before = out@;
                out.push((start, i));
                assert(pieces(s@, out@) =~= pieces(s@, before) + seq![s@.subrange(start as int, i as int)]);
                start = i + p.len();
            },
            None => {
                let ghost before = out@;
                out.push((start, s.len()));
                assert(pieces(s@, out@) =~= pieces(s@, before) + seq![s@.subrange(start as int, s@.len() as int)]);
                assert(split_from(s@, p@, 0) =~= pieces(s@, out@));
                return out;
            },
        }
    }
}


/// Whether `p` occurs in the bytes `s` at `i`.
pub fn bytes_match_at(s: &[u8], p: &[u8], i: usize) -> (res: bool)
    requires
        i <= s@.len(),
    ensures
        res == occurs_at(s@, p@, i as int),
{
    if p.len() > s.len() - i {
        return false;
    }
    let mut k: usize = 0;
    while k < p.len()
        invariant
            i + p@.len() <= s@.len(),
            s@.len() == s.len(),
            k <= p@.len(),
            forall|j: int| 0 <= j < k ==> s@[i + j] == p@[j],
        decreases p@.len() - k,
    {
        if s[i + k] != p[k] {
            assert(s@.subrange(i as int, i + p@.len())[k as int] != p@[k as int]);
            return false;
        }
        k = k + 1;
    }
    assert(s@.subrange(i as int, i + p@.len()) =~= p@);
    true
}

/// The first occurrence of `p` in `s` at or after `from`.
pub fn bytes_find(s: &[u8], p: &[u8], from: usize) -> (res: Option<usize>)
    requires
        from <= s@.len(),
    ensures
        match res {
            Some(i) => find_from(s@, p@, from as int) == Some(i as int),
            None => find_from(s@, p@, from as int) is None,
        },
{
    if p.len() == 0 {
        assert(s@.subrange(from as int, from as int) =~= p@);
        return Some(from);
    }
    let mut i = from;
    while i <= s.len()
        invariant
            p@.len() > 0,
            s@.len() == s.len(),
            from <= i,
            find_from(s@, p@, from as int) == find_from(s@, p@, i as int),
        decreases s@.len() + 1 - i,
    {
        if p.len() > s.len() - i {
            return None;
        }
        if bytes_match_at(s, p, i) {
            assert(p@.len() == 0 || s@.subrange(i as int, i + p@.len()) == p@);
            return Some(i);
        }
        i = i + 1;
    }
    None
}

/// Whether `s` begins with `p`.
pub fn bytes_starts_with(s: &[u8], p: &[u8]) -> (res: bool)
    ensures
        res == starts_with(s@, p@),
{
    bytes_match_at(s, p, 0)
}

/// Whether `p` occurs in `s`.
pub fn bytes_contains(s: &[u8], p: &[u8]) -> (res: bool)
    ensures
        res == contains(s@, p@),
{
    let r = bytes_find(s, p, 0);
    proof {
        lemma_find_from(s@, p@, 0);
    }
    r.is_some()
}

/// The ranges of the pieces of `s.split(p)` for a non-empty `p`, over bytes.
pub fn bytes_split_ranges(s: &[u8], p: &[u8]) -> (res: Vec<(usize, usize)>)
    requires
        p@.len() > 0,
    ensures
        ranges_within(res@, s@.len() as int),
        pieces(s@, res@) == split(s@, p@),
{
    let mut out: Vec<(usize, usize)> = Vec::new();
    let mut start: usize = 0;
    loop
        invariant
            p@.len() > 0,
            start <= s@.len(),
            ranges_within(out@, s@.len() as int),
            pieces(s@, out@) + split_from(s@, p@, start as int) == split_from(s@, p@, 0),
        decreases s@.len() - start,
    {
        let found = bytes_find(s, p, start);
        assert(s@.len() == s.len());
        proof {
            lemma_find_from(s@, p@, start as int);
        }
        match found {
            Some(i) => {
                let ghost before = out@;
                out.push((start, i));
                assert(pieces(s@, out@) =~= pieces(s@, before) + seq![s@.subrange(start as int, i as int)]);
                start = i + p.len();
            },
            None => {
                let ghost before = out@;
                out.push((start, s.len()));
                assert(pieces(s@, out@) =~= pieces(s@, before) + seq![s@.subrange(start as int, s@.len() as int)]);
                assert(split_from(s@, p@, 0) =~= pieces(s@, out@));
                return out;
            },
        }
    }
}


/// Whether two character sequences are equal.
pub fn chars_eq(a: &[char], b: &[char]) -> (res: bool)
    ensures
        res == (a@ == b@),
{
    if a.len() != b.len() {
        return false;
    }
    let r = chars_match_at(a, b, 0);
    assert(a@.subrange(0, b@.len() as int) =~= a@);
    r
}

/// A piece of a string, by character positions.
pub fn piece_of(s: &str, from: usize, to: usize) -> (res: String)
    requires
        from <= to <= s@.len(),
    ensures
        res@ == s@.subrange(from as int, to as int),
{
    s.substring_char(from, to).to_owned()
}

/// `s.split(p)`, collected.
pub fn split_str(s: &str, p: &str) -> (res: Vec<String>)
    ensures
        views(res@) == split(s@, p@),
{
    let cs = chars_of(s);
    let ps = chars_of(p);
    let mut out: Vec<String> = Vec::new();
    if ps.len() == 0 {
        out.push(String::new());
        let mut i: usize = 0;
        while i < cs.len()
            invariant
                cs@ == s@,
                i <= cs@.len(),
                views(out@) =~= seq![Seq::<char>::empty()] + s@.subrange(0, i as int).map_values(
                    |c: char| seq![c],
                ),
            decreases cs@.len() - i,
        {
            let ghost before = out@;
            out.push(piece_of(s, i, i + 1));
            assert(s@.subrange(i as int, i + 1) =~= seq![s@[i as int]]);
            assert(s@.subrange(0, i + 1).map_values(|c: char| seq![c]) =~= s@.subrange(
                0,
                i as int,
            ).map_values(|c: char| seq![c]).push(seq![s@[i as int]]));
            assert(views(out@) =~= views(before).push(seq![s@[i as int]]));
            i = i + 1;
        }
        let ghost before = out@;
        out.push(String::new());
        assert(views(out@) =~= views(before).push(Seq::<char>::empty()));
        assert(s@.subrange(0, s@.len() as int) =~= s@);
        return out;
    }
    let rs = chars_split_ranges(cs.as_slice(), ps.as_slice());
    let mut k: usize = 0;
    while k < rs.len()
        invariant
            cs@ == s@,
            ranges_within(rs@, s@.len() as int),
            k <= rs@.len(),
            views(out@) =~= pieces(s@, rs@).take(k as int),
        decreases rs@.len() - k,
    {
        let r = rs[k];
        assert(r == rs@[k as int]);
        let ghost before = out@;
        out.push(piece_of(s, r.0, r.1));
        assert(pieces(s@, rs@).take(k + 1) =~= pieces(s@, rs@).take(k as int).push(
            s@.subrange(r.0 as int, r.1 as int),
        ));
        assert(views(out@) =~= views(before).push(s@.subrange(r.0 as int, r.1 as int)));
        k = k + 1;
    }
    assert(pieces(s@, rs@).take(rs@.len() as int) =~= pieces(s@, rs@));
    out
}

/// `parts.join(sep)`.
pub fn join_strs(parts: &[String], sep: &str) -> (res: String)
    ensures
        res@ == join(views(parts@), sep@),
{
    let mut out = String::new();
    let mut k: usize = 0;
    while k < parts.len()
        invariant
            k <= parts@.len(),
            out@ == join(views(parts@).take(k as int), sep@),
        decreases parts@.len() - k,
    {
        let ghost before = out@;
        assert(views(parts@).take(k + 1).drop_last() =~= views(parts@).take(k as int));
        if k > 0 {
            out.append(sep);
        }
        out.append(parts[k].as_str());
        assert(views(parts@).take(k + 1).last() == parts@[k as int]@);
        if k == 0 {
            assert(before =~= Seq::<char>::empty());
            assert(out@ =~= parts@[0]@);
        }
        k = k + 1;
    }
    assert(views(parts@).take(parts@.len() as int) =~= views(parts@));
    out
}


/// The last position of `b` in `s`, or -1.
pub open spec fn last_index(s: Seq<u8>, b: u8) -> int
    decreases s.len(),
{
    if s.len() == 0 {
        -1
    } else if s.last() == b {
        s.len() - 1
    } else {
        last_index(s.drop_last(), b)
    }
}

pub proof fn lemma_last_index(s: Seq<u8>, b: u8)
    ensures
        -1 <= last_index(s, b) < s.len(),
        last_index(s, b) >= 0 ==> s[last_index(s, b)] == b,
        forall|k: int| last_index(s, b) < k < s.len() ==> s[k] != b,
        s.len() > 0 && s[0] == b ==> last_index(s, b) >= 0,
    decreases s.len(),
{
    if s.len() > 0 && s.last() != b {
        lemma_last_index(s.drop_last(), b);
        assert forall|k: int| last_index(s, b) < k < s.len() implies s[k] != b by {
            if k < s.len() - 1 {
                assert(s.drop_last()[k] == s[k]);
            }
        }
    }
}

/// The last position of `b` in `s`.
pub fn bytes_rfind(s: &[u8], b: u8) -> (res: Option<usize>)
    ensures
        match res {
            Some(i) => last_index(s@, b) == i as int,
            None => last_index(s@, b) == -1,
        },
{
    let mut i = s.len();
    assert(s@.subrange(0, i as int) =~= s@);
    while i > 0
        invariant
            i <= s@.len(),
            last_index(s@, b) == last_index(s@.subrange(0, i as int), b),
        decreases i,
    {
        let ghost pre = s@.subrange(0, i as int);
        assert(pre.drop_last() =~= s@.subrange(0, i - 1));
        if s[i - 1] == b {
            return Some(i - 1);
        }
        i = i - 1;
    }
    None
}

} // verus!
