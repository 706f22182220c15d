//! Stable ordering: a total preorder trait and the one stable sort the
//! library uses.

use vstd::prelude::*;

verus! {

/// A type with a total preorder to sort by.
pub trait Ranked: Sized {
    /// Whether `self` may stand before `other`.
    spec fn rank_le(self, other: Self) -> bool;

    /// Any two values are comparable.
    proof fn rank_total(a: Self, b: Self)
        ensures
            Self::rank_le(a, b) || Self::rank_le(b, a),
    ;

    /// The order chains.
    proof fn rank_transitive(a: Self, b: Self, c: Self)
        requires
            Self::rank_le(a, b),
            Self::rank_le(b, c),
        ensures
            Self::rank_le(a, c),
    ;

    /// Whether `self` may stand before `other`.
    fn may_precede(&self, other: &Self) -> (r: bool)
        ensures
            r == Self::rank_le(*self, *other),
    ;
}

/// Neither value stands strictly before the other.
pub open spec fn same_rank<T: Ranked>(a: T, b: T) -> bool {
    T::rank_le(a, b) && T::rank_le(b, a)
}

/// Every earlier element may precede every later one.
pub open spec fn ranked<T: Ranked>(s: Seq<T>) -> bool {
    forall|i: int, j: int|
        0 <= i < j < s.len() ==> T::rank_le(#[trigger] s[i], #[trigger] s[j])
}

/// Whether a value ranks with `x`.
pub open spec fn with_rank<T: Ranked>(x: T) -> spec_fn(T) -> bool {
    |t: T| same_rank(t, x)
}

/// `out` is the stable sort of `s`: it is in order, and the elements of each
/// rank are those of `s`, in the order `s` had them.
pub open spec fn stable_sort_of<T: Ranked>(out: Seq<T>, s: Seq<T>) -> bool {
    &&& ranked(out)
    &&& out.len() == s.len()
    &&& forall|x: T| #[trigger] out.filter(with_rank(x)) == s.filter(with_rank(x))
}

/// A filter over a sequence none of whose elements pass is empty.
pub proof fn filter_none<T>(s: Seq<T>, f: spec_fn(T) -> bool)
    requires
        forall|i: int| 0 <= i < s.len() ==> !#[trigger] f(s[i]),
    ensures
        s.filter(f).len() == 0,
    decreases s.len(),
{
    reveal(Seq::filter);
    if s.len() > 0 {
        filter_none(s.drop_last(), f);
    }
}

/// A filter that every element passes changes nothing.
pub proof fn filter_all<T>(s: Seq<T>, f: spec_fn(T) -> bool)
    requires
        forall|i: int| 0 <= i < s.len() ==> #[trigger] f(s[i]),
    ensures
        s.filter(f) == s,
    decreases s.len(),
{
    reveal(Seq::filter);
    if s.len() > 0 {
        filter_all(s.drop_last(), f);
        assert(s.drop_last().push(s.last()) =~= s);
    }
}

/// Filtering one more element appends it or not.
pub proof fn filter_push<T>(s: Seq<T>, x: T, f: spec_fn(T) -> bool)
    ensures
        s.push(x).filter(f) == if f(x) {
            s.filter(f).push(x)
        } else {
            s.filter(f)
        },
{
    reveal(Seq::filter);
    assert(s.push(x).drop_last() =~= s);
}

/// Filtering a concatenation concatenates the filtered parts.
pub proof fn filter_concat<T>(a: Seq<T>, b: Seq<T>, f: spec_fn(T) -> bool)
    ensures
        (a + b).filter(f) == a.filter(f) + b.filter(f),
    decreases b.len(),
{
    if b.len() == 0 {
        assert(a + b =~= a);
        filter_none(b, f);
        assert(a.filter(f) + b.filter(f) =~= a.filter(f));
    } else {
        let bi = b.drop_last();
        filter_concat(a, bi, f);
        assert(a + b =~= (a + bi).push(b.last()));
        assert(b =~= bi.push(b.last()));
        filter_push(a + bi, b.last(), f);
        filter_push(bi, b.last(), f);
        assert((a.filter(f) + bi.filter(f)).push(b.last()) =~= a.filter(f) + bi.filter(f).push(
            b.last(),
        ));
    }
}

/// What a filter keeps passes it and comes from the sequence; what passes
/// and is in the sequence is kept.
pub proof fn filter_members<T>(s: Seq<T>, f: spec_fn(T) -> bool)
    ensures
        forall|x: T| #[trigger] s.filter(f).contains(x) <==> s.contains(x) && f(x),
    decreases s.len(),
{
    reveal(Seq::filter);
    if s.len() > 0 {
        let init = s.drop_last();
        let y = s.last();
        filter_members(init, f);
        assert(s =~= init.push(y));
        assert forall|x: T| #[trigger] s.filter(f).contains(x) <==> s.contains(x) && f(x) by {
            assert(init.filter(f).contains(x) <==> init.contains(x) && f(x));
            contains_push(init, y, x);
            contains_push(init.filter(f), y, x);
        }
    }
}

/// Membership after an append.
pub proof fn contains_push<T>(s: Seq<T>, y: T, x: T)
    ensures
        s.push(y).contains(x) <==> s.contains(x) || x == y,
{
    assert(s.push(y)[s.len() as int] == y);
    if s.contains(x) {
        let k = choose|k: int| 0 <= k < s.len() && s[k] == x;
        assert(s.push(y)[k] == x);
    }
}

/// Inserting `x` behind everything it may follow, and before everything it
/// strictly precedes, keeps each rank's order as if `x` were appended.
proof fn insert_keeps_ranks<T: Ranked>(s: Seq<T>, p: int, x: T, y: T)
    requires
        0 <= p <= s.len(),
        forall|j: int| p <= j < s.len() ==> !T::rank_le(#[trigger] s[j], x),
    ensures
        s.insert(p, x).filter(with_rank(y)) == s.push(x).filter(with_rank(y)),
{
    let f = with_rank(y);
    let a = s.subrange(0, p);
    let b = s.subrange(p, s.len() as int);
    assert(s =~= a + b);
    assert(s.insert(p, x) =~= a.push(x) + b);
    assert(s.push(x) =~= a + b.push(x));
    filter_concat(a.push(x), b, f);
    filter_concat(a, b.push(x), f);
    filter_push(a, x, f);
    filter_push(b, x, f);
    if f(x) {
        assert forall|j: int| 0 <= j < b.len() implies !#[trigger] f(b[j]) by {
            assert(b[j] == s[p + j]);
            if f(b[j]) {
                T::rank_transitive(b[j], y, x);
            }
        }
        filter_none(b, f);
    }
    assert(s.insert(p, x).filter(f) =~= s.push(x).filter(f));
}

/// Sort in place; equal ranks keep their order.
pub fn sort_stable<T: Ranked>(v: &mut Vec<T>)
    ensures
        stable_sort_of(final(v)@, old(v)@),
{
    let ghost start = v@;
    let mut n: usize = 1;
    while n < v.len()
        invariant
            v@.len() == start.len(),
            1 <= n,
            n <= v@.len() || v@.len() == 0 && n == 1,
            ranked(v@.subrange(0, if n <= v@.len() { n as int } else { v@.len() as int })),
            forall|x: T| #[trigger] v@.filter(with_rank(x)) == start.filter(with_rank(x)),
        decreases v@.len() - n,
    {
        let ghost before = v@;
        let ghost head = v@.subrange(0, n as int);
        let ghost x = v@[n as int];
        let ghost rest = v@.subrange(n + 1, v@.len() as int);
        let mut p: usize = n;
        while p > 0 && !v[p - 1].may_precede(&v[n])
            invariant
                p <= n < v@.len(),
                v@ == before,
                x == before[n as int],
                forall|j: int| p <= j < n ==> !T::rank_le(#[trigger] before[j], x),
            decreases p,
        {
            p -= 1;
        }
        let moved: T = v.remove(n);
        v.insert(p, moved);
        proof {
            assert(before =~= head.push(x) + rest);
            assert(v@ =~= head.insert(p as int, x) + rest);
            assert forall|y: T| #[trigger] v@.filter(with_rank(y)) == start.filter(
                with_rank(y),
            ) by {
                assert(before.filter(with_rank(y)) == start.filter(with_rank(y)));
                filter_concat(head.push(x), rest, with_rank(y));
                filter_concat(head.insert(p as int, x), rest, with_rank(y));
                insert_keeps_ranks(head, p as int, x, y);
            }
            let now = v@.subrange(0, n + 1);
            assert(now =~= head.insert(p as int, x));
            assert forall|i: int, j: int| 0 <= i < j < now.len() implies T::rank_le(
                #[trigger] now[i],
                #[trigger] now[j],
            ) by {
                if j == p as int {
                    assert(now[i] == head[i]);
                    if p > 0 {
                        assert(T::rank_le(head[p - 1], x));
                        if i < p - 1 {
                            assert(T::rank_le(head[i], head[p - 1]));
                            T::rank_transitive(head[i], head[p - 1], x);
                        }
                    }
                } else if i == p as int {
                    assert(now[j] == head[j - 1]);
                    T::rank_total(x, head[j - 1]);
                } else {
                    let a = if i < p { i } else { i - 1 };
                    let b = if j < p { j } else { j - 1 };
                    assert(now[i] == head[a] && now[j] == head[b]);
                }
            }
        }
        n += 1;
    }
    proof {
        if v@.len() > 0 {
            assert(v@.subrange(0, n as int) =~= v@);
        }
    }
}

/// Two stable sorts of one sequence are the same sequence.
pub proof fn stable_sort_unique<T: Ranked>(a: Seq<T>, b: Seq<T>, s: Seq<T>)
    requires
        stable_sort_of(a, s),
        stable_sort_of(b, s),
    ensures
        a == b,
    decreases s.len(),
{
    if s.len() > 0 {
        let n = s.len() as int;
        let x = a[n - 1];
        let y = b[n - 1];
        // The last elements rank alike: each occurs in the other sequence.
        rank_occurs(a, b, x);
        rank_occurs(b, a, y);
        let i = choose|i: int| 0 <= i < b.len() && same_rank(#[trigger] b[i], x);
        let j = choose|j: int| 0 <= j < a.len() && same_rank(#[trigger] a[j], y);
        if i < n - 1 {
            assert(T::rank_le(b[i], y));
            T::rank_transitive(x, b[i], y);
        } else {
            assert(T::rank_le(x, y));
        }
        if j < n - 1 {
            assert(T::rank_le(a[j], x));
            T::rank_transitive(y, a[j], x);
        } else {
            assert(T::rank_le(y, x));
        }
        let f = with_rank(x);
        T::rank_total(x, x);
        assert(f(x) && f(y));
        let ai = a.drop_last();
        let bi = b.drop_last();
        assert(a =~= ai.push(x));
        assert(b =~= bi.push(y));
        filter_push(ai, x, f);
        filter_push(bi, y, f);
        assert(a.filter(f) == b.filter(f));
        assert(ai.filter(f).push(x).last() == bi.filter(f).push(y).last());
        assert(x == y);
        assert forall|z: T| #[trigger] bi.filter(with_rank(z)) == ai.filter(with_rank(z)) by {
            let g = with_rank(z);
            filter_push(ai, x, g);
            filter_push(bi, x, g);
            assert(a.filter(g) == b.filter(g));
            if g(x) {
                assert(ai.filter(g).push(x).drop_last() =~= ai.filter(g));
                assert(bi.filter(g).push(x).drop_last() =~= bi.filter(g));
            }
        }
        T::rank_total(x, x);
        stable_sort_unique(ai, bi, ai);
    }
}

/// An element of one sort has a rank mate in the other.
proof fn rank_occurs<T: Ranked>(a: Seq<T>, b: Seq<T>, x: T)
    requires
        a.len() > 0,
        x == a[a.len() - 1],
        a.filter(with_rank(x)) == b.filter(with_rank(x)),
    ensures
        exists|i: int| 0 <= i < b.len() && same_rank(#[trigger] b[i], x),
{
    T::rank_total(x, x);
    assert(a =~= a.drop_last().push(x));
    filter_push(a.drop_last(), x, with_rank(x));
    if forall|i: int| 0 <= i < b.len() ==> !same_rank(#[trigger] b[i], x) {
        assert forall|i: int| 0 <= i < b.len() implies !#[trigger] with_rank(x)(b[i]) by {
            assert(!same_rank(b[i], x));
        }
        filter_none(b, with_rank(x));
    }
}

/// The stable sort of `s`.
pub open spec fn stable_sort<T: Ranked>(s: Seq<T>) -> Seq<T> {
    choose|out: Seq<T>| stable_sort_of(out, s)
}

/// Every sequence has a stable sort, and it holds the same elements.
pub proof fn stable_sort_exists<T: Ranked>(s: Seq<T>)
    ensures
        stable_sort_of(stable_sort(s), s),
        stable_sort(s).to_multiset() == s.to_multiset(),
    decreases s.len(),
{
    if s.len() == 0 {
        assert(stable_sort_of(s, s));
        assert(stable_sort(s) =~= s);
    } else {
        let init = s.drop_last();
        let x = s.last();
        assert(s =~= init.push(x));
        stable_sort_exists(init);
        let t = stable_sort(init);
        let p = run_before(t, x);
        run_before_splits(t, x);
        let out = t.insert(p, x);
        assert forall|i: int, j: int| 0 <= i < j < out.len() implies T::rank_le(
            #[trigger] out[i],
            #[trigger] out[j],
        ) by {
            if j == p {
                assert(out[i] == t[i]);
            } else if i == p {
                assert(out[j] == t[j - 1]);
                T::rank_total(x, t[j - 1]);
            } else {
                let a = if i < p { i } else { i - 1 };
                let b = if j < p { j } else { j - 1 };
                assert(out[i] == t[a] && out[j] == t[b]);
            }
        }
        assert forall|y: T| #[trigger] out.filter(with_rank(y)) == s.filter(with_rank(y)) by {
            insert_keeps_ranks(t, p, x, y);
            filter_push(t, x, with_rank(y));
            filter_push(init, x, with_rank(y));
            assert(t.filter(with_rank(y)) == init.filter(with_rank(y)));
        }
        assert(stable_sort_of(out, s));
        stable_sort_unique(out, stable_sort(s), s);
        t.to_multiset_ensures();
        init.to_multiset_ensures();
        vstd::seq_lib::to_multiset_insert(t, p, x);
        vstd::seq_lib::to_multiset_build(init, x);
        assert(out.to_multiset() =~= s.to_multiset());
    }
}

/// How many leading elements may precede `x`.
spec fn run_before<T: Ranked>(t: Seq<T>, x: T) -> int
    decreases t.len(),
{
    if t.len() == 0 {
        0
    } else if T::rank_le(t.last(), x) {
        t.len() as int
    } else {
        run_before(t.drop_last(), x)
    }
}

/// In an ordered sequence the leading run is exactly what may precede `x`.
proof fn run_before_splits<T: Ranked>(t: Seq<T>, x: T)
    requires
        ranked(t),
    ensures
        0 <= run_before(t, x) <= t.len(),
        forall|j: int| 0 <= j < run_before(t, x) ==> T::rank_le(#[trigger] t[j], x),
        forall|j: int| run_before(t, x) <= j < t.len() ==> !T::rank_le(#[trigger] t[j], x),
    decreases t.len(),
{
    if t.len() > 0 {
        if T::rank_le(t.last(), x) {
            assert forall|j: int| 0 <= j < t.len() implies T::rank_le(#[trigger] t[j], x) by {
                if j < t.len() - 1 {
                    T::rank_transitive(t[j], t[t.len() - 1], x);
                }
            }
        } else {
            let init = t.drop_last();
            run_before_splits(init, x);
            assert forall|j: int| 0 <= j < run_before(t, x) implies T::rank_le(
                #[trigger] t[j],
                x,
            ) by {
                assert(init[j] == t[j]);
            }
            assert forall|j: int| run_before(t, x) <= j < t.len() implies !T::rank_le(
                #[trigger] t[j],
                x,
            ) by {
                if j < t.len() - 1 {
                    assert(init[j] == t[j]);
                }
            }
        }
    }
}

/// A stable sort has exactly the elements of what it sorts.
pub proof fn stable_sort_members<T: Ranked>(out: Seq<T>, s: Seq<T>)
    requires
        stable_sort_of(out, s),
    ensures
        forall|x: T| #[trigger] out.contains(x) <==> s.contains(x),
{
    assert forall|x: T| #[trigger] out.contains(x) <==> s.contains(x) by {
        T::rank_total(x, x);
        filter_members(out, with_rank(x));
        filter_members(s, with_rank(x));
        assert(out.filter(with_rank(x)).contains(x) == s.filter(with_rank(x)).contains(x));
    }
}

/// Filtering a sequence without duplicates leaves none.
pub proof fn filter_no_duplicates<T>(s: Seq<T>, f: spec_fn(T) -> bool)
    requires
        s.no_duplicates(),
    ensures
        s.filter(f).no_duplicates(),
    decreases s.len(),
{
    if s.len() == 0 {
        reveal(Seq::filter);
    } else {
        let init = s.drop_last();
        assert(s =~= init.push(s.last()));
        filter_no_duplicates(init, f);
        filter_push(init, s.last(), f);
        filter_members(init, f);
        let kept = init.filter(f);
        if f(s.last()) {
            assert(!kept.contains(s.last())) by {
                if kept.contains(s.last()) {
                    assert(init.contains(s.last()));
                    let k = choose|k: int| 0 <= k < init.len() && init[k] == s.last();
                    assert(s[k] == s[s.len() - 1]);
                }
            }
            let now = kept.push(s.last());
            assert forall|i: int, j: int| 0 <= i < now.len() && 0 <= j < now.len() && i != j implies
                now[i] != now[j] by {
                if i < kept.len() && j == kept.len() {
                    assert(kept.contains(now[i]));
                }
                if j < kept.len() && i == kept.len() {
                    assert(kept.contains(now[j]));
                }
            }
        }
    }
}

} // verus!
