//! Positional selection of a sequence by a per-position decision vector.
//!
//! One tick of the scheduler asks every alive system for a decision; the
//! systems whose decision was `Running` survive in order, the others move to
//! the dead collection in order. `select_where` is the specification of that
//! split, and the lemmas here are the facts the scheduler's proofs need:
//! how selection grows, that it picks a subsequence, and that it splits a
//! distinct sequence into two disjoint parts.

use vstd::prelude::*;

verus! {

/// The elements of `xs` at the positions where `d` equals `keep`, in order.
pub open spec fn select_where<A>(xs: Seq<A>, d: Seq<bool>, keep: bool) -> Seq<A>
    recommends
        xs.len() == d.len(),
    decreases d.len(),
{
    if d.len() == 0 || xs.len() == 0 {
        Seq::empty()
    } else {
        let rest = select_where(xs.drop_last(), d.drop_last(), keep);
        if d.last() == keep {
            rest.push(xs.last())
        } else {
            rest
        }
    }
}

/// Selection commutes with appending one decided element.
pub proof fn lemma_select_where_push<A>(xs: Seq<A>, d: Seq<bool>, keep: bool, x: A, b: bool)
    requires
        xs.len() == d.len(),
    ensures
        select_where(xs.push(x), d.push(b), keep) == if b == keep {
            select_where(xs, d, keep).push(x)
        } else {
            select_where(xs, d, keep)
        },
{
    assert(xs.push(x).drop_last() =~= xs);
    assert(d.push(b).drop_last() =~= d);
}

/// Every selected element occurs in the source sequence.
pub proof fn lemma_select_where_contains<A>(xs: Seq<A>, d: Seq<bool>, keep: bool, x: A)
    requires
        xs.len() == d.len(),
        select_where(xs, d, keep).contains(x),
    ensures
        xs.contains(x),
    decreases d.len(),
{
    if d.len() > 0 {
        let rest = select_where(xs.drop_last(), d.drop_last(), keep);
        if d.last() == keep && x == xs.last() {
            assert(xs.contains(x)) by {
                assert(xs[xs.len() - 1] == x);
            }
        } else {
            assert(rest.contains(x)) by {
                let sel = select_where(xs, d, keep);
                let i = choose|i: int| 0 <= i < sel.len() && sel[i] == x;
                assert(rest[i] == x);
            }
            lemma_select_where_contains(xs.drop_last(), d.drop_last(), keep, x);
            let j = choose|j: int| 0 <= j < xs.drop_last().len() && xs.drop_last()[j] == x;
            assert(xs[j] == x);
        }
    }
}

/// No position of `s` repeats an element.
pub open spec fn distinct_seq<A>(s: Seq<A>) -> bool {
    forall|i: int, j: int| 0 <= i < j < s.len() ==> s[i] != s[j]
}

/// Selecting from a sequence without repeats yields two parts without
/// repeats that share no element: each source position lands in exactly one
/// part.
pub proof fn lemma_select_where_partition<A>(xs: Seq<A>, d: Seq<bool>)
    requires
        xs.len() == d.len(),
        distinct_seq(xs),
    ensures
        distinct_seq(select_where(xs, d, true)),
        distinct_seq(select_where(xs, d, false)),
        forall|x: A|
            select_where(xs, d, true).contains(x) ==> !select_where(xs, d, false).contains(x),
    decreases d.len(),
{
    if d.len() > 0 {
        let prev = xs.drop_last();
        let dprev = d.drop_last();
        assert(distinct_seq(prev)) by {
            assert(forall|i: int, j: int|
                0 <= i < j < prev.len() ==> prev[i] == xs[i] && prev[j] == xs[j]);
        }
        lemma_select_where_partition(prev, dprev);
        let kept = select_where(prev, dprev, true);
        let dropped = select_where(prev, dprev, false);
        assert(!prev.contains(xs.last())) by {
            if prev.contains(xs.last()) {
                let i = choose|i: int| 0 <= i < prev.len() && prev[i] == xs.last();
                assert(xs[i] == xs[xs.len() - 1]);
            }
        }
        assert(!kept.contains(xs.last()) && !dropped.contains(xs.last())) by {
            if kept.contains(xs.last()) {
                lemma_select_where_contains(prev, dprev, true, xs.last());
            }
            if dropped.contains(xs.last()) {
                lemma_select_where_contains(prev, dprev, false, xs.last());
            }
        }
        assert forall|x: A|
            select_where(xs, d, true).contains(x) implies !select_where(
            xs,
            d,
            false,
        ).contains(x) by {
            if d.last() {
                assert(select_where(xs, d, true) == kept.push(xs.last()));
                assert(select_where(xs, d, false) == dropped);
                if x == xs.last() {
                    assert(!dropped.contains(x));
                } else {
                    assert(kept.contains(x)) by {
                        let sel = kept.push(xs.last());
                        let i = choose|i: int| 0 <= i < sel.len() && sel[i] == x;
                        assert(kept[i] == x);
                    }
                }
            } else {
                assert(select_where(xs, d, true) == kept);
                assert(select_where(xs, d, false) == dropped.push(xs.last()));
                lemma_select_where_contains(prev, dprev, true, x);
                assert(x != xs.last());
                if dropped.push(xs.last()).contains(x) {
                    let sel = dropped.push(xs.last());
                    let i = choose|i: int| 0 <= i < sel.len() && sel[i] == x;
                    assert(dropped[i] == x);
                }
            }
        }
        assert(distinct_seq(select_where(xs, d, true))) by {
            if d.last() {
                let sel = kept.push(xs.last());
                assert(forall|i: int| 0 <= i < kept.len() ==> sel[i] == kept[i]);
            }
        }
        assert(distinct_seq(select_where(xs, d, false))) by {
            if !d.last() {
                let sel = dropped.push(xs.last());
                assert(forall|i: int| 0 <= i < dropped.len() ==> sel[i] == dropped[i]);
            }
        }
    }
}

/// No element of `x` occurs in `y`.
pub open spec fn disjoint_seqs<A>(x: Seq<A>, y: Seq<A>) -> bool {
    forall|a: A| x.contains(a) ==> !y.contains(a)
}

/// A concatenation without repeats splits into two parts without repeats
/// that share no element.
pub proof fn lemma_distinct_concat_parts<A>(x: Seq<A>, y: Seq<A>)
    requires
        distinct_seq(x + y),
    ensures
        distinct_seq(x),
        distinct_seq(y),
        disjoint_seqs(x, y),
        disjoint_seqs(y, x),
{
    let c = x + y;
    assert(forall|i: int| 0 <= i < x.len() ==> c[i] == x[i]);
    assert(forall|i: int| x.len() <= i < c.len() ==> c[i] == y[i - x.len()]);
    assert forall|i: int, j: int| 0 <= i < j < y.len() implies y[i] != y[j] by {
        assert(c[i + x.len()] != c[j + x.len()]);
    }
    assert forall|a: A| x.contains(a) implies !y.contains(a) by {
        if x.contains(a) && y.contains(a) {
            let i = choose|i: int| 0 <= i < x.len() && x[i] == a;
            let j = choose|j: int| 0 <= j < y.len() && y[j] == a;
            assert(c[i] == c[j + x.len()]);
        }
    }
    assert forall|a: A| y.contains(a) implies !x.contains(a) by {
        if x.contains(a) && y.contains(a) {
            let i = choose|i: int| 0 <= i < x.len() && x[i] == a;
            let j = choose|j: int| 0 <= j < y.len() && y[j] == a;
            assert(c[i] == c[j + x.len()]);
        }
    }
}

/// Two parts without repeats that share no element concatenate to a sequence
/// without repeats.
pub proof fn lemma_distinct_concat_join<A>(x: Seq<A>, y: Seq<A>)
    requires
        distinct_seq(x),
        distinct_seq(y),
        disjoint_seqs(x, y),
    ensures
        distinct_seq(x + y),
{
    let c = x + y;
    assert forall|i: int, j: int| 0 <= i < j < c.len() implies c[i] != c[j] by {
        if j < x.len() {
            assert(c[i] == x[i] && c[j] == x[j]);
        } else if i >= x.len() {
            assert(c[i] == y[i - x.len()] && c[j] == y[j - x.len()]);
        } else {
            assert(c[i] == x[i] && c[j] == y[j - x.len()]);
            if c[i] == c[j] {
                assert(x.contains(c[i]));
                assert(y.contains(c[j]));
            }
        }
    }
}

/// An element of a concatenation comes from one of the parts.
pub proof fn lemma_concat_contains<A>(x: Seq<A>, y: Seq<A>, a: A)
    ensures
        (x + y).contains(a) <==> x.contains(a) || y.contains(a),
{
    let c = x + y;
    assert(forall|i: int| 0 <= i < x.len() ==> c[i] == x[i]);
    assert(forall|i: int| x.len() <= i < c.len() ==> c[i] == y[i - x.len()]);
    if c.contains(a) {
        let i = choose|i: int| 0 <= i < c.len() && c[i] == a;
        if i < x.len() {
            assert(x[i] == a);
        } else {
            assert(y[i - x.len()] == a);
        }
    }
    if x.contains(a) {
        let i = choose|i: int| 0 <= i < x.len() && x[i] == a;
        assert(c[i] == a);
    }
    if y.contains(a) {
        let j = choose|j: int| 0 <= j < y.len() && y[j] == a;
        assert(c[j + x.len()] == a);
    }
}

/// Positions of `s` hold strictly growing numbers.
pub open spec fn strictly_increasing(s: Seq<nat>) -> bool {
    forall|i: int, j: int| 0 <= i < j < s.len() ==> s[i] < s[j]
}

/// Selection keeps a strictly increasing sequence strictly increasing, and
/// introduces nothing at or above a bound that held for the source.
pub proof fn lemma_select_where_increasing(xs: Seq<nat>, d: Seq<bool>, keep: bool, bound: nat)
    requires
        xs.len() == d.len(),
        strictly_increasing(xs),
        forall|i: int| 0 <= i < xs.len() ==> xs[i] < bound,
    ensures
        strictly_increasing(select_where(xs, d, keep)),
        forall|i: int|
            0 <= i < select_where(xs, d, keep).len() ==> select_where(xs, d, keep)[i] < bound,
    decreases d.len(),
{
    if d.len() > 0 {
        let prev = xs.drop_last();
        let dprev = d.drop_last();
        assert(forall|i: int| 0 <= i < prev.len() ==> prev[i] == xs[i]);
        lemma_select_where_increasing(prev, dprev, keep, xs.last());
        lemma_select_where_increasing(prev, dprev, keep, bound);
        let rest = select_where(prev, dprev, keep);
        if d.last() == keep {
            let sel = rest.push(xs.last());
            assert(forall|i: int| 0 <= i < rest.len() ==> sel[i] == rest[i]);
            assert(strictly_increasing(sel)) by {
                assert(forall|i: int| 0 <= i < rest.len() ==> rest[i] < xs.last());
                assert(sel[sel.len() - 1] == xs.last());
            }
        }
    }
}

} // verus!
