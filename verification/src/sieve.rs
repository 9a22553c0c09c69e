//! The Sims filter: reduces a list of permutations to one in which no two
//! members share the same leading move.

use crate::group::{
    all_generated, all_good, generated, generated_by, group, is_subgroup, lemma_generated_compose,
    lemma_generated_identity, lemma_generated_is_subgroup, lemma_generated_member,
    lemma_generated_push, lemma_generated_transitive, lemma_good_uniform,
};
use crate::perm::{
    compose, identity, inverse, is_permutation, lemma_compose_associative, lemma_compose_identity,
    lemma_compose_is_permutation, lemma_inverse_compose, lemma_inverse_properties,
    lemma_uniform_front, lemma_uniform_push, uniform, views, Permutation,
};
use std::collections::BTreeMap;
use vstd::prelude::*;

verus! {

/// The least point at or after `from` that `p` moves, or `p.len()` when it
/// moves none of them.
pub open spec fn first_moved_from(p: Seq<usize>, from: nat) -> nat
    decreases p.len() - from,
{
    if from >= p.len() {
        p.len()
    } else if p[from as int] != from {
        from
    } else {
        first_moved_from(p, from + 1)
    }
}

/// The least point that `p` moves, or `p.len()` for the identity.
pub open spec fn first_moved(p: Seq<usize>) -> nat {
    first_moved_from(p, 0)
}

/// `p` fixes every point.
pub open spec fn is_identity(p: Seq<usize>) -> bool {
    first_moved(p) >= p.len()
}

/// The leading move of `p` is `x -> y`: `x` is the least point that `p`
/// moves, and `p` sends it to `y`.
pub open spec fn leads(p: Seq<usize>, x: nat, y: usize) -> bool {
    first_moved(p) == x && x < p.len() && p[x as int] == y
}

/// The member of `acc` whose leading move is `x -> y`, if there is one (the
/// latest, should there be several).
pub open spec fn leader(acc: Seq<Seq<usize>>, x: nat, y: usize) -> Option<Seq<usize>>
    decreases acc.len(),
{
    if acc.len() == 0 {
        None
    } else if leads(acc.last(), x, y) {
        Some(acc.last())
    } else {
        leader(acc.drop_last(), x, y)
    }
}

/// No two members of `s` share a leading move, and none is the identity.
pub open spec fn separated(s: Seq<Seq<usize>>) -> bool {
    &&& forall|i: int| 0 <= i < s.len() ==> !is_identity(#[trigger] s[i])
    &&& forall|i: int, j: int|
        0 <= i < s.len() && 0 <= j < s.len() && i != j ==> !leads(
            s[i],
            first_moved(s[j]),
            s[j][first_moved(s[j]) as int],
        )
}

/// What is left of `e` after cancelling leading moves against `acc`: while
/// some member `b` of `acc` has the same leading move as `e`, `e` is replaced
/// by `compose(e, inverse(b))`, which fixes one more point.
pub open spec fn sift(acc: Seq<Seq<usize>>, e: Seq<usize>) -> Seq<usize>
    decreases e.len() - first_moved(e),
    when is_permutation(e) && uniform(acc, e.len())
    via sift_decreases
{
    let x = first_moved(e);
    if x >= e.len() {
        e
    } else {
        match leader(acc, x, e[x as int]) {
            None => e,
            Some(b) => sift(acc, compose(e, inverse(b))),
        }
    }
}

/// The filter applied to a list, front to back: each member is sifted
/// against what was kept before it, and kept unless nothing is left of it.
pub open spec fn sieve(s: Seq<Seq<usize>>) -> Seq<Seq<usize>>
    decreases s.len(),
{
    if s.len() == 0 {
        Seq::empty()
    } else {
        let acc = sieve(s.drop_last());
        let r = sift(acc, s.last());
        if is_identity(r) {
            acc
        } else {
            acc.push(r)
        }
    }
}

/// The table of accepted permutations agrees with the list of them: slot
/// `x` maps `y` to the member whose leading move is `x -> y`.
spec fn table_ok(base: Seq<BTreeMap<usize, Permutation>>, acc: Seq<Seq<usize>>, n: nat) -> bool {
    &&& base.len() == n
    &&& forall|x: int, y: usize|
        0 <= x < n ==> (#[trigger] base[x]@.contains_key(y) <==> leader(acc, x as nat, y) is Some)
    &&& forall|x: int, y: usize|
        0 <= x < n && #[trigger] base[x]@.contains_key(y) ==> base[x]@[y]@ == leader(
            acc,
            x as nat,
            y,
        ).unwrap()
}

/// Each cancelled move takes the first moved point further up.
#[via_fn]
proof fn sift_decreases(acc: Seq<Seq<usize>>, e: Seq<usize>) {
    let x = first_moved(e);
    if x < e.len() {
        match leader(acc, x, e[x as int]) {
            None => {},
            Some(b) => {
                lemma_leader_some(acc, x, e[x as int]);
                let i = choose|i: int| 0 <= i < acc.len() && acc[i] == b;
                assert(is_permutation(acc[i]));
                lemma_cancel(e, b);
                lemma_first_moved(compose(e, inverse(b)));
            },
        }
    }
}

/// `first_moved_from` stays within bounds, skips fixed points only, and
/// stops at a moved point.
pub proof fn lemma_first_moved_from(p: Seq<usize>, from: nat)
    requires
        from <= p.len(),
    ensures
        from <= first_moved_from(p, from) <= p.len(),
        forall|i: int| from <= i < first_moved_from(p, from) ==> p[i] == i,
        first_moved_from(p, from) < p.len() ==> p[first_moved_from(p, from) as int]
            != first_moved_from(p, from),
    decreases p.len() - from,
{
    if from < p.len() && p[from as int] == from {
        lemma_first_moved_from(p, from + 1);
    }
}

/// `first_moved(p)` is at most `p.len()`, every point below it is fixed, and
/// it is itself moved unless `p` is the identity.
pub proof fn lemma_first_moved(p: Seq<usize>)
    ensures
        first_moved(p) <= p.len(),
        forall|i: int| 0 <= i < first_moved(p) ==> p[i] == i,
        first_moved(p) < p.len() ==> p[first_moved(p) as int] != first_moved(p),
{
    lemma_first_moved_from(p, 0);
}

/// A permutation that fixes every point below `k` first moves a point at or
/// after `k`.
pub proof fn lemma_first_moved_at_least(p: Seq<usize>, k: nat)
    requires
        k <= p.len(),
        forall|i: int| 0 <= i < k ==> p[i] == i,
    ensures
        first_moved(p) >= k,
{
    lemma_first_moved(p);
    if first_moved(p) < k {
        assert(p[first_moved(p) as int] == first_moved(p));
    }
}

/// A permutation that fixes every point below `x` and moves `x` has `x` as
/// its first moved point.
pub proof fn lemma_first_moved_is(p: Seq<usize>, x: nat)
    requires
        x < p.len(),
        forall|i: int| 0 <= i < x ==> p[i] == i,
        p[x as int] != x,
    ensures
        first_moved(p) == x,
{
    lemma_first_moved(p);
    lemma_first_moved_at_least(p, x);
}

/// The identity, and nothing else, has no moved point.
pub proof fn lemma_is_identity(p: Seq<usize>)
    requires
        p.len() <= usize::MAX,
    ensures
        is_identity(p) <==> p == identity(p.len()),
{
    lemma_first_moved(p);
    if is_identity(p) {
        assert(p =~= identity(p.len()));
    } else {
        assert(p[first_moved(p) as int] != identity(p.len())[first_moved(p) as int]);
    }
}

/// What `leader` finds is a member of the list with the leading move asked
/// for.
pub proof fn lemma_leader_some(acc: Seq<Seq<usize>>, x: nat, y: usize)
    requires
        leader(acc, x, y) is Some,
    ensures
        leads(leader(acc, x, y).unwrap(), x, y),
        exists|i: int| 0 <= i < acc.len() && acc[i] == leader(acc, x, y).unwrap(),
    decreases acc.len(),
{
    if !leads(acc.last(), x, y) {
        lemma_leader_some(acc.drop_last(), x, y);
        let i = choose|i: int|
            0 <= i < acc.drop_last().len() && acc.drop_last()[i] == leader(
                acc.drop_last(),
                x,
                y,
            ).unwrap();
        assert(acc[i] == leader(acc, x, y).unwrap());
    } else {
        assert(acc[acc.len() - 1] == leader(acc, x, y).unwrap());
    }
}

/// `leader` finds nothing only when no member has the leading move asked
/// for.
pub proof fn lemma_leader_none(acc: Seq<Seq<usize>>, x: nat, y: usize)
    requires
        leader(acc, x, y) is None,
    ensures
        forall|i: int| 0 <= i < acc.len() ==> !leads(#[trigger] acc[i], x, y),
    decreases acc.len(),
{
    if acc.len() > 0 {
        lemma_leader_none(acc.drop_last(), x, y);
        assert forall|i: int| 0 <= i < acc.len() implies !leads(#[trigger] acc[i], x, y) by {
            if i < acc.len() - 1 {
                assert(acc.drop_last()[i] == acc[i]);
            }
        }
    }
}

/// Cancelling the leading move: when `e` and `b` share it, `e` followed by
/// the inverse of `b` is a permutation that fixes every point up to and
/// including that first moved point.
pub proof fn lemma_cancel(e: Seq<usize>, b: Seq<usize>)
    requires
        is_permutation(e),
        is_permutation(b),
        e.len() == b.len(),
        first_moved(e) < e.len(),
        leads(b, first_moved(e), e[first_moved(e) as int]),
    ensures
        is_permutation(compose(e, inverse(b))),
        compose(e, inverse(b)).len() == e.len(),
        first_moved(compose(e, inverse(b))) > first_moved(e),
{
    let x = first_moved(e);
    let r = compose(e, inverse(b));
    lemma_first_moved(e);
    lemma_first_moved(b);
    lemma_inverse_properties(b);
    lemma_compose_is_permutation(e, inverse(b));
    assert forall|i: int| 0 <= i < x + 1 implies r[i] == i by {
        assert(e[i] < e.len());
        if i < x {
            assert(b[i] == i);
            assert(inverse(b)[b[i] as int] == i);
        } else {
            assert(inverse(b)[b[x as int] as int] == x);
        }
    }
    lemma_first_moved_at_least(r, x + 1);
}

/// Appending a member changes what `leader` finds only for that member's own
/// leading move.
pub proof fn lemma_leader_push(acc: Seq<Seq<usize>>, e: Seq<usize>, x: nat, y: usize)
    ensures
        leader(acc.push(e), x, y) == if leads(e, x, y) {
            Some(e)
        } else {
            leader(acc, x, y)
        },
{
    assert(acc.push(e).last() == e);
    assert(acc.push(e).drop_last() =~= acc);
}

/// What is left after sifting is a permutation of the same points, and
/// either the identity or led by a move that no member of `acc` has.
pub proof fn lemma_sift(acc: Seq<Seq<usize>>, e: Seq<usize>)
    requires
        is_permutation(e),
        uniform(acc, e.len()),
    ensures
        is_permutation(sift(acc, e)),
        sift(acc, e).len() == e.len(),
        first_moved(sift(acc, e)) >= first_moved(e),
        !is_identity(sift(acc, e)) ==> leader(
            acc,
            first_moved(sift(acc, e)),
            sift(acc, e)[first_moved(sift(acc, e)) as int],
        ) is None,
    decreases e.len() - first_moved(e),
{
    let x = first_moved(e);
    lemma_first_moved(e);
    if x < e.len() {
        match leader(acc, x, e[x as int]) {
            None => {},
            Some(b) => {
                lemma_leader_some(acc, x, e[x as int]);
                let i = choose|i: int| 0 <= i < acc.len() && acc[i] == b;
                assert(is_permutation(acc[i]));
                lemma_cancel(e, b);
                lemma_first_moved(compose(e, inverse(b)));
                lemma_sift(acc, compose(e, inverse(b)));
            },
        }
    }
}

/// The filter keeps permutations of the same points, none of them the
/// identity, no two with the same leading move.
pub proof fn lemma_sieve(s: Seq<Seq<usize>>, n: nat)
    requires
        uniform(s, n),
    ensures
        uniform(sieve(s), n),
        separated(sieve(s)),
        sieve(s).len() <= s.len(),
    decreases s.len(),
{
    if s.len() > 0 {
        let acc = sieve(s.drop_last());
        lemma_uniform_front(s, n);
        lemma_sieve(s.drop_last(), n);
        let r = sift(acc, s.last());
        lemma_sift(acc, s.last());
        if !is_identity(r) {
            lemma_separated_push(acc, r);
        }
    }
}

/// A separated list stays separated when it gains a member, other than the
/// identity, whose leading move none of the old members has.
pub proof fn lemma_separated_push(acc: Seq<Seq<usize>>, r: Seq<usize>)
    requires
        separated(acc),
        !is_identity(r),
        leader(acc, first_moved(r), r[first_moved(r) as int]) is None,
    ensures
        separated(acc.push(r)),
{
    let t = acc.push(r);
    let m = acc.len() as int;
    lemma_leader_none(acc, first_moved(r), r[first_moved(r) as int]);
    assert forall|i: int, j: int| 0 <= i < t.len() && 0 <= j < t.len() && i != j implies !leads(
        t[i],
        first_moved(t[j]),
        t[j][first_moved(t[j]) as int],
    ) by {
        if j == m {
            assert(t[i] == acc[i]);
        } else if i == m {
            assert(t[j] == acc[j]);
            if leads(r, first_moved(acc[j]), acc[j][first_moved(acc[j]) as int]) {
                lemma_first_moved(acc[j]);
                assert(leads(acc[j], first_moved(r), r[first_moved(r) as int]));
            }
        } else {
            assert(t[i] == acc[i] && t[j] == acc[j]);
        }
    }
    assert forall|i: int| 0 <= i < t.len() implies !is_identity(#[trigger] t[i]) by {
        if i < m {
            assert(t[i] == acc[i]);
        }
    }
}

/// A separated list repeats nothing.
pub proof fn lemma_separated_no_duplicates(s: Seq<Seq<usize>>)
    requires
        separated(s),
    ensures
        s.no_duplicates(),
{
    assert forall|i: int, j: int| 0 <= i < s.len() && 0 <= j < s.len() && i != j implies s[i]
        != s[j] by {
        if s[i] == s[j] {
            lemma_first_moved(s[j]);
            assert(!is_identity(s[j]));
            assert(leads(s[i], first_moved(s[j]), s[j][first_moved(s[j]) as int]));
        }
    }
}

/// Filtering a separated list changes nothing.
pub proof fn lemma_sieve_of_separated(t: Seq<Seq<usize>>, n: nat)
    requires
        uniform(t, n),
        separated(t),
    ensures
        sieve(t) == t,
    decreases t.len(),
{
    if t.len() == 0 {
        assert(sieve(t) =~= t);
    } else {
        let front = t.drop_last();
        let e = t.last();
        let m = t.len() - 1;
        assert(uniform(front, n) && separated(front)) by {
            assert forall|i: int| 0 <= i < front.len() implies is_permutation(#[trigger] front[i])
                && front[i].len() == n && !is_identity(front[i]) by {
                assert(front[i] == t[i]);
            }
            assert forall|i: int, j: int|
                0 <= i < front.len() && 0 <= j < front.len() && i != j implies !leads(
                front[i],
                first_moved(front[j]),
                front[j][first_moved(front[j]) as int],
            ) by {
                assert(front[i] == t[i] && front[j] == t[j]);
            }
        }
        lemma_sieve_of_separated(front, n);
        assert(is_permutation(t[m]) && !is_identity(t[m]));
        let x = first_moved(e);
        lemma_first_moved(e);
        if leader(front, x, e[x as int]) is Some {
            lemma_leader_some(front, x, e[x as int]);
            let i = choose|i: int|
                0 <= i < front.len() && front[i] == leader(front, x, e[x as int]).unwrap();
            assert(front[i] == t[i]);
            assert(leads(t[i], first_moved(t[m]), t[m][first_moved(t[m]) as int]));
        }
        assert(sift(front, e) == e);
        assert(front.push(e) =~= t);
    }
}

/// Filtering twice gives the same list as filtering once.
pub proof fn lemma_sieve_idempotent(s: Seq<Seq<usize>>, n: nat)
    requires
        uniform(s, n),
    ensures
        sieve(sieve(s)) == sieve(s),
{
    lemma_sieve(s, n);
    lemma_sieve_of_separated(sieve(s), n);
}

/// Sifting stays inside every subgroup that holds the candidate and the
/// accepted permutations.
pub proof fn lemma_sift_good(
    acc: Seq<Seq<usize>>,
    e: Seq<usize>,
    n: nat,
    good: spec_fn(Seq<usize>) -> bool,
)
    requires
        is_subgroup(good, n),
        all_good(good, acc),
        good(e),
    ensures
        good(sift(acc, e)),
    decreases e.len() - first_moved(e),
{
    let x = first_moved(e);
    lemma_first_moved(e);
    lemma_good_uniform(good, n, acc);
    if x < e.len() {
        match leader(acc, x, e[x as int]) {
            None => {},
            Some(b) => {
                lemma_leader_some(acc, x, e[x as int]);
                let i = choose|i: int| 0 <= i < acc.len() && acc[i] == b;
                assert(good(acc[i]));
                lemma_cancel(e, b);
                lemma_first_moved(compose(e, inverse(b)));
                assert(good(inverse(b)));
                assert(good(compose(e, inverse(b))));
                lemma_sift_good(acc, compose(e, inverse(b)), n, good);
            },
        }
    }
}

/// The filter stays inside every subgroup that holds the candidates.
pub proof fn lemma_sieve_good(s: Seq<Seq<usize>>, n: nat, good: spec_fn(Seq<usize>) -> bool)
    requires
        is_subgroup(good, n),
        all_good(good, s),
    ensures
        all_good(good, sieve(s)),
    decreases s.len(),
{
    if s.len() > 0 {
        let acc = sieve(s.drop_last());
        assert(all_good(good, s.drop_last())) by {
            assert forall|i: int| 0 <= i < s.drop_last().len() implies good(
                #[trigger] s.drop_last()[i],
            ) by {
                assert(s.drop_last()[i] == s[i]);
            }
        }
        lemma_sieve_good(s.drop_last(), n, good);
        assert(good(s[s.len() - 1]));
        lemma_sift_good(acc, s.last(), n, good);
        let r = sift(acc, s.last());
        assert forall|i: int| 0 <= i < sieve(s).len() implies good(#[trigger] sieve(s)[i]) by {
            if i < acc.len() {
                assert(sieve(s)[i] == acc[i]);
            }
        }
    }
}

/// A candidate is generated by the accepted permutations together with
/// what is left of it after sifting.
pub proof fn lemma_sift_generates(acc: Seq<Seq<usize>>, e: Seq<usize>, n: nat)
    requires
        n <= usize::MAX,
        is_permutation(e),
        e.len() == n,
        uniform(acc, n),
    ensures
        generated(acc.push(sift(acc, e)), n, e),
        is_permutation(sift(acc, e)),
        sift(acc, e).len() == n,
    decreases e.len() - first_moved(e),
{
    let r = sift(acc, e);
    let x = first_moved(e);
    lemma_first_moved(e);
    lemma_sift(acc, e);
    lemma_generated_identity(acc, n);
    lemma_generated_push(acc, n, r, identity(n));
    if x < e.len() {
        match leader(acc, x, e[x as int]) {
            None => {},
            Some(b) => {
                lemma_leader_some(acc, x, e[x as int]);
                let i = choose|i: int| 0 <= i < acc.len() && acc[i] == b;
                assert(is_permutation(acc[i]));
                lemma_cancel(e, b);
                let reduced = compose(e, inverse(b));
                lemma_first_moved(reduced);
                lemma_sift_generates(acc, reduced, n);
                lemma_generated_member(acc, n, i);
                lemma_generated_push(acc, n, r, b);
                lemma_generated_compose(acc.push(r), n, reduced, b);
                lemma_inverse_properties(b);
                lemma_compose_associative(e, inverse(b), b);
                lemma_inverse_compose(b);
                lemma_compose_identity(e);
            },
        }
    }
}

/// Every candidate is generated by what the filter keeps.
pub proof fn lemma_sieve_generates(c: Seq<Seq<usize>>, n: nat)
    requires
        n <= usize::MAX,
        uniform(c, n),
    ensures
        all_generated(sieve(c), n, c),
    decreases c.len(),
{
    if c.len() > 0 {
        let front = c.drop_last();
        let e = c.last();
        let acc = sieve(front);
        lemma_uniform_front(c, n);
        lemma_sieve_generates(front, n);
        lemma_sieve(front, n);
        lemma_sift_generates(acc, e, n);
        let r = sift(acc, e);
        assert forall|i: int| 0 <= i < c.len() implies generated(sieve(c), n, #[trigger] c[i]) by {
            if i < front.len() {
                assert(front[i] == c[i]);
                assert(generated(acc, n, front[i]));
                if !is_identity(r) {
                    lemma_generated_push(acc, n, r, c[i]);
                }
            } else {
                if is_identity(r) {
                    lemma_is_identity(r);
                    lemma_generated_identity(acc, n);
                    assert forall|j: int| 0 <= j < acc.push(r).len() implies generated(
                        acc,
                        n,
                        #[trigger] acc.push(r)[j],
                    ) by {
                        if j < acc.len() {
                            assert(acc.push(r)[j] == acc[j]);
                            lemma_generated_member(acc, n, j);
                        }
                    }
                    lemma_generated_transitive(acc, n, acc.push(r), e);
                }
            }
        }
    }
}

/// The filter keeps the generated group: what it keeps generates exactly
/// what the candidates generate.
pub proof fn lemma_sieve_same_group(c: Seq<Seq<usize>>, n: nat)
    requires
        n <= usize::MAX,
        uniform(c, n),
    ensures
        group(sieve(c), n) == group(c, n),
{
    lemma_sieve(c, n);
    lemma_sieve_generates(c, n);
    lemma_generated_is_subgroup(c, n);
    lemma_sieve_good(c, n, generated_by(c, n));
    assert(all_generated(c, n, sieve(c))) by {
        assert forall|i: int| 0 <= i < sieve(c).len() implies generated(
            c,
            n,
            #[trigger] sieve(c)[i],
        ) by {
            assert(generated_by(c, n)(sieve(c)[i]));
        }
    }
    assert forall|x: Seq<usize>| generated(sieve(c), n, x) <==> generated(c, n, x) by {
        if generated(sieve(c), n, x) {
            lemma_generated_transitive(c, n, sieve(c), x);
        }
        if generated(c, n, x) {
            lemma_generated_transitive(sieve(c), n, c, x);
        }
    }
    assert(group(sieve(c), n) =~= group(c, n));
}

/// Reduces a list of permutations of `n` points with the Sims filter.
///
/// Each candidate is scanned from point 0. At its first moved point `x`,
/// with image `y`: if an accepted permutation already has the leading move
/// `x -> y`, the candidate is composed with the inverse of that permutation,
/// which cancels the move, and the scan starts again at 0; otherwise the
/// candidate is accepted. A candidate reduced to the identity is dropped.
pub fn normalize(n: usize, s: Vec<Permutation>) -> (new_s: Vec<Permutation>)
    requires
        uniform(views(s@), n as nat),
    ensures
        views(new_s@) == sieve(views(s@)),
        uniform(views(new_s@), n as nat),
        separated(views(new_s@)),
        views(new_s@).no_duplicates(),
        group(views(new_s@), n as nat) == group(views(s@), n as nat),
        new_s@.len() <= s@.len(),
{
    let mut new_s: Vec<Permutation> = Vec::new();
    let mut base: Vec<BTreeMap<usize, Permutation>> = Vec::new();
    let mut k: usize = 0;
    while k < n
        invariant
            k <= n,
            base@.len() == k,
            forall|x: int| 0 <= x < k ==> (#[trigger] base@[x])@ == Map::<
                usize,
                Permutation,
            >::empty(),
        decreases n - k,
    {
        base.push(BTreeMap::new());
        k += 1;
    }
    assert(views(new_s@) =~= sieve(views(s@).take(0)));
    let mut idx: usize = 0;
    while idx < s.len()
        invariant
            idx <= s.len(),
            uniform(views(s@), n as nat),
            uniform(views(new_s@), n as nat),
            views(new_s@) == sieve(views(s@).take(idx as int)),
            table_ok(base@, views(new_s@), n as nat),
        decreases s.len() - idx,
    {
        let ghost acc = views(new_s@);
        let ghost e0 = s@[idx as int]@;
        assert(e0 == views(s@)[idx as int]);
        let mut elem = s[idx].clone();
        let mut x: usize = 0;
        let mut placed = false;
        while x < n && !placed
            invariant
                x <= n,
                is_permutation(e0),
                e0.len() == n,
                is_permutation(elem@),
                elem@.len() == n,
                uniform(acc, n as nat),
                uniform(views(new_s@), n as nat),
                forall|i: int| 0 <= i < x ==> elem@[i] == i,
                !placed ==> sift(acc, elem@) == sift(acc, e0),
                !placed ==> views(new_s@) == acc,
                placed ==> views(new_s@) == acc.push(sift(acc, e0)) && !is_identity(sift(acc, e0)),
                table_ok(base@, views(new_s@), n as nat),
            decreases
                    (if placed {
                        0int
                    } else {
                        1int
                    }),
                    n - first_moved(elem@),
                    n - x,
        {
            proof {
                lemma_first_moved(elem@);
                lemma_first_moved_at_least(elem@, x as nat);
            }
            let y = elem.p[x];
            if y != x {
                proof {
                    lemma_first_moved_is(elem@, x as nat);
                }
                match base[x].get(&y) {
                    Some(b) => {
                        proof {
                            lemma_leader_some(acc, x as nat, y);
                            let i = choose|i: int| 0 <= i < acc.len() && acc[i] == b@;
                            assert(is_permutation(acc[i]));
                            lemma_cancel(elem@, b@);
                            lemma_first_moved(compose(elem@, inverse(b@)));
                        }
                        let reduced = elem.mul(&b.inv());
                        elem = reduced;
                        x = 0;
                    },
                    None => {
                        proof {
                            lemma_is_identity(elem@);
                            assert(sift(acc, elem@) == elem@);
                            assert forall|xx: nat, yy: usize|
                                (#[trigger] leader(acc.push(elem@), xx, yy)) == if xx == x && yy
                                    == y {
                                    Some(elem@)
                                } else {
                                    leader(acc, xx, yy)
                                } by {
                                lemma_leader_push(acc, elem@, xx, yy);
                            }
                        }
                        base[x].insert(y, elem.clone());
                        new_s.push(elem.clone());
                        placed = true;
                        proof {
                            assert(views(new_s@) =~= acc.push(elem@));
                            lemma_uniform_push(acc, n as nat, elem@);
                        }
                    },
                }
            } else {
                x += 1;
            }
        }
        proof {
            let pre = views(s@).take(idx as int);
            let cur = views(s@).take(idx as int + 1);
            assert(cur.drop_last() =~= pre);
            assert(cur.last() == e0);
            if !placed {
                lemma_first_moved_at_least(elem@, n as nat);
                lemma_first_moved(elem@);
                assert(sift(acc, elem@) == elem@);
            }
        }
        idx += 1;
    }
    proof {
        assert(views(s@).take(s@.len() as int) =~= views(s@));
        lemma_sieve(views(s@), n as nat);
        lemma_separated_no_duplicates(sieve(views(s@)));
        lemma_sieve_same_group(views(s@), n as nat);
    }
    new_s
}

} // verus!
