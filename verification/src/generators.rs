//! Schreier generators: from a list of generators and the Schreier tree of a
//! base point, the generators of the next level.

use crate::order::{generates_stabilizer, lemma_schreier_generators_generate_stabilizer};
use crate::group::{all_fix_point, all_good, generated, is_subgroup};
use crate::orbit::{image, is_transversal, sends_base, tree_covers, tree_values, tree_view, tree_wf};
use crate::perm::{
    compose, inverse, is_permutation, lemma_compose_is_permutation, lemma_inverse_properties,
    lemma_uniform_front, uniform, views, Permutation,
};
use std::collections::BTreeMap;
use vstd::prelude::*;

verus! {

/// The Schreier generator of generator `e` at the tree point `u`: what the
/// tree holds at `u`, then `e`, then the inverse of what the tree holds at
/// `e[u]`. It goes from the base point to `u`, on to `e[u]`, and back.
pub open spec fn schreier_generator(
    e: Seq<usize>,
    tree: Map<usize, Seq<usize>>,
    u: usize,
) -> Seq<usize> {
    compose(compose(tree[u], e), inverse(tree[e[u as int]]))
}

/// `acc` with `x` appended, unless it already holds `x`.
pub open spec fn push_new(acc: Seq<Seq<usize>>, x: Seq<usize>) -> Seq<Seq<usize>> {
    if acc.contains(x) {
        acc
    } else {
        acc.push(x)
    }
}

/// `acc` extended by the Schreier generators of `e` at the tree points below
/// `k`, in ascending order of the point, each one only if it is new.
pub open spec fn row(
    acc: Seq<Seq<usize>>,
    e: Seq<usize>,
    tree: Map<usize, Seq<usize>>,
    k: nat,
) -> Seq<Seq<usize>>
    decreases k,
{
    if k == 0 {
        acc
    } else {
        let before = row(acc, e, tree, (k - 1) as nat);
        let u = (k - 1) as usize;
        if tree.contains_key(u) {
            push_new(before, schreier_generator(e, tree, u))
        } else {
            before
        }
    }
}

/// The Schreier generators of all of `s` over the tree `tree`: generator by
/// generator, point by point in ascending order, without repetition.
pub open spec fn schreier_generators(
    s: Seq<Seq<usize>>,
    tree: Map<usize, Seq<usize>>,
) -> Seq<Seq<usize>>
    decreases s.len(),
{
    if s.len() == 0 {
        Seq::empty()
    } else {
        row(schreier_generators(s.drop_last(), tree), s.last(), tree, s.last().len())
    }
}

/// `p` is the Schreier generator of some member of `s` at some tree point.
pub open spec fn is_schreier_generator(
    s: Seq<Seq<usize>>,
    tree: Map<usize, Seq<usize>>,
    p: Seq<usize>,
) -> bool {
    exists|i: int, u: usize|
        0 <= i < s.len() && tree.contains_key(u) && p == #[trigger] schreier_generator(
            s[i],
            tree,
            u,
        )
}

/// `p` is the Schreier generator of `e` at some tree point below `k`.
pub open spec fn in_row(
    e: Seq<usize>,
    tree: Map<usize, Seq<usize>>,
    k: nat,
    p: Seq<usize>,
) -> bool {
    exists|u: usize|
        u < k && tree.contains_key(u) && p == #[trigger] schreier_generator(e, tree, u)
}

/// A Schreier generator over a tree of permutations is a permutation of the
/// same points.
pub proof fn lemma_schreier_generator_is_permutation(
    e: Seq<usize>,
    tree: Map<usize, Seq<usize>>,
    u: usize,
)
    requires
        is_permutation(e),
        tree_wf(tree, e.len()),
        tree.contains_key(u),
        tree.contains_key(e[u as int]),
    ensures
        is_permutation(schreier_generator(e, tree, u)),
        schreier_generator(e, tree, u).len() == e.len(),
{
    let back = tree[e[u as int]];
    lemma_inverse_properties(back);
    lemma_compose_is_permutation(tree[u], e);
    lemma_compose_is_permutation(compose(tree[u], e), inverse(back));
}

/// What a row holds: what it started with, and the Schreier generators of
/// its generator at the tree points below `k`.
pub proof fn lemma_row(
    acc: Seq<Seq<usize>>,
    e: Seq<usize>,
    tree: Map<usize, Seq<usize>>,
    k: nat,
    p: Seq<usize>,
)
    requires
        k <= usize::MAX,
    ensures
        row(acc, e, tree, k).contains(p) <==> (acc.contains(p) || in_row(e, tree, k, p)),
    decreases k,
{
    if k > 0 {
        let km = (k - 1) as nat;
        let before = row(acc, e, tree, km);
        let last = (k - 1) as usize;
        lemma_row(acc, e, tree, km, p);
        let x = schreier_generator(e, tree, last);
        let after = row(acc, e, tree, k);
        let here = tree.contains_key(last) && p == x;
        assert(after.contains(p) <==> (before.contains(p) || here)) by {
            if after.contains(p) && !before.contains(p) {
                let i = choose|i: int| 0 <= i < after.len() && after[i] == p;
                if i < before.len() {
                    assert(before[i] == p);
                }
            }
            if before.contains(p) {
                let i = choose|i: int| 0 <= i < before.len() && before[i] == p;
                assert(after[i] == p);
            }
            if here && !before.contains(p) {
                assert(after[before.len() as int] == p);
            }
        }
        if in_row(e, tree, km, p) {
            let u = choose|u: usize|
                u < km && tree.contains_key(u) && p == #[trigger] schreier_generator(e, tree, u);
            assert(u < k && tree.contains_key(u) && p == schreier_generator(e, tree, u));
        }
        if here {
            assert(last < k && tree.contains_key(last) && p == schreier_generator(e, tree, last));
        }
        if in_row(e, tree, k, p) {
            let u = choose|u: usize|
                u < k && tree.contains_key(u) && p == #[trigger] schreier_generator(e, tree, u);
            if u != last {
                assert(u < km && tree.contains_key(u) && p == schreier_generator(e, tree, u));
            }
        }
    }
}

/// A row repeats nothing if what it started with repeated nothing.
pub proof fn lemma_row_no_duplicates(
    acc: Seq<Seq<usize>>,
    e: Seq<usize>,
    tree: Map<usize, Seq<usize>>,
    k: nat,
)
    requires
        acc.no_duplicates(),
    ensures
        row(acc, e, tree, k).no_duplicates(),
    decreases k,
{
    if k > 0 {
        lemma_row_no_duplicates(acc, e, tree, (k - 1) as nat);
    }
}

/// What the list of Schreier generators holds: exactly the Schreier
/// generators of the members of `s` at the tree points, each once.
pub proof fn lemma_schreier_generators(s: Seq<Seq<usize>>, tree: Map<usize, Seq<usize>>)
    requires
        tree_covers(s, tree),
    ensures
        forall|p: Seq<usize>|
            schreier_generators(s, tree).contains(p) <==> is_schreier_generator(s, tree, p),
        schreier_generators(s, tree).no_duplicates(),
    decreases s.len(),
{
    let all = schreier_generators(s, tree);
    if s.len() > 0 {
        let front = s.drop_last();
        let e = s.last();
        let m = s.len() - 1;
        assert(s[m] == e);
        lemma_tree_covers_front(s, tree);
        lemma_schreier_generators(front, tree);
        let acc = schreier_generators(front, tree);
        lemma_row_no_duplicates(acc, e, tree, e.len());
        assert forall|p: Seq<usize>| all.contains(p) <==> is_schreier_generator(s, tree, p) by {
            lemma_row(acc, e, tree, e.len(), p);
            if all.contains(p) {
                if acc.contains(p) {
                    assert(is_schreier_generator(front, tree, p));
                    let (i, u) = choose|i: int, u: usize|
                        0 <= i < front.len() && tree.contains_key(u) && p
                            == #[trigger] schreier_generator(front[i], tree, u);
                    assert(front[i] == s[i]);
                    assert(p == schreier_generator(s[i], tree, u));
                } else {
                    let u = choose|u: usize|
                        u < e.len() && tree.contains_key(u) && p == #[trigger] schreier_generator(
                            e,
                            tree,
                            u,
                        );
                    assert(p == schreier_generator(s[m], tree, u));
                }
            }
            if is_schreier_generator(s, tree, p) {
                let (i, u) = choose|i: int, u: usize|
                    0 <= i < s.len() && tree.contains_key(u) && p
                        == #[trigger] schreier_generator(s[i], tree, u);
                if i < m {
                    assert(front[i] == s[i]);
                    assert(p == schreier_generator(front[i], tree, u));
                    assert(is_schreier_generator(front, tree, p));
                } else {
                    assert(tree_wf(tree, s[m].len()));
                    assert(u < e.len() && tree.contains_key(u) && p == schreier_generator(
                        e,
                        tree,
                        u,
                    ));
                }
            }
        }
    } else {
        assert forall|p: Seq<usize>| all.contains(p) <==> is_schreier_generator(s, tree, p) by {}
    }
}

/// A list that the tree covers still has its front covered.
proof fn lemma_tree_covers_front(s: Seq<Seq<usize>>, tree: Map<usize, Seq<usize>>)
    requires
        tree_covers(s, tree),
        s.len() > 0,
    ensures
        tree_covers(s.drop_last(), tree),
{
    let front = s.drop_last();
    assert forall|i: int| 0 <= i < front.len() implies is_permutation(#[trigger] front[i])
        && tree_wf(tree, front[i].len()) && (forall|u: usize|
        tree.contains_key(u) ==> tree.contains_key(#[trigger] image(front, i, u))) by {
        assert(front[i] == s[i]);
        assert forall|u: usize| tree.contains_key(u) implies tree.contains_key(
            #[trigger] image(front, i, u),
        ) by {
            assert(image(front, i, u) == image(s, i, u));
        }
    }
}

/// The Schreier generators of permutations of `n` points are permutations
/// of `n` points.
pub proof fn lemma_schreier_generators_uniform(
    s: Seq<Seq<usize>>,
    tree: Map<usize, Seq<usize>>,
    n: nat,
)
    requires
        uniform(s, n),
        tree_covers(s, tree),
    ensures
        uniform(schreier_generators(s, tree), n),
{
    let all = schreier_generators(s, tree);
    lemma_schreier_generators(s, tree);
    assert forall|i: int| 0 <= i < all.len() implies is_permutation(#[trigger] all[i])
        && all[i].len() == n by {
        let p = all[i];
        assert(all.contains(p));
        assert(is_schreier_generator(s, tree, p));
        let (a, u) = choose|a: int, u: usize|
            0 <= a < s.len() && tree.contains_key(u) && p == #[trigger] schreier_generator(
                s[a],
                tree,
                u,
            );
        assert(is_permutation(s[a]) && tree_wf(tree, s[a].len()));
        assert(tree.contains_key(image(s, a, u)));
        lemma_schreier_generator_is_permutation(s[a], tree, u);
    }
}

/// A row grows by at most one permutation for each tree point below `k`.
pub proof fn lemma_row_len(
    acc: Seq<Seq<usize>>,
    e: Seq<usize>,
    tree: Map<usize, Seq<usize>>,
    k: nat,
)
    ensures
        row(acc, e, tree, k).len() <= acc.len() + tree_values(tree, k).len(),
    decreases k,
{
    if k > 0 {
        lemma_row_len(acc, e, tree, (k - 1) as nat);
    }
}

/// There are at most as many Schreier generators as pairs of a generator
/// and a tree point.
pub proof fn lemma_schreier_generators_len(s: Seq<Seq<usize>>, tree: Map<usize, Seq<usize>>, n: nat)
    requires
        uniform(s, n),
    ensures
        schreier_generators(s, tree).len() <= s.len() * tree_values(tree, n).len(),
    decreases s.len(),
{
    let per = tree_values(tree, n).len();
    if s.len() > 0 {
        let front = s.drop_last();
        lemma_uniform_front(s, n);
        lemma_schreier_generators_len(front, tree, n);
        lemma_row_len(schreier_generators(front, tree), s.last(), tree, n);
        assert(front.len() * per + per == s.len() * per) by (nonlinear_arith)
            requires
                front.len() + 1 == s.len(),
        ;
    } else {
        assert(s.len() * per == 0) by (nonlinear_arith)
            requires
                s.len() == 0,
        ;
    }
}

/// The Schreier generators lie in every subgroup that holds the generators
/// and what the tree stores.
pub proof fn lemma_schreier_generators_good(
    s: Seq<Seq<usize>>,
    tree: Map<usize, Seq<usize>>,
    n: nat,
    good: spec_fn(Seq<usize>) -> bool,
)
    requires
        is_subgroup(good, n),
        all_good(good, s),
        tree_covers(s, tree),
        forall|k: usize| #[trigger] tree.contains_key(k) ==> good(tree[k]),
    ensures
        all_good(good, schreier_generators(s, tree)),
{
    let all = schreier_generators(s, tree);
    lemma_schreier_generators(s, tree);
    assert forall|i: int| 0 <= i < all.len() implies good(#[trigger] all[i]) by {
        let p = all[i];
        assert(all.contains(p));
        assert(is_schreier_generator(s, tree, p));
        let (a, u) = choose|a: int, u: usize|
            0 <= a < s.len() && tree.contains_key(u) && p == #[trigger] schreier_generator(
                s[a],
                tree,
                u,
            );
        assert(good(s[a]));
        assert(tree.contains_key(image(s, a, u)));
        assert(good(tree[u]));
        assert(good(tree[s[a][u as int]]));
        assert(good(inverse(tree[s[a][u as int]])));
        assert(good(compose(tree[u], s[a])));
        assert(good(compose(compose(tree[u], s[a]), inverse(tree[s[a][u as int]]))));
    }
}

/// Over a tree whose entries send the point `w` to their keys, a Schreier
/// generator fixes `w`.
pub proof fn lemma_schreier_generator_fixes_base(
    e: Seq<usize>,
    tree: Map<usize, Seq<usize>>,
    w: usize,
    u: usize,
)
    requires
        is_permutation(e),
        tree_wf(tree, e.len()),
        sends_base(tree, w),
        tree.contains_key(u),
        tree.contains_key(e[u as int]),
    ensures
        schreier_generator(e, tree, u)[w as int] == w,
{
    let v = e[u as int];
    let tu = tree[u];
    let tv = tree[v];
    lemma_inverse_properties(tv);
    assert(tu[w as int] == u);
    assert(compose(tu, e)[w as int] == v);
    assert(inverse(tv)[tv[w as int] as int] == w);
}

/// Over a tree whose entries send the point `w` to their keys, every
/// Schreier generator fixes `w`.
pub proof fn lemma_schreier_generators_fix_base(
    s: Seq<Seq<usize>>,
    tree: Map<usize, Seq<usize>>,
    w: usize,
)
    requires
        tree_covers(s, tree),
        sends_base(tree, w),
    ensures
        all_fix_point(schreier_generators(s, tree), w as int),
{
    let all = schreier_generators(s, tree);
    lemma_schreier_generators(s, tree);
    assert forall|i: int| 0 <= i < all.len() implies (#[trigger] all[i])[w as int] == w by {
        let p = all[i];
        assert(all.contains(p));
        assert(is_schreier_generator(s, tree, p));
        let (a, u) = choose|a: int, u: usize|
            0 <= a < s.len() && tree.contains_key(u) && p == #[trigger] schreier_generator(
                s[a],
                tree,
                u,
            );
        assert(is_permutation(s[a]) && tree_wf(tree, s[a].len()));
        assert(tree.contains_key(image(s, a, u)));
        lemma_schreier_generator_fixes_base(s[a], tree, w, u);
    }
}

/// Whether `list` holds a permutation equal to `x`.
fn holds(list: &Vec<Permutation>, x: &Permutation) -> (b: bool)
    ensures
        b == views(list@).contains(x@),
{
    let mut i: usize = 0;
    while i < list.len()
        invariant
            i <= list@.len(),
            forall|k: int| 0 <= k < i ==> views(list@)[k] != x@,
        decreases list@.len() - i,
    {
        if list[i] == *x {
            assert(views(list@)[i as int] == x@);
            return true;
        }
        i += 1;
    }
    false
}

/// The Schreier generators of the members of `s` over the tree `orbit`.
///
/// For each member `e` in turn and each tree point `u` in ascending order,
/// the permutation `orbit[u].mul(e).mul(&orbit[e.p[u]].inv())` is added to
/// the result unless the result already holds it. Where every entry of the
/// tree sends a point `w` to its key, every member of the result fixes `w`;
/// over a transversal of the orbit of `w`, the result generates the
/// stabilizer of `w`.
pub fn make_gen(
    s: Vec<Permutation>,
    orbit: &BTreeMap<usize, Permutation>,
) -> (new_s: Vec<Permutation>)
    requires
        tree_covers(views(s@), tree_view(orbit@)),
    ensures
        views(new_s@) == schreier_generators(views(s@), tree_view(orbit@)),
        views(new_s@).no_duplicates(),
        forall|p: Seq<usize>|
            views(new_s@).contains(p) <==> is_schreier_generator(views(s@), tree_view(orbit@), p),
        forall|w: usize| #[trigger]
            sends_base(tree_view(orbit@), w) ==> all_fix_point(views(new_s@), w as int),
        forall|n: nat, w: usize| #[trigger]
            is_transversal(n, views(s@), w, tree_view(orbit@)) ==> generates_stabilizer(
                n,
                views(s@),
                w,
                views(new_s@),
            ),
        forall|n: nat| uniform(views(s@), n) ==> uniform(views(new_s@), n),
        forall|n: nat|
            uniform(views(s@), n) ==> new_s@.len() <= s@.len() * (#[trigger] tree_values(
                tree_view(orbit@),
                n,
            )).len(),
{
    let ghost gens = views(s@);
    let mut new_s: Vec<Permutation> = Vec::new();
    let mut idx: usize = 0;
    assert(views(new_s@) =~= schreier_generators(gens.take(0), tree_view(orbit@)));
    while idx < s.len()
        invariant
            idx <= s@.len(),
            gens == views(s@),
            tree_covers(gens, tree_view(orbit@)),
            views(new_s@) == schreier_generators(gens.take(idx as int), tree_view(orbit@)),
        decreases s@.len() - idx,
    {
        let elem = &s[idx];
        let ghost acc = views(new_s@);
        let ghost e = elem@;
        assert(e == gens[idx as int]);
        assert(is_permutation(gens[idx as int]));
        assert(tree_wf(tree_view(orbit@), gens[idx as int].len()));
        let n = elem.len();
        let mut u: usize = 0;
        while u < n
            invariant
                u <= n,
                n == e.len(),
                e == elem@,
                e == gens[idx as int],
                0 <= idx < gens.len(),
                is_permutation(e),
                tree_wf(tree_view(orbit@), e.len()),
                tree_covers(gens, tree_view(orbit@)),
                views(new_s@) == row(acc, e, tree_view(orbit@), u as nat),
            decreases n - u,
        {
            match orbit.get(&u) {
                Some(at_u) => {
                    assert(tree_view(orbit@).contains_key(u) && tree_view(orbit@)[u] == at_u@);
                    let v = elem.p[u];
                    assert(v == image(gens, idx as int, u));
                    assert(tree_view(orbit@).contains_key(v));
                    let at_v = orbit.get(&v).unwrap();
                    assert(tree_view(orbit@)[v] == at_v@);
                    proof {
                        lemma_inverse_properties(at_v@);
                        lemma_compose_is_permutation(at_u@, e);
                    }
                    let gen = at_u.mul(elem).mul(&at_v.inv());
                    let ghost gen_view = gen@;
                    assert(gen_view == schreier_generator(e, tree_view(orbit@), u));
                    if !holds(&new_s, &gen) {
                        let ghost before = views(new_s@);
                        new_s.push(gen);
                        assert(views(new_s@) =~= before.push(gen_view));
                    }
                },
                None => {},
            }
            u += 1;
        }
        proof {
            let pre = gens.take(idx as int);
            let cur = gens.take(idx as int + 1);
            assert(cur.drop_last() =~= pre);
            assert(cur.last() == e);
        }
        idx += 1;
    }
    proof {
        assert(gens.take(s@.len() as int) =~= gens);
        lemma_schreier_generators(gens, tree_view(orbit@));
        assert forall|w: usize| #[trigger] sends_base(tree_view(orbit@), w) implies all_fix_point(
            views(new_s@),
            w as int,
        ) by {
            lemma_schreier_generators_fix_base(gens, tree_view(orbit@), w);
        }
        assert forall|n: nat, w: usize| #[trigger]
            is_transversal(n, gens, w, tree_view(orbit@)) implies generates_stabilizer(
            n,
            gens,
            w,
            views(new_s@),
        ) by {
            assert(tree_view(orbit@).contains_key(w));
            assert forall|g: Seq<usize>| #[trigger]
                generated(views(new_s@), n, g) <==> generated(gens, n, g) && g[w as int] == w by {
                lemma_schreier_generators_generate_stabilizer(n, gens, w, tree_view(orbit@), g);
            }
        }
        assert forall|n: nat| uniform(gens, n) implies uniform(views(new_s@), n) by {
            lemma_schreier_generators_uniform(gens, tree_view(orbit@), n);
        }
        assert forall|n: nat| uniform(gens, n) implies new_s@.len() <= s@.len() * (
        #[trigger] tree_values(tree_view(orbit@), n)).len() by {
            lemma_schreier_generators_len(gens, tree_view(orbit@), n);
        }
    }
    new_s
}

} // verus!
