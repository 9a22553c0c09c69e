//! Orbits and Schreier trees: the points that a list of generators reaches
//! from a base point, each with a permutation that sends the base point
//! there.

use crate::group::{
    all_fix_below, all_good, fixes_below, generated, generated_by, is_subgroup,
    lemma_generated_good, lemma_generated_is_subgroup, lemma_product_is_permutation,
    lemma_valid_word_front, product, valid_word, Letter,
};
use crate::perm::{
    compose, identity, inverse, is_permutation, lemma_compose_is_permutation,
    lemma_inverse_properties, uniform, views, Permutation,
};
use std::collections::BTreeMap;
use vstd::prelude::*;
use vstd::relations::injective_on;
use vstd::set_lib::{
    full_set_properties, lemma_map_size, lemma_set_subset_finite, lemma_subset_equality,
};

verus! {

/// Every entry of `path` is the index of a generator.
pub open spec fn valid_path(s: Seq<Seq<usize>>, path: Seq<int>) -> bool {
    forall|k: int| 0 <= k < path.len() ==> 0 <= #[trigger] path[k] < s.len()
}

/// The image of point `k` under generator number `j`.
pub open spec fn image(s: Seq<Seq<usize>>, j: int, k: usize) -> usize {
    s[j][k as int]
}

/// The point reached from `w` by applying the generators named in `path`,
/// first entry first.
pub open spec fn walk(s: Seq<Seq<usize>>, w: usize, path: Seq<int>) -> usize
    decreases path.len(),
{
    if path.len() == 0 {
        w
    } else {
        image(s, path.last(), walk(s, w, path.drop_last()))
    }
}

/// The permutation stored at the end of `path` in a tree whose root holds
/// `t`: each step follows what the step before stored by its generator,
/// `compose(stored, generator)`.
pub open spec fn trace(s: Seq<Seq<usize>>, t: Seq<usize>, path: Seq<int>) -> Seq<usize>
    decreases path.len(),
{
    if path.len() == 0 {
        t
    } else {
        compose(trace(s, t, path.drop_last()), s[path.last()])
    }
}

/// Some sequence of generators takes `w` to `x`.
pub open spec fn reachable(s: Seq<Seq<usize>>, w: usize, x: usize) -> bool {
    exists|path: Seq<int>| valid_path(s, path) && walk(s, w, path) == x
}

/// The orbit of `w`: every point that some sequence of generators reaches
/// from it.
pub open spec fn orbit_of(s: Seq<Seq<usize>>, w: usize) -> Set<usize> {
    Set::new(|x: usize| reachable(s, w, x))
}

/// The entry `k -> v` was grown from a root `w` holding `t`: some path leads
/// from `w` to `k`, and `v` is what the tree stores at its end.
pub open spec fn grown(
    s: Seq<Seq<usize>>,
    w: usize,
    t: Seq<usize>,
    k: usize,
    v: Seq<usize>,
) -> bool {
    exists|path: Seq<int>| #[trigger]
        valid_path(s, path) && walk(s, w, path) == k && v == trace(s, t, path)
}

/// A tree as a map from point to image array.
pub open spec fn tree_view(m: Map<usize, Permutation>) -> Map<usize, Seq<usize>> {
    Map::new(|k: usize| m.contains_key(k), |k: usize| m[k]@)
}

/// Every key is one of `n` points and holds a permutation of them.
pub open spec fn tree_wf(m: Map<usize, Seq<usize>>, n: nat) -> bool {
    forall|k: usize| #[trigger]
        m.contains_key(k) ==> k < n && is_permutation(m[k]) && m[k].len() == n
}

/// `tree` is a transversal of the orbit of the base point `w` under `gens`:
/// its keys are exactly the orbit of `w`, the base point holds the identity,
/// and each key holds a member of the group of `gens` that sends `w` to
/// that key.
pub open spec fn is_transversal(
    n: nat,
    gens: Seq<Seq<usize>>,
    w: usize,
    tree: Map<usize, Seq<usize>>,
) -> bool {
    &&& uniform(gens, n)
    &&& tree_wf(tree, n)
    &&& tree.dom() == orbit_of(gens, w)
    &&& tree.contains_key(w)
    &&& tree[w] == identity(n)
    &&& sends_base(tree, w)
    &&& forall|k: usize| #[trigger] tree.contains_key(k) ==> generated(gens, n, tree[k])
}

/// `tree` is a Schreier tree of the base point `w` under `gens`: a
/// transversal of the orbit of `w` in which each key holds the product of
/// the generators along a path from `w` to that key.
pub open spec fn is_schreier_tree(
    n: nat,
    gens: Seq<Seq<usize>>,
    w: usize,
    tree: Map<usize, Seq<usize>>,
) -> bool {
    &&& is_transversal(n, gens, w, tree)
    &&& forall|k: usize| #[trigger] tree.contains_key(k) ==> grown(gens, w, identity(n), k, tree[k])
}

/// The tree holds permutations of the points that `s` acts on, and the image
/// of each of its points under each member of `s`.
pub open spec fn tree_covers(s: Seq<Seq<usize>>, tree: Map<usize, Seq<usize>>) -> bool {
    forall|i: int|
        0 <= i < s.len() ==> {
            &&& is_permutation(#[trigger] s[i])
            &&& tree_wf(tree, s[i].len())
            &&& forall|u: usize|
                tree.contains_key(u) ==> tree.contains_key(#[trigger] image(s, i, u))
        }
}

/// Every entry of `tree` sends the point `w` to its key.
pub open spec fn sends_base(tree: Map<usize, Seq<usize>>, w: usize) -> bool {
    forall|k: usize| #[trigger]
        tree.contains_key(k) ==> w < tree[k].len() && tree[k][w as int] == k
}

/// The tree that holds the identity at `w` and nothing else.
pub open spec fn is_seed(n: nat, w: usize, tree: Map<usize, Seq<usize>>) -> bool {
    tree.dom() =~= set![w] && tree[w] == identity(n)
}

/// The permutations that `tree` holds at the points below `k`, in ascending
/// order of the point.
pub open spec fn tree_values(tree: Map<usize, Seq<usize>>, k: nat) -> Seq<Seq<usize>>
    decreases k,
{
    if k == 0 {
        Seq::empty()
    } else {
        let before = tree_values(tree, (k - 1) as nat);
        let u = (k - 1) as usize;
        if tree.contains_key(u) {
            before.push(tree[u])
        } else {
            before
        }
    }
}

/// The keys of `tree` below `k`.
pub open spec fn keys_below(tree: Map<usize, Seq<usize>>, k: nat) -> Set<usize> {
    Set::new(|u: usize| tree.contains_key(u) && u < k)
}

/// How many of the points `0, .., n-1` are not in `dom`.
pub open spec fn missing(dom: Set<usize>, n: nat) -> nat
    decreases n,
{
    if n == 0 {
        0
    } else {
        missing(dom, (n - 1) as nat) + if dom.contains((n - 1) as usize) {
            0nat
        } else {
            1nat
        }
    }
}

/// The word that spells a path: its generators, none inverted.
pub open spec fn path_word(path: Seq<int>) -> Seq<Letter> {
    Seq::new(path.len(), |k: int| Letter { index: path[k], inverted: false })
}

/// `after` is the tree `before` grown from its point `w`: what `before` held
/// is kept, each new entry was grown from `w`, `w` and every new key have
/// all their images among the keys, and each new entry sends to its key
/// every point that the entry at `w` sends to `w`.
pub open spec fn grown_from(
    s: Seq<Seq<usize>>,
    w: usize,
    before: Map<usize, Seq<usize>>,
    after: Map<usize, Seq<usize>>,
) -> bool {
    &&& forall|k: usize| #[trigger]
        before.contains_key(k) ==> after.contains_key(k) && after[k] == before[k]
    &&& forall|k: usize| #[trigger]
        after.contains_key(k) && !before.contains_key(k) ==> grown(s, w, before[w], k, after[k])
    &&& forall|k: usize, j: int|
        (k == w || (after.contains_key(k) && !before.contains_key(k))) && 0 <= j < s.len()
            ==> after.contains_key(#[trigger] image(s, j, k))
    &&& forall|b: usize, k: usize|
        b < before[w].len() && before[w][b as int] == w && after.contains_key(k)
            && !before.contains_key(k) ==> #[trigger] after[k][b as int] == k
}

/// A walk from a point at or above `k`, under generators that fix every
/// point below `k`, stays at or above `k`.
pub proof fn lemma_walk_above(s: Seq<Seq<usize>>, n: nat, w: usize, k: nat, path: Seq<int>)
    requires
        uniform(s, n),
        all_fix_below(s, k),
        valid_path(s, path),
        k <= w < n,
    ensures
        k <= walk(s, w, path) < n,
    decreases path.len(),
{
    if path.len() > 0 {
        lemma_valid_path_front(s, path);
        lemma_walk_above(s, n, w, k, path.drop_last());
        let g = s[path.last()];
        let x = walk(s, w, path.drop_last());
        assert(is_permutation(g) && fixes_below(g, k));
        assert(g[x as int] < n);
        if g[x as int] < k {
            assert(g[g[x as int] as int] == g[x as int]);
        }
    }
}

/// What a tree lists at the points below `k`, where each entry sends the
/// point `w` to its key: each listed permutation is the entry at the point
/// where it sends `w`, these points ascend along the list, and every entry
/// at a point below `k` is listed.
pub proof fn lemma_tree_values_entries(tree: Map<usize, Seq<usize>>, w: usize, k: nat)
    requires
        sends_base(tree, w),
        k <= usize::MAX,
    ensures
        forall|j: int|
            0 <= j < tree_values(tree, k).len() ==> {
                let e = #[trigger] tree_values(tree, k)[j];
                e[w as int] < k && tree.contains_key(e[w as int]) && e == tree[e[w as int]]
            },
        forall|a: int, b: int|
            0 <= a < b < tree_values(tree, k).len() ==> (#[trigger] tree_values(
                tree,
                k,
            )[a])[w as int] < (#[trigger] tree_values(tree, k)[b])[w as int],
        forall|u: usize|
            u < k && #[trigger] tree.contains_key(u) ==> exists|j: int|
                0 <= j < tree_values(tree, k).len() && #[trigger] tree_values(tree, k)[j]
                    == tree[u],
    decreases k,
{
    if k > 0 {
        let km = (k - 1) as nat;
        let u = (k - 1) as usize;
        let before = tree_values(tree, km);
        let now = tree_values(tree, k);
        lemma_tree_values_entries(tree, w, km);
        assert forall|j: int| 0 <= j < now.len() implies {
            let e = #[trigger] now[j];
            e[w as int] < k && tree.contains_key(e[w as int]) && e == tree[e[w as int]]
        } by {
            if j < before.len() {
                assert(now[j] == before[j]);
            }
        }
        assert forall|a: int, b: int| 0 <= a < b < now.len() implies (#[trigger] now[a])[w as int]
            < (#[trigger] now[b])[w as int] by {
            assert(now[a] == before[a]);
            if b < before.len() {
                assert(now[b] == before[b]);
            }
        }
        assert forall|x: usize| x < k && #[trigger] tree.contains_key(x) implies exists|j: int|
            0 <= j < now.len() && #[trigger] now[j] == tree[x] by {
            if x == u {
                assert(now[now.len() - 1] == tree[x]);
            } else {
                assert(x < km);
                let j = choose|j: int| 0 <= j < before.len() && #[trigger] before[j] == tree[x];
                assert(now[j] == tree[x]);
            }
        }
    }
}

/// A tree with no key below `w`, and with the key `w`, lists nothing at the
/// points up to `w`, and from there on lists the entry at `w` first and at
/// most one permutation for each point from `w`.
pub proof fn lemma_tree_values_from(tree: Map<usize, Seq<usize>>, w: usize, k: nat)
    requires
        forall|u: usize| #[trigger] tree.contains_key(u) ==> u >= w,
        tree.contains_key(w),
        k <= usize::MAX,
    ensures
        k <= w ==> tree_values(tree, k).len() == 0,
        k > w ==> 1 <= tree_values(tree, k).len() <= k - w && tree_values(tree, k)[0] == tree[w],
    decreases k,
{
    if k > 0 {
        lemma_tree_values_from(tree, w, (k - 1) as nat);
    }
}

/// A tree lists as many permutations at the points below `k` as it has
/// keys below `k`.
pub proof fn lemma_tree_values_count(tree: Map<usize, Seq<usize>>, k: nat)
    requires
        k <= usize::MAX,
    ensures
        keys_below(tree, k).finite(),
        tree_values(tree, k).len() == keys_below(tree, k).len(),
    decreases k,
{
    if k == 0 {
        assert(keys_below(tree, 0) =~= Set::<usize>::empty());
    } else {
        let u = (k - 1) as usize;
        lemma_tree_values_count(tree, (k - 1) as nat);
        if tree.contains_key(u) {
            assert(keys_below(tree, k) =~= keys_below(tree, (k - 1) as nat).insert(u));
        } else {
            assert(keys_below(tree, k) =~= keys_below(tree, (k - 1) as nat));
        }
    }
}

/// A transversal lists as many permutations as the orbit of its base point
/// has points.
pub proof fn lemma_tree_values_len(
    n: nat,
    s: Seq<Seq<usize>>,
    w: usize,
    tree: Map<usize, Seq<usize>>,
)
    requires
        n <= usize::MAX,
        is_transversal(n, s, w, tree),
    ensures
        orbit_of(s, w).finite(),
        tree_values(tree, n).len() == orbit_of(s, w).len(),
{
    lemma_tree_values_count(tree, n);
    assert(keys_below(tree, n) =~= tree.dom());
}

/// Adding a point that was missing leaves one fewer missing.
pub proof fn lemma_missing_insert(dom: Set<usize>, n: nat, k: usize)
    requires
        k < n <= usize::MAX,
        !dom.contains(k),
    ensures
        missing(dom.insert(k), n) + 1 == missing(dom, n),
    decreases n,
{
    if n - 1 == k {
        lemma_missing_above(dom, (n - 1) as nat, k);
    } else {
        lemma_missing_insert(dom, (n - 1) as nat, k);
    }
}

/// A point at or above `n` does not count among the first `n`.
proof fn lemma_missing_above(dom: Set<usize>, n: nat, k: usize)
    requires
        n <= k,
    ensures
        missing(dom.insert(k), n) == missing(dom, n),
    decreases n,
{
    if n > 0 {
        lemma_missing_above(dom, (n - 1) as nat, k);
    }
}

/// A larger set has no more points missing.
pub proof fn lemma_missing_subset(a: Set<usize>, b: Set<usize>, n: nat)
    requires
        a.subset_of(b),
    ensures
        missing(b, n) <= missing(a, n),
    decreases n,
{
    if n > 0 {
        lemma_missing_subset(a, b, (n - 1) as nat);
    }
}

/// Walking a path and then another is walking the two joined.
pub proof fn lemma_walk_concat(s: Seq<Seq<usize>>, w: usize, a: Seq<int>, b: Seq<int>)
    ensures
        walk(s, w, a + b) == walk(s, walk(s, w, a), b),
    decreases b.len(),
{
    if b.len() == 0 {
        assert(a + b =~= a);
    } else {
        assert((a + b).drop_last() =~= a + b.drop_last());
        assert((a + b).last() == b.last());
        lemma_walk_concat(s, w, a, b.drop_last());
    }
}

/// Tracing a path and then another is tracing the two joined.
pub proof fn lemma_trace_concat(s: Seq<Seq<usize>>, t: Seq<usize>, a: Seq<int>, b: Seq<int>)
    ensures
        trace(s, t, a + b) == trace(s, trace(s, t, a), b),
    decreases b.len(),
{
    if b.len() == 0 {
        assert(a + b =~= a);
    } else {
        assert((a + b).drop_last() =~= a + b.drop_last());
        assert((a + b).last() == b.last());
        lemma_trace_concat(s, t, a, b.drop_last());
    }
}

/// A set that holds `w` and the image of each of its points under each
/// generator holds every point reachable from `w`.
pub proof fn lemma_closed_holds_walk(s: Seq<Seq<usize>>, w: usize, dom: Set<usize>, path: Seq<int>)
    requires
        dom.contains(w),
        forall|k: usize, j: int|
            dom.contains(k) && 0 <= j < s.len() ==> dom.contains(#[trigger] image(s, j, k)),
        valid_path(s, path),
    ensures
        dom.contains(walk(s, w, path)),
    decreases path.len(),
{
    if path.len() > 0 {
        assert(valid_path(s, path.drop_last())) by {
            assert forall|k: int| 0 <= k < path.drop_last().len() implies 0
                <= #[trigger] path.drop_last()[k] < s.len() by {
                assert(path.drop_last()[k] == path[k]);
            }
        }
        lemma_closed_holds_walk(s, w, dom, path.drop_last());
        assert(0 <= path[path.len() - 1] < s.len());
    }
}

/// A valid path with one more step is valid.
pub proof fn lemma_valid_path_push(s: Seq<Seq<usize>>, path: Seq<int>, j: int)
    requires
        valid_path(s, path),
        0 <= j < s.len(),
    ensures
        valid_path(s, path.push(j)),
        path.push(j).drop_last() == path,
        path.push(j).last() == j,
{
    assert(path.push(j).drop_last() =~= path);
    assert forall|k: int| 0 <= k < path.push(j).len() implies 0 <= #[trigger] path.push(j)[k]
        < s.len() by {
        if k < path.len() {
            assert(path.push(j)[k] == path[k]);
        }
    }
}

/// The orbit of `w` holds `w`, and with a point its image under each
/// generator.
pub proof fn lemma_orbit_closed(s: Seq<Seq<usize>>, w: usize)
    ensures
        orbit_of(s, w).contains(w),
        forall|k: usize, j: int|
            orbit_of(s, w).contains(k) && 0 <= j < s.len() ==> orbit_of(s, w).contains(
                #[trigger] image(s, j, k),
            ),
{
    let empty = Seq::<int>::empty();
    assert(valid_path(s, empty) && walk(s, w, empty) == w);
    assert forall|k: usize, j: int| orbit_of(s, w).contains(k) && 0 <= j < s.len() implies orbit_of(
        s,
        w,
    ).contains(#[trigger] image(s, j, k)) by {
        let p = choose|path: Seq<int>| valid_path(s, path) && walk(s, w, path) == k;
        lemma_valid_path_push(s, p, j);
        assert(walk(s, w, p.push(j)) == image(s, j, k));
    }
}

/// A valid path without its last step is valid.
pub proof fn lemma_valid_path_front(s: Seq<Seq<usize>>, path: Seq<int>)
    requires
        valid_path(s, path),
        path.len() > 0,
    ensures
        valid_path(s, path.drop_last()),
        0 <= path.last() < s.len(),
{
    let front = path.drop_last();
    assert forall|k: int| 0 <= k < front.len() implies 0 <= #[trigger] front[k] < s.len() by {
        assert(front[k] == path[k]);
    }
    assert(0 <= path[path.len() - 1] < s.len());
}

/// A walk among `n` points stays among them.
pub proof fn lemma_walk_in_range(s: Seq<Seq<usize>>, n: nat, w: usize, path: Seq<int>)
    requires
        uniform(s, n),
        valid_path(s, path),
        w < n,
    ensures
        walk(s, w, path) < n,
    decreases path.len(),
{
    if path.len() > 0 {
        lemma_valid_path_front(s, path);
        lemma_walk_in_range(s, n, w, path.drop_last());
        assert(is_permutation(s[path.last()]));
    }
}

/// What a tree stores lies in every subgroup that holds the generators.
pub proof fn lemma_trace_good(
    s: Seq<Seq<usize>>,
    n: nat,
    path: Seq<int>,
    good: spec_fn(Seq<usize>) -> bool,
)
    requires
        is_subgroup(good, n),
        all_good(good, s),
        valid_path(s, path),
    ensures
        good(trace(s, identity(n), path)),
    decreases path.len(),
{
    if path.len() > 0 {
        lemma_valid_path_front(s, path);
        lemma_trace_good(s, n, path.drop_last(), good);
        assert(good(s[path.last()]));
        assert(good(compose(trace(s, identity(n), path.drop_last()), s[path.last()])));
    }
}

/// What a tree stores at the end of a path is a permutation that takes
/// each point where the root's permutation takes it and on along the path.
pub proof fn lemma_trace_maps(
    s: Seq<Seq<usize>>,
    n: nat,
    t: Seq<usize>,
    b: usize,
    path: Seq<int>,
)
    requires
        uniform(s, n),
        is_permutation(t),
        t.len() == n,
        valid_path(s, path),
        b < n,
    ensures
        is_permutation(trace(s, t, path)),
        trace(s, t, path).len() == n,
        trace(s, t, path)[b as int] == walk(s, t[b as int], path),
    decreases path.len(),
{
    if path.len() > 0 {
        let rest = path.drop_last();
        lemma_valid_path_front(s, path);
        lemma_trace_maps(s, n, t, b, rest);
        assert(is_permutation(s[path.last()]));
        lemma_compose_is_permutation(trace(s, t, rest), s[path.last()]);
    }
}

/// What a transversal stores lies in every subgroup that holds the
/// generators.
pub proof fn lemma_tree_good(
    n: nat,
    s: Seq<Seq<usize>>,
    w: usize,
    tree: Map<usize, Seq<usize>>,
    good: spec_fn(Seq<usize>) -> bool,
)
    requires
        is_subgroup(good, n),
        all_good(good, s),
        is_transversal(n, s, w, tree),
    ensures
        forall|k: usize| #[trigger] tree.contains_key(k) ==> good(tree[k]),
{
    assert forall|k: usize| #[trigger] tree.contains_key(k) implies good(tree[k]) by {
        lemma_generated_good(s, n, tree[k], good);
    }
}

/// An orbit holds, with each of its points, the point that a generator
/// sends there.
pub proof fn lemma_orbit_closed_backward(s: Seq<Seq<usize>>, n: nat, w: usize, i: int, u: usize)
    requires
        uniform(s, n),
        w < n,
        0 <= i < s.len(),
        orbit_of(s, w).contains(u),
    ensures
        orbit_of(s, w).contains(inverse(s[i])[u as int]),
        s[i][inverse(s[i])[u as int] as int] == u,
        u < n,
{
    let orbit = orbit_of(s, w);
    let step = |k: usize| image(s, i, k);
    let reached = orbit.map(step);
    broadcast use full_set_properties;

    lemma_set_subset_finite(Set::<usize>::full(), orbit);
    lemma_orbit_closed(s, w);
    assert(is_permutation(s[i]));
    assert forall|k: usize| orbit.contains(k) implies k < n by {
        let p = choose|path: Seq<int>| valid_path(s, path) && walk(s, w, path) == k;
        lemma_walk_in_range(s, n, w, p);
    }
    assert(injective_on(step, orbit)) by {
        assert forall|a: usize, b: usize|
            orbit.contains(a) && orbit.contains(b) && #[trigger] step(a) == #[trigger] step(
                b,
            ) implies a == b by {
            assert(a < n && b < n);
            if a != b {
                assert(s[i][a as int] != s[i][b as int]);
            }
        }
    }
    lemma_map_size(orbit, reached, step);
    assert(reached.subset_of(orbit)) by {
        assert forall|x: usize| reached.contains(x) implies orbit.contains(x) by {
            let k = choose|k: usize| orbit.contains(k) && x == step(k);
            assert(orbit.contains(image(s, i, k)));
        }
    }
    lemma_subset_equality(reached, orbit);
    assert(reached.contains(u));
    let k = choose|k: usize| orbit.contains(k) && u == step(k);
    lemma_inverse_properties(s[i]);
    assert(inverse(s[i])[s[i][k as int] as int] == k);
}

/// A transversal covers the generators of its orbit.
pub proof fn lemma_schreier_tree_covers(
    n: nat,
    s: Seq<Seq<usize>>,
    w: usize,
    tree: Map<usize, Seq<usize>>,
)
    requires
        uniform(s, n),
        is_transversal(n, s, w, tree),
    ensures
        tree_covers(s, tree),
{
    lemma_orbit_closed(s, w);
    assert forall|i: int| 0 <= i < s.len() implies is_permutation(#[trigger] s[i]) && tree_wf(
        tree,
        s[i].len(),
    ) && (forall|u: usize|
        tree.contains_key(u) ==> tree.contains_key(#[trigger] image(s, i, u))) by {
        assert forall|u: usize| tree.contains_key(u) implies tree.contains_key(
            #[trigger] image(s, i, u),
        ) by {
            assert(tree.dom().contains(u));
            assert(tree.dom().contains(image(s, i, u)));
        }
    }
}

/// The orbit of `w` under the generators is its orbit under the group they
/// generate: a point is reached by a path of generators exactly when some
/// member of the group sends `w` there.
pub proof fn lemma_orbit_of_group(s: Seq<Seq<usize>>, n: nat, w: usize, x: usize)
    requires
        uniform(s, n),
        w < n <= usize::MAX,
    ensures
        orbit_of(s, w).contains(x) <==> exists|g: Seq<usize>|
            generated(s, n, g) && #[trigger] g[w as int] == x,
{
    if orbit_of(s, w).contains(x) {
        let path = choose|path: Seq<int>| valid_path(s, path) && walk(s, w, path) == x;
        lemma_path_product(s, n, w, path);
        let g = product(s, n, path_word(path));
        assert(generated(s, n, g) && g[w as int] == x);
    }
    if exists|g: Seq<usize>| generated(s, n, g) && #[trigger] g[w as int] == x {
        let g = choose|g: Seq<usize>| generated(s, n, g) && #[trigger] g[w as int] == x;
        let word = choose|word: Seq<Letter>|
            valid_word(s, word) && g == #[trigger] product(s, n, word);
        lemma_product_stays_in_orbit(s, n, w, word);
    }
}

/// The product along a path sends the start of the path to its end.
pub proof fn lemma_path_product(s: Seq<Seq<usize>>, n: nat, w: usize, path: Seq<int>)
    requires
        uniform(s, n),
        w < n <= usize::MAX,
        valid_path(s, path),
    ensures
        valid_word(s, path_word(path)),
        product(s, n, path_word(path))[w as int] == walk(s, w, path),
    decreases path.len(),
{
    let word = path_word(path);
    if path.len() > 0 {
        lemma_valid_path_front(s, path);
        lemma_path_product(s, n, w, path.drop_last());
        assert(word.drop_last() =~= path_word(path.drop_last()));
        lemma_product_is_permutation(s, n, word.drop_last());
    }
}

/// Every member of the generated group sends `w` into the orbit of `w`.
pub proof fn lemma_product_stays_in_orbit(s: Seq<Seq<usize>>, n: nat, w: usize, word: Seq<Letter>)
    requires
        uniform(s, n),
        w < n <= usize::MAX,
        valid_word(s, word),
    ensures
        orbit_of(s, w).contains(product(s, n, word)[w as int]),
    decreases word.len(),
{
    lemma_orbit_closed(s, w);
    if word.len() > 0 {
        let l = word.last();
        lemma_valid_word_front(s, word);
        lemma_product_stays_in_orbit(s, n, w, word.drop_last());
        lemma_product_is_permutation(s, n, word.drop_last());
        let u = product(s, n, word.drop_last())[w as int];
        if l.inverted {
            lemma_orbit_closed_backward(s, n, w, l.index, u);
        } else {
            assert(orbit_of(s, w).contains(image(s, l.index, u)));
        }
    }
}

/// An entry grown from `v`, where `v` is one step of generator `j` from the
/// root `w`, was grown from `w`.
proof fn lemma_grown_step(
    s: Seq<Seq<usize>>,
    w: usize,
    t: Seq<usize>,
    j: int,
    k: usize,
    val: Seq<usize>,
)
    requires
        0 <= j < s.len(),
        grown(s, image(s, j, w), compose(t, s[j]), k, val),
    ensures
        grown(s, w, t, k, val),
{
    let v = image(s, j, w);
    let p = choose|path: Seq<int>| #[trigger]
        valid_path(s, path) && walk(s, v, path) == k && val == trace(s, compose(t, s[j]), path);
    let first = seq![j];
    assert(first.drop_last() =~= Seq::<int>::empty());
    assert(walk(s, w, first) == v) by {
        assert(walk(s, w, first.drop_last()) == w);
    }
    assert(trace(s, t, first) == compose(t, s[j])) by {
        assert(trace(s, t, first.drop_last()) == t);
    }
    lemma_walk_concat(s, w, first, p);
    lemma_trace_concat(s, t, first, p);
    assert(valid_path(s, first + p)) by {
        assert forall|i: int| 0 <= i < (first + p).len() implies 0 <= #[trigger] (first + p)[i]
            < s.len() by {
            if i > 0 {
                assert((first + p)[i] == p[i - 1]);
            }
        }
    }
}

/// A tree grown from the seed `{w: identity}` is a Schreier tree of `w`.
pub proof fn lemma_grown_from_seed(
    n: nat,
    s: Seq<Seq<usize>>,
    w: usize,
    before: Map<usize, Seq<usize>>,
    after: Map<usize, Seq<usize>>,
)
    requires
        w < n <= usize::MAX,
        uniform(s, n),
        is_seed(n, w, before),
        tree_wf(after, n),
        grown_from(s, w, before, after),
    ensures
        is_schreier_tree(n, s, w, after),
{
    let dom = after.dom();
    lemma_generated_is_subgroup(s, n);
    assert forall|k: usize| #[trigger] after.contains_key(k) implies w < after[k].len()
        && after[k][w as int] == k by {
        if k != w {
            assert(!before.dom().contains(k));
            assert(before[w][w as int] == w);
        }
    }
    let empty = Seq::<int>::empty();
    assert(before.contains_key(w));
    assert(valid_path(s, empty) && walk(s, w, empty) == w && after[w] == trace(
        s,
        identity(n),
        empty,
    ));
    assert forall|k: usize| #[trigger] after.contains_key(k) implies grown(
        s,
        w,
        identity(n),
        k,
        after[k],
    ) by {
        if k != w {
            assert(!before.dom().contains(k));
        }
    }
    assert forall|x: usize| dom.contains(x) implies reachable(s, w, x) && generated(
        s,
        n,
        after[x],
    ) by {
        assert(after.contains_key(x));
        let p = choose|path: Seq<int>| #[trigger]
            valid_path(s, path) && walk(s, w, path) == x && after[x] == trace(
                s,
                identity(n),
                path,
            );
        assert(valid_path(s, p) && walk(s, w, p) == x);
        lemma_trace_good(s, n, p, generated_by(s, n));
    }
    assert forall|k: usize, i: int| dom.contains(k) && 0 <= i < s.len() implies dom.contains(
        #[trigger] image(s, i, k),
    ) by {
        if k != w {
            assert(after.contains_key(k) && !before.dom().contains(k));
        }
    }
    assert forall|x: usize| reachable(s, w, x) implies dom.contains(x) by {
        let p = choose|path: Seq<int>| valid_path(s, path) && walk(s, w, path) == x;
        lemma_closed_holds_walk(s, w, dom, p);
    }
    assert(dom =~= orbit_of(s, w));
}

/// Grows the Schreier tree in `orbit` from the point `w`, which it already
/// holds.
///
/// For each generator `g` in turn: when `g.p[w]` is not yet a key, it is
/// added with the value `orbit[w].mul(g)`, which goes where `orbit[w]` goes
/// and from there on by `g`, and the tree is grown from it before the next
/// generator is tried. Entries that were there stay as they
/// were. Afterwards `w` and every added key have all their images in the
/// tree, so a tree started as `{w: identity}` ends with exactly the orbit of
/// `w` as its keys.
pub fn build_schreier_tree(w: usize, s: &Vec<Permutation>, orbit: &mut BTreeMap<usize, Permutation>)
    requires
        tree_view(old(orbit)@).contains_key(w),
        tree_wf(tree_view(old(orbit)@), tree_view(old(orbit)@)[w].len()),
        uniform(views(s@), tree_view(old(orbit)@)[w].len()),
    ensures
        tree_wf(tree_view(final(orbit)@), tree_view(old(orbit)@)[w].len()),
        grown_from(views(s@), w, tree_view(old(orbit)@), tree_view(final(orbit)@)),
        is_seed(tree_view(old(orbit)@)[w].len(), w, tree_view(old(orbit)@)) ==> is_schreier_tree(
            tree_view(old(orbit)@)[w].len(),
            views(s@),
            w,
            tree_view(final(orbit)@),
        ) && tree_covers(views(s@), tree_view(final(orbit)@)),
    decreases missing(tree_view(old(orbit)@).dom(), tree_view(old(orbit)@)[w].len()),
{
    let ghost gens = views(s@);
    let ghost start = tree_view(orbit@);
    let ghost n = start[w].len();
    let ghost root = start[w];
    let mut j: usize = 0;
    while j < s.len()
        invariant
            j <= s@.len(),
            gens == views(s@),
            start == tree_view(old(orbit)@),
            n == start[w].len(),
            root == start[w],
            w < n <= usize::MAX,
            uniform(gens, n),
            tree_wf(tree_view(orbit@), n),
            start.contains_key(w),
            forall|k: usize| #[trigger]
                start.contains_key(k) ==> tree_view(orbit@).contains_key(k) && tree_view(orbit@)[k]
                    == start[k],
            forall|k: usize| #[trigger]
                tree_view(orbit@).contains_key(k) && !start.contains_key(k) ==> grown(
                    gens,
                    w,
                    root,
                    k,
                    tree_view(orbit@)[k],
                ),
            forall|k: usize, i: int|
                tree_view(orbit@).contains_key(k) && !start.contains_key(k) && 0 <= i < gens.len()
                    ==> tree_view(orbit@).contains_key(#[trigger] image(gens, i, k)),
            forall|i: int|
                0 <= i < j ==> tree_view(orbit@).contains_key(#[trigger] image(gens, i, w)),
        decreases s@.len() - j,
    {
        let g = &s[j];
        assert(g@ == gens[j as int]);
        assert(is_permutation(gens[j as int]));
        let v = g.p[w];
        assert(v == image(gens, j as int, w));
        if !orbit.contains_key(&v) {
            let ghost before = tree_view(orbit@);
            let t = orbit.get(&w).unwrap().mul(g);
            proof {
                lemma_compose_is_permutation(root, g@);
                lemma_missing_insert(before.dom(), n, v);
                lemma_missing_subset(start.dom(), before.dom(), n);
                assert(tree_view(orbit@.insert(v, t)) =~= before.insert(v, t@));
            }
            orbit.insert(v, t);
            let ghost mid = tree_view(orbit@);
            build_schreier_tree(v, s, orbit);
            proof {
                let now = tree_view(orbit@);
                assert forall|i: int| 0 <= i < j + 1 implies now.contains_key(
                    #[trigger] image(gens, i, w),
                ) by {
                    if i < j {
                        assert(before.contains_key(image(gens, i, w)));
                    }
                    assert(mid.contains_key(image(gens, i, w)));
                }
                assert forall|k: usize| #[trigger] start.contains_key(k) implies now.contains_key(
                    k,
                ) && now[k] == start[k] by {
                    assert(before.contains_key(k));
                    assert(mid.contains_key(k));
                }
                assert forall|k: usize, i: int|
                    now.contains_key(k) && !start.contains_key(k) && 0 <= i
                        < gens.len() implies now.contains_key(#[trigger] image(gens, i, k)) by {
                    if before.contains_key(k) {
                        assert(before.contains_key(image(gens, i, k)));
                        assert(mid.contains_key(image(gens, i, k)));
                    }
                }
                assert forall|k: usize| #[trigger]
                    now.contains_key(k) && !start.contains_key(k) implies grown(
                    gens,
                    w,
                    root,
                    k,
                    now[k],
                ) by {
                    if mid.contains_key(k) {
                        if k == v {
                            let empty = Seq::<int>::empty();
                            assert(valid_path(gens, empty) && walk(gens, v, empty) == v && trace(
                                gens,
                                compose(root, gens[j as int]),
                                empty,
                            ) == mid[v]);
                            assert(grown(gens, v, compose(root, gens[j as int]), k, now[k]));
                        } else {
                            assert(before.contains_key(k));
                        }
                    }
                    if !before.contains_key(k) {
                        lemma_grown_step(gens, w, root, j as int, k, now[k]);
                    }
                }
            }
        }
        j += 1;
    }
    proof {
        let now = tree_view(orbit@);
        assert forall|b: usize, k: usize|
            b < root.len() && root[b as int] == w && now.contains_key(k) && !start.contains_key(
                k,
            ) implies #[trigger] now[k][b as int] == k by {
            let path = choose|path: Seq<int>| #[trigger]
                valid_path(gens, path) && walk(gens, w, path) == k && now[k] == trace(
                    gens,
                    root,
                    path,
                );
            lemma_trace_maps(gens, n, root, b, path);
        }
        if is_seed(n, w, start) {
            lemma_grown_from_seed(n, gens, w, start, tree_view(orbit@));
            lemma_schreier_tree_covers(n, gens, w, tree_view(orbit@));
        }
    }
}

} // verus!
