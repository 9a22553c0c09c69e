//! The stabilizer chain: one Schreier tree per base point `0, 1, 2, ..`,
//! each built from the generators that the level before left over.

use crate::generators::{
    lemma_schreier_generators_fix_base, lemma_schreier_generators_good,
    lemma_schreier_generators_uniform, make_gen, schreier_generators,
};
use crate::group::{
    all_fix_below, all_good, fixes_below, fixing_below, generated, generated_by, group, is_subgroup,
    lemma_fixing_is_subgroup, lemma_generated_is_subgroup, lemma_generated_member,
    lemma_good_uniform,
};
use crate::orbit::{
    build_schreier_tree, is_schreier_tree, is_seed, lemma_schreier_tree_covers, lemma_tree_good,
    lemma_tree_values_entries, lemma_tree_values_from, lemma_tree_values_len, lemma_walk_above,
    orbit_of, tree_values, tree_view, valid_path, walk,
};
use crate::order::{
    lemma_chain_order, lemma_schreier_generators_generate_stabilizer, levels_product,
};
use crate::perm::{identity, is_permutation, uniform, views, Permutation};
use crate::sieve::{
    is_identity, lemma_first_moved_at_least, lemma_sieve, lemma_sieve_good, lemma_sieve_same_group,
    normalize, separated, sieve,
};
use std::collections::BTreeMap;
use vstd::prelude::*;

verus! {

/// The generators that a level hands to the next: its Schreier generators,
/// filtered.
pub open spec fn next_generators(
    gens: Seq<Seq<usize>>,
    tree: Map<usize, Seq<usize>>,
) -> Seq<Seq<usize>> {
    sieve(schreier_generators(gens, tree))
}

/// One level of a chain: from the generators `gens`, which are not
/// exhausted, `tree` is a Schreier tree of the base point `w`, `level` lists
/// what the tree holds in ascending order of the point, and `next` is what
/// is handed on.
pub open spec fn is_level(
    n: nat,
    w: int,
    gens: Seq<Seq<usize>>,
    tree: Map<usize, Seq<usize>>,
    level: Seq<Seq<usize>>,
    next: Seq<Seq<usize>>,
) -> bool {
    &&& gens.len() > 0
    &&& uniform(gens, n)
    &&& 0 <= w < n
    &&& is_schreier_tree(n, gens, w as usize, tree)
    &&& level == tree_values(tree, n)
    &&& next == next_generators(gens, tree)
}

/// `chain` is the stabilizer chain that the generator lists `sets` and the
/// Schreier trees `trees` give: level `w` has base point `w`, is built from
/// `sets[w]` and hands on `sets[w + 1]`.
pub open spec fn is_chain(
    n: nat,
    chain: Seq<Seq<Seq<usize>>>,
    sets: Seq<Seq<Seq<usize>>>,
    trees: Seq<Map<usize, Seq<usize>>>,
) -> bool {
    &&& sets.len() == chain.len() + 1
    &&& trees.len() == chain.len()
    &&& forall|w: int|
        0 <= w < chain.len() ==> #[trigger] is_level(
            n,
            w,
            sets[w],
            trees[w],
            chain[w],
            sets[w + 1],
        )
}

/// `chain` is what a run from the generators `start` leaves: a chain whose
/// first level is built from `start`, and whose last level hands on
/// nothing.
pub open spec fn is_run(
    n: nat,
    start: Seq<Seq<usize>>,
    chain: Seq<Seq<Seq<usize>>>,
    sets: Seq<Seq<Seq<usize>>>,
    trees: Seq<Map<usize, Seq<usize>>>,
) -> bool {
    &&& is_chain(n, chain, sets, trees)
    &&& sets[0] == start
    &&& sets.last().len() == 0
}

/// The generators of level `i` generate exactly the members of the group of
/// `start` that fix every point below `i`.
pub open spec fn is_stabilizer_chain(
    n: nat,
    start: Seq<Seq<usize>>,
    sets: Seq<Seq<Seq<usize>>>,
) -> bool {
    forall|i: int, g: Seq<usize>|
        0 <= i < sets.len() ==> (#[trigger] generated(sets[i], n, g) <==> generated(start, n, g)
            && fixes_below(g, i as nat))
}

/// Some member of `level` sends the point `w` to `x`.
pub open spec fn reaches(level: Seq<Seq<usize>>, w: int, x: usize) -> bool {
    exists|k: int| 0 <= k < level.len() && (#[trigger] level[k])[w] == x
}

/// The points where the members of `level` send `w` are exactly the orbit
/// of `w` under `gens`, one member for each point of the orbit.
pub open spec fn lists_orbit(gens: Seq<Seq<usize>>, w: int, level: Seq<Seq<usize>>) -> bool {
    &&& forall|x: usize|
        orbit_of(gens, w as usize).contains(x) <==> #[trigger] reaches(level, w, x)
    &&& orbit_of(gens, w as usize).finite()
    &&& orbit_of(gens, w as usize).len() == level.len()
}

/// The shape of level `i` of a chain on `n` points from the generators
/// `start`: it has at least one and at most `n - i` members, the first of
/// them the identity; each is a permutation of the `n` points in the group
/// of `start` that fixes every point below `i`; and the points where they
/// send `i` ascend along the level.
pub open spec fn level_shape(
    n: nat,
    i: int,
    start: Seq<Seq<usize>>,
    level: Seq<Seq<usize>>,
) -> bool {
    &&& 1 <= level.len() <= n - i
    &&& level[0] == identity(n)
    &&& forall|k: int|
        0 <= k < level.len() ==> {
            &&& is_permutation(#[trigger] level[k])
            &&& level[k].len() == n
            &&& fixes_below(level[k], i as nat)
            &&& generated(start, n, level[k])
        }
    &&& forall|a: int, b: int|
        0 <= a < b < level.len() ==> (#[trigger] level[a])[i] < (#[trigger] level[b])[i]
}

/// The image arrays of a chain, level by level.
pub open spec fn chain_view(chain: Seq<Vec<Permutation>>) -> Seq<Seq<Seq<usize>>> {
    Seq::new(chain.len(), |i: int| views(chain[i]@))
}

/// What a level hands on lies in every subgroup that holds its generators.
pub proof fn lemma_level_good(
    n: nat,
    w: int,
    gens: Seq<Seq<usize>>,
    tree: Map<usize, Seq<usize>>,
    level: Seq<Seq<usize>>,
    next: Seq<Seq<usize>>,
    good: spec_fn(Seq<usize>) -> bool,
)
    requires
        is_level(n, w, gens, tree, level, next),
        is_subgroup(good, n),
        all_good(good, gens),
    ensures
        all_good(good, schreier_generators(gens, tree)),
        all_good(good, next),
{
    lemma_schreier_tree_covers(n, gens, w as usize, tree);
    lemma_tree_good(n, gens, w as usize, tree, good);
    lemma_schreier_generators_good(gens, tree, n, good);
    lemma_sieve_good(schreier_generators(gens, tree), n, good);
}

/// A level whose generators fix the points below its base point hands on
/// permutations, none the identity and no two with the same leading move,
/// that fix every point up to and including the base point.
pub proof fn lemma_level_stabilizes(
    n: nat,
    w: int,
    gens: Seq<Seq<usize>>,
    tree: Map<usize, Seq<usize>>,
    level: Seq<Seq<usize>>,
    next: Seq<Seq<usize>>,
)
    requires
        n <= usize::MAX,
        is_level(n, w, gens, tree, level, next),
        all_fix_below(gens, w as nat),
    ensures
        uniform(next, n),
        separated(next),
        all_fix_below(next, (w + 1) as nat),
{
    let below = fixing_below(n, w as nat);
    let upto = fixing_below(n, (w + 1) as nat);
    let candidates = schreier_generators(gens, tree);
    lemma_fixing_is_subgroup(n, w as nat);
    lemma_fixing_is_subgroup(n, (w + 1) as nat);
    assert(all_good(below, gens)) by {
        assert forall|i: int| 0 <= i < gens.len() implies below(#[trigger] gens[i]) by {
            assert(is_permutation(gens[i]) && fixes_below(gens[i], w as nat));
        }
    }
    lemma_level_good(n, w, gens, tree, level, next, below);
    lemma_schreier_tree_covers(n, gens, w as usize, tree);
    lemma_schreier_generators_fix_base(gens, tree, w as usize);
    assert(all_good(upto, candidates)) by {
        assert forall|i: int| 0 <= i < candidates.len() implies upto(#[trigger] candidates[i]) by {
            assert(below(candidates[i]));
            assert(candidates[i][w] == w);
        }
    }
    lemma_sieve_good(candidates, n, upto);
    lemma_good_uniform(upto, n, next);
    lemma_good_uniform(upto, n, candidates);
    lemma_sieve(candidates, n);
    assert forall|i: int| 0 <= i < next.len() implies fixes_below(
        #[trigger] next[i],
        (w + 1) as nat,
    ) by {
        assert(upto(next[i]));
    }
}

/// In a chain, the generators of level `w` fix every point below `w`, and
/// from the second level on none of them is the identity.
pub proof fn lemma_chain_stabilizes(
    n: nat,
    chain: Seq<Seq<Seq<usize>>>,
    sets: Seq<Seq<Seq<usize>>>,
    trees: Seq<Map<usize, Seq<usize>>>,
    w: int,
)
    requires
        n <= usize::MAX,
        is_chain(n, chain, sets, trees),
        uniform(sets[0], n),
        0 <= w <= chain.len(),
    ensures
        uniform(sets[w], n),
        all_fix_below(sets[w], w as nat),
        w > 0 ==> separated(sets[w]),
    decreases w,
{
    if w > 0 {
        lemma_chain_stabilizes(n, chain, sets, trees, w - 1);
        assert(is_level(n, w - 1, sets[w - 1], trees[w - 1], chain[w - 1], sets[w - 1 + 1]));
        lemma_level_stabilizes(n, w - 1, sets[w - 1], trees[w - 1], chain[w - 1], sets[w]);
    }
}

/// Permutations of `n` points that fix all of them, none the identity, are
/// none at all.
pub proof fn lemma_nothing_left(n: nat, s: Seq<Seq<usize>>)
    requires
        uniform(s, n),
        separated(s),
        all_fix_below(s, n),
    ensures
        s.len() == 0,
{
    if s.len() > 0 {
        assert(fixes_below(s[0], n));
        assert(s[0].len() == n);
        lemma_first_moved_at_least(s[0], n);
        assert(is_identity(s[0]));
    }
}

/// A chain with a level for each of the `n` points hands on nothing after
/// the last of them.
pub proof fn lemma_chain_exhausts(
    n: nat,
    chain: Seq<Seq<Seq<usize>>>,
    sets: Seq<Seq<Seq<usize>>>,
    trees: Seq<Map<usize, Seq<usize>>>,
)
    requires
        0 < n <= usize::MAX,
        is_chain(n, chain, sets, trees),
        chain.len() == n,
    ensures
        sets.last().len() == 0,
{
    assert(is_level(n, 0, sets[0], trees[0], chain[0], sets[0int + 1]));
    lemma_chain_stabilizes(n, chain, sets, trees, n as int);
    lemma_nothing_left(n, sets[n as int]);
}

/// In a chain, the generators of level `w` generate exactly the members of
/// the first level's group that fix every point below `w`.
pub proof fn lemma_chain_stabilizer(
    n: nat,
    chain: Seq<Seq<Seq<usize>>>,
    sets: Seq<Seq<Seq<usize>>>,
    trees: Seq<Map<usize, Seq<usize>>>,
    w: int,
    g: Seq<usize>,
)
    requires
        n <= usize::MAX,
        is_chain(n, chain, sets, trees),
        0 <= w <= chain.len(),
    ensures
        generated(sets[w], n, g) <==> generated(sets[0], n, g) && fixes_below(g, w as nat),
    decreases w,
{
    if w > 0 {
        let v = w - 1;
        let candidates = schreier_generators(sets[v], trees[v]);
        lemma_chain_stabilizer(n, chain, sets, trees, v, g);
        assert(is_level(n, v, sets[v], trees[v], chain[v], sets[v + 1]));
        lemma_schreier_tree_covers(n, sets[v], v as usize, trees[v]);
        lemma_schreier_generators_uniform(sets[v], trees[v], n);
        lemma_sieve_same_group(candidates, n);
        assert(group(sets[w], n).contains(g) == group(candidates, n).contains(g));
        lemma_schreier_generators_generate_stabilizer(n, sets[v], v as usize, trees[v], g);
        if fixes_below(g, v as nat) && g[v] == v {
            assert forall|i: int| 0 <= i < w implies #[trigger] g[i] == i by {}
        }
        if fixes_below(g, w as nat) {
            assert(g[v] == v);
        }
    }
}

/// The shape of a level whose generators fix the points below its base
/// point and lie in the group of `start`.
pub proof fn lemma_level_shape(
    n: nat,
    w: int,
    gens: Seq<Seq<usize>>,
    tree: Map<usize, Seq<usize>>,
    level: Seq<Seq<usize>>,
    next: Seq<Seq<usize>>,
    start: Seq<Seq<usize>>,
)
    requires
        n <= usize::MAX,
        is_level(n, w, gens, tree, level, next),
        all_fix_below(gens, w as nat),
        uniform(start, n),
        all_good(generated_by(start, n), gens),
    ensures
        level_shape(n, w, start, level),
        lists_orbit(gens, w, level),
{
    let base = w as usize;
    let below = fixing_below(n, w as nat);
    let in_group = generated_by(start, n);
    lemma_fixing_is_subgroup(n, w as nat);
    lemma_generated_is_subgroup(start, n);
    assert(all_good(below, gens)) by {
        assert forall|i: int| 0 <= i < gens.len() implies below(#[trigger] gens[i]) by {
            assert(is_permutation(gens[i]) && fixes_below(gens[i], w as nat));
        }
    }
    lemma_tree_good(n, gens, base, tree, below);
    lemma_tree_good(n, gens, base, tree, in_group);
    assert forall|u: usize| #[trigger] tree.contains_key(u) implies u >= base by {
        assert(orbit_of(gens, base).contains(u));
        let path = choose|path: Seq<int>| valid_path(gens, path) && walk(gens, base, path) == u;
        lemma_walk_above(gens, n, base, w as nat, path);
    }
    lemma_tree_values_from(tree, base, n);
    lemma_tree_values_entries(tree, base, n);
    lemma_tree_values_len(n, gens, base, tree);
    assert forall|k: int| 0 <= k < level.len() implies is_permutation(#[trigger] level[k])
        && level[k].len() == n && fixes_below(level[k], w as nat) && generated(
        start,
        n,
        level[k],
    ) by {
        let u = level[k][w];
        assert(tree.contains_key(u) && level[k] == tree[u]);
        assert(below(tree[u]) && in_group(tree[u]));
    }
    assert forall|x: usize| orbit_of(gens, base).contains(x) <==> #[trigger] reaches(
        level,
        w,
        x,
    ) by {
        if orbit_of(gens, base).contains(x) {
            assert(tree.contains_key(x));
            let j = choose|j: int| 0 <= j < level.len() && #[trigger] level[j] == tree[x];
            assert(level[j][w] == x);
        }
        if reaches(level, w, x) {
            let k = choose|k: int| 0 <= k < level.len() && (#[trigger] level[k])[w] == x;
            assert(tree.contains_key(level[k][w]));
            assert(tree.dom().contains(x));
        }
    }
}

/// The shape of each level of a chain.
pub proof fn lemma_chain_shape(
    n: nat,
    chain: Seq<Seq<Seq<usize>>>,
    sets: Seq<Seq<Seq<usize>>>,
    trees: Seq<Map<usize, Seq<usize>>>,
    i: int,
)
    requires
        n <= usize::MAX,
        is_chain(n, chain, sets, trees),
        0 <= i < chain.len(),
    ensures
        level_shape(n, i, sets[0], chain[i]),
        lists_orbit(sets[i], i, chain[i]),
{
    assert(is_level(n, 0, sets[0], trees[0], chain[0], sets[0int + 1]));
    assert(is_level(n, i, sets[i], trees[i], chain[i], sets[i + 1]));
    lemma_chain_stabilizes(n, chain, sets, trees, i);
    assert forall|k: int| 0 <= k < sets[i].len() implies generated_by(sets[0], n)(
        #[trigger] sets[i][k],
    ) by {
        lemma_generated_member(sets[i], n, k);
        lemma_chain_stabilizer(n, chain, sets, trees, i, sets[i][k]);
    }
    lemma_level_shape(n, i, sets[i], trees[i], chain[i], sets[i + 1], sets[0]);
}

/// What `orbit` holds, in ascending order of the point.
fn level_of(orbit: &BTreeMap<usize, Permutation>, n: usize) -> (level: Vec<Permutation>)
    ensures
        views(level@) == tree_values(tree_view(orbit@), n as nat),
{
    let mut level: Vec<Permutation> = Vec::new();
    let mut u: usize = 0;
    assert(views(level@) =~= tree_values(tree_view(orbit@), 0));
    while u < n
        invariant
            u <= n,
            views(level@) == tree_values(tree_view(orbit@), u as nat),
        decreases n - u,
    {
        let ghost before = views(level@);
        match orbit.get(&u) {
            Some(t) => {
                level.push(t.clone());
                assert(views(level@) =~= before.push(tree_view(orbit@)[u]));
            },
            None => {},
        }
        u += 1;
    }
    level
}

/// Computes the stabilizer chain of the group that `s` generates on `n`
/// points.
///
/// Level `w` takes the base point `w`: it grows the Schreier tree of `w`
/// from `{w: identity}` under the current generators, records what the tree
/// holds in ascending order of the point, and hands the filtered Schreier
/// generators to level `w + 1`. The chain ends at the first level that is
/// handed no generators, which comes after at most `n` levels.
///
/// The generators of level `w` generate the stabilizer of the points below
/// `w`, so the sizes of the levels multiply to the order of the group.
pub fn schreier_sims(n: usize, s: Vec<Permutation>) -> (chain: Vec<Vec<Permutation>>)
    requires
        uniform(views(s@), n as nat),
        n > 0 || s@.len() == 0,
    ensures
        chain@.len() <= n,
        chain@.len() == 0 <==> s@.len() == 0,
        exists|sets: Seq<Seq<Seq<usize>>>, trees: Seq<Map<usize, Seq<usize>>>| #[trigger]
            is_run(n as nat, views(s@), chain_view(chain@), sets, trees) && is_stabilizer_chain(
                n as nat,
                views(s@),
                sets,
            ) && forall|i: int|
                0 <= i < chain@.len() ==> #[trigger] lists_orbit(sets[i], i, chain_view(chain@)[i]),
        forall|i: int|
            0 <= i < chain@.len() ==> #[trigger] level_shape(
                n as nat,
                i,
                views(s@),
                chain_view(chain@)[i],
            ),
        group(views(s@), n as nat).finite(),
        group(views(s@), n as nat).len() == levels_product(chain_view(chain@), 0),
{
    let ghost start = views(s@);
    let ghost mut sets: Seq<Seq<Seq<usize>>> = seq![start];
    let ghost mut trees: Seq<Map<usize, Seq<usize>>> = Seq::empty();
    let mut chain: Vec<Vec<Permutation>> = Vec::new();
    let mut cur = s;
    let mut w: usize = 0;
    while cur.len() > 0
        invariant
            w == chain@.len(),
            w <= n,
            n > 0 || start.len() == 0,
            w == 0 ==> views(cur@) == start,
            w > 0 ==> start.len() > 0 && separated(views(cur@)),
            uniform(views(cur@), n as nat),
            all_fix_below(views(cur@), w as nat),
            is_chain(n as nat, chain_view(chain@), sets, trees),
            sets[0] == start,
            sets.last() == views(cur@),
        decreases n - w,
    {
        let ghost gens = views(cur@);
        proof {
            assert(gens.len() == cur@.len());
            if w == n {
                lemma_nothing_left(n as nat, gens);
            }
        }
        let mut orbit: BTreeMap<usize, Permutation> = BTreeMap::new();
        orbit.insert(w, Permutation::identity(n));
        assert(is_seed(n as nat, w, tree_view(orbit@)));
        build_schreier_tree(w, &cur, &mut orbit);
        let ghost tree = tree_view(orbit@);
        let level = level_of(&orbit, n);
        let candidates = make_gen(cur, &orbit);
        cur = normalize(n, candidates);
        let ghost before_chain = chain_view(chain@);
        let ghost before_sets = sets;
        let ghost before_trees = trees;
        let ghost level_view = views(level@);
        chain.push(level);
        proof {
            sets = sets.push(views(cur@));
            trees = trees.push(tree);
            assert(chain_view(chain@) =~= before_chain.push(level_view));
            assert(is_level(n as nat, w as int, gens, tree, level_view, views(cur@)));
            lemma_level_stabilizes(n as nat, w as int, gens, tree, level_view, views(cur@));
            assert forall|i: int| 0 <= i < w + 1 implies #[trigger] is_level(
                n as nat,
                i,
                sets[i],
                trees[i],
                chain_view(chain@)[i],
                sets[i + 1],
            ) by {
                if i < w {
                    assert(is_level(
                        n as nat,
                        i,
                        before_sets[i],
                        before_trees[i],
                        before_chain[i],
                        before_sets[i + 1],
                    ));
                }
            }
        }
        w += 1;
    }
    proof {
        let done = chain_view(chain@);
        assert(views(cur@).len() == cur@.len());
        assert(start.len() == s@.len());
        assert(is_run(n as nat, start, done, sets, trees));
        lemma_chain_order(n as nat, done, sets, trees);
        assert forall|i: int| 0 <= i < done.len() implies #[trigger] level_shape(
            n as nat,
            i,
            start,
            done[i],
        ) by {
            lemma_chain_shape(n as nat, done, sets, trees, i);
        }
        assert forall|i: int| 0 <= i < done.len() implies #[trigger] lists_orbit(
            sets[i],
            i,
            done[i],
        ) by {
            lemma_chain_shape(n as nat, done, sets, trees, i);
        }
        assert forall|i: int, g: Seq<usize>| 0 <= i < sets.len() implies (#[trigger] generated(
            sets[i],
            n as nat,
            g,
        ) <==> generated(start, n as nat, g) && fixes_below(g, i as nat)) by {
            lemma_chain_stabilizer(n as nat, done, sets, trees, i, g);
        }
        assert(is_stabilizer_chain(n as nat, start, sets));
        assert(is_run(n as nat, start, done, sets, trees) && is_stabilizer_chain(
            n as nat,
            start,
            sets,
        ) && forall|i: int| 0 <= i < done.len() ==> #[trigger] lists_orbit(sets[i], i, done[i]));
    }
    chain
}

} // verus!
