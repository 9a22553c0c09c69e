//! The order of the generated group, read off a stabilizer chain.
//!
//! The argument is Schreier's: the Schreier generators of a level generate
//! the whole stabilizer of its base point, and the group of the level is as
//! large as the orbit times that stabilizer.

use crate::chain::{is_chain, is_level, lemma_level_good};
use crate::generators::{
    is_schreier_generator, lemma_schreier_generators, lemma_schreier_generators_fix_base,
    lemma_schreier_generators_good, lemma_schreier_generators_uniform, schreier_generator,
    schreier_generators,
};
use crate::group::{
    all_good, fixing_point, generated, generated_by, group, lemma_fixing_point_is_subgroup,
    lemma_generated_compose, lemma_generated_good, lemma_generated_identity,
    lemma_generated_inverse, lemma_generated_is_permutation, lemma_generated_is_subgroup,
    lemma_generated_member, lemma_good_uniform, lemma_group_of_nothing,
    lemma_product_is_permutation, lemma_valid_word_front, letter_value, product, valid_word, Letter,
};
use crate::orbit::{
    image, is_transversal, lemma_orbit_closed_backward, lemma_path_product,
    lemma_product_stays_in_orbit, lemma_schreier_tree_covers, lemma_tree_good,
    lemma_tree_values_len, orbit_of, path_word, tree_values, valid_path, walk,
};
use crate::perm::{
    compose, identity, inverse, is_permutation, lemma_compose_associative, lemma_compose_identity,
    lemma_compose_inverse, lemma_compose_is_permutation, lemma_inverse_compose,
    lemma_inverse_involution, lemma_inverse_of_compose, lemma_inverse_properties, uniform,
};
use crate::sieve::lemma_sieve_same_group;
use vstd::prelude::*;
use vstd::relations::injective_on;
use vstd::set_lib::{lemma_map_size, lemma_set_disjoint_lens};

verus! {

/// `g` is a product of Schreier generators followed by what the tree holds
/// at `u`.
pub open spec fn splits_at(
    n: nat,
    gens: Seq<Seq<usize>>,
    tree: Map<usize, Seq<usize>>,
    g: Seq<usize>,
    u: usize,
) -> bool {
    tree.contains_key(u) && exists|h: Seq<usize>|
        generated(schreier_generators(gens, tree), n, h) && g == #[trigger] compose(h, tree[u])
}

/// The members of the group of `gens` that send the base point `w` to a
/// point below `k`.
pub open spec fn sending_below(gens: Seq<Seq<usize>>, n: nat, w: usize, k: nat) -> Set<Seq<usize>> {
    Set::new(|g: Seq<usize>| generated(gens, n, g) && g[w as int] < k)
}

/// The product of the sizes of the levels from level `from` on.
pub open spec fn levels_product(chain: Seq<Seq<Seq<usize>>>, from: int) -> nat
    decreases chain.len() - from,
{
    if 0 <= from < chain.len() {
        chain[from].len() * levels_product(chain, from + 1)
    } else {
        1
    }
}

/// `result` generates exactly the members of the group of `gens` that fix
/// the point `w`.
pub open spec fn generates_stabilizer(
    n: nat,
    gens: Seq<Seq<usize>>,
    w: usize,
    result: Seq<Seq<usize>>,
) -> bool {
    forall|g: Seq<usize>|
        #[trigger] generated(result, n, g) <==> generated(gens, n, g) && g[w as int] == w
}

/// The list of Schreier generators generates each Schreier generator.
proof fn lemma_schreier_generator_generated(
    n: nat,
    gens: Seq<Seq<usize>>,
    w: usize,
    tree: Map<usize, Seq<usize>>,
    i: int,
    u: usize,
)
    requires
        uniform(gens, n),
        n <= usize::MAX,
        is_transversal(n, gens, w, tree),
        0 <= i < gens.len(),
        tree.contains_key(u),
    ensures
        uniform(schreier_generators(gens, tree), n),
        generated(schreier_generators(gens, tree), n, schreier_generator(gens[i], tree, u)),
        generated(
            schreier_generators(gens, tree),
            n,
            inverse(schreier_generator(gens[i], tree, u)),
        ),
        is_permutation(schreier_generator(gens[i], tree, u)),
        schreier_generator(gens[i], tree, u).len() == n,
{
    let cands = schreier_generators(gens, tree);
    let sg = schreier_generator(gens[i], tree, u);
    lemma_schreier_tree_covers(n, gens, w, tree);
    lemma_schreier_generators(gens, tree);
    lemma_schreier_generators_uniform(gens, tree, n);
    assert(cands.contains(sg)) by {
        assert(is_schreier_generator(gens, tree, sg));
    }
    let at = choose|at: int| 0 <= at < cands.len() && cands[at] == sg;
    lemma_generated_member(cands, n, at);
    assert(is_permutation(cands[at]));
}

/// One more letter after a permutation that splits over the tree: the
/// result splits at the image of the old point.
proof fn lemma_split_step(
    n: nat,
    gens: Seq<Seq<usize>>,
    w: usize,
    tree: Map<usize, Seq<usize>>,
    l: Letter,
    u: usize,
    h: Seq<usize>,
)
    requires
        uniform(gens, n),
        w < n <= usize::MAX,
        is_transversal(n, gens, w, tree),
        0 <= l.index < gens.len(),
        tree.contains_key(u),
        generated(schreier_generators(gens, tree), n, h),
    ensures
        splits_at(
            n,
            gens,
            tree,
            compose(compose(h, tree[u]), letter_value(gens, l)),
            letter_value(gens, l)[u as int],
        ),
{
    let cands = schreier_generators(gens, tree);
    let i = l.index;
    let e = gens[i];
    let tu = tree[u];
    lemma_schreier_tree_covers(n, gens, w, tree);
    assert(is_permutation(e) && is_permutation(tu));
    assert(tree.dom().contains(u));
    lemma_schreier_generators_uniform(gens, tree, n);
    lemma_generated_is_permutation(cands, n, h);
    if !l.inverted {
        let v = e[u as int];
        assert(v == image(gens, i, u));
        assert(tree.contains_key(v));
        let tv = tree[v];
        let y = compose(tu, e);
        let sg = schreier_generator(e, tree, u);
        lemma_schreier_generator_generated(n, gens, w, tree, i, u);
        lemma_generated_compose(cands, n, h, sg);
        lemma_inverse_properties(tv);
        lemma_compose_is_permutation(tu, e);
        // sg . tv == tu . e
        lemma_compose_associative(y, inverse(tv), tv);
        lemma_inverse_compose(tv);
        lemma_compose_identity(y);
        assert(compose(sg, tv) == y);
        lemma_compose_associative(h, sg, tv);
        lemma_compose_associative(h, tu, e);
        assert(generated(cands, n, compose(h, sg)) && compose(compose(h, tu), e) == compose(
            compose(h, sg),
            tree[v],
        ));
    } else {
        lemma_orbit_closed_backward(gens, n, w, i, u);
        let back = inverse(e);
        let v = back[u as int];
        assert(tree.dom().contains(v));
        assert(tree.contains_key(v));
        let tv = tree[v];
        let m = compose(tv, e);
        let sg = schreier_generator(e, tree, v);
        assert(sg == compose(m, inverse(tu)));
        let isg = inverse(sg);
        lemma_schreier_generator_generated(n, gens, w, tree, i, v);
        lemma_generated_compose(cands, n, h, isg);
        lemma_inverse_properties(e);
        lemma_inverse_properties(tu);
        lemma_inverse_properties(tv);
        lemma_compose_is_permutation(tv, e);
        lemma_inverse_properties(m);
        // inverse(sg) == tu . (back . inverse(tv))
        lemma_inverse_of_compose(m, inverse(tu));
        lemma_inverse_involution(tu);
        lemma_inverse_of_compose(tv, e);
        assert(isg == compose(tu, compose(back, inverse(tv))));
        // inverse(sg) . tv == tu . back
        lemma_compose_is_permutation(back, inverse(tv));
        lemma_compose_associative(tu, compose(back, inverse(tv)), tv);
        lemma_compose_associative(back, inverse(tv), tv);
        lemma_inverse_compose(tv);
        lemma_compose_identity(back);
        assert(compose(isg, tv) == compose(tu, back));
        lemma_compose_associative(h, isg, tv);
        lemma_compose_associative(h, tu, back);
        assert(generated(cands, n, compose(h, isg)) && compose(compose(h, tu), back) == compose(
            compose(h, isg),
            tree[v],
        ));
    }
}

/// Every product of the generators of a level splits over its tree at the
/// point where it sends the base point.
pub proof fn lemma_product_splits(
    n: nat,
    gens: Seq<Seq<usize>>,
    w: usize,
    tree: Map<usize, Seq<usize>>,
    word: Seq<Letter>,
)
    requires
        uniform(gens, n),
        w < n <= usize::MAX,
        is_transversal(n, gens, w, tree),
        valid_word(gens, word),
    ensures
        splits_at(n, gens, tree, product(gens, n, word), product(gens, n, word)[w as int]),
    decreases word.len(),
{
    let cands = schreier_generators(gens, tree);
    if word.len() == 0 {
        lemma_generated_identity(cands, n);
        lemma_compose_identity(identity(n));
        assert(generated(cands, n, identity(n)) && product(gens, n, word) == compose(
            identity(n),
            tree[w],
        ));
    } else {
        let l = word.last();
        let front = word.drop_last();
        lemma_valid_word_front(gens, word);
        lemma_product_splits(n, gens, w, tree, front);
        lemma_product_is_permutation(gens, n, front);
        let u = product(gens, n, front)[w as int];
        let h = choose|h: Seq<usize>|
            generated(cands, n, h) && product(gens, n, front) == #[trigger] compose(h, tree[u]);
        lemma_split_step(n, gens, w, tree, l, u, h);
    }
}

/// What the Schreier generators of a level generate lies in the group of
/// the level and fixes its base point.
pub proof fn lemma_stabilizer_member(
    n: nat,
    gens: Seq<Seq<usize>>,
    w: usize,
    tree: Map<usize, Seq<usize>>,
    h: Seq<usize>,
)
    requires
        uniform(gens, n),
        w < n <= usize::MAX,
        is_transversal(n, gens, w, tree),
        generated(schreier_generators(gens, tree), n, h),
    ensures
        generated(gens, n, h),
        is_permutation(h),
        h.len() == n,
        h[w as int] == w,
{
    let cands = schreier_generators(gens, tree);
    let in_g = generated_by(gens, n);
    let fixing = fixing_point(n, w as int);
    lemma_generated_is_subgroup(gens, n);
    lemma_fixing_point_is_subgroup(n, w as int);
    lemma_schreier_tree_covers(n, gens, w, tree);
    lemma_tree_good(n, gens, w, tree, in_g);
    lemma_schreier_generators_good(gens, tree, n, in_g);
    lemma_schreier_generators_fix_base(gens, tree, w);
    lemma_generated_good(cands, n, h, in_g);
    assert(all_good(fixing, cands)) by {
        assert forall|i: int| 0 <= i < cands.len() implies fixing(#[trigger] cands[i]) by {
            assert(in_g(cands[i]));
        }
    }
    lemma_generated_good(cands, n, h, fixing);
}

/// Schreier's lemma: the Schreier generators over a transversal of the
/// orbit of `w` generate exactly the members of the group that fix `w`.
pub proof fn lemma_schreier_generators_generate_stabilizer(
    n: nat,
    gens: Seq<Seq<usize>>,
    w: usize,
    tree: Map<usize, Seq<usize>>,
    g: Seq<usize>,
)
    requires
        uniform(gens, n),
        w < n <= usize::MAX,
        is_transversal(n, gens, w, tree),
    ensures
        generated(schreier_generators(gens, tree), n, g) <==> (generated(gens, n, g) && g[w as int]
            == w),
{
    let cands = schreier_generators(gens, tree);
    if generated(cands, n, g) {
        lemma_stabilizer_member(n, gens, w, tree, g);
    }
    if generated(gens, n, g) && g[w as int] == w {
        let word = choose|word: Seq<Letter>|
            valid_word(gens, word) && g == #[trigger] product(gens, n, word);
        lemma_product_splits(n, gens, w, tree, word);
        let h = choose|h: Seq<usize>|
            generated(cands, n, h) && g == #[trigger] compose(h, tree[w]);
        lemma_stabilizer_member(n, gens, w, tree, h);
        lemma_compose_identity(h);
    }
}

/// The members of the group of a level that send its base point to a given
/// point of the orbit are as many as the group of the Schreier generators
/// has members.
proof fn lemma_count_sending_to(
    n: nat,
    gens: Seq<Seq<usize>>,
    w: usize,
    tree: Map<usize, Seq<usize>>,
    point: usize,
)
    requires
        uniform(gens, n),
        w < n <= usize::MAX,
        is_transversal(n, gens, w, tree),
        group(schreier_generators(gens, tree), n).finite(),
        tree.contains_key(point),
    ensures
        Set::new(|g: Seq<usize>| generated(gens, n, g) && g[w as int] == point).finite(),
        Set::new(|g: Seq<usize>| generated(gens, n, g) && g[w as int] == point).len() == group(
            schreier_generators(gens, tree),
            n,
        ).len(),
{
    let cands = schreier_generators(gens, tree);
    let stab = group(cands, n);
    let there = Set::new(|g: Seq<usize>| generated(gens, n, g) && g[w as int] == point);
    assert(tree.dom().contains(point));
    let path = choose|path: Seq<int>| valid_path(gens, path) && walk(gens, w, path) == point;
    lemma_path_product(gens, n, w, path);
    let p = product(gens, n, path_word(path));
    lemma_product_is_permutation(gens, n, path_word(path));
    assert(generated(gens, n, p));
    lemma_inverse_properties(p);
    lemma_generated_inverse(gens, n, p);
    let shift = |h: Seq<usize>| compose(h, p);
    let fiber = stab.map(shift);
    assert(injective_on(shift, stab)) by {
        assert forall|a: Seq<usize>, b: Seq<usize>|
            stab.contains(a) && stab.contains(b) && #[trigger] shift(a) == #[trigger] shift(
                b,
            ) implies a == b by {
            lemma_stabilizer_member(n, gens, w, tree, a);
            lemma_stabilizer_member(n, gens, w, tree, b);
            lemma_compose_inverse(p);
            lemma_compose_associative(a, p, inverse(p));
            lemma_compose_associative(b, p, inverse(p));
            lemma_compose_identity(a);
            lemma_compose_identity(b);
        }
    }
    lemma_map_size(stab, fiber, shift);
    assert(there =~= fiber) by {
        assert forall|g: Seq<usize>| there.contains(g) implies fiber.contains(g) by {
            let h = compose(g, inverse(p));
            lemma_generated_is_permutation(gens, n, g);
            lemma_generated_compose(gens, n, g, inverse(p));
            assert(h[w as int] == w);
            lemma_schreier_generators_generate_stabilizer(n, gens, w, tree, h);
            lemma_compose_associative(g, inverse(p), p);
            lemma_inverse_compose(p);
            lemma_compose_identity(g);
            assert(stab.contains(h) && g == shift(h));
        }
        assert forall|g: Seq<usize>| fiber.contains(g) implies there.contains(g) by {
            let h = choose|h: Seq<usize>| stab.contains(h) && g == shift(h);
            lemma_stabilizer_member(n, gens, w, tree, h);
            lemma_generated_compose(gens, n, h, p);
        }
    }
}

/// The members of the group of a level that send its base point to a point
/// below `k` number as many as the tree has keys below `k`, times the order
/// of the group of the Schreier generators.
pub proof fn lemma_count_sending_below(
    n: nat,
    gens: Seq<Seq<usize>>,
    w: usize,
    tree: Map<usize, Seq<usize>>,
    k: nat,
)
    requires
        uniform(gens, n),
        w < n <= usize::MAX,
        is_transversal(n, gens, w, tree),
        group(schreier_generators(gens, tree), n).finite(),
        k <= n,
    ensures
        sending_below(gens, n, w, k).finite(),
        sending_below(gens, n, w, k).len() == tree_values(tree, k).len() * group(
            schreier_generators(gens, tree),
            n,
        ).len(),
    decreases k,
{
    let cands = schreier_generators(gens, tree);
    let stab = group(cands, n);
    let now = sending_below(gens, n, w, k);
    if k == 0 {
        assert(now =~= Set::<Seq<usize>>::empty());
        assert(tree_values(tree, 0).len() * stab.len() == 0) by (nonlinear_arith)
            requires
                tree_values(tree, 0).len() == 0,
        ;
    } else {
        let point = (k - 1) as usize;
        let before = sending_below(gens, n, w, (k - 1) as nat);
        let there = Set::new(|g: Seq<usize>| generated(gens, n, g) && g[w as int] == point);
        lemma_count_sending_below(n, gens, w, tree, (k - 1) as nat);
        let count = tree_values(tree, (k - 1) as nat).len();
        assert(now =~= before + there);
        if tree.contains_key(point) {
            lemma_count_sending_to(n, gens, w, tree, point);
            assert(before.disjoint(there));
            lemma_set_disjoint_lens(before, there);
            assert(tree_values(tree, k).len() == count + 1);
            assert((count + 1) * stab.len() == count * stab.len() + stab.len())
                by (nonlinear_arith);
        } else {
            assert(there =~= Set::<Seq<usize>>::empty()) by {
                assert forall|g: Seq<usize>| !there.contains(g) by {
                    if there.contains(g) {
                        let word = choose|word: Seq<Letter>|
                            valid_word(gens, word) && g == #[trigger] product(gens, n, word);
                        lemma_product_stays_in_orbit(gens, n, w, word);
                        assert(orbit_of(gens, w).contains(point));
                        assert(tree.dom().contains(point));
                    }
                }
            }
            assert(now =~= before);
        }
    }
}

/// The order of the group of a level is the size of the level, which is
/// the size of the orbit of its base point, times the order of the group of
/// what it hands on.
pub proof fn lemma_level_order(
    n: nat,
    w: int,
    gens: Seq<Seq<usize>>,
    tree: Map<usize, Seq<usize>>,
    level: Seq<Seq<usize>>,
    next: Seq<Seq<usize>>,
)
    requires
        n <= usize::MAX,
        is_level(n, w, gens, tree, level, next),
        group(next, n).finite(),
    ensures
        group(gens, n).finite(),
        group(gens, n).len() == level.len() * group(next, n).len(),
        orbit_of(gens, w as usize).finite(),
        level.len() == orbit_of(gens, w as usize).len(),
{
    let cands = schreier_generators(gens, tree);
    lemma_tree_values_len(n, gens, w as usize, tree);
    lemma_generated_is_subgroup(gens, n);
    lemma_level_good(n, w, gens, tree, level, next, generated_by(gens, n));
    lemma_good_uniform(generated_by(gens, n), n, cands);
    lemma_sieve_same_group(cands, n);
    lemma_count_sending_below(n, gens, w as usize, tree, n);
    assert(sending_below(gens, n, w as usize, n) =~= group(gens, n)) by {
        assert forall|g: Seq<usize>| generated(gens, n, g) implies g[w] < n by {
            lemma_generated_is_permutation(gens, n, g);
        }
    }
}

/// In a chain that ends with nothing handed on, the group of level `w` has
/// as many members as the product of the sizes of the levels from `w` on.
pub proof fn lemma_order_from_level(
    n: nat,
    chain: Seq<Seq<Seq<usize>>>,
    sets: Seq<Seq<Seq<usize>>>,
    trees: Seq<Map<usize, Seq<usize>>>,
    w: int,
)
    requires
        n <= usize::MAX,
        is_chain(n, chain, sets, trees),
        sets.last().len() == 0,
        0 <= w <= chain.len(),
    ensures
        group(sets[w], n).finite(),
        group(sets[w], n).len() == levels_product(chain, w),
    decreases chain.len() - w,
{
    if w == chain.len() {
        assert(sets[w] =~= Seq::<Seq<usize>>::empty());
        lemma_group_of_nothing(n);
    } else {
        lemma_order_from_level(n, chain, sets, trees, w + 1);
        assert(is_level(n, w, sets[w], trees[w], chain[w], sets[w + 1]));
        lemma_level_order(n, w, sets[w], trees[w], chain[w], sets[w + 1]);
    }
}

/// In a chain that ends with nothing handed on, the product of the sizes of
/// the levels is the order of the group that the first level's generators
/// generate.
pub proof fn lemma_chain_order(
    n: nat,
    chain: Seq<Seq<Seq<usize>>>,
    sets: Seq<Seq<Seq<usize>>>,
    trees: Seq<Map<usize, Seq<usize>>>,
)
    requires
        n <= usize::MAX,
        is_chain(n, chain, sets, trees),
        sets.last().len() == 0,
    ensures
        group(sets[0], n).finite(),
        group(sets[0], n).len() == levels_product(chain, 0),
{
    lemma_order_from_level(n, chain, sets, trees, 0);
}

} // verus!
