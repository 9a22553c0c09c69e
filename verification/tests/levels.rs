use schreier_sims::{build_schreier_tree, make_gen, normalize, Permutation};
use std::collections::BTreeMap;

fn perm(images: &[usize]) -> Permutation {
    Permutation { p: images.to_vec() }
}

fn seed(w: usize, n: usize) -> BTreeMap<usize, Permutation> {
    let mut orbit = BTreeMap::new();
    orbit.insert(w, Permutation::identity(n));
    orbit
}

#[test]
fn tree_without_generators_is_the_base_point() {
    let mut orbit = seed(2, 4);
    build_schreier_tree(2, &vec![], &mut orbit);
    assert_eq!(orbit.len(), 1);
    assert_eq!(orbit[&2], Permutation::identity(4));
}

#[test]
fn tree_keys_are_the_orbit() {
    let s = vec![perm(&[1, 0, 2, 3]), perm(&[0, 2, 1, 3])];
    let mut orbit = seed(0, 4);
    build_schreier_tree(0, &s, &mut orbit);
    let keys: Vec<usize> = orbit.keys().copied().collect();
    assert_eq!(keys, vec![0, 1, 2]);

    let mut orbit = seed(3, 4);
    build_schreier_tree(3, &s, &mut orbit);
    let keys: Vec<usize> = orbit.keys().copied().collect();
    assert_eq!(keys, vec![3]);
}

#[test]
fn tree_values_follow_the_path() {
    let a = perm(&[1, 0, 2, 3]);
    let b = perm(&[0, 2, 1, 3]);
    let mut orbit = seed(0, 4);
    build_schreier_tree(0, &vec![a.clone(), b.clone()], &mut orbit);
    assert_eq!(orbit[&0], Permutation::identity(4));
    assert_eq!(orbit[&1], a);
    // reached from 1 by b: orbit[1].mul(b)
    assert_eq!(orbit[&2], a.mul(&b));
    assert_eq!(orbit[&2], perm(&[2, 0, 1, 3]));
}

#[test]
fn tree_values_send_the_base_point_to_their_key() {
    let cases: Vec<(usize, Vec<Permutation>)> = vec![
        (3, vec![perm(&[1, 0, 2]), perm(&[1, 2, 0])]),
        (3, vec![perm(&[1, 2, 0]), perm(&[1, 0, 2])]),
        (4, vec![perm(&[1, 2, 3, 0]), perm(&[1, 0, 2, 3])]),
        (5, vec![perm(&[1, 0, 2, 3, 4]), perm(&[0, 2, 1, 3, 4]), perm(&[0, 1, 2, 4, 3])]),
    ];
    for (n, s) in cases {
        for w in 0..n {
            let mut orbit = seed(w, n);
            build_schreier_tree(w, &s, &mut orbit);
            assert_eq!(orbit[&w], Permutation::identity(n));
            for (u, t) in orbit.iter() {
                assert_eq!(t.p[w], *u);
            }
        }
    }
}

#[test]
fn tree_of_two_generators_of_the_symmetric_group() {
    let mut orbit = seed(0, 3);
    build_schreier_tree(0, &vec![perm(&[1, 0, 2]), perm(&[1, 2, 0])], &mut orbit);
    assert_eq!(orbit.len(), 3);
    assert_eq!(orbit[&0], perm(&[0, 1, 2]));
    assert_eq!(orbit[&1], perm(&[1, 0, 2]));
    assert_eq!(orbit[&2], perm(&[2, 1, 0]));
}

#[test]
fn tree_of_a_cycle_maps_the_base_point_to_each_key() {
    let c = perm(&[1, 2, 3, 4, 0]);
    let mut orbit = seed(0, 5);
    build_schreier_tree(0, &vec![c], &mut orbit);
    assert_eq!(orbit.len(), 5);
    for (u, t) in orbit.iter() {
        assert_eq!(t.p[0], *u);
    }
}

#[test]
fn tree_keeps_what_it_held() {
    let a = perm(&[1, 0, 2]);
    let mut orbit = seed(0, 3);
    // an entry that the walk from 0 would otherwise make itself
    orbit.insert(1, perm(&[1, 2, 0]));
    build_schreier_tree(0, &vec![a], &mut orbit);
    assert_eq!(orbit.len(), 2);
    assert_eq!(orbit[&1], perm(&[1, 2, 0]));
}

#[test]
fn tree_accepts_repeated_generators() {
    let a = perm(&[1, 0, 2]);
    let mut orbit = seed(0, 3);
    build_schreier_tree(0, &vec![a.clone(), a.clone()], &mut orbit);
    assert_eq!(orbit.len(), 2);
    assert_eq!(orbit[&1], a);
}

#[test]
fn generators_of_the_next_level() {
    let s = vec![perm(&[1, 0, 2, 3]), perm(&[0, 2, 1, 3])];
    let mut orbit = seed(0, 4);
    build_schreier_tree(0, &s, &mut orbit);
    let gens = make_gen(s, &orbit);
    assert_eq!(gens, vec![perm(&[0, 1, 2, 3]), perm(&[0, 2, 1, 3])]);
}

#[test]
fn generator_formula() {
    let e = perm(&[1, 2, 0]);
    let s = vec![e.clone()];
    let mut orbit = seed(0, 3);
    build_schreier_tree(0, &s, &mut orbit);
    let gens = make_gen(s, &orbit);
    let mut expected: Vec<Permutation> = Vec::new();
    for u in 0..3 {
        let g = orbit[&u].mul(&e).mul(&orbit[&e.p[u]].inv());
        if !expected.contains(&g) {
            expected.push(g);
        }
    }
    assert_eq!(gens, expected);
    assert_eq!(gens, vec![Permutation::identity(3)]);
}

#[test]
fn generators_of_nothing_are_nothing() {
    let orbit = seed(0, 3);
    assert_eq!(make_gen(vec![], &orbit), vec![]);
}

#[test]
fn generators_are_not_repeated() {
    let c = perm(&[1, 2, 3, 0]);
    let s = vec![c.clone(), c.clone()];
    let mut orbit = seed(0, 4);
    build_schreier_tree(0, &s, &mut orbit);
    let gens = make_gen(s, &orbit);
    for i in 0..gens.len() {
        for j in 0..i {
            assert_ne!(gens[i], gens[j]);
        }
    }
}

#[test]
fn normalize_drops_the_identity() {
    assert_eq!(normalize(3, vec![Permutation::identity(3)]), vec![]);
    assert_eq!(normalize(3, vec![]), vec![]);
}

#[test]
fn normalize_accepts_a_new_leading_move() {
    let a = perm(&[1, 0, 2]);
    let b = perm(&[2, 1, 0]);
    let c = perm(&[0, 2, 1]);
    assert_eq!(normalize(3, vec![a.clone(), b.clone(), c.clone()]), vec![a, b, c]);
}

#[test]
fn normalize_cancels_a_shared_leading_move() {
    let a = perm(&[1, 0, 2]);
    let c = perm(&[1, 2, 0]);
    // c and a both send 0 to 1: c is replaced by c.mul(&a.inv())
    assert_eq!(c.mul(&a.inv()), perm(&[0, 2, 1]));
    assert_eq!(normalize(3, vec![a.clone(), c]), vec![a, perm(&[0, 2, 1])]);
}

#[test]
fn normalize_drops_what_reduces_to_the_identity() {
    let a = perm(&[1, 0, 2]);
    assert_eq!(normalize(3, vec![a.clone(), a.clone()]), vec![a]);
}

#[test]
fn normalize_reduces_more_than_once() {
    let out = normalize(
        4,
        vec![
            perm(&[1, 0, 2, 3]),
            perm(&[1, 2, 0, 3]),
            perm(&[1, 0, 3, 2]),
            perm(&[0, 1, 2, 3]),
            perm(&[1, 2, 3, 0]),
        ],
    );
    assert_eq!(out, vec![perm(&[1, 0, 2, 3]), perm(&[0, 2, 1, 3]), perm(&[0, 1, 3, 2])]);
}

#[test]
fn normalize_output_has_distinct_leading_moves() {
    let out = normalize(
        4,
        vec![perm(&[1, 2, 3, 0]), perm(&[1, 0, 2, 3]), perm(&[3, 2, 1, 0]), perm(&[1, 3, 0, 2])],
    );
    let lead = |g: &Permutation| {
        let x = (0..4).find(|&i| g.p[i] != i).unwrap();
        (x, g.p[x])
    };
    for i in 0..out.len() {
        for j in 0..i {
            assert_ne!(lead(&out[i]), lead(&out[j]));
        }
    }
}

#[test]
fn normalize_is_idempotent() {
    let input = vec![
        perm(&[1, 2, 3, 0]),
        perm(&[1, 0, 2, 3]),
        perm(&[3, 2, 1, 0]),
        perm(&[1, 3, 0, 2]),
        perm(&[0, 1, 3, 2]),
    ];
    let once = normalize(4, input);
    let twice = normalize(4, once.clone());
    assert_eq!(twice, once);
}

/// Every product of the generators, by exhaustive closure.
fn closure(n: usize, gens: &[Permutation]) -> Vec<Permutation> {
    let mut all = vec![Permutation::identity(n)];
    let mut next = 0;
    while next < all.len() {
        for g in gens {
            let product = all[next].mul(g);
            if !all.contains(&product) {
                all.push(product);
            }
        }
        next += 1;
    }
    all
}

fn same_members(a: &[Permutation], b: &[Permutation]) -> bool {
    a.len() == b.len() && a.iter().all(|x| b.contains(x))
}

#[test]
fn normalize_keeps_the_generated_group() {
    let inputs = vec![
        vec![perm(&[1, 2, 3, 0]), perm(&[1, 0, 2, 3]), perm(&[3, 2, 1, 0]), perm(&[1, 3, 0, 2])],
        vec![perm(&[1, 0, 2, 3]), perm(&[1, 2, 0, 3]), perm(&[1, 0, 3, 2])],
        vec![perm(&[2, 3, 0, 1]), perm(&[2, 3, 0, 1]), perm(&[1, 0, 3, 2])],
        vec![perm(&[0, 1, 2, 3])],
    ];
    for input in inputs {
        let before = closure(4, &input);
        let kept = normalize(4, input.clone());
        assert!(kept.len() <= input.len());
        let after = closure(4, &kept);
        assert!(same_members(&before, &after));
    }
}

#[test]
fn normalize_keeps_the_order_of_acceptance() {
    let out = normalize(
        4,
        vec![perm(&[1, 2, 3, 0]), perm(&[1, 0, 2, 3]), perm(&[3, 2, 1, 0]), perm(&[1, 3, 0, 2])],
    );
    assert_eq!(
        out,
        vec![perm(&[1, 2, 3, 0]), perm(&[0, 3, 1, 2]), perm(&[3, 2, 1, 0]), perm(&[0, 2, 3, 1])]
    );
}

#[test]
fn tree_keys_are_where_the_group_sends_the_base_point() {
    let s = vec![perm(&[1, 0, 2, 3, 4]), perm(&[0, 2, 1, 3, 4]), perm(&[0, 1, 2, 4, 3])];
    let group = closure(5, &s);
    for w in 0..5 {
        let mut orbit = seed(w, 5);
        build_schreier_tree(w, &s, &mut orbit);
        for x in 0..5 {
            assert_eq!(orbit.contains_key(&x), group.iter().any(|g| g.p[w] == x));
        }
    }
}

#[test]
fn tree_values_are_in_the_group() {
    let s = vec![perm(&[1, 2, 0, 3]), perm(&[0, 1, 3, 2])];
    let group = closure(4, &s);
    let mut orbit = seed(0, 4);
    build_schreier_tree(0, &s, &mut orbit);
    for t in orbit.values() {
        assert!(group.contains(t));
    }
}

#[test]
fn generators_fix_the_base_point() {
    let cases: Vec<(usize, Vec<Permutation>)> = vec![
        (6, vec![perm(&[1, 0, 3, 2, 5, 4]), perm(&[2, 3, 4, 5, 0, 1])]),
        (3, vec![perm(&[1, 0, 2]), perm(&[1, 2, 0])]),
        (4, vec![perm(&[1, 2, 3, 0]), perm(&[1, 0, 2, 3])]),
    ];
    for (n, s) in cases {
        for w in 0..n {
            let mut orbit = seed(w, n);
            build_schreier_tree(w, &s, &mut orbit);
            for g in make_gen(s.clone(), &orbit) {
                assert_eq!(g.p[w], w);
            }
        }
    }
}

#[test]
fn generators_over_a_given_transversal() {
    let s = vec![perm(&[1, 0, 2]), perm(&[1, 2, 0])];
    let mut orbit = BTreeMap::new();
    orbit.insert(0, perm(&[0, 1, 2]));
    orbit.insert(1, perm(&[1, 2, 0]));
    orbit.insert(2, perm(&[2, 0, 1]));
    let gens = make_gen(s, &orbit);
    assert_eq!(gens, vec![perm(&[0, 2, 1]), perm(&[0, 1, 2])]);
}

#[test]
fn generators_generate_the_stabilizer() {
    let s = vec![perm(&[1, 2, 3, 0]), perm(&[1, 0, 2, 3])];
    let group = closure(4, &s);
    for w in 0..4 {
        let mut orbit = seed(w, 4);
        build_schreier_tree(w, &s, &mut orbit);
        let generated = closure(4, &make_gen(s.clone(), &orbit));
        let stabilizer: Vec<Permutation> =
            group.iter().filter(|g| g.p[w] == w).cloned().collect();
        assert!(same_members(&generated, &stabilizer));
    }
}

#[test]
fn generators_number_at_most_one_per_generator_and_tree_point() {
    let s = vec![perm(&[1, 2, 3, 0]), perm(&[1, 0, 2, 3]), perm(&[0, 1, 3, 2])];
    let mut orbit = seed(0, 4);
    build_schreier_tree(0, &s, &mut orbit);
    let bound = s.len() * orbit.len();
    assert!(make_gen(s, &orbit).len() <= bound);
}
