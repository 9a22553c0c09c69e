use schreier_sims::{schreier_sims, Permutation};

fn perm(images: &[usize]) -> Permutation {
    Permutation { p: images.to_vec() }
}

fn order(chain: &Vec<Vec<Permutation>>) -> usize {
    chain.iter().map(|level| level.len()).product()
}

#[test]
fn dihedral_group_of_order_24() {
    let rotation = perm(&[1, 2, 3, 4, 5, 6, 7, 8, 9, 10, 11, 0]);
    let reflection = perm(&[0, 11, 10, 9, 8, 7, 6, 5, 4, 3, 2, 1]);
    let chain = schreier_sims(12, vec![rotation.clone(), reflection.clone()]);
    assert_eq!(chain.len(), 2);
    assert_eq!(chain[0].len(), 12);
    for (u, t) in chain[0].iter().enumerate() {
        assert_eq!(t.p[0], u);
    }
    assert_eq!(chain[0][0], Permutation::identity(12));
    assert_eq!(chain[0][1], rotation);
    assert_eq!(chain[1], vec![Permutation::identity(12), reflection]);
    assert!(chain[1].len() < chain[0].len());
    assert_eq!(order(&chain), 24);
}

#[test]
fn dihedral_group_with_the_reflection_first() {
    let rotation = perm(&[1, 2, 3, 4, 5, 6, 7, 8, 9, 10, 11, 0]);
    let reflection = perm(&[0, 11, 10, 9, 8, 7, 6, 5, 4, 3, 2, 1]);
    let chain = schreier_sims(12, vec![reflection, rotation]);
    assert_eq!(chain[0].len(), 12);
    assert_eq!(order(&chain), 24);
}

#[test]
fn no_generators_no_levels() {
    let chain = schreier_sims(3, vec![]);
    assert!(chain.is_empty());
}

#[test]
fn single_transposition() {
    let swap = perm(&[1, 0, 2, 3]);
    let chain = schreier_sims(4, vec![swap.clone()]);
    assert_eq!(chain, vec![vec![Permutation::identity(4), swap]]);
}

#[test]
fn identity_alone_gives_one_trivial_level() {
    let chain = schreier_sims(3, vec![Permutation::identity(3)]);
    assert_eq!(chain, vec![vec![Permutation::identity(3)]]);
}

#[test]
fn cyclic_group_has_one_level() {
    let chain = schreier_sims(5, vec![perm(&[1, 2, 3, 4, 0])]);
    assert_eq!(chain.len(), 1);
    assert_eq!(chain[0].len(), 5);
    assert_eq!(chain[0][3], perm(&[3, 4, 0, 1, 2]));
}

#[test]
fn fixed_base_point_gives_a_trivial_level() {
    // two commuting transpositions: the group has order 4
    let chain = schreier_sims(4, vec![perm(&[1, 0, 2, 3]), perm(&[0, 1, 3, 2])]);
    assert_eq!(
        chain,
        vec![
            vec![Permutation::identity(4), perm(&[1, 0, 2, 3])],
            vec![Permutation::identity(4)],
            vec![Permutation::identity(4), perm(&[0, 1, 3, 2])],
        ]
    );
    assert_eq!(order(&chain), 4);
}

#[test]
fn symmetric_group_on_three_points() {
    let chain = schreier_sims(3, vec![perm(&[1, 0, 2]), perm(&[0, 2, 1])]);
    assert_eq!(
        chain,
        vec![
            vec![perm(&[0, 1, 2]), perm(&[1, 0, 2]), perm(&[2, 0, 1])],
            vec![perm(&[0, 1, 2]), perm(&[0, 2, 1])],
        ]
    );
    assert_eq!(order(&chain), 6);
}

#[test]
fn symmetric_group_from_a_swap_and_a_cycle() {
    let chain = schreier_sims(3, vec![perm(&[1, 0, 2]), perm(&[1, 2, 0])]);
    assert_eq!(
        chain,
        vec![
            vec![perm(&[0, 1, 2]), perm(&[1, 0, 2]), perm(&[2, 1, 0])],
            vec![perm(&[0, 1, 2]), perm(&[0, 2, 1])],
        ]
    );
    assert_eq!(order(&chain), 6);
}

#[test]
fn symmetric_group_on_four_points() {
    let chain = schreier_sims(4, vec![perm(&[1, 2, 3, 0]), perm(&[1, 0, 2, 3])]);
    assert_eq!(
        chain,
        vec![
            vec![
                perm(&[0, 1, 2, 3]),
                perm(&[1, 2, 3, 0]),
                perm(&[2, 3, 0, 1]),
                perm(&[3, 0, 1, 2]),
            ],
            vec![perm(&[0, 1, 2, 3]), perm(&[0, 2, 3, 1]), perm(&[0, 3, 1, 2])],
            vec![perm(&[0, 1, 2, 3]), perm(&[0, 1, 3, 2])],
        ]
    );
    assert_eq!(order(&chain), 24);
}

#[test]
fn repeated_generators_change_nothing() {
    let swap = perm(&[1, 0, 2, 3]);
    let once = schreier_sims(4, vec![swap.clone()]);
    let twice = schreier_sims(4, vec![swap.clone(), swap]);
    assert_eq!(once, twice);
}

#[test]
fn three_generators_of_the_symmetric_group() {
    let chain = schreier_sims(3, vec![perm(&[0, 2, 1]), perm(&[1, 0, 2]), perm(&[2, 0, 1])]);
    assert_eq!(
        chain,
        vec![
            vec![perm(&[0, 1, 2]), perm(&[1, 0, 2]), perm(&[2, 0, 1])],
            vec![perm(&[0, 1, 2]), perm(&[0, 2, 1])],
        ]
    );
    assert_eq!(order(&chain), 6);
}

#[test]
fn no_points() {
    assert!(schreier_sims(0, vec![]).is_empty());
}

/// Every product of the generators, by exhaustive closure.
fn closure(n: usize, gens: &[Permutation]) -> Vec<Permutation> {
    let mut all = vec![Permutation::identity(n)];
    let mut next = 0;
    while next < all.len() {
        for g in gens {
            let product = all[next].mul(g);
            if !all.contains(&product) {
                all.push(product);
            }
        }
        next += 1;
    }
    all
}

#[test]
fn last_level_hands_on_nothing() {
    let reflection = perm(&[0, 11, 10, 9, 8, 7, 6, 5, 4, 3, 2, 1]);
    let s = vec![reflection];
    let mut orbit = std::collections::BTreeMap::new();
    orbit.insert(1, Permutation::identity(12));
    schreier_sims::build_schreier_tree(1, &s, &mut orbit);
    let keys: Vec<usize> = orbit.keys().copied().collect();
    assert_eq!(keys, vec![1, 11]);
    let candidates = schreier_sims::make_gen(s, &orbit);
    assert_eq!(candidates, vec![Permutation::identity(12)]);
    assert!(schreier_sims::normalize(12, candidates).is_empty());
}

#[test]
fn product_of_level_sizes_is_the_order() {
    let cases: Vec<(usize, Vec<Permutation>)> = vec![
        (5, vec![perm(&[1, 0, 2, 3, 4]), perm(&[0, 1, 3, 4, 2])]),
        (4, vec![perm(&[1, 2, 3, 0]), perm(&[2, 3, 0, 1])]),
        (4, vec![perm(&[1, 0, 2, 3]), perm(&[0, 1, 3, 2])]),
        (6, vec![perm(&[1, 0, 3, 2, 5, 4]), perm(&[2, 3, 4, 5, 0, 1])]),
        (1, vec![perm(&[0])]),
        (3, vec![perm(&[0, 2, 1]), perm(&[1, 0, 2]), perm(&[1, 2, 0])]),
        (4, vec![perm(&[1, 2, 0, 3]), perm(&[3, 2, 0, 1])]),
        (5, vec![perm(&[1, 2, 3, 4, 0]), perm(&[1, 0, 2, 3, 4])]),
        (5, vec![perm(&[1, 2, 0, 3, 4]), perm(&[0, 1, 3, 4, 2])]),
        (6, vec![perm(&[1, 2, 3, 4, 5, 0]), perm(&[0, 5, 4, 3, 2, 1])]),
    ];
    for (n, gens) in cases {
        let expected = closure(n, &gens).len();
        let chain = schreier_sims(n, gens);
        assert_eq!(order(&chain), expected);
    }
}

#[test]
fn levels_have_the_shape_of_a_stabilizer_chain() {
    let n = 5;
    let gens = vec![perm(&[1, 2, 3, 4, 0]), perm(&[1, 0, 2, 3, 4])];
    let group = closure(n, &gens);
    let chain = schreier_sims(n, gens);
    assert!(chain.len() <= n);
    for (i, level) in chain.iter().enumerate() {
        assert!(1 <= level.len() && level.len() <= n - i);
        assert_eq!(level[0], Permutation::identity(n));
        for t in level {
            assert!(t.is_valid() && t.len() == n);
            assert!(group.contains(t));
            for j in 0..i {
                assert_eq!(t.p[j], j);
            }
        }
        for k in 1..level.len() {
            assert!(level[k - 1].p[i] < level[k].p[i]);
        }
    }
}

#[test]
fn two_commuting_generators_of_order_six() {
    let chain = schreier_sims(5, vec![perm(&[1, 0, 2, 3, 4]), perm(&[0, 1, 3, 4, 2])]);
    assert_eq!(
        chain,
        vec![
            vec![perm(&[0, 1, 2, 3, 4]), perm(&[1, 0, 2, 3, 4])],
            vec![perm(&[0, 1, 2, 3, 4])],
            vec![perm(&[0, 1, 2, 3, 4]), perm(&[0, 1, 3, 4, 2]), perm(&[0, 1, 4, 2, 3])],
        ]
    );
}

#[test]
fn levels_list_the_tree_by_ascending_point() {
    let chain = schreier_sims(4, vec![perm(&[3, 1, 2, 0]), perm(&[1, 0, 2, 3])]);
    // the orbit of 0 is {0, 1, 3}; each entry is listed at its point's rank
    assert_eq!(
        chain,
        vec![
            vec![perm(&[0, 1, 2, 3]), perm(&[1, 0, 2, 3]), perm(&[3, 1, 2, 0])],
            vec![perm(&[0, 1, 2, 3]), perm(&[0, 3, 2, 1])],
        ]
    );
}
