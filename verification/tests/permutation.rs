use schreier_sims::{all_valid, Permutation};

fn perm(images: &[usize]) -> Permutation {
    Permutation { p: images.to_vec() }
}

#[test]
fn len_counts_points() {
    assert_eq!(perm(&[2, 0, 1]).len(), 3);
    assert_eq!(perm(&[]).len(), 0);
}

#[test]
fn is_empty_only_without_points() {
    assert!(perm(&[]).is_empty());
    assert!(!perm(&[0]).is_empty());
}

#[test]
fn identity_fixes_every_point() {
    assert_eq!(Permutation::identity(4), perm(&[0, 1, 2, 3]));
    assert_eq!(Permutation::identity(0), perm(&[]));
}

#[test]
fn inverse_sends_images_back() {
    let p = perm(&[2, 0, 3, 1]);
    let q = p.inv();
    assert_eq!(q, perm(&[1, 3, 0, 2]));
    for i in 0..4 {
        assert_eq!(q.p[p.p[i]], i);
    }
}

#[test]
fn inverse_of_identity_is_identity() {
    assert_eq!(Permutation::identity(5).inv(), Permutation::identity(5));
}

#[test]
fn inverse_twice_is_the_permutation() {
    let p = perm(&[3, 0, 4, 1, 2]);
    assert_eq!(p.inv().inv(), p);
}

#[test]
fn mul_applies_the_left_factor_first() {
    let p = perm(&[1, 2, 0]);
    let r = perm(&[0, 2, 1]);
    // (p * r)[i] = r[p[i]]
    assert_eq!(p.mul(&r), perm(&[2, 1, 0]));
    assert_eq!(r.mul(&p), perm(&[1, 0, 2]));
}

#[test]
fn mul_with_inverse_is_identity() {
    let g = perm(&[4, 2, 0, 1, 3]);
    assert_eq!(g.mul(&g.inv()), Permutation::identity(5));
    assert_eq!(g.inv().mul(&g), Permutation::identity(5));
}

#[test]
fn mul_is_associative() {
    let g = perm(&[1, 2, 3, 0]);
    let h = perm(&[1, 0, 2, 3]);
    let k = perm(&[0, 3, 2, 1]);
    assert_eq!(g.mul(&h).mul(&k), g.mul(&h.mul(&k)));
    assert_eq!(g.mul(&h).mul(&k), perm(&[0, 2, 1, 3]));
}

#[test]
fn mul_with_identity_changes_nothing() {
    let g = perm(&[2, 3, 1, 0]);
    assert_eq!(g.mul(&Permutation::identity(4)), g);
    assert_eq!(Permutation::identity(4).mul(&g), g);
}

#[test]
fn inverse_of_product_reverses_the_factors() {
    let g = perm(&[1, 2, 3, 0]);
    let h = perm(&[1, 0, 3, 2]);
    assert_eq!(g.mul(&h).inv(), h.inv().mul(&g.inv()));
}

#[test]
fn equality_is_by_image_array() {
    assert_eq!(perm(&[1, 0, 2]), perm(&[1, 0, 2]));
    assert_ne!(perm(&[1, 0, 2]), perm(&[0, 1, 2]));
    assert_ne!(perm(&[0, 1]), perm(&[0, 1, 2]));
}

#[test]
fn clone_keeps_the_images() {
    let g = perm(&[2, 0, 1]);
    assert_eq!(g.clone(), g);
}

#[test]
fn is_valid_accepts_bijections() {
    assert!(perm(&[]).is_valid());
    assert!(perm(&[0]).is_valid());
    assert!(perm(&[3, 1, 0, 2]).is_valid());
}

#[test]
fn is_valid_rejects_repeated_images() {
    assert!(!perm(&[0, 0]).is_valid());
    assert!(!perm(&[1, 2, 1]).is_valid());
}

#[test]
fn is_valid_rejects_images_out_of_range() {
    assert!(!perm(&[1]).is_valid());
    assert!(!perm(&[0, 3, 1]).is_valid());
}

#[test]
fn all_valid_wants_permutations_of_the_same_points() {
    assert!(all_valid(3, &vec![]));
    assert!(all_valid(3, &vec![perm(&[1, 2, 0]), perm(&[0, 2, 1])]));
    assert!(!all_valid(3, &vec![perm(&[1, 2, 0]), perm(&[1, 0])]));
    assert!(!all_valid(3, &vec![perm(&[1, 1, 0])]));
    assert!(!all_valid(2, &vec![perm(&[1, 2, 0])]));
}
