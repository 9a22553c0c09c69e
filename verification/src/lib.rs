//! Base and strong generating sets for finite permutation groups,
//! computed with the Schreier-Sims algorithm.
//!
//! Given generators of a permutation group on `n` points,
//! [`schreier_sims`] walks the base points `0, 1, 2, ..` and returns, for each
//! of them, the Schreier tree of its orbit under the generators that are
//! left at that level. The steps of a level are public too:
//! [`build_schreier_tree`], [`make_gen`] and [`normalize`].
//!
//! Permutations compose left to right, `compose(p, r)[i] == r[p[i]]`, and the
//! three steps put their factors in this order:
//!
//! - a tree entry reached from `u` by the generator `g` holds
//!   `compose(tree[u], g)`, which sends the base point to `u` and on to
//!   `g[u]`,
//! - the Schreier generator of `e` at `u` is
//!   `compose(compose(tree[u], e), inverse(tree[e[u]]))`, which sends the
//!   base point to `u`, on to `e[u]`, and back,
//! - the filter replaces a candidate `e` by `compose(e, inverse(b))`, which
//!   cancels the leading move that `e` shares with `b`.
//!
//! The modules: [`perm`] holds the permutations and their algebra, [`group`]
//! the group that a list of permutations generates, [`orbit`] orbits and
//! Schreier trees, [`generators`] the Schreier generators, [`sieve`] the
//! filter, [`chain`] the stabilizer chain and [`order`] the order of the
//! generated group.

pub mod chain;
pub mod generators;
pub mod group;
pub mod orbit;
pub mod order;
pub mod perm;
pub mod sieve;

pub use chain::schreier_sims;
pub use generators::make_gen;
pub use orbit::build_schreier_tree;
pub use perm::{all_valid, Permutation};
pub use sieve::normalize;
