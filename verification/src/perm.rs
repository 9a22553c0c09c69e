//! Permutations of `{0, .., n-1}` stored as image arrays.
//!
//! Composition is written left to right: in `compose(p, r)` the permutation
//! `p` acts first, so `compose(p, r)[i] == r[p[i]]`. Every formula in this
//! crate is stated against that single convention.

use vstd::prelude::*;
use vstd::std_specs::cmp::PartialEqSpecImpl;

verus! {

/// A bijection of `{0, .., n-1}` onto itself; `p[i]` is the image of `i`.
///
/// The functions of this crate take image arrays that satisfy
/// [`is_permutation`]; [`Permutation::is_valid`] tests it.
#[derive(Debug, Eq, PartialOrd, Ord, Hash)]
pub struct Permutation {
    pub p: Vec<usize>,
}

impl View for Permutation {
    type V = Seq<usize>;

    open spec fn view(&self) -> Seq<usize> {
        self.p@
    }
}

/// Every image lies inside the point set, and the points are machine
/// integers.
pub open spec fn in_range(p: Seq<usize>) -> bool {
    &&& p.len() <= usize::MAX
    &&& forall|i: int| 0 <= i < p.len() ==> (#[trigger] p[i]) < p.len()
}

/// No two points share an image.
pub open spec fn injective(p: Seq<usize>) -> bool {
    forall|i: int, j: int| 0 <= i < p.len() && 0 <= j < p.len() && i != j ==> p[i] != p[j]
}

/// The image array `p` is a bijection of `{0, .., p.len()-1}` onto itself.
pub open spec fn is_permutation(p: Seq<usize>) -> bool {
    in_range(p) && injective(p)
}

/// The permutation that fixes each of `n` points.
pub open spec fn identity(n: nat) -> Seq<usize> {
    Seq::new(n, |i: int| i as usize)
}

/// `p` followed by `r`: the image of `i` is `r[p[i]]`.
pub open spec fn compose(p: Seq<usize>, r: Seq<usize>) -> Seq<usize> {
    Seq::new(p.len(), |i: int| r[p[i] as int])
}

/// Some point that `p` sends to `j`; for a permutation, the only one.
pub open spec fn preimage(p: Seq<usize>, j: int) -> int {
    choose|i: int| 0 <= i < p.len() && p[i] == j
}

/// The permutation that undoes `p`: it sends each image back to its point.
pub open spec fn inverse(p: Seq<usize>) -> Seq<usize> {
    Seq::new(p.len(), |j: int| preimage(p, j) as usize)
}

/// Every member of `s` is a permutation of the same `n` points.
pub open spec fn uniform(s: Seq<Seq<usize>>, n: nat) -> bool {
    forall|i: int| 0 <= i < s.len() ==> is_permutation(#[trigger] s[i]) && s[i].len() == n
}

/// The image arrays of a list of permutations, in order.
pub open spec fn views(v: Seq<Permutation>) -> Seq<Seq<usize>> {
    Seq::new(v.len(), |i: int| v[i]@)
}

/// The images of `p` with the slot of value `m` closed up: values above `m`
/// move down by one.
spec fn squeeze(p: Seq<usize>, m: usize) -> Seq<usize> {
    Seq::new(
        (p.len() - 1) as nat,
        |i: int|
            if p[i] < m {
                p[i]
            } else {
                (p[i] - 1) as usize
            },
    )
}

/// A list of permutations of `n` points stays one when it gains another.
pub proof fn lemma_uniform_push(s: Seq<Seq<usize>>, n: nat, e: Seq<usize>)
    requires
        uniform(s, n),
        is_permutation(e),
        e.len() == n,
    ensures
        uniform(s.push(e), n),
{
    assert forall|i: int| 0 <= i < s.push(e).len() implies is_permutation(#[trigger] s.push(e)[i])
        && s.push(e)[i].len() == n by {
        if i < s.len() {
            assert(s.push(e)[i] == s[i]);
        }
    }
}

/// A list of permutations of `n` points stays one when it loses its last.
pub proof fn lemma_uniform_front(s: Seq<Seq<usize>>, n: nat)
    requires
        uniform(s, n),
        s.len() > 0,
    ensures
        uniform(s.drop_last(), n),
        is_permutation(s.last()),
        s.last().len() == n,
{
    assert forall|i: int| 0 <= i < s.drop_last().len() implies is_permutation(
        #[trigger] s.drop_last()[i],
    ) && s.drop_last()[i].len() == n by {
        assert(s.drop_last()[i] == s[i]);
    }
    assert(is_permutation(s[s.len() - 1]));
}

/// An injective map of `{0, .., n-1}` into itself reaches every point.
pub proof fn lemma_permutation_onto(p: Seq<usize>, j: int)
    requires
        is_permutation(p),
        0 <= j < p.len(),
    ensures
        0 <= preimage(p, j) < p.len(),
        p[preimage(p, j)] == j,
    decreases p.len(),
{
    let n = p.len() as int;
    let m = p[n - 1];
    if j == m {
        assert(p[n - 1] == j);
    } else {
        let q = squeeze(p, m);
        assert(is_permutation(q)) by {
            assert forall|i: int| 0 <= i < q.len() implies (#[trigger] q[i]) < q.len() by {
                assert(p[i] < p.len());
                assert(p[i] != p[n - 1]);
            }
            assert forall|a: int, b: int|
                0 <= a < q.len() && 0 <= b < q.len() && a != b implies q[a] != q[b] by {
                assert(p[a] != p[b]);
                assert(p[a] != p[n - 1]);
                assert(p[b] != p[n - 1]);
            }
        }
        let t = if j < m {
            j
        } else {
            j - 1
        };
        lemma_permutation_onto(q, t);
        let i = preimage(q, t);
        assert(q[i] == t);
        assert(p[i] < p.len());
        assert(p[i] == j);
    }
}

/// The inverse of a permutation is a permutation, and the two undo each
/// other pointwise.
pub proof fn lemma_inverse_properties(p: Seq<usize>)
    requires
        is_permutation(p),
    ensures
        is_permutation(inverse(p)),
        inverse(p).len() == p.len(),
        forall|i: int| 0 <= i < p.len() ==> inverse(p)[(#[trigger] p[i]) as int] == i,
        forall|j: int| 0 <= j < p.len() ==> p[(#[trigger] inverse(p)[j]) as int] == j,
{
    let q = inverse(p);
    assert forall|j: int| 0 <= j < p.len() implies p[(#[trigger] q[j]) as int] == j && q[j]
        < p.len() by {
        lemma_permutation_onto(p, j);
    }
    assert forall|i: int| 0 <= i < p.len() implies q[(#[trigger] p[i]) as int] == i by {
        let j = p[i] as int;
        assert(p[q[j] as int] == j);
    }
    assert forall|a: int, b: int|
        0 <= a < q.len() && 0 <= b < q.len() && a != b implies q[a] != q[b] by {
        assert(p[q[a] as int] == a);
        assert(p[q[b] as int] == b);
    }
}

/// A sequence that sends every image of `p` back to its point is the inverse
/// of `p`.
pub proof fn lemma_inverse_unique(p: Seq<usize>, q: Seq<usize>)
    requires
        is_permutation(p),
        q.len() == p.len(),
        forall|i: int| 0 <= i < p.len() ==> q[(#[trigger] p[i]) as int] == i,
    ensures
        q == inverse(p),
{
    lemma_inverse_properties(p);
    assert forall|j: int| 0 <= j < p.len() implies q[j] == inverse(p)[j] by {
        let i = inverse(p)[j] as int;
        assert(p[i] == j);
    }
    assert(q =~= inverse(p));
}

/// The identity is a permutation.
pub proof fn lemma_identity_is_permutation(n: nat)
    requires
        n <= usize::MAX,
    ensures
        is_permutation(identity(n)),
        identity(n).len() == n,
{
}

/// Composing two permutations of the same points gives a permutation.
pub proof fn lemma_compose_is_permutation(p: Seq<usize>, r: Seq<usize>)
    requires
        is_permutation(p),
        is_permutation(r),
        p.len() == r.len(),
    ensures
        is_permutation(compose(p, r)),
        compose(p, r).len() == p.len(),
{
    let c = compose(p, r);
    assert forall|i: int| 0 <= i < c.len() implies (#[trigger] c[i]) < c.len() by {
        assert(p[i] < p.len());
    }
    assert forall|a: int, b: int|
        0 <= a < c.len() && 0 <= b < c.len() && a != b implies c[a] != c[b] by {
        assert(p[a] < p.len() && p[b] < p.len());
        assert(p[a] != p[b]);
    }
}

/// A permutation followed by its inverse is the identity.
pub proof fn lemma_compose_inverse(g: Seq<usize>)
    requires
        is_permutation(g),
    ensures
        compose(g, inverse(g)) == identity(g.len()),
{
    lemma_inverse_properties(g);
    assert(compose(g, inverse(g)) =~= identity(g.len()));
}

/// The inverse of a permutation followed by the permutation is the identity.
pub proof fn lemma_inverse_compose(g: Seq<usize>)
    requires
        is_permutation(g),
    ensures
        compose(inverse(g), g) == identity(g.len()),
{
    lemma_inverse_properties(g);
    assert(compose(inverse(g), g) =~= identity(g.len()));
}

/// Composition is associative.
pub proof fn lemma_compose_associative(g: Seq<usize>, h: Seq<usize>, k: Seq<usize>)
    requires
        in_range(g),
        g.len() == h.len(),
    ensures
        compose(compose(g, h), k) == compose(g, compose(h, k)),
{
    assert forall|i: int| 0 <= i < g.len() implies compose(compose(g, h), k)[i] == compose(
        g,
        compose(h, k),
    )[i] by {
        assert(g[i] < h.len());
    }
    assert(compose(compose(g, h), k) =~= compose(g, compose(h, k)));
}

/// The identity is neutral on both sides of a composition.
pub proof fn lemma_compose_identity(p: Seq<usize>)
    requires
        in_range(p),
    ensures
        compose(p, identity(p.len())) == p,
        compose(identity(p.len()), p) == p,
{
    assert forall|i: int| 0 <= i < p.len() implies compose(p, identity(p.len()))[i] == p[i] by {
        assert(p[i] < p.len());
    }
    assert(compose(p, identity(p.len())) =~= p);
    assert(compose(identity(p.len()), p) =~= p);
}

/// Inverting twice gives the permutation back.
pub proof fn lemma_inverse_involution(p: Seq<usize>)
    requires
        is_permutation(p),
    ensures
        inverse(inverse(p)) == p,
{
    lemma_inverse_properties(p);
    lemma_inverse_unique(inverse(p), p);
}

/// The inverse of a composition is the composition of the inverses in the
/// opposite order.
pub proof fn lemma_inverse_of_compose(p: Seq<usize>, r: Seq<usize>)
    requires
        is_permutation(p),
        is_permutation(r),
        p.len() == r.len(),
    ensures
        inverse(compose(p, r)) == compose(inverse(r), inverse(p)),
{
    lemma_inverse_properties(p);
    lemma_inverse_properties(r);
    lemma_compose_is_permutation(p, r);
    let c = compose(p, r);
    let q = compose(inverse(r), inverse(p));
    assert forall|i: int| 0 <= i < c.len() implies q[(#[trigger] c[i]) as int] == i by {
        assert(p[i] < p.len());
        assert(inverse(r)[r[p[i] as int] as int] == p[i]);
    }
    lemma_inverse_unique(c, q);
}

impl Clone for Permutation {
    fn clone(&self) -> (r: Self)
        ensures
            r@ == self@,
    {
        Permutation { p: self.p.clone() }
    }
}

impl PartialEq for Permutation {
    /// Two permutations are equal when their image arrays are.
    fn eq(&self, other: &Self) -> (r: bool) {
        let r = self.p == other.p;
        proof {
            assert(r == (self.p@ =~= other.p@));
        }
        r
    }
}

impl PartialEqSpecImpl for Permutation {
    open spec fn obeys_eq_spec() -> bool {
        true
    }

    open spec fn eq_spec(&self, other: &Permutation) -> bool {
        self@ == other@
    }
}

impl Permutation {
    /// Number of points the permutation acts on.
    pub fn len(&self) -> (n: usize)
        ensures
            n == self@.len(),
    {
        self.p.len()
    }

    /// Whether the point set is empty.
    pub fn is_empty(&self) -> (b: bool)
        ensures
            b == (self@.len() == 0),
    {
        self.p.is_empty()
    }

    /// The permutation of `n` points that fixes each of them.
    pub fn identity(n: usize) -> (r: Permutation)
        ensures
            r@ == identity(n as nat),
            is_permutation(r@),
    {
        let mut res: Vec<usize> = Vec::new();
        let mut i: usize = 0;
        while i < n
            invariant
                i <= n,
                res@ == identity(i as nat),
            decreases n - i,
        {
            res.push(i);
            i += 1;
            assert(res@ =~= identity(i as nat));
        }
        Permutation { p: res }
    }

    /// Whether the image array is a bijection of its index range.
    pub fn is_valid(&self) -> (b: bool)
        ensures
            b == is_permutation(self@),
    {
        let n = self.p.len();
        let mut seen: Vec<bool> = vec![false; n];
        let mut i: usize = 0;
        while i < n
            invariant
                i <= n,
                n == self@.len(),
                seen@.len() == n,
                forall|k: int| 0 <= k < i ==> (#[trigger] self@[k]) < n,
                forall|a: int, b: int| 0 <= a < i && 0 <= b < i && a != b ==> self@[a] != self@[b],
                forall|j: int|
                    0 <= j < n ==> (#[trigger] seen@[j] <==> exists|k: int|
                        0 <= k < i && self@[k] == j),
            decreases n - i,
        {
            let v = self.p[i];
            if v >= n {
                assert(!in_range(self@));
                return false;
            }
            if seen[v] {
                let ghost k = choose|k: int| 0 <= k < i && self@[k] == v;
                assert(self@[k] == self@[i as int]);
                assert(!injective(self@));
                return false;
            }
            seen[v] = true;
            proof {
                let ghost old_i = i as int;
                assert forall|j: int| 0 <= j < n implies (#[trigger] seen@[j] <==> exists|k: int|
                    0 <= k < old_i + 1 && self@[k] == j) by {
                    if j == v {
                        assert(self@[old_i] == j);
                    } else if seen@[j] {
                        let k = choose|k: int| 0 <= k < old_i && self@[k] == j;
                        assert(0 <= k < old_i + 1 && self@[k] == j);
                    }
                }
            }
            i += 1;
        }
        true
    }

    /// The inverse permutation: it sends `self.p[i]` back to `i`.
    pub fn inv(&self) -> (q: Permutation)
        requires
            is_permutation(self@),
        ensures
            q@ == inverse(self@),
            is_permutation(q@),
            q@.len() == self@.len(),
            forall|i: int| 0 <= i < self@.len() ==> q@[(#[trigger] self@[i]) as int] == i,
    {
        let n = self.p.len();
        let mut res: Vec<usize> = vec![0; n];
        let mut i: usize = 0;
        while i < n
            invariant
                i <= n,
                n == self@.len(),
                res@.len() == n,
                is_permutation(self@),
                forall|k: int| 0 <= k < i ==> res@[(#[trigger] self@[k]) as int] == k,
            decreases n - i,
        {
            let v = self.p[i];
            assert(self@[i as int] < n);
            res[v] = i;
            assert forall|k: int| 0 <= k < i + 1 implies res@[(#[trigger] self@[k]) as int]
                == k by {
                if k < i {
                    assert(self@[k] != self@[i as int]);
                }
            }
            i += 1;
        }
        proof {
            lemma_inverse_unique(self@, res@);
            lemma_inverse_properties(self@);
        }
        Permutation { p: res }
    }

    /// The composition `self` then `rhs`: the image of `i` is
    /// `rhs.p[self.p[i]]`.
    pub fn mul(&self, rhs: &Permutation) -> (r: Permutation)
        requires
            self@.len() == rhs@.len(),
            in_range(self@),
        ensures
            r@ == compose(self@, rhs@),
            is_permutation(self@) && is_permutation(rhs@) ==> is_permutation(r@),
    {
        let n = self.p.len();
        let mut res: Vec<usize> = Vec::new();
        let mut i: usize = 0;
        while i < n
            invariant
                i <= n,
                n == self@.len(),
                n == rhs@.len(),
                in_range(self@),
                res@.len() == i,
                forall|k: int| 0 <= k < i ==> res@[k] == rhs@[self@[k] as int],
            decreases n - i,
        {
            let v = self.p[i];
            assert(self@[i as int] < n);
            res.push(rhs.p[v]);
            i += 1;
        }
        proof {
            assert(res@ =~= compose(self@, rhs@));
            if is_permutation(self@) && is_permutation(rhs@) {
                lemma_compose_is_permutation(self@, rhs@);
            }
        }
        Permutation { p: res }
    }
}

/// Whether every member of `s` is a permutation of `n` points.
pub fn all_valid(n: usize, s: &Vec<Permutation>) -> (b: bool)
    ensures
        b == uniform(views(s@), n as nat),
{
    let mut i: usize = 0;
    while i < s.len()
        invariant
            i <= s@.len(),
            forall|k: int|
                0 <= k < i ==> is_permutation(#[trigger] views(s@)[k]) && views(s@)[k].len() == n,
        decreases s@.len() - i,
    {
        if s[i].len() != n || !s[i].is_valid() {
            assert(!(is_permutation(views(s@)[i as int]) && views(s@)[i as int].len() == n));
            return false;
        }
        i += 1;
    }
    true
}

} // verus!
