//! The group that a list of permutations generates, as the set of products
//! of its members and their inverses.

use crate::perm::{
    compose, identity, inverse, is_permutation, lemma_compose_associative, lemma_compose_identity,
    lemma_compose_inverse, lemma_compose_is_permutation, lemma_identity_is_permutation,
    lemma_inverse_involution, lemma_inverse_of_compose, lemma_inverse_properties,
    lemma_uniform_push, uniform,
};
use vstd::prelude::*;

verus! {

/// One factor of a product: generator number `index`, or its inverse.
pub struct Letter {
    pub index: int,
    pub inverted: bool,
}

/// The permutation that a letter stands for.
pub open spec fn letter_value(s: Seq<Seq<usize>>, l: Letter) -> Seq<usize> {
    if l.inverted {
        inverse(s[l.index])
    } else {
        s[l.index]
    }
}

/// Every letter of `word` names a member of `s`.
pub open spec fn valid_word(s: Seq<Seq<usize>>, word: Seq<Letter>) -> bool {
    forall|k: int| 0 <= k < word.len() ==> 0 <= (#[trigger] word[k]).index < s.len()
}

/// The product of the letters of `word`, the first letter acting first; the
/// empty product is the identity on `n` points.
pub open spec fn product(s: Seq<Seq<usize>>, n: nat, word: Seq<Letter>) -> Seq<usize>
    decreases word.len(),
{
    if word.len() == 0 {
        identity(n)
    } else {
        compose(product(s, n, word.drop_last()), letter_value(s, word.last()))
    }
}

/// `x` is a product of members of `s` and their inverses.
pub open spec fn generated(s: Seq<Seq<usize>>, n: nat, x: Seq<usize>) -> bool {
    exists|word: Seq<Letter>| valid_word(s, word) && x == #[trigger] product(s, n, word)
}

/// The group that `s` generates on `n` points.
pub open spec fn group(s: Seq<Seq<usize>>, n: nat) -> Set<Seq<usize>> {
    Set::new(|x: Seq<usize>| generated(s, n, x))
}

/// Every member of `t` is generated by `s`.
pub open spec fn all_generated(s: Seq<Seq<usize>>, n: nat, t: Seq<Seq<usize>>) -> bool {
    forall|i: int| 0 <= i < t.len() ==> generated(s, n, #[trigger] t[i])
}

/// `x` fixes every point below `k`.
pub open spec fn fixes_below(x: Seq<usize>, k: nat) -> bool {
    forall|i: int| 0 <= i < k ==> #[trigger] x[i] == i
}

/// Every member of `s` fixes every point below `k`.
pub open spec fn all_fix_below(s: Seq<Seq<usize>>, k: nat) -> bool {
    forall|i: int| 0 <= i < s.len() ==> fixes_below(#[trigger] s[i], k)
}

/// Every member of `s` fixes the point `w`.
pub open spec fn all_fix_point(s: Seq<Seq<usize>>, w: int) -> bool {
    forall|i: int| 0 <= i < s.len() ==> (#[trigger] s[i])[w] == w
}

/// `good` picks out a subgroup of the permutations of `n` points: it holds
/// of the identity, only of permutations of `n` points, and is kept by
/// composition and inversion.
pub open spec fn is_subgroup(good: spec_fn(Seq<usize>) -> bool, n: nat) -> bool {
    &&& n <= usize::MAX
    &&& good(identity(n))
    &&& forall|a: Seq<usize>| #[trigger] good(a) ==> is_permutation(a) && a.len() == n
    &&& forall|a: Seq<usize>, b: Seq<usize>| good(a) && good(b) ==> #[trigger] good(compose(a, b))
    &&& forall|a: Seq<usize>| good(a) ==> #[trigger] good(inverse(a))
}

/// `good` holds of every member of `s`.
pub open spec fn all_good(good: spec_fn(Seq<usize>) -> bool, s: Seq<Seq<usize>>) -> bool {
    forall|i: int| 0 <= i < s.len() ==> good(#[trigger] s[i])
}

/// The group that `s` generates, as a predicate.
pub open spec fn generated_by(s: Seq<Seq<usize>>, n: nat) -> spec_fn(Seq<usize>) -> bool {
    |x: Seq<usize>| generated(s, n, x)
}

/// The permutations of `n` points that fix every point below `k`, as a
/// predicate.
pub open spec fn fixing_below(n: nat, k: nat) -> spec_fn(Seq<usize>) -> bool {
    |x: Seq<usize>| is_permutation(x) && x.len() == n && fixes_below(x, k)
}

/// The permutations of `n` points that fix the point `w`, as a predicate.
pub open spec fn fixing_point(n: nat, w: int) -> spec_fn(Seq<usize>) -> bool {
    |x: Seq<usize>| is_permutation(x) && x.len() == n && x[w] == w
}

/// A letter over permutations of `n` points is a permutation of `n` points.
pub proof fn lemma_letter_is_permutation(s: Seq<Seq<usize>>, n: nat, l: Letter)
    requires
        uniform(s, n),
        0 <= l.index < s.len(),
    ensures
        is_permutation(letter_value(s, l)),
        letter_value(s, l).len() == n,
{
    assert(is_permutation(s[l.index]));
    lemma_inverse_properties(s[l.index]);
}

/// A word without its last letter is still valid.
pub proof fn lemma_valid_word_front(s: Seq<Seq<usize>>, word: Seq<Letter>)
    requires
        valid_word(s, word),
        word.len() > 0,
    ensures
        valid_word(s, word.drop_last()),
        0 <= word.last().index < s.len(),
{
    assert forall|k: int| 0 <= k < word.drop_last().len() implies 0 <= (
    #[trigger] word.drop_last()[k]).index < s.len() by {
        assert(word.drop_last()[k] == word[k]);
    }
    assert(word[word.len() - 1] == word.last());
}

/// Two valid words joined are a valid word.
pub proof fn lemma_valid_word_concat(s: Seq<Seq<usize>>, a: Seq<Letter>, b: Seq<Letter>)
    requires
        valid_word(s, a),
        valid_word(s, b),
    ensures
        valid_word(s, a + b),
{
    assert forall|k: int| 0 <= k < (a + b).len() implies 0 <= (#[trigger] (a + b)[k]).index
        < s.len() by {
        if k < a.len() {
            assert((a + b)[k] == a[k]);
        } else {
            assert((a + b)[k] == b[k - a.len()]);
        }
    }
}

/// A product of permutations of `n` points is a permutation of `n` points.
pub proof fn lemma_product_is_permutation(s: Seq<Seq<usize>>, n: nat, word: Seq<Letter>)
    requires
        uniform(s, n),
        n <= usize::MAX,
        valid_word(s, word),
    ensures
        is_permutation(product(s, n, word)),
        product(s, n, word).len() == n,
    decreases word.len(),
{
    if word.len() == 0 {
        lemma_identity_is_permutation(n);
    } else {
        lemma_valid_word_front(s, word);
        lemma_product_is_permutation(s, n, word.drop_last());
        lemma_letter_is_permutation(s, n, word.last());
        lemma_compose_is_permutation(product(s, n, word.drop_last()), letter_value(s, word.last()));
    }
}

/// What `s` generates is a permutation of `n` points.
pub proof fn lemma_generated_is_permutation(s: Seq<Seq<usize>>, n: nat, x: Seq<usize>)
    requires
        uniform(s, n),
        n <= usize::MAX,
        generated(s, n, x),
    ensures
        is_permutation(x),
        x.len() == n,
{
    let word = choose|word: Seq<Letter>| valid_word(s, word) && x == #[trigger] product(s, n, word);
    lemma_product_is_permutation(s, n, word);
}

/// The product of two words joined is the product of the first followed by
/// the product of the second.
pub proof fn lemma_product_concat(s: Seq<Seq<usize>>, n: nat, a: Seq<Letter>, b: Seq<Letter>)
    requires
        uniform(s, n),
        n <= usize::MAX,
        valid_word(s, a),
        valid_word(s, b),
    ensures
        product(s, n, a + b) == compose(product(s, n, a), product(s, n, b)),
    decreases b.len(),
{
    lemma_product_is_permutation(s, n, a);
    if b.len() == 0 {
        assert(a + b =~= a);
        lemma_compose_identity(product(s, n, a));
    } else {
        assert((a + b).drop_last() =~= a + b.drop_last());
        assert((a + b).last() == b.last());
        lemma_valid_word_front(s, b);
        lemma_product_concat(s, n, a, b.drop_last());
        lemma_product_is_permutation(s, n, b.drop_last());
        lemma_compose_associative(
            product(s, n, a),
            product(s, n, b.drop_last()),
            letter_value(s, b.last()),
        );
    }
}

/// The identity is generated by anything.
pub proof fn lemma_generated_identity(s: Seq<Seq<usize>>, n: nat)
    ensures
        generated(s, n, identity(n)),
{
    let word = Seq::<Letter>::empty();
    assert(valid_word(s, word) && identity(n) == product(s, n, word));
}

/// Each member of `s`, and its inverse, is generated by `s`.
pub proof fn lemma_generated_member(s: Seq<Seq<usize>>, n: nat, i: int)
    requires
        uniform(s, n),
        0 <= i < s.len(),
    ensures
        generated(s, n, s[i]),
        generated(s, n, inverse(s[i])),
{
    assert(is_permutation(s[i]));
    lemma_inverse_properties(s[i]);
    let plain = seq![Letter { index: i, inverted: false }];
    let flipped = seq![Letter { index: i, inverted: true }];
    assert(plain.drop_last() =~= Seq::<Letter>::empty());
    assert(flipped.drop_last() =~= Seq::<Letter>::empty());
    assert(product(s, n, plain.drop_last()) == identity(n));
    assert(product(s, n, flipped.drop_last()) == identity(n));
    lemma_compose_identity(s[i]);
    lemma_compose_identity(inverse(s[i]));
    assert(valid_word(s, plain) && s[i] == product(s, n, plain));
    assert(valid_word(s, flipped) && inverse(s[i]) == product(s, n, flipped));
}

/// What `s` generates is closed under composition.
pub proof fn lemma_generated_compose(s: Seq<Seq<usize>>, n: nat, x: Seq<usize>, y: Seq<usize>)
    requires
        uniform(s, n),
        n <= usize::MAX,
        generated(s, n, x),
        generated(s, n, y),
    ensures
        generated(s, n, compose(x, y)),
{
    let a = choose|word: Seq<Letter>| valid_word(s, word) && x == #[trigger] product(s, n, word);
    let b = choose|word: Seq<Letter>| valid_word(s, word) && y == #[trigger] product(s, n, word);
    lemma_valid_word_concat(s, a, b);
    lemma_product_concat(s, n, a, b);
    assert(valid_word(s, a + b) && compose(x, y) == product(s, n, a + b));
}

/// The inverse of a product is generated.
proof fn lemma_product_inverse(s: Seq<Seq<usize>>, n: nat, word: Seq<Letter>)
    requires
        uniform(s, n),
        n <= usize::MAX,
        valid_word(s, word),
    ensures
        generated(s, n, inverse(product(s, n, word))),
    decreases word.len(),
{
    if word.len() == 0 {
        lemma_identity_is_permutation(n);
        lemma_compose_identity(identity(n));
        lemma_compose_inverse(identity(n));
        lemma_inverse_properties(identity(n));
        lemma_compose_identity(inverse(identity(n)));
        assert(inverse(identity(n)) == identity(n));
        lemma_generated_identity(s, n);
    } else {
        let front = product(s, n, word.drop_last());
        let l = word.last();
        lemma_valid_word_front(s, word);
        lemma_product_is_permutation(s, n, word.drop_last());
        lemma_letter_is_permutation(s, n, l);
        lemma_product_inverse(s, n, word.drop_last());
        lemma_inverse_of_compose(front, letter_value(s, l));
        lemma_generated_member(s, n, l.index);
        assert(is_permutation(s[l.index]));
        lemma_inverse_involution(s[l.index]);
        assert(generated(s, n, inverse(letter_value(s, l))));
        lemma_generated_compose(s, n, inverse(letter_value(s, l)), inverse(front));
    }
}

/// What `s` generates is closed under inversion.
pub proof fn lemma_generated_inverse(s: Seq<Seq<usize>>, n: nat, x: Seq<usize>)
    requires
        uniform(s, n),
        n <= usize::MAX,
        generated(s, n, x),
    ensures
        generated(s, n, inverse(x)),
{
    let word = choose|word: Seq<Letter>| valid_word(s, word) && x == #[trigger] product(s, n, word);
    lemma_product_inverse(s, n, word);
}

/// A product of permutations that `s` generates is generated by `s`.
proof fn lemma_product_generated(
    s: Seq<Seq<usize>>,
    n: nat,
    t: Seq<Seq<usize>>,
    word: Seq<Letter>,
)
    requires
        uniform(s, n),
        n <= usize::MAX,
        all_generated(s, n, t),
        valid_word(t, word),
    ensures
        generated(s, n, product(t, n, word)),
    decreases word.len(),
{
    if word.len() == 0 {
        lemma_generated_identity(s, n);
    } else {
        let l = word.last();
        lemma_valid_word_front(t, word);
        lemma_product_generated(s, n, t, word.drop_last());
        assert(generated(s, n, t[l.index]));
        lemma_generated_inverse(s, n, t[l.index]);
        lemma_generated_compose(s, n, product(t, n, word.drop_last()), letter_value(t, l));
    }
}

/// What is generated by permutations that `s` generates is generated by `s`.
pub proof fn lemma_generated_transitive(
    s: Seq<Seq<usize>>,
    n: nat,
    t: Seq<Seq<usize>>,
    x: Seq<usize>,
)
    requires
        uniform(s, n),
        n <= usize::MAX,
        all_generated(s, n, t),
        generated(t, n, x),
    ensures
        generated(s, n, x),
{
    let word = choose|word: Seq<Letter>| valid_word(t, word) && x == #[trigger] product(t, n, word);
    lemma_product_generated(s, n, t, word);
}

/// A composition fixes the points that both factors fix.
pub proof fn lemma_fixes_compose(a: Seq<usize>, b: Seq<usize>, k: nat)
    requires
        a.len() == b.len(),
        k <= a.len(),
        fixes_below(a, k),
        fixes_below(b, k),
    ensures
        fixes_below(compose(a, b), k),
{
    assert forall|i: int| 0 <= i < k implies #[trigger] compose(a, b)[i] == i by {
        assert(a[i] == i);
        assert(b[i] == i);
    }
}

/// An inverse fixes the points that the permutation fixes.
pub proof fn lemma_fixes_inverse(a: Seq<usize>, k: nat)
    requires
        is_permutation(a),
        k <= a.len(),
        fixes_below(a, k),
    ensures
        fixes_below(inverse(a), k),
{
    lemma_inverse_properties(a);
    assert forall|i: int| 0 <= i < k implies #[trigger] inverse(a)[i] == i by {
        assert(a[i] == i);
        assert(inverse(a)[a[i] as int] == i);
    }
}

/// What `s` generates is a subgroup.
pub proof fn lemma_generated_is_subgroup(s: Seq<Seq<usize>>, n: nat)
    requires
        uniform(s, n),
        n <= usize::MAX,
    ensures
        is_subgroup(generated_by(s, n), n),
        all_good(generated_by(s, n), s),
{
    let good = generated_by(s, n);
    lemma_generated_identity(s, n);
    assert forall|a: Seq<usize>| #[trigger] good(a) implies is_permutation(a) && a.len() == n by {
        lemma_generated_is_permutation(s, n, a);
    }
    assert forall|a: Seq<usize>, b: Seq<usize>| good(a) && good(b) implies #[trigger] good(
        compose(a, b),
    ) by {
        lemma_generated_compose(s, n, a, b);
    }
    assert forall|a: Seq<usize>| good(a) implies #[trigger] good(inverse(a)) by {
        lemma_generated_inverse(s, n, a);
    }
    assert forall|i: int| 0 <= i < s.len() implies good(#[trigger] s[i]) by {
        lemma_generated_member(s, n, i);
    }
}

/// The permutations that fix every point below `k` are a subgroup.
pub proof fn lemma_fixing_is_subgroup(n: nat, k: nat)
    requires
        k <= n <= usize::MAX,
    ensures
        is_subgroup(fixing_below(n, k), n),
{
    let good = fixing_below(n, k);
    lemma_identity_is_permutation(n);
    assert forall|a: Seq<usize>, b: Seq<usize>| good(a) && good(b) implies #[trigger] good(
        compose(a, b),
    ) by {
        lemma_compose_is_permutation(a, b);
        lemma_fixes_compose(a, b, k);
    }
    assert forall|a: Seq<usize>| good(a) implies #[trigger] good(inverse(a)) by {
        lemma_inverse_properties(a);
        lemma_fixes_inverse(a, k);
    }
}

/// Every member of a list of good permutations is a permutation of the `n`
/// points.
pub proof fn lemma_good_uniform(good: spec_fn(Seq<usize>) -> bool, n: nat, s: Seq<Seq<usize>>)
    requires
        is_subgroup(good, n),
        all_good(good, s),
    ensures
        uniform(s, n),
{
    assert forall|i: int| 0 <= i < s.len() implies is_permutation(#[trigger] s[i]) && s[i].len()
        == n by {
        assert(good(s[i]));
    }
}

/// A product of members of a subgroup lies in the subgroup.
proof fn lemma_product_good(
    t: Seq<Seq<usize>>,
    n: nat,
    word: Seq<Letter>,
    good: spec_fn(Seq<usize>) -> bool,
)
    requires
        is_subgroup(good, n),
        all_good(good, t),
        valid_word(t, word),
    ensures
        good(product(t, n, word)),
    decreases word.len(),
{
    if word.len() > 0 {
        let l = word.last();
        lemma_valid_word_front(t, word);
        lemma_product_good(t, n, word.drop_last(), good);
        assert(good(t[l.index]));
        assert(good(inverse(t[l.index])));
        assert(good(compose(product(t, n, word.drop_last()), letter_value(t, l))));
    }
}

/// What members of a subgroup generate lies in the subgroup.
pub proof fn lemma_generated_good(
    t: Seq<Seq<usize>>,
    n: nat,
    x: Seq<usize>,
    good: spec_fn(Seq<usize>) -> bool,
)
    requires
        is_subgroup(good, n),
        all_good(good, t),
        generated(t, n, x),
    ensures
        good(x),
{
    let word = choose|word: Seq<Letter>| valid_word(t, word) && x == #[trigger] product(t, n, word);
    lemma_product_good(t, n, word, good);
}

/// The permutations that fix the point `w` are a subgroup.
pub proof fn lemma_fixing_point_is_subgroup(n: nat, w: int)
    requires
        0 <= w < n <= usize::MAX,
    ensures
        is_subgroup(fixing_point(n, w), n),
{
    let good = fixing_point(n, w);
    lemma_identity_is_permutation(n);
    assert forall|a: Seq<usize>, b: Seq<usize>| good(a) && good(b) implies #[trigger] good(
        compose(a, b),
    ) by {
        lemma_compose_is_permutation(a, b);
    }
    assert forall|a: Seq<usize>| good(a) implies #[trigger] good(inverse(a)) by {
        lemma_inverse_properties(a);
        assert(inverse(a)[a[w] as int] == w);
    }
}

/// Nothing but the identity is generated by the empty list.
pub proof fn lemma_group_of_nothing(n: nat)
    ensures
        group(Seq::<Seq<usize>>::empty(), n) =~= set![identity(n)],
{
    let none = Seq::<Seq<usize>>::empty();
    lemma_generated_identity(none, n);
    assert forall|x: Seq<usize>| generated(none, n, x) implies x == identity(n) by {
        let word = choose|word: Seq<Letter>|
            valid_word(none, word) && x == #[trigger] product(none, n, word);
        if word.len() > 0 {
            assert(0 <= word[0].index < none.len());
        }
    }
}

/// A list generates each of its members, and still does when it grows by
/// one.
pub proof fn lemma_generated_push(t: Seq<Seq<usize>>, n: nat, r: Seq<usize>, x: Seq<usize>)
    requires
        uniform(t, n),
        n <= usize::MAX,
        is_permutation(r),
        r.len() == n,
        generated(t, n, x),
    ensures
        uniform(t.push(r), n),
        generated(t.push(r), n, x),
        generated(t.push(r), n, r),
{
    let more = t.push(r);
    lemma_uniform_push(t, n, r);
    assert forall|i: int| 0 <= i < t.len() implies generated(more, n, #[trigger] t[i]) by {
        assert(more[i] == t[i]);
        lemma_generated_member(more, n, i);
    }
    lemma_generated_transitive(more, n, t, x);
    lemma_generated_member(more, n, t.len() as int);
}

} // verus!
