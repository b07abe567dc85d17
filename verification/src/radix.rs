//! Sums, products, branches and mixed-radix digits over sequences of sizes.
//!
//! An alternation splits the indices below the sum of its branch sizes into
//! consecutive ranges, one per branch. A concatenation reads an index below the
//! product of its part sizes as a number in the mixed-radix system whose
//! radices are those sizes, the last part varying fastest.

use vstd::arithmetic::div_mod::{
    lemma_div_denominator, lemma_div_pos_is_pos, lemma_fundamental_div_mod,
    lemma_fundamental_div_mod_converse, lemma_mod_bound,
};
use vstd::arithmetic::mul::{lemma_mul_is_associative, lemma_mul_is_commutative};
use vstd::prelude::*;

verus! {

/// The sum of the sizes.
pub open spec fn sum(sizes: Seq<nat>) -> nat
    decreases sizes.len(),
{
    if sizes.len() == 0 {
        0
    } else {
        sum(sizes.drop_last()) + sizes.last()
    }
}

/// The product of the sizes.
pub open spec fn product(sizes: Seq<nat>) -> nat
    decreases sizes.len(),
{
    if sizes.len() == 0 {
        1
    } else {
        product(sizes.drop_last()) * sizes.last()
    }
}

/// A sequence of `k` sizes, each of them `size`.
pub open spec fn copies(size: nat, k: nat) -> Seq<nat> {
    Seq::new(k, |i: int| size)
}

/// `base` to the power `k`: the product of `k` factors `base`.
pub open spec fn power(base: nat, k: nat) -> nat {
    product(copies(base, k))
}

/// The branch whose range holds `index`: the ranges follow one another in the
/// order of the branches, and the range of a branch is as long as its size.
pub open spec fn branch(sizes: Seq<nat>, index: nat) -> int
    decreases sizes.len(),
{
    if sizes.len() == 0 {
        0
    } else if index >= sum(sizes.drop_last()) {
        sizes.len() - 1
    } else {
        branch(sizes.drop_last(), index)
    }
}

/// Where the range of branch `b` starts: the sum of the sizes before it.
pub open spec fn offset(sizes: Seq<nat>, b: int) -> nat {
    sum(sizes.take(b))
}

/// The digit of `index` at position `i`, in the mixed-radix system whose
/// radices are `sizes`; the last position varies fastest.
pub open spec fn digit(sizes: Seq<nat>, index: nat, i: int) -> nat {
    (index / product(sizes.skip(i + 1))) % sizes[i]
}

/// The sum of the first `i + 1` sizes is the sum of the first `i` and the next.
pub proof fn lemma_sum_next(sizes: Seq<nat>, i: int)
    requires
        0 <= i < sizes.len(),
    ensures
        sum(sizes.take(i + 1)) == sum(sizes.take(i)) + sizes[i],
{
    assert(sizes.take(i + 1).drop_last() =~= sizes.take(i));
}

/// The product of the first `i + 1` sizes is the product of the first `i` and the next.
pub proof fn lemma_product_next(sizes: Seq<nat>, i: int)
    requires
        0 <= i < sizes.len(),
    ensures
        product(sizes.take(i + 1)) == product(sizes.take(i)) * sizes[i],
{
    assert(sizes.take(i + 1).drop_last() =~= sizes.take(i));
}

/// The sum of a prefix is at most the sum of a longer prefix.
pub proof fn lemma_sum_monotone(sizes: Seq<nat>, i: int, j: int)
    requires
        0 <= i <= j <= sizes.len(),
    ensures
        sum(sizes.take(i)) <= sum(sizes.take(j)),
    decreases j - i,
{
    if i < j {
        lemma_sum_monotone(sizes, i, j - 1);
        lemma_sum_next(sizes, j - 1);
    }
}

/// The sum of all sizes is the sum of the prefix that holds them all.
pub proof fn lemma_take_all(sizes: Seq<nat>)
    ensures
        sizes.take(sizes.len() as int) == sizes,
        sum(sizes.take(0)) == 0,
        product(sizes.take(0)) == 1,
{
    assert(sizes.take(sizes.len() as int) =~= sizes);
}

/// The power with exponent zero is one, and each further factor multiplies.
pub proof fn lemma_power_next(base: nat, k: nat)
    ensures
        power(base, 0) == 1,
        power(base, k + 1) == power(base, k) * base,
{
    assert(copies(base, k + 1).drop_last() =~= copies(base, k));
}

/// A product is positive exactly where every factor is.
pub proof fn lemma_product_positive(sizes: Seq<nat>)
    ensures
        product(sizes) > 0 <==> forall|i: int| 0 <= i < sizes.len() ==> sizes[i] > 0,
    decreases sizes.len(),
{
    if sizes.len() > 0 {
        let front = sizes.drop_last();
        lemma_product_positive(front);
        assert(product(front) * sizes.last() > 0 <==> product(front) > 0 && sizes.last() > 0)
            by (nonlinear_arith);
        if product(sizes) > 0 {
            assert forall|i: int| 0 <= i < sizes.len() implies sizes[i] > 0 by {
                if i < front.len() {
                    assert(front[i] == sizes[i]);
                }
            }
        } else {
            if forall|i: int| 0 <= i < sizes.len() ==> sizes[i] > 0 {
                assert forall|i: int| 0 <= i < front.len() implies front[i] > 0 by {
                    assert(front[i] == sizes[i]);
                }
                assert(false);
            }
        }
    }
}

/// The product of the sizes from position `i` on is the size at `i` times
/// the product of those after it.
pub proof fn lemma_product_skip(sizes: Seq<nat>, i: int)
    requires
        0 <= i < sizes.len(),
    ensures
        product(sizes.skip(i)) == sizes[i] * product(sizes.skip(i + 1)),
    decreases sizes.len(),
{
    let tail = sizes.skip(i);
    let next = sizes.skip(i + 1);
    if i == sizes.len() - 1 {
        assert(tail.drop_last() =~= Seq::<nat>::empty());
        assert(next =~= Seq::<nat>::empty());
        assert(product(tail) == 1 * sizes[i]);
    } else {
        let front = sizes.drop_last();
        lemma_product_skip(front, i);
        assert(tail.drop_last() =~= front.skip(i));
        assert(next.drop_last() =~= front.skip(i + 1));
        assert(tail.last() == sizes.last());
        assert(next.last() == sizes.last());
        lemma_mul_is_associative(
            sizes[i] as int,
            product(front.skip(i + 1)) as int,
            sizes.last() as int,
        );
    }
}

/// Every digit of an index is below its radix, where the radix is not zero.
pub proof fn lemma_digit_bound(sizes: Seq<nat>, index: nat, i: int)
    requires
        0 <= i < sizes.len(),
        sizes[i] > 0,
    ensures
        digit(sizes, index, i) < sizes[i],
{
    lemma_mod_bound((index / product(sizes.skip(i + 1))) as int, sizes[i] as int);
}

/// What is left of an index above position `i` is what was left above
/// position `i + 1`, divided by the radix at `i`.
pub proof fn lemma_digit_step(sizes: Seq<nat>, index: nat, i: int)
    requires
        0 <= i < sizes.len(),
        product(sizes) > 0,
    ensures
        product(sizes.skip(i + 1)) > 0,
        index / product(sizes.skip(i)) == (index / product(sizes.skip(i + 1))) / sizes[i],
{
    lemma_product_positive(sizes);
    let next = sizes.skip(i + 1);
    assert forall|j: int| 0 <= j < next.len() implies next[j] > 0 by {
        assert(next[j] == sizes[i + 1 + j]);
    }
    lemma_product_positive(next);
    lemma_product_skip(sizes, i);
    lemma_div_denominator(index as int, product(next) as int, sizes[i] as int);
    lemma_mul_is_commutative(product(next) as int, sizes[i] as int);
}

/// The branch of an index is the one whose range holds it.
pub proof fn lemma_branch_found(sizes: Seq<nat>, index: nat, b: int)
    requires
        0 <= b < sizes.len(),
        offset(sizes, b) <= index < offset(sizes, b + 1),
    ensures
        branch(sizes, index) == b,
    decreases sizes.len(),
{
    let front = sizes.drop_last();
    if b == sizes.len() - 1 {
        assert(sizes.take(b) =~= front);
    } else {
        assert(front.take(b) =~= sizes.take(b));
        assert(front.take(b + 1) =~= sizes.take(b + 1));
        lemma_sum_monotone(front, b + 1, front.len() as int);
        lemma_take_all(front);
        lemma_branch_found(front, index, b);
    }
}

/// The digits of `index` at all positions.
pub open spec fn digits(sizes: Seq<nat>, index: nat) -> Seq<nat> {
    Seq::new(sizes.len(), |i: int| digit(sizes, index, i))
}

/// Whether `digits` holds one digit for each radix, each below its radix.
pub open spec fn digits_valid(sizes: Seq<nat>, digits: Seq<nat>) -> bool {
    digits.len() == sizes.len() && forall|i: int| 0 <= i < sizes.len() ==> digits[i] < sizes[i]
}

/// The index whose digits are the given ones.
pub open spec fn compose(sizes: Seq<nat>, digits: Seq<nat>) -> nat
    decreases sizes.len(),
{
    if sizes.len() == 0 || digits.len() != sizes.len() {
        0
    } else {
        compose(sizes.drop_last(), digits.drop_last()) * sizes.last() + digits.last()
    }
}

/// The product of the sizes after position `i` is, up to the last size, the
/// same product without the last size.
proof fn lemma_product_skip_last(sizes: Seq<nat>, i: int)
    requires
        0 <= i < sizes.len(),
    ensures
        product(sizes.skip(i)) == product(sizes.drop_last().skip(i)) * sizes.last(),
{
    assert(sizes.skip(i).drop_last() =~= sizes.drop_last().skip(i));
}

/// The digits of an index before the last position are the digits of the
/// index divided by the last radix.
proof fn lemma_digit_front(sizes: Seq<nat>, index: nat, i: int)
    requires
        0 <= i < sizes.len() - 1,
        product(sizes) > 0,
    ensures
        digit(sizes, index, i) == digit(sizes.drop_last(), index / sizes.last(), i),
{
    let front = sizes.drop_last();
    let last = sizes.last();
    lemma_product_positive(sizes);
    assert(last > 0);
    lemma_product_skip_last(sizes, i + 1);
    let rest = front.skip(i + 1);
    let inner = product(rest);
    assert forall|j: int| 0 <= j < rest.len() implies rest[j] > 0 by {
        assert(rest[j] == sizes[i + 1 + j]);
    }
    lemma_product_positive(rest);
    lemma_div_denominator(index as int, last as int, inner as int);
    lemma_mul_is_commutative(last as int, inner as int);
    lemma_div_pos_is_pos(index as int, last as int);
    assert(front[i] == sizes[i]);
}

/// The last digit of an index is its remainder by the last radix.
proof fn lemma_digit_last(sizes: Seq<nat>, index: nat)
    requires
        sizes.len() > 0,
    ensures
        digit(sizes, index, sizes.len() - 1) == index % sizes.last(),
{
    let after = sizes.skip(sizes.len() as int);
    assert(after =~= Seq::<nat>::empty());
    assert(product(after) == 1);
    assert(index / 1 == index);
    assert(sizes[sizes.len() - 1] == sizes.last());
}

/// The index with valid digits is below the product of the radices.
pub proof fn lemma_compose_bound(sizes: Seq<nat>, given: Seq<nat>)
    requires
        digits_valid(sizes, given),
    ensures
        compose(sizes, given) < product(sizes),
    decreases sizes.len(),
{
    if sizes.len() > 0 {
        let front = sizes.drop_last();
        lemma_compose_bound(front, given.drop_last());
        let high = compose(front, given.drop_last());
        let last = sizes.last();
        assert(given.last() < last);
        assert(high * last + given.last() < product(front) * last) by (nonlinear_arith)
            requires
                high < product(front),
                given.last() < last,
        ;
    }
}

/// The digits of the index with valid digits are those digits.
pub proof fn lemma_digits_of_compose(sizes: Seq<nat>, given: Seq<nat>)
    requires
        digits_valid(sizes, given),
    ensures
        digits(sizes, compose(sizes, given)) == given,
    decreases sizes.len(),
{
    let index = compose(sizes, given);
    if sizes.len() > 0 {
        let front = sizes.drop_last();
        let last = sizes.last();
        let high = compose(front, given.drop_last());
        lemma_compose_bound(sizes, given);
        lemma_digits_of_compose(front, given.drop_last());
        assert(given.last() < last);
        lemma_fundamental_div_mod_converse(index as int, last as int, high as int, given.last() as int);
        lemma_digit_last(sizes, index);
        assert forall|i: int| 0 <= i < sizes.len() implies digit(sizes, index, i) == given[i] by {
            if i < sizes.len() - 1 {
                lemma_digit_front(sizes, index, i);
                assert(digits(front, high)[i] == given.drop_last()[i]);
            }
        }
    }
    assert(digits(sizes, index) =~= given);
}

/// An index below the product of the radices is the index with its own digits.
pub proof fn lemma_compose_of_digits(sizes: Seq<nat>, index: nat)
    requires
        index < product(sizes),
    ensures
        digits_valid(sizes, digits(sizes, index)),
        compose(sizes, digits(sizes, index)) == index,
    decreases sizes.len(),
{
    lemma_product_positive(sizes);
    assert forall|i: int| 0 <= i < sizes.len() implies digits(sizes, index)[i] < sizes[i] by {
        lemma_digit_bound(sizes, index, i);
    }
    if sizes.len() > 0 {
        let front = sizes.drop_last();
        let last = sizes.last();
        let high = index / last;
        lemma_fundamental_div_mod(index as int, last as int);
        lemma_div_pos_is_pos(index as int, last as int);
        lemma_mul_is_commutative(last as int, high as int);
        assert(high < product(front)) by (nonlinear_arith)
            requires
                index < product(front) * last,
                index >= high * last,
                last > 0,
        ;
        lemma_compose_of_digits(front, high);
        lemma_digit_last(sizes, index);
        assert forall|i: int| 0 <= i < front.len() implies digits(sizes, index).drop_last()[i]
            == digits(front, high)[i] by {
            lemma_digit_front(sizes, index, i);
        }
        assert(digits(sizes, index).drop_last() =~= digits(front, high));
    }
}

/// The branch of an index below the sum of the sizes is a branch, and its
/// range holds the index.
pub proof fn lemma_branch_valid(sizes: Seq<nat>, index: nat)
    requires
        index < sum(sizes),
    ensures
        0 <= branch(sizes, index) < sizes.len(),
        offset(sizes, branch(sizes, index)) <= index < offset(sizes, branch(sizes, index) + 1),
        index - offset(sizes, branch(sizes, index)) < sizes[branch(sizes, index)],
    decreases sizes.len(),
{
    if sizes.len() > 0 {
        let front = sizes.drop_last();
        let b = branch(sizes, index);
        if index >= sum(front) {
            assert(sizes.take(b) =~= front);
            assert(sizes.take(b + 1) =~= sizes);
        } else {
            lemma_branch_valid(front, index);
            assert(front.take(b) =~= sizes.take(b));
            assert(front.take(b + 1) =~= sizes.take(b + 1));
        }
        lemma_sum_next(sizes, b);
    }
}

/// An index in the range of a branch is below the sum of the sizes.
pub proof fn lemma_offset_bound(sizes: Seq<nat>, b: int, inner: nat)
    requires
        0 <= b < sizes.len(),
        inner < sizes[b],
    ensures
        offset(sizes, b) + inner < offset(sizes, b + 1) <= sum(sizes),
{
    lemma_sum_next(sizes, b);
    lemma_sum_monotone(sizes, b + 1, sizes.len() as int);
    lemma_take_all(sizes);
}

} // verus!
