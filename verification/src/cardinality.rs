//! How many strings a schema produces.

use crate::charset::{members, members_len};
use crate::count::{count_limit, wide_add, wide_mul, Count};
use crate::error::Failure;
use crate::radix::{
    lemma_power_next, lemma_product_next, lemma_sum_monotone, lemma_sum_next, lemma_take_all,
    power, product, sum,
};
use crate::schema::{models, Node, Schema};
use crate::words::Words;
use vstd::pervasive::unreached;
use vstd::prelude::*;

verus! {

/// The sizes of the given schemas, in their order.
pub open spec fn sizes(parts: Seq<Schema>, words: Seq<Seq<char>>) -> Seq<nat>
    decreases parts,
{
    Seq::new(
        parts.len(),
        |i: int|
            if 0 <= i < parts.len() {
                size_of(parts[i], words)
            } else {
                0
            },
    )
}

/// The powers of `base` with the exponents from `min` to `max`, in ascending order.
pub open spec fn powers(base: nat, min: nat, max: nat) -> Seq<nat> {
    Seq::new(
        if min <= max {
            (max - min + 1) as nat
        } else {
            0
        },
        |j: int| power(base, (min + j) as nat),
    )
}

/// The number of strings that a schema produces, each way of producing a
/// string counted once.
///
/// A literal counts one, a class its members, a word class the words. The
/// parts of a concatenation multiply, the branches of an alternation add up,
/// and a repetition adds up the powers of its part's size, one for each
/// number of repetitions.
pub open spec fn size_of(schema: Schema, words: Seq<Seq<char>>) -> nat
    decreases schema,
{
    match schema {
        Schema::Literal(_) => 1,
        Schema::CharClass { chars, negated } => members(chars, negated).len(),
        Schema::WordClass(_) => words.len(),
        Schema::Concat(parts) => product(sizes(parts, words)),
        Schema::Alternate(branches) => sum(sizes(branches, words)),
        Schema::Repeat(part, min, max) => sum(powers(size_of(*part, words), min, max)),
    }
}

/// Whether every product of the first so many sizes is below two to the power 256.
pub open spec fn products_fit(sizes: Seq<nat>) -> bool {
    forall|k: int| 0 <= k <= sizes.len() ==> #[trigger] product(sizes.take(k)) < count_limit()
}

/// Whether every power of `base` with an exponent up to `max` is below two
/// to the power 256.
pub open spec fn powers_fit(base: nat, max: nat) -> bool {
    forall|k: nat| k <= max ==> #[trigger] power(base, k) < count_limit()
}

/// Whether each of the given schemas is bounded.
pub open spec fn each_bounded(parts: Seq<Schema>, words: Seq<Seq<char>>) -> bool
    decreases parts,
{
    forall|i: int| 0 <= i < parts.len() ==> bounded(#[trigger] parts[i], words)
}

/// Whether the size of a schema can be computed in 256 bits: the sizes of all
/// its parts, and every product, power and sum on the way from them to its
/// own size, are below two to the power 256.
pub open spec fn bounded(schema: Schema, words: Seq<Seq<char>>) -> bool
    decreases schema,
{
    match schema {
        Schema::Literal(_) => true,
        Schema::CharClass { chars, negated } => members(chars, negated).len() < count_limit(),
        Schema::WordClass(_) => words.len() < count_limit(),
        Schema::Concat(parts) => each_bounded(parts, words) && products_fit(sizes(parts, words)),
        Schema::Alternate(branches) => each_bounded(branches, words) && sum(
            sizes(branches, words),
        ) < count_limit(),
        Schema::Repeat(part, min, max) => {
            let base = size_of(*part, words);
            &&& bounded(*part, words)
            &&& min <= max ==> powers_fit(base, max) && sum(powers(base, min, max)) < count_limit()
        },
    }
}

/// The size of a schema, where it is bounded.
///
/// The result is `Failure::SchemaTooLarge` exactly where a count on the way
/// needs more than 256 bits.
pub fn size(node: &Node, words: &Words) -> (r: Result<Count, Failure>)
    ensures
        r is Ok <==> bounded(node@, words@),
        r matches Ok(n) ==> n@ == size_of(node@, words@),
        r is Err ==> r == Err::<Count, Failure>(Failure::SchemaTooLarge),
    decreases node,
{
    match node {
        Node::Literal(_) => Ok(Count::one()),
        Node::CharClass { chars, negated } => Ok(Count::from_usize(members_len(chars, *negated))),
        Node::WordClass(_) => Ok(Count::from_usize(words.len())),
        Node::Concat(parts) => size_product(parts, words),
        Node::Alternate(branches) => size_sum(branches, words),
        Node::Repeat(part, min, max) => match size(part, words) {
            Ok(base) => size_repeat(&base, *min, *max),
            Err(e) => Err(e),
        },
    }
}

/// The size of a bounded schema.
pub(crate) fn size_bounded(node: &Node, words: &Words) -> (r: Count)
    requires
        bounded(node@, words@),
    ensures
        r@ == size_of(node@, words@),
{
    match size(node, words) {
        Ok(total) => total,
        Err(_) => unreached(),
    }
}

/// The product of the sizes of the parts of a concatenation.
fn size_product(parts: &Vec<Node>, words: &Words) -> (r: Result<Count, Failure>)
    ensures
        r is Ok <==> each_bounded(models(parts@), words@) && products_fit(
            sizes(models(parts@), words@),
        ),
        r matches Ok(n) ==> n@ == product(sizes(models(parts@), words@)),
        r is Err ==> r == Err::<Count, Failure>(Failure::SchemaTooLarge),
    decreases parts,
{
    let ghost schemas = models(parts@);
    let ghost radices = sizes(schemas, words@);
    let mut acc = Count::one();
    let mut i: usize = 0;
    proof {
        lemma_take_all(radices);
    }
    while i < parts.len()
        invariant
            i <= parts.len(),
            schemas == models(parts@),
            radices == sizes(schemas, words@),
            radices.len() == parts.len(),
            acc@ == product(radices.take(i as int)),
            forall|j: int| 0 <= j < i ==> bounded(#[trigger] schemas[j], words@),
            forall|k: int| 0 <= k <= i ==> #[trigger] product(radices.take(k)) < count_limit(),
        decreases parts.len() - i,
    {
        proof {
            lemma_product_next(radices, i as int);
        }
        match size(&parts[i], words) {
            Ok(part) => match wide_mul(&acc, &part) {
                Some(next) => {
                    acc = next;
                },
                None => {
                    return Err(Failure::SchemaTooLarge);
                },
            },
            Err(_) => {
                assert(!bounded(schemas[i as int], words@));
                return Err(Failure::SchemaTooLarge);
            },
        }
        i += 1;
    }
    Ok(acc)
}

/// The sum of the sizes of the branches of an alternation.
fn size_sum(branches: &Vec<Node>, words: &Words) -> (r: Result<Count, Failure>)
    ensures
        r is Ok <==> each_bounded(models(branches@), words@) && sum(
            sizes(models(branches@), words@),
        ) < count_limit(),
        r matches Ok(n) ==> n@ == sum(sizes(models(branches@), words@)),
        r is Err ==> r == Err::<Count, Failure>(Failure::SchemaTooLarge),
    decreases branches,
{
    let ghost schemas = models(branches@);
    let ghost lengths = sizes(schemas, words@);
    let mut acc = Count::zero();
    let mut i: usize = 0;
    proof {
        lemma_take_all(lengths);
    }
    while i < branches.len()
        invariant
            i <= branches.len(),
            schemas == models(branches@),
            lengths == sizes(schemas, words@),
            lengths.len() == branches.len(),
            acc@ == sum(lengths.take(i as int)),
            forall|j: int| 0 <= j < i ==> bounded(#[trigger] schemas[j], words@),
        decreases branches.len() - i,
    {
        proof {
            lemma_sum_next(lengths, i as int);
            lemma_sum_monotone(lengths, i + 1, lengths.len() as int);
            lemma_take_all(lengths);
        }
        match size(&branches[i], words) {
            Ok(branch) => match wide_add(&acc, &branch) {
                Some(next) => {
                    acc = next;
                },
                None => {
                    return Err(Failure::SchemaTooLarge);
                },
            },
            Err(_) => {
                assert(!bounded(schemas[i as int], words@));
                return Err(Failure::SchemaTooLarge);
            },
        }
        i += 1;
    }
    proof {
        lemma_take_all(lengths);
        acc.lemma_view();
    }
    Ok(acc)
}

/// The sum of the powers of `base` with the exponents from `min` to `max`.
fn size_repeat(base: &Count, min: u32, max: u32) -> (r: Result<Count, Failure>)
    ensures
        r is Ok <==> (min <= max ==> powers_fit(base@, max as nat) && sum(
            powers(base@, min as nat, max as nat),
        ) < count_limit()),
        r matches Ok(n) ==> n@ == sum(powers(base@, min as nat, max as nat)),
        r is Err ==> r == Err::<Count, Failure>(Failure::SchemaTooLarge),
{
    if min > max {
        return Ok(Count::zero());
    }
    let ghost terms = powers(base@, min as nat, max as nat);
    let mut factor = Count::one();
    let mut k: u32 = 0;
    proof {
        lemma_power_next(base@, 0);
    }
    while k < min
        invariant
            k <= min <= max,
            factor@ == power(base@, k as nat),
            forall|j: nat| j <= k ==> #[trigger] power(base@, j) < count_limit(),
        decreases min - k,
    {
        proof {
            lemma_power_next(base@, k as nat);
        }
        match wide_mul(&factor, base) {
            Some(next) => {
                factor = next;
            },
            None => {
                assert(power(base@, (k + 1) as nat) >= count_limit());
                return Err(Failure::SchemaTooLarge);
            },
        }
        k += 1;
    }
    let mut total = Count::zero();
    proof {
        lemma_take_all(terms);
    }
    loop
        invariant
            min <= k <= max,
            terms == powers(base@, min as nat, max as nat),
            factor@ == power(base@, k as nat),
            total@ == sum(terms.take(k - min)),
            forall|j: nat| j <= k ==> #[trigger] power(base@, j) < count_limit(),
        decreases max - k,
    {
        proof {
            lemma_sum_next(terms, k - min);
            lemma_sum_monotone(terms, k - min + 1, terms.len() as int);
            lemma_take_all(terms);
            lemma_power_next(base@, k as nat);
        }
        match wide_add(&total, &factor) {
            Some(next) => {
                total = next;
            },
            None => {
                return Err(Failure::SchemaTooLarge);
            },
        }
        if k == max {
            return Ok(total);
        }
        match wide_mul(&factor, base) {
            Some(next) => {
                factor = next;
            },
            None => {
                assert(power(base@, (k + 1) as nat) >= count_limit());
                return Err(Failure::SchemaTooLarge);
            },
        }
        k += 1;
    }
}

} // verus!
