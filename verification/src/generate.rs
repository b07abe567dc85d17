//! Decoding an index into the string it stands for.

use crate::cardinality::{
    bounded, each_bounded, powers, powers_fit, products_fit, size, size_bounded, size_of, sizes,
};
use crate::charset::{lemma_members_len, member, members};
use crate::count::{count_limit, wide_div_rem, Count};
use crate::error::Failure;
use crate::language::{lemma_generated_produced, produces};
use crate::radix::{
    branch, copies, digit, lemma_branch_found, lemma_digit_bound, lemma_digit_step,
    lemma_power_next, lemma_product_positive, lemma_sum_monotone, lemma_sum_next, lemma_take_all,
    offset, power, product, sum,
};
use crate::schema::{models, Node, Schema};
use crate::words::{render, Words};
use vstd::prelude::*;

verus! {

/// The strings of the parts of a concatenation at `index`: part `i` is decoded
/// at the digit of `index` at position `i`, the radices being the sizes of the
/// parts.
pub open spec fn pieces(parts: Seq<Schema>, words: Seq<Seq<char>>, index: nat) -> Seq<Seq<char>>
    decreases parts, 1nat,
{
    Seq::new(
        parts.len(),
        |i: int|
            if 0 <= i < parts.len() {
                generate_at(parts[i], words, digit(sizes(parts, words), index, i))
            } else {
                Seq::empty()
            },
    )
}

/// The strings of `count` repetitions of a part at `index`: a concatenation of
/// `count` copies of the part.
pub open spec fn repeated(part: Schema, words: Seq<Seq<char>>, count: nat, index: nat) -> Seq<
    Seq<char>,
>
    decreases part, 1nat,
{
    Seq::new(
        count,
        |i: int| generate_at(part, words, digit(copies(size_of(part, words), count), index, i)),
    )
}

/// The string that `index` stands for in a schema, for an index below the
/// size of the schema.
///
/// A literal is its character; a class the member at the index; a word class
/// the word at the index, in its style. A concatenation joins the strings of
/// its parts, each at its own digit of the index. An alternation decodes the
/// branch whose range holds the index, at the index less the start of that
/// range. A repetition picks the number of repetitions as an alternation picks
/// a branch, and decodes that many copies of its part as a concatenation.
pub open spec fn generate_at(schema: Schema, words: Seq<Seq<char>>, index: nat) -> Seq<char>
    decreases schema, 0nat,
{
    match schema {
        Schema::Literal(c) => seq![c],
        Schema::CharClass { chars, negated } => seq![members(chars, negated)[index as int]],
        Schema::WordClass(style) => render(words[index as int], style),
        Schema::Concat(parts) => pieces(parts, words, index).flatten(),
        Schema::Alternate(branches) => {
            let lengths = sizes(branches, words);
            let b = branch(lengths, index);
            if 0 <= b < branches.len() {
                generate_at(branches[b], words, (index - offset(lengths, b)) as nat)
            } else {
                Seq::empty()
            }
        },
        Schema::Repeat(part, min, max) => {
            let terms = powers(size_of(*part, words), min, max);
            let j = branch(terms, index);
            repeated(*part, words, (min + j) as nat, (index - offset(terms, j)) as nat).flatten()
        },
    }
}

/// The values of a sequence of counts.
pub open spec fn values(counts: Seq<Count>) -> Seq<nat> {
    Seq::new(counts.len(), |i: int| counts[i]@)
}

/// The digits of `index` in the mixed-radix system with the given radices.
fn digits_of(radices: &Vec<Count>, index: Count) -> (digits: Vec<Count>)
    requires
        index@ < product(values(radices@)),
    ensures
        digits.len() == radices.len(),
        forall|j: int|
            0 <= j < digits.len() ==> (#[trigger] digits[j])@ == digit(
                values(radices@),
                index@,
                j,
            ),
{
    let n: usize = radices.len();
    let ghost bases = values(radices@);
    let mut digits: Vec<Count> = Vec::new();
    let mut filled: usize = 0;
    while filled < n
        invariant
            filled <= n,
            digits.len() == filled,
        decreases n - filled,
    {
        digits.push(Count::zero());
        filled += 1;
    }
    let mut rest = index;
    let mut i: usize = n;
    proof {
        assert(bases.skip(n as int) =~= Seq::<nat>::empty());
    }
    while i > 0
        invariant
            i <= n,
            n == radices.len(),
            digits.len() == n,
            bases == values(radices@),
            bases.len() == n,
            index@ < product(bases),
            rest@ == index@ / product(bases.skip(i as int)),
            forall|j: int| i <= j < n ==> (#[trigger] digits[j])@ == digit(bases, index@, j),
        decreases i,
    {
        proof {
            lemma_product_positive(bases);
            lemma_digit_step(bases, index@, i - 1);
            assert(bases[i - 1] == radices[i - 1]@);
        }
        let (quotient, remainder) = wide_div_rem(&rest, &radices[i - 1]);
        digits.set(i - 1, remainder);
        rest = quotient;
        i -= 1;
    }
    digits
}

/// What decoding `index` in a schema gives: the string that the index stands
/// for; `Failure::SchemaTooLarge` where the schema is not bounded; and
/// `Failure::IndexOutOfRange` where it is and the index is not below its size.
pub open spec fn generated(schema: Schema, words: Seq<Seq<char>>, index: nat) -> Result<
    Seq<char>,
    Failure,
> {
    if !bounded(schema, words) {
        Err(Failure::SchemaTooLarge)
    } else if index >= size_of(schema, words) {
        Err(Failure::IndexOutOfRange)
    } else {
        Ok(generate_at(schema, words, index))
    }
}

/// The text of a string that was decoded, or why none was.
pub open spec fn text_of(r: Result<String, Failure>) -> Result<Seq<char>, Failure> {
    match r {
        Ok(s) => Ok(s@),
        Err(e) => Err(e),
    }
}

/// Decoding is a function of the schema, the words and the index: two
/// results of `generate` for the same three are the same.
pub proof fn lemma_generate_deterministic(
    node: Node,
    words: Seq<Seq<char>>,
    index: nat,
    first: Result<String, Failure>,
    second: Result<String, Failure>,
)
    requires
        text_of(first) == generated(node@, words, index),
        text_of(second) == generated(node@, words, index),
    ensures
        text_of(first) == text_of(second),
{
}

/// The string that `index` stands for in the schema, which is one of the
/// strings that the schema produces.
///
/// The result is `Failure::SchemaTooLarge` where the schema is not bounded,
/// and `Failure::IndexOutOfRange` where it is and the index is not below its
/// size.
pub fn generate(node: &Node, words: &Words, index: &Count) -> (r: Result<String, Failure>)
    ensures
        text_of(r) == generated(node@, words@, index@),
        r matches Ok(s) ==> produces(node@, words@, s@),
{
    match size(node, words) {
        Ok(total) => {
            if index.is_below(&total) {
                proof {
                    lemma_generated_produced(node@, words@, index@);
                }
                let mut out = String::new();
                generate_into(node, words, *index, &mut out);
                Ok(out)
            } else {
                Err(Failure::IndexOutOfRange)
            }
        },
        Err(_) => Err(Failure::SchemaTooLarge),
    }
}

/// Appends to `out` the string that `index` stands for in the schema.
fn generate_into(node: &Node, words: &Words, index: Count, out: &mut String)
    requires
        bounded(node@, words@),
        index@ < size_of(node@, words@),
    ensures
        final(out)@ == old(out)@ + generate_at(node@, words@, index@),
    decreases node, 0nat,
{
    match node {
        Node::Literal(c) => {
            out.push(*c);
            assert(old(out)@.push(*c) =~= old(out)@ + seq![*c]);
        },
        Node::CharClass { chars, negated } => {
            proof {
                lemma_members_len(chars@, *negated);
                assert(chars@.len() == chars.len());
            }
            let c: char = member(chars, *negated, index.as_index());
            out.push(c);
            assert(old(out)@.push(c) =~= old(out)@ + seq![c]);
        },
        Node::WordClass(style) => {
            proof {
                words.lemma_len();
            }
            words.render_word_into(index.as_index(), *style, out);
        },
        Node::Concat(parts) => {
            concat_into(parts, words, index, out);
        },
        Node::Alternate(branches) => {
            alternate_into(branches, words, index, out);
        },
        Node::Repeat(part, min, max) => {
            repeat_into(part, *min, *max, words, index, out);
        },
    }
}

/// Appends to `out` the strings of the parts of a concatenation at `index`.
fn concat_into(parts: &Vec<Node>, words: &Words, index: Count, out: &mut String)
    requires
        each_bounded(models(parts@), words@),
        products_fit(sizes(models(parts@), words@)),
        index@ < product(sizes(models(parts@), words@)),
    ensures
        final(out)@ == old(out)@ + pieces(models(parts@), words@, index@).flatten(),
    decreases parts,
{
    let n: usize = parts.len();
    let ghost schemas = models(parts@);
    let ghost bases = sizes(schemas, words@);
    let ghost before = out@;
    let ghost texts = pieces(schemas, words@, index@);
    let mut radices: Vec<Count> = Vec::new();
    let mut i: usize = 0;
    while i < n
        invariant
            i <= n,
            n == parts.len(),
            schemas == models(parts@),
            bases == sizes(schemas, words@),
            each_bounded(schemas, words@),
            radices.len() == i,
            forall|j: int| 0 <= j < i ==> (#[trigger] radices[j])@ == bases[j],
        decreases n - i,
    {
        assert(bounded(schemas[i as int], words@));
        radices.push(size_bounded(&parts[i], words));
        i += 1;
    }
    assert(values(radices@) =~= bases);
    let digits = digits_of(&radices, index);
    let mut j: usize = 0;
    assert(texts.take(0) =~= Seq::<Seq<char>>::empty());
    while j < n
        invariant
            j <= n,
            n == parts.len(),
            schemas == models(parts@),
            bases == sizes(schemas, words@),
            texts == pieces(schemas, words@, index@),
            texts.len() == n,
            each_bounded(schemas, words@),
            index@ < product(bases),
            digits.len() == n,
            forall|k: int| 0 <= k < n ==> (#[trigger] digits[k])@ == digit(bases, index@, k),
            out@ == before + texts.take(j as int).flatten(),
        decreases n - j,
    {
        proof {
            lemma_product_positive(bases);
            lemma_digit_bound(bases, index@, j as int);
            assert(bounded(schemas[j as int], words@));
            assert(texts.take(j + 1) =~= texts.take(j as int).push(texts[j as int]));
            texts.take(j as int).lemma_flatten_push(texts[j as int]);
        }
        generate_into(&parts[j], words, digits[j], out);
        j += 1;
    }
    assert(texts.take(n as int) =~= texts);
}

/// Appends to `out` the string of the branch whose range holds `index`.
fn alternate_into(branches: &Vec<Node>, words: &Words, index: Count, out: &mut String)
    requires
        each_bounded(models(branches@), words@),
        sum(sizes(models(branches@), words@)) < count_limit(),
        index@ < sum(sizes(models(branches@), words@)),
    ensures
        final(out)@ == old(out)@ + generate_at(
            Schema::Alternate(models(branches@)),
            words@,
            index@,
        ),
    decreases branches,
{
    let ghost schemas = models(branches@);
    let ghost lengths = sizes(schemas, words@);
    let mut start = Count::zero();
    let mut i: usize = 0;
    proof {
        lemma_take_all(lengths);
    }
    loop
        invariant
            i < branches.len(),
            schemas == models(branches@),
            lengths == sizes(schemas, words@),
            lengths.len() == branches.len(),
            each_bounded(schemas, words@),
            sum(lengths) < count_limit(),
            index@ < sum(lengths),
            start@ == offset(lengths, i as int),
            start@ <= index@,
            out@ == old(out)@,
        decreases branches.len() - i,
    {
        proof {
            assert(bounded(schemas[i as int], words@));
            lemma_sum_next(lengths, i as int);
            lemma_sum_monotone(lengths, i + 1, lengths.len() as int);
            lemma_take_all(lengths);
        }
        let end = start.plus(&size_bounded(&branches[i], words));
        if index.is_below(&end) {
            proof {
                lemma_branch_found(lengths, index@, i as int);
            }
            generate_into(&branches[i], words, index.minus(&start), out);
            return ;
        }
        start = end;
        i += 1;
    }
}

/// Appends to `out` the string of a repetition at `index`.
fn repeat_into(part: &Node, min: u32, max: u32, words: &Words, index: Count, out: &mut String)
    requires
        bounded(part@, words@),
        min <= max,
        powers_fit(size_of(part@, words@), max as nat),
        sum(powers(size_of(part@, words@), min as nat, max as nat)) < count_limit(),
        index@ < sum(powers(size_of(part@, words@), min as nat, max as nat)),
    ensures
        final(out)@ == old(out)@ + generate_at(
            Schema::Repeat(Box::new(part@), min as nat, max as nat),
            words@,
            index@,
        ),
    decreases part, 2nat,
{
    let ghost base = size_of(part@, words@);
    let ghost terms = powers(base, min as nat, max as nat);
    let radix = size_bounded(part, words);
    let mut factor = Count::one();
    let mut k: u32 = 0;
    proof {
        lemma_power_next(base, 0);
    }
    while k < min
        invariant
            k <= min <= max,
            radix@ == base,
            powers_fit(base, max as nat),
            factor@ == power(base, k as nat),
        decreases min - k,
    {
        proof {
            lemma_power_next(base, k as nat);
            assert(power(base, (k + 1) as nat) < count_limit());
        }
        factor = factor.times(&radix);
        k += 1;
    }
    let mut start = Count::zero();
    proof {
        lemma_take_all(terms);
    }
    loop
        invariant
            min <= k <= max,
            base == size_of(part@, words@),
            bounded(part@, words@),
            radix@ == base,
            terms == powers(base, min as nat, max as nat),
            powers_fit(base, max as nat),
            sum(terms) < count_limit(),
            index@ < sum(terms),
            factor@ == power(base, k as nat),
            start@ == offset(terms, k - min),
            start@ <= index@,
            out@ == old(out)@,
        decreases max - k,
    {
        proof {
            lemma_sum_next(terms, k - min);
            lemma_sum_monotone(terms, k - min + 1, terms.len() as int);
            lemma_take_all(terms);
            lemma_power_next(base, k as nat);
        }
        let end = start.plus(&factor);
        if index.is_below(&end) {
            proof {
                lemma_branch_found(terms, index@, k - min);
            }
            power_into(part, &radix, k, words, index.minus(&start), out);
            return ;
        }
        proof {
            assert(power(base, (k + 1) as nat) < count_limit());
        }
        start = end;
        factor = factor.times(&radix);
        k += 1;
    }
}

/// Appends to `out` the strings of `count` copies of a part at `index`.
fn power_into(part: &Node, radix: &Count, count: u32, words: &Words, index: Count, out: &mut String)
    requires
        bounded(part@, words@),
        radix@ == size_of(part@, words@),
        index@ < power(radix@, count as nat),
    ensures
        final(out)@ == old(out)@ + repeated(part@, words@, count as nat, index@).flatten(),
    decreases part, 1nat,
{
    let ghost bases = copies(radix@, count as nat);
    let ghost before = out@;
    let ghost texts = repeated(part@, words@, count as nat, index@);
    if radix.is_one() {
        // Every digit is zero: there is no need to hold the digits.
        let mut done: u32 = 0;
        assert(texts.take(0) =~= Seq::<Seq<char>>::empty());
        while done < count
            invariant
                done <= count,
                bases == copies(radix@, count as nat),
                texts == repeated(part@, words@, count as nat, index@),
                texts.len() == count,
                bounded(part@, words@),
                radix@ == size_of(part@, words@),
                radix@ == 1,
                out@ == before + texts.take(done as int).flatten(),
            decreases count - done,
        {
            proof {
                assert(digit(bases, index@, done as int) == 0);
                assert(texts.take(done + 1) =~= texts.take(done as int).push(texts[done as int]));
                texts.take(done as int).lemma_flatten_push(texts[done as int]);
            }
            generate_into(part, words, Count::zero(), out);
            done += 1;
        }
        assert(texts.take(count as int) =~= texts);
        return ;
    }
    let mut radices: Vec<Count> = Vec::new();
    let mut i: u32 = 0;
    while i < count
        invariant
            i <= count,
            radices.len() == i,
            forall|j: int| 0 <= j < i ==> (#[trigger] radices[j])@ == radix@,
        decreases count - i,
    {
        radices.push(*radix);
        i += 1;
    }
    assert(values(radices@) =~= bases);
    let digits = digits_of(&radices, index);
    let mut j: usize = 0;
    let n: usize = digits.len();
    assert(texts.take(0) =~= Seq::<Seq<char>>::empty());
    while j < n
        invariant
            j <= n,
            n == count,
            bases == copies(radix@, count as nat),
            texts == repeated(part@, words@, count as nat, index@),
            texts.len() == n,
            bounded(part@, words@),
            radix@ == size_of(part@, words@),
            index@ < product(bases),
            digits.len() == n,
            forall|k: int| 0 <= k < n ==> (#[trigger] digits[k])@ == digit(bases, index@, k),
            out@ == before + texts.take(j as int).flatten(),
        decreases n - j,
    {
        proof {
            lemma_product_positive(bases);
            lemma_digit_bound(bases, index@, j as int);
            assert(texts.take(j + 1) =~= texts.take(j as int).push(texts[j as int]));
            texts.take(j as int).lemma_flatten_push(texts[j as int]);
        }
        generate_into(part, words, digits[j], out);
        j += 1;
    }
    assert(texts.take(n as int) =~= texts);
}

} // verus!
