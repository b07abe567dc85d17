//! The strings that a schema produces, and how the indices below its size
//! stand for them.
//!
//! `produces` says which strings a schema produces, and speaks neither of
//! counting nor of decoding. The lemmas of this module relate it to `size_of` and
//! `generate_at`: every index below the size decodes to a string of the
//! schema, every string of the schema is decoded from such an index, and
//! where the schema is unambiguous the two correspond one to one, so that the
//! size is the number of strings.

use crate::cardinality::{powers, size_of, sizes};
use crate::charset::{lemma_members_distinct, members};
use crate::generate::{generate_at, pieces, repeated};
use crate::radix::{
    branch, compose, copies, digit, digits, lemma_branch_found, lemma_branch_valid,
    lemma_compose_bound, lemma_compose_of_digits, lemma_digit_bound, lemma_digits_of_compose,
    lemma_offset_bound, lemma_product_positive, offset, power, product, sum,
};
use crate::schema::{well_formed, CaseStyle, Schema};
use crate::words::{lower, render, renders_distinct, styled, upper};
use vstd::prelude::*;

verus! {

/// Whether there is one text for each part, and each part produces its text.
pub open spec fn each_produces(
    parts: Seq<Schema>,
    words: Seq<Seq<char>>,
    texts: Seq<Seq<char>>,
) -> bool
    decreases parts, 1nat,
{
    texts.len() == parts.len() && forall|i: int|
        0 <= i < parts.len() ==> produces(parts[i], words, #[trigger] texts[i])
}

/// Whether the part produces each of the texts.
pub open spec fn all_produce(part: Schema, words: Seq<Seq<char>>, texts: Seq<Seq<char>>) -> bool
    decreases part, 1nat,
{
    forall|i: int| 0 <= i < texts.len() ==> produces(part, words, #[trigger] texts[i])
}

/// Whether the schema produces the text.
///
/// A literal produces its character; a class each of its members; a word
/// class each word in its style. A concatenation produces the texts of its
/// parts joined in order; an alternation what any of its branches produces; a
/// repetition the texts of its part joined, as many of them as its counts
/// allow.
pub open spec fn produces(schema: Schema, words: Seq<Seq<char>>, text: Seq<char>) -> bool
    decreases schema, 0nat,
{
    match schema {
        Schema::Literal(c) => text == seq![c],
        Schema::CharClass { chars, negated } => text.len() == 1 && members(chars, negated).contains(
            text[0],
        ),
        Schema::WordClass(style) => exists|i: int|
            0 <= i < words.len() && text == render(#[trigger] words[i], style),
        Schema::Concat(parts) => exists|texts: Seq<Seq<char>>|
            each_produces(parts, words, texts) && text == #[trigger] texts.flatten(),
        Schema::Alternate(branches) => exists|i: int|
            0 <= i < branches.len() && produces(#[trigger] branches[i], words, text),
        Schema::Repeat(part, min, max) => exists|texts: Seq<Seq<char>>|
            min <= texts.len() <= max && all_produce(*part, words, texts) && text
                == #[trigger] texts.flatten(),
    }
}

/// The strings that the schema produces.
pub open spec fn language(schema: Schema, words: Seq<Seq<char>>) -> Set<Seq<char>> {
    Set::new(|text: Seq<char>| produces(schema, words, text))
}

/// An index below the size of the schema at which the text is decoded, where
/// there is one.
pub open spec fn index_of(schema: Schema, words: Seq<Seq<char>>, text: Seq<char>) -> nat {
    choose|index: nat|
        index < size_of(schema, words) && #[trigger] generate_at(schema, words, index) == text
}

/// Every index below the size of a schema decodes to a string that the
/// schema produces.
pub proof fn lemma_generated_produced(schema: Schema, words: Seq<Seq<char>>, index: nat)
    requires
        index < size_of(schema, words),
    ensures
        produces(schema, words, generate_at(schema, words, index)),
    decreases schema,
{
    match schema {
        Schema::Literal(c) => {},
        Schema::CharClass { chars, negated } => {
            let all = members(chars, negated);
            assert(all[index as int] == generate_at(schema, words, index)[0]);
        },
        Schema::WordClass(style) => {
            assert(generate_at(schema, words, index) == render(words[index as int], style));
        },
        Schema::Concat(parts) => {
            let radices = sizes(parts, words);
            let texts = pieces(parts, words, index);
            lemma_product_positive(radices);
            assert forall|i: int| 0 <= i < parts.len() implies produces(
                parts[i],
                words,
                #[trigger] texts[i],
            ) by {
                lemma_digit_bound(radices, index, i);
                lemma_generated_produced(parts[i], words, digit(radices, index, i));
            }
            assert(each_produces(parts, words, texts));
        },
        Schema::Alternate(branches) => {
            let lengths = sizes(branches, words);
            lemma_branch_valid(lengths, index);
            let b = branch(lengths, index);
            lemma_generated_produced(branches[b], words, (index - offset(lengths, b)) as nat);
        },
        Schema::Repeat(part, min, max) => {
            let base = size_of(*part, words);
            let terms = powers(base, min, max);
            lemma_branch_valid(terms, index);
            let j = branch(terms, index);
            let count = (min + j) as nat;
            let inner = (index - offset(terms, j)) as nat;
            let radices = copies(base, count);
            let texts = repeated(*part, words, count, inner);
            assert(terms[j] == power(base, count));
            lemma_product_positive(radices);
            assert forall|i: int| 0 <= i < texts.len() implies produces(
                *part,
                words,
                #[trigger] texts[i],
            ) by {
                lemma_digit_bound(radices, inner, i);
                lemma_generated_produced(*part, words, digit(radices, inner, i));
            }
            assert(all_produce(*part, words, texts));
            assert(min <= texts.len() <= max);
        },
    }
}

/// Every string that a schema produces is decoded from an index below the
/// size of the schema. The lemma returns such an index.
pub proof fn lemma_produced_generated(schema: Schema, words: Seq<Seq<char>>, text: Seq<char>) -> (index:
    nat)
    requires
        produces(schema, words, text),
    ensures
        index < size_of(schema, words),
        generate_at(schema, words, index) == text,
    decreases schema,
{
    match schema {
        Schema::Literal(c) => 0,
        Schema::CharClass { chars, negated } => {
            let all = members(chars, negated);
            let i = choose|i: int| 0 <= i < all.len() && all[i] == text[0];
            assert(seq![all[i]] =~= text);
            i as nat
        },
        Schema::WordClass(style) => {
            let i = choose|i: int|
                0 <= i < words.len() && text == render(#[trigger] words[i], style);
            i as nat
        },
        Schema::Concat(parts) => {
            let texts = choose|texts: Seq<Seq<char>>|
                each_produces(parts, words, texts) && text == #[trigger] texts.flatten();
            let radices = sizes(parts, words);
            let given = Seq::new(parts.len(), |i: int| index_of(parts[i], words, texts[i]));
            assert forall|i: int| 0 <= i < parts.len() implies given[i] < radices[i]
                && generate_at(parts[i], words, given[i]) == #[trigger] texts[i] by {
                let found = lemma_produced_generated(parts[i], words, texts[i]);
            }
            let index = compose(radices, given);
            lemma_compose_bound(radices, given);
            lemma_digits_of_compose(radices, given);
            assert forall|i: int| 0 <= i < parts.len() implies pieces(parts, words, index)[i]
                == texts[i] by {
                assert(digits(radices, index)[i] == given[i]);
            }
            assert(pieces(parts, words, index) =~= texts);
            index
        },
        Schema::Alternate(branches) => {
            let i = choose|i: int|
                0 <= i < branches.len() && produces(#[trigger] branches[i], words, text);
            let inner = lemma_produced_generated(branches[i], words, text);
            let lengths = sizes(branches, words);
            let index = offset(lengths, i) + inner;
            lemma_offset_bound(lengths, i, inner);
            lemma_branch_found(lengths, index, i);
            index
        },
        Schema::Repeat(part, min, max) => {
            let texts = choose|texts: Seq<Seq<char>>|
                min <= texts.len() <= max && all_produce(*part, words, texts) && text
                    == #[trigger] texts.flatten();
            let base = size_of(*part, words);
            let count = texts.len();
            let radices = copies(base, count);
            let given = Seq::new(count, |i: int| index_of(*part, words, texts[i]));
            assert forall|i: int| 0 <= i < count implies given[i] < radices[i] && generate_at(
                *part,
                words,
                given[i],
            ) == #[trigger] texts[i] by {
                let found = lemma_produced_generated(*part, words, texts[i]);
            }
            let inner = compose(radices, given);
            lemma_compose_bound(radices, given);
            lemma_digits_of_compose(radices, given);
            assert forall|i: int| 0 <= i < count implies repeated(*part, words, count, inner)[i]
                == texts[i] by {
                assert(digits(radices, inner)[i] == given[i]);
            }
            assert(repeated(*part, words, count, inner) =~= texts);
            let terms = powers(base, min, max);
            let j = count - min;
            assert(terms[j] == power(base, count));
            let index = offset(terms, j) + inner;
            lemma_offset_bound(terms, j, inner);
            lemma_branch_found(terms, index, j);
            index
        },
    }
}

/// Whether a string that the parts produce together is cut into their texts
/// in one way only.
pub open spec fn splits_uniquely(parts: Seq<Schema>, words: Seq<Seq<char>>) -> bool {
    forall|a: Seq<Seq<char>>, b: Seq<Seq<char>>|
        each_produces(parts, words, a) && each_produces(parts, words, b) && #[trigger] a.flatten()
            == #[trigger] b.flatten() ==> a == b
}

/// Whether no string is produced by two of the branches.
pub open spec fn branches_disjoint(branches: Seq<Schema>, words: Seq<Seq<char>>) -> bool {
    forall|i: int, j: int, text: Seq<char>|
        0 <= i < j < branches.len() && #[trigger] produces(branches[i], words, text)
            ==> !#[trigger] produces(branches[j], words, text)
}

/// Whether a string that repetitions of the part produce is cut into texts of
/// the part in one way only, the number of texts being one that the counts
/// allow.
pub open spec fn repeats_uniquely(part: Schema, words: Seq<Seq<char>>, min: nat, max: nat) -> bool {
    forall|a: Seq<Seq<char>>, b: Seq<Seq<char>>|
        min <= a.len() <= max && min <= b.len() <= max && all_produce(part, words, a) && all_produce(
            part,
            words,
            b,
        ) && #[trigger] a.flatten() == #[trigger] b.flatten() ==> a == b
}

/// Whether a schema is unambiguous: it has one way only to produce each of
/// its strings.
///
/// A class lists no character twice, and no two words are written alike. The
/// parts of a concatenation are unambiguous and their texts can be told
/// apart in the whole; the branches of an alternation are unambiguous and
/// share no string; the part of a repetition is unambiguous and its texts
/// can be told apart in the whole.
pub open spec fn unambiguous(schema: Schema, words: Seq<Seq<char>>) -> bool
    decreases schema,
{
    match schema {
        Schema::Literal(_) => true,
        Schema::CharClass { chars, negated } => members(chars, negated).no_duplicates(),
        Schema::WordClass(style) => renders_distinct(words, style),
        Schema::Concat(parts) => {
            &&& forall|i: int| 0 <= i < parts.len() ==> unambiguous(#[trigger] parts[i], words)
            &&& splits_uniquely(parts, words)
        },
        Schema::Alternate(branches) => {
            &&& forall|i: int|
                0 <= i < branches.len() ==> unambiguous(#[trigger] branches[i], words)
            &&& branches_disjoint(branches, words)
        },
        Schema::Repeat(part, min, max) => unambiguous(*part, words) && repeats_uniquely(
            *part,
            words,
            min,
            max,
        ),
    }
}

/// In an unambiguous schema, two indices below the size that decode to the
/// same string are the same index.
pub proof fn lemma_generate_injective(schema: Schema, words: Seq<Seq<char>>, i: nat, j: nat)
    requires
        unambiguous(schema, words),
        i < size_of(schema, words),
        j < size_of(schema, words),
        generate_at(schema, words, i) == generate_at(schema, words, j),
    ensures
        i == j,
    decreases schema,
{
    lemma_generated_produced(schema, words, i);
    lemma_generated_produced(schema, words, j);
    match schema {
        Schema::Literal(c) => {},
        Schema::CharClass { chars, negated } => {
            let all = members(chars, negated);
            assert(generate_at(schema, words, i)[0] == all[i as int]);
            assert(generate_at(schema, words, j)[0] == all[j as int]);
        },
        Schema::WordClass(style) => {
            assert(render(words[i as int], style) == render(words[j as int], style));
        },
        Schema::Concat(parts) => {
            let radices = sizes(parts, words);
            let a = pieces(parts, words, i);
            let b = pieces(parts, words, j);
            lemma_pieces_produced(parts, words, i);
            lemma_pieces_produced(parts, words, j);
            assert(a.flatten() == b.flatten());
            assert(a == b);
            lemma_product_positive(radices);
            assert forall|p: int| 0 <= p < parts.len() implies digit(radices, i, p) == digit(
                radices,
                j,
                p,
            ) by {
                lemma_digit_bound(radices, i, p);
                lemma_digit_bound(radices, j, p);
                assert(a[p] == b[p]);
                lemma_generate_injective(
                    parts[p],
                    words,
                    digit(radices, i, p),
                    digit(radices, j, p),
                );
            }
            assert(digits(radices, i) =~= digits(radices, j));
            lemma_compose_of_digits(radices, i);
            lemma_compose_of_digits(radices, j);
        },
        Schema::Alternate(branches) => {
            let lengths = sizes(branches, words);
            lemma_branch_valid(lengths, i);
            lemma_branch_valid(lengths, j);
            let bi = branch(lengths, i);
            let bj = branch(lengths, j);
            let inner_i = (i - offset(lengths, bi)) as nat;
            let inner_j = (j - offset(lengths, bj)) as nat;
            let text = generate_at(schema, words, i);
            lemma_generated_produced(branches[bi], words, inner_i);
            lemma_generated_produced(branches[bj], words, inner_j);
            assert(produces(branches[bi], words, text));
            assert(produces(branches[bj], words, text));
            assert(bi == bj);
            lemma_generate_injective(branches[bi], words, inner_i, inner_j);
        },
        Schema::Repeat(part, min, max) => {
            let base = size_of(*part, words);
            let terms = powers(base, min, max);
            lemma_branch_valid(terms, i);
            lemma_branch_valid(terms, j);
            let bi = branch(terms, i);
            let bj = branch(terms, j);
            let count_i = (min + bi) as nat;
            let count_j = (min + bj) as nat;
            let inner_i = (i - offset(terms, bi)) as nat;
            let inner_j = (j - offset(terms, bj)) as nat;
            assert(terms[bi] == power(base, count_i));
            assert(terms[bj] == power(base, count_j));
            let a = repeated(*part, words, count_i, inner_i);
            let b = repeated(*part, words, count_j, inner_j);
            lemma_repeated_produced(*part, words, count_i, inner_i);
            lemma_repeated_produced(*part, words, count_j, inner_j);
            assert(a.flatten() == b.flatten());
            assert(a == b);
            assert(count_i == count_j) by {
                assert(a.len() == b.len());
            }
            let radices = copies(base, count_i);
            lemma_product_positive(radices);
            assert forall|p: int| 0 <= p < count_i implies digit(radices, inner_i, p) == digit(
                radices,
                inner_j,
                p,
            ) by {
                lemma_digit_bound(radices, inner_i, p);
                lemma_digit_bound(radices, inner_j, p);
                assert(a[p] == b[p]);
                lemma_generate_injective(
                    *part,
                    words,
                    digit(radices, inner_i, p),
                    digit(radices, inner_j, p),
                );
            }
            assert(digits(radices, inner_i) =~= digits(radices, inner_j));
            lemma_compose_of_digits(radices, inner_i);
            lemma_compose_of_digits(radices, inner_j);
        },
    }
}

/// The texts of the parts of a concatenation at an index below its size are
/// texts that the parts produce.
pub proof fn lemma_pieces_produced(parts: Seq<Schema>, words: Seq<Seq<char>>, index: nat)
    requires
        index < product(sizes(parts, words)),
    ensures
        each_produces(parts, words, pieces(parts, words, index)),
{
    let radices = sizes(parts, words);
    let texts = pieces(parts, words, index);
    lemma_product_positive(radices);
    assert forall|i: int| 0 <= i < parts.len() implies produces(
        parts[i],
        words,
        #[trigger] texts[i],
    ) by {
        lemma_digit_bound(radices, index, i);
        lemma_generated_produced(parts[i], words, digit(radices, index, i));
    }
}

/// The texts of the copies of a part at an index below the power of its size
/// are texts that the part produces.
pub proof fn lemma_repeated_produced(part: Schema, words: Seq<Seq<char>>, count: nat, index: nat)
    requires
        index < power(size_of(part, words), count),
    ensures
        all_produce(part, words, repeated(part, words, count, index)),
        repeated(part, words, count, index).len() == count,
{
    let radices = copies(size_of(part, words), count);
    let texts = repeated(part, words, count, index);
    lemma_product_positive(radices);
    assert forall|i: int| 0 <= i < texts.len() implies produces(part, words, #[trigger] texts[i]) by {
        lemma_digit_bound(radices, index, i);
        lemma_generated_produced(part, words, digit(radices, index, i));
    }
}

/// The strings that the first `n` indices decode to.
pub open spec fn decoded(schema: Schema, words: Seq<Seq<char>>, n: nat) -> Set<Seq<char>> {
    Set::new(
        |text: Seq<char>| exists|i: nat| i < n && #[trigger] generate_at(schema, words, i) == text,
    )
}

/// The strings that a schema produces are the strings that the indices below
/// its size decode to: none is left out and none is added.
pub proof fn lemma_language_is_decoded(schema: Schema, words: Seq<Seq<char>>)
    ensures
        language(schema, words) == decoded(schema, words, size_of(schema, words)),
{
    let n = size_of(schema, words);
    assert forall|text: Seq<char>| language(schema, words).contains(text) implies decoded(
        schema,
        words,
        n,
    ).contains(text) by {
        let index = lemma_produced_generated(schema, words, text);
        assert(index < n && generate_at(schema, words, index) == text);
    }
    assert forall|text: Seq<char>| decoded(schema, words, n).contains(text) implies language(
        schema,
        words,
    ).contains(text) by {
        let i = choose|i: nat| i < n && #[trigger] generate_at(schema, words, i) == text;
        lemma_generated_produced(schema, words, i);
    }
    assert(language(schema, words) =~= decoded(schema, words, n));
}

/// Whether no two indices below the size of the schema decode to the same
/// string.
pub open spec fn decodes_distinctly(schema: Schema, words: Seq<Seq<char>>) -> bool {
    forall|i: nat, j: nat|
        i < size_of(schema, words) && j < size_of(schema, words) && #[trigger] generate_at(
            schema,
            words,
            i,
        ) == #[trigger] generate_at(schema, words, j) ==> i == j
}

/// An unambiguous schema decodes no two indices below its size to the same
/// string.
pub proof fn lemma_unambiguous_decodes_distinctly(schema: Schema, words: Seq<Seq<char>>)
    requires
        unambiguous(schema, words),
    ensures
        decodes_distinctly(schema, words),
{
    assert forall|i: nat, j: nat|
        i < size_of(schema, words) && j < size_of(schema, words) && #[trigger] generate_at(
            schema,
            words,
            i,
        ) == #[trigger] generate_at(schema, words, j) implies i == j by {
        lemma_generate_injective(schema, words, i, j);
    }
}

/// Where no two indices decode to the same string, the first `n` indices
/// decode to `n` strings.
proof fn lemma_decoded_count(schema: Schema, words: Seq<Seq<char>>, n: nat)
    requires
        decodes_distinctly(schema, words),
        n <= size_of(schema, words),
    ensures
        decoded(schema, words, n).finite(),
        decoded(schema, words, n).len() == n,
    decreases n,
{
    if n == 0 {
        assert(decoded(schema, words, 0) =~= Set::<Seq<char>>::empty());
    } else {
        let before = decoded(schema, words, (n - 1) as nat);
        let text = generate_at(schema, words, (n - 1) as nat);
        lemma_decoded_count(schema, words, (n - 1) as nat);
        if before.contains(text) {
            let i = choose|i: nat| i < n - 1 && #[trigger] generate_at(schema, words, i) == text;
            assert(i == n - 1);
        }
        assert(decoded(schema, words, n) =~= before.insert(text));
    }
}

/// The size of a schema is the number of strings that it produces, where no
/// two indices below the size decode to the same string.
pub proof fn lemma_size_counts_language(schema: Schema, words: Seq<Seq<char>>)
    requires
        decodes_distinctly(schema, words),
    ensures
        language(schema, words).finite(),
        language(schema, words).len() == size_of(schema, words),
{
    lemma_language_is_decoded(schema, words);
    lemma_decoded_count(schema, words, size_of(schema, words));
}

/// The first `n` indices decode to at most `n` strings, and to fewer where
/// one of them decodes to the same string as an index before it.
proof fn lemma_decoded_at_most(schema: Schema, words: Seq<Seq<char>>, n: nat, early: nat, late: nat)
    ensures
        decoded(schema, words, n).finite(),
        decoded(schema, words, n).len() <= n,
        early < late < n && generate_at(schema, words, early) == generate_at(schema, words, late)
            ==> decoded(schema, words, n).len() < n,
    decreases n,
{
    if n == 0 {
        assert(decoded(schema, words, 0) =~= Set::<Seq<char>>::empty());
    } else {
        let before = decoded(schema, words, (n - 1) as nat);
        let text = generate_at(schema, words, (n - 1) as nat);
        lemma_decoded_at_most(schema, words, (n - 1) as nat, early, late);
        assert(decoded(schema, words, n) =~= before.insert(text));
        if early < late && late == n - 1 && generate_at(schema, words, early) == text {
            assert(before.contains(text));
        }
    }
}

/// The size of a schema is the number of strings that it produces only where
/// no two indices below the size decode to the same string.
pub proof fn lemma_size_counts_only_distinct(schema: Schema, words: Seq<Seq<char>>)
    requires
        language(schema, words).len() == size_of(schema, words),
    ensures
        decodes_distinctly(schema, words),
{
    let n = size_of(schema, words);
    lemma_language_is_decoded(schema, words);
    assert forall|i: nat, j: nat|
        i < n && j < n && #[trigger] generate_at(schema, words, i) == #[trigger] generate_at(
            schema,
            words,
            j,
        ) implies i == j by {
        if i < j {
            lemma_decoded_at_most(schema, words, n, i, j);
        } else if j < i {
            lemma_decoded_at_most(schema, words, n, j, i);
        }
    }
}

/// The size of an unambiguous schema is the number of strings that it
/// produces.
pub proof fn lemma_unambiguous_size_counts_language(schema: Schema, words: Seq<Seq<char>>)
    requires
        unambiguous(schema, words),
    ensures
        language(schema, words).finite(),
        language(schema, words).len() == size_of(schema, words),
{
    lemma_unambiguous_decodes_distinctly(schema, words);
    lemma_size_counts_language(schema, words);
}

/// Whether every string that the schema produces has `width` characters.
pub open spec fn has_width(schema: Schema, words: Seq<Seq<char>>, width: nat) -> bool {
    forall|text: Seq<char>| #[trigger] produces(schema, words, text) ==> text.len() == width
}

/// Joined texts are the joined texts before the last, and the last.
proof fn lemma_flatten_last(texts: Seq<Seq<char>>)
    requires
        texts.len() > 0,
    ensures
        texts.flatten() == texts.drop_last().flatten() + texts.last(),
{
    texts.lemma_flatten_and_flatten_alt_are_equivalent();
    texts.drop_last().lemma_flatten_and_flatten_alt_are_equivalent();
}

/// Texts of one width, joined, have as many characters as their number
/// times the width.
proof fn lemma_flatten_len(texts: Seq<Seq<char>>, width: nat)
    requires
        forall|i: int| 0 <= i < texts.len() ==> (#[trigger] texts[i]).len() == width,
    ensures
        texts.flatten().len() == texts.len() * width,
    decreases texts.len(),
{
    if texts.len() == 0 {
        assert(texts.flatten() =~= Seq::<char>::empty());
    } else {
        lemma_flatten_last(texts);
        lemma_flatten_len(texts.drop_last(), width);
        assert((texts.len() - 1) * width + width == texts.len() * width) by (nonlinear_arith);
    }
}

/// Two lists of texts that agree in the width of each text and in the whole
/// that they join to are the same list.
proof fn lemma_flatten_unique(a: Seq<Seq<char>>, b: Seq<Seq<char>>)
    requires
        a.len() == b.len(),
        forall|i: int| 0 <= i < a.len() ==> (#[trigger] a[i]).len() == b[i].len(),
        a.flatten() == b.flatten(),
    ensures
        a == b,
    decreases a.len(),
{
    if a.len() > 0 {
        lemma_flatten_last(a);
        lemma_flatten_last(b);
        let front_a = a.drop_last().flatten();
        let front_b = b.drop_last().flatten();
        let whole = a.flatten();
        assert(a.last().len() == b.last().len());
        assert(front_a.len() == front_b.len()) by {
            assert(whole.len() == front_a.len() + a.last().len());
            assert(whole.len() == front_b.len() + b.last().len());
        }
        assert(front_a =~= front_b) by {
            assert forall|k: int| 0 <= k < front_a.len() implies front_a[k] == front_b[k] by {
                assert(whole[k] == front_a[k]);
                assert(whole[k] == front_b[k]);
            }
        }
        assert(a.last() =~= b.last()) by {
            assert forall|k: int| 0 <= k < a.last().len() implies a.last()[k] == b.last()[k] by {
                assert(whole[front_a.len() + k] == a.last()[k]);
                assert(whole[front_b.len() + k] == b.last()[k]);
            }
        }
        assert forall|i: int| 0 <= i < a.len() - 1 implies (#[trigger] a.drop_last()[i]).len()
            == b.drop_last()[i].len() by {
            assert(a.drop_last()[i] == a[i]);
            assert(b.drop_last()[i] == b[i]);
        }
        lemma_flatten_unique(a.drop_last(), b.drop_last());
        assert(a =~= a.drop_last().push(a.last()));
        assert(b =~= b.drop_last().push(b.last()));
    }
    assert(a =~= b);
}

/// A literal and a class produce strings of one character.
pub proof fn lemma_single_character(schema: Schema, words: Seq<Seq<char>>)
    requires
        schema is Literal || schema is CharClass,
    ensures
        has_width(schema, words, 1),
{
}

/// A well-formed literal or class is unambiguous.
pub proof fn lemma_single_unambiguous(schema: Schema, words: Seq<Seq<char>>)
    requires
        schema is Literal || schema is CharClass,
        well_formed(schema),
    ensures
        unambiguous(schema, words),
{
    match schema {
        Schema::CharClass { chars, negated } => {
            lemma_members_distinct(chars, negated);
        },
        _ => {},
    }
}

/// Parts of fixed widths can be told apart in the whole.
pub proof fn lemma_fixed_widths_split(parts: Seq<Schema>, words: Seq<Seq<char>>, widths: Seq<nat>)
    requires
        widths.len() == parts.len(),
        forall|i: int| 0 <= i < parts.len() ==> has_width(#[trigger] parts[i], words, widths[i]),
    ensures
        splits_uniquely(parts, words),
{
    assert forall|a: Seq<Seq<char>>, b: Seq<Seq<char>>|
        each_produces(parts, words, a) && each_produces(parts, words, b) && #[trigger] a.flatten()
            == #[trigger] b.flatten() implies a == b by {
        assert forall|i: int| 0 <= i < a.len() implies (#[trigger] a[i]).len() == b[i].len() by {
            assert(has_width(parts[i], words, widths[i]));
            assert(produces(parts[i], words, a[i]));
            assert(produces(parts[i], words, b[i]));
        }
        lemma_flatten_unique(a, b);
    }
}

/// Repetitions of a part of a fixed width that is not zero can be told apart
/// in the whole.
pub proof fn lemma_fixed_width_repeats(
    part: Schema,
    words: Seq<Seq<char>>,
    width: nat,
    min: nat,
    max: nat,
)
    requires
        has_width(part, words, width),
        width > 0,
    ensures
        repeats_uniquely(part, words, min, max),
{
    assert forall|a: Seq<Seq<char>>, b: Seq<Seq<char>>|
        min <= a.len() <= max && min <= b.len() <= max && all_produce(part, words, a) && all_produce(
            part,
            words,
            b,
        ) && #[trigger] a.flatten() == #[trigger] b.flatten() implies a == b by {
        assert forall|i: int| 0 <= i < a.len() implies (#[trigger] a[i]).len() == width by {
            assert(produces(part, words, a[i]));
        }
        assert forall|i: int| 0 <= i < b.len() implies (#[trigger] b[i]).len() == width by {
            assert(produces(part, words, b[i]));
        }
        lemma_flatten_len(a, width);
        lemma_flatten_len(b, width);
        assert(a.len() == b.len()) by (nonlinear_arith)
            requires
                a.len() * width == b.len() * width,
                width > 0,
        ;
        lemma_flatten_unique(a, b);
    }
}

/// A concatenation of well-formed literals and classes produces as many
/// strings as its size says: the product of the numbers of their members.
pub proof fn lemma_class_sequence_exact(parts: Seq<Schema>, words: Seq<Seq<char>>)
    requires
        forall|i: int|
            0 <= i < parts.len() ==> well_formed(#[trigger] parts[i]) && (parts[i] is Literal
                || parts[i] is CharClass),
    ensures
        unambiguous(Schema::Concat(parts), words),
        language(Schema::Concat(parts), words).len() == product(sizes(parts, words)),
{
    let schema = Schema::Concat(parts);
    assert forall|i: int| 0 <= i < parts.len() implies unambiguous(#[trigger] parts[i], words)
        && has_width(parts[i], words, copies(1, parts.len())[i]) by {
        lemma_single_unambiguous(parts[i], words);
        lemma_single_character(parts[i], words);
    }
    lemma_fixed_widths_split(parts, words, copies(1, parts.len()));
    lemma_unambiguous_size_counts_language(schema, words);
}

/// A repetition of a well-formed class produces as many strings as its size
/// says, whatever its counts: the sum, for each number of repetitions, of the
/// number of members to that power.
pub proof fn lemma_class_repetition_exact(
    chars: Seq<char>,
    negated: bool,
    min: nat,
    max: nat,
    words: Seq<Seq<char>>,
)
    requires
        chars.no_duplicates(),
    ensures
        unambiguous(
            Schema::Repeat(Box::new(Schema::CharClass { chars, negated }), min, max),
            words,
        ),
        language(
            Schema::Repeat(Box::new(Schema::CharClass { chars, negated }), min, max),
            words,
        ).len() == sum(powers(members(chars, negated).len(), min, max)),
{
    let class = Schema::CharClass { chars, negated };
    let schema = Schema::Repeat(Box::new(class), min, max);
    lemma_single_character(class, words);
    lemma_single_unambiguous(class, words);
    lemma_fixed_width_repeats(class, words, 1, min, max);
    lemma_unambiguous_size_counts_language(schema, words);
    assert(size_of(class, words) == members(chars, negated).len());
    assert(size_of(schema, words) == sum(powers(size_of(class, words), min, max)));
}

/// Two words that are written alike with a capital are written alike
/// without one.
proof fn lemma_capitalized_alike(a: Seq<char>, b: Seq<char>)
    requires
        render(a, CaseStyle::Capitalized) == render(b, CaseStyle::Capitalized),
    ensures
        render(a, CaseStyle::Lower) == render(b, CaseStyle::Lower),
{
    let left = render(a, CaseStyle::Capitalized);
    let right = render(b, CaseStyle::Capitalized);
    assert(a.len() == b.len()) by {
        assert(left.len() == a.len());
        assert(right.len() == b.len());
    }
    assert forall|i: int| 0 <= i < a.len() implies lower(a[i]) == lower(b[i]) by {
        assert(left[i] == styled(a[i], i, CaseStyle::Capitalized));
        assert(right[i] == styled(b[i], i, CaseStyle::Capitalized));
        if i == 0 {
            let x = lower(a[i]);
            let y = lower(b[i]);
            assert(upper(x) == upper(y));
            assert(!('A' <= x <= 'Z') && !('A' <= y <= 'Z'));
        }
    }
    assert(render(a, CaseStyle::Lower) =~= render(b, CaseStyle::Lower));
}

/// Words that are written differently in lower case are written differently
/// with a capital: a word list without duplicates in lower case makes both
/// word classes unambiguous.
pub proof fn lemma_words_distinct(words: Seq<Seq<char>>)
    requires
        renders_distinct(words, CaseStyle::Lower),
    ensures
        renders_distinct(words, CaseStyle::Capitalized),
        unambiguous(Schema::WordClass(CaseStyle::Lower), words),
        unambiguous(Schema::WordClass(CaseStyle::Capitalized), words),
{
    assert forall|i: int, j: int| 0 <= i < j < words.len() implies render(
        #[trigger] words[i],
        CaseStyle::Capitalized,
    ) != render(#[trigger] words[j], CaseStyle::Capitalized) by {
        if render(words[i], CaseStyle::Capitalized) == render(words[j], CaseStyle::Capitalized) {
            lemma_capitalized_alike(words[i], words[j]);
        }
    }
}

} // verus!
