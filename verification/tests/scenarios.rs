use onepass::cardinality::size;
use onepass::count::Count;
use onepass::pipeline::{cardinality, compile};
use onepass::error::{Failure, SyntaxError, SyntaxErrorKind};
use onepass::generate::generate;
use onepass::parser::parse;
use onepass::schema::{CaseStyle, Node};
use onepass::words::Words;

fn no_words() -> Words {
    Words::new(Vec::new())
}

fn fruit() -> Words {
    Words::new(vec!["apple".to_string(), "Banana".to_string(), "cherry".to_string()])
}

fn at(node: &Node, words: &Words, index: u64) -> String {
    generate(node, words, &Count::from_u64(index)).unwrap()
}

#[test]
fn four_digits_has_ten_thousand_strings() {
    let node = parse("[0-9]{4}").unwrap();
    let words = no_words();
    assert_eq!(size(&node, &words), Ok(Count::from_u64(10000)));
    assert_eq!(at(&node, &words, 0), "0000");
    assert_eq!(at(&node, &words, 9999), "9999");
    assert_eq!(at(&node, &words, 42), "0042");
    assert_eq!(at(&node, &words, 1230), "1230");
}

#[test]
fn alternation_decodes_branches_in_order() {
    let node = parse("(a|bb)").unwrap();
    let words = no_words();
    assert_eq!(size(&node, &words), Ok(Count::from_u64(2)));
    assert_eq!(at(&node, &words, 0), "a");
    assert_eq!(at(&node, &words, 1), "bb");
}

#[test]
fn repetition_counts_each_length() {
    let node = parse("[ab]{2,3}").unwrap();
    let words = no_words();
    assert_eq!(size(&node, &words), Ok(Count::from_u64(12)));
    let expected = vec![
        "aa", "ab", "ba", "bb", "aaa", "aab", "aba", "abb", "baa", "bab", "bba", "bbb",
    ];
    let mut decoded: Vec<String> = Vec::new();
    for i in 0..12 {
        decoded.push(at(&node, &words, i));
    }
    assert_eq!(decoded, expected);
    let mut sorted = decoded.clone();
    sorted.sort();
    sorted.dedup();
    assert_eq!(sorted.len(), 12);
}

#[test]
fn empty_group_is_an_empty_language() {
    let node = parse("()").unwrap();
    let words = no_words();
    assert_eq!(size(&node, &words), Ok(Count::zero()));
    assert_eq!(cardinality(&node, &words), Err(Failure::EmptyLanguage));
    assert_eq!(
        onepass::pipeline::derive("secret", None, "0,example.com", &node, &words),
        Err(Failure::EmptyLanguage)
    );
}

#[test]
fn open_range_is_a_syntax_error() {
    assert_eq!(
        parse("[a-"),
        Err(SyntaxError { position: 0, kind: SyntaxErrorKind::UnterminatedClass })
    );
}

#[test]
fn empty_text_is_the_empty_string() {
    let node = parse("").unwrap();
    let words = no_words();
    assert_eq!(node, Node::Concat(Vec::new()));
    assert_eq!(size(&node, &words), Ok(Count::one()));
    assert_eq!(at(&node, &words, 0), "");
}

#[test]
fn index_at_the_size_is_out_of_range() {
    let node = parse("[0-9]{4}").unwrap();
    let words = no_words();
    assert_eq!(
        generate(&node, &words, &Count::from_u64(10000)),
        Err(Failure::IndexOutOfRange)
    );
    assert_eq!(
        generate(&node, &words, &Count::from_parts(1, 0)),
        Err(Failure::IndexOutOfRange)
    );
}

#[test]
fn words_are_written_in_their_style() {
    let words = fruit();
    let lower = parse("[:word:]").unwrap();
    assert_eq!(lower, Node::Concat(vec![Node::WordClass(CaseStyle::Lower)]));
    assert_eq!(size(&lower, &words), Ok(Count::from_u64(3)));
    assert_eq!(at(&lower, &words, 0), "apple");
    assert_eq!(at(&lower, &words, 1), "banana");
    assert_eq!(at(&lower, &words, 2), "cherry");
    let capitalized = parse("[:Word:]").unwrap();
    assert_eq!(at(&capitalized, &words, 0), "Apple");
    assert_eq!(at(&capitalized, &words, 1), "Banana");
    assert_eq!(at(&capitalized, &words, 2), "Cherry");
}

#[test]
fn phrase_of_words_and_digits() {
    let words = fruit();
    let node = parse("[:Word:](-[:word:]){2}[0-9]").unwrap();
    assert_eq!(size(&node, &words), Ok(Count::from_u64(3 * 9 * 10)));
    assert_eq!(at(&node, &words, 0), "Apple-apple-apple0");
    assert_eq!(at(&node, &words, 269), "Cherry-cherry-cherry9");
    assert_eq!(at(&node, &words, 15), "Apple-apple-banana5");
}

#[test]
fn negated_class_is_the_rest_of_printable_ascii() {
    let words = no_words();
    let node = parse("[^a-z]").unwrap();
    assert_eq!(size(&node, &words), Ok(Count::from_u64(69)));
    assert_eq!(at(&node, &words, 0), " ");
    assert_eq!(at(&node, &words, 68), "~");
    let all = parse("[^]").unwrap();
    assert_eq!(size(&all, &words), Ok(Count::from_u64(95)));
    assert_eq!(at(&all, &words, 33), "A");
}

#[test]
fn class_lists_each_character_once_in_order() {
    let words = no_words();
    let node = parse("[cbaab-d-]").unwrap();
    assert_eq!(
        node,
        Node::Concat(vec![Node::CharClass { chars: vec!['c', 'b', 'a', 'd', '-'], negated: false }])
    );
    assert_eq!(size(&node, &words), Ok(Count::from_u64(5)));
    assert_eq!(at(&node, &words, 0), "c");
    assert_eq!(at(&node, &words, 4), "-");
}

#[test]
fn two_to_the_255_fits_and_two_to_the_256_does_not() {
    let words = no_words();
    let fits = parse("[ab]{255}").unwrap();
    assert_eq!(size(&fits, &words), Ok(Count::from_parts(1u128 << 127, 0)));
    let too_large = parse("[ab]{256}").unwrap();
    assert_eq!(size(&too_large, &words), Err(Failure::SchemaTooLarge));
    assert_eq!(cardinality(&too_large, &words), Err(Failure::SchemaTooLarge));
    assert_eq!(
        generate(&too_large, &words, &Count::zero()),
        Err(Failure::SchemaTooLarge)
    );
    let sum_too_large = parse("([ab]{255}|[ab]{255})").unwrap();
    assert_eq!(size(&sum_too_large, &words), Err(Failure::SchemaTooLarge));
    let last = parse("[ab]{255}").unwrap();
    let top = Count::from_parts((1u128 << 127) - 1, u128::MAX);
    assert_eq!(generate(&last, &words, &top), Ok("b".repeat(255)));
}

#[test]
fn wide_indices_decode_digit_by_digit() {
    let words = no_words();
    let node = parse("[0-9]{40}").unwrap();
    let ten_to_38: u128 = 100000000000000000000000000000000000000;
    // 10^40 = 29 * 2^128 + 131811359292784559562136384478721867776
    assert_eq!(
        size(&node, &words),
        Ok(Count::from_parts(29, 131811359292784559562136384478721867776))
    );
    assert_eq!(
        generate(&node, &words, &Count::from_parts(0, ten_to_38 + 7)),
        Ok("0100000000000000000000000000000000000007".to_string())
    );
}

#[test]
fn every_kind_of_syntax_error() {
    let cases: Vec<(&str, usize, SyntaxErrorKind)> = vec![
        ("a]", 1, SyntaxErrorKind::UnexpectedCharacter),
        ("a|b", 1, SyntaxErrorKind::UnexpectedCharacter),
        ("a{2}{3}", 4, SyntaxErrorKind::UnexpectedCharacter),
        ("}", 0, SyntaxErrorKind::UnexpectedCharacter),
        ("[z-a]", 3, SyntaxErrorKind::UnexpectedCharacter),
        ("x[abc", 1, SyntaxErrorKind::UnterminatedClass),
        ("[", 0, SyntaxErrorKind::UnterminatedClass),
        ("(ab", 0, SyntaxErrorKind::UnmatchedGroup),
        ("(a|(b)", 0, SyntaxErrorKind::UnmatchedGroup),
        ("ab)", 2, SyntaxErrorKind::UnmatchedGroup),
        ("a{", 1, SyntaxErrorKind::MalformedQuantifier),
        ("a{x}", 1, SyntaxErrorKind::MalformedQuantifier),
        ("a{1,", 1, SyntaxErrorKind::MalformedQuantifier),
        ("a{1,}", 1, SyntaxErrorKind::MalformedQuantifier),
        ("a{4294967296}", 1, SyntaxErrorKind::MalformedQuantifier),
        ("a{3,2}", 1, SyntaxErrorKind::QuantifierRange),
        ("(a|)", 3, SyntaxErrorKind::EmptyBranch),
        ("(|a)", 1, SyntaxErrorKind::EmptyBranch),
        ("(a||b)", 3, SyntaxErrorKind::EmptyBranch),
    ];
    for (text, position, kind) in cases {
        assert_eq!(parse(text), Err(SyntaxError { position, kind }), "{}", text);
    }
}

#[test]
fn parse_builds_the_tree_of_the_text() {
    assert_eq!(
        parse("x(a|b[0-9]){1,2}é"),
        Ok(Node::Concat(vec![
            Node::Literal('x'),
            Node::Repeat(
                Box::new(Node::Alternate(vec![
                    Node::Concat(vec![Node::Literal('a')]),
                    Node::Concat(vec![
                        Node::Literal('b'),
                        Node::CharClass {
                            chars: vec!['0', '1', '2', '3', '4', '5', '6', '7', '8', '9'],
                            negated: false,
                        },
                    ]),
                ])),
                1,
                2,
            ),
            Node::Literal('é'),
        ]))
    );
    assert_eq!(
        parse("a{4294967295}"),
        Ok(Node::Concat(vec![Node::Repeat(Box::new(Node::Literal('a')), 4294967295, 4294967295)]))
    );
}

#[test]
fn repetition_with_lower_count_above_upper_is_empty() {
    let words = no_words();
    let node = Node::Repeat(Box::new(Node::Literal('a')), 3, 2);
    assert_eq!(size(&node, &words), Ok(Count::zero()));
    assert_eq!(generate(&node, &words, &Count::zero()), Err(Failure::IndexOutOfRange));
}

#[test]
fn repetition_from_zero_starts_with_the_empty_string() {
    let words = no_words();
    let node = parse("[ab]{0,2}").unwrap();
    assert_eq!(size(&node, &words), Ok(Count::from_u64(7)));
    let mut decoded: Vec<String> = Vec::new();
    for i in 0..7 {
        decoded.push(at(&node, &words, i));
    }
    assert_eq!(decoded, vec!["", "a", "b", "aa", "ab", "ba", "bb"]);
}

#[test]
fn compile_reads_and_counts() {
    let words = fruit();
    let (node, total) = compile("[:word:][0-9]", &words).unwrap();
    assert_eq!(total, Count::from_u64(30));
    assert_eq!(at(&node, &words, 29), "cherry9");
    assert_eq!(
        compile("[:word:", &words),
        Err(Failure::SchemaSyntax(SyntaxError {
            position: 0,
            kind: SyntaxErrorKind::UnterminatedClass
        }))
    );
    assert_eq!(compile("()", &words), Err(Failure::EmptyLanguage));
    assert_eq!(compile("x()", &words), Err(Failure::EmptyLanguage));
    assert_eq!(compile("[:word:]", &no_words()), Err(Failure::EmptyLanguage));
    assert_eq!(compile("[!-~]{40}", &words), Err(Failure::SchemaTooLarge));
    assert_eq!(compile("[!-~]{40}()", &words), Err(Failure::SchemaTooLarge));
}
