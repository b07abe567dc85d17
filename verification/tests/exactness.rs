use onepass::cardinality::size;
use onepass::charset::{complement, contains, member_at, members_len};
use onepass::count::Count;
use onepass::generate::generate;
use onepass::parser::parse;
use onepass::schema::{CaseStyle, Node};
use onepass::words::{render_into, to_lower, to_upper, Words};
use std::collections::BTreeSet;

fn pets() -> Words {
    Words::new(vec!["cat".to_string(), "dog".to_string(), "Emu".to_string()])
}

fn written(word: &str, style: CaseStyle) -> String {
    let lower = word.to_ascii_lowercase();
    match style {
        CaseStyle::Lower => lower,
        CaseStyle::Capitalized => {
            let mut chars = lower.chars();
            match chars.next() {
                Some(first) => format!("{}{}", first.to_ascii_uppercase(), chars.as_str()),
                None => String::new(),
            }
        }
    }
}

/// Every way in which the node produces a string, by plain enumeration.
fn enumerate(node: &Node, words: &[&str]) -> Vec<String> {
    match node {
        Node::Literal(c) => vec![c.to_string()],
        Node::CharClass { chars, negated } => {
            if *negated {
                (0x20u8..=0x7e).map(|b| b as char).filter(|c| !chars.contains(c)).map(String::from).collect()
            } else {
                chars.iter().map(|c| c.to_string()).collect()
            }
        }
        Node::WordClass(style) => words.iter().map(|w| written(w, *style)).collect(),
        Node::Concat(parts) => {
            let mut all = vec![String::new()];
            for part in parts {
                let tails = enumerate(part, words);
                let mut next = Vec::new();
                for head in &all {
                    for tail in &tails {
                        next.push(format!("{}{}", head, tail));
                    }
                }
                all = next;
            }
            all
        }
        Node::Alternate(branches) => {
            let mut all = Vec::new();
            for branch in branches {
                all.extend(enumerate(branch, words));
            }
            all
        }
        Node::Repeat(part, min, max) => {
            let once = enumerate(part, words);
            let mut all = Vec::new();
            for count in *min..=*max {
                let mut level = vec![String::new()];
                for _ in 0..count {
                    let mut next = Vec::new();
                    for head in &level {
                        for tail in &once {
                            next.push(format!("{}{}", head, tail));
                        }
                    }
                    level = next;
                }
                all.extend(level);
            }
            all
        }
    }
}

fn decode_all(node: &Node, words: &Words) -> Vec<String> {
    let total = size(node, words).unwrap();
    assert_eq!(total.high(), 0);
    let mut all = Vec::new();
    for i in 0..total.low() {
        all.push(generate(node, words, &Count::from_parts(0, i)).unwrap());
    }
    assert!(generate(node, words, &total).is_err());
    all
}

const UNAMBIGUOUS: [&str; 14] = [
    "",
    "a",
    "[abc]",
    "[a-c][x-z]",
    "(a|bb)",
    "[ab]{2,3}",
    "[ab]{0,3}",
    "(a|b[01]|c[01]{2})",
    "x[:word:]-[:Word:]",
    "([:word:]|[0-9])",
    "([ab]c){0,2}",
    "(ab|cd){2}[xy]",
    "[^ -}]{1,2}",
    "()",
];

#[test]
fn size_is_the_number_of_strings() {
    let words = pets();
    for text in UNAMBIGUOUS {
        let node = parse(text).unwrap();
        let language: BTreeSet<String> =
            enumerate(&node, &["cat", "dog", "Emu"]).into_iter().collect();
        assert_eq!(
            size(&node, &words),
            Ok(Count::from_u64(language.len() as u64)),
            "{}",
            text
        );
    }
}

#[test]
fn indices_and_strings_correspond_one_to_one() {
    let words = pets();
    for text in UNAMBIGUOUS {
        let node = parse(text).unwrap();
        let language: BTreeSet<String> =
            enumerate(&node, &["cat", "dog", "Emu"]).into_iter().collect();
        let decoded = decode_all(&node, &words);
        let distinct: BTreeSet<String> = decoded.iter().cloned().collect();
        assert_eq!(distinct.len(), decoded.len(), "{}", text);
        assert_eq!(distinct, language, "{}", text);
    }
}

#[test]
fn decoding_follows_the_order_of_enumeration() {
    let words = pets();
    for text in UNAMBIGUOUS {
        let node = parse(text).unwrap();
        assert_eq!(decode_all(&node, &words), enumerate(&node, &["cat", "dog", "Emu"]), "{}", text);
    }
}

#[test]
fn ambiguous_schemas_count_ways_not_strings() {
    let words = pets();
    for (text, ways, strings) in [("(a|a)", 2, 1), ("(a|aa){2}", 4, 3), ("[aa]", 1, 1)] {
        let node = parse(text).unwrap();
        let produced = enumerate(&node, &["cat", "dog", "Emu"]);
        let language: BTreeSet<String> = produced.iter().cloned().collect();
        let decoded = decode_all(&node, &words);
        assert_eq!(decoded.len(), ways, "{}", text);
        assert_eq!(language.len(), strings, "{}", text);
        let distinct: BTreeSet<String> = decoded.into_iter().collect();
        assert_eq!(distinct, language, "{}", text);
    }
}

#[test]
fn decoding_twice_gives_the_same_string() {
    let words = pets();
    let node = parse("[:Word:]([0-9]|[a-f]{2}){1,2}").unwrap();
    let total = size(&node, &words).unwrap();
    for i in 0..total.low() {
        let index = Count::from_parts(0, i);
        assert_eq!(generate(&node, &words, &index), generate(&node, &words, &index));
    }
}

#[test]
fn hand_built_trees_are_counted_and_decoded() {
    let words = pets();
    let node = Node::Concat(vec![
        Node::Repeat(Box::new(Node::CharClass { chars: vec!['x', 'y'], negated: false }), 1, 1),
        Node::Alternate(vec![Node::WordClass(CaseStyle::Capitalized), Node::Literal('!')]),
    ]);
    assert_eq!(size(&node, &words), Ok(Count::from_u64(8)));
    assert_eq!(
        decode_all(&node, &words),
        vec!["xCat", "xDog", "xEmu", "x!", "yCat", "yDog", "yEmu", "y!"]
    );
    let single = Node::Repeat(Box::new(Node::Literal('a')), 1000, 1000);
    assert_eq!(size(&single, &words), Ok(Count::one()));
    assert_eq!(generate(&single, &words, &Count::zero()), Ok("a".repeat(1000)));
    let nothing = Node::Repeat(Box::new(Node::Alternate(Vec::new())), 0, 5);
    assert_eq!(size(&nothing, &words), Ok(Count::one()));
    assert_eq!(generate(&nothing, &words, &Count::zero()), Ok(String::new()));
}

#[test]
fn counts_compare_and_convert() {
    let small = Count::from_u64(41);
    let wide = Count::from_parts(1, 0);
    assert!(small.is_below(&wide));
    assert!(!wide.is_below(&small));
    assert!(!small.is_below(&small));
    assert!(Count::from_parts(1, 5).is_below(&Count::from_parts(2, 0)));
    assert!(Count::from_parts(1, 5).is_below(&Count::from_parts(1, 6)));
    assert_eq!(small.to_index(42), Some(41));
    assert_eq!(small.to_index(41), None);
    assert_eq!(wide.to_index(usize::MAX), None);
    assert_eq!(Count::from_usize(7), Count::from_u64(7));
    assert_eq!(Count::zero().low(), 0);
    assert_eq!(Count::one().low(), 1);
    assert_eq!(wide.high(), 1);
    assert!(Count::zero().is_zero());
    assert!(!wide.is_zero());
    assert!(Count::one().is_one());
    assert!(!Count::from_parts(1, 1).is_one());
}

#[test]
fn classes_list_their_members() {
    let listed = vec!['b', 'a', '~'];
    assert!(contains(&listed, 'a'));
    assert!(!contains(&listed, 'c'));
    assert_eq!(members_len(&listed, false), 3);
    assert_eq!(members_len(&listed, true), 92);
    assert_eq!(member_at(&listed, false, 0), Some('b'));
    assert_eq!(member_at(&listed, false, 3), None);
    assert_eq!(member_at(&listed, true, 0), Some(' '));
    assert_eq!(member_at(&listed, true, 91), Some('}'));
    assert_eq!(member_at(&listed, true, 92), None);
    let outside = complement(&vec!['é']);
    assert_eq!(outside.len(), 95);
    assert_eq!(outside[0], ' ');
    assert_eq!(outside[94], '~');
}

#[test]
fn words_are_looked_up_and_styled() {
    let words = pets();
    assert_eq!(words.len(), 3);
    assert_eq!(words.get(2), Some("Emu"));
    assert_eq!(words.get(3), None);
    assert_eq!(words.render(2, CaseStyle::Lower), Some("emu".to_string()));
    assert_eq!(words.render(2, CaseStyle::Capitalized), Some("Emu".to_string()));
    assert_eq!(words.render(0, CaseStyle::Capitalized), Some("Cat".to_string()));
    assert_eq!(words.render(3, CaseStyle::Lower), None);
    assert_eq!(to_lower('Q'), 'q');
    assert_eq!(to_lower('q'), 'q');
    assert_eq!(to_lower('É'), 'É');
    assert_eq!(to_upper('q'), 'Q');
    assert_eq!(to_upper('1'), '1');
    let mut out = String::from("> ");
    render_into("mIxEd-9", CaseStyle::Capitalized, &mut out);
    assert_eq!(out, "> Mixed-9");
    render_into("", CaseStyle::Capitalized, &mut out);
    assert_eq!(out, "> Mixed-9");
}

#[test]
fn word_lists_are_checked_for_duplicates() {
    assert!(pets().is_distinct());
    assert!(Words::new(Vec::new()).is_distinct());
    assert!(Words::new(vec!["a".to_string()]).is_distinct());
    assert!(!Words::new(vec!["cat".to_string(), "dog".to_string(), "cat".to_string()]).is_distinct());
    assert!(!Words::new(vec!["cat".to_string(), "Cat".to_string()]).is_distinct());
    assert!(Words::new(vec!["cat".to_string(), "cats".to_string(), "at".to_string()]).is_distinct());
    assert!(!Words::new(vec!["".to_string(), "x".to_string(), "".to_string()]).is_distinct());
}
