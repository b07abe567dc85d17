//! The grammar of schema texts, as functions from a text and a position to
//! what is read there.
//!
//! A schema is a sequence of items. An item is an atom, or an atom with a
//! quantifier `{m}` or `{m,n}` after it. An atom is a character class in
//! square brackets, a group in round brackets, or any character that is none
//! of `[ ] ( ) { } |`, which stands for itself. A group holds alternatives
//! separated by `|`, each of them a sequence of at least one item; `()` is the
//! group without alternatives. A class is `[:word:]` or `[:Word:]`, one word
//! of the word list, or a list of characters and of ranges `a-b` of ASCII
//! characters, negated where the list begins with `^`.
//!
//! Positions count characters from zero. A function that reads a list takes
//! what was read so far and hands it on.

use crate::error::{SyntaxError, SyntaxErrorKind};
use crate::schema::{each_well_formed, well_formed, CaseStyle, Schema};
use vstd::prelude::*;

verus! {

/// What reading one schema gives: the schema and the position after it.
pub type Parsed = Result<(Schema, int), SyntaxError>;

/// What reading a list of schemas gives: the list and the position after it.
pub type ParsedList = Result<(Seq<Schema>, int), SyntaxError>;

/// The error of the given kind at the given position.
pub open spec fn refused(position: int, kind: SyntaxErrorKind) -> SyntaxError {
    SyntaxError { position: position as usize, kind }
}

/// Whether `c` is a decimal digit.
pub open spec fn is_digit(c: char) -> bool {
    '0' <= c <= '9'
}

/// Whether `c` is an ASCII character.
pub open spec fn is_ascii(c: char) -> bool {
    c as u32 <= 0x7f
}

/// What a decimal digit counts; zero for any other character.
pub open spec fn digit_value(c: char) -> nat {
    if is_digit(c) {
        (c as u32 - '0' as u32) as nat
    } else {
        0
    }
}

/// The position after the digits that begin at `pos`.
pub open spec fn digits_end(s: Seq<char>, pos: int) -> int
    decreases s.len() - pos,
{
    if 0 <= pos < s.len() && is_digit(s[pos]) {
        digits_end(s, pos + 1)
    } else {
        pos
    }
}

/// The number that the digits from `from` up to `to` write in decimal.
pub open spec fn decimal(s: Seq<char>, from: int, to: int) -> nat
    decreases to - from,
{
    if to <= from {
        0
    } else {
        decimal(s, from, to - 1) * 10 + digit_value(s[to - 1])
    }
}

/// The number written at `pos`, and the position after it: at least one
/// digit, and a value of at most `u32::MAX`.
pub open spec fn parse_number(s: Seq<char>, pos: int) -> Option<(nat, int)> {
    let end = digits_end(s, pos);
    if end == pos || decimal(s, pos, end) > u32::MAX {
        None
    } else {
        Some((decimal(s, pos, end), end))
    }
}

/// The quantifier whose `{` is at `pos`: its two counts, and the position
/// after its `}`.
pub open spec fn parse_quantifier(s: Seq<char>, pos: int) -> Result<(nat, nat, int), SyntaxError> {
    let malformed = Err(refused(pos, SyntaxErrorKind::MalformedQuantifier));
    match parse_number(s, pos + 1) {
        None => malformed,
        Some((min, p)) => if p < s.len() && s[p] == '}' {
            Ok((min, min, p + 1))
        } else if p < s.len() && s[p] == ',' {
            match parse_number(s, p + 1) {
                None => malformed,
                Some((max, q)) => if q < s.len() && s[q] == '}' {
                    if min > max {
                        Err(refused(pos, SyntaxErrorKind::QuantifierRange))
                    } else {
                        Ok((min, max, q + 1))
                    }
                } else {
                    malformed
                },
            }
        } else {
            malformed
        },
    }
}

/// The list with `c` added at its end, unless it holds `c` already.
pub open spec fn add_char(list: Seq<char>, c: char) -> Seq<char> {
    if list.contains(c) {
        list
    } else {
        list.push(c)
    }
}

/// The list with the characters added whose codes run from `first` to `last`.
pub open spec fn add_range(list: Seq<char>, first: int, last: int) -> Seq<char>
    decreases last - first + 1,
{
    if first > last {
        list
    } else {
        add_range(add_char(list, first as char), first + 1, last)
    }
}

/// The text that stands for one word of the word list in the given style.
pub open spec fn word_tag(style: CaseStyle) -> Seq<char> {
    match style {
        CaseStyle::Lower => seq!['[', ':', 'w', 'o', 'r', 'd', ':', ']'],
        CaseStyle::Capitalized => seq!['[', ':', 'W', 'o', 'r', 'd', ':', ']'],
    }
}

/// Whether `tag` stands in `s` at `pos`.
pub open spec fn stands_at(s: Seq<char>, pos: int, tag: Seq<char>) -> bool {
    0 <= pos && pos + tag.len() <= s.len() && s.subrange(pos, pos + tag.len()) == tag
}

/// The characters listed in a class from `pos` up to its `]`, added to
/// `list`, and the position after the `]`. The `[` of the class is at `open`.
pub open spec fn parse_class_items(s: Seq<char>, pos: int, open: int, list: Seq<char>) -> Result<
    (Seq<char>, int),
    SyntaxError,
>
    decreases s.len() - pos,
{
    if pos < 0 || pos >= s.len() {
        Err(refused(open, SyntaxErrorKind::UnterminatedClass))
    } else if s[pos] == ']' {
        Ok((list, pos + 1))
    } else if pos + 2 < s.len() && s[pos + 1] == '-' && s[pos + 2] != ']' {
        if !is_ascii(s[pos]) {
            Err(refused(pos, SyntaxErrorKind::UnexpectedCharacter))
        } else if !is_ascii(s[pos + 2]) || (s[pos + 2] as u32) < (s[pos] as u32) {
            Err(refused(pos + 2, SyntaxErrorKind::UnexpectedCharacter))
        } else {
            parse_class_items(
                s,
                pos + 3,
                open,
                add_range(list, s[pos] as u32 as int, s[pos + 2] as u32 as int),
            )
        }
    } else {
        parse_class_items(s, pos + 1, open, add_char(list, s[pos]))
    }
}

/// The class whose `[` is at `pos`, and the position after its `]`.
pub open spec fn parse_class(s: Seq<char>, pos: int) -> Parsed {
    if stands_at(s, pos, word_tag(CaseStyle::Lower)) {
        Ok((Schema::WordClass(CaseStyle::Lower), pos + 8))
    } else if stands_at(s, pos, word_tag(CaseStyle::Capitalized)) {
        Ok((Schema::WordClass(CaseStyle::Capitalized), pos + 8))
    } else {
        let negated = pos + 1 < s.len() && s[pos + 1] == '^';
        let start = if negated {
            pos + 2
        } else {
            pos + 1
        };
        match parse_class_items(s, start, pos, Seq::empty()) {
            Ok((chars, next)) => Ok((Schema::CharClass { chars, negated }, next)),
            Err(e) => Err(e),
        }
    }
}

/// The group whose `(` is at `pos`, and the position after its `)`.
pub open spec fn parse_group(s: Seq<char>, pos: int) -> Parsed
    decreases s.len() - pos, 0nat,
{
    if pos < 0 || pos >= s.len() {
        Err(refused(pos, SyntaxErrorKind::UnmatchedGroup))
    } else if pos + 1 < s.len() && s[pos + 1] == ')' {
        Ok((Schema::Alternate(Seq::empty()), pos + 2))
    } else {
        match parse_branches(s, pos + 1, pos, Seq::empty()) {
            Ok((branches, next)) => Ok((Schema::Alternate(branches), next)),
            Err(e) => Err(e),
        }
    }
}

/// The atom at `pos`, and the position after it.
pub open spec fn parse_atom(s: Seq<char>, pos: int) -> Parsed
    decreases s.len() - pos, 1nat,
{
    let c = s[pos];
    if c == '[' {
        parse_class(s, pos)
    } else if c == '(' {
        parse_group(s, pos)
    } else if c == ')' {
        Err(refused(pos, SyntaxErrorKind::UnmatchedGroup))
    } else if c == ']' || c == '{' || c == '}' || c == '|' {
        Err(refused(pos, SyntaxErrorKind::UnexpectedCharacter))
    } else {
        Ok((Schema::Literal(c), pos + 1))
    }
}

/// The item at `pos`, and the position after it: an atom, repeated where a
/// quantifier follows it.
pub open spec fn parse_item(s: Seq<char>, pos: int) -> Parsed
    decreases s.len() - pos, 2nat,
{
    match parse_atom(s, pos) {
        Err(e) => Err(e),
        Ok((atom, next)) => if 0 <= next < s.len() && s[next] == '{' {
            match parse_quantifier(s, next) {
                Err(e) => Err(e),
                Ok((min, max, end)) => Ok((Schema::Repeat(Box::new(atom), min, max), end)),
            }
        } else {
            Ok((atom, next))
        },
    }
}

/// The items from `pos` up to the end of the text or the next `)` or `|`,
/// added to `list`, and the position where they end.
pub open spec fn parse_sequence(s: Seq<char>, pos: int, list: Seq<Schema>) -> ParsedList
    decreases s.len() - pos, 3nat,
{
    if pos < 0 || pos >= s.len() || s[pos] == ')' || s[pos] == '|' {
        Ok((list, pos))
    } else {
        match parse_item(s, pos) {
            Err(e) => Err(e),
            Ok((item, next)) => if pos < next <= s.len() {
                parse_sequence(s, next, list.push(item))
            } else {
                Ok((list, pos))
            },
        }
    }
}

/// The alternatives of a group from `pos` up to its `)`, added to `list`, and
/// the position after the `)`. The `(` of the group is at `open`.
pub open spec fn parse_branches(s: Seq<char>, pos: int, open: int, list: Seq<Schema>) -> ParsedList
    decreases s.len() - pos, 4nat,
{
    match parse_sequence(s, pos, Seq::empty()) {
        Err(e) => Err(e),
        Ok((items, next)) => if next < pos || next >= s.len() {
            Err(refused(open, SyntaxErrorKind::UnmatchedGroup))
        } else if items.len() == 0 {
            Err(refused(pos, SyntaxErrorKind::EmptyBranch))
        } else if s[next] == ')' {
            Ok((list.push(Schema::Concat(items)), next + 1))
        } else {
            parse_branches(s, next + 1, open, list.push(Schema::Concat(items)))
        },
    }
}

/// The schema that a text stands for, or why it stands for none.
pub open spec fn parse_schema(s: Seq<char>) -> Result<Schema, SyntaxError> {
    match parse_sequence(s, 0, Seq::empty()) {
        Err(e) => Err(e),
        Ok((items, next)) => if next >= s.len() {
            Ok(Schema::Concat(items))
        } else if s[next] == ')' {
            Err(refused(next, SyntaxErrorKind::UnmatchedGroup))
        } else {
            Err(refused(next, SyntaxErrorKind::UnexpectedCharacter))
        },
    }
}

/// Adding a range to a list without duplicates leaves it without duplicates.
proof fn lemma_add_range_distinct(list: Seq<char>, first: int, last: int)
    requires
        list.no_duplicates(),
    ensures
        add_range(list, first, last).no_duplicates(),
    decreases last - first + 1,
{
    if first <= last {
        lemma_add_range_distinct(add_char(list, first as char), first + 1, last);
    }
}

/// The characters that are read for a class are listed once each.
proof fn lemma_class_items_distinct(s: Seq<char>, pos: int, open: int, list: Seq<char>)
    requires
        list.no_duplicates(),
    ensures
        parse_class_items(s, pos, open, list) matches Ok((chars, _)) ==> chars.no_duplicates(),
    decreases s.len() - pos,
{
    if pos < 0 || pos >= s.len() {
    } else if s[pos] == ']' {
    } else if pos + 2 < s.len() && s[pos + 1] == '-' && s[pos + 2] != ']' {
        if is_ascii(s[pos]) && is_ascii(s[pos + 2]) && (s[pos + 2] as u32) >= (s[pos] as u32) {
            let next = add_range(list, s[pos] as u32 as int, s[pos + 2] as u32 as int);
            lemma_add_range_distinct(list, s[pos] as u32 as int, s[pos + 2] as u32 as int);
            lemma_class_items_distinct(s, pos + 3, open, next);
        }
    } else {
        lemma_class_items_distinct(s, pos + 1, open, add_char(list, s[pos]));
    }
}

/// The group that is read at a position is well formed.
proof fn lemma_group_well_formed(s: Seq<char>, pos: int)
    ensures
        parse_group(s, pos) matches Ok((group, _)) ==> well_formed(group),
    decreases s.len() - pos, 0nat,
{
    if pos < 0 || pos >= s.len() {
    } else if pos + 1 < s.len() && s[pos + 1] == ')' {
    } else {
        lemma_branches_well_formed(s, pos + 1, pos, Seq::empty());
    }
}

/// The atom that is read at a position is well formed.
proof fn lemma_atom_well_formed(s: Seq<char>, pos: int)
    ensures
        parse_atom(s, pos) matches Ok((atom, _)) ==> well_formed(atom),
    decreases s.len() - pos, 1nat,
{
    let c = s[pos];
    if c == '[' {
        let negated = pos + 1 < s.len() && s[pos + 1] == '^';
        let start = if negated {
            pos + 2
        } else {
            pos + 1
        };
        lemma_class_items_distinct(s, start, pos, Seq::empty());
    } else if c == '(' {
        lemma_group_well_formed(s, pos);
    }
}

/// The item that is read at a position is well formed.
proof fn lemma_item_well_formed(s: Seq<char>, pos: int)
    ensures
        parse_item(s, pos) matches Ok((item, _)) ==> well_formed(item),
    decreases s.len() - pos, 2nat,
{
    lemma_atom_well_formed(s, pos);
}

/// The items that are read from a position on are well formed, where those
/// read before them are.
proof fn lemma_sequence_well_formed(s: Seq<char>, pos: int, list: Seq<Schema>)
    requires
        each_well_formed(list),
    ensures
        parse_sequence(s, pos, list) matches Ok((items, _)) ==> each_well_formed(items),
    decreases s.len() - pos, 3nat,
{
    if pos < 0 || pos >= s.len() || s[pos] == ')' || s[pos] == '|' {
    } else {
        lemma_item_well_formed(s, pos);
        match parse_item(s, pos) {
            Err(e) => {},
            Ok((item, next)) => {
                if pos < next <= s.len() {
                    lemma_sequence_well_formed(s, next, list.push(item));
                }
            },
        }
    }
}

/// The alternatives that are read from a position on are well formed, where
/// those read before them are.
proof fn lemma_branches_well_formed(s: Seq<char>, pos: int, open: int, list: Seq<Schema>)
    requires
        each_well_formed(list),
    ensures
        parse_branches(s, pos, open, list) matches Ok((branches, _)) ==> each_well_formed(branches),
    decreases s.len() - pos, 4nat,
{
    lemma_sequence_well_formed(s, pos, Seq::empty());
    match parse_sequence(s, pos, Seq::empty()) {
        Err(e) => {},
        Ok((items, next)) => {
            if next < pos || next >= s.len() {
            } else if items.len() == 0 {
            } else {
                let grown = list.push(Schema::Concat(items));
                assert(well_formed(Schema::Concat(items)));
                if s[next] != ')' {
                    lemma_branches_well_formed(s, next + 1, open, grown);
                }
            }
        },
    }
}

/// The schema that a text stands for is well formed: no class lists a
/// character twice, and no repetition has its lower count above its upper
/// count.
pub proof fn lemma_parsed_well_formed(s: Seq<char>)
    ensures
        parse_schema(s) matches Ok(schema) ==> well_formed(schema),
{
    lemma_sequence_well_formed(s, 0, Seq::empty());
}

} // verus!
