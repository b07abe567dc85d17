//! Reading a schema text into a schema tree.

use crate::charset::contains;
use crate::error::{SyntaxError, SyntaxErrorKind};
use crate::grammar::{
    add_char, add_range, decimal, digits_end, is_digit, parse_atom, parse_branches,
    parse_class, parse_class_items, parse_group, parse_item, parse_number, parse_quantifier,
    lemma_parsed_well_formed, parse_schema, parse_sequence, stands_at, word_tag, Parsed,
    ParsedList,
};
use crate::schema::{models, well_formed, CaseStyle, Node, Schema};
use vstd::prelude::*;

verus! {

/// What a result of reading one node stands for.
pub open spec fn as_parsed(r: Result<(Node, usize), SyntaxError>) -> Parsed {
    match r {
        Ok((node, next)) => Ok((node@, next as int)),
        Err(e) => Err(e),
    }
}

/// What a result of reading a list of nodes stands for.
pub open spec fn as_parsed_list(r: Result<(Vec<Node>, usize), SyntaxError>) -> ParsedList {
    match r {
        Ok((nodes, next)) => Ok((models(nodes@), next as int)),
        Err(e) => Err(e),
    }
}

/// The digits that begin at `pos` end between `pos` and the end of the text.
proof fn lemma_digits_end_bounds(s: Seq<char>, pos: int)
    requires
        0 <= pos <= s.len(),
    ensures
        pos <= digits_end(s, pos) <= s.len(),
    decreases s.len() - pos,
{
    if pos < s.len() && is_digit(s[pos]) {
        lemma_digits_end_bounds(s, pos + 1);
    }
}

/// More digits write no smaller a number.
proof fn lemma_decimal_monotone(s: Seq<char>, from: int, mid: int, to: int)
    requires
        from <= mid <= to,
    ensures
        decimal(s, from, mid) <= decimal(s, from, to),
    decreases to - mid,
{
    if mid < to {
        lemma_decimal_monotone(s, from, mid, to - 1);
    }
}

/// The character at position `i`.
fn at(s: &Vec<char>, i: usize) -> (c: char)
    requires
        i < s.len(),
    ensures
        c == s@[i as int],
{
    s[i]
}

/// The characters of a text.
fn chars_of(text: &str) -> (r: Vec<char>)
    ensures
        r@ == text@,
{
    let n: usize = text.unicode_len();
    let mut out: Vec<char> = Vec::new();
    let mut i: usize = 0;
    while i < n
        invariant
            i <= n,
            n == text@.len(),
            out@ == text@.take(i as int),
        decreases n - i,
    {
        out.push(text.get_char(i));
        assert(text@.take(i + 1) =~= text@.take(i as int).push(text@[i as int]));
        i += 1;
    }
    assert(text@.take(n as int) =~= text@);
    out
}

/// The number written at `pos`.
fn read_number(s: &Vec<char>, pos: usize) -> (r: Option<(u32, usize)>)
    requires
        pos <= s.len(),
    ensures
        match r {
            Some((value, end)) => parse_number(s@, pos as int) == Some((value as nat, end as int))
                && pos < end <= s.len(),
            None => parse_number(s@, pos as int) is None,
        },
{
    let mut i: usize = pos;
    let mut value: u64 = 0;
    while i < s.len() && s[i] >= '0' && s[i] <= '9'
        invariant
            pos <= i <= s.len(),
            digits_end(s@, pos as int) == digits_end(s@, i as int),
            value == decimal(s@, pos as int, i as int),
            value <= u32::MAX,
        decreases s.len() - i,
    {
        let d: u32 = s[i] as u32 - '0' as u32;
        value = value * 10 + d as u64;
        i += 1;
        if value > u32::MAX as u64 {
            proof {
                lemma_digits_end_bounds(s@, i as int);
                lemma_decimal_monotone(s@, pos as int, i as int, digits_end(s@, i as int));
            }
            return None;
        }
    }
    if i == pos {
        None
    } else {
        Some((value as u32, i))
    }
}

/// The quantifier whose `{` is at `pos`.
fn read_quantifier(s: &Vec<char>, pos: usize) -> (r: Result<(u32, u32, usize), SyntaxError>)
    requires
        pos < s.len(),
    ensures
        match r {
            Ok((min, max, next)) => parse_quantifier(s@, pos as int) == Ok::<
                (nat, nat, int),
                SyntaxError,
            >((min as nat, max as nat, next as int)) && pos < next <= s.len(),
            Err(e) => parse_quantifier(s@, pos as int) == Err::<(nat, nat, int), SyntaxError>(e),
        },
{
    let malformed = SyntaxError { position: pos, kind: SyntaxErrorKind::MalformedQuantifier };
    match read_number(s, pos + 1) {
        None => Err(malformed),
        Some((min, p)) => {
            if p < s.len() && s[p] == '}' {
                Ok((min, min, p + 1))
            } else if p < s.len() && s[p] == ',' {
                match read_number(s, p + 1) {
                    None => Err(malformed),
                    Some((max, q)) => {
                        if q < s.len() && s[q] == '}' {
                            if min > max {
                                Err(
                                    SyntaxError {
                                        position: pos,
                                        kind: SyntaxErrorKind::QuantifierRange,
                                    },
                                )
                            } else {
                                Ok((min, max, q + 1))
                            }
                        } else {
                            Err(malformed)
                        }
                    },
                }
            } else {
                Err(malformed)
            }
        },
    }
}

/// Adds `c` at the end of the list, unless the list holds it already.
fn push_char(list: &mut Vec<char>, c: char)
    ensures
        final(list)@ == add_char(old(list)@, c),
{
    if !contains(list, c) {
        list.push(c);
    }
}

/// Adds the characters whose codes run from `first` to `last`.
fn push_range(list: &mut Vec<char>, first: u8, last: u8)
    requires
        first <= last <= 0x7f,
    ensures
        final(list)@ == add_range(old(list)@, first as int, last as int),
{
    let mut code: u8 = first;
    while code <= last
        invariant
            first <= code <= last + 1,
            last <= 0x7f,
            add_range(old(list)@, first as int, last as int) == add_range(
                list@,
                code as int,
                last as int,
            ),
        decreases last + 1 - code,
    {
        push_char(list, code as char);
        code += 1;
    }
}

/// The text that stands for one word of the word list in the given style.
fn word_tag_chars(style: CaseStyle) -> (r: Vec<char>)
    ensures
        r@ == word_tag(style),
{
    let mut tag: Vec<char> = Vec::new();
    tag.push('[');
    tag.push(':');
    match style {
        CaseStyle::Lower => tag.push('w'),
        CaseStyle::Capitalized => tag.push('W'),
    }
    tag.push('o');
    tag.push('r');
    tag.push('d');
    tag.push(':');
    tag.push(']');
    assert(tag@ =~= word_tag(style));
    tag
}

/// Whether `tag` stands in the text at `pos`.
fn tag_stands_at(s: &Vec<char>, pos: usize, tag: &Vec<char>) -> (r: bool)
    requires
        pos <= s.len(),
    ensures
        r == stands_at(s@, pos as int, tag@),
{
    if s.len() - pos < tag.len() {
        return false;
    }
    let mut i: usize = 0;
    while i < tag.len()
        invariant
            i <= tag.len(),
            pos + tag.len() <= s.len(),
            forall|k: int| 0 <= k < i ==> s@[pos + k] == tag@[k],
        decreases tag.len() - i,
    {
        if s[pos + i] != tag[i] {
            assert(s@.subrange(pos as int, pos + tag.len())[i as int] != tag@[i as int]);
            return false;
        }
        i += 1;
    }
    assert(s@.subrange(pos as int, pos + tag.len()) =~= tag@);
    true
}

/// The characters listed in a class from `start` up to its `]`.
fn read_class_items(s: &Vec<char>, start: usize, open: usize) -> (r: Result<
    (Vec<char>, usize),
    SyntaxError,
>)
    requires
        open < start <= s.len(),
    ensures
        match r {
            Ok((chars, next)) => parse_class_items(
                s@,
                start as int,
                open as int,
                Seq::empty(),
            ) == Ok::<(Seq<char>, int), SyntaxError>((chars@, next as int)) && start < next
                <= s.len(),
            Err(e) => parse_class_items(s@, start as int, open as int, Seq::empty()) == Err::<
                (Seq<char>, int),
                SyntaxError,
            >(e),
        },
{
    let mut list: Vec<char> = Vec::new();
    let mut pos: usize = start;
    loop
        invariant
            open < start <= pos <= s.len(),
            parse_class_items(s@, start as int, open as int, Seq::empty()) == parse_class_items(
                s@,
                pos as int,
                open as int,
                list@,
            ),
        decreases s.len() - pos,
    {
        if pos >= s.len() {
            return Err(SyntaxError { position: open, kind: SyntaxErrorKind::UnterminatedClass });
        }
        let c: char = at(s, pos);
        if c == ']' {
            return Ok((list, pos + 1));
        }
        if s.len() - pos > 2 && s[pos + 1] == '-' && s[pos + 2] != ']' {
            let last: char = at(s, pos + 2);
            let first_code: u32 = c as u32;
            let last_code: u32 = last as u32;
            if first_code > 0x7f {
                return Err(
                    SyntaxError { position: pos, kind: SyntaxErrorKind::UnexpectedCharacter },
                );
            }
            if last_code > 0x7f || last_code < first_code {
                return Err(
                    SyntaxError { position: pos + 2, kind: SyntaxErrorKind::UnexpectedCharacter },
                );
            }
            push_range(&mut list, first_code as u8, last_code as u8);
            
            pos += 3;
        } else {
            push_char(&mut list, c);
            pos += 1;
        }
    }
}

/// The class whose `[` is at `pos`.
fn read_class(s: &Vec<char>, pos: usize) -> (r: Result<(Node, usize), SyntaxError>)
    requires
        pos < s.len(),
    ensures
        as_parsed(r) == parse_class(s@, pos as int),
        r matches Ok((_, next)) ==> pos < next <= s.len(),
{
    if tag_stands_at(s, pos, &word_tag_chars(CaseStyle::Lower)) {
        return Ok((Node::WordClass(CaseStyle::Lower), pos + 8));
    }
    if tag_stands_at(s, pos, &word_tag_chars(CaseStyle::Capitalized)) {
        return Ok((Node::WordClass(CaseStyle::Capitalized), pos + 8));
    }
    let negated: bool = s.len() - pos > 1 && s[pos + 1] == '^';
    let start: usize = if negated {
        pos + 2
    } else {
        pos + 1
    };
    match read_class_items(s, start, pos) {
        Ok((chars, next)) => Ok((Node::CharClass { chars, negated }, next)),
        Err(e) => Err(e),
    }
}

/// The group whose `(` is at `pos`.
fn read_group(s: &Vec<char>, pos: usize) -> (r: Result<(Node, usize), SyntaxError>)
    requires
        pos < s.len(),
    ensures
        as_parsed(r) == parse_group(s@, pos as int),
        r matches Ok((_, next)) ==> pos < next <= s.len(),
    decreases s.len() - pos, 0nat,
{
    if s.len() - pos > 1 && s[pos + 1] == ')' {
        let none: Vec<Node> = Vec::new();
        assert(models(none@) =~= Seq::<Schema>::empty());
        return Ok((Node::Alternate(none), pos + 2));
    }
    match read_branches(s, pos + 1, pos) {
        Ok((branches, next)) => Ok((Node::Alternate(branches), next)),
        Err(e) => Err(e),
    }
}

/// The atom at `pos`.
fn read_atom(s: &Vec<char>, pos: usize) -> (r: Result<(Node, usize), SyntaxError>)
    requires
        pos < s.len(),
    ensures
        as_parsed(r) == parse_atom(s@, pos as int),
        r matches Ok((_, next)) ==> pos < next <= s.len(),
    decreases s.len() - pos, 1nat,
{
    let c: char = at(s, pos);
    if c == '[' {
        read_class(s, pos)
    } else if c == '(' {
        read_group(s, pos)
    } else if c == ')' {
        Err(SyntaxError { position: pos, kind: SyntaxErrorKind::UnmatchedGroup })
    } else if c == ']' || c == '{' || c == '}' || c == '|' {
        Err(SyntaxError { position: pos, kind: SyntaxErrorKind::UnexpectedCharacter })
    } else {
        Ok((Node::Literal(c), pos + 1))
    }
}

/// The item at `pos`.
fn read_item(s: &Vec<char>, pos: usize) -> (r: Result<(Node, usize), SyntaxError>)
    requires
        pos < s.len(),
    ensures
        as_parsed(r) == parse_item(s@, pos as int),
        r matches Ok((_, next)) ==> pos < next <= s.len(),
    decreases s.len() - pos, 2nat,
{
    match read_atom(s, pos) {
        Err(e) => Err(e),
        Ok((atom, next)) => {
            if next < s.len() && s[next] == '{' {
                match read_quantifier(s, next) {
                    Err(e) => Err(e),
                    Ok((min, max, end)) => Ok((Node::Repeat(Box::new(atom), min, max), end)),
                }
            } else {
                Ok((atom, next))
            }
        },
    }
}

/// The items from `pos` up to the end of the text or the next `)` or `|`.
fn read_sequence(s: &Vec<char>, pos: usize) -> (r: Result<(Vec<Node>, usize), SyntaxError>)
    requires
        pos <= s.len(),
    ensures
        as_parsed_list(r) == parse_sequence(s@, pos as int, Seq::empty()),
        r matches Ok((_, next)) ==> pos <= next <= s.len(),
    decreases s.len() - pos, 3nat,
{
    let mut items: Vec<Node> = Vec::new();
    let mut cur: usize = pos;
    assert(models(items@) =~= Seq::<Schema>::empty());
    loop
        invariant
            pos <= cur <= s.len(),
            parse_sequence(s@, pos as int, Seq::empty()) == parse_sequence(
                s@,
                cur as int,
                models(items@),
            ),
        decreases s.len() - cur,
    {
        if cur >= s.len() || s[cur] == ')' || s[cur] == '|' {
            return Ok((items, cur));
        }
        match read_item(s, cur) {
            Err(e) => {
                return Err(e);
            },
            Ok((node, next)) => {
                let ghost before = models(items@);
                items.push(node);
                assert(models(items@) =~= before.push(node@));
                cur = next;
            },
        }
    }
}

/// The alternatives of a group from `pos` up to its `)`.
fn read_branches(s: &Vec<char>, pos: usize, open: usize) -> (r: Result<
    (Vec<Node>, usize),
    SyntaxError,
>)
    requires
        open < pos <= s.len(),
    ensures
        as_parsed_list(r) == parse_branches(s@, pos as int, open as int, Seq::empty()),
        r matches Ok((_, next)) ==> pos < next <= s.len(),
    decreases s.len() - pos, 4nat,
{
    let mut branches: Vec<Node> = Vec::new();
    let mut cur: usize = pos;
    assert(models(branches@) =~= Seq::<Schema>::empty());
    loop
        invariant
            open < pos <= cur <= s.len(),
            parse_branches(s@, pos as int, open as int, Seq::empty()) == parse_branches(
                s@,
                cur as int,
                open as int,
                models(branches@),
            ),
        decreases s.len() - cur,
    {
        match read_sequence(s, cur) {
            Err(e) => {
                return Err(e);
            },
            Ok((items, next)) => {
                if next >= s.len() {
                    return Err(
                        SyntaxError { position: open, kind: SyntaxErrorKind::UnmatchedGroup },
                    );
                }
                if items.len() == 0 {
                    return Err(SyntaxError { position: cur, kind: SyntaxErrorKind::EmptyBranch });
                }
                let closing: bool = s[next] == ')';
                let ghost before = models(branches@);
                let branch = Node::Concat(items);
                branches.push(branch);
                assert(models(branches@) =~= before.push(branch@));
                if closing {
                    return Ok((branches, next + 1));
                }
                cur = next + 1;
            },
        }
    }
}

/// The schema tree that a text stands for, or why it stands for none.
pub fn parse(text: &str) -> (r: Result<Node, SyntaxError>)
    ensures
        match r {
            Ok(node) => parse_schema(text@) == Ok::<Schema, SyntaxError>(node@) && well_formed(
                node@,
            ),
            Err(e) => parse_schema(text@) == Err::<Schema, SyntaxError>(e),
        },
{
    proof {
        lemma_parsed_well_formed(text@);
    }
    let s = chars_of(text);
    match read_sequence(&s, 0) {
        Err(e) => Err(e),
        Ok((items, next)) => {
            if next >= s.len() {
                Ok(Node::Concat(items))
            } else if s[next] == ')' {
                Err(SyntaxError { position: next, kind: SyntaxErrorKind::UnmatchedGroup })
            } else {
                Err(SyntaxError { position: next, kind: SyntaxErrorKind::UnexpectedCharacter })
            }
        },
    }
}

} // verus!

