//! Character classes: which characters a class stands for, and in what order.

use vstd::prelude::*;

verus! {

/// The number of printable ASCII characters, from the space to the tilde.
pub const DOMAIN_LEN: u8 = 95;

/// The printable ASCII characters in ascending order: what a negated class is
/// taken from.
pub open spec fn domain() -> Seq<char> {
    Seq::new(95, |i: int| (0x20 + i) as char)
}

/// The characters that a class stands for, in the order of their indices.
///
/// A class that is not negated stands for its characters as they are listed;
/// a negated class stands for the printable ASCII characters that are not
/// listed, in ascending order.
pub open spec fn members(chars: Seq<char>, negated: bool) -> Seq<char> {
    if negated {
        domain().filter(unlisted(chars))
    } else {
        chars
    }
}

/// The test that a character is not among `chars`.
pub open spec fn unlisted(chars: Seq<char>) -> spec_fn(char) -> bool {
    |c: char| !chars.contains(c)
}

/// The unlisted characters among the first `k` printable ones are distinct
/// and come before the next printable one.
proof fn lemma_unlisted_prefix(chars: Seq<char>, k: int)
    requires
        0 <= k <= 95,
    ensures
        domain().take(k).filter(unlisted(chars)).no_duplicates(),
        forall|i: int|
            0 <= i < domain().take(k).filter(unlisted(chars)).len() ==> (#[trigger] domain().take(
                k,
            ).filter(unlisted(chars))[i] as int) < 0x20 + k,
    decreases k,
{
    if k == 0 {
        assert(domain().take(0) =~= Seq::<char>::empty());
    } else {
        lemma_unlisted_prefix(chars, k - 1);
        let c = domain()[k - 1];
        assert(domain().take(k) =~= domain().take(k - 1).push(c));
        domain().take(k - 1).lemma_filter_push(c, unlisted(chars));
    }
}

/// A negated class stands for at most the printable characters, and any
/// other class for as many characters as it lists.
pub proof fn lemma_members_len(chars: Seq<char>, negated: bool)
    ensures
        members(chars, negated).len() <= if negated {
            95
        } else {
            chars.len()
        },
{
    if negated {
        domain().lemma_filter_len(unlisted(chars));
    }
}

/// A class that lists no character twice stands for no character twice.
pub proof fn lemma_members_distinct(chars: Seq<char>, negated: bool)
    requires
        chars.no_duplicates(),
    ensures
        members(chars, negated).no_duplicates(),
{
    if negated {
        lemma_unlisted_prefix(chars, 95);
        assert(domain().take(95) =~= domain());
    }
}

/// Whether `c` is among `chars`.
pub fn contains(chars: &Vec<char>, c: char) -> (r: bool)
    ensures
        r == chars@.contains(c),
{
    let mut i: usize = 0;
    while i < chars.len()
        invariant
            i <= chars.len(),
            forall|j: int| 0 <= j < i ==> chars@[j] != c,
        decreases chars.len() - i,
    {
        if chars[i] == c {
            return true;
        }
        i += 1;
    }
    false
}

/// The printable ASCII characters that are not among `chars`, in ascending order.
pub fn complement(chars: &Vec<char>) -> (r: Vec<char>)
    ensures
        r@ == members(chars@, true),
{
    let mut out: Vec<char> = Vec::new();
    let ghost outside = unlisted(chars@);
    let mut k: u8 = 0;
    assert(domain().take(0) =~= Seq::<char>::empty());
    while k < DOMAIN_LEN
        invariant
            k <= DOMAIN_LEN,
            outside == unlisted(chars@),
            out@ == domain().take(k as int).filter(outside),
        decreases DOMAIN_LEN - k,
    {
        let c: char = (0x20u8 + k) as char;
        proof {
            assert(domain().take(k + 1) =~= domain().take(k as int).push(c));
            domain().take(k as int).lemma_filter_push(c, outside);
        }
        if !contains(chars, c) {
            out.push(c);
        }
        k += 1;
    }
    assert(domain().take(95) =~= domain());
    out
}

/// The number of characters that a class stands for.
pub fn members_len(chars: &Vec<char>, negated: bool) -> (r: usize)
    ensures
        r == members(chars@, negated).len(),
{
    if negated {
        complement(chars).len()
    } else {
        chars.len()
    }
}

/// The character of a class at index `i`, which is below the number of its
/// members.
pub(crate) fn member(chars: &Vec<char>, negated: bool, i: usize) -> (c: char)
    requires
        i < members(chars@, negated).len(),
    ensures
        c == members(chars@, negated)[i as int],
{
    if negated {
        let outside = complement(chars);
        outside[i]
    } else {
        chars[i]
    }
}

/// The character of a class at index `i`, where there is one.
pub fn member_at(chars: &Vec<char>, negated: bool, i: usize) -> (r: Option<char>)
    ensures
        r is Some <==> i < members(chars@, negated).len(),
        r matches Some(c) ==> c == members(chars@, negated)[i as int],
{
    if negated {
        let outside = complement(chars);
        if i < outside.len() {
            Some(outside[i])
        } else {
            None
        }
    } else if i < chars.len() {
        Some(chars[i])
    } else {
        None
    }
}

} // verus!
