//! The word list and the styles in which a word is written out.

use crate::schema::CaseStyle;
use vstd::prelude::*;

verus! {

/// `String::push`: the character is appended to the string.
pub assume_specification[ String::push ](s: &mut String, c: char)
    ensures
        final(s)@ == old(s)@.push(c),
;

/// The lower-case form of an ASCII capital letter; any other character as it is.
pub open spec fn lower(c: char) -> char {
    if 'A' <= c <= 'Z' {
        ((c as u8) + 32) as char
    } else {
        c
    }
}

/// The upper-case form of an ASCII small letter; any other character as it is.
pub open spec fn upper(c: char) -> char {
    if 'a' <= c <= 'z' {
        ((c as u8) - 32) as char
    } else {
        c
    }
}

/// The character at position `i` of a word written in the given style.
pub open spec fn styled(c: char, i: int, style: CaseStyle) -> char {
    if i == 0 && style is Capitalized {
        upper(lower(c))
    } else {
        lower(c)
    }
}

/// A word written in the given style.
pub open spec fn render(word: Seq<char>, style: CaseStyle) -> Seq<char> {
    Seq::new(word.len(), |i: int| styled(word[i], i, style))
}

/// Whether no two words are written alike in the given style.
pub open spec fn renders_distinct(words: Seq<Seq<char>>, style: CaseStyle) -> bool {
    forall|i: int, j: int|
        0 <= i < j < words.len() ==> render(#[trigger] words[i], style) != render(
            #[trigger] words[j],
            style,
        )
}

/// The texts of a sequence of strings.
pub open spec fn texts(entries: Seq<String>) -> Seq<Seq<char>> {
    Seq::new(entries.len(), |i: int| entries[i]@)
}

/// An ordered list of words. The position of a word in the list is its index.
#[derive(Debug)]
pub struct Words {
    entries: Vec<String>,
}

impl View for Words {
    type V = Seq<Seq<char>>;

    closed spec fn view(&self) -> Seq<Seq<char>> {
        texts(self.entries@)
    }
}

/// The lower-case form of `c`.
pub fn to_lower(c: char) -> (r: char)
    ensures
        r == lower(c),
{
    if c >= 'A' && c <= 'Z' {
        let code: u8 = c as u8;
        (code + 32) as char
    } else {
        c
    }
}

/// The upper-case form of `c`.
pub fn to_upper(c: char) -> (r: char)
    ensures
        r == upper(c),
{
    if c >= 'a' && c <= 'z' {
        let code: u8 = c as u8;
        (code - 32) as char
    } else {
        c
    }
}

/// The characters of `word` in lower case.
fn lowered(word: &str) -> (r: Vec<char>)
    ensures
        r@ == render(word@, CaseStyle::Lower),
{
    let n: usize = word.unicode_len();
    let ghost text = render(word@, CaseStyle::Lower);
    let mut out: Vec<char> = Vec::new();
    let mut i: usize = 0;
    while i < n
        invariant
            i <= n,
            n == word@.len(),
            text == render(word@, CaseStyle::Lower),
            out@ == text.take(i as int),
        decreases n - i,
    {
        out.push(to_lower(word.get_char(i)));
        assert(text.take(i + 1) == text.take(i as int).push(text[i as int]));
        i += 1;
    }
    assert(text.take(n as int) == text);
    out
}

/// Whether the two lists hold the same characters.
fn same_chars(a: &Vec<char>, b: &Vec<char>) -> (r: bool)
    ensures
        r == (a@ == b@),
{
    if a.len() != b.len() {
        return false;
    }
    let mut i: usize = 0;
    while i < a.len()
        invariant
            i <= a.len(),
            a.len() == b.len(),
            forall|k: int| 0 <= k < i ==> a@[k] == b@[k],
        decreases a.len() - i,
    {
        if a[i] != b[i] {
            return false;
        }
        i += 1;
    }
    assert(a@ =~= b@);
    true
}

/// Appends `word`, written in the given style, to `out`.
pub fn render_into(word: &str, style: CaseStyle, out: &mut String)
    ensures
        final(out)@ == old(out)@ + render(word@, style),
{
    let n: usize = word.unicode_len();
    let ghost before = out@;
    let ghost text = render(word@, style);
    let mut i: usize = 0;
    while i < n
        invariant
            i <= n,
            n == word@.len(),
            text == render(word@, style),
            out@ == before + text.take(i as int),
        decreases n - i,
    {
        let c: char = word.get_char(i);
        let shown: char = match style {
            CaseStyle::Capitalized => if i == 0 {
                to_upper(to_lower(c))
            } else {
                to_lower(c)
            },
            CaseStyle::Lower => to_lower(c),
        };
        out.push(shown);
        assert(text.take(i + 1) == text.take(i as int).push(text[i as int]));
        i += 1;
    }
    assert(text.take(n as int) == text);
}

impl Words {
    /// The list of the given words, in their order.
    pub fn new(entries: Vec<String>) -> (r: Words)
        ensures
            r@ == texts(entries@),
    {
        Words { entries }
    }

    /// The number of words is one that a `usize` holds.
    pub proof fn lemma_len(&self)
        ensures
            self@.len() <= usize::MAX,
    {
        assert(self.entries@.len() == self.entries.len());
    }

    /// The number of words.
    pub fn len(&self) -> (r: usize)
        ensures
            r == self@.len(),
    {
        self.entries.len()
    }

    /// Whether no two words of the list are the same in lower case.
    ///
    /// With such a list each word class stands for every word once.
    pub fn is_distinct(&self) -> (r: bool)
        ensures
            r == renders_distinct(self@, CaseStyle::Lower),
    {
        let n: usize = self.entries.len();
        let mut forms: Vec<Vec<char>> = Vec::new();
        let mut j: usize = 0;
        while j < n
            invariant
                j <= n,
                n == self.entries.len(),
                forms.len() == j,
                forall|k: int|
                    0 <= k < j ==> (#[trigger] forms[k])@ == render(self@[k], CaseStyle::Lower),
                forall|a: int, b: int|
                    0 <= a < b < j ==> render(#[trigger] self@[a], CaseStyle::Lower) != render(
                        #[trigger] self@[b],
                        CaseStyle::Lower,
                    ),
            decreases n - j,
        {
            let form = lowered(self.entries[j].as_str());
            let mut i: usize = 0;
            while i < j
                invariant
                    i <= j < n,
                    n == self.entries.len(),
                    forms.len() == j,
                    form@ == render(self@[j as int], CaseStyle::Lower),
                    forall|k: int|
                        0 <= k < j ==> (#[trigger] forms[k])@ == render(
                            self@[k],
                            CaseStyle::Lower,
                        ),
                    forall|a: int|
                        0 <= a < i ==> render(#[trigger] self@[a], CaseStyle::Lower) != render(
                            self@[j as int],
                            CaseStyle::Lower,
                        ),
                decreases j - i,
            {
                if same_chars(&forms[i], &form) {
                    return false;
                }
                i += 1;
            }
            forms.push(form);
            j += 1;
        }
        true
    }

    /// The word at index `i` as it was given, where there is one.
    pub fn get(&self, i: usize) -> (r: Option<&str>)
        ensures
            r is Some <==> i < self@.len(),
            r matches Some(w) ==> w@ == self@[i as int],
    {
        if i < self.entries.len() {
            Some(self.entries[i].as_str())
        } else {
            None
        }
    }

    /// Appends to `out` the word at index `i`, written in the given style.
    pub(crate) fn render_word_into(&self, i: usize, style: CaseStyle, out: &mut String)
        requires
            i < self@.len(),
        ensures
            final(out)@ == old(out)@ + render(self@[i as int], style),
    {
        render_into(self.entries[i].as_str(), style, out);
    }

    /// The word at index `i`, written in the given style, where there is one.
    pub fn render(&self, i: usize, style: CaseStyle) -> (r: Option<String>)
        ensures
            r is Some <==> i < self@.len(),
            r matches Some(w) ==> w@ == render(self@[i as int], style),
    {
        if i < self.entries.len() {
            let mut out = String::new();
            render_into(self.entries[i].as_str(), style, &mut out);
            Some(out)
        } else {
            None
        }
    }
}

} // verus!
