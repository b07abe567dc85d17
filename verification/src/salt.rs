//! The salt of a key derivation: an increment and a site in one text.

use vstd::prelude::*;

verus! {

/// The character that writes a digit below ten.
pub open spec fn digit_char(d: nat) -> char {
    (48 + d) as char
}

/// A number written in decimal, without leading zeros.
pub open spec fn decimal_text(n: nat) -> Seq<char>
    decreases n,
{
    if n < 10 {
        seq![digit_char(n)]
    } else {
        decimal_text(n / 10).push(digit_char(n % 10))
    }
}

/// The salt for an increment and a site: the increment in decimal, a comma,
/// and the site.
pub open spec fn salt_text(increment: nat, site: Seq<char>) -> Seq<char> {
    decimal_text(increment) + seq![','] + site
}

/// The digits in reverse order, written as characters.
pub open spec fn reversed_text(digits: Seq<u8>) -> Seq<char>
    decreases digits.len(),
{
    if digits.len() == 0 {
        Seq::empty()
    } else {
        seq![digit_char(digits.last() as nat)] + reversed_text(digits.drop_last())
    }
}

/// The number that a text of digits writes in decimal.
pub open spec fn decimal_value(text: Seq<char>) -> nat
    decreases text.len(),
{
    if text.len() == 0 {
        0
    } else {
        (decimal_value(text.drop_last()) * 10 + (text.last() as nat - 48)) as nat
    }
}

/// The salt for an increment and a site.
pub fn salt_for(increment: u32, site: &str) -> (r: String)
    ensures
        r@ == salt_text(increment as nat, site@),
{
    let mut digits: Vec<u8> = Vec::new();
    let mut rest: u32 = increment / 10;
    digits.push((increment % 10) as u8);
    proof {
        assert(reversed_text(digits@.drop_last()) =~= Seq::<char>::empty());
        assert(reversed_text(digits@) =~= seq![digit_char((increment % 10) as nat)]);
        if increment >= 10 {
            assert(decimal_text(increment as nat) =~= decimal_text(rest as nat) + reversed_text(
                digits@,
            ));
        }
    }
    while rest > 0
        invariant
            forall|k: int| 0 <= k < digits.len() ==> digits[k] < 10,
            decimal_text(increment as nat) == if rest > 0 {
                decimal_text(rest as nat) + reversed_text(digits@)
            } else {
                reversed_text(digits@)
            },
        decreases rest,
    {
        let d: u8 = (rest % 10) as u8;
        let ghost before = digits@;
        let ghost high = (rest / 10) as nat;
        digits.push(d);
        proof {
            assert(digits@.drop_last() =~= before);
            assert(reversed_text(digits@) == seq![digit_char(d as nat)] + reversed_text(before));
            if rest >= 10 {
                assert(decimal_text(rest as nat) =~= decimal_text(high) + seq![
                    digit_char(d as nat),
                ]);
                assert(decimal_text(high) + seq![digit_char(d as nat)] + reversed_text(before)
                    =~= decimal_text(high) + reversed_text(digits@));
            } else {
                assert(decimal_text(rest as nat) + reversed_text(before) =~= reversed_text(
                    digits@,
                ));
            }
        }
        rest = rest / 10;
    }
    let mut out = String::new();
    let mut i: usize = digits.len();
    proof {
        assert(digits@.take(i as int) =~= digits@);
    }
    while i > 0
        invariant
            i <= digits.len(),
            forall|k: int| 0 <= k < digits.len() ==> digits[k] < 10,
            out@ + reversed_text(digits@.take(i as int)) == reversed_text(digits@),
        decreases i,
    {
        let d: u8 = digits[i - 1];
        let ghost shown = out@;
        out.push((48u8 + d) as char);
        proof {
            let part = digits@.take(i as int);
            assert(part.drop_last() =~= digits@.take(i - 1));
            assert(part.last() == d);
            assert(out@ + reversed_text(digits@.take(i - 1)) =~= shown + reversed_text(part));
        }
        i -= 1;
    }
    proof {
        assert(digits@.take(0) =~= Seq::<u8>::empty());
        assert(out@ =~= reversed_text(digits@));
    }
    out.push(',');
    out.append(site);
    proof {
        assert(out@ =~= salt_text(increment as nat, site@));
    }
    out
}

/// A number written in decimal holds digits only, at least one, and writes
/// that number.
pub proof fn lemma_decimal_text(n: nat)
    ensures
        decimal_text(n).len() > 0,
        forall|k: int| 0 <= k < decimal_text(n).len() ==> '0' <= #[trigger] decimal_text(n)[k] <= '9',
        decimal_value(decimal_text(n)) == n,
    decreases n,
{
    if n < 10 {
        assert(decimal_text(n).drop_last() =~= Seq::<char>::empty());
        assert(decimal_value(decimal_text(n).drop_last()) == 0);
    } else {
        lemma_decimal_text(n / 10);
        assert(decimal_text(n).drop_last() =~= decimal_text(n / 10));
    }
}

/// Two salts are the same only where the increments are the same and the
/// sites are the same: a change of either changes the salt.
pub proof fn lemma_salt_injective(
    increment: nat,
    site: Seq<char>,
    other_increment: nat,
    other_site: Seq<char>,
)
    requires
        salt_text(increment, site) == salt_text(other_increment, other_site),
    ensures
        increment == other_increment,
        site == other_site,
{
    let a = decimal_text(increment);
    let b = decimal_text(other_increment);
    let left = salt_text(increment, site);
    let right = salt_text(other_increment, other_site);
    lemma_decimal_text(increment);
    lemma_decimal_text(other_increment);
    assert(left[a.len() as int] == ',');
    assert(right[b.len() as int] == ',');
    if a.len() < b.len() {
        assert(right[a.len() as int] == b[a.len() as int]);
    } else if b.len() < a.len() {
        assert(left[b.len() as int] == a[b.len() as int]);
    }
    assert(a =~= b) by {
        assert forall|k: int| 0 <= k < a.len() implies a[k] == b[k] by {
            assert(left[k] == a[k]);
            assert(right[k] == b[k]);
        }
    }
    assert(site =~= other_site) by {
        assert(site.len() == other_site.len()) by {
            assert(left.len() == a.len() + 1 + site.len());
            assert(right.len() == b.len() + 1 + other_site.len());
        }
        assert forall|k: int| 0 <= k < site.len() implies site[k] == other_site[k] by {
            assert(left[a.len() + 1 + k] == site[k]);
            assert(right[b.len() + 1 + k] == other_site[k]);
        }
    }
}

} // verus!
