//! Building text: characters and decimal numbers.
use vstd::prelude::*;
use vstd::std_specs::iter::IteratorSpec;

verus! {

/// Takes the last character off `s`, if it has one.
///
/// Calls `String::pop`, which removes the last character and returns it, or returns `None`
/// for an empty text; the contract states what is left and what comes back.
#[verifier::external_body]
pub(crate) fn pop_char(s: &mut String) -> (r: Option<char>)
    ensures
        old(s)@.len() > 0 ==> final(s)@ == old(s)@.drop_last() && r == Some(old(s)@.last()),
        old(s)@.len() == 0 ==> final(s)@ == old(s)@ && r is None,
{
    s.pop()
}

/// Adds `c` at the end of `s`.
///
/// Calls `String::push`, which appends the character; the contract states that the text
/// gains `c` at its end.
#[verifier::external_body]
pub(crate) fn push_char(s: &mut String, c: char)
    ensures
        final(s)@ == old(s)@.push(c),
{
    s.push(c);
}

/// Adds the characters of `t` at the end of `s`.
pub fn push_text(s: &mut String, t: &str)
    ensures
        final(s)@ == old(s)@ + t@,
{
    let ghost start = s@;
    let ghost tv = t@;
    let mut chars = t.chars();
    let ghost mut n: int = 0;
    proof {
        broadcast use vstd::string::axiom_spec_iter;
    }
    loop
        invariant
            IteratorSpec::remaining(&chars) == tv.subrange(n, tv.len() as int),
            0 <= n <= tv.len(),
            s@ == start + tv.subrange(0, n),
            chars.obeys_prophetic_iter_laws(),
            tv == t@,
        ensures
            s@ == start + tv,
        decreases tv.len() - n,
    {
        let ghost before = chars;
        match chars.next() {
            Some(c) => {
                proof {
                    vstd::string::next_postcondition(&before, &chars, Some(c));
                    assert(n < tv.len());
                    assert(tv.subrange(0, n + 1) =~= tv.subrange(0, n).push(c));
                }
                push_char(s, c);
                proof { n = n + 1; }
            },
            None => {
                proof {
                    vstd::string::next_postcondition(&before, &chars, None::<char>);
                    assert(tv.subrange(0, n) =~= tv);
                }
                break;
            },
        }
    }
}

/// The character of decimal digit `d`.
pub open spec fn digit_char(d: nat) -> char {
    if d == 0 { '0' } else if d == 1 { '1' } else if d == 2 { '2' } else if d == 3 { '3' } else if d == 4 { '4' }
    else if d == 5 { '5' } else if d == 6 { '6' } else if d == 7 { '7' } else if d == 8 { '8' } else { '9' }
}

/// The decimal digits of `n`, most significant first, without leading zeros ("0" for zero).
pub open spec fn decimal(n: nat) -> Seq<char>
    decreases n,
{
    if n < 10 {
        seq![digit_char(n)]
    } else {
        decimal(n / 10).push(digit_char(n % 10))
    }
}

/// The character of a digit below ten.
pub fn digit(d: u128) -> (r: char)
    requires
        d < 10,
    ensures
        r == digit_char(d as nat),
{
    if d == 0 { '0' } else if d == 1 { '1' } else if d == 2 { '2' } else if d == 3 { '3' } else if d == 4 { '4' }
    else if d == 5 { '5' } else if d == 6 { '6' } else if d == 7 { '7' } else if d == 8 { '8' } else { '9' }
}

/// Adds the decimal digits of `n` at the end of `s`.
pub fn push_decimal(s: &mut String, n: u128)
    ensures
        final(s)@ == old(s)@ + decimal(n as nat),
    decreases n,
{
    if n >= 10 {
        push_decimal(s, n / 10);
    }
    push_char(s, digit(n % 10));
    proof {
        if n < 10 {
            assert(old(s)@ + decimal(n as nat) =~= old(s)@.push(digit_char(n as nat)));
        } else {
            assert(old(s)@ + decimal(n as nat) =~= (old(s)@ + decimal((n / 10) as nat)).push(digit_char((n % 10) as nat)));
        }
    }
}

/// Whether `c` is a decimal digit.
pub open spec fn is_digit(c: char) -> bool {
    '0' <= c && c <= '9'
}

/// The number that decimal digit `c` stands for.
pub open spec fn digit_value(c: char) -> nat {
    (c as nat - '0' as nat) as nat
}

/// The number a text of decimal digits stands for, most significant digit first.
pub open spec fn decimal_value(t: Seq<char>) -> nat
    decreases t.len(),
{
    if t.len() == 0 {
        0
    } else {
        decimal_value(t.drop_last()) * 10 + digit_value(t.last())
    }
}

/// The decimal numeral of `n` is made of digits, starts with a digit other than zero unless
/// `n` is zero, and reads back as `n`.
pub proof fn lemma_decimal_reads_back(n: nat)
    ensures
        decimal(n).len() > 0,
        forall|k: int| 0 <= k < decimal(n).len() ==> is_digit(#[trigger] decimal(n)[k]),
        n > 0 ==> decimal(n)[0] != '0',
        decimal_value(decimal(n)) == n,
    decreases n,
{
    let d = n % 10;
    assert(is_digit(digit_char(d)) && digit_value(digit_char(d)) == d) by {
        if d == 0 {} else if d == 1 {} else if d == 2 {} else if d == 3 {} else if d == 4 {}
        else if d == 5 {} else if d == 6 {} else if d == 7 {} else if d == 8 {} else { assert(d == 9); }
    }
    if n < 10 {
        assert(decimal(n) == seq![digit_char(n)]);
        assert(decimal(n).drop_last() =~= Seq::<char>::empty());
        assert(decimal_value(Seq::<char>::empty()) == 0);
        assert(d == n);
        assert(decimal(n).last() == digit_char(d));
        assert(decimal_value(decimal(n)) == decimal_value(decimal(n).drop_last()) * 10 + digit_value(decimal(n).last()));
    } else {
        lemma_decimal_reads_back(n / 10);
        let t = decimal(n / 10);
        assert(decimal(n) == t.push(digit_char(d)));
        assert(decimal(n).drop_last() =~= t);
        assert(decimal(n)[0] == t[0]);
        assert forall|k: int| 0 <= k < decimal(n).len() implies is_digit(#[trigger] decimal(n)[k]) by {
            if k < t.len() {
                assert(decimal(n)[k] == t[k]);
            }
        }
        assert(decimal(n).last() == digit_char(d));
        assert(decimal_value(decimal(n)) == decimal_value(t) * 10 + digit_value(digit_char(d)));
        assert((n / 10) * 10 + n % 10 == n);
    }
}

} // verus!
