use vstd::prelude::*;

verus! {

/// The decimal digit characters, indexed by their value.
pub open spec fn digit_chars() -> Seq<char> {
    seq!['0', '1', '2', '3', '4', '5', '6', '7', '8', '9']
}

pub open spec fn is_digit(c: char) -> bool {
    '0' <= c && c <= '9'
}

pub open spec fn digit_value(c: char) -> nat {
    (c as u32 - '0' as u32) as nat
}

/// The decimal numeral of `v`, most significant digit first, without leading zeros.
pub open spec fn digits_of(v: nat) -> Seq<char>
    decreases v,
{
    if v < 10 {
        seq![digit_chars()[v as int]]
    } else {
        digits_of(v / 10).push(digit_chars()[(v % 10) as int])
    }
}

pub proof fn lemma_digit_char(d: nat)
    requires
        d < 10,
    ensures
        is_digit(digit_chars()[d as int]),
        digit_value(digit_chars()[d as int]) == d,
{
}

/// A numeral is non-empty and made of digits only.
pub proof fn lemma_digits_of(v: nat)
    ensures
        digits_of(v).len() > 0,
        forall|i: int| 0 <= i < digits_of(v).len() ==> is_digit(#[trigger] digits_of(v)[i]),
    decreases v,
{
    if v >= 10 {
        lemma_digits_of(v / 10);
        lemma_digit_char(v % 10);
        assert forall|i: int| 0 <= i < digits_of(v).len() implies is_digit(
            #[trigger] digits_of(v)[i],
        ) by {
            if i < digits_of(v / 10).len() {
                assert(digits_of(v)[i] == digits_of(v / 10)[i]);
            }
        }
    } else {
        lemma_digit_char(v);
    }
}

/// Relies on `String::push`: appends one character.
#[verifier::external_body]
pub fn push_char(s: &mut String, c: char)
    ensures
        final(s)@ == old(s)@.push(c),
{
    s.push(c);
}

/// Relies on `str`'s `==`: two string slices are equal exactly when their characters are.
#[verifier::external_body]
pub fn same_text(a: &str, b: &str) -> (r: bool)
    ensures
        r == (a@ == b@),
{
    a == b
}

fn digit_char(d: u64) -> (c: char)
    requires
        d < 10,
    ensures
        c == digit_chars()[d as int],
{
    match d {
        0 => '0',
        1 => '1',
        2 => '2',
        3 => '3',
        4 => '4',
        5 => '5',
        6 => '6',
        7 => '7',
        8 => '8',
        _ => '9',
    }
}

/// Appends the decimal numeral of `v`.
pub fn push_digits(s: &mut String, v: u64)
    ensures
        final(s)@ == old(s)@ + digits_of(v as nat),
    decreases v,
{
    if v >= 10 {
        push_digits(s, v / 10);
    }
    push_char(s, digit_char(v % 10));
    proof {
        if v >= 10 {
            assert(final(s)@ =~= old(s)@ + digits_of(v as nat));
        } else {
            assert(final(s)@ =~= old(s)@ + digits_of(v as nat));
        }
    }
}

} // verus!
