//! Character-level access to std strings that vstd leaves unspecified.
use vstd::prelude::*;

verus! {

/// Relies on `str::chars`: the Unicode scalar values of the text, in order.
#[verifier::external_body]
pub(crate) fn chars_of(text: &str) -> (r: Vec<char>)
    ensures
        r@ == text@,
{
    text.chars().collect()
}

/// Relies on `String::push`: the character is appended at the end.
#[verifier::external_body]
pub(crate) fn push_char(s: &mut String, c: char)
    ensures
        final(s)@ == old(s)@.push(c),
{
    s.push(c);
}

/// The `Debug` form of a list of characters.
pub uninterp spec fn letters_debug(v: Seq<char>) -> Seq<char>;

/// Relies on the `Debug` form of `Vec<char>`, which depends on the characters alone.
#[verifier::external_body]
pub(crate) fn debug_letters(v: &Vec<char>) -> (r: String)
    ensures
        r@ == letters_debug(v@),
{
    format!("{:?}", v)
}

/// The character of a decimal digit.
pub open spec fn digit_char(d: nat) -> char {
    if d == 0 { '0' } else if d == 1 { '1' } else if d == 2 { '2' } else if d == 3 { '3' }
    else if d == 4 { '4' } else if d == 5 { '5' } else if d == 6 { '6' } else if d == 7 { '7' }
    else if d == 8 { '8' } else { '9' }
}

/// The decimal digits of `n`, without leading zeros.
pub open spec fn decimal(n: nat) -> Seq<char>
    decreases n,
{
    if n < 10 {
        seq![digit_char(n)]
    } else {
        decimal(n / 10).push(digit_char(n % 10))
    }
}

/// Relies on `usize`'s `Display` (through `ToString`): its decimal digits.
#[verifier::external_body]
pub(crate) fn decimal_text(n: usize) -> (r: String)
    ensures
        r@ == decimal(n as nat),
{
    n.to_string()
}

/// Appends `letters[from..to]` to `out`.
pub(crate) fn copy_letters(out: &mut String, letters: &Vec<char>, from: usize, to: usize)
    requires
        from <= to <= letters@.len(),
    ensures
        final(out)@ == old(out)@ + letters@.subrange(from as int, to as int),
{
    let mut i: usize = from;
    while i < to
        invariant
            from <= i <= to <= letters@.len(),
            out@ == old(out)@ + letters@.subrange(from as int, i as int),
        decreases to - i,
    {
        push_char(out, letters[i]);
        assert(letters@.subrange(from as int, i + 1) =~= letters@.subrange(from as int, i as int).push(letters@[i as int]));
        i += 1;
    }
}

} // verus!
