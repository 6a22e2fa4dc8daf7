use vstd::prelude::*;

verus! {

/// The character of a decimal digit.
pub open spec fn digit_char(d: nat) -> char {
    seq!['0', '1', '2', '3', '4', '5', '6', '7', '8', '9'][d as int]
}

/// The decimal digits of `n`, most significant first, with no sign or padding.
pub open spec fn decimal_digits(n: nat) -> Seq<char>
    decreases n,
{
    if n < 10 {
        seq![digit_char(n)]
    } else {
        decimal_digits(n / 10) + seq![digit_char(n % 10)]
    }
}

/// Relies on `u128`'s `Display`, reached through `ToString::to_string`: it
/// writes the decimal digits of the number, with no sign or padding.
#[verifier::external_body]
pub(crate) fn decimal(n: u128) -> (r: String)
    ensures
        r@ == decimal_digits(n as nat),
{
    n.to_string()
}

} // verus!
