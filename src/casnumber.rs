//! Validation of CAS Registry Numbers: two to seven digits, a hyphen, two
//! digits, a hyphen and a check digit. The check digit is the sum of the
//! other digits weighted 1, 2, 3, ... from the right, modulo 10.
use vstd::prelude::*;
use crate::text::{digit_value, is_digit};

verus! {

/// Why a text could not be checked as a CAS number.
#[derive(Clone, Copy, Debug, PartialEq, Eq)]
pub enum CasNumberError {
    /// The text does not have the shape of a CAS number.
    DigitGroupsCaptureError,
    /// A character of a digit group is not a digit; never raised once the
    /// shape has been recognised.
    CharTodigitConversionerror(char),
    /// The check digit is missing; never raised once the shape has been
    /// recognised.
    NoCheckDigitFound,
}

impl CasNumberError {
    /// A sentence that describes the error.
    pub fn message(&self) -> (r: String)
        ensures
            r@ == match self {
                CasNumberError::DigitGroupsCaptureError => "can not capture digit groups"@,
                CasNumberError::CharTodigitConversionerror(c) => {
                    "can not convert "@.push(*c) + " into digit"@
                },
                CasNumberError::NoCheckDigitFound => "no check digit found"@,
            },
    {
        match self {
            CasNumberError::DigitGroupsCaptureError => {
                String::from_str("can not capture digit groups")
            },
            CasNumberError::CharTodigitConversionerror(c) => {
                let mut r = String::from_str("can not convert ");
                crate::text::push_char(&mut r, *c);
                r.append(" into digit");
                r
            },
            CasNumberError::NoCheckDigitFound => String::from_str("no check digit found"),
        }
    }
}

/// Every character of `s` is an ASCII digit.
pub open spec fn all_digits(s: Seq<char>) -> bool {
    forall|i: int| 0 <= i < s.len() ==> is_digit(s[i])
}

/// The digit groups of a text of the shape `[0-9]{2,7}-[0-9]{2}-[0-9]`, the
/// whole text and nothing more, or `None` for any other text.
pub open spec fn cas_groups(t: Seq<char>) -> Option<(Seq<char>, Seq<char>, Seq<char>)> {
    let n = t.len();
    if 7 <= n && n <= 12 && t[n - 5] == '-' && t[n - 2] == '-' && all_digits(t.subrange(0, n - 5))
        && all_digits(t.subrange(n - 4, n - 2)) && is_digit(t[n - 1]) {
        Some((t.subrange(0, n - 5), t.subrange(n - 4, n - 2), t.subrange(n - 1, n as int)))
    } else {
        None
    }
}

/// The digits of `d` weighted by their place counted from the right: the
/// last digit weighs 1, the one before it 2, and so on.
pub open spec fn weighted_from_right(d: Seq<char>) -> nat
    decreases d.len(),
{
    if d.len() == 0 {
        0
    } else {
        d.len() * digit_value(d[0]) + weighted_from_right(d.drop_first())
    }
}

/// Whether the check digit of a CAS number with these groups is right.
pub open spec fn cas_check_holds(group1: Seq<char>, group2: Seq<char>, check: Seq<char>) -> bool {
    digit_value(check[0]) == weighted_from_right(group1 + group2) % 10
}

/// Relies on `regex::Regex::new` and `regex::Regex::captures`: the anchored
/// pattern matches exactly the texts of the shape that `cas_groups` accepts,
/// and its three groups are the three runs of digits.
#[verifier::external_body]
fn capture_cas_groups(number: &str) -> (r: Option<(String, String, String)>)
    ensures
        match r {
            None => cas_groups(number@) is None,
            Some((a, b, c)) => cas_groups(number@) == Some((a@, b@, c@)),
        },
{
    let re = regex::Regex::new(r"^([0-9]{2,7})-([0-9]{2})-([0-9]{1})$").unwrap();
    let caps = re.captures(number)?;
    Some((caps[1].to_string(), caps[2].to_string(), caps[3].to_string()))
}

/// The weighted sum of `d`, a run of at most nine digits.
fn weighted_sum_from_right(d: &Vec<char>) -> (r: u32)
    requires
        d@.len() <= 9,
        all_digits(d@),
    ensures
        r == weighted_from_right(d@),
{
    let n = d.len();
    let mut j: usize = n;
    let mut total: u32 = 0;
    while j > 0
        invariant
            n == d@.len(),
            n <= 9,
            all_digits(d@),
            j <= n,
            total == weighted_from_right(d@.subrange(j as int, n as int)),
            total <= 9 * n * (n - j),
        decreases j,
    {
        let ghost tail = d@.subrange(j as int, n as int);
        j -= 1;
        let v = d[j] as u32 - 48;
        assert(d@.subrange(j as int, n as int).drop_first() =~= tail);
        assert(is_digit(d@[j as int]));
        assert((n - j) * v <= 9 * n) by (nonlinear_arith)
            requires
                n - j <= n,
                v <= 9,
        ;
        assert(9 * n * (n - j - 1) + 9 * n == 9 * n * (n - j)) by (nonlinear_arith);
        assert(9 * n * (n - j) <= 729) by (nonlinear_arith)
            requires
                n <= 9,
                j < n,
        ;
        total = total + (n - j) as u32 * v;
    }
    assert(d@.subrange(0, n as int) =~= d@);
    total
}

/// Checks whether `number` is a CAS Registry Number: it must have the shape
/// `[0-9]{2,7}-[0-9]{2}-[0-9]` (else `DigitGroupsCaptureError`), and the
/// answer is whether its check digit is right.
pub fn is_cas_number(number: &str) -> (r: Result<bool, CasNumberError>)
    ensures
        r == match cas_groups(number@) {
            None => Err(CasNumberError::DigitGroupsCaptureError),
            Some((g1, g2, c)) => Ok(cas_check_holds(g1, g2, c)),
        },
{
    let (group1, group2, check) = match capture_cas_groups(number) {
        Some(groups) => groups,
        None => return Err(CasNumberError::DigitGroupsCaptureError),
    };
    let mut digits = crate::text::chars_of(group1.as_str());
    let mut tail = crate::text::chars_of(group2.as_str());
    digits.append(&mut tail);
    let check_chars = crate::text::chars_of(check.as_str());
    let total = weighted_sum_from_right(&digits);
    let check_digit = check_chars[0] as u32 - 48;
    Ok(check_digit == total % 10)
}

} // verus!
