//! Validation of European Community (EC) numbers: three digits, a hyphen,
//! three digits, a hyphen and a check digit. The check digit is the sum of
//! the other digits weighted 1, 2, 3, ... from the left, modulo 11.
use vstd::prelude::*;
use crate::casnumber::all_digits;
use crate::text::{digit_value, is_digit};

verus! {

/// The digit groups of a text of the shape `[0-9]{3}-[0-9]{3}-[0-9]`, the
/// whole text and nothing more, or `None` for any other text.
pub open spec fn ce_groups(t: Seq<char>) -> Option<(Seq<char>, Seq<char>, Seq<char>)> {
    if t.len() == 9 && t[3] == '-' && t[7] == '-' && all_digits(t.subrange(0, 3)) && all_digits(
        t.subrange(4, 7),
    ) && is_digit(t[8]) {
        Some((t.subrange(0, 3), t.subrange(4, 7), t.subrange(8, 9)))
    } else {
        None
    }
}

/// The digits of `d` weighted by their place counted from the left: the
/// first digit weighs 1, the next 2, and so on.
pub open spec fn weighted_from_left(d: Seq<char>) -> nat
    decreases d.len(),
{
    if d.len() == 0 {
        0
    } else {
        weighted_from_left(d.drop_last()) + d.len() * digit_value(d.last())
    }
}

/// Whether the check digit of an EC number with these groups is right.
pub open spec fn ce_check_holds(group1: Seq<char>, group2: Seq<char>, check: Seq<char>) -> bool {
    digit_value(check[0]) == weighted_from_left(group1 + group2) % 11
}

/// Relies on `regex::Regex::new` and `regex::Regex::captures`: the anchored
/// pattern matches exactly the texts of the shape that `ce_groups` accepts,
/// and its three groups are the three runs of digits.
#[verifier::external_body]
fn capture_ce_groups(number: &str) -> (r: Option<(String, String, String)>)
    ensures
        match r {
            None => ce_groups(number@) is None,
            Some((a, b, c)) => ce_groups(number@) == Some((a@, b@, c@)),
        },
{
    let re = regex::Regex::new(r"^([0-9]{3})-([0-9]{3})-([0-9]{1})$").unwrap();
    let caps = re.captures(number)?;
    Some((caps[1].to_string(), caps[2].to_string(), caps[3].to_string()))
}

/// The weighted sum of `d`, a run of at most nine digits.
fn weighted_sum_from_left(d: &Vec<char>) -> (r: u32)
    requires
        d@.len() <= 9,
        all_digits(d@),
    ensures
        r == weighted_from_left(d@),
{
    let n = d.len();
    let mut j: usize = 0;
    let mut total: u32 = 0;
    while j < n
        invariant
            n == d@.len(),
            n <= 9,
            all_digits(d@),
            j <= n,
            total == weighted_from_left(d@.take(j as int)),
            total <= 9 * n * j,
        decreases n - j,
    {
        let v = d[j] as u32 - 48;
        assert(d@.take(j + 1).drop_last() =~= d@.take(j as int));
        assert(is_digit(d@[j as int]));
        assert((j + 1) * v <= 9 * n) by (nonlinear_arith)
            requires
                j + 1 <= n,
                v <= 9,
        ;
        assert(9 * n * j + 9 * n == 9 * n * (j + 1)) by (nonlinear_arith);
        assert(9 * n * (j + 1) <= 729) by (nonlinear_arith)
            requires
                n <= 9,
                j < n,
        ;
        total = total + (j + 1) as u32 * v;
        j += 1;
    }
    assert(d@.take(n as int) =~= d@);
    total
}

/// Checks whether `number` is an EC number: it must have the shape
/// `[0-9]{3}-[0-9]{3}-[0-9]` (else the error "can not capture digit groups"),
/// and the answer is whether its check digit is right.
pub fn is_ce_number(number: &str) -> (r: Result<bool, String>)
    ensures
        match r {
            Ok(b) => match ce_groups(number@) {
                Some((g1, g2, c)) => b == ce_check_holds(g1, g2, c),
                None => false,
            },
            Err(e) => ce_groups(number@) is None && e@ == "can not capture digit groups"@,
        },
{
    let (group1, group2, check) = match capture_ce_groups(number) {
        Some(groups) => groups,
        None => return Err(String::from_str("can not capture digit groups")),
    };
    let mut digits = crate::text::chars_of(group1.as_str());
    let mut tail = crate::text::chars_of(group2.as_str());
    digits.append(&mut tail);
    let check_chars = crate::text::chars_of(check.as_str());
    let total = weighted_sum_from_left(&digits);
    let check_digit = check_chars[0] as u32 - 48;
    Ok(check_digit == total % 11)
}

} // verus!
