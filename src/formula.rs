//! Normalisation of molecular formulas into Hill-ordered empirical formulas.
//!
//! A formula such as `Cl(CaC2(NaCl)3)2.Na=P` is scanned once from left to
//! right. Each recognised element symbol becomes an [`Occurrence`] tagged with
//! the bracket depth at which it was read. A number right after a symbol sets
//! that occurrence's count; a number right after a closing bracket multiplies
//! the count of every occurrence read deeper than the depth the bracket
//! restored. The counts are then summed per symbol and written out carbon
//! first, hydrogen second, and the other symbols in alphabetical order.
use vstd::prelude::*;
use crate::text::{digit_value, is_digit};

verus! {

/// Number of symbol keys: an uppercase letter, optionally followed by a
/// lowercase one (26 * 27).
pub const KEY_COUNT: usize = 702;

/// Errors raised while normalising a formula.
#[derive(Debug, PartialEq, Eq)]
pub enum SortEmpiricalFormulaError {
    /// A closing bracket with no open group to close.
    UnbalancedParenthesis,
    /// An uppercase-led token that is not an element symbol.
    UnknowAtom(String),
    /// A digit sequence that is not a number; the scanner never produces one.
    CanNotParseNumber,
    /// A number with no symbol or closing bracket right before it.
    NumberAfterUnknowAtom,
    /// A symbol missing from the totals; the aggregation never produces one.
    UnexpectedNoneAtomCount(String),
    /// A count that no longer fits in 64 bits after a group multiplier.
    CountOverflow,
}

impl SortEmpiricalFormulaError {
    /// A sentence that describes the error.
    pub fn message(&self) -> (r: String)
        ensures
            r@ == match self {
                Self::UnbalancedParenthesis => "unbalanced parenthesis"@,
                Self::UnknowAtom(s) => "unknown atom "@ + s@,
                Self::CanNotParseNumber => "can not parse number"@,
                Self::NumberAfterUnknowAtom => "found a number after no known atom"@,
                Self::UnexpectedNoneAtomCount(s) => {
                    "unexpected empty atom_count_map value for key "@ + s@
                },
                Self::CountOverflow => "atom count too large"@,
            },
    {
        match self {
            Self::UnbalancedParenthesis => String::from_str("unbalanced parenthesis"),
            Self::UnknowAtom(s) => {
                let mut r = String::from_str("unknown atom ");
                r.append(s.as_str());
                r
            },
            Self::CanNotParseNumber => String::from_str("can not parse number"),
            Self::NumberAfterUnknowAtom => {
                String::from_str("found a number after no known atom")
            },
            Self::UnexpectedNoneAtomCount(s) => {
                let mut r = String::from_str("unexpected empty atom_count_map value for key ");
                r.append(s.as_str());
                r
            },
            Self::CountOverflow => String::from_str("atom count too large"),
        }
    }
}

/// The mathematical counterpart of [`SortEmpiricalFormulaError`].
pub enum FormulaFault {
    UnbalancedParenthesis,
    UnknowAtom(Seq<char>),
    CanNotParseNumber,
    NumberAfterUnknowAtom,
    UnexpectedNoneAtomCount(Seq<char>),
    CountOverflow,
}

impl View for SortEmpiricalFormulaError {
    type V = FormulaFault;

    open spec fn view(&self) -> FormulaFault {
        match self {
            Self::UnbalancedParenthesis => FormulaFault::UnbalancedParenthesis,
            Self::UnknowAtom(s) => FormulaFault::UnknowAtom(s@),
            Self::CanNotParseNumber => FormulaFault::CanNotParseNumber,
            Self::NumberAfterUnknowAtom => FormulaFault::NumberAfterUnknowAtom,
            Self::UnexpectedNoneAtomCount(s) => FormulaFault::UnexpectedNoneAtomCount(s@),
            Self::CountOverflow => FormulaFault::CountOverflow,
        }
    }
}

/// One element symbol read from the formula.
#[derive(Clone, Copy, Debug)]
pub struct Occurrence {
    /// The symbol, encoded by [`single_key`] or [`pair_key`].
    pub key: usize,
    /// The bracket depth at which the symbol was read.
    pub depth: usize,
    /// How many atoms of the symbol this occurrence stands for.
    pub count: u64,
}

/// The class of the token consumed just before the current one.
#[derive(Clone, Copy, Debug, PartialEq, Eq)]
pub enum PreviousToken {
    Nothing,
    Atom,
    GroupClose,
    Other,
}

pub open spec fn is_upper(c: char) -> bool {
    'A' <= c && c <= 'Z'
}

pub open spec fn is_lower(c: char) -> bool {
    'a' <= c && c <= 'z'
}

/// The key of a one-letter symbol.
pub open spec fn single_key(c: char) -> nat {
    ((c as u32 - 65) * 27) as nat
}

/// The key of a two-letter symbol.
pub open spec fn pair_key(c: char, d: char) -> nat {
    ((c as u32 - 65) * 27 + (d as u32 - 96)) as nat
}

/// The symbol that a key stands for.
pub open spec fn key_symbol(k: nat) -> Seq<char> {
    let first = ((65 + k / 27) as u8) as char;
    if k % 27 == 0 {
        seq![first]
    } else {
        seq![first, ((96 + k % 27) as u8) as char]
    }
}

/// The one-letter element symbols.
pub open spec fn is_single_element(c: char) -> bool {
    c == 'B' || c == 'C' || c == 'D' || c == 'F' || c == 'H' || c == 'I' || c == 'K'
        || c == 'N' || c == 'O' || c == 'P' || c == 'S' || c == 'U' || c == 'V' || c == 'W'
        || c == 'Y'
}

/// The two-letter element symbols: `c` followed by `d`.
pub open spec fn is_pair_element(c: char, d: char) -> bool {
    if c == 'A' {
        d == 'c' || d == 'g' || d == 'l' || d == 'm' || d == 'r' || d == 's' || d == 't' || d == 'u'
    } else if c == 'B' {
        d == 'a' || d == 'e' || d == 'h' || d == 'i' || d == 'k' || d == 'r'
    } else if c == 'C' {
        d == 'a' || d == 'd' || d == 'e' || d == 'f' || d == 'l' || d == 'm' || d == 'n' || d == 'o'
            || d == 'r' || d == 's' || d == 'u'
    } else if c == 'D' {
        d == 'b' || d == 's' || d == 'y'
    } else if c == 'E' {
        d == 'r' || d == 's' || d == 'u'
    } else if c == 'F' {
        d == 'e' || d == 'm' || d == 'r'
    } else if c == 'G' {
        d == 'a' || d == 'd' || d == 'e'
    } else if c == 'H' {
        d == 'e' || d == 'f' || d == 'g' || d == 'o' || d == 's'
    } else if c == 'I' {
        d == 'n' || d == 'r'
    } else if c == 'K' {
        d == 'r'
    } else if c == 'L' {
        d == 'a' || d == 'i' || d == 'r' || d == 'u'
    } else if c == 'M' {
        d == 'd' || d == 'g' || d == 'n' || d == 'o' || d == 't'
    } else if c == 'N' {
        d == 'a' || d == 'b' || d == 'd' || d == 'e' || d == 'i' || d == 'o' || d == 'p'
    } else if c == 'O' {
        d == 's'
    } else if c == 'P' {
        d == 'a' || d == 'b' || d == 'd' || d == 'm' || d == 'o' || d == 'r' || d == 't' || d == 'u'
    } else if c == 'R' {
        d == 'a' || d == 'b' || d == 'e' || d == 'f' || d == 'g' || d == 'h' || d == 'n' || d == 'u'
    } else if c == 'S' {
        d == 'b' || d == 'c' || d == 'e' || d == 'g' || d == 'i' || d == 'm' || d == 'n' || d == 'r'
    } else if c == 'T' {
        d == 'a' || d == 'b' || d == 'c' || d == 'e' || d == 'h' || d == 'i' || d == 'l' || d == 'm'
    } else if c == 'X' {
        d == 'e'
    } else if c == 'Y' {
        d == 'b'
    } else if c == 'Z' {
        d == 'n' || d == 'r'
    } else {
        false
    }
}


/// Every occurrence read deeper than `depth`, with its count multiplied by `n`.
pub open spec fn scaled(atoms: Seq<Occurrence>, depth: nat, n: nat) -> Seq<Occurrence> {
    Seq::new(
        atoms.len(),
        |j: int|
            if atoms[j].depth > depth {
                Occurrence { count: (atoms[j].count * n) as u64, ..atoms[j] }
            } else {
                atoms[j]
            },
    )
}

/// Whether multiplying the occurrences read deeper than `depth` by `n` would
/// take a count past 64 bits.
pub open spec fn scale_overflows(atoms: Seq<Occurrence>, depth: nat, n: nat) -> bool {
    exists|j: int| 0 <= j < atoms.len() && atoms[j].depth > depth && atoms[j].count * n > u64::MAX
}

/// The occurrences read from position `i` of `s` on, given the depth, the
/// class of the previous token and the occurrences read before `i`.
pub open spec fn scan(
    s: Seq<char>,
    i: nat,
    depth: nat,
    prev: PreviousToken,
    atoms: Seq<Occurrence>,
) -> Result<Seq<Occurrence>, FormulaFault>
    decreases s.len() - i,
{
    if i >= s.len() {
        Ok(atoms)
    } else {
        let c = s[i as int];
        let has_next = i + 1 < s.len();
        if c == '(' || c == '[' {
            scan(s, i + 1, depth + 1, PreviousToken::Other, atoms)
        } else if c == ')' || c == ']' {
            if depth == 0 {
                Err(FormulaFault::UnbalancedParenthesis)
            } else {
                scan(s, i + 1, (depth - 1) as nat, PreviousToken::GroupClose, atoms)
            }
        } else if is_upper(c) {
            let two = has_next && is_lower(s[i + 1 as int]);
            if two && is_pair_element(c, s[i + 1 as int]) {
                let a = Occurrence {
                    key: pair_key(c, s[i + 1 as int]) as usize,
                    depth: depth as usize,
                    count: 1,
                };
                scan(s, i + 2, depth, PreviousToken::Atom, atoms.push(a))
            } else if is_single_element(c) {
                let a = Occurrence { key: single_key(c) as usize, depth: depth as usize, count: 1 };
                scan(s, i + 1, depth, PreviousToken::Atom, atoms.push(a))
            } else if two {
                Err(FormulaFault::UnknowAtom(seq![c, s[i + 1 as int]]))
            } else {
                Err(FormulaFault::UnknowAtom(seq![c]))
            }
        } else if is_digit(c) {
            let two = has_next && is_digit(s[i + 1 as int]);
            let n = if two {
                10 * digit_value(c) + digit_value(s[i + 1 as int])
            } else {
                digit_value(c)
            };
            let next: nat = if two { i + 2 } else { i + 1 };
            match prev {
                PreviousToken::GroupClose => {
                    if scale_overflows(atoms, depth, n) {
                        Err(FormulaFault::CountOverflow)
                    } else {
                        scan(s, next, depth, PreviousToken::Other, scaled(atoms, depth, n))
                    }
                },
                PreviousToken::Atom => {
                    if atoms.len() == 0 {
                        Err(FormulaFault::NumberAfterUnknowAtom)
                    } else {
                        let last = atoms.last();
                        let a = Occurrence { count: n as u64, ..last };
                        scan(s, next, depth, PreviousToken::Other, atoms.update(atoms.len() - 1, a))
                    }
                },
                _ => Err(FormulaFault::NumberAfterUnknowAtom),
            }
        } else {
            scan(s, i + 1, depth, PreviousToken::Other, atoms)
        }
    }
}

/// The occurrences of a whole formula.
pub open spec fn occurrences(s: Seq<char>) -> Result<Seq<Occurrence>, FormulaFault> {
    scan(s, 0, 0, PreviousToken::Nothing, Seq::empty())
}

/// Whether some occurrence has key `k`.
pub open spec fn present(atoms: Seq<Occurrence>, k: nat) -> bool {
    exists|j: int| 0 <= j < atoms.len() && atoms[j].key == k
}

/// The sum of the counts of the occurrences with key `k`.
pub open spec fn total(atoms: Seq<Occurrence>, k: nat) -> nat
    decreases atoms.len(),
{
    if atoms.len() == 0 {
        0
    } else {
        let last = atoms.last();
        total(atoms.drop_last(), k) + if last.key == k { last.count as nat } else { 0 }
    }
}

/// The decimal digit for `d < 10`.
pub open spec fn digit_char(d: nat) -> char {
    ((48 + d) as u8) as char
}

/// The decimal notation of `n`, without leading zeros.
pub open spec fn decimal(n: nat) -> Seq<char>
    decreases n,
{
    if n < 10 {
        seq![digit_char(n)]
    } else {
        decimal(n / 10).push(digit_char(n % 10))
    }
}

/// A count as written after its symbol: nothing for one.
pub open spec fn count_text(n: nat) -> Seq<char> {
    if n == 1 {
        Seq::empty()
    } else {
        decimal(n)
    }
}

/// The symbol of key `k` with its total, or nothing if `k` does not occur.
pub open spec fn piece(atoms: Seq<Occurrence>, k: nat) -> Seq<char> {
    if present(atoms, k) {
        key_symbol(k) + count_text(total(atoms, k))
    } else {
        Seq::empty()
    }
}

pub open spec fn carbon() -> nat {
    single_key('C')
}

pub open spec fn hydrogen() -> nat {
    single_key('H')
}

/// The pieces of the keys from `k` on, carbon and hydrogen left out.
pub open spec fn pieces_from(atoms: Seq<Occurrence>, k: nat) -> Seq<char>
    decreases KEY_COUNT - k,
{
    if k >= KEY_COUNT {
        Seq::empty()
    } else {
        let p = if k == carbon() || k == hydrogen() { Seq::empty() } else { piece(atoms, k) };
        p + pieces_from(atoms, k + 1)
    }
}

/// The Hill-ordered formula of the occurrences: carbon, hydrogen, then the
/// other symbols in alphabetical order.
pub open spec fn hill_formula(atoms: Seq<Occurrence>) -> Seq<char> {
    piece(atoms, carbon()) + piece(atoms, hydrogen()) + pieces_from(atoms, 0)
}

/// The canonical empirical formula of `s`, or the fault that stops its scan.
pub open spec fn empirical_formula(s: Seq<char>) -> Result<Seq<char>, FormulaFault> {
    match occurrences(s) {
        Ok(atoms) => Ok(hill_formula(atoms)),
        Err(e) => Err(e),
    }
}


fn single_element(c: char) -> (r: bool)
    ensures
        r == is_single_element(c),
{
    c == 'B' || c == 'C' || c == 'D' || c == 'F' || c == 'H' || c == 'I' || c == 'K'
        || c == 'N' || c == 'O' || c == 'P' || c == 'S' || c == 'U' || c == 'V' || c == 'W'
        || c == 'Y'
}

fn pair_element(c: char, d: char) -> (r: bool)
    ensures
        r == is_pair_element(c, d),
{
    if c == 'A' {
        d == 'c' || d == 'g' || d == 'l' || d == 'm' || d == 'r' || d == 's' || d == 't' || d == 'u'
    } else if c == 'B' {
        d == 'a' || d == 'e' || d == 'h' || d == 'i' || d == 'k' || d == 'r'
    } else if c == 'C' {
        d == 'a' || d == 'd' || d == 'e' || d == 'f' || d == 'l' || d == 'm' || d == 'n' || d == 'o'
            || d == 'r' || d == 's' || d == 'u'
    } else if c == 'D' {
        d == 'b' || d == 's' || d == 'y'
    } else if c == 'E' {
        d == 'r' || d == 's' || d == 'u'
    } else if c == 'F' {
        d == 'e' || d == 'm' || d == 'r'
    } else if c == 'G' {
        d == 'a' || d == 'd' || d == 'e'
    } else if c == 'H' {
        d == 'e' || d == 'f' || d == 'g' || d == 'o' || d == 's'
    } else if c == 'I' {
        d == 'n' || d == 'r'
    } else if c == 'K' {
        d == 'r'
    } else if c == 'L' {
        d == 'a' || d == 'i' || d == 'r' || d == 'u'
    } else if c == 'M' {
        d == 'd' || d == 'g' || d == 'n' || d == 'o' || d == 't'
    } else if c == 'N' {
        d == 'a' || d == 'b' || d == 'd' || d == 'e' || d == 'i' || d == 'o' || d == 'p'
    } else if c == 'O' {
        d == 's'
    } else if c == 'P' {
        d == 'a' || d == 'b' || d == 'd' || d == 'm' || d == 'o' || d == 'r' || d == 't' || d == 'u'
    } else if c == 'R' {
        d == 'a' || d == 'b' || d == 'e' || d == 'f' || d == 'g' || d == 'h' || d == 'n' || d == 'u'
    } else if c == 'S' {
        d == 'b' || d == 'c' || d == 'e' || d == 'g' || d == 'i' || d == 'm' || d == 'n' || d == 'r'
    } else if c == 'T' {
        d == 'a' || d == 'b' || d == 'c' || d == 'e' || d == 'h' || d == 'i' || d == 'l' || d == 'm'
    } else if c == 'X' {
        d == 'e'
    } else if c == 'Y' {
        d == 'b'
    } else if c == 'Z' {
        d == 'n' || d == 'r'
    } else {
        false
    }
}

/// Multiplies by `n` the count of every occurrence read deeper than `depth`;
/// returns false, leaving the counts partly updated, where one would overflow.
fn scale(atoms: &mut Vec<Occurrence>, depth: usize, n: u64) -> (ok: bool)
    ensures
        ok == !scale_overflows(old(atoms)@, depth as nat, n as nat),
        ok ==> final(atoms)@ == scaled(old(atoms)@, depth as nat, n as nat),
{
    let ghost orig = atoms@;
    let mut j: usize = 0;
    while j < atoms.len()
        invariant
            orig == old(atoms)@,
            atoms@.len() == orig.len(),
            j <= orig.len(),
            forall|t: int| 0 <= t < j ==> atoms@[t] == scaled(orig, depth as nat, n as nat)[t],
            forall|t: int| j <= t < orig.len() ==> atoms@[t] == orig[t],
            forall|t: int| 0 <= t < j && orig[t].depth > depth ==> orig[t].count * n <= u64::MAX,
        decreases orig.len() - j,
    {
        let a = atoms[j];
        if a.depth > depth {
            match a.count.checked_mul(n) {
                Some(m) => {
                    atoms.set(j, Occurrence { key: a.key, depth: a.depth, count: m });
                },
                None => {
                    assert(orig[j as int].count * n > u64::MAX);
                    assert(scale_overflows(orig, depth as nat, n as nat));
                    return false;
                },
            }
        }
        j += 1;
    }
    assert(atoms@ =~= scaled(orig, depth as nat, n as nat));
    true
}

/// The occurrences of the formula whose characters are `s`.
fn scan_occurrences(s: &Vec<char>) -> (r: Result<Vec<Occurrence>, SortEmpiricalFormulaError>)
    ensures
        match r {
            Ok(atoms) => {
                &&& occurrences(s@) == Ok::<Seq<Occurrence>, FormulaFault>(atoms@)
                &&& forall|j: int| 0 <= j < atoms@.len() ==> atoms@[j].key < KEY_COUNT
            },
            Err(e) => occurrences(s@) == Err::<Seq<Occurrence>, FormulaFault>(e@),
        },
{
    let mut atoms: Vec<Occurrence> = Vec::new();
    let mut i: usize = 0;
    let mut depth: usize = 0;
    let mut prev = PreviousToken::Nothing;
    while i < s.len()
        invariant
            i <= s@.len(),
            depth <= i,
            scan(s@, i as nat, depth as nat, prev, atoms@) == occurrences(s@),
            forall|j: int| 0 <= j < atoms@.len() ==> atoms@[j].key < KEY_COUNT,
        decreases s@.len() - i,
    {
        let c = s[i];
        let has_next = i + 1 < s.len();
        if c == '(' || c == '[' {
            depth += 1;
            i += 1;
            prev = PreviousToken::Other;
        } else if c == ')' || c == ']' {
            if depth == 0 {
                return Err(SortEmpiricalFormulaError::UnbalancedParenthesis);
            }
            depth -= 1;
            i += 1;
            prev = PreviousToken::GroupClose;
        } else if 'A' <= c && c <= 'Z' {
            let two = has_next && 'a' <= s[i + 1] && s[i + 1] <= 'z';
            let upper = c as usize - 65;
            if two && pair_element(c, s[i + 1]) {
                let lower = s[i + 1] as usize - 96;
                atoms.push(Occurrence { key: upper * 27 + lower, depth, count: 1 });
                i += 2;
                prev = PreviousToken::Atom;
            } else if single_element(c) {
                atoms.push(Occurrence { key: upper * 27, depth, count: 1 });
                i += 1;
                prev = PreviousToken::Atom;
            } else {
                let mut token = String::new();
                crate::text::push_char(&mut token, c);
                if two {
                    crate::text::push_char(&mut token, s[i + 1]);
                    assert(token@ =~= seq![c, s@[i + 1]]);
                } else {
                    assert(token@ =~= seq![c]);
                }
                return Err(SortEmpiricalFormulaError::UnknowAtom(token));
            }
        } else if '0' <= c && c <= '9' {
            let two = has_next && '0' <= s[i + 1] && s[i + 1] <= '9';
            let first = c as u64 - 48;
            let n: u64 = if two { first * 10 + (s[i + 1] as u64 - 48) } else { first };
            match prev {
                PreviousToken::GroupClose => {
                    if !scale(&mut atoms, depth, n) {
                        return Err(SortEmpiricalFormulaError::CountOverflow);
                    }
                },
                PreviousToken::Atom => {
                    if atoms.len() == 0 {
                        return Err(SortEmpiricalFormulaError::NumberAfterUnknowAtom);
                    }
                    let last = atoms.len() - 1;
                    let a = atoms[last];
                    atoms.set(last, Occurrence { key: a.key, depth: a.depth, count: n });
                },
                _ => {
                    return Err(SortEmpiricalFormulaError::NumberAfterUnknowAtom);
                },
            }
            i += if two { 2 } else { 1 };
            prev = PreviousToken::Other;
        } else {
            i += 1;
            prev = PreviousToken::Other;
        }
    }
    Ok(atoms)
}


proof fn lemma_total_bound(atoms: Seq<Occurrence>, k: nat)
    ensures
        total(atoms, k) <= atoms.len() * u64::MAX,
    decreases atoms.len(),
{
    if atoms.len() > 0 {
        lemma_total_bound(atoms.drop_last(), k);
        assert(total(atoms, k) <= atoms.drop_last().len() * u64::MAX + u64::MAX);
        assert(atoms.drop_last().len() * u64::MAX + u64::MAX == atoms.len() * u64::MAX)
            by (nonlinear_arith)
            requires
                atoms.drop_last().len() + 1 == atoms.len(),
        ;
    }
}

/// Sums the counts per symbol key: which keys occur, and their totals.
fn tally(atoms: &Vec<Occurrence>) -> (r: (Vec<bool>, Vec<u128>))
    requires
        forall|j: int| 0 <= j < atoms@.len() ==> atoms@[j].key < KEY_COUNT,
    ensures
        r.0@.len() == KEY_COUNT,
        r.1@.len() == KEY_COUNT,
        forall|k: int|
            0 <= k < KEY_COUNT ==> r.0@[k] == present(atoms@, k as nat) && r.1@[k] == total(
                atoms@,
                k as nat,
            ),
{
    let mut seen: Vec<bool> = Vec::new();
    let mut sums: Vec<u128> = Vec::new();
    let mut k: usize = 0;
    while k < KEY_COUNT
        invariant
            k <= KEY_COUNT,
            seen@.len() == k,
            sums@.len() == k,
            forall|t: int| 0 <= t < k ==> !seen@[t] && sums@[t] == 0,
        decreases KEY_COUNT - k,
    {
        seen.push(false);
        sums.push(0);
        k += 1;
    }
    let mut i: usize = 0;
    while i < atoms.len()
        invariant
            i <= atoms@.len(),
            seen@.len() == KEY_COUNT,
            sums@.len() == KEY_COUNT,
            forall|j: int| 0 <= j < atoms@.len() ==> atoms@[j].key < KEY_COUNT,
            forall|t: int|
                0 <= t < KEY_COUNT ==> seen@[t] == present(atoms@.take(i as int), t as nat)
                    && sums@[t] == total(atoms@.take(i as int), t as nat),
        decreases atoms@.len() - i,
    {
        let a = atoms[i];
        let ghost before = atoms@.take(i as int);
        let ghost after = atoms@.take(i + 1);
        assert(after.drop_last() =~= before);
        proof {
            lemma_total_bound(before, a.key as nat);
            assert(i * u64::MAX + u64::MAX <= u128::MAX) by (nonlinear_arith)
                requires
                    i < u64::MAX,
            ;
        }
        let old_sum = sums[a.key];
        sums.set(a.key, old_sum + a.count as u128);
        seen.set(a.key, true);
        i += 1;
        assert forall|t: int| 0 <= t < KEY_COUNT implies seen@[t] == present(after, t as nat)
            && sums@[t] == total(after, t as nat) by {
            if t == a.key {
                assert(after[i - 1] == a);
            } else {
                if present(after, t as nat) {
                    let j = choose|j: int| 0 <= j < after.len() && after[j].key == t;
                    assert(before[j] == after[j]);
                }
                if present(before, t as nat) {
                    let j = choose|j: int| 0 <= j < before.len() && before[j].key == t;
                    assert(before[j] == after[j]);
                }
            }
        }
    }
    assert(atoms@.take(atoms@.len() as int) =~= atoms@);
    (seen, sums)
}

/// Appends the decimal notation of `n`.
fn push_decimal(out: &mut String, n: u128)
    ensures
        final(out)@ == old(out)@ + decimal(n as nat),
    decreases n,
{
    if n >= 10 {
        push_decimal(out, n / 10);
    }
    let d = (n % 10) as u8;
    crate::text::push_char(out, (48 + d) as char);
    assert(final(out)@ =~= old(out)@ + decimal(n as nat));
}

/// Appends the symbol of key `k` followed by its count, if `k` occurs.
fn push_piece(out: &mut String, k: usize, seen: bool, sum: u128)
    requires
        k < KEY_COUNT,
    ensures
        final(out)@ == old(out)@ + if seen {
            key_symbol(k as nat) + count_text(sum as nat)
        } else {
            Seq::empty()
        },
{
    if seen {
        let first = (65 + k / 27) as u8;
        crate::text::push_char(out, first as char);
        if k % 27 != 0 {
            let second = (96 + k % 27) as u8;
            crate::text::push_char(out, second as char);
        }
        let ghost with_symbol = out@;
        assert(with_symbol =~= old(out)@ + key_symbol(k as nat));
        if sum != 1 {
            push_decimal(out, sum);
        }
        assert(out@ =~= old(out)@ + (key_symbol(k as nat) + count_text(sum as nat)));
    } else {
        assert(out@ =~= old(out)@ + Seq::<char>::empty());
    }
}

/// The Hill-ordered formula of the occurrences.
fn write_hill(atoms: &Vec<Occurrence>) -> (r: String)
    requires
        forall|j: int| 0 <= j < atoms@.len() ==> atoms@[j].key < KEY_COUNT,
    ensures
        r@ == hill_formula(atoms@),
{
    let (seen, sums) = tally(atoms);
    let carbon_key: usize = 2 * 27;
    let hydrogen_key: usize = 7 * 27;
    assert(carbon() == carbon_key && hydrogen() == hydrogen_key);
    let mut out = String::new();
    push_piece(&mut out, carbon_key, seen[carbon_key], sums[carbon_key]);
    push_piece(&mut out, hydrogen_key, seen[hydrogen_key], sums[hydrogen_key]);
    let ghost head = out@;
    assert(head =~= piece(atoms@, carbon()) + piece(atoms@, hydrogen()));
    let mut k: usize = 0;
    while k < KEY_COUNT
        invariant
            k <= KEY_COUNT,
            seen@.len() == KEY_COUNT,
            sums@.len() == KEY_COUNT,
            forall|t: int|
                0 <= t < KEY_COUNT ==> seen@[t] == present(atoms@, t as nat) && sums@[t] == total(
                    atoms@,
                    t as nat,
                ),
            out@ + pieces_from(atoms@, k as nat) == hill_formula(atoms@),
            carbon() == carbon_key,
            hydrogen() == hydrogen_key,
        decreases KEY_COUNT - k,
    {
        let ghost before = out@;
        let ghost p = if k as nat == carbon() || k as nat == hydrogen() {
            Seq::<char>::empty()
        } else {
            piece(atoms@, k as nat)
        };
        assert(pieces_from(atoms@, k as nat) == p + pieces_from(atoms@, (k + 1) as nat));
        if k != carbon_key && k != hydrogen_key {
            assert(seen@[k as int] == present(atoms@, k as nat));
            assert(sums@[k as int] == total(atoms@, k as nat));
            push_piece(&mut out, k, seen[k], sums[k]);
            assert(out@ =~= before + p);
        } else {
            assert(p =~= Seq::<char>::empty());
        }
        assert(out@ + pieces_from(atoms@, (k + 1) as nat) =~= before + pieces_from(
            atoms@,
            k as nat,
        ));
        k += 1;
    }
    assert(out@ =~= out@ + pieces_from(atoms@, k as nat));
    out
}

/// Normalises `formula` into its empirical formula in Hill order: carbon
/// first, hydrogen second, then the other symbols alphabetically, each
/// followed by its total count unless that count is one.
///
/// Brackets `(` `[` and `)` `]` open and close groups. A number of one or two
/// digits sets the count of the symbol just before it, or multiplies every
/// symbol read deeper than the group that a closing bracket just before it
/// ended. Any other character is skipped.
///
/// Fails on a closing bracket with no open group, on an uppercase-led token
/// that is no element symbol, on a number with neither a symbol nor a closing
/// bracket right before it, and on a count that overflows 64 bits.
pub fn sort_empirical_formula(formula: &str) -> (r: Result<String, SortEmpiricalFormulaError>)
    ensures
        match r {
            Ok(s) => empirical_formula(formula@) == Ok::<Seq<char>, FormulaFault>(s@),
            Err(e) => empirical_formula(formula@) == Err::<Seq<char>, FormulaFault>(e@),
        },
{
    let chars = crate::text::chars_of(formula);
    match scan_occurrences(&chars) {
        Ok(atoms) => Ok(write_hill(&atoms)),
        Err(e) => Err(e),
    }
}

} // verus!
