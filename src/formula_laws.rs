//! Properties of the formula normalisation, stated over its model and proved.
use vstd::prelude::*;
use crate::text::{digit_value, is_digit};
use crate::formula::{
    carbon, count_text, decimal, digit_char, empirical_formula, hill_formula, hydrogen,
    is_lower, is_pair_element, is_single_element, is_upper, key_symbol,
    occurrences, pair_key, piece, pieces_from, present, scale_overflows, scaled, scan,
    single_key, total, FormulaFault, Occurrence, PreviousToken, KEY_COUNT,
};

verus! {

/// Opening brackets minus closing brackets among the first `i` characters.
pub open spec fn bracket_balance(s: Seq<char>, i: int) -> int
    decreases i,
{
    if i <= 0 {
        0
    } else {
        let c = s[i - 1];
        bracket_balance(s, i - 1) + if c == '(' || c == '[' {
            1int
        } else if c == ')' || c == ']' {
            -1int
        } else {
            0int
        }
    }
}

proof fn lemma_scan_meets_unmatched(
    s: Seq<char>,
    j: int,
    i: nat,
    depth: nat,
    prev: PreviousToken,
    atoms: Seq<Occurrence>,
)
    requires
        0 <= j < s.len(),
        s[j] == ')' || s[j] == ']',
        bracket_balance(s, j) <= 0,
        i <= j,
        depth == bracket_balance(s, i as int),
    ensures
        scan(s, i, depth, prev, atoms) is Err,
        scan(s.take(j), i, depth, prev, atoms) is Ok ==> scan(s, i, depth, prev, atoms)
            == Err::<Seq<Occurrence>, FormulaFault>(FormulaFault::UnbalancedParenthesis),
    decreases j - i,
{
    let t = s.take(j);
    let c = s[i as int];
    if i == j {
        assert(t.len() == i);
    } else {
        assert(t[i as int] == c);
        assert(i + 1 < t.len() ==> t[i + 1 as int] == s[i + 1 as int]);
        assert(i + 1 == j ==> !is_lower(s[i + 1 as int]) && !is_digit(s[i + 1 as int]));
        assert(bracket_balance(s, i + 1 as int) == bracket_balance(s, i as int) + if c == '(' || c
            == '[' {
            1int
        } else if c == ')' || c == ']' {
            -1int
        } else {
            0int
        });
        if i + 2 <= j {
            let d = s[i + 1 as int];
            assert(bracket_balance(s, i + 2 as int) == bracket_balance(s, i + 1 as int) + if d
                == '(' || d == '[' {
                1int
            } else if d == ')' || d == ']' {
                -1int
            } else {
                0int
            });
        }
        if c == '(' || c == '[' {
            lemma_scan_meets_unmatched(s, j, i + 1, depth + 1, PreviousToken::Other, atoms);
        } else if c == ')' || c == ']' {
            if depth > 0 {
                lemma_scan_meets_unmatched(
                    s,
                    j,
                    i + 1,
                    (depth - 1) as nat,
                    PreviousToken::GroupClose,
                    atoms,
                );
            }
        } else if is_upper(c) {
            let two = i + 1 < s.len() && is_lower(s[i + 1 as int]);
            if two && is_pair_element(c, s[i + 1 as int]) {
                let a = Occurrence {
                    key: pair_key(c, s[i + 1 as int]) as usize,
                    depth: depth as usize,
                    count: 1,
                };
                lemma_scan_meets_unmatched(s, j, i + 2, depth, PreviousToken::Atom, atoms.push(a));
            } else if is_single_element(c) {
                let a = Occurrence { key: single_key(c) as usize, depth: depth as usize, count: 1 };
                lemma_scan_meets_unmatched(s, j, i + 1, depth, PreviousToken::Atom, atoms.push(a));
            }
        } else if is_digit(c) {
            let two = i + 1 < s.len() && is_digit(s[i + 1 as int]);
            let n = if two {
                10 * digit_value(c) + digit_value(s[i + 1 as int])
            } else {
                digit_value(c)
            };
            let next: nat = if two { i + 2 } else { i + 1 };
            match prev {
                PreviousToken::GroupClose => {
                    if !scale_overflows(atoms, depth, n) {
                        lemma_scan_meets_unmatched(
                            s,
                            j,
                            next,
                            depth,
                            PreviousToken::Other,
                            scaled(atoms, depth, n),
                        );
                    }
                },
                PreviousToken::Atom => {
                    if atoms.len() > 0 {
                        let last = atoms.last();
                        let a = Occurrence { count: n as u64, ..last };
                        lemma_scan_meets_unmatched(
                            s,
                            j,
                            next,
                            depth,
                            PreviousToken::Other,
                            atoms.update(atoms.len() - 1, a),
                        );
                    }
                },
                _ => {},
            }
        } else {
            lemma_scan_meets_unmatched(s, j, i + 1, depth, PreviousToken::Other, atoms);
        }
    }
}

/// A closing bracket that no earlier opening bracket matches makes the
/// normalisation fail; when the text before that bracket scans without a
/// fault, the fault is `UnbalancedParenthesis`.
pub proof fn lemma_unmatched_closing_bracket(s: Seq<char>, j: int)
    requires
        0 <= j < s.len(),
        s[j] == ')' || s[j] == ']',
        bracket_balance(s, j) <= 0,
    ensures
        empirical_formula(s) is Err,
        occurrences(s.take(j)) is Ok ==> empirical_formula(s) == Err::<Seq<char>, FormulaFault>(
            FormulaFault::UnbalancedParenthesis,
        ),
{
    lemma_scan_meets_unmatched(s, j, 0, 0, PreviousToken::Nothing, Seq::empty());
}

/// Whether `k` is the key of an element symbol.
pub open spec fn is_element_key(k: nat) -> bool {
    let sym = key_symbol(k);
    &&& k < KEY_COUNT
    &&& if k % 27 == 0 {
        is_single_element(sym[0])
    } else {
        is_pair_element(sym[0], sym[1])
    }
}

/// Occurrences that a canonical formula can be written from: every symbol is
/// an element, and every total is below 100.
pub open spec fn writable(atoms: Seq<Occurrence>) -> bool {
    forall|k: nat| #[trigger] present(atoms, k) ==> is_element_key(k) && total(atoms, k) < 100
}

/// The single occurrence that stands for the total of key `k`.
pub open spec fn summed(atoms: Seq<Occurrence>, k: nat) -> Occurrence {
    Occurrence { key: k as usize, depth: 0, count: total(atoms, k) as u64 }
}

/// The summed occurrences of the keys from `k` on, in key order, carbon and
/// hydrogen left out.
pub open spec fn summed_from(atoms: Seq<Occurrence>, k: nat) -> Seq<Occurrence>
    decreases KEY_COUNT - k,
{
    if k >= KEY_COUNT {
        Seq::empty()
    } else {
        let o = if k == carbon() || k == hydrogen() || !present(atoms, k) {
            Seq::empty()
        } else {
            seq![summed(atoms, k)]
        };
        o + summed_from(atoms, k + 1)
    }
}

/// The summed occurrence of key `k`, if it occurs.
pub open spec fn summed_if_present(atoms: Seq<Occurrence>, k: nat) -> Seq<Occurrence> {
    if present(atoms, k) {
        seq![summed(atoms, k)]
    } else {
        Seq::empty()
    }
}

proof fn lemma_key_symbol(k: nat)
    requires
        k < KEY_COUNT,
    ensures
        is_upper(key_symbol(k)[0]),
        k % 27 == 0 ==> key_symbol(k).len() == 1 && single_key(key_symbol(k)[0]) == k,
        k % 27 != 0 ==> key_symbol(k).len() == 2 && is_lower(key_symbol(k)[1]) && pair_key(
            key_symbol(k)[0],
            key_symbol(k)[1],
        ) == k,
{
    assert(k / 27 < 26);
    assert(k == (k / 27) * 27 + k % 27);
}

proof fn lemma_small_decimal(n: nat)
    requires
        n < 100,
    ensures
        n < 10 ==> decimal(n) == seq![digit_char(n)],
        n >= 10 ==> decimal(n) == seq![digit_char(n / 10), digit_char(n % 10)],
        n < 10 ==> digit_value(digit_char(n)) == n && is_digit(digit_char(n)),
        n >= 10 ==> digit_value(digit_char(n / 10)) == n / 10 && is_digit(digit_char(n / 10)),
        n >= 10 ==> digit_value(digit_char(n % 10)) == n % 10 && is_digit(digit_char(n % 10)),
{
    if n >= 10 {
        assert(decimal(n / 10) == seq![digit_char(n / 10)]);
        assert(decimal(n) =~= seq![digit_char(n / 10), digit_char(n % 10)]);
    }
}

/// Scanning the symbol of an element key followed by its count text adds one
/// occurrence with that count at depth zero.
proof fn lemma_scan_piece(
    s: Seq<char>,
    i: nat,
    prev: PreviousToken,
    acc: Seq<Occurrence>,
    k: nat,
    n: nat,
)
    requires
        is_element_key(k),
        n < 100,
        i + (key_symbol(k) + count_text(n)).len() <= s.len(),
        s.subrange(i as int, (i + (key_symbol(k) + count_text(n)).len()) as int) == key_symbol(k)
            + count_text(n),
        i + (key_symbol(k) + count_text(n)).len() == s.len() || is_upper(
            s[(i + (key_symbol(k) + count_text(n)).len()) as int],
        ),
    ensures
        scan(s, i, 0, prev, acc) == scan(
            s,
            i + (key_symbol(k) + count_text(n)).len(),
            0,
            if n == 1 {
                PreviousToken::Atom
            } else {
                PreviousToken::Other
            },
            acc.push(Occurrence { key: k as usize, depth: 0, count: n as u64 }),
        ),
{
    let sym = key_symbol(k);
    let text = count_text(n);
    let u = sym + text;
    let e = i + u.len();
    lemma_key_symbol(k);
    lemma_small_decimal(n);
    let l = sym.len();
    assert(s[i as int] == u[0]);
    let a1 = Occurrence { key: k as usize, depth: 0, count: 1 };
    let an = Occurrence { key: k as usize, depth: 0, count: n as u64 };
    if l == 2 {
        assert(s[(i + 1) as int] == u[1 as int]);
    } else {
        assert(i + 1 < s.len() ==> s[i + 1 as int] == if n == 1 {
            s[e as int]
        } else {
            u[1]
        });
    }
    assert(scan(s, i, 0, prev, acc) == scan(s, i + l, 0, PreviousToken::Atom, acc.push(a1)));
    if n == 1 {
        assert(a1 == an);
    } else if n < 10 {
        assert(s[(i + l) as int] == u[l as int]);
        assert(u[l as int] == digit_char(n));
        assert(e == i + l + 1);
        assert(acc.push(a1).update(acc.len() as int, an) =~= acc.push(an));
        assert(scan(s, i + l, 0, PreviousToken::Atom, acc.push(a1)) == scan(
            s,
            e,
            0,
            PreviousToken::Other,
            acc.push(an),
        ));
    } else {
        assert(s[(i + l) as int] == u[l as int]);
        assert(s[(i + l + 1) as int] == u[(l + 1) as int]);
        assert(e == i + l + 2);
        assert(10 * (n / 10) + n % 10 == n);
        assert(acc.push(a1).update(acc.len() as int, an) =~= acc.push(an));
        assert(scan(s, i + l, 0, PreviousToken::Atom, acc.push(a1)) == scan(
            s,
            e,
            0,
            PreviousToken::Other,
            acc.push(an),
        ));
    }
}

proof fn lemma_pieces_start(atoms: Seq<Occurrence>, k: nat)
    ensures
        pieces_from(atoms, k).len() == 0 || is_upper(pieces_from(atoms, k)[0]),
    decreases KEY_COUNT - k,
{
    if k < KEY_COUNT {
        lemma_pieces_start(atoms, k + 1);
        lemma_key_symbol(k);
    }
}

/// The class of the last token of the piece of key `k`, or `prev` if `k` does
/// not occur.
pub open spec fn after_piece(atoms: Seq<Occurrence>, k: nat, prev: PreviousToken) -> PreviousToken {
    if !present(atoms, k) {
        prev
    } else if total(atoms, k) == 1 {
        PreviousToken::Atom
    } else {
        PreviousToken::Other
    }
}

proof fn lemma_scan_one_piece(
    s: Seq<char>,
    i: nat,
    prev: PreviousToken,
    acc: Seq<Occurrence>,
    atoms: Seq<Occurrence>,
    k: nat,
    tail: Seq<char>,
)
    requires
        writable(atoms),
        k < KEY_COUNT,
        i <= s.len(),
        s.subrange(i as int, s.len() as int) == piece(atoms, k) + tail,
        tail.len() == 0 || is_upper(tail[0]),
    ensures
        scan(s, i, 0, prev, acc) == scan(
            s,
            i + piece(atoms, k).len(),
            0,
            after_piece(atoms, k, prev),
            acc + summed_if_present(atoms, k),
        ),
{
    let p = piece(atoms, k);
    let e = i + p.len();
    if present(atoms, k) {
        let n = total(atoms, k);
        let whole = s.subrange(i as int, s.len() as int);
        assert(whole.len() == p.len() + tail.len());
        assert forall|t: int| 0 <= t < p.len() implies s[i + t] == p[t] by {
            assert(whole[t] == (p + tail)[t]);
        }
        assert(s.subrange(i as int, e as int) =~= p);
        if e < s.len() {
            assert(whole[p.len() as int] == (p + tail)[p.len() as int]);
        }
        lemma_scan_piece(s, i, prev, acc, k, n);
        assert(acc.push(Occurrence { key: k as usize, depth: 0, count: n as u64 }) =~= acc
            + summed_if_present(atoms, k));
    } else {
        assert(acc + summed_if_present(atoms, k) =~= acc);
    }
}

proof fn lemma_scan_pieces(
    s: Seq<char>,
    i: nat,
    prev: PreviousToken,
    acc: Seq<Occurrence>,
    atoms: Seq<Occurrence>,
    k: nat,
)
    requires
        writable(atoms),
        i <= s.len(),
        s.subrange(i as int, s.len() as int) == pieces_from(atoms, k),
    ensures
        scan(s, i, 0, prev, acc) == Ok::<Seq<Occurrence>, FormulaFault>(
            acc + summed_from(atoms, k),
        ),
    decreases KEY_COUNT - k,
{
    if k >= KEY_COUNT {
        assert(s.subrange(i as int, s.len() as int).len() == 0);
        assert(acc + summed_from(atoms, k) =~= acc);
    } else {
        let skip = k == carbon() || k == hydrogen();
        let rest = pieces_from(atoms, k + 1);
        lemma_pieces_start(atoms, k + 1);
        if skip {
            assert(pieces_from(atoms, k) =~= rest);
            lemma_scan_pieces(s, i, prev, acc, atoms, k + 1);
            assert(summed_from(atoms, k) =~= summed_from(atoms, k + 1));
        } else {
            let p = piece(atoms, k);
            let e = i + p.len();
            assert(pieces_from(atoms, k) == p + rest);
            lemma_scan_one_piece(s, i, prev, acc, atoms, k, rest);
            let whole = s.subrange(i as int, s.len() as int);
            assert(whole.len() == p.len() + rest.len());
            assert forall|t: int| 0 <= t < rest.len() implies s[e + t] == rest[t] by {
                assert(whole[p.len() + t] == (p + rest)[p.len() + t]);
            }
            assert(s.subrange(e as int, s.len() as int) =~= rest);
            lemma_scan_pieces(
                s,
                e,
                after_piece(atoms, k, prev),
                acc + summed_if_present(atoms, k),
                atoms,
                k + 1,
            );
            assert(summed_from(atoms, k) == summed_if_present(atoms, k) + summed_from(
                atoms,
                k + 1,
            ));
            assert(acc + summed_if_present(atoms, k) + summed_from(atoms, k + 1) =~= acc
                + summed_from(atoms, k));
        }
    }
}

proof fn lemma_total_concat(a: Seq<Occurrence>, b: Seq<Occurrence>, k: nat)
    ensures
        total(a + b, k) == total(a, k) + total(b, k),
    decreases b.len(),
{
    if b.len() == 0 {
        assert(a + b =~= a);
    } else {
        assert((a + b).drop_last() =~= a + b.drop_last());
        lemma_total_concat(a, b.drop_last(), k);
    }
}

proof fn lemma_present_concat(a: Seq<Occurrence>, b: Seq<Occurrence>, k: nat)
    ensures
        present(a + b, k) == (present(a, k) || present(b, k)),
{
    if present(a + b, k) {
        let j = choose|j: int| 0 <= j < (a + b).len() && (a + b)[j].key == k;
        if j < a.len() {
            assert(a[j].key == k);
        } else {
            assert(b[j - a.len()].key == k);
        }
    }
    if present(a, k) {
        let j = choose|j: int| 0 <= j < a.len() && a[j].key == k;
        assert((a + b)[j].key == k);
    }
    if present(b, k) {
        let j = choose|j: int| 0 <= j < b.len() && b[j].key == k;
        assert((a + b)[a.len() + j].key == k);
    }
}

proof fn lemma_summed_if_present(atoms: Seq<Occurrence>, k0: nat, k: nat)
    requires
        writable(atoms),
        k0 < KEY_COUNT,
    ensures
        present(summed_if_present(atoms, k0), k) == (k == k0 && present(atoms, k)),
        total(summed_if_present(atoms, k0), k) == if k == k0 && present(atoms, k) {
            total(atoms, k)
        } else {
            0
        },
{
    let o = summed_if_present(atoms, k0);
    if present(atoms, k0) {
        assert(total(atoms, k0) < 100);
        assert(total(Seq::<Occurrence>::empty(), k) == 0);
        assert(o.drop_last() =~= Seq::<Occurrence>::empty());
        assert(o[0].key == k0);
        if present(o, k) {
            let j = choose|j: int| 0 <= j < o.len() && o[j].key == k;
            assert(j == 0);
        }
    }
}

proof fn lemma_summed_from(atoms: Seq<Occurrence>, k0: nat, k: nat)
    requires
        writable(atoms),
    ensures
        present(summed_from(atoms, k0), k) == (k0 <= k < KEY_COUNT && k != carbon() && k
            != hydrogen() && present(atoms, k)),
        total(summed_from(atoms, k0), k) == if k0 <= k < KEY_COUNT && k != carbon() && k
            != hydrogen() && present(atoms, k) {
            total(atoms, k)
        } else {
            0
        },
    decreases KEY_COUNT - k0,
{
    if k0 < KEY_COUNT {
        lemma_summed_from(atoms, k0 + 1, k);
        let o = if k0 == carbon() || k0 == hydrogen() {
            Seq::empty()
        } else {
            summed_if_present(atoms, k0)
        };
        assert(summed_from(atoms, k0) =~= o + summed_from(atoms, k0 + 1));
        lemma_total_concat(o, summed_from(atoms, k0 + 1), k);
        lemma_present_concat(o, summed_from(atoms, k0 + 1), k);
        lemma_summed_if_present(atoms, k0, k);
    } else {
        assert(summed_from(atoms, k0).len() == 0);
    }
}

proof fn lemma_pieces_agree(a: Seq<Occurrence>, b: Seq<Occurrence>, k: nat)
    requires
        forall|t: nat|
            t < KEY_COUNT ==> present(a, t) == present(b, t) && (present(a, t) ==> total(a, t)
                == total(b, t)),
    ensures
        pieces_from(a, k) == pieces_from(b, k),
    decreases KEY_COUNT - k,
{
    if k < KEY_COUNT {
        lemma_pieces_agree(a, b, k + 1);
        assert(piece(a, k) == piece(b, k));
    }
}

/// A canonical formula is left as it is: for occurrences of element symbols
/// whose totals are below 100, normalising their Hill formula gives that same
/// formula back.
pub proof fn lemma_canonical_formula_is_fixed_point(atoms: Seq<Occurrence>)
    requires
        writable(atoms),
    ensures
        empirical_formula(hill_formula(atoms)) == Ok::<Seq<char>, FormulaFault>(
            hill_formula(atoms),
        ),
{
    let f = hill_formula(atoms);
    let c = carbon();
    let h = hydrogen();
    let pc = piece(atoms, c);
    let ph = piece(atoms, h);
    let rest = pieces_from(atoms, 0);
    assert(c == 54 && h == 189);
    lemma_key_symbol(h);
    lemma_pieces_start(atoms, 0);
    let sc = summed_if_present(atoms, c);
    let sh = summed_if_present(atoms, h);
    let p1 = after_piece(atoms, c, PreviousToken::Nothing);
    let p2 = after_piece(atoms, h, p1);
    assert(f.subrange(0, f.len() as int) =~= pc + (ph + rest));
    lemma_scan_one_piece(f, 0, PreviousToken::Nothing, Seq::empty(), atoms, c, ph + rest);
    assert(f.subrange(pc.len() as int, f.len() as int) =~= ph + rest);
    lemma_scan_one_piece(f, pc.len(), p1, Seq::empty() + sc, atoms, h, rest);
    assert(f.subrange((pc.len() + ph.len()) as int, f.len() as int) =~= rest);
    lemma_scan_pieces(f, pc.len() + ph.len(), p2, Seq::empty() + sc + sh, atoms, 0);
    let scanned = Seq::empty() + sc + sh + summed_from(atoms, 0);
    assert(occurrences(f) == Ok::<Seq<Occurrence>, FormulaFault>(scanned));
    assert forall|t: nat| t < KEY_COUNT implies present(scanned, t) == present(atoms, t) && (
    present(scanned, t) ==> total(scanned, t) == total(atoms, t)) by {
        lemma_summed_if_present(atoms, c, t);
        lemma_summed_if_present(atoms, h, t);
        lemma_summed_from(atoms, 0, t);
        assert(Seq::<Occurrence>::empty() + sc =~= sc);
        lemma_total_concat(sc, sh, t);
        lemma_present_concat(sc, sh, t);
        lemma_total_concat(sc + sh, summed_from(atoms, 0), t);
        lemma_present_concat(sc + sh, summed_from(atoms, 0), t);
    }
    lemma_pieces_agree(scanned, atoms, 0);
    assert(piece(scanned, c) == pc);
    assert(piece(scanned, h) == ph);
}

/// The token that an unknown symbol at position `i` is reported with: the
/// uppercase letter, and the lowercase letter after it if there is one.
pub open spec fn unknown_token(s: Seq<char>, i: int) -> Seq<char> {
    if i + 1 < s.len() && is_lower(s[i + 1]) {
        seq![s[i], s[i + 1]]
    } else {
        seq![s[i]]
    }
}

/// A formula that starts with an uppercase letter which begins no element
/// symbol (neither alone nor with the lowercase letter after it) fails with
/// `UnknowAtom`, carrying that token.
pub proof fn lemma_leading_unknown_atom(s: Seq<char>)
    requires
        s.len() > 0,
        is_upper(s[0]),
        !is_single_element(s[0]),
        !(s.len() > 1 && is_lower(s[1]) && is_pair_element(s[0], s[1])),
    ensures
        empirical_formula(s) == Err::<Seq<char>, FormulaFault>(
            FormulaFault::UnknowAtom(unknown_token(s, 0)),
        ),
{
}

/// The faults that a scan can end with.
pub open spec fn is_scan_fault(e: FormulaFault) -> bool {
    match e {
        FormulaFault::UnbalancedParenthesis => true,
        FormulaFault::UnknowAtom(_) => true,
        FormulaFault::NumberAfterUnknowAtom => true,
        FormulaFault::CountOverflow => true,
        _ => false,
    }
}

proof fn lemma_scan_faults(
    s: Seq<char>,
    i: nat,
    depth: nat,
    prev: PreviousToken,
    atoms: Seq<Occurrence>,
)
    ensures
        scan(s, i, depth, prev, atoms) is Err ==> is_scan_fault(
            scan(s, i, depth, prev, atoms)->Err_0,
        ),
    decreases s.len() - i,
{
    if i < s.len() {
        let c = s[i as int];
        if c == '(' || c == '[' {
            lemma_scan_faults(s, i + 1, depth + 1, PreviousToken::Other, atoms);
        } else if c == ')' || c == ']' {
            if depth > 0 {
                lemma_scan_faults(s, i + 1, (depth - 1) as nat, PreviousToken::GroupClose, atoms);
            }
        } else if is_upper(c) {
            let two = i + 1 < s.len() && is_lower(s[i + 1 as int]);
            if two && is_pair_element(c, s[i + 1 as int]) {
                let a = Occurrence {
                    key: pair_key(c, s[i + 1 as int]) as usize,
                    depth: depth as usize,
                    count: 1,
                };
                lemma_scan_faults(s, i + 2, depth, PreviousToken::Atom, atoms.push(a));
            } else if is_single_element(c) {
                let a = Occurrence { key: single_key(c) as usize, depth: depth as usize, count: 1 };
                lemma_scan_faults(s, i + 1, depth, PreviousToken::Atom, atoms.push(a));
            }
        } else if is_digit(c) {
            let two = i + 1 < s.len() && is_digit(s[i + 1 as int]);
            let n = if two {
                10 * digit_value(c) + digit_value(s[i + 1 as int])
            } else {
                digit_value(c)
            };
            let next: nat = if two { i + 2 } else { i + 1 };
            match prev {
                PreviousToken::GroupClose => {
                    if !scale_overflows(atoms, depth, n) {
                        lemma_scan_faults(
                            s,
                            next,
                            depth,
                            PreviousToken::Other,
                            scaled(atoms, depth, n),
                        );
                    }
                },
                PreviousToken::Atom => {
                    if atoms.len() > 0 {
                        let a = Occurrence { count: n as u64, ..atoms.last() };
                        lemma_scan_faults(
                            s,
                            next,
                            depth,
                            PreviousToken::Other,
                            atoms.update(atoms.len() - 1, a),
                        );
                    }
                },
                _ => {},
            }
        } else {
            lemma_scan_faults(s, i + 1, depth, PreviousToken::Other, atoms);
        }
    }
}

/// Normalisation fails only with an unbalanced bracket, an unknown symbol, a
/// number without context or a count overflow: never with
/// `CanNotParseNumber` or `UnexpectedNoneAtomCount`.
pub proof fn lemma_reachable_faults(s: Seq<char>)
    ensures
        empirical_formula(s) is Err ==> is_scan_fault(empirical_formula(s)->Err_0),
{
    lemma_scan_faults(s, 0, 0, PreviousToken::Nothing, Seq::empty());
}


/// Every occurrence has the key of an element symbol.
pub open spec fn all_elements(atoms: Seq<Occurrence>) -> bool {
    forall|j: int| 0 <= j < atoms.len() ==> is_element_key(#[trigger] atoms[j].key as nat)
}

proof fn lemma_element_keys(c: char, d: char)
    requires
        is_upper(c),
    ensures
        is_single_element(c) ==> is_element_key(single_key(c)),
        is_lower(d) && is_pair_element(c, d) ==> is_element_key(pair_key(c, d)),
{
    let k = single_key(c);
    assert(k / 27 == c as u32 - 65 && k % 27 == 0);
    if is_lower(d) {
        let m = pair_key(c, d);
        assert(m / 27 == c as u32 - 65 && m % 27 == d as u32 - 96);
    }
}

proof fn lemma_scan_elements(
    s: Seq<char>,
    i: nat,
    depth: nat,
    prev: PreviousToken,
    atoms: Seq<Occurrence>,
)
    requires
        all_elements(atoms),
    ensures
        scan(s, i, depth, prev, atoms) is Ok ==> all_elements(
            scan(s, i, depth, prev, atoms)->Ok_0,
        ),
    decreases s.len() - i,
{
    if i < s.len() {
        let c = s[i as int];
        if c == '(' || c == '[' {
            lemma_scan_elements(s, i + 1, depth + 1, PreviousToken::Other, atoms);
        } else if c == ')' || c == ']' {
            if depth > 0 {
                lemma_scan_elements(s, i + 1, (depth - 1) as nat, PreviousToken::GroupClose, atoms);
            }
        } else if is_upper(c) {
            let two = i + 1 < s.len() && is_lower(s[i + 1 as int]);
            if two {
                lemma_element_keys(c, s[i + 1 as int]);
            } else {
                lemma_element_keys(c, c);
            }
            if two && is_pair_element(c, s[i + 1 as int]) {
                let a = Occurrence {
                    key: pair_key(c, s[i + 1 as int]) as usize,
                    depth: depth as usize,
                    count: 1,
                };
                assert(all_elements(atoms.push(a))) by {
                    assert(forall|j: int| 0 <= j < atoms.len() ==> atoms.push(a)[j] == atoms[j]);
                }
                lemma_scan_elements(s, i + 2, depth, PreviousToken::Atom, atoms.push(a));
            } else if is_single_element(c) {
                let a = Occurrence { key: single_key(c) as usize, depth: depth as usize, count: 1 };
                assert(all_elements(atoms.push(a))) by {
                    assert(forall|j: int| 0 <= j < atoms.len() ==> atoms.push(a)[j] == atoms[j]);
                }
                lemma_scan_elements(s, i + 1, depth, PreviousToken::Atom, atoms.push(a));
            }
        } else if is_digit(c) {
            let two = i + 1 < s.len() && is_digit(s[i + 1 as int]);
            let n = if two {
                10 * digit_value(c) + digit_value(s[i + 1 as int])
            } else {
                digit_value(c)
            };
            let next: nat = if two { i + 2 } else { i + 1 };
            match prev {
                PreviousToken::GroupClose => {
                    if !scale_overflows(atoms, depth, n) {
                        let b = scaled(atoms, depth, n);
                        assert(forall|j: int| 0 <= j < atoms.len() ==> b[j].key == atoms[j].key);
                        lemma_scan_elements(s, next, depth, PreviousToken::Other, b);
                    }
                },
                PreviousToken::Atom => {
                    if atoms.len() > 0 {
                        let a = Occurrence { count: n as u64, ..atoms.last() };
                        let b = atoms.update(atoms.len() - 1, a);
                        assert(forall|j: int| 0 <= j < atoms.len() ==> b[j].key == atoms[j].key);
                        lemma_scan_elements(s, next, depth, PreviousToken::Other, b);
                    }
                },
                _ => {},
            }
        } else {
            lemma_scan_elements(s, i + 1, depth, PreviousToken::Other, atoms);
        }
    }
}

/// Every occurrence read from a formula is of a symbol of the element table.
pub proof fn lemma_occurrences_are_elements(s: Seq<char>)
    ensures
        occurrences(s) is Ok ==> all_elements(occurrences(s)->Ok_0),
{
    lemma_scan_elements(s, 0, 0, PreviousToken::Nothing, Seq::empty());
}

/// Normalising is idempotent where every total stays below 100: normalising
/// the result again gives it back unchanged.
pub proof fn lemma_normalising_twice(s: Seq<char>)
    requires
        occurrences(s) is Ok,
        forall|k: nat|
            #[trigger] present(occurrences(s)->Ok_0, k) ==> total(occurrences(s)->Ok_0, k) < 100,
    ensures
        empirical_formula(s) is Ok,
        empirical_formula(empirical_formula(s)->Ok_0) == empirical_formula(s),
{
    let atoms = occurrences(s)->Ok_0;
    lemma_occurrences_are_elements(s);
    assert forall|k: nat| #[trigger] present(atoms, k) implies is_element_key(k) && total(atoms, k)
        < 100 by {
        let j = choose|j: int| 0 <= j < atoms.len() && atoms[j].key == k;
        assert(is_element_key(atoms[j].key as nat));
    }
    lemma_canonical_formula_is_fixed_point(atoms);
}

} // verus!
