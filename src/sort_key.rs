//! The ordering key of a chapter, read from the first run of digits and
//! decimal points in its label.
//!
//! A key is the label's number in fixed point: its value times
//! `SORT_KEY_SCALE`, with fraction digits beyond that precision dropped.
//! Whole parts of `WHOLE_LIMIT` or more cannot be held and make the label
//! malformed.

use crate::pattern::{chars_of, first_match, is_infix, regex_first_match};
use vstd::prelude::*;

verus! {

/// Units of a key per unit of the label's number.
pub const SORT_KEY_SCALE: u128 = 1_000_000_000_000_000_000;

/// Number of fraction digits that a key keeps.
pub const FRACTION_DIGITS: usize = 18;

/// Bound on the whole part of a label's number.
pub const WHOLE_LIMIT: u128 = 100_000_000_000_000_000_000;

/// The pattern that finds a label's number: a run of digits and points.
pub open spec fn number_pattern() -> Seq<char> {
    seq!['[', '\\', 'd', '.', ']', '+']
}

fn number_pattern_str() -> (r: &'static str)
    ensures
        r@ == number_pattern(),
{
    let p = "[\\d.]+";
    proof {
        reveal_strlit("[\\d.]+");
        assert(p@ =~= number_pattern());
    }
    p
}

pub open spec fn is_ascii_digit(c: char) -> bool {
    '0' <= c && c <= '9'
}

pub open spec fn digit_of(c: char) -> nat {
    (c as int - '0' as int) as nat
}

pub open spec fn all_digits(s: Seq<char>) -> bool {
    forall|i: int| 0 <= i < s.len() ==> is_ascii_digit(#[trigger] s[i])
}

/// The number that a string of decimal digits denotes.
pub open spec fn digits_value(s: Seq<char>) -> nat
    decreases s.len(),
{
    if s.len() == 0 {
        0
    } else {
        digits_value(s.drop_last()) * 10 + digit_of(s.last())
    }
}

/// The index of the first decimal point in `s`, if any.
pub open spec fn first_point(s: Seq<char>) -> Option<int>
    decreases s.len(),
{
    if s.len() == 0 {
        None
    } else {
        match first_point(s.drop_last()) {
            Some(i) => Some(i),
            None => if s.last() == '.' {
                Some(s.len() - 1)
            } else {
                None
            },
        }
    }
}

/// What stands before the decimal point (all of `s` when there is none).
pub open spec fn whole_part(s: Seq<char>) -> Seq<char> {
    match first_point(s) {
        Some(i) => s.take(i),
        None => s,
    }
}

/// What stands after the decimal point (nothing when there is none).
pub open spec fn fraction_part(s: Seq<char>) -> Seq<char> {
    match first_point(s) {
        Some(i) => s.skip(i + 1),
        None => Seq::empty(),
    }
}

/// A run reads as a decimal number: digits, at most one point, and at
/// least one digit.
pub open spec fn is_decimal(s: Seq<char>) -> bool {
    &&& all_digits(whole_part(s))
    &&& all_digits(fraction_part(s))
    &&& whole_part(s).len() + fraction_part(s).len() > 0
}

pub open spec fn digit_at(f: Seq<char>, k: int) -> nat {
    if 0 <= k < f.len() {
        digit_of(f[k])
    } else {
        0
    }
}

/// The first `n` fraction digits as an integer, zeros filling in where `f`
/// is shorter.
pub open spec fn fraction_units(f: Seq<char>, n: nat) -> nat
    decreases n,
{
    if n == 0 {
        0
    } else {
        fraction_units(f, (n - 1) as nat) * 10 + digit_at(f, n - 1)
    }
}

/// The key of a run of digits and points, or none when it is no decimal
/// number or its whole part is too large.
pub open spec fn run_sort_key(s: Seq<char>) -> Option<u128> {
    if is_decimal(s) && digits_value(whole_part(s)) < WHOLE_LIMIT {
        Some(
            (digits_value(whole_part(s)) * SORT_KEY_SCALE + fraction_units(
                fraction_part(s),
                FRACTION_DIGITS as nat,
            )) as u128,
        )
    } else {
        None
    }
}

/// The key of a chapter label: that of the first run of digits and points in
/// it, none when there is no such run or it does not read as a number.
pub open spec fn label_sort_key(label: Seq<char>) -> Option<u128> {
    match regex_first_match(number_pattern(), label) {
        Some(run) => run_sort_key(run),
        None => None,
    }
}

/// `s` holds no ASCII digit.
pub open spec fn has_no_digit(s: Seq<char>) -> bool {
    forall|i: int| 0 <= i < s.len() ==> !is_ascii_digit(#[trigger] s[i])
}

proof fn lemma_digits_value_prefix(s: Seq<char>, i: int)
    requires
        0 <= i <= s.len(),
    ensures
        digits_value(s.take(i)) <= digits_value(s),
    decreases s.len() - i,
{
    if i < s.len() {
        lemma_digits_value_prefix(s, i + 1);
        assert(s.take(i + 1).drop_last() =~= s.take(i));
    } else {
        assert(s.take(i) =~= s);
    }
}

proof fn lemma_fraction_units_bound(f: Seq<char>, n: nat)
    requires
        all_digits(f),
    ensures
        fraction_units(f, n) < pow10(n),
    decreases n,
{
    if n > 0 {
        lemma_fraction_units_bound(f, (n - 1) as nat);
        let k = n - 1;
        assert(digit_at(f, k) <= 9) by {
            if 0 <= k < f.len() {
                assert(is_ascii_digit(f[k]));
            }
        }
        assert(fraction_units(f, n) < pow10(n)) by (nonlinear_arith)
            requires
                fraction_units(f, n) == fraction_units(f, (n - 1) as nat) * 10 + digit_at(f, k),
                fraction_units(f, (n - 1) as nat) < pow10((n - 1) as nat),
                pow10(n) == pow10((n - 1) as nat) * 10,
                digit_at(f, k) <= 9,
        ;
    }
}

pub open spec fn pow10(n: nat) -> nat
    decreases n,
{
    if n == 0 {
        1
    } else {
        pow10((n - 1) as nat) * 10
    }
}

proof fn lemma_first_point_prefix(s: Seq<char>, i: int)
    requires
        0 <= i <= s.len(),
        forall|j: int| 0 <= j < i ==> s[j] != '.',
    ensures
        first_point(s.take(i)) is None,
    decreases i,
{
    if i > 0 {
        lemma_first_point_prefix(s, i - 1);
        assert(s.take(i).drop_last() =~= s.take(i - 1));
    }
}

proof fn lemma_first_point_found(s: Seq<char>, i: int)
    requires
        0 <= i <= s.len(),
        forall|j: int| 0 <= j < i ==> s[j] != '.',
        i < s.len() ==> s[i] == '.',
    ensures
        first_point(s) == (if i < s.len() { Some(i) } else { None::<int> }),
    decreases s.len() - i,
{
    lemma_first_point_prefix(s, i);
    if i < s.len() {
        assert(s.take(i + 1).drop_last() =~= s.take(i));
        lemma_first_point_extend(s, i + 1);
    } else {
        assert(s.take(i) =~= s);
    }
}

proof fn lemma_first_point_extend(s: Seq<char>, i: int)
    requires
        0 < i <= s.len(),
        first_point(s.take(i)) is Some,
    ensures
        first_point(s) == first_point(s.take(i)),
    decreases s.len() - i,
{
    if i < s.len() {
        assert(s.take(i + 1).drop_last() =~= s.take(i));
        lemma_first_point_extend(s, i + 1);
    } else {
        assert(s.take(i) =~= s);
    }
}

/// The key of a run of digits and points (see `run_sort_key`).
pub fn parse_sort_key(run: &str) -> (r: Option<u128>)
    ensures
        r == run_sort_key(run@),
{
    let cs = chars_of(run);
    let n = cs.len();
    // where the decimal point stands, or n
    let mut p: usize = 0;
    while p < n && cs[p] != '.'
        invariant
            p <= n == cs@.len(),
            forall|j: int| 0 <= j < p ==> cs@[j] != '.',
        decreases n - p,
    {
        p = p + 1;
    }
    proof {
        lemma_first_point_found(cs@, p as int);
    }
    let ghost whole = whole_part(cs@);
    let ghost frac = fraction_part(cs@);
    let frac_start: usize = if p < n { p + 1 } else { n };
    assert(whole =~= cs@.subrange(0, p as int));
    assert(frac =~= cs@.subrange(frac_start as int, n as int));
    if p == 0 && frac_start == n {
        assert(whole.len() + frac.len() == 0);
        assert(!is_decimal(cs@));
        assert(cs@ == run@);
        return None;
    }
    let mut k: usize = frac_start;
    while k < n
        invariant
            frac_start <= k <= n == cs@.len(),
            frac =~= cs@.subrange(frac_start as int, n as int),
            cs@ == run@,
            whole == whole_part(run@),
            frac == fraction_part(run@),
            forall|j: int| frac_start <= j < k ==> is_ascii_digit(#[trigger] cs@[j]),
        decreases n - k,
    {
        if !('0' <= cs[k] && cs[k] <= '9') {
            assert(!is_ascii_digit(frac[k - frac_start]));
            assert(!all_digits(frac));
            assert(!is_decimal(run@));
            return None;
        }
        k = k + 1;
    }
    assert(all_digits(frac));
    let mut whole_value: u128 = 0;
    let mut i: usize = 0;
    while i < p
        invariant
            p <= n == cs@.len(),
            whole =~= cs@.subrange(0, p as int),
            all_digits(frac),
            frac =~= cs@.subrange(frac_start as int, n as int),
            cs@ == run@,
            whole == whole_part(run@),
            frac == fraction_part(run@),
            whole.len() + frac.len() > 0,
            i <= p,
            all_digits(whole.take(i as int)),
            whole_value == digits_value(whole.take(i as int)),
            whole_value < WHOLE_LIMIT,
        decreases p - i,
    {
        let c = cs[i];
        if !('0' <= c && c <= '9') {
            assert(!is_ascii_digit(whole[i as int]));
            assert(!all_digits(whole));
            assert(!is_decimal(run@));
            return None;
        }
        assert(whole.take(i + 1).drop_last() =~= whole.take(i as int));
        let next = whole_value * 10 + (c as u128 - '0' as u128);
        assert(next == digits_value(whole.take(i + 1)));
        assert(all_digits(whole.take(i + 1)));
        i = i + 1;
        if next >= WHOLE_LIMIT {
            proof {
                lemma_digits_value_prefix(whole, i as int);
                assert(digits_value(whole_part(run@)) >= WHOLE_LIMIT);
            }
            return None;
        }
        whole_value = next;
    }
    assert(whole.take(p as int) =~= whole);
    let mut units: u128 = 0;
    let mut d: usize = 0;
    while d < FRACTION_DIGITS
        invariant
            p <= n == cs@.len(),
            frac_start <= n,
            frac =~= cs@.subrange(frac_start as int, n as int),
            cs@ == run@,
            whole == whole_part(run@),
            frac == fraction_part(run@),
            all_digits(frac),
            d <= FRACTION_DIGITS,
            units == fraction_units(frac, d as nat),
        decreases FRACTION_DIGITS - d,
    {
        proof {
            lemma_fraction_units_bound(frac, d as nat);
            assert(pow10(d as nat) <= pow10(17)) by {
                lemma_pow10_mono(d as nat, 17);
            }
            reveal_with_fuel(pow10, 18);
            assert(pow10(17) == 100_000_000_000_000_000);
        }
        let digit: u128 = if d < n - frac_start {
            assert(is_ascii_digit(frac[d as int]));
            cs[frac_start + d] as u128 - '0' as u128
        } else {
            0
        };
        units = units * 10 + digit;
        d = d + 1;
    }
    proof {
        lemma_fraction_units_bound(frac, FRACTION_DIGITS as nat);
        reveal_with_fuel(pow10, 19);
        assert(pow10(18) == SORT_KEY_SCALE);
        assert(whole_value * SORT_KEY_SCALE + units < 100_000_000_000_000_000_000 * SORT_KEY_SCALE)
            by (nonlinear_arith)
            requires
                whole_value < WHOLE_LIMIT,
                units < SORT_KEY_SCALE,
        ;
    }
    Some(whole_value * SORT_KEY_SCALE + units)
}

proof fn lemma_pow10_mono(a: nat, b: nat)
    requires
        a <= b,
    ensures
        pow10(a) <= pow10(b),
    decreases b - a,
{
    if a < b {
        lemma_pow10_mono(a, (b - 1) as nat);
    }
}

/// The key of a chapter label (see `label_sort_key`). A label without an
/// ASCII digit has none.
pub fn sort_key_of_label(label: &str) -> (r: Option<u128>)
    ensures
        r == label_sort_key(label@),
        has_no_digit(label@) ==> r is None,
{
    let pattern = number_pattern_str();
    match first_match(pattern, label) {
        Some(run) => {
            let r = parse_sort_key(run.as_str());
            proof {
                if has_no_digit(label@) && r is Some {
                    let k = choose|k: int|
                        0 <= k && k + run@.len() <= label@.len() && #[trigger] label@.subrange(
                            k,
                            k + run@.len(),
                        ) == run@;
                    let s = run@;
                    if whole_part(s).len() > 0 {
                        let w = whole_part(s);
                        assert(is_ascii_digit(w[0]));
                        assert(s[0] == w[0]) by {
                            match first_point(s) {
                                Some(i) => {
                                    lemma_first_point_in_range(s);
                                },
                                None => {},
                            }
                        }
                        assert(label@[k] == s[0]);
                    } else {
                        let f = fraction_part(s);
                        lemma_first_point_in_range(s);
                        let i = first_point(s)->0;
                        assert(is_ascii_digit(f[0]));
                        assert(s[i + 1] == f[0]);
                        assert(label@[k + i + 1] == s[i + 1]);
                    }
                }
            }
            r
        },
        None => None,
    }
}

proof fn lemma_first_point_in_range(s: Seq<char>)
    ensures
        first_point(s) matches Some(i) ==> 0 <= i < s.len() && s[i] == '.',
    decreases s.len(),
{
    if s.len() > 0 {
        lemma_first_point_in_range(s.drop_last());
    }
}

} // verus!
