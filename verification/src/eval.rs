//! The line evaluator: a single left-to-right scan over one line of
//! characters that either produces a signed 32-bit integer or reports that
//! the line cannot be calculated.
//!
//! The scan keeps a running total, a current number accumulator and the sign
//! under which the accumulator will be folded into the total, together with
//! three flags recording whether the previous significant character was a
//! digit, whether whitespace has been seen since, and whether a sign operator
//! is still pending.  Arithmetic wraps around on 32-bit overflow.
use vstd::prelude::*;
use vstd::wrapping::i32_specs;

use crate::chars::{digit_val, digit_value, is_ascii_digit, is_digit_char};

verus! {

/// The result of evaluating one line: its integer value, or a marker that
/// the line is not a valid addition/subtraction expression.
#[derive(Clone, Copy, PartialEq, Eq, Structural, Debug)]
pub enum Outcome {
    Value(i32),
    Invalid,
}

/// The state of the evaluator's scan.
pub ghost struct ScanState {
    /// The running total.
    pub acc: i32,
    /// The current number accumulator.
    pub num: i32,
    /// True when the current sign is `-`.
    pub neg: bool,
    /// The previous significant character was a digit.
    pub after_digit: bool,
    /// Whitespace has been seen since the last digit or sign.
    pub after_space: bool,
    /// A sign operator is pending (no digit has followed it yet).
    pub after_sign: bool,
    /// The line has been found invalid.
    pub bad: bool,
    /// The scan stopped early (a digit split by spaces, or two signs in a row).
    pub halted: bool,
}

/// The state before any character has been scanned.
pub open spec fn init_state() -> ScanState {
    ScanState {
        acc: 0,
        num: 0,
        neg: false,
        after_digit: false,
        after_space: false,
        after_sign: false,
        bad: false,
        halted: false,
    }
}

/// Folds the current accumulator into the running total under the current
/// sign, with 32-bit wraparound.
pub open spec fn fold_sign(st: ScanState) -> i32 {
    if st.neg {
        i32_specs::wrapping_sub(st.acc, st.num)
    } else {
        i32_specs::wrapping_add(st.acc, st.num)
    }
}

/// One step of the scan: the state after reading character `c`.
///
/// A space only records that whitespace was seen.  A digit is invalid when it
/// would start a second digit group separated only by whitespace (the scan
/// halts); otherwise it is accumulated in base 10.  A sign is invalid when a
/// sign is already pending (the scan halts); otherwise the accumulator is
/// folded under the previous sign and the new sign becomes current.  Any
/// other character marks the line invalid but the scan continues.
pub open spec fn scan_step(st: ScanState, c: char) -> ScanState {
    if st.halted {
        st
    } else if c == ' ' {
        ScanState { after_space: true, ..st }
    } else if is_digit_char(c) {
        if st.after_digit && st.after_space {
            ScanState { bad: true, halted: true, ..st }
        } else {
            ScanState {
                num: i32_specs::wrapping_add(
                    i32_specs::wrapping_mul(10, st.num),
                    digit_val(c) as i32,
                ),
                after_digit: true,
                after_space: false,
                after_sign: false,
                ..st
            }
        }
    } else if c == '+' || c == '-' {
        if st.after_sign {
            ScanState { bad: true, halted: true, ..st }
        } else {
            ScanState {
                acc: fold_sign(st),
                num: 0,
                neg: c == '-',
                after_digit: false,
                after_space: false,
                after_sign: true,
                ..st
            }
        }
    } else {
        ScanState { bad: true, ..st }
    }
}

/// The state after scanning all of `s`, starting from `st`.
pub open spec fn scan_from(st: ScanState, s: Seq<char>) -> ScanState
    decreases s.len(),
{
    if s.len() == 0 {
        st
    } else {
        scan_step(scan_from(st, s.drop_last()), s.last())
    }
}

/// The state after scanning all of `s` from the initial state.
pub open spec fn scan(s: Seq<char>) -> ScanState {
    scan_from(init_state(), s)
}

/// The outcome read off a final scan state: invalid if the line was marked
/// bad or ended on a pending sign, else the total with the last accumulator
/// folded in.
pub open spec fn outcome_of(st: ScanState) -> Outcome {
    if st.bad || st.after_sign {
        Outcome::Invalid
    } else {
        Outcome::Value(fold_sign(st))
    }
}

/// What evaluating a line yields.
pub open spec fn eval_line(s: Seq<char>) -> Outcome {
    outcome_of(scan(s))
}

/// Scanning distributes over concatenation.
proof fn lemma_scan_from_app(st: ScanState, a: Seq<char>, b: Seq<char>)
    ensures
        scan_from(st, a + b) == scan_from(scan_from(st, a), b),
    decreases b.len(),
{
    if b.len() == 0 {
        assert(a + b =~= a);
    } else {
        assert((a + b).drop_last() =~= a + b.drop_last());
        assert((a + b).last() == b.last());
        lemma_scan_from_app(st, a, b.drop_last());
    }
}

/// Once the scan has halted, the rest of the line changes nothing.
proof fn lemma_scan_halted(s: Seq<char>, i: int)
    requires
        0 <= i <= s.len(),
        scan(s.take(i)).halted,
    ensures
        scan(s) == scan(s.take(i)),
    decreases s.len() - i,
{
    if i < s.len() {
        assert(s.take(i + 1).drop_last() =~= s.take(i));
        assert(s.take(i + 1).last() == s[i]);
        lemma_scan_halted(s, i + 1);
    } else {
        assert(s.take(i) =~= s);
    }
}

/// The scan state over unbounded integers: the running total, the current
/// accumulator and the current sign, with exact arithmetic.
pub ghost struct SumState {
    pub acc: int,
    pub num: int,
    pub neg: bool,
}

/// Folds the accumulator into the total under the current sign, exactly.
pub open spec fn sum_fold(st: SumState) -> int {
    if st.neg {
        st.acc - st.num
    } else {
        st.acc + st.num
    }
}

/// One step of the exact scan.  Characters other than spaces, digits and
/// signs leave the state unchanged; they cannot occur in a well-formed line.
pub open spec fn sum_step(st: SumState, c: char) -> SumState {
    if c == ' ' {
        st
    } else if is_digit_char(c) {
        SumState { num: 10 * st.num + digit_val(c), ..st }
    } else if c == '+' || c == '-' {
        SumState { acc: sum_fold(st), num: 0, neg: c == '-' }
    } else {
        st
    }
}

/// The exact scan state after reading all of `s`.
pub open spec fn sum_scan(s: Seq<char>) -> SumState
    decreases s.len(),
{
    if s.len() == 0 {
        SumState { acc: 0, num: 0, neg: false }
    } else {
        sum_step(sum_scan(s.drop_last()), s.last())
    }
}

/// The exact signed sum of a line: each digit group taken as a base-10
/// number and added or subtracted under the sign written before it.
pub open spec fn line_value(s: Seq<char>) -> int {
    sum_fold(sum_scan(s))
}

/// The lines the evaluator accepts: only digits, spaces and `+`/`-`, with
/// no digit group split by whitespace, no two signs in a row, and not
/// ending on a sign.
pub open spec fn well_formed(s: Seq<char>) -> bool {
    !scan(s).bad && !scan(s).after_sign
}

pub open spec fn in_i32(x: int) -> bool {
    i32::MIN <= x <= i32::MAX
}

/// Every intermediate total, accumulator and fold of the exact scan of `s`
/// stays within the 32-bit signed range, so no wraparound occurs.
pub open spec fn fits(s: Seq<char>) -> bool {
    forall|i: int|
        0 <= i <= s.len() ==> {
            let st = sum_scan(#[trigger] s.take(i));
            in_i32(st.acc) && in_i32(st.num) && in_i32(sum_fold(st))
        }
}

/// Once a line has been marked bad it stays bad, and a halted scan is bad.
proof fn lemma_bad_monotone(st: ScanState, s: Seq<char>)
    ensures
        scan_from(st, s).bad || !st.bad,
        scan_from(st, s).halted ==> scan_from(st, s).bad || st.halted,
    decreases s.len(),
{
    if s.len() > 0 {
        lemma_bad_monotone(st, s.drop_last());
    }
}

/// The exact accumulator is never negative.
proof fn lemma_sum_num_nonneg(s: Seq<char>)
    ensures
        sum_scan(s).num >= 0,
    decreases s.len(),
{
    if s.len() > 0 {
        lemma_sum_num_nonneg(s.drop_last());
    }
}

/// On a line the scan never marks bad, the wrapping scan agrees with the
/// exact scan as long as every intermediate value fits in 32 bits.
proof fn lemma_scan_agrees(s: Seq<char>)
    requires
        !scan(s).bad,
        fits(s),
    ensures
        scan(s).acc == sum_scan(s).acc,
        scan(s).num == sum_scan(s).num,
        scan(s).neg == sum_scan(s).neg,
        !scan(s).halted,
    decreases s.len(),
{
    if s.len() > 0 {
        let p = s.drop_last();
        let c = s.last();
        assert(scan(s) == scan_step(scan(p), c));
        // a bad prefix would leave the whole line bad
        assert(!scan(p).bad) by {
            if scan(p).bad {
                assert(scan_step(scan(p), c).bad);
            }
        }
        assert(fits(p)) by {
            assert(forall|i: int| 0 <= i <= p.len() ==> p.take(i) =~= s.take(i));
        }
        lemma_scan_agrees(p);
        lemma_sum_num_nonneg(p);
        let stp = scan(p);
        let sup = sum_scan(p);
        assert(p =~= s.take(s.len() - 1));
        assert(s.take(s.len() as int) =~= s);
        if c == ' ' {
        } else if is_digit_char(c) {
            assert(!(stp.after_digit && stp.after_space)) by {
                if stp.after_digit && stp.after_space {
                    lemma_bad_monotone(scan_step(stp, c), Seq::<char>::empty());
                    assert(scan_step(stp, c).bad);
                }
            }
            assert(in_i32(sum_scan(s).num));
            assert(sum_scan(s).num == 10 * sup.num + digit_val(c));
            assert(0 <= digit_val(c) <= 9);
            assert(in_i32(10 * sup.num)) by {
                assert(0 <= 10 * sup.num <= 10 * sup.num + digit_val(c));
            }
            assert(i32_specs::wrapping_mul(10, stp.num) == 10 * sup.num);
            assert(i32_specs::wrapping_add((10 * sup.num) as i32, digit_val(c) as i32)
                == 10 * sup.num + digit_val(c));
        } else if c == '+' || c == '-' {
            assert(!stp.after_sign) by {
                if stp.after_sign {
                    assert(scan_step(stp, c).bad);
                }
            }
            assert(in_i32(sum_fold(sup)));
            assert(fold_sign(stp) == sum_fold(sup));
        } else {
            assert(scan_step(stp, c).bad);
        }
    }
}

/// For every line made only of digits, spaces and properly alternating
/// `+`/`-` signs — no digit group split by whitespace, no two signs in a
/// row, not ending on a sign — whose intermediate values all fit in the
/// 32-bit signed range, evaluation returns exactly the signed sum of the
/// digit groups.
pub proof fn lemma_signed_sum(s: Seq<char>)
    requires
        well_formed(s),
        fits(s),
    ensures
        in_i32(line_value(s)),
        eval_line(s) == Outcome::Value(line_value(s) as i32),
{
    lemma_scan_agrees(s);
    assert(s.take(s.len() as int) =~= s);
    assert(in_i32(sum_fold(sum_scan(s))));
    assert(fold_sign(scan(s)) == sum_fold(sum_scan(s)));
}

/// A halted scan has always found the line invalid.
proof fn lemma_halted_implies_bad(s: Seq<char>)
    ensures
        scan(s).halted ==> scan(s).bad,
    decreases s.len(),
{
    if s.len() > 0 {
        lemma_halted_implies_bad(s.drop_last());
    }
}

/// Once some prefix has found the line invalid, the whole line is invalid.
proof fn lemma_bad_stays(s: Seq<char>, i: int)
    requires
        0 <= i <= s.len(),
        scan(s.take(i)).bad,
    ensures
        scan(s).bad,
    decreases s.len() - i,
{
    if i < s.len() {
        assert(s.take(i + 1).drop_last() =~= s.take(i));
        assert(s.take(i + 1).last() == s[i]);
        lemma_bad_stays(s, i + 1);
    } else {
        assert(s.take(i) =~= s);
    }
}

/// Scanning a run of spaces only records that whitespace was seen.
proof fn lemma_scan_spaces(s: Seq<char>, a: int, b: int)
    requires
        0 <= a <= b <= s.len(),
        forall|k: int| a <= k < b ==> s[k] == ' ',
        !scan(s.take(a)).halted,
    ensures
        scan(s.take(b)) == if b > a {
            ScanState { after_space: true, ..scan(s.take(a)) }
        } else {
            scan(s.take(a))
        },
    decreases b - a,
{
    if b > a {
        lemma_scan_spaces(s, a, b - 1);
        assert(s.take(b).drop_last() =~= s.take(b - 1));
        assert(s.take(b).last() == s[b - 1]);
    }
}

/// A line whose last character is `+` or `-` is invalid.
pub proof fn lemma_trailing_operator_invalid(s: Seq<char>)
    requires
        s.len() > 0,
        s.last() == '+' || s.last() == '-',
    ensures
        eval_line(s) == Outcome::Invalid,
{
    let st = scan(s.drop_last());
    assert(scan(s) == scan_step(st, s.last()));
    lemma_halted_implies_bad(s.drop_last());
}

/// A line holding two `+`/`-` operators separated only by spaces is
/// invalid.
pub proof fn lemma_double_operator_invalid(s: Seq<char>, i: int, j: int)
    requires
        0 <= i < j < s.len(),
        s[i] == '+' || s[i] == '-',
        s[j] == '+' || s[j] == '-',
        forall|k: int| i < k < j ==> s[k] == ' ',
    ensures
        eval_line(s) == Outcome::Invalid,
{
    let st = scan(s.take(i));
    assert(s.take(i + 1).drop_last() =~= s.take(i));
    assert(s.take(i + 1).last() == s[i]);
    let st1 = scan(s.take(i + 1));
    assert(st1 == scan_step(st, s[i]));
    lemma_halted_implies_bad(s.take(i));
    if st1.bad {
        lemma_bad_stays(s, i + 1);
    } else {
        // the first operator left a sign pending, and spaces keep it so
        assert(st1.after_sign && !st1.halted);
        lemma_scan_spaces(s, i + 1, j);
        let st2 = scan(s.take(j));
        assert(st2.after_sign && !st2.halted);
        assert(s.take(j + 1).drop_last() =~= s.take(j));
        assert(s.take(j + 1).last() == s[j]);
        assert(scan(s.take(j + 1)).bad);
        lemma_bad_stays(s, j + 1);
    }
}

/// A line holding two digits separated only by spaces — two digit groups
/// split by whitespace — is invalid.
pub proof fn lemma_split_digit_groups_invalid(s: Seq<char>, i: int, j: int)
    requires
        0 <= i,
        i + 1 < j < s.len(),
        is_digit_char(s[i]),
        is_digit_char(s[j]),
        forall|k: int| i < k < j ==> s[k] == ' ',
    ensures
        eval_line(s) == Outcome::Invalid,
{
    let st = scan(s.take(i));
    assert(s.take(i + 1).drop_last() =~= s.take(i));
    assert(s.take(i + 1).last() == s[i]);
    let st1 = scan(s.take(i + 1));
    assert(st1 == scan_step(st, s[i]));
    lemma_halted_implies_bad(s.take(i));
    assert(s[i] != ' ' && s[i] != '+' && s[i] != '-');
    if st1.bad {
        lemma_bad_stays(s, i + 1);
    } else {
        // the digit left the digit flag set, and the spaces set the
        // whitespace flag without clearing it
        assert(st1.after_digit && !st1.after_space && !st1.halted);
        lemma_scan_spaces(s, i + 1, j);
        let st2 = scan(s.take(j));
        assert(st2.after_digit && st2.after_space && !st2.halted);
        assert(s.take(j + 1).drop_last() =~= s.take(j));
        assert(s.take(j + 1).last() == s[j]);
        assert(s[j] != ' ');
        assert(scan(s.take(j + 1)).bad);
        lemma_bad_stays(s, j + 1);
    }
}

/// The character for one decimal digit value.
pub open spec fn digit_char(d: int) -> char {
    if d == 0 {
        '0'
    } else if d == 1 {
        '1'
    } else if d == 2 {
        '2'
    } else if d == 3 {
        '3'
    } else if d == 4 {
        '4'
    } else if d == 5 {
        '5'
    } else if d == 6 {
        '6'
    } else if d == 7 {
        '7'
    } else if d == 8 {
        '8'
    } else {
        '9'
    }
}

/// The decimal digits of a non-negative number, most significant first.
pub open spec fn dec_digits(n: nat) -> Seq<char>
    decreases n,
{
    if n < 10 {
        seq![digit_char(n as int)]
    } else {
        dec_digits(n / 10).push(digit_char((n % 10) as int))
    }
}

/// The textual rendering of a 32-bit integer: a minus sign for a negative
/// value, then its decimal digits.
pub open spec fn i32_chars(v: i32) -> Seq<char> {
    if v < 0 {
        seq!['-'] + dec_digits((-(v as int)) as nat)
    } else {
        dec_digits(v as nat)
    }
}

/// A number up to `0x8000_0000` reduced into the 32-bit signed range.
pub open spec fn crop31(n: nat) -> i32 {
    if n < 0x8000_0000 {
        n as i32
    } else {
        (n - 0x1_0000_0000) as i32
    }
}

proof fn lemma_digit_char_props(d: int)
    requires
        0 <= d <= 9,
    ensures
        is_digit_char(digit_char(d)),
        digit_val(digit_char(d)) == d,
        digit_char(d) != ' ',
        digit_char(d) != '+',
        digit_char(d) != '-',
{
}

/// Scanning the decimal digits of `n` from a live state with an empty
/// accumulator leaves `n` (reduced into 32 bits) in the accumulator and
/// touches nothing else.  Only the final digit of `0x8000_0000` can wrap.
proof fn lemma_scan_digits(st: ScanState, n: nat)
    requires
        !st.halted,
        !st.bad,
        !(st.after_digit && st.after_space),
        st.num == 0,
        n <= 0x8000_0000,
    ensures
        scan_from(st, dec_digits(n)) == (ScanState {
            num: crop31(n),
            after_digit: true,
            after_space: false,
            after_sign: false,
            ..st
        }),
    decreases n,
{
    if n < 10 {
        lemma_digit_char_props(n as int);
        assert(dec_digits(n).drop_last() =~= Seq::<char>::empty());
        assert(dec_digits(n).last() == digit_char(n as int));
        assert(scan_from(st, Seq::<char>::empty()) == st);
        assert(scan_from(st, dec_digits(n)) == scan_step(st, digit_char(n as int)));
    } else {
        let p = dec_digits(n / 10);
        let d = digit_char((n % 10) as int);
        lemma_digit_char_props((n % 10) as int);
        assert(dec_digits(n).drop_last() =~= p);
        assert(dec_digits(n).last() == d);
        lemma_scan_digits(st, n / 10);
        let st1 = scan_from(st, p);
        assert(st1.num == crop31(n / 10));
        assert(n / 10 < 0x8000_0000);
        assert(st1.num == n / 10);
        assert(scan_from(st, dec_digits(n)) == scan_step(st1, d));
        // the accumulation cannot wrap before the final digit of 0x8000_0000
        assert(10 * (n / 10) + n % 10 == n);
        assert(0 <= 10 * (n / 10) <= 0x7fff_ffff);
        assert(i32_specs::wrapping_mul(10, st1.num) == 10 * (n / 10)) by {
            assert(10 * ((n / 10) as i32) == 10 * (n / 10));
            vstd::arithmetic::div_mod::lemma_small_mod((10 * (n / 10)) as nat, 0x1_0000_0000);
        }
        assert(i32_specs::wrapping_add((10 * (n / 10)) as i32, digit_val(d) as i32)
            == crop31(n));
    }
}

/// Writing a 32-bit integer out in decimal and evaluating that line gives
/// the same integer back.
pub proof fn lemma_round_trip(v: i32)
    ensures
        eval_line(i32_chars(v)) == Outcome::Value(v),
{
    if v >= 0 {
        lemma_scan_digits(init_state(), v as nat);
        assert(scan(i32_chars(v)) == (ScanState {
            num: v,
            after_digit: true,
            after_space: false,
            after_sign: false,
            ..init_state()
        }));
        assert(i32_specs::wrapping_add(0, v) == v);
    } else {
        let n = (-(v as int)) as nat;
        let st1 = scan_from(init_state(), seq!['-']);
        assert(seq!['-'].drop_last() =~= Seq::<char>::empty());
        assert(seq!['-'].last() == '-');
        assert(scan_from(init_state(), Seq::<char>::empty()) == init_state());
        assert(st1 == scan_step(init_state(), '-'));
        assert(st1 == (ScanState {
            acc: 0,
            num: 0,
            neg: true,
            after_digit: false,
            after_space: false,
            after_sign: true,
            bad: false,
            halted: false,
        }));
        lemma_scan_from_app(init_state(), seq!['-'], dec_digits(n));
        lemma_scan_digits(st1, n);
        let st2 = scan(i32_chars(v));
        assert(st2.num == crop31(n));
        assert(st2.neg && !st2.bad && !st2.after_sign);
        if n < 0x8000_0000 {
            assert(i32_specs::wrapping_sub(0, st2.num) == v);
        } else {
            assert(n == 0x8000_0000);
            assert(st2.num == i32::MIN);
            assert(i32_specs::wrapping_sub(0, st2.num) == v);
        }
    }
}

/// Evaluates one line as an integer addition/subtraction expression.
pub fn evaluate(line: &Vec<char>) -> (r: Outcome)
    ensures
        r == eval_line(line@),
{
    let ghost s = line@;
    let mut acc: i32 = 0;
    let mut num: i32 = 0;
    let mut neg: bool = false;
    let mut after_digit: bool = false;
    let mut after_space: bool = false;
    let mut after_sign: bool = false;
    let mut bad: bool = false;
    let mut stop: bool = false;
    let mut i: usize = 0;
    while i < line.len() && !stop
        invariant
            s == line@,
            0 <= i <= s.len(),
            ({
                let st = scan(s.take(i as int));
                &&& acc == st.acc
                &&& num == st.num
                &&& neg == st.neg
                &&& after_digit == st.after_digit
                &&& after_space == st.after_space
                &&& after_sign == st.after_sign
                &&& bad == st.bad
                &&& (stop ==> st.halted && scan(s) == st)
                &&& (!stop ==> !st.halted)
            }),
        decreases s.len() - i,
    {
        let c = line[i];
        proof {
            assert(s.take(i + 1).drop_last() =~= s.take(i as int));
            assert(s.take(i + 1).last() == s[i as int]);
        }
        if c == ' ' {
            after_space = true;
        } else if is_ascii_digit(c) {
            if after_digit && after_space {
                bad = true;
                stop = true;
                proof {
                    lemma_scan_halted(s, i + 1);
                }
            } else {
                let d = digit_value(c);
                num = (10i32).wrapping_mul(num).wrapping_add(d as i32);
                after_digit = true;
                after_space = false;
                after_sign = false;
            }
        } else if c == '+' || c == '-' {
            if after_sign {
                bad = true;
                stop = true;
                proof {
                    lemma_scan_halted(s, i + 1);
                }
            } else {
                if neg {
                    acc = acc.wrapping_sub(num);
                } else {
                    acc = acc.wrapping_add(num);
                }
                num = 0;
                neg = c == '-';
                after_digit = false;
                after_space = false;
                after_sign = true;
            }
        } else {
            bad = true;
        }
        i = i + 1;
    }
    proof {
        if !stop {
            assert(s.take(i as int) =~= s);
        }
    }
    if bad || after_sign {
        Outcome::Invalid
    } else if neg {
        Outcome::Value(acc.wrapping_sub(num))
    } else {
        Outcome::Value(acc.wrapping_add(num))
    }
}

} // verus!


verus! {

/// The text inserted for a line that cannot be calculated.
pub open spec fn invalid_text() -> Seq<char> {
    seq!['I', ' ', 'c', 'a', 'n', 't', ' ', 'c', 'a', 'l', 'c', 'u', 'r', 'a', 't', 'e']
}

/// The line inserted below an evaluated line: the integer's decimal
/// rendering, or the fixed failure text.
pub open spec fn outcome_chars(o: Outcome) -> Seq<char> {
    match o {
        Outcome::Value(v) => i32_chars(v),
        Outcome::Invalid => invalid_text(),
    }
}

fn to_digit_char(d: u32) -> (c: char)
    requires
        d <= 9,
    ensures
        c == digit_char(d as int),
{
    match d {
        0 => '0',
        1 => '1',
        2 => '2',
        3 => '3',
        4 => '4',
        5 => '5',
        6 => '6',
        7 => '7',
        8 => '8',
        _ => '9',
    }
}

/// Renders a 32-bit integer in decimal.
pub fn i32_to_chars(v: i32) -> (r: Vec<char>)
    ensures
        r@ == i32_chars(v),
{
    let neg = v < 0;
    let n_start: u32 = if v < 0 {
        (-(v as i64)) as u32
    } else {
        v as u32
    };
    let ghost n0 = n_start as nat;
    proof {
        if v < 0 {
            assert(0 < -(v as int) <= 0x8000_0000);
            assert(n0 == -(v as int));
        }
    }
    let mut n: u32 = n_start;
    let mut low: Vec<char> = Vec::new();
    proof {
        assert(dec_digits(n0) =~= dec_digits(n0) + low@.reverse());
    }
    while n >= 10
        invariant
            n as nat <= n0,
            dec_digits(n0) == dec_digits(n as nat) + low@.reverse(),
        decreases n,
    {
        let d = n % 10;
        let c = to_digit_char(d);
        proof {
            let rest = (n / 10) as nat;
            assert(dec_digits(n as nat) == dec_digits(rest).push(digit_char(d as int)));
            assert(low@.push(c).reverse() =~= seq![c] + low@.reverse());
            assert(dec_digits(rest) + low@.push(c).reverse() =~= dec_digits(rest).push(
                digit_char(d as int),
            ) + low@.reverse());
        }
        low.push(c);
        n = n / 10;
    }
    let mut r: Vec<char> = Vec::new();
    let ghost sign: Seq<char> = if neg {
        seq!['-']
    } else {
        Seq::empty()
    };
    if neg {
        r.push('-');
    }
    let c0 = to_digit_char(n);
    r.push(c0);
    proof {
        assert(dec_digits(n as nat) == seq![digit_char(n as int)]);
        assert(r@ =~= sign + dec_digits(n as nat));
        assert(low@.subrange(low@.len() as int, low@.len() as int).reverse() =~= Seq::<
            char,
        >::empty());
        assert(r@ =~= sign + dec_digits(n as nat) + low@.subrange(
            low@.len() as int,
            low@.len() as int,
        ).reverse());
    }
    let ghost nf = n as nat;
    let mut k: usize = low.len();
    while k > 0
        invariant
            0 <= k <= low@.len(),
            dec_digits(n0) == dec_digits(nf) + low@.reverse(),
            r@ == sign + dec_digits(nf) + low@.subrange(k as int, low@.len() as int).reverse(),
        decreases k,
    {
        let c = low[k - 1];
        proof {
            assert(low@.subrange(k - 1, low@.len() as int).reverse() =~= low@.subrange(
                k as int,
                low@.len() as int,
            ).reverse().push(low@[k - 1]));
            assert(sign + dec_digits(nf) + low@.subrange(k - 1, low@.len() as int).reverse() =~= (
            sign + dec_digits(nf) + low@.subrange(k as int, low@.len() as int).reverse()).push(
                low@[k - 1],
            ));
        }
        r.push(c);
        k = k - 1;
    }
    proof {
        assert(low@.subrange(0, low@.len() as int) =~= low@);
        assert(r@ =~= sign + (dec_digits(nf) + low@.reverse()));
        assert(r@ =~= sign + dec_digits(n0));
        if v < 0 {
            assert(i32_chars(v) == seq!['-'] + dec_digits(n0));
        } else {
            assert(r@ =~= dec_digits(n0));
        }
    }
    r
}

/// The characters of an evaluation outcome.
pub fn outcome_to_chars(o: Outcome) -> (r: Vec<char>)
    ensures
        r@ == outcome_chars(o),
{
    match o {
        Outcome::Value(v) => i32_to_chars(v),
        Outcome::Invalid => {
            let mut r: Vec<char> = Vec::new();
            r.push('I');
            r.push(' ');
            r.push('c');
            r.push('a');
            r.push('n');
            r.push('t');
            r.push(' ');
            r.push('c');
            r.push('a');
            r.push('l');
            r.push('c');
            r.push('u');
            r.push('r');
            r.push('a');
            r.push('t');
            r.push('e');
            proof {
                assert(r@ =~= invalid_text());
            }
            r
        },
    }
}

} // verus!
