//! Sink file names for task output capture.
//!
//! Each task's standard output and standard error are captured in two files
//! named by the task's ordinal, zero-padded to the digit count of the largest
//! ordinal, so that a lexicographic listing of the sink files follows the
//! submission order of the tasks.

use vstd::arithmetic::div_mod::{
    lemma_div_decreases, lemma_div_denominator, lemma_div_is_ordered, lemma_div_pos_is_pos,
    lemma_fundamental_div_mod, lemma_hoist_over_denominator, lemma_mod_division_less_than_divisor,
    lemma_mod_multiples_vanish, lemma_multiply_divide_lt, lemma_small_mod,
};
use vstd::arithmetic::mul::{
    lemma_mul_inequality, lemma_mul_is_associative, lemma_mul_is_commutative,
};
use vstd::arithmetic::power::{
    lemma_pow0, lemma_pow1, lemma_pow_adds, lemma_pow_increases, lemma_pow_positive, pow,
};
use vstd::prelude::*;

verus! {

/// 10 raised to `e`, as a mathematical integer.
pub open spec fn pow10(e: nat) -> int {
    pow(10, e)
}

/// The number of decimal digits of `v`, at least 1.
pub open spec fn digit_count(v: nat) -> nat
    decreases v,
{
    if v < 10 {
        1
    } else {
        (1 + digit_count((v / 10) as nat)) as nat
    }
}

/// The decimal digit of `v` at power-of-ten position `p` (position 0 is the
/// least significant digit).
pub open spec fn digit_of(v: int, p: nat) -> int {
    (v / pow10(p)) % 10
}

/// The character for the decimal digit `d`.
pub open spec fn digit_char(d: int) -> char {
    if d == 0 {
        '0'
    } else if d == 1 {
        '1'
    } else if d == 2 {
        '2'
    } else if d == 3 {
        '3'
    } else if d == 4 {
        '4'
    } else if d == 5 {
        '5'
    } else if d == 6 {
        '6'
    } else if d == 7 {
        '7'
    } else if d == 8 {
        '8'
    } else {
        '9'
    }
}

/// `v` written in decimal, zero-padded on the left to exactly `width`
/// characters. When `v` has more than `width` digits, only its lowest
/// `width` digits appear.
pub open spec fn padded_decimal(v: int, width: nat) -> Seq<char> {
    Seq::new(width, |k: int| digit_char(digit_of(v, (width - 1 - k) as nat)))
}

/// The suffix of a standard-output sink file name.
pub open spec fn stdout_suffix() -> Seq<char> {
    seq!['.', 's', 't', 'd', 'o', 'u', 't']
}

/// The suffix of a standard-error sink file name.
pub open spec fn stderr_suffix() -> Seq<char> {
    seq!['.', 's', 't', 'd', 'e', 'r', 'r']
}

/// The full name of the standard-output sink file of task `ordinal`.
pub open spec fn stdout_name(ordinal: int, width: nat) -> Seq<char> {
    padded_decimal(ordinal, width) + stdout_suffix()
}

/// The full name of the standard-error sink file of task `ordinal`.
pub open spec fn stderr_name(ordinal: int, width: nat) -> Seq<char> {
    padded_decimal(ordinal, width) + stderr_suffix()
}

/// Every value has at least one digit, by definition.
proof fn lemma_digit_count_pos(v: nat)
    ensures
        digit_count(v) >= 1,
{
    if v < 10 {
    } else {
    }
}

/// A positive value has no more digits than its own magnitude.
proof fn lemma_digit_count_le(v: nat)
    requires
        v >= 1,
    ensures
        digit_count(v) <= v,
    decreases v,
{
    if v < 10 {
    } else {
        lemma_div_pos_is_pos(v as int, 10);
        lemma_div_decreases(v as int, 10);
        assert(v / 10 >= 1) by {
            lemma_div_is_ordered(10, v as int, 10);
        };
        lemma_digit_count_le((v / 10) as nat);
    }
}

/// The zero-padded width used for every sink file name of a run of
/// `task_count` tasks: the digit count of the largest ordinal,
/// `task_count - 1`, and at least 1.
pub fn ordinal_width(task_count: usize) -> (w: usize)
    requires
        task_count >= 1,
    ensures
        w as nat == digit_count((task_count - 1) as nat),
{
    let mut v: usize = task_count - 1;
    let mut w: usize = 1;
    while v >= 10
        invariant
            w >= 1,
            v <= task_count - 1,
            w as nat + digit_count(v as nat) == 1 + digit_count((task_count - 1) as nat),
        decreases v,
    {
        proof {
            assert(digit_count((v / 10) as nat) >= 1) by {
                lemma_digit_count_pos((v / 10) as nat);
            };
            assert(digit_count((task_count - 1) as nat) <= task_count - 1) by {
                lemma_digit_count_le((task_count - 1) as nat);
            };
            lemma_div_pos_is_pos(v as int, 10);
            lemma_div_decreases(v as int, 10);
        }
        v = v / 10;
        w = w + 1;
    }
    w
}

/// One decimal digit as a string slice.
fn digit_str(d: usize) -> (s: &'static str)
    requires
        d < 10,
    ensures
        s@ == seq![digit_char(d as int)],
{
    if d == 0 {
        proof {
            reveal_strlit("0");
            assert("0"@ =~= seq![digit_char(0)]);
        }
        "0"
    } else if d == 1 {
        proof {
            reveal_strlit("1");
            assert("1"@ =~= seq![digit_char(1)]);
        }
        "1"
    } else if d == 2 {
        proof {
            reveal_strlit("2");
            assert("2"@ =~= seq![digit_char(2)]);
        }
        "2"
    } else if d == 3 {
        proof {
            reveal_strlit("3");
            assert("3"@ =~= seq![digit_char(3)]);
        }
        "3"
    } else if d == 4 {
        proof {
            reveal_strlit("4");
            assert("4"@ =~= seq![digit_char(4)]);
        }
        "4"
    } else if d == 5 {
        proof {
            reveal_strlit("5");
            assert("5"@ =~= seq![digit_char(5)]);
        }
        "5"
    } else if d == 6 {
        proof {
            reveal_strlit("6");
            assert("6"@ =~= seq![digit_char(6)]);
        }
        "6"
    } else if d == 7 {
        proof {
            reveal_strlit("7");
            assert("7"@ =~= seq![digit_char(7)]);
        }
        "7"
    } else if d == 8 {
        proof {
            reveal_strlit("8");
            assert("8"@ =~= seq![digit_char(8)]);
        }
        "8"
    } else {
        proof {
            reveal_strlit("9");
            assert("9"@ =~= seq![digit_char(9)]);
        }
        "9"
    }
}

/// `v` written in decimal, zero-padded on the left to exactly `width`
/// characters.
pub fn padded_ordinal(v: usize, width: usize) -> (s: String)
    requires
        width >= 1,
    ensures
        s@ == padded_decimal(v as int, width as nat),
{
    let mut digits: Vec<usize> = Vec::new();
    let mut cur: usize = v;
    let mut t: usize = 0;
    proof {
        lemma_pow0(10);
    }
    while t < width
        invariant
            t <= width,
            digits@.len() == t as nat,
            cur as int == v as int / pow10(t as nat),
            forall|m: int|
                0 <= m < t ==> digits@[m] < 10 && digits@[m] as int == digit_of(v as int, m as nat),
        decreases width - t,
    {
        proof {
            lemma_pow_positive(10, t as nat);
            lemma_div_denominator(v as int, pow10(t as nat), 10);
            assert(pow10((t + 1) as nat) == pow10(t as nat) * 10) by {
                lemma_pow_adds(10, t as nat, 1);
                lemma_pow1(10);
            };
            lemma_mod_division_less_than_divisor(cur as int, 10);
        }
        digits.push(cur % 10);
        cur = cur / 10;
        t = t + 1;
    }
    let ghost target: Seq<char> = padded_decimal(v as int, width as nat);
    let mut s = String::new();
    let mut k: usize = width;
    while k > 0
        invariant
            k <= width,
            width >= 1,
            digits@.len() == width as nat,
            forall|m: int|
                0 <= m < width ==> digits@[m] < 10 && digits@[m] as int == digit_of(
                    v as int,
                    m as nat,
                ),
            target == padded_decimal(v as int, width as nat),
            s@ == target.take(width - k),
        decreases k,
    {
        k = k - 1;
        let d: usize = digits[k];
        let piece = digit_str(d);
        s.append(piece);
        proof {
            assert(target[width - 1 - k as int] == digit_char(digit_of(v as int, k as nat)));
            assert(s@ =~= target.take(width - k));
        }
    }
    proof {
        assert(s@ =~= target);
    }
    s
}

/// File name for the standard-output capture of task `ordinal`.
pub fn stdout_sink_name(ordinal: usize, width: usize) -> (s: String)
    requires
        width >= 1,
    ensures
        s@ == stdout_name(ordinal as int, width as nat),
{
    let mut s = padded_ordinal(ordinal, width);
    proof {
        reveal_strlit(".stdout");
        assert(".stdout"@ =~= stdout_suffix());
    }
    s.append(".stdout");
    s
}

/// File name for the standard-error capture of task `ordinal`.
pub fn stderr_sink_name(ordinal: usize, width: usize) -> (s: String)
    requires
        width >= 1,
    ensures
        s@ == stderr_name(ordinal as int, width as nat),
{
    let mut s = padded_ordinal(ordinal, width);
    proof {
        reveal_strlit(".stderr");
        assert(".stderr"@ =~= stderr_suffix());
    }
    s.append(".stderr");
    s
}

/// The full plan of sink file names for a run of `task_count` tasks: one
/// (stdout, stderr) pair per task, every name padded to the one common
/// width, so exactly `task_count` pairs are provisioned.
pub fn plan_sink_names(task_count: usize) -> (plan: Vec<(String, String)>)
    requires
        task_count >= 1,
    ensures
        plan@.len() == task_count as nat,
        forall|i: int|
            0 <= i < task_count ==> plan@[i].0@ == stdout_name(
                i,
                digit_count((task_count - 1) as nat),
            ) && plan@[i].1@ == stderr_name(i, digit_count((task_count - 1) as nat)),
        forall|i: int|
            0 <= i < task_count ==> plan@[i].0@.len() == digit_count((task_count - 1) as nat) + 7
                && plan@[i].1@.len() == digit_count((task_count - 1) as nat) + 7,
{
    let width: usize = ordinal_width(task_count);
    let mut plan: Vec<(String, String)> = Vec::new();
    let mut i: usize = 0;
    while i < task_count
        invariant
            i <= task_count,
            width as nat == digit_count((task_count - 1) as nat),
            width >= 1,
            plan@.len() == i as nat,
            forall|j: int|
                0 <= j < i ==> plan@[j].0@ == stdout_name(j, width as nat) && plan@[j].1@
                    == stderr_name(j, width as nat),
        decreases task_count - i,
    {
        let out_name = stdout_sink_name(i, width);
        let err_name = stderr_sink_name(i, width);
        plan.push((out_name, err_name));
        i = i + 1;
    }
    proof {
        lemma_digit_count_pos((task_count - 1) as nat);
        assert(stdout_suffix().len() == 7);
        assert(stderr_suffix().len() == 7);
        assert forall|j: int| 0 <= j < task_count implies plan@[j].0@.len() == digit_count(
            (task_count - 1) as nat,
        ) + 7 && plan@[j].1@.len() == digit_count((task_count - 1) as nat) + 7 by {
            assert(plan@[j].0@ == stdout_name(j, width as nat));
            assert(plan@[j].1@ == stderr_name(j, width as nat));
            assert(padded_decimal(j, width as nat).len() == width as nat);
        }
    }
    plan
}

/// Strict lexicographic order, by code point, on character sequences: the
/// two agree on some proper prefix and then differ in favour of `a`.
pub open spec fn lex_less(a: Seq<char>, b: Seq<char>) -> bool {
    exists|k: int|
        0 <= k < a.len() && k < b.len() && (forall|m: int| 0 <= m < k ==> a[m] == b[m]) && (a[k]
            as int) < (b[k] as int)
}

proof fn lemma_digit_char_val(d: int)
    requires
        0 <= d < 10,
    ensures
        digit_char(d) as int == 48 + d,
{
}

/// Digits strictly below the top position of a `w`-digit window are the
/// digits of the remainder modulo `10^(w-1)`.
proof fn lemma_digit_below(v: int, w: nat, m: nat)
    requires
        0 <= v,
        m + 1 < w,
    ensures
        digit_of(v, m) == digit_of(v % pow10((w - 1) as nat), m),
{
    let p = pow10((w - 1) as nat);
    let pm = pow10(m);
    let pd = pow10((w - 1 - m) as nat);
    let pd2 = pow10((w - 2 - m) as nat);
    lemma_pow_positive(10, (w - 1) as nat);
    lemma_pow_positive(10, m);
    lemma_pow_positive(10, (w - 1 - m) as nat);
    lemma_pow_positive(10, (w - 2 - m) as nat);
    let q = v / p;
    let r = v % p;
    lemma_fundamental_div_mod(v, p);
    lemma_mod_division_less_than_divisor(v, p);
    lemma_div_pos_is_pos(v, p);
    assert(p == pd * pm) by {
        lemma_pow_adds(10, (w - 1 - m) as nat, m);
    };
    assert(v / pm == q * pd + r / pm) by {
        lemma_hoist_over_denominator(r, q * pd, pm as nat);
        lemma_mul_is_associative(q, pd, pm);
        assert((q * pd) * pm == q * p);
        assert(v == p * q + r);
        lemma_mul_is_commutative(p, q);
    };
    assert(pd == 10 * pd2) by {
        lemma_pow_adds(10, 1, (w - 2 - m) as nat);
        lemma_pow1(10);
    };
    assert((v / pm) % 10 == (r / pm) % 10) by {
        assert(q * pd == 10 * (q * pd2)) by {
            lemma_mul_is_associative(q, 10, pd2);
            lemma_mul_is_commutative(q, 10);
            lemma_mul_is_associative(10, q, pd2);
        };
        lemma_mod_multiples_vanish(q * pd2, r / pm, 10);
    };
}

/// Zero-padded decimal renderings order lexicographically exactly as their
/// values order numerically.
pub proof fn lemma_padded_decimal_order(i: int, j: int, w: nat)
    requires
        0 <= i < j,
        j < pow10(w),
    ensures
        lex_less(padded_decimal(i, w), padded_decimal(j, w)),
    decreases w,
{
    let a = padded_decimal(i, w);
    let b = padded_decimal(j, w);
    if w == 0 {
        lemma_pow0(10);
        assert(false);
    }
    let p = pow10((w - 1) as nat);
    lemma_pow_positive(10, (w - 1) as nat);
    assert(pow10(w) == p * 10) by {
        lemma_pow_adds(10, (w - 1) as nat, 1);
        lemma_pow1(10);
    };
    let di = i / p;
    let dj = j / p;
    lemma_div_pos_is_pos(i, p);
    lemma_div_is_ordered(i, j, p);
    lemma_multiply_divide_lt(j, p, 10);
    assert(digit_of(i, (w - 1) as nat) == di) by {
        lemma_small_mod(di as nat, 10);
    };
    assert(digit_of(j, (w - 1) as nat) == dj) by {
        lemma_small_mod(dj as nat, 10);
    };
    if di < dj {
        lemma_digit_char_val(di);
        lemma_digit_char_val(dj);
        assert(a[0] == digit_char(di));
        assert(b[0] == digit_char(dj));
        assert(0 <= 0 < a.len() && 0 < b.len() && (forall|m: int| 0 <= m < 0 ==> a[m] == b[m]) && (
        a[0] as int) < (b[0] as int));
        assert(lex_less(a, b));
    } else {
        let ri = i % p;
        let rj = j % p;
        lemma_fundamental_div_mod(i, p);
        lemma_fundamental_div_mod(j, p);
        lemma_mod_division_less_than_divisor(i, p);
        lemma_mod_division_less_than_divisor(j, p);
        assert(ri < rj);
        if w == 1 {
            lemma_pow0(10);
            assert(false);
        }
        lemma_padded_decimal_order(ri, rj, (w - 1) as nat);
        let ap = padded_decimal(ri, (w - 1) as nat);
        let bp = padded_decimal(rj, (w - 1) as nat);
        let k = choose|k: int|
            0 <= k < ap.len() && k < bp.len() && (forall|m: int| 0 <= m < k ==> ap[m] == bp[m]) && (
            ap[k] as int) < (bp[k] as int);
        assert forall|kk: int| 1 <= kk < w implies a[kk] == ap[kk - 1] && b[kk] == bp[kk - 1] by {
            lemma_digit_below(i, w, (w - 1 - kk) as nat);
            lemma_digit_below(j, w, (w - 1 - kk) as nat);
        }
        assert(a[0] == b[0]);
        assert forall|m: int| 0 <= m < k + 1 implies a[m] == b[m] by {
            if m >= 1 {
                assert(ap[m - 1] == bp[m - 1]);
            }
        }
        assert(0 <= k + 1 < a.len() && k + 1 < b.len() && (a[k + 1] as int) < (b[k + 1] as int));
        assert(lex_less(a, b));
    }
}

/// Every value lies below 10 to its own digit count.
proof fn lemma_value_below_pow_digit_count(v: nat)
    ensures
        v < pow10(digit_count(v)),
    decreases v,
{
    if v < 10 {
        lemma_pow1(10);
    } else {
        lemma_value_below_pow_digit_count((v / 10) as nat);
        lemma_fundamental_div_mod(v as int, 10);
        lemma_mod_division_less_than_divisor(v as int, 10);
        assert(pow10(digit_count(v)) == 10 * pow10(digit_count((v / 10) as nat))) by {
            lemma_pow_adds(10, 1, digit_count((v / 10) as nat));
            lemma_pow1(10);
        };
        assert(v as int / 10 + 1 <= pow10(digit_count((v / 10) as nat)));
        assert(10 * (v as int / 10 + 1) <= 10 * pow10(digit_count((v / 10) as nat))) by {
            lemma_mul_inequality(v as int / 10 + 1, pow10(digit_count((v / 10) as nat)), 10);
            lemma_mul_is_commutative(v as int / 10 + 1, 10);
            lemma_mul_is_commutative(pow10(digit_count((v / 10) as nat)), 10);
        };
    }
}

/// Digit count never decreases as the value grows.
proof fn lemma_digit_count_monotone(a: nat, b: nat)
    requires
        a <= b,
    ensures
        digit_count(a) <= digit_count(b),
    decreases b,
{
    if b < 10 {
    } else if a < 10 {
        lemma_digit_count_pos((b / 10) as nat);
    } else {
        lemma_div_is_ordered(a as int, b as int, 10);
        lemma_digit_count_monotone((a / 10) as nat, (b / 10) as nat);
    }
}

/// Within a run of `n` tasks, zero-padding to the common width
/// `digit_count(n - 1)` makes the sink file names of any two tasks sort
/// lexicographically in ordinal order, for stdout and stderr sinks alike.
pub proof fn lemma_sink_names_sorted(i: int, j: int, n: int)
    requires
        0 <= i < j < n,
    ensures
        lex_less(
            stdout_name(i, digit_count((n - 1) as nat)),
            stdout_name(j, digit_count((n - 1) as nat)),
        ),
        lex_less(
            stderr_name(i, digit_count((n - 1) as nat)),
            stderr_name(j, digit_count((n - 1) as nat)),
        ),
{
    let w = digit_count((n - 1) as nat);
    assert(j < pow10(w)) by {
        lemma_digit_count_monotone(j as nat, (n - 1) as nat);
        lemma_value_below_pow_digit_count(j as nat);
        lemma_pow_increases(10, digit_count(j as nat), w);
    };
    lemma_padded_decimal_order(i, j, w);
    let a = padded_decimal(i, w);
    let b = padded_decimal(j, w);
    let k = choose|k: int|
        0 <= k < a.len() && k < b.len() && (forall|m: int| 0 <= m < k ==> a[m] == b[m]) && (a[k]
            as int) < (b[k] as int);
    assert forall|m: int| 0 <= m < k implies (a + stdout_suffix())[m] == (b + stdout_suffix())[m]
        && (a + stderr_suffix())[m] == (b + stderr_suffix())[m] by {
        assert(a[m] == b[m]);
    }
    assert(((a + stdout_suffix())[k] as int) < ((b + stdout_suffix())[k] as int));
    assert(((a + stderr_suffix())[k] as int) < ((b + stderr_suffix())[k] as int));
    assert(lex_less(a + stdout_suffix(), b + stdout_suffix()));
    assert(lex_less(a + stderr_suffix(), b + stderr_suffix()));
}

} // verus!
