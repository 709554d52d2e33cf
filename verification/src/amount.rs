//! Parsing of user-entered coin amounts into integer nano units.
//!
//! One coin is [`NANO_PER_COIN`] nano units, the chain's smallest grain.
//! An amount field is accepted when it is a plain non-negative decimal
//! numeral: digits, optionally one dot followed by at most eight more
//! digits (at least one digit overall), whose value in nano units fits
//! in a `u64`. Anything else — a sign, an exponent, a second dot, a
//! letter — is rejected, and rejection carries no side effect.

use vstd::prelude::*;

verus! {

/// Nano units per coin.
pub const NANO_PER_COIN: u64 = 100_000_000;

/// The largest whole-coin count whose nano value still fits in a `u64`.
pub const MAX_WHOLE_COINS: u64 = 184_467_440_737;

/// Whether `c` is a decimal digit.
pub open spec fn is_digit(c: char) -> bool {
    '0' <= c && c <= '9'
}

/// The numeric value of a decimal digit.
pub open spec fn digit_val(c: char) -> int {
    c as int - '0' as int
}

/// Whether every character of `s` is a decimal digit.
pub open spec fn all_digits(s: Seq<char>) -> bool {
    forall|i: int| 0 <= i < s.len() ==> is_digit(s[i])
}

/// The value of a digit string read as a base-ten numeral; an empty
/// string counts as zero.
pub open spec fn digits_val(s: Seq<char>) -> int
    decreases s.len(),
{
    if s.len() == 0 {
        0
    } else {
        digits_val(s.drop_last()) * 10 + digit_val(s.last())
    }
}

/// Ten to the `k`-th power.
pub open spec fn pow10(k: int) -> int
    decreases k,
{
    if k <= 0 {
        1
    } else {
        10 * pow10(k - 1)
    }
}

/// Whether `s` is a valid dotless amount whose nano value fits in a
/// `u64`.
pub open spec fn valid_whole_amount(s: Seq<char>) -> bool {
    &&& s.len() > 0
    &&& all_digits(s)
    &&& digits_val(s) * (NANO_PER_COIN as int) <= u64::MAX as int
}

/// Whether the dot at position `i` splits `s` into a valid whole part
/// and a valid fractional part whose combined nano value fits in a
/// `u64`.
pub open spec fn valid_dotted_amount(s: Seq<char>, i: int) -> bool {
    &&& 0 <= i < s.len()
    &&& s[i] == '.'
    &&& s.len() > 1
    &&& all_digits(s.take(i))
    &&& all_digits(s.skip(i + 1))
    &&& s.len() - i - 1 <= 8
    &&& dotted_value(s, i) <= u64::MAX as int
}

/// The nano value of `s` split at the dot position `i`.
pub open spec fn dotted_value(s: Seq<char>, i: int) -> int {
    digits_val(s.take(i)) * (NANO_PER_COIN as int) + digits_val(s.skip(i + 1)) * pow10(
        8 - (s.len() - i - 1),
    )
}

/// Whether `s` is an acceptable amount field.
pub open spec fn valid_amount(s: Seq<char>) -> bool {
    ||| valid_whole_amount(s)
    ||| exists|i: int| valid_dotted_amount(s, i)
}

/// The nano value of a valid amount field.
pub open spec fn amount_value(s: Seq<char>) -> int
    recommends
        valid_amount(s),
{
    if all_digits(s) {
        digits_val(s) * (NANO_PER_COIN as int)
    } else {
        dotted_value(s, choose|i: int| valid_dotted_amount(s, i))
    }
}

/// A digit string's value never goes negative.
proof fn lemma_digits_val_nonneg(s: Seq<char>)
    requires
        all_digits(s),
    ensures
        digits_val(s) >= 0,
    decreases s.len(),
{
    if s.len() > 0 {
        assert(all_digits(s.drop_last()));
        lemma_digits_val_nonneg(s.drop_last());
    }
}

/// Reading more digits never shrinks the value.
proof fn lemma_digits_val_prefix_le(s: Seq<char>, j: int)
    requires
        all_digits(s),
        0 <= j <= s.len(),
    ensures
        digits_val(s.take(j)) <= digits_val(s),
    decreases s.len() - j,
{
    if j == s.len() {
        assert(s.take(j) =~= s);
    } else {
        assert(all_digits(s.drop_last()));
        assert(s.drop_last().take(j) =~= s.take(j));
        lemma_digits_val_prefix_le(s.drop_last(), j);
        lemma_digits_val_nonneg(s.drop_last());
        lemma_digits_val_nonneg(s.take(j));
    }
}

/// In a valid dotted amount the dot position is the only dot, so the
/// split is unique.
proof fn lemma_dot_unique(s: Seq<char>, i: int, j: int)
    requires
        valid_dotted_amount(s, i),
        0 <= j < s.len(),
        s[j] == '.',
    ensures
        i == j,
{
    if j < i {
        assert(s.take(i)[j] == '.');
        assert(is_digit(s.take(i)[j]));
    } else if j > i {
        assert(s.skip(i + 1)[j - i - 1] == '.');
        assert(is_digit(s.skip(i + 1)[j - i - 1]));
    }
}

/// Parse the digit characters of `s` between `lo` and `hi` as a base-ten
/// numeral, refusing values above `limit`.
fn parse_digits(s: &str, lo: usize, hi: usize, limit: u64) -> (r: Option<u64>)
    requires
        lo <= hi <= s@.len(),
        all_digits(s@.subrange(lo as int, hi as int)),
    ensures
        r is Some <==> digits_val(s@.subrange(lo as int, hi as int)) <= limit as int,
        r matches Some(n) ==> n as int == digits_val(s@.subrange(lo as int, hi as int)),
{
    let ghost digs = s@.subrange(lo as int, hi as int);
    let mut acc: u64 = 0;
    let mut i: usize = lo;
    while i < hi
        invariant
            lo <= i <= hi <= s@.len(),
            digs == s@.subrange(lo as int, hi as int),
            all_digits(digs),
            acc as int == digits_val(digs.take(i - lo)),
            acc <= limit,
        decreases hi - i,
    {
        let c = s.get_char(i);
        proof {
            assert(digs[i - lo] == s@[i as int]);
            assert(is_digit(digs[i - lo]));
        }
        let d: u64 = (c as u32 - 48) as u64;
        let stepped = match acc.checked_mul(10) {
            Some(x) => x.checked_add(d),
            None => None,
        };
        let next = match stepped {
            Some(v) => if v <= limit {
                Some(v)
            } else {
                None
            },
            None => None,
        };
        proof {
            assert(digs.take(i - lo + 1).drop_last() =~= digs.take(i - lo));
            assert(digs.take(i - lo + 1).last() == digs[i - lo]);
            assert(digits_val(digs.take(i - lo + 1)) == acc as int * 10 + d as int);
        }
        match next {
            Some(v) => {
                acc = v;
            },
            None => {
                proof {
                    // The prefix already exceeds the limit, so the whole
                    // numeral does too.
                    assert(digits_val(digs.take(i - lo + 1)) > limit as int);
                    lemma_digits_val_prefix_le(digs, i - lo + 1);
                }
                return None;
            },
        }
        i += 1;
    }
    proof {
        assert(digs.take(hi - lo) =~= digs);
    }
    Some(acc)
}

/// Parse a user-entered amount field into nano units.
///
/// Returns `Some` exactly on the inputs [`valid_amount`] describes, and
/// then the returned number of nano units is the field's value.
pub fn parse_amount(s: &str) -> (r: Option<u64>)
    ensures
        r is Some <==> valid_amount(s@),
        r matches Some(n) ==> n as int == amount_value(s@),
{
    let n = s.unicode_len();

    // Find the first dot and check every other character is a digit.
    let mut dot: Option<usize> = None;
    let mut i: usize = 0;
    while i < n
        invariant
            0 <= i <= n,
            n == s@.len(),
            dot matches Some(d) ==> 0 <= d < i && s@[d as int] == '.' && all_digits(
                s@.subrange(0, d as int),
            ) && all_digits(s@.subrange(d as int + 1, i as int)),
            dot is None ==> all_digits(s@.subrange(0, i as int)),
        decreases n - i,
    {
        let c = s.get_char(i);
        if c == '.' {
            match dot {
                Some(_) => {
                    proof {
                        lemma_no_valid_with_two_dots(s@, dot.unwrap() as int, i as int);
                    }
                    return None;
                },
                None => {
                    proof {
                        assert(all_digits(s@.subrange(i as int + 1, i as int + 1)));
                    }
                    dot = Some(i);
                },
            }
        } else if c < '0' || c > '9' {
            proof {
                lemma_no_valid_with_bad_char(s@, i as int, dot);
            }
            return None;
        } else {
            proof {
                match dot {
                    Some(d) => {
                        assert(s@.subrange(d as int + 1, i as int + 1).drop_last()
                            =~= s@.subrange(d as int + 1, i as int));
                        assert(s@.subrange(d as int + 1, i as int + 1).last() == s@[i as int]);
                    },
                    None => {
                        assert(s@.subrange(0, i as int + 1).drop_last() =~= s@.subrange(
                            0,
                            i as int,
                        ));
                        assert(s@.subrange(0, i as int + 1).last() == s@[i as int]);
                    },
                }
            }
        }
        i += 1;
    }

    match dot {
        None => {
            proof {
                assert(s@.subrange(0, n as int) =~= s@);
            }
            if n == 0 {
                proof {
                    assert(forall|j: int| !valid_dotted_amount(s@, j));
                }
                return None;
            }
            let whole = parse_digits(s, 0, n, MAX_WHOLE_COINS);
            proof {
                lemma_whole_limit_exact(s@);
            }
            match whole {
                Some(w) => Some(w * NANO_PER_COIN),
                None => None,
            }
        },
        Some(d) => {
            let frac_len = n - d - 1;
            proof {
                assert(s@.subrange(d as int + 1, n as int) == s@.skip(d as int + 1));
                assert(s@.subrange(0, d as int) == s@.take(d as int));
                assert(!all_digits(s@)) by {
                    assert(s@[d as int] == '.');
                }
            }
            if frac_len > 8 || n == 1 {
                proof {
                    lemma_only_this_split(s@, d as int);
                }
                return None;
            }
            let whole = match parse_digits(s, 0, d, MAX_WHOLE_COINS) {
                Some(w) => w,
                None => {
                    proof {
                        lemma_only_this_split(s@, d as int);
                        lemma_dotted_needs_small_whole(s@, d as int);
                    }
                    return None;
                },
            };
            let frac_raw = match parse_digits(s, d + 1, n, u64::MAX) {
                Some(f) => f,
                None => {
                    proof {
                        lemma_digits_val_fits(s@.skip(d as int + 1));
                        assert(false);
                    }
                    return None;
                },
            };
            proof {
                lemma_digits_val_fits(s@.skip(d as int + 1));
                lemma_digits_val_nonneg(s@.skip(d as int + 1));
                lemma_digits_val_nonneg(s@.take(d as int));
                lemma_digits_val_below_pow10(s@.skip(d as int + 1));
                lemma_pow10_bounds(frac_len as int);
            }
            let scale = pow10_exec(8 - frac_len);
            proof {
                assert((frac_raw as int) * (scale as int) < 10_000_000_000_000_000)
                    by (nonlinear_arith)
                    requires
                        0 <= (frac_raw as int) < 100_000_000,
                        0 <= (scale as int) <= 100_000_000,
                ;
                lemma_frac_below_one_coin(s@.skip(d as int + 1));
                assert(whole as int * (NANO_PER_COIN as int) <= MAX_WHOLE_COINS as int * (
                NANO_PER_COIN as int)) by (nonlinear_arith)
                    requires
                        whole <= MAX_WHOLE_COINS,
                        whole >= 0,
                ;
            }
            let frac = frac_raw * scale;
            let base = whole * NANO_PER_COIN;
            proof {
                assert(dotted_value(s@, d as int) == base as int + frac as int);
            }
            if frac <= u64::MAX - base {
                proof {
                    assert(valid_dotted_amount(s@, d as int));
                    lemma_only_this_split(s@, d as int);
                }
                Some(base + frac)
            } else {
                proof {
                    assert(!valid_dotted_amount(s@, d as int));
                    lemma_only_this_split(s@, d as int);
                }
                None
            }
        },
    }
}

/// Ten to the `k`-th power, for small `k`.
fn pow10_exec(k: usize) -> (r: u64)
    requires
        k <= 8,
    ensures
        r as int == pow10(k as int),
        r <= 100_000_000,
{
    let mut r: u64 = 1;
    let mut i: usize = 0;
    while i < k
        invariant
            0 <= i <= k <= 8,
            r as int == pow10(i as int),
            r <= 100_000_000,
        decreases k - i,
    {
        proof {
            lemma_pow10_bounds(i as int + 1);
        }
        r = r * 10;
        i += 1;
    }
    r
}

/// `pow10` is always at least one.
proof fn lemma_pow10_pos(k: int)
    ensures
        pow10(k) >= 1,
    decreases k,
{
    if k > 0 {
        lemma_pow10_pos(k - 1);
    }
}

/// `pow10` never shrinks as the exponent grows.
proof fn lemma_pow10_mono(a: int, b: int)
    requires
        a <= b,
    ensures
        pow10(a) <= pow10(b),
    decreases b - a,
{
    if a < b {
        lemma_pow10_mono(a, b - 1);
        lemma_pow10_pos(b - 1);
    }
}

/// `pow10` stays within one coin for exponents up to eight.
proof fn lemma_pow10_bounds(k: int)
    requires
        0 <= k <= 8,
    ensures
        1 <= pow10(k) <= 100_000_000,
{
    lemma_pow10_pos(k);
    lemma_pow10_mono(k, 8);
    reveal_with_fuel(pow10, 9);
    assert(pow10(8) == 100_000_000);
}

/// A fractional part of at most eight digits scales to less than one
/// coin.
proof fn lemma_frac_below_one_coin(frac: Seq<char>)
    requires
        all_digits(frac),
        frac.len() <= 8,
    ensures
        digits_val(frac) * pow10(8 - frac.len()) < 100_000_000,
        digits_val(frac) * pow10(8 - frac.len()) >= 0,
    decreases frac.len(),
{
    lemma_digits_val_nonneg(frac);
    lemma_pow10_bounds(8 - frac.len());
    lemma_digits_val_below_pow10(frac);
    assert(digits_val(frac) * pow10(8 - frac.len()) < pow10(frac.len() as int) * pow10(
        8 - frac.len(),
    )) by (nonlinear_arith)
        requires
            digits_val(frac) < pow10(frac.len() as int),
            digits_val(frac) >= 0,
            pow10(8 - frac.len()) >= 1,
    ;
    lemma_pow10_add(frac.len() as int, 8 - frac.len());
    reveal_with_fuel(pow10, 9);
    assert(pow10(8) == 100_000_000);
    assert(digits_val(frac) * pow10(8 - frac.len()) >= 0) by (nonlinear_arith)
        requires
            digits_val(frac) >= 0,
            pow10(8 - frac.len()) >= 1,
    ;
}

/// A numeral of `n` digits is below ten to the `n`-th.
proof fn lemma_digits_val_below_pow10(s: Seq<char>)
    requires
        all_digits(s),
    ensures
        digits_val(s) < pow10(s.len() as int),
    decreases s.len(),
{
    if s.len() == 0 {
    } else {
        assert(all_digits(s.drop_last()));
        lemma_digits_val_below_pow10(s.drop_last());
        assert(digit_val(s.last()) <= 9);
        assert(digits_val(s.drop_last()) * 10 + digit_val(s.last()) < pow10(
            s.len() as int,
        )) by (nonlinear_arith)
            requires
                digits_val(s.drop_last()) < pow10(s.len() - 1),
                digit_val(s.last()) <= 9,
                pow10(s.len() as int) == 10 * pow10(s.len() - 1),
        ;
    }
}

/// `pow10` turns addition of exponents into multiplication.
proof fn lemma_pow10_add(a: int, b: int)
    requires
        a >= 0,
        b >= 0,
    ensures
        pow10(a) * pow10(b) == pow10(a + b),
    decreases a,
{
    if a == 0 {
    } else {
        lemma_pow10_add(a - 1, b);
        assert(pow10(a) * pow10(b) == 10 * (pow10(a - 1) * pow10(b))) by (nonlinear_arith)
            requires
                pow10(a) == 10 * pow10(a - 1),
        ;
    }
}

/// An eight-digit numeral always fits in a `u64`.
proof fn lemma_digits_val_fits(s: Seq<char>)
    requires
        all_digits(s),
        s.len() <= 8,
    ensures
        digits_val(s) <= u64::MAX as int,
        digits_val(s) >= 0,
{
    lemma_digits_val_below_pow10(s);
    lemma_digits_val_nonneg(s);
    lemma_pow10_bounds(s.len() as int);
}

/// The whole-coin limit is exactly what keeps the nano value inside a
/// `u64`.
proof fn lemma_whole_limit_exact(s: Seq<char>)
    requires
        all_digits(s),
    ensures
        (digits_val(s) <= MAX_WHOLE_COINS as int) == (digits_val(s) * (NANO_PER_COIN as int)
            <= u64::MAX as int),
{
    lemma_digits_val_nonneg(s);
    assert((digits_val(s) <= 184_467_440_737) == (digits_val(s) * 100_000_000 <= 0xffff_ffff_ffff_ffff))
        by (nonlinear_arith)
        requires
            digits_val(s) >= 0,
    ;
}

/// A string with two dots is not a valid amount.
proof fn lemma_no_valid_with_two_dots(s: Seq<char>, d1: int, d2: int)
    requires
        0 <= d1 < d2 < s.len(),
        s[d1] == '.',
        s[d2] == '.',
    ensures
        !valid_amount(s),
{
    assert(!all_digits(s)) by {
        assert(!is_digit(s[d1]));
    }
    assert forall|i: int| !valid_dotted_amount(s, i) by {
        if valid_dotted_amount(s, i) {
            lemma_dot_unique(s, i, d1);
            lemma_dot_unique(s, i, d2);
        }
    }
}

/// A character that is neither a digit nor the first dot rules the
/// string out.
proof fn lemma_no_valid_with_bad_char(s: Seq<char>, i: int, dot: Option<usize>)
    requires
        0 <= i < s.len(),
        !is_digit(s[i]),
        s[i] != '.',
        dot matches Some(d) ==> 0 <= d < i && s[d as int] == '.',
    ensures
        !valid_amount(s),
{
    assert(!all_digits(s)) by {
        assert(!is_digit(s[i]));
    }
    assert forall|j: int| !valid_dotted_amount(s, j) by {
        if valid_dotted_amount(s, j) {
            if j < i {
                assert(s.skip(j + 1)[i - j - 1] == s[i]);
                assert(is_digit(s.skip(j + 1)[i - j - 1]));
            } else if j > i {
                assert(s.take(j)[i] == s[i]);
                assert(is_digit(s.take(j)[i]));
            }
        }
    }
}

/// With the dot at `d`, validity and value of the whole string are those
/// of this one split.
proof fn lemma_only_this_split(s: Seq<char>, d: int)
    requires
        0 <= d < s.len(),
        s[d] == '.',
        all_digits(s.take(d)),
        all_digits(s.skip(d + 1)),
    ensures
        valid_amount(s) == valid_dotted_amount(s, d),
        valid_dotted_amount(s, d) ==> amount_value(s) == dotted_value(s, d),
{
    assert(!all_digits(s)) by {
        assert(!is_digit(s[d]));
    }
    if valid_dotted_amount(s, d) {
        assert(valid_amount(s));
        let w = choose|i: int| valid_dotted_amount(s, i);
        lemma_dot_unique(s, w, d);
    }
    if valid_amount(s) {
        let w = choose|i: int| valid_dotted_amount(s, i);
        lemma_dot_unique(s, w, d);
    }
}

/// A dotted amount only fits in a `u64` when its whole part respects the
/// whole-coin limit.
proof fn lemma_dotted_needs_small_whole(s: Seq<char>, d: int)
    requires
        0 <= d < s.len(),
        s[d] == '.',
        all_digits(s.take(d)),
        all_digits(s.skip(d + 1)),
        digits_val(s.take(d)) > MAX_WHOLE_COINS as int,
    ensures
        !valid_dotted_amount(s, d),
{
    lemma_digits_val_nonneg(s.take(d));
    lemma_digits_val_nonneg(s.skip(d + 1));
    if valid_dotted_amount(s, d) {
        lemma_pow10_bounds(8 - (s.len() - d - 1));
        assert(digits_val(s.take(d)) * (NANO_PER_COIN as int) > u64::MAX as int)
            by (nonlinear_arith)
            requires
                digits_val(s.take(d)) > 184_467_440_737,
        ;
        assert(digits_val(s.skip(d + 1)) * pow10(8 - (s.len() - d - 1)) >= 0)
            by (nonlinear_arith)
            requires
                digits_val(s.skip(d + 1)) >= 0,
                pow10(8 - (s.len() - d - 1)) >= 1,
        ;
    }
}

} // verus!
