//! Character-level helpers: conversions between `String` and `Vec<char>`,
//! and exact decimal formatting/parsing used by literal recognition and
//! diagnostics.

use vstd::prelude::*;

verus! {

/// Relies on `str::chars` and `Iterator::collect`: the characters of the
/// string, in order.
#[verifier::external_body]
pub fn string_to_chars(s: &str) -> (r: Vec<char>)
    ensures
        r@ == s@,
{
    s.chars().collect()
}

/// Relies on `FromIterator<char> for String`: a string made of exactly the
/// given characters, in order.
#[verifier::external_body]
pub fn chars_to_string(v: &Vec<char>) -> (r: String)
    ensures
        r@ == v@,
{
    v.iter().collect()
}

/// Whether `c` is a decimal digit.
pub open spec fn is_digit(c: char) -> bool {
    c == '0' || c == '1' || c == '2' || c == '3' || c == '4' || c == '5' || c == '6' || c == '7'
        || c == '8' || c == '9'
}

/// The numeric value of a decimal digit.
pub open spec fn digit_val(c: char) -> nat {
    if c == '0' {
        0
    } else if c == '1' {
        1
    } else if c == '2' {
        2
    } else if c == '3' {
        3
    } else if c == '4' {
        4
    } else if c == '5' {
        5
    } else if c == '6' {
        6
    } else if c == '7' {
        7
    } else if c == '8' {
        8
    } else if c == '9' {
        9
    } else {
        10
    }
}

/// The digit character for a value below ten.
pub open spec fn digit_char(d: nat) -> char {
    if d == 0 {
        '0'
    } else if d == 1 {
        '1'
    } else if d == 2 {
        '2'
    } else if d == 3 {
        '3'
    } else if d == 4 {
        '4'
    } else if d == 5 {
        '5'
    } else if d == 6 {
        '6'
    } else if d == 7 {
        '7'
    } else if d == 8 {
        '8'
    } else {
        '9'
    }
}

/// The decimal representation of a natural number, without leading zeros.
pub open spec fn udec(n: nat) -> Seq<char>
    decreases n,
{
    if n < 10 {
        seq![digit_char(n)]
    } else {
        udec(n / 10).push(digit_char(n % 10))
    }
}

/// The canonical decimal representation of an integer: a minus sign for
/// negative values, no leading zeros, no `-0`.
pub open spec fn idec(n: int) -> Seq<char> {
    if n >= 0 {
        udec(n as nat)
    } else {
        seq!['-'].add(udec((-n) as nat))
    }
}

/// The value of a digit string, most significant digit first.
pub open spec fn digits_val(s: Seq<char>) -> nat
    decreases s.len(),
{
    if s.len() == 0 {
        0
    } else {
        digits_val(s.drop_last()) * 10 + digit_val(s.last())
    }
}

/// Whether every character of `s` is a decimal digit.
pub open spec fn all_digits(s: Seq<char>) -> bool {
    forall|i: int| 0 <= i < s.len() ==> is_digit(#[trigger] s[i])
}

pub proof fn lemma_udec_props(n: nat)
    ensures
        udec(n).len() >= 1,
        (udec(n).len() == 1) == (n < 10),
        all_digits(udec(n)),
        digits_val(udec(n)) == n,
        udec(n)[0] != '0' || n == 0,
    decreases n,
{
    if n < 10 {
        let s = udec(n);
        assert(s =~= seq![digit_char(n)]);
        assert(s.drop_last() =~= Seq::<char>::empty());
        assert(s.last() == digit_char(n));
        assert(digits_val(Seq::<char>::empty()) == 0);
        assert(digits_val(s) == digit_val(digit_char(n)));
        assert(digit_val(digit_char(n)) == n);
        assert(digit_char(n) == '0' ==> n == 0);
    } else {
        lemma_udec_props(n / 10);
        assert(udec(n).drop_last() =~= udec(n / 10));
        assert(udec(n).last() == digit_char(n % 10));
        assert(udec(n)[0] == udec(n / 10)[0]);
        assert(digit_val(digit_char(n % 10)) == n % 10);
        assert forall|i: int| 0 <= i < udec(n).len() implies is_digit(#[trigger] udec(n)[i]) by {
            if i < udec(n / 10).len() {
                assert(udec(n)[i] == udec(n / 10)[i]);
            } else {
                assert(udec(n)[i] == digit_char(n % 10));
            }
        }
    }
}

/// A nonempty digit string without a leading zero has a positive value,
/// unless it is the single digit `0`.
proof fn lemma_digits_val_lower(s: Seq<char>)
    requires
        s.len() >= 1,
        all_digits(s),
        s[0] != '0',
    ensures
        digits_val(s) >= 1,
    decreases s.len(),
{
    if s.len() == 1 {
        assert(s.last() == s[0]);
    } else {
        assert(s.drop_last()[0] == s[0]);
        assert(all_digits(s.drop_last()));
        lemma_digits_val_lower(s.drop_last());
    }
}

/// Decimal representations are unique: a canonical digit string is exactly
/// `udec` of its value.
pub proof fn lemma_digits_unique(s: Seq<char>)
    requires
        s.len() >= 1,
        all_digits(s),
        s[0] != '0' || s.len() == 1,
    ensures
        s =~= udec(digits_val(s)),
    decreases s.len(),
{
    let n = digits_val(s);
    if s.len() == 1 {
        assert(s.last() == s[0]);
        assert(s.drop_last() =~= Seq::<char>::empty());
        assert(digits_val(Seq::<char>::empty()) == 0);
        assert(n == digit_val(s[0]));
        assert(n < 10);
        assert(udec(n) =~= seq![digit_char(n)]);
        assert(digit_char(digit_val(s[0])) == s[0]);
    } else {
        let s0 = s.drop_last();
        assert(s0[0] == s[0]);
        assert(all_digits(s0));
        lemma_digits_val_lower(s0);
        assert(digits_val(s0) >= 1);
        assert(n == digits_val(s0) * 10 + digit_val(s.last()));
        assert(digit_val(s.last()) < 10);
        assert(n >= 10);
        assert(n % 10 == digit_val(s.last())) by {
            assert(n == digits_val(s0) * 10 + digit_val(s.last()));
        };
        assert(n / 10 == digits_val(s0)) by {
            assert(n == digits_val(s0) * 10 + digit_val(s.last()));
        };
        lemma_digits_unique(s0);
        assert(digit_char(digit_val(s.last())) == s.last());
        assert(udec(n) =~= udec(n / 10).push(digit_char(n % 10)));
        assert(s =~= s.drop_last().push(s.last()));
    }
}

/// The digit character for an executable digit value below ten.
pub fn digit_to_char(d: u64) -> (c: char)
    requires
        d < 10,
    ensures
        c == digit_char(d as nat),
{
    if d == 0 {
        '0'
    } else if d == 1 {
        '1'
    } else if d == 2 {
        '2'
    } else if d == 3 {
        '3'
    } else if d == 4 {
        '4'
    } else if d == 5 {
        '5'
    } else if d == 6 {
        '6'
    } else if d == 7 {
        '7'
    } else if d == 8 {
        '8'
    } else {
        '9'
    }
}

/// The numeric value of a digit character, or 10 for any other character.
pub fn char_digit_val(c: char) -> (d: u64)
    ensures
        d == digit_val(c),
        d <= 10,
        (d < 10) == is_digit(c),
{
    if c == '0' {
        0
    } else if c == '1' {
        1
    } else if c == '2' {
        2
    } else if c == '3' {
        3
    } else if c == '4' {
        4
    } else if c == '5' {
        5
    } else if c == '6' {
        6
    } else if c == '7' {
        7
    } else if c == '8' {
        8
    } else if c == '9' {
        9
    } else {
        10
    }
}

/// Format a natural number in decimal.
pub fn u64_to_dec_chars(n: u64) -> (r: Vec<char>)
    ensures
        r@ == udec(n as nat),
{
    if n == 0 {
        let mut r: Vec<char> = Vec::new();
        r.push('0');
        proof {
            assert(udec(0nat) =~= seq![digit_char(0nat)]);
            assert(r@ =~= seq!['0']);
        }
        return r;
    }
    let mut rev: Vec<char> = Vec::new();
    let mut m: u64 = n;
    while m > 0
        invariant
            n > 0,
            m > 0 ==> udec(n as nat) =~= udec(m as nat).add(rev@.reverse()),
            m == 0 ==> rev@.len() > 0 && udec(n as nat) =~= rev@.reverse(),
        decreases m,
    {
        let ghost prev = m as nat;
        let ghost r0 = rev@;
        let d = m % 10;
        let c = digit_to_char(d);
        m = m / 10;
        rev.push(c);
        proof {
            assert(rev@.reverse() =~= seq![c].add(r0.reverse()));
            assert(udec(n as nat) =~= udec(prev).add(r0.reverse()));
            if prev >= 10 {
                assert(udec(prev) =~= udec(prev / 10).push(digit_char(prev % 10)));
                assert(udec(prev).add(r0.reverse()) =~= udec(prev / 10).add(
                    seq![digit_char(prev % 10)].add(r0.reverse()),
                ));
            } else {
                assert(udec(prev) =~= seq![digit_char(prev)]);
                assert(udec(prev).add(r0.reverse()) =~= rev@.reverse());
            }
        }
    }
    let mut r: Vec<char> = Vec::new();
    let mut i: usize = rev.len();
    while i > 0
        invariant
            i <= rev@.len(),
            r@ =~= rev@.reverse().take(rev@.len() - i),
        decreases i,
    {
        i = i - 1;
        r.push(rev[i]);
        proof {
            assert(rev@.reverse()[rev@.len() - i - 1] == rev@[i as int]);
            assert(r@ =~= rev@.reverse().take(rev@.len() - i));
        }
    }
    proof {
        assert(r@ =~= rev@.reverse());
    }
    r
}

/// Format an integer in decimal, with a leading minus sign when negative.
pub fn i64_to_dec_chars(n: i64) -> (r: Vec<char>)
    ensures
        r@ == idec(n as int),
{
    if n >= 0 {
        u64_to_dec_chars(n as u64)
    } else {
        // The magnitude of any negative i64 fits in u64.
        let mag: u64 = if n == i64::MIN {
            9223372036854775808u64
        } else {
            (-n) as u64
        };
        assert(mag == -(n as int));
        let digits = u64_to_dec_chars(mag);
        let mut r: Vec<char> = Vec::new();
        r.push('-');
        let mut i: usize = 0;
        while i < digits.len()
            invariant
                i <= digits@.len(),
                r@ =~= seq!['-'].add(digits@.take(i as int)),
            decreases digits@.len() - i,
        {
            r.push(digits[i]);
            i = i + 1;
            proof {
                assert(r@ =~= seq!['-'].add(digits@.take(i as int)));
            }
        }
        proof {
            assert(digits@.take(digits@.len() as int) =~= digits@);
        }
        r
    }
}

/// Parse the canonical decimal representation of an `i64`.
///
/// Returns `Some(n)` exactly when the input is `idec(n)` for some `n` in
/// the range of `i64`: an optional minus sign followed by digits, without
/// leading zeros and without `-0`.
pub fn parse_i64_canonical(s: &Vec<char>) -> (r: Option<i64>)
    ensures
        match r {
            Some(n) => s@ == idec(n as int),
            None => forall|n: i64| s@ != idec(n as int),
        },
{
    let neg = s.len() > 0 && s[0] == '-';
    let start: usize = if neg {
        1
    } else {
        0
    };
    if s.len() == start {
        proof {
            if neg {
                lemma_non_digit_not_canonical(s@, 0);
            } else {
                lemma_idec_shape();
            }
        }
        return None;
    }
    // Reject leading zeros (a bare "0" is fine, "-0" is not canonical).
    if s[start] == '0' && (neg || s.len() > start + 1) {
        proof {
            lemma_leading_zero_not_canonical(s@, start as int);
        }
        return None;
    }
    // The magnitude bound: i64::MIN has magnitude 9223372036854775808.
    let limit: u64 = 9223372036854775807u64;
    let bound: u64 = if neg {
        limit + 1
    } else {
        limit
    };
    let mut value: u64 = 0;
    let mut i: usize = start;
    while i < s.len()
        invariant
            start <= i <= s@.len(),
            start == if neg {
                1int
            } else {
                0int
            },
            neg ==> s@[0] == '-',
            !neg ==> s@[0] != '-',
            bound == if neg {
                9223372036854775808u64
            } else {
                9223372036854775807u64
            },
            value <= bound,
            all_digits(s@.subrange(start as int, i as int)),
            value == digits_val(s@.subrange(start as int, i as int)),
        decreases s@.len() - i,
    {
        let c = s[i];
        let d = char_digit_val(c);
        if d >= 10 {
            proof {
                lemma_non_digit_not_canonical(s@, i as int);
            }
            return None;
        }
        if value > (bound - d) / 10 {
            proof {
                lemma_value_too_big(s@, start as int, i as int, bound as nat, neg);
            }
            return None;
        }
        value = value * 10 + d;
        i = i + 1;
        proof {
            assert(s@.subrange(start as int, i as int).drop_last() =~= s@.subrange(
                start as int,
                i - 1,
            ));
            assert(s@.subrange(start as int, i as int).last() == s@[i - 1]);
        }
    }
    proof {
        let digits = s@.subrange(start as int, s@.len() as int);
        assert(digits.len() >= 1);
        assert(digits[0] == s@[start as int]);
        lemma_digits_unique(digits);
        if neg {
            assert(s@ =~= seq!['-'].add(digits));
            assert(digits[0] != '0');
            lemma_digits_val_lower(digits);
        } else {
            assert(s@ =~= digits);
        }
    }
    if neg {
        if value == limit + 1 {
            let n: i64 = i64::MIN;
            assert(-(n as int) == value as int);
            Some(n)
        } else {
            let n: i64 = -(value as i64);
            Some(n)
        }
    } else {
        Some(value as i64)
    }
}

/// Canonical decimal representations are injective: equal strings denote
/// equal numbers.
pub proof fn lemma_idec_injective(a: i64, b: i64)
    requires
        idec(a as int) == idec(b as int),
    ensures
        a == b,
{
    let ma: nat = if a >= 0 {
        a as nat
    } else {
        (-(a as int)) as nat
    };
    let mb: nat = if b >= 0 {
        b as nat
    } else {
        (-(b as int)) as nat
    };
    lemma_udec_props(ma);
    lemma_udec_props(mb);
    if a >= 0 && b >= 0 {
        assert(digits_val(udec(ma)) == digits_val(udec(mb)));
    } else if a < 0 && b < 0 {
        let sa = seq!['-'].add(udec(ma));
        let sb = seq!['-'].add(udec(mb));
        assert(udec(ma) =~= sa.skip(1));
        assert(udec(mb) =~= sb.skip(1));
        assert(digits_val(udec(ma)) == digits_val(udec(mb)));
    } else if a >= 0 && b < 0 {
        assert(idec(b as int)[0] == '-');
        assert(is_digit(udec(ma)[0]));
    } else {
        assert(idec(a as int)[0] == '-');
        assert(is_digit(udec(mb)[0]));
    }
}

/// A string with a non-digit character anywhere but as a leading minus sign
/// is not the canonical representation of any integer.
proof fn lemma_non_digit_not_canonical(s: Seq<char>, i: int)
    requires
        0 <= i < s.len(),
        !is_digit(s[i]),
        i == 0 && s[0] == '-' ==> s.len() == 1,
    ensures
        forall|n: i64| s != idec(n as int),
{
    assert forall|n: i64| s != idec(n as int) by {
        if s == idec(n as int) {
            let mag: nat = if n >= 0 {
                n as nat
            } else {
                (-(n as int)) as nat
            };
            lemma_udec_props(mag);
            if n >= 0 {
                assert(s =~= udec(mag));
                assert(is_digit(udec(mag)[i]));
            } else {
                assert(s =~= seq!['-'].add(udec(mag)));
                if i == 0 {
                    assert(s[0] == '-');
                    assert(s.len() == 1 + udec(mag).len());
                } else {
                    assert(s[i] == udec(mag)[i - 1]);
                    assert(is_digit(udec(mag)[i - 1]));
                }
            }
        }
    }
}

/// A string whose digits start with `0` but go on, or that reads `-0...`,
/// is not the canonical representation of any integer.
proof fn lemma_leading_zero_not_canonical(s: Seq<char>, start: int)
    requires
        start == 0 || (start == 1 && s.len() >= 1 && s[0] == '-'),
        start < s.len(),
        s[start] == '0',
        start == 1 || s.len() > 1,
    ensures
        forall|n: i64| s != idec(n as int),
{
    assert forall|n: i64| s != idec(n as int) by {
        if s == idec(n as int) {
            let mag: nat = if n >= 0 {
                n as nat
            } else {
                (-(n as int)) as nat
            };
            lemma_udec_props(mag);
            if n >= 0 {
                assert(s =~= udec(mag));
                if start == 1 {
                    assert(is_digit(udec(mag)[0]));
                } else {
                    assert(udec(mag)[0] == '0');
                    assert(mag == 0);
                    assert(udec(mag).len() == 1);
                }
            } else {
                assert(s =~= seq!['-'].add(udec(mag)));
                if start == 1 {
                    assert(udec(mag)[0] == s[1]);
                    assert(mag == 0);
                    assert(mag >= 1);
                } else {
                    assert(s[0] == '-');
                }
            }
        }
    }
}

/// Every canonical representation is a nonempty digit string, possibly after
/// a minus sign, whose first digit is only `0` for the number zero itself.
proof fn lemma_idec_shape()
    ensures
        forall|n: i64| (#[trigger] idec(n as int)).len() >= 1,
        forall|n: i64| n >= 0 ==> (#[trigger] idec(n as int)) == udec(n as nat),
        forall|n: i64|
            n < 0 ==> (#[trigger] idec(n as int)) == seq!['-'].add(udec((-(n as int)) as nat)),
{
}

/// If the accumulated value is already too large, no canonical i64 string
/// can extend what has been read so far.
proof fn lemma_value_too_big(s: Seq<char>, start: int, i: int, bound: nat, neg: bool)
    requires
        0 <= start <= i < s.len(),
        start == if neg {
            1int
        } else {
            0int
        },
        neg ==> s[0] == '-',
        is_digit(s[i]),
        all_digits(s.subrange(start, i)),
        digits_val(s.subrange(start, i)) * 10 + digit_val(s[i]) > bound,
        bound == if neg {
            9223372036854775808nat
        } else {
            9223372036854775807nat
        },
    ensures
        forall|n: i64| s != idec(n as int),
{
    assert forall|n: i64| s != idec(n as int) by {
        if s == idec(n as int) {
            let mag: nat = if n >= 0 {
                n as nat
            } else {
                (-(n as int)) as nat
            };
            lemma_udec_props(mag);
            let digits = s.subrange(start, s.len() as int);
            if n >= 0 {
                if neg {
                    assert(s[0] == '-');
                    assert(udec(mag)[0] == '-');
                    assert(!is_digit('-'));
                } else {
                    assert(digits =~= udec(mag));
                }
            } else {
                if neg {
                    assert(digits =~= udec(mag));
                } else {
                    assert(s[0] == '-');
                    assert(!is_digit('-'));
                    assert(all_digits(s.subrange(0, i)));
                    if i > 0 {
                        assert(s.subrange(0, i)[0] == s[0]);
                    } else {
                        assert(is_digit(s[i]));
                    }
                }
            }
            if (n >= 0) == !neg {
                assert(digits =~= udec(mag));
                assert(mag <= bound);
                lemma_digits_val_prefix_bound(digits, i - start);
                assert(digits.subrange(0, i - start) =~= s.subrange(start, i));
                assert(digits[i - start] == s[i]);
            }
        }
    }
}

/// The value of a digit string is at least the value built from any prefix
/// and one more digit.
proof fn lemma_digits_val_prefix_bound(s: Seq<char>, k: int)
    requires
        0 <= k < s.len(),
        all_digits(s),
    ensures
        digits_val(s) >= digits_val(s.subrange(0, k)) * 10 + digit_val(s[k]),
    decreases s.len(),
{
    if k == s.len() - 1 {
        assert(s.drop_last() =~= s.subrange(0, k));
        assert(s.last() == s[k]);
    } else {
        assert(all_digits(s.drop_last()));
        assert(s.drop_last().subrange(0, k) =~= s.subrange(0, k));
        assert(s.drop_last()[k] == s[k]);
        lemma_digits_val_prefix_bound(s.drop_last(), k);
        assert(digits_val(s) == digits_val(s.drop_last()) * 10 + digit_val(s.last()));
    }
}

} // verus!
