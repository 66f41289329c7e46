//! Fixed-point monetary amounts.
//!
//! An amount is an `i64` counting units of 1/10000 of a whole, so every
//! representable value already has at most four decimal places and the
//! four-decimal rounding the account rules call for is exact on stored
//! balances. Rounding therefore happens in exactly one place: when a
//! decimal string is read, any digits past the fourth decimal place are
//! rounded half away from zero.

use vstd::prelude::*;
use vstd::string::StringExecFns;
use vstd::string::StringSliceAdditionalSpecFns;

verus! {

/// ASCII code of `0`.
pub const ASCII_ZERO: u8 = 48;

/// ASCII code of `5`.
pub const ASCII_FIVE: u8 = 53;

/// ASCII code of `9`.
pub const ASCII_NINE: u8 = 57;

/// ASCII code of `+`.
pub const ASCII_PLUS: u8 = 43;

/// ASCII code of `-`.
pub const ASCII_MINUS: u8 = 45;

/// ASCII code of `.`.
pub const ASCII_DOT: u8 = 46;

/// True when a mathematical integer fits the fixed-point amount type.
pub open spec fn in_amount_range(x: int) -> bool {
    i64::MIN <= x <= i64::MAX
}

/// An ASCII decimal digit.
pub open spec fn is_ascii_digit(c: u8) -> bool {
    ASCII_ZERO <= c <= ASCII_NINE
}

/// The numeric value of an ASCII decimal digit.
pub open spec fn digit_val(c: u8) -> int {
    c - ASCII_ZERO
}

/// Every byte is an ASCII decimal digit.
pub open spec fn all_digits(s: Seq<u8>) -> bool {
    forall|i: int| 0 <= i < s.len() ==> is_ascii_digit(#[trigger] s[i])
}

/// The integer a digit string denotes, most significant digit first; the
/// empty string denotes zero.
pub open spec fn digits_to_int(s: Seq<u8>) -> int
    decreases s.len(),
{
    if s.len() == 0 {
        0
    } else {
        digits_to_int(s.drop_last()) * 10 + digit_val(s.last())
    }
}

/// Index of the first `.` byte, or the length if there is none.
pub open spec fn first_dot(s: Seq<u8>) -> int
    decreases s.len(),
{
    if s.len() == 0 {
        0
    } else if s[0] == ASCII_DOT {
        0
    } else {
        1 + first_dot(s.skip(1))
    }
}

/// The fixed-point units the fractional digit string denotes: the first
/// four digits, padded with zeros on the right, plus one unit when the
/// fifth digit rounds half away from zero.
pub open spec fn frac_units(f: Seq<u8>) -> int {
    let head = if f.len() >= 4 {
        f.take(4)
    } else {
        f
    };
    let pad: int = if f.len() == 0 {
        10000
    } else if f.len() == 1 {
        1000
    } else if f.len() == 2 {
        100
    } else if f.len() == 3 {
        10
    } else {
        1
    };
    let carry: int = if f.len() > 4 && f[4] >= ASCII_FIVE {
        1
    } else {
        0
    };
    digits_to_int(head) * pad + carry
}

/// The fixed-point magnitude an unsigned decimal string denotes: an
/// all-digit integer part, optionally followed by `.` and an all-digit
/// fractional part, with at least one digit overall.
pub open spec fn parse_decimal_body(body: Seq<u8>) -> Option<int> {
    let dot = first_dot(body);
    let intpart = body.take(dot);
    let frac = if dot == body.len() {
        Seq::<u8>::empty()
    } else {
        body.skip(dot + 1)
    };
    if all_digits(intpart) && all_digits(frac) && intpart.len() + frac.len() > 0 {
        Option::Some(digits_to_int(intpart) * 10000 + frac_units(frac))
    } else {
        Option::None
    }
}

/// The fixed-point amount a decimal byte string denotes: an optional sign,
/// then an unsigned decimal body. `None` when the string is malformed or
/// the magnitude exceeds the representable range.
pub open spec fn spec_parse_amount(s: Seq<u8>) -> Option<i64> {
    let neg = s.len() > 0 && s[0] == ASCII_MINUS;
    let body = if s.len() > 0 && (s[0] == ASCII_MINUS || s[0] == ASCII_PLUS) {
        s.skip(1)
    } else {
        s
    };
    match parse_decimal_body(body) {
        Option::None => Option::None,
        Option::Some(m) => if m > i64::MAX {
            Option::None
        } else if neg {
            Option::Some((-m) as i64)
        } else {
            Option::Some(m as i64)
        },
    }
}

proof fn lemma_digits_nonneg(s: Seq<u8>)
    requires
        all_digits(s),
    ensures
        digits_to_int(s) >= 0,
    decreases s.len(),
{
    if s.len() > 0 {
        assert(all_digits(s.drop_last()));
        lemma_digits_nonneg(s.drop_last());
    }
}

/// Appending further digits never decreases the denoted integer.
proof fn lemma_digits_prefix_bound(s: Seq<u8>, k: int)
    requires
        all_digits(s),
        0 <= k <= s.len(),
    ensures
        digits_to_int(s) >= digits_to_int(s.take(k)),
    decreases s.len() - k,
{
    if k < s.len() {
        assert(s.take(k + 1).drop_last() =~= s.take(k));
        assert(all_digits(s.take(k)));
        lemma_digits_nonneg(s.take(k));
        assert(digits_to_int(s.take(k + 1)) == digits_to_int(s.take(k)) * 10 + digit_val(
            s.take(k + 1).last(),
        ));
        lemma_digits_prefix_bound(s, k + 1);
    } else {
        assert(s.take(k) =~= s);
    }
}

proof fn lemma_frac_units_nonneg(f: Seq<u8>)
    requires
        all_digits(f),
    ensures
        frac_units(f) >= 0,
{
    let head = if f.len() >= 4 {
        f.take(4)
    } else {
        f
    };
    assert(all_digits(head));
    lemma_digits_nonneg(head);
}

/// The first dot sits exactly where a scan that saw no earlier dot
/// stopped.
proof fn lemma_first_dot_at(s: Seq<u8>, k: int)
    requires
        0 <= k <= s.len(),
        forall|i: int| 0 <= i < k ==> s[i] != ASCII_DOT,
        k == s.len() || s[k] == ASCII_DOT,
    ensures
        first_dot(s) == k,
    decreases k,
{
    if s.len() == 0 {
    } else if s[0] == ASCII_DOT {
        assert(k == 0);
    } else {
        assert(k >= 1);
        lemma_first_dot_at(s.skip(1), k - 1);
    }
}

/// A dot-free prefix keeps the first dot at or past its end.
proof fn lemma_first_dot_past(s: Seq<u8>, k: int)
    requires
        0 <= k <= s.len(),
        forall|i: int| 0 <= i < k ==> s[i] != ASCII_DOT,
    ensures
        first_dot(s) >= k,
    decreases k,
{
    lemma_first_dot_le(s);
    if k > 0 {
        assert(s[0] != ASCII_DOT);
        assert forall|i: int| 0 <= i < k - 1 implies s.skip(1)[i] != ASCII_DOT by {
            assert(s.skip(1)[i] == s[i + 1]);
        }
        lemma_first_dot_past(s.skip(1), k - 1);
    }
}

proof fn lemma_first_dot_le(s: Seq<u8>)
    ensures
        0 <= first_dot(s) <= s.len(),
    decreases s.len(),
{
    if s.len() > 0 && s[0] != ASCII_DOT {
        lemma_first_dot_le(s.skip(1));
    }
}

/// Reads a decimal string into a fixed-point amount: an optional `+` or
/// `-` sign, then digits with at most one decimal point and at least one
/// digit. Digits past the fourth decimal place are rounded half away from
/// zero. Returns `None` — the boundary's fatal parse error — when the
/// string is malformed or the magnitude exceeds the representable range.
#[verifier::rlimit(100)]
#[verifier::loop_isolation(false)]
pub fn parse_amount(s: &str) -> (r: Option<i64>)
    ensures
        r == spec_parse_amount(s.spec_bytes()),
{
    let b = s.as_bytes();
    let n = b.len();
    let mut start: usize = 0;
    let mut neg = false;
    if n > 0 && (b[0] == ASCII_MINUS || b[0] == ASCII_PLUS) {
        neg = b[0] == ASCII_MINUS;
        start = 1;
    }
    let ghost body = b@.skip(start as int);
    proof {
        if start == 0 {
            assert(body =~= b@);
        }
    }

    // Integer part: digits up to the first dot or the end.
    let mut j: usize = start;
    let mut acc: i64 = 0;
    while j < n && b[j] != ASCII_DOT
        invariant
            start <= j <= n,
            n == b@.len(),
            body == b@.skip(start as int),
            forall|t: int| start <= t < j ==> is_ascii_digit(#[trigger] b@[t]),
            forall|t: int| start <= t < j ==> b@[t] != ASCII_DOT,
            acc == digits_to_int(b@.subrange(start as int, j as int)),
            acc >= 0,
        decreases n - j,
    {
        let c = b[j];
        if !(ASCII_ZERO <= c && c <= ASCII_NINE) {
            // An integer-part byte that is neither digit nor dot: malformed.
            proof {
                lemma_first_dot_le(body);
                assert forall|t: int| 0 <= t < j + 1 - start implies body[t] != ASCII_DOT by {
                    assert(body[t] == b@[t + start as int]);
                }
                lemma_first_dot_past(body, j + 1 - start);
                let dot0 = first_dot(body);
                let intpart0 = body.take(dot0);
                assert(body[j - start] == b@[j as int]);
                assert(intpart0[j - start] == c);
                assert(!all_digits(intpart0));
            }
            return Option::None;
        }
        let d = c - ASCII_ZERO;
        let grown = match acc.checked_mul(10) {
            Option::Some(v) => v.checked_add(d as i64),
            Option::None => Option::None,
        };
        acc = match grown {
            Option::Some(v) => v,
            Option::None => {
                // The integer part alone exceeds the representable range;
                // if the rest of the string is well formed the denoted
                // magnitude is out of range, and otherwise it is malformed.
                proof {
                    lemma_first_dot_le(body);
                    assert forall|t: int| 0 <= t < j + 1 - start implies body[t] != ASCII_DOT by {
                        assert(body[t] == b@[t + start as int]);
                    }
                    lemma_first_dot_past(body, j + 1 - start);
                    let dot0 = first_dot(body);
                    let intpart0 = body.take(dot0);
                    let frac0 = if dot0 == body.len() {
                        Seq::<u8>::empty()
                    } else {
                        body.skip(dot0 + 1)
                    };
                    if all_digits(intpart0) && all_digits(frac0) {
                        assert(intpart0.take(j + 1 - start) =~= b@.subrange(
                            start as int,
                            j + 1,
                        ));
                        assert(b@.subrange(start as int, j + 1).drop_last() =~= b@.subrange(
                            start as int,
                            j as int,
                        ));
                        assert(digits_to_int(intpart0.take(j + 1 - start)) == acc * 10 + digit_val(
                            b@[j as int],
                        ));
                        lemma_digits_prefix_bound(intpart0, j + 1 - start);
                        lemma_frac_units_nonneg(frac0);
                        assert(digits_to_int(intpart0) * 10000 >= digits_to_int(intpart0));
                    }
                }
                return Option::None;
            },
        };
        proof {
            assert(b@.subrange(start as int, j + 1).drop_last() =~= b@.subrange(
                start as int,
                j as int,
            ));
        }
        j += 1;
    }
    let ghost dot = first_dot(body);
    let ghost intpart = body.take(dot);
    proof {
        assert forall|t: int| 0 <= t < j - start implies body[t] != ASCII_DOT by {
            assert(body[t] == b@[t + start as int]);
        }
        if j < n {
            assert(body[j - start] == b@[j as int]);
        }
        lemma_first_dot_at(body, j - start);
        assert(dot == j - start);
        assert(intpart =~= b@.subrange(start as int, j as int));
        assert forall|t: int| 0 <= t < intpart.len() implies is_ascii_digit(
            #[trigger] intpart[t],
        ) by {
            assert(intpart[t] == b@[t + start as int]);
        }
        assert(all_digits(intpart));
        assert(digits_to_int(intpart) == acc);
    }
    let int_digits = j - start;

    // Fractional part, if a dot was found.
    let mut f4: i64 = 0;
    let mut carry: i64 = 0;
    let mut cnt: usize = 0;
    let ghost frac = if dot == body.len() {
        Seq::<u8>::empty()
    } else {
        body.skip(dot + 1)
    };
    if j < n {
        let fstart = j + 1;
        let mut k: usize = fstart;
        proof {
            assert(frac =~= b@.subrange(fstart as int, n as int));
        }
        while k < n
            invariant
                fstart <= k <= n,
                n == b@.len(),
                cnt == k - fstart,
                frac == b@.subrange(fstart as int, n as int),
                forall|t: int| 0 <= t < cnt ==> is_ascii_digit(#[trigger] frac[t]),
                f4 == digits_to_int(frac.take(if cnt >= 4 { 4int } else { cnt as int })),
                cnt == 0 ==> f4 == 0,
                cnt == 1 ==> f4 <= 9,
                cnt == 2 ==> f4 <= 99,
                cnt == 3 ==> f4 <= 999,
                f4 <= 9999,
                0 <= f4,
                carry == (if cnt > 4 && frac[4] >= ASCII_FIVE {
                    1int
                } else {
                    0int
                }),
            decreases n - k,
        {
            let c = b[k];
            if !(ASCII_ZERO <= c && c <= ASCII_NINE) {
                proof {
                    assert(frac[cnt as int] == c);
                    assert(!all_digits(frac));
                }
                return Option::None;
            }
            let d = c - ASCII_ZERO;
            if cnt < 4 {
                proof {
                    assert(frac.take(cnt + 1).drop_last() =~= frac.take(cnt as int));
                    assert(frac.take(cnt + 1).last() == c);
                }
                f4 = f4 * 10 + d as i64;
            } else if cnt == 4 {
                if d >= 5 {
                    carry = 1;
                }
            }
            k += 1;
            cnt += 1;
        }
        proof {
            assert(frac.len() == cnt);
            if cnt < 4 {
                assert(frac.take(cnt as int) =~= frac);
            }
            assert(all_digits(frac));
        }
    } else {
        proof {
            assert(frac =~= Seq::<u8>::empty());
        }
    }

    // At least one digit overall.
    if int_digits == 0 && cnt == 0 {
        proof {
            assert(intpart.len() + frac.len() == 0);
        }
        return Option::None;
    }

    // Pad the fractional digits to four places and assemble the magnitude.
    let pad: i64 = if cnt == 0 {
        10000
    } else if cnt == 1 {
        1000
    } else if cnt == 2 {
        100
    } else if cnt == 3 {
        10
    } else {
        1
    };
    let fu: i64 = f4 * pad + carry;
    proof {
        assert(all_digits(frac));
        assert(fu == frac_units(frac));
        assert(0 <= fu <= 10000);
        assert(intpart.len() + frac.len() > 0);
    }
    let m = match acc.checked_mul(10000) {
        Option::Some(v) => match v.checked_add(fu) {
            Option::Some(w) => w,
            Option::None => {
                proof {
                    assert(acc * 10000 + fu > i64::MAX);
                }
                return Option::None;
            },
        },
        Option::None => {
            proof {
                assert(acc * 10000 > i64::MAX);
                assert(acc * 10000 + fu > i64::MAX);
            }
            return Option::None;
        },
    };
    if neg {
        Option::Some(-m)
    } else {
        Option::Some(m)
    }
}

/// The decimal digit character of a value below ten.
pub open spec fn digit_char(d: int) -> char {
    if d == 0 {
        '0'
    } else if d == 1 {
        '1'
    } else if d == 2 {
        '2'
    } else if d == 3 {
        '3'
    } else if d == 4 {
        '4'
    } else if d == 5 {
        '5'
    } else if d == 6 {
        '6'
    } else if d == 7 {
        '7'
    } else if d == 8 {
        '8'
    } else {
        '9'
    }
}

/// The decimal digit characters of a natural number, most significant
/// first, without leading zeros (zero itself is `0`).
pub open spec fn decimal_digits(n: nat) -> Seq<char>
    decreases n,
{
    if n < 10 {
        seq![digit_char(n as int)]
    } else {
        decimal_digits(n / 10) + seq![digit_char((n % 10) as int)]
    }
}

/// The canonical decimal rendering of a fixed-point amount: an optional
/// minus sign, the whole part, a dot, and exactly four fractional digits.
pub open spec fn spec_format_amount(v: int) -> Seq<char> {
    let m = if v < 0 {
        -v
    } else {
        v
    };
    let sign: Seq<char> = if v < 0 {
        seq!['-']
    } else {
        Seq::<char>::empty()
    };
    let f = m % 10000;
    sign + decimal_digits((m / 10000) as nat) + seq!['.'] + seq![
        digit_char(f / 1000),
        digit_char(f / 100 % 10),
        digit_char(f / 10 % 10),
        digit_char(f % 10),
    ]
}

/// The one-character string of a decimal digit.
fn digit_str(d: u64) -> (r: &'static str)
    requires
        d < 10,
    ensures
        r@ == seq![digit_char(d as int)],
{
    proof {
        reveal_strlit("0");
        reveal_strlit("1");
        reveal_strlit("2");
        reveal_strlit("3");
        reveal_strlit("4");
        reveal_strlit("5");
        reveal_strlit("6");
        reveal_strlit("7");
        reveal_strlit("8");
        reveal_strlit("9");
    }
    match d {
        0 => "0",
        1 => "1",
        2 => "2",
        3 => "3",
        4 => "4",
        5 => "5",
        6 => "6",
        7 => "7",
        8 => "8",
        _ => "9",
    }
}

/// Appends the decimal digits of a natural number.
fn push_decimal_digits(n: u64, out: &mut String)
    ensures
        final(out)@ == old(out)@ + decimal_digits(n as nat),
    decreases n,
{
    if n < 10 {
        out.append(digit_str(n));
    } else {
        push_decimal_digits(n / 10, out);
        out.append(digit_str(n % 10));
        proof {
            assert(final(out)@ =~= old(out)@ + decimal_digits(n as nat));
        }
    }
}

/// Renders a fixed-point amount as decimal text with exactly four decimal
/// places, as the snapshot rows are written.
#[verifier::rlimit(50)]
pub fn format_amount(v: i64) -> (r: String)
    ensures
        r@ == spec_format_amount(v as int),
{
    let ghost mv: int = if v < 0 {
        -(v as int)
    } else {
        v as int
    };
    let ghost sign: Seq<char> = if v < 0 {
        seq!['-']
    } else {
        Seq::<char>::empty()
    };
    let mut out = String::new();
    let m: u64 = if v < 0 {
        proof {
            reveal_strlit("-");
        }
        out.append("-");
        (-(v as i128)) as u64
    } else {
        v as u64
    };
    proof {
        assert(m == mv);
        assert(out@ == sign);
    }
    push_decimal_digits(m / 10000, &mut out);
    proof {
        reveal_strlit(".");
        assert(out@ == sign + decimal_digits((mv / 10000) as nat));
    }
    out.append(".");
    let f = m % 10000;
    proof {
        assert(f == mv % 10000);
    }
    out.append(digit_str(f / 1000));
    out.append(digit_str(f / 100 % 10));
    out.append(digit_str(f / 10 % 10));
    out.append(digit_str(f % 10));
    proof {
        assert(out@ =~= spec_format_amount(v as int));
    }
    out
}

} // verus!
