//! The scalar type: an exact decimal in fixed point.
//!
//! A `Value` holds a number of millionths, so `Value { micros: 2_500_000 }`
//! is 2.5. Six fractional digits cover the source schema exactly and keep
//! every comparison and midpoint computation precise.

use vstd::prelude::*;

verus! {

/// Fractional digits a `Value` can hold.
pub const FRAC_DIGITS: u64 = 6;

/// Most integral digits a token may carry; keeps every parsed mantissa,
/// and the sum of any two, well inside `i64`.
pub const INT_DIGITS: u64 = 12;

/// Ten to the `n`.
pub open spec fn pow10(n: nat) -> int
    decreases n,
{
    if n == 0 {
        1
    } else {
        10 * pow10((n - 1) as nat)
    }
}

/// Is `c` a decimal digit?
pub open spec fn is_digit(c: char) -> bool {
    '0' <= c && c <= '9'
}

/// Numeric value of a digit character.
pub open spec fn digit_val(c: char) -> int {
    c as int - '0' as int
}

/// Does every character of `s` hold a decimal digit?
pub open spec fn all_digits(s: Seq<char>) -> bool {
    forall|i: int| 0 <= i < s.len() ==> is_digit(#[trigger] s[i])
}

/// The number written by a run of digit characters, most significant first.
pub open spec fn digits_val(s: Seq<char>) -> int
    decreases s.len(),
{
    if s.len() == 0 {
        0
    } else {
        digits_val(s.drop_last()) * 10 + digit_val(s.last())
    }
}

/// Index of the first `'.'` in `s`, or `s.len()` if there is none.
pub open spec fn first_dot(s: Seq<char>) -> int
    decreases s.len(),
{
    if s.len() == 0 {
        0
    } else if s[0] == '.' {
        0
    } else {
        1 + first_dot(s.skip(1))
    }
}

/// The integral digits of an unsigned token: everything before the first dot.
pub open spec fn int_part(s: Seq<char>) -> Seq<char> {
    s.subrange(0, first_dot(s))
}

/// The fractional digits of an unsigned token: everything after the first
/// dot, or empty if there is no dot.
pub open spec fn frac_part(s: Seq<char>) -> Seq<char> {
    if first_dot(s) == s.len() {
        Seq::empty()
    } else {
        s.subrange(first_dot(s) + 1, s.len() as int)
    }
}

/// The lexical rule for an unsigned token: digits, optionally a dot and
/// more digits; at least one digit in all; at most `INT_DIGITS` before the
/// dot and `FRAC_DIGITS` after it.
pub open spec fn valid_unsigned(s: Seq<char>) -> bool {
    &&& all_digits(int_part(s))
    &&& all_digits(frac_part(s))
    &&& int_part(s).len() <= INT_DIGITS
    &&& frac_part(s).len() <= FRAC_DIGITS
    &&& int_part(s).len() + frac_part(s).len() >= 1
}

/// The number of millionths an unsigned token denotes.
pub open spec fn unsigned_micros(s: Seq<char>) -> int {
    digits_val(int_part(s)) * 1_000_000 + digits_val(frac_part(s)) * pow10(
        (FRAC_DIGITS - frac_part(s).len()) as nat,
    )
}

/// What a whole token denotes: an optional sign, then an unsigned token.
/// `None` is a lexical failure.
pub open spec fn token_micros(s: Seq<char>) -> Option<int> {
    if s.len() > 0 && s[0] == '-' {
        if valid_unsigned(s.skip(1)) {
            Some(-unsigned_micros(s.skip(1)))
        } else {
            None
        }
    } else if s.len() > 0 && s[0] == '+' {
        if valid_unsigned(s.skip(1)) {
            Some(unsigned_micros(s.skip(1)))
        } else {
            None
        }
    } else {
        if valid_unsigned(s) {
            Some(unsigned_micros(s))
        } else {
            None
        }
    }
}

/// `first_dot` really is the first dot: nothing before it is a dot, and it
/// lands on a dot unless there is none.
pub proof fn lemma_first_dot(s: Seq<char>)
    ensures
        0 <= first_dot(s) <= s.len(),
        forall|j: int| 0 <= j < first_dot(s) ==> s[j] != '.',
        first_dot(s) < s.len() ==> s[first_dot(s)] == '.',
    decreases s.len(),
{
    if s.len() == 0 {
    } else if s[0] == '.' {
    } else {
        lemma_first_dot(s.skip(1));
        assert forall|j: int| 0 <= j < first_dot(s) implies s[j] != '.' by {
            if j > 0 {
                assert(s.skip(1)[j - 1] == s[j]);
            }
        }
        if first_dot(s) < s.len() {
            assert(s.skip(1)[first_dot(s) - 1] == s[first_dot(s)]);
        }
    }
}

/// A run of digits denotes a number below ten to its length.
pub proof fn lemma_digits_val_bound(s: Seq<char>)
    requires
        all_digits(s),
    ensures
        0 <= digits_val(s) < pow10(s.len()),
    decreases s.len(),
{
    if s.len() == 0 {
    } else {
        assert(all_digits(s.drop_last())) by {
            assert(forall|i: int|
                0 <= i < s.len() - 1 ==> s.drop_last()[i] == #[trigger] s[i]);
        }
        lemma_digits_val_bound(s.drop_last());
        assert(is_digit(s.last()));
        assert(0 <= digit_val(s.last()) <= 9);
    }
}

/// Ten to any power is at least one.
pub proof fn lemma_pow10_pos(n: nat)
    ensures
        1 <= pow10(n),
    decreases n,
{
    if n > 0 {
        lemma_pow10_pos((n - 1) as nat);
    }
}

/// Ten to the power grows with the exponent.
pub proof fn lemma_pow10_monotone(a: nat, b: nat)
    requires
        a <= b,
    ensures
        1 <= pow10(a) <= pow10(b),
    decreases b,
{
    lemma_pow10_pos(a);
    if a < b {
        lemma_pow10_monotone(a, (b - 1) as nat);
    }
}

/// A valid unsigned token denotes less than `10^18 + 10^6` millionths.
pub proof fn lemma_unsigned_micros_bound(s: Seq<char>)
    requires
        valid_unsigned(s),
    ensures
        0 <= unsigned_micros(s) < 1_000_000_000_000_000_000 + 1_000_000,
{
    lemma_digits_val_bound(int_part(s));
    lemma_digits_val_bound(frac_part(s));
    lemma_pow10_monotone(int_part(s).len() as nat, 12);
    lemma_pow10_monotone(frac_part(s).len() as nat, 6);
    lemma_pow10_monotone((FRAC_DIGITS - frac_part(s).len()) as nat, 6);
    assert(pow10(12) == 1_000_000_000_000) by {
        reveal_with_fuel(pow10, 13);
    }
    assert(pow10(6) == 1_000_000) by {
        reveal_with_fuel(pow10, 13);
    }
    let ip = digits_val(int_part(s));
    let fp = digits_val(frac_part(s));
    let sc = pow10((FRAC_DIGITS - frac_part(s).len()) as nat);
    assert(ip * 1_000_000 <= (1_000_000_000_000 - 1) * 1_000_000) by (nonlinear_arith)
        requires
            0 <= ip <= 1_000_000_000_000 - 1,
    ;
    assert(pow10(frac_part(s).len() as nat) * sc == 1_000_000) by {
        lemma_pow10_add(frac_part(s).len() as nat, (FRAC_DIGITS - frac_part(s).len()) as nat);
        assert(pow10(6) == 1_000_000) by {
            reveal_with_fuel(pow10, 13);
        }
    }
    assert(fp * sc < 1_000_000) by (nonlinear_arith)
        requires
            0 <= fp < pow10(frac_part(s).len() as nat),
            1 <= sc,
            pow10(frac_part(s).len() as nat) * sc == 1_000_000,
    ;
    assert(ip * 1_000_000 >= 0) by (nonlinear_arith)
        requires
            0 <= ip,
    ;
    assert(fp * sc >= 0) by (nonlinear_arith)
        requires
            0 <= fp,
            0 <= sc,
    ;
}

/// Powers of ten multiply as their exponents add.
pub proof fn lemma_pow10_add(a: nat, b: nat)
    ensures
        pow10(a) * pow10(b) == pow10(a + b),
    decreases a,
{
    if a == 0 {
    } else {
        lemma_pow10_add((a - 1) as nat, b);
        assert(pow10(a) * pow10(b) == 10 * (pow10((a - 1) as nat) * pow10(b)))
            by (nonlinear_arith)
            requires
                pow10(a) == 10 * pow10((a - 1) as nat),
        ;
    }
}

/// Concrete powers of ten the parser's proofs lean on.
proof fn lemma_pow10_vals()
    ensures
        pow10(0) == 1,
        pow10(6) == 1_000_000,
        pow10(11) == 100_000_000_000,
        pow10(12) == 1_000_000_000_000,
{
    reveal_with_fuel(pow10, 13);
}

/// Extending a digit run by one character multiplies by ten and adds it.
proof fn lemma_digits_val_step(s: Seq<char>, k: int)
    requires
        0 <= k < s.len(),
    ensures
        digits_val(s.subrange(0, k + 1)) == digits_val(s.subrange(0, k)) * 10 + digit_val(s[k]),
{
    assert(s.subrange(0, k + 1).drop_last() =~= s.subrange(0, k));
    assert(s.subrange(0, k + 1).last() == s[k]);
}

/// One scalar of the table, as a count of millionths.
#[derive(Clone, Copy, Debug, PartialEq, Eq, Structural)]
pub struct Value {
    pub micros: i64,
}

/// Total order on values: by their numeric magnitude, which in fixed
/// point is the order of the mantissas.
pub open spec fn value_le(a: Value, b: Value) -> bool {
    a.micros <= b.micros
}

impl Value {
    /// The value holding exactly `i` units (no fractional part).
    pub fn from_int(i: i32) -> (v: Value)
        ensures
            v.micros == i * 1_000_000,
    {
        Value { micros: (i as i64) * 1_000_000 }
    }

    /// Strict numeric comparison, the ordering the statistics use.
    pub fn gt(&self, other: &Value) -> (r: bool)
        ensures
            r == (self.micros > other.micros),
    {
        self.micros > other.micros
    }

    /// Reads a decimal token: an optional sign, digits, optionally a dot
    /// and up to six fractional digits. Returns `None` exactly when the
    /// token breaks that lexical rule.
    pub fn parse(s: &str) -> (r: Option<Value>)
        ensures
            match r {
                Some(v) => token_micros(s@) == Some(v.micros as int),
                None => token_micros(s@) is None,
            },
    {
        let n = s.unicode_len();
        let mut i: usize = 0;
        let mut neg = false;
        let mut signed = false;
        if n > 0 {
            let c0 = s.get_char(0);
            if c0 == '-' {
                neg = true;
                signed = true;
                i = 1;
            } else if c0 == '+' {
                signed = true;
                i = 1;
            }
        }
        let ghost off = i as int;
        let ghost t = s@.skip(off);
        proof {
            assert(t.len() == n - off);
            assert(forall|j: int| 0 <= j < t.len() ==> t[j] == s@[j + off]);
            if off == 0 {
                assert(s@.skip(0) =~= s@);
            }
            // which branch of `token_micros` this run of the parser is in
            assert(token_micros(s@) == (if valid_unsigned(t) {
                if neg {
                    Some(-unsigned_micros(t))
                } else {
                    Some(unsigned_micros(t))
                }
            } else {
                None::<int>
            }));
            lemma_first_dot(t);
            lemma_pow10_vals();
        }
        let mut acc: i64 = 0;
        let mut cnt: usize = 0;
        loop
            invariant
                n == s@.len(),
                off <= i <= n,
                off == (if signed { 1int } else { 0int }),
                t == s@.skip(off),
                cnt == i - off,
                cnt <= 12,
                forall|j: int| 0 <= j < cnt ==> is_digit(#[trigger] t[j]),
                acc == digits_val(t.subrange(0, cnt as int)),
                0 <= acc < pow10(cnt as nat),
                pow10(12) == 1_000_000_000_000,
                (token_micros(s@) == (if valid_unsigned(t) {
                    if neg {
                        Some(-unsigned_micros(t))
                    } else {
                        Some(unsigned_micros(t))
                    }
                } else {
                    None::<int>
                })),
            ensures
                n == s@.len(),
                off <= i <= n,
                cnt == i - off,
                cnt <= 12,
                forall|j: int| 0 <= j < cnt ==> is_digit(#[trigger] t[j]),
                acc == digits_val(t.subrange(0, cnt as int)),
                0 <= acc < pow10(cnt as nat),
                i == n || !is_digit(s@[i as int]),
            decreases n - i,
        {
            if i >= n {
                break ;
            }
            let c = s.get_char(i);
            if !('0' <= c && c <= '9') {
                break ;
            }
            if cnt == 12 {
                // a thirteenth integral digit: the token is out of range
                proof {
                    lemma_first_dot(t);
                    let fd = first_dot(t);
                    assert(t[i - off] == s@[i as int]);
                    assert(is_digit(t[i - off]));
                    assert(forall|j: int| 0 <= j <= cnt ==> is_digit(#[trigger] t[j]));
                    if fd <= 12 {
                        assert(fd < t.len());
                        assert(t[fd] == '.');
                        assert(is_digit(t[fd]));
                        assert(false);
                    }
                    assert(int_part(t).len() > 12);
                }
                return None;
            }
            proof {
                lemma_pow10_monotone(cnt as nat, 11);
                lemma_digits_val_step(t, cnt as int);
                assert(t[i - off] == s@[i as int]);
            }
            acc = acc * 10 + ((c as u32 - '0' as u32) as i64);
            cnt = cnt + 1;
            i = i + 1;
        }
        if i == n {
            // no dot: the whole token is its integral part
            proof {
                let fd = first_dot(t);
                if fd < t.len() {
                    assert(t[fd] == '.');
                    assert(is_digit(t[fd]));
                    assert(false);
                }
                assert(int_part(t) =~= t.subrange(0, cnt as int));
                assert(frac_part(t) =~= Seq::<char>::empty());
            }
            if cnt == 0 {
                return None;
            }
            proof {
                lemma_pow10_vals();
                lemma_pow10_monotone(cnt as nat, 12);
                assert(all_digits(int_part(t)));
                assert(valid_unsigned(t));
                assert(unsigned_micros(t) == acc * 1_000_000 + 0 * pow10(6));
                assert(0 * pow10(6) == 0);
                assert(acc * 1_000_000 < 1_000_000_000_000_000_000) by (nonlinear_arith)
                    requires
                        0 <= acc < 1_000_000_000_000,
                ;
                assert(acc * 1_000_000 >= 0) by (nonlinear_arith)
                    requires
                        acc >= 0,
                ;
            }
            let m = acc * 1_000_000;
            let m = if neg {
                -m
            } else {
                m
            };
            return Some(Value { micros: m });
        }
        let c = s.get_char(i);
        let ghost fd = i as int - off;
        proof {
            // the scan stopped inside the token: on the dot or on a bad character
            assert(t[fd] == s@[i as int]);
        }
        if c != '.' {
            proof {
                assert(!is_digit(t[fd]));
                if first_dot(t) <= fd {
                    assert(t[first_dot(t)] == '.');
                    assert(first_dot(t) < fd ==> is_digit(t[first_dot(t)]));
                    assert(false);
                }
                assert(int_part(t)[fd] == t[fd]);
                assert(!all_digits(int_part(t)));
            }
            return None;
        }
        proof {
            // the dot the scan found is the first one
            if first_dot(t) < fd {
                assert(is_digit(t[first_dot(t)]));
                assert(t[first_dot(t)] == '.');
                assert(false);
            }
            assert(first_dot(t) == fd);
            assert(int_part(t) =~= t.subrange(0, cnt as int));
        }
        let flen = n - i - 1;
        let ghost fp = frac_part(t);
        proof {
            assert(fp =~= t.subrange(fd + 1, t.len() as int));
            assert(fp.len() == flen);
            assert(forall|k: int| 0 <= k < fp.len() ==> fp[k] == s@[i + 1 + k]);
        }
        if flen > 6 {
            return None;
        }
        if cnt == 0 && flen == 0 {
            return None;
        }
        let mut k: usize = 0;
        let mut facc: i64 = 0;
        while k < flen
            invariant
                n == s@.len(),
                i + 1 + flen == n,
                i < n,
                flen <= 6,
                k <= flen,
                fp.len() == flen,
                forall|j: int| 0 <= j < fp.len() ==> fp[j] == s@[i + 1 + j],
                forall|j: int| 0 <= j < k ==> is_digit(#[trigger] fp[j]),
                facc == digits_val(fp.subrange(0, k as int)),
                0 <= facc < pow10(k as nat),
                pow10(6) == 1_000_000,
                fp == frac_part(t),
                (token_micros(s@) == (if valid_unsigned(t) {
                    if neg {
                        Some(-unsigned_micros(t))
                    } else {
                        Some(unsigned_micros(t))
                    }
                } else {
                    None::<int>
                })),
            decreases flen - k,
        {
            let c = s.get_char(i + 1 + k);
            if !('0' <= c && c <= '9') {
                proof {
                    assert(fp[k as int] == s@[i + 1 + k]);
                    assert(!is_digit(fp[k as int]));
                    assert(!all_digits(fp));
                    assert(!valid_unsigned(t));
                }
                return None;
            }
            proof {
                lemma_pow10_monotone(k as nat, 5);
                lemma_pow10_vals();
                assert(pow10(5) == 100_000) by {
                    reveal_with_fuel(pow10, 13);
                }
                lemma_digits_val_step(fp, k as int);
                assert(fp[k as int] == s@[i + 1 + k]);
            }
            facc = facc * 10 + ((c as u32 - '0' as u32) as i64);
            k = k + 1;
        }
        proof {
            lemma_pow10_vals();
            lemma_pow10_monotone(cnt as nat, 12);
            assert(fp.subrange(0, flen as int) =~= fp);
            assert(all_digits(int_part(t)));
            assert(all_digits(frac_part(t)));
            assert(valid_unsigned(t));
        }
        let scale = pow10_small(6 - flen);
        proof {
            assert(unsigned_micros(t) == acc * 1_000_000 + facc * pow10((6 - flen) as nat));
            assert(acc * 1_000_000 < 1_000_000_000_000_000_000) by (nonlinear_arith)
                requires
                    0 <= acc < 1_000_000_000_000,
            ;
            assert(acc * 1_000_000 >= 0) by (nonlinear_arith)
                requires
                    acc >= 0,
            ;
            assert(pow10(flen as nat) * scale == 1_000_000) by {
                lemma_pow10_add(flen as nat, (6 - flen) as nat);
                lemma_pow10_vals();
            }
            assert(0 <= facc * scale < 1_000_000) by (nonlinear_arith)
                requires
                    0 <= facc < pow10(flen as nat),
                    1 <= scale,
                    pow10(flen as nat) * scale == 1_000_000,
            ;
            lemma_pow10_pos((6 - flen) as nat);
        }
        let m = acc * 1_000_000 + facc * scale;
        let m = if neg {
            -m
        } else {
            m
        };
        Some(Value { micros: m })
    }
}

/// Ten to a small power, for scaling fractional digits.
fn pow10_small(k: usize) -> (r: i64)
    requires
        k <= 6,
    ensures
        r == pow10(k as nat),
        1 <= r <= 1_000_000,
{
    proof {
        reveal_with_fuel(pow10, 13);
    }
    if k == 0 {
        1
    } else if k == 1 {
        10
    } else if k == 2 {
        100
    } else if k == 3 {
        1_000
    } else if k == 4 {
        10_000
    } else if k == 5 {
        100_000
    } else {
        1_000_000
    }
}

} // verus!
