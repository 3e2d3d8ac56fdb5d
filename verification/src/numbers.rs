//! Unsigned integers written in decimal or hexadecimal.

use vstd::prelude::*;

verus! {

/// The value of `c` as a digit in base `radix` (2 to 36), as `char::to_digit` gives it.
pub open spec fn digit_value(c: char, radix: nat) -> Option<nat> {
    let v: int = if '0' <= c && c <= '9' {
        c as int - '0' as int
    } else if 'a' <= c && c <= 'z' {
        c as int - 'a' as int + 10
    } else if 'A' <= c && c <= 'Z' {
        c as int - 'A' as int + 10
    } else {
        36
    };
    if v < radix {
        Some(v as nat)
    } else {
        None
    }
}

/// Every character of `s` is a digit in base `radix`.
pub open spec fn all_digits(s: Seq<char>, radix: nat) -> bool {
    forall|i: int| 0 <= i < s.len() ==> (#[trigger] digit_value(s[i], radix)) is Some
}

/// The number that the digits `s` denote in base `radix` (a non-digit counts as 0).
pub open spec fn digits_value(s: Seq<char>, radix: nat) -> nat
    decreases s.len(),
{
    if s.len() == 0 {
        0
    } else {
        let d: nat = match digit_value(s.last(), radix) {
            Some(v) => v,
            None => 0,
        };
        digits_value(s.drop_last(), radix) * radix + d
    }
}

/// The digits of `s` once one leading `+` is set aside.
pub open spec fn unsigned_digits(s: Seq<char>) -> Seq<char> {
    if s.len() > 0 && s[0] == '+' {
        s.drop_first()
    } else {
        s
    }
}

/// What `from_str_radix` (and `str::parse`) of an unsigned integer type whose
/// largest value is `max` gives for `s`: an optional `+`, then at least one digit,
/// and nothing above `max`.
pub open spec fn parse_unsigned(s: Seq<char>, radix: nat, max: nat) -> Option<nat> {
    let d = unsigned_digits(s);
    if d.len() > 0 && all_digits(d, radix) && digits_value(d, radix) <= max {
        Some(digits_value(d, radix))
    } else {
        None
    }
}

/// A digit's value never makes a prefix worth more than the whole.
pub proof fn lemma_digits_value_prefix(s: Seq<char>, radix: nat, k: int)
    requires
        radix >= 1,
        0 <= k <= s.len(),
    ensures
        digits_value(s.take(k), radix) <= digits_value(s, radix),
    decreases s.len() - k,
{
    if k < s.len() {
        lemma_digits_value_prefix(s, radix, k + 1);
        let t = s.take(k + 1);
        assert(t.drop_last() =~= s.take(k));
        let a = digits_value(s.take(k), radix);
        assert(a * radix >= a) by (nonlinear_arith)
            requires
                radix >= 1,
        ;
    } else {
        assert(s.take(k) =~= s);
    }
}

proof fn lemma_step_bound(v: nat, d: nat, radix: nat, max: nat)
    requires
        radix >= 1,
        d <= max,
    ensures
        v <= (max - d) / (radix as int) <==> v * radix + d <= max,
{
    let q = (max - d) / (radix as int);
    assert(q * radix <= max - d) by (nonlinear_arith)
        requires
            q == (max - d) / (radix as int),
            radix >= 1,
            max - d >= 0,
    ;
    assert((q + 1) * radix > max - d) by (nonlinear_arith)
        requires
            q == (max - d) / (radix as int),
            radix >= 1,
            max - d >= 0,
    ;
    if v <= q {
        assert(v * radix <= q * radix) by (nonlinear_arith)
            requires
                v <= q,
                radix >= 1,
        ;
    } else {
        assert(v * radix >= (q + 1) * radix) by (nonlinear_arith)
            requires
                v >= q + 1,
                radix >= 1,
        ;
    }
}

/// The value of `c` as a digit in base `radix`.
pub fn digit_value_exec(c: char, radix: u64) -> (r: Option<u64>)
    requires
        2 <= radix <= 36,
    ensures
        r matches Some(v) ==> digit_value(c, radix as nat) == Some(v as nat),
        r is None ==> digit_value(c, radix as nat) is None,
{
    let v: u64 = if '0' <= c && c <= '9' {
        (c as u32 - '0' as u32) as u64
    } else if 'a' <= c && c <= 'z' {
        (c as u32 - 'a' as u32) as u64 + 10
    } else if 'A' <= c && c <= 'Z' {
        (c as u32 - 'A' as u32) as u64 + 10
    } else {
        36
    };
    if v < radix {
        Some(v)
    } else {
        None
    }
}

/// Reads `s` as an unsigned integer in base `radix` that must not exceed `max`,
/// as `from_str_radix` does for the unsigned type whose largest value is `max`.
pub fn parse_unsigned_exec(s: &Vec<char>, radix: u64, max: u64) -> (r: Option<u64>)
    requires
        2 <= radix <= 36,
    ensures
        r matches Some(v) ==> parse_unsigned(s@, radix as nat, max as nat) == Some(v as nat),
        r is None ==> parse_unsigned(s@, radix as nat, max as nat) is None,
{
    let n = s.len();
    let start: usize = if n > 0 && s[0] == '+' {
        1
    } else {
        0
    };
    let ghost d = unsigned_digits(s@);
    assert(d =~= s@.skip(start as int));
    if start >= n {
        return None;
    }
    let mut v: u64 = 0;
    let mut i: usize = start;
    assert(d.take(0) =~= Seq::<char>::empty());
    while i < n
        invariant
            start <= i <= n,
            n == s@.len(),
            d == s@.skip(start as int),
            d == unsigned_digits(s@),
            2 <= radix <= 36,
            v <= max,
            v as nat == digits_value(d.take(i - start), radix as nat),
            all_digits(d.take(i - start), radix as nat),
        decreases n - i,
    {
        let ghost k: int = i - start;
        let ghost pre = d.take(k + 1);
        assert(pre.drop_last() =~= d.take(k));
        assert(pre.last() == s@[i as int]);
        match digit_value_exec(s[i], radix) {
            None => {
                assert(d[k] == s@[i as int]);
                assert(digit_value(d[k], radix as nat) is None);
                assert(!all_digits(d, radix as nat));
                return None;
            },
            Some(dv) => {
                assert(d[k] == s@[i as int]);
                assert(digits_value(pre, radix as nat) == v * radix + dv);
                if dv > max {
                    proof {
                        lemma_digits_value_prefix(d, radix as nat, k + 1);
                        assert(v * radix >= 0) by (nonlinear_arith);
                    }
                    return None;
                }
                proof {
                    lemma_step_bound(v as nat, dv as nat, radix as nat, max as nat);
                }
                if v > (max - dv) / radix {
                    proof {
                        lemma_digits_value_prefix(d, radix as nat, k + 1);
                    }
                    return None;
                }
                v = v * radix + dv;
                i = i + 1;
                assert forall|j: int| 0 <= j < pre.len() implies (#[trigger] digit_value(
                    pre[j],
                    radix as nat,
                )) is Some by {
                    if j < k {
                        assert(pre[j] == d.take(k)[j]);
                    }
                }
            },
        }
    }
    assert(d.take(n - start) =~= d);
    Some(v)
}

/// The decimal digit character for `d` (below ten).
pub open spec fn digit_char(d: nat) -> char {
    (d + '0' as nat) as char
}

/// The decimal numeral of `n`, without leading zeros.
pub open spec fn decimal(n: nat) -> Seq<char>
    decreases n,
{
    if n < 10 {
        seq![digit_char(n)]
    } else {
        decimal(n / 10).push(digit_char(n % 10))
    }
}

fn digit_char_exec(d: u64) -> (c: char)
    requires
        d < 10,
    ensures
        c == digit_char(d as nat),
{
    let b: u8 = d as u8 + 48;
    b as char
}

/// Appends the decimal numeral of `n` to `out`.
pub fn push_decimal(n: u64, out: &mut Vec<char>)
    ensures
        final(out)@ == old(out)@ + decimal(n as nat),
    decreases n,
{
    if n >= 10 {
        push_decimal(n / 10, out);
    }
    out.push(digit_char_exec(n % 10));
    proof {
        if n >= 10 {
            assert(old(out)@ + decimal((n / 10) as nat) + seq![digit_char((n % 10) as nat)] =~= old(
                out,
            )@ + decimal(n as nat));
        } else {
            assert(old(out)@ + seq![digit_char(n as nat)] =~= old(out)@ + decimal(n as nat));
        }
    }
}

/// The decimal numeral of `n`.
pub fn decimal_chars(n: u64) -> (out: Vec<char>)
    ensures
        out@ == decimal(n as nat),
{
    let mut out: Vec<char> = Vec::new();
    push_decimal(n, &mut out);
    assert(out@ =~= decimal(n as nat));
    out
}

} // verus!

verus! {

/// The hexadecimal digit character for `d` (below sixteen), in capitals when
/// `upper` holds.
pub open spec fn hex_digit_char(d: nat, upper: bool) -> char {
    if d < 10 {
        (d + '0' as nat) as char
    } else if upper {
        (d - 10 + 'A' as nat) as char
    } else {
        (d - 10 + 'a' as nat) as char
    }
}

/// The hexadecimal numeral of `n` in small letters without leading zeros, as
/// `{:x}` writes it.
pub open spec fn hex_lower(n: nat) -> Seq<char>
    decreases n,
{
    if n < 16 {
        seq![hex_digit_char(n, false)]
    } else {
        hex_lower(n / 16).push(hex_digit_char(n % 16, false))
    }
}

/// The last `width` hexadecimal digits of `n`, zeros in front, as `{:0WIDTHX}`
/// (capitals) or `{:0WIDTHx}` writes a number below `16^width`.
pub open spec fn hex_fixed(n: nat, width: nat, upper: bool) -> Seq<char>
    decreases width,
{
    if width == 0 {
        seq![]
    } else {
        hex_fixed(n / 16, (width - 1) as nat, upper).push(hex_digit_char(n % 16, upper))
    }
}

/// Sixteen to the power `w`.
pub open spec fn pow16(w: nat) -> nat
    decreases w,
{
    if w == 0 {
        1
    } else {
        16 * pow16((w - 1) as nat)
    }
}

proof fn lemma_hex_digit(d: nat, upper: bool)
    requires
        d < 16,
    ensures
        digit_value(hex_digit_char(d, upper), 16) == Some(d),
        hex_digit_char(d, upper) != ':',
        hex_digit_char(d, upper) != '+',
{
}

proof fn lemma_div16(n: nat)
    ensures
        n == (n / 16) * 16 + n % 16,
        n % 16 < 16,
{
    vstd::arithmetic::div_mod::lemma_fundamental_div_mod(n as int, 16);
}

/// The lowercase numeral of `n` is made of hexadecimal digits (no `:`, no `+`)
/// worth `n`.
pub proof fn lemma_hex_lower_value(n: nat)
    ensures
        hex_lower(n).len() > 0,
        all_digits(hex_lower(n), 16),
        digits_value(hex_lower(n), 16) == n,
        !hex_lower(n).contains(':'),
        hex_lower(n)[0] != '+',
    decreases n,
{
    let s = hex_lower(n);
    if n < 16 {
        lemma_hex_digit(n, false);
        assert(s.drop_last() =~= Seq::<char>::empty());
        assert(digits_value(s.drop_last(), 16) == 0);
        assert(s.last() == hex_digit_char(n, false));
        assert(digits_value(s, 16) == 0 * 16 + n);
    } else {
        lemma_hex_lower_value(n / 16);
        lemma_div16(n);
        lemma_hex_digit(n % 16, false);
        let t = hex_lower(n / 16);
        assert(s.drop_last() =~= t);
        assert(s.last() == hex_digit_char(n % 16, false));
        assert(digits_value(s, 16) == digits_value(t, 16) * 16 + n % 16);
        assert(s[0] == t[0]);
        assert forall|i: int| 0 <= i < s.len() implies (#[trigger] digit_value(s[i], 16)) is Some by {
            if i < t.len() {
                assert(s[i] == t[i]);
            }
        }
        assert(!s.contains(':')) by {
            if s.contains(':') {
                let i = choose|i: int| 0 <= i < s.len() && s[i] == ':';
                if i < t.len() {
                    assert(s[i] == t[i]);
                }
            }
        }
    }
}

/// The fixed-width numeral of `n` below `16^width` is made of hexadecimal
/// digits (no `:`, no `+`) worth `n`.
pub proof fn lemma_hex_fixed_value(n: nat, width: nat, upper: bool)
    requires
        n < pow16(width),
    ensures
        hex_fixed(n, width, upper).len() == width,
        all_digits(hex_fixed(n, width, upper), 16),
        digits_value(hex_fixed(n, width, upper), 16) == n,
        !hex_fixed(n, width, upper).contains(':'),
        width > 0 ==> hex_fixed(n, width, upper)[0] != '+',
    decreases width,
{
    let s = hex_fixed(n, width, upper);
    if width > 0 {
        let w1 = (width - 1) as nat;
        lemma_div16(n);
        assert(n / 16 < pow16(w1)) by (nonlinear_arith)
            requires
                n == (n / 16) * 16 + n % 16,
                n % 16 >= 0,
                n < 16 * pow16(w1),
        ;
        lemma_hex_fixed_value(n / 16, w1, upper);
        lemma_hex_digit(n % 16, upper);
        let t = hex_fixed(n / 16, w1, upper);
        assert(s.drop_last() =~= t);
        if w1 > 0 {
            assert(s[0] == t[0]);
        }
        assert forall|i: int| 0 <= i < s.len() implies (#[trigger] digit_value(s[i], 16)) is Some by {
            if i < t.len() {
                assert(s[i] == t[i]);
            }
        }
        assert(!s.contains(':')) by {
            if s.contains(':') {
                let i = choose|i: int| 0 <= i < s.len() && s[i] == ':';
                if i < t.len() {
                    assert(s[i] == t[i]);
                }
            }
        }
    } else {
        assert(s =~= Seq::<char>::empty());
    }
}

} // verus!
