//! Fixed-point decimal values.
//!
//! Prices and volumes arrive on the wire as decimal strings ("5711.80000").
//! The book stores them as unsigned integers scaled by a fixed power of ten,
//! so that matching, ordering and the canonical checksum encoding are exact
//! integer operations.

use vstd::prelude::*;

verus! {

/// True when `c` is an ASCII decimal digit.
pub open spec fn is_digit(c: char) -> bool {
    48 <= c as int && c as int <= 57
}

/// Numeric value of one ASCII digit.
pub open spec fn digit_val(c: char) -> int {
    c as int - 48
}

/// True when every character of `s` is an ASCII decimal digit.
pub open spec fn all_digits(s: Seq<char>) -> bool {
    forall|i: int| 0 <= i < s.len() ==> is_digit(#[trigger] s[i])
}

/// Value of a digit string read in base ten; the empty string has value 0.
pub open spec fn digits_val(s: Seq<char>) -> int
    decreases s.len(),
{
    if s.len() == 0 {
        0
    } else {
        digits_val(s.drop_last()) * 10 + digit_val(s.last())
    }
}

/// Ten to the power `n`.
pub open spec fn pow10(n: nat) -> nat
    decreases n,
{
    if n == 0 {
        1
    } else {
        10 * pow10((n - 1) as nat)
    }
}

/// Index of the first `'.'` in `s`, or `s.len()` when there is none.
pub open spec fn dot_pos(s: Seq<char>) -> int
    decreases s.len(),
{
    if s.len() == 0 {
        0
    } else if s[0] == '.' {
        0
    } else {
        1 + dot_pos(s.drop_first())
    }
}

/// Integer part of `s`: everything before the first dot.
pub open spec fn int_part(s: Seq<char>) -> Seq<char> {
    s.subrange(0, dot_pos(s))
}

/// Fractional part of `s`: everything after the first dot, empty when
/// there is no dot.
pub open spec fn frac_part(s: Seq<char>) -> Seq<char> {
    if dot_pos(s) < s.len() {
        s.subrange(dot_pos(s) + 1, s.len() as int)
    } else {
        Seq::empty()
    }
}

/// True when `s` is a plain decimal numeral that a value scaled by
/// `10^scale` can represent exactly: digits with at most one dot, at least
/// one digit in all, and no more than `scale` fractional digits.
pub open spec fn fixed_grammar(s: Seq<char>, scale: nat) -> bool {
    &&& all_digits(int_part(s))
    &&& all_digits(frac_part(s))
    &&& int_part(s).len() + frac_part(s).len() > 0
    &&& frac_part(s).len() <= scale
}

/// Mathematical value of `s` scaled by `10^scale`.
pub open spec fn fixed_val(s: Seq<char>, scale: nat) -> int {
    digits_val(int_part(s)) * pow10(scale) + digits_val(frac_part(s)) * pow10(
        (scale - frac_part(s).len()) as nat,
    )
}

/// Result of parsing `s` as a decimal scaled by `10^scale`: the scaled
/// value when `s` fits the grammar and the value fits in a `u64`, and
/// nothing otherwise.
pub open spec fn spec_parse_fixed(s: Seq<char>, scale: nat) -> Option<u64> {
    if fixed_grammar(s, scale) && fixed_val(s, scale) <= u64::MAX {
        Some(fixed_val(s, scale) as u64)
    } else {
        None
    }
}

proof fn lemma_digits_val_nonneg(s: Seq<char>)
    requires
        all_digits(s),
    ensures
        digits_val(s) >= 0,
    decreases s.len(),
{
    if s.len() > 0 {
        assert(all_digits(s.drop_last())) by {
            assert(forall|i: int|
                0 <= i < s.drop_last().len() ==> #[trigger] s.drop_last()[i] == s[i]);
        }
        lemma_digits_val_nonneg(s.drop_last());
    }
}

proof fn lemma_pow10_pos(n: nat)
    ensures
        pow10(n) >= 1,
    decreases n,
{
    if n > 0 {
        lemma_pow10_pos((n - 1) as nat);
    }
}

/// Appending digits never lowers the value of a digit string.
proof fn lemma_digits_val_extend(s: Seq<char>, c: char)
    requires
        all_digits(s),
        is_digit(c),
    ensures
        digits_val(s.push(c)) == digits_val(s) * 10 + digit_val(c),
        digits_val(s.push(c)) >= digits_val(s),
{
    assert(s.push(c).drop_last() =~= s);
    assert(s.push(c).last() == c);
    lemma_digits_val_nonneg(s);
    assert(digits_val(s) * 10 >= digits_val(s)) by (nonlinear_arith)
        requires
            digits_val(s) >= 0,
    ;
}

/// A digit string is worth at least any of its prefixes.
proof fn lemma_digits_val_prefix(s: Seq<char>, n: int)
    requires
        all_digits(s),
        0 <= n <= s.len(),
    ensures
        digits_val(s) >= digits_val(s.subrange(0, n)),
    decreases s.len() - n,
{
    if n < s.len() {
        let t = s.subrange(0, n + 1);
        assert(t =~= s.subrange(0, n).push(s[n]));
        lemma_digits_val_extend(s.subrange(0, n), s[n]);
        lemma_digits_val_prefix(s, n + 1);
        assert(s.subrange(0, s.len() as int) =~= s);
    } else {
        assert(s.subrange(0, n) =~= s);
    }
}

/// The first-dot position characterized without recursion: everything
/// before it differs from `'.'`, and it is a dot unless it is the end.
proof fn lemma_dot_pos(s: Seq<char>)
    ensures
        0 <= dot_pos(s) <= s.len(),
        dot_pos(s) < s.len() ==> s[dot_pos(s)] == '.',
        forall|j: int| 0 <= j < dot_pos(s) ==> s[j] != '.',
    decreases s.len(),
{
    if s.len() > 0 && s[0] != '.' {
        lemma_dot_pos(s.drop_first());
        assert forall|j: int| 0 <= j < dot_pos(s) implies s[j] != '.' by {
            if j > 0 {
                assert(s.drop_first()[j - 1] == s[j]);
            }
        }
    }
}

/// Any position with no dot before it, and a dot at it or the end behind
/// it, is the first-dot position.
proof fn lemma_dot_pos_unique(s: Seq<char>, d: int)
    requires
        0 <= d <= s.len(),
        d < s.len() ==> s[d] == '.',
        forall|j: int| 0 <= j < d ==> s[j] != '.',
    ensures
        dot_pos(s) == d,
    decreases s.len(),
{
    if s.len() > 0 && s[0] != '.' {
        assert(d >= 1);
        assert(forall|j: int| 0 <= j < s.drop_first().len() ==> s.drop_first()[j] == s[j + 1]);
        lemma_dot_pos_unique(s.drop_first(), d - 1);
    }
}

/// Reads the digit string `s[from..to]` as a `u64`.
///
/// Returns the value exactly when every character in the range is a digit
/// and the value fits; reports failure otherwise.
fn scan_digits(s: &str, from: usize, to: usize) -> (r: Option<u64>)
    requires
        from <= to <= s@.len(),
    ensures
        r is Some <==> (all_digits(s@.subrange(from as int, to as int)) && digits_val(
            s@.subrange(from as int, to as int),
        ) <= u64::MAX),
        r is Some ==> r->0 == digits_val(s@.subrange(from as int, to as int)),
{
    let ghost whole = s@.subrange(from as int, to as int);
    let mut i: usize = from;
    let mut acc: u64 = 0;
    while i < to
        invariant
            from <= i <= to <= s@.len(),
            whole == s@.subrange(from as int, to as int),
            all_digits(s@.subrange(from as int, i as int)),
            acc == digits_val(s@.subrange(from as int, i as int)),
        decreases to - i,
    {
        let ghost pref = s@.subrange(from as int, i as int);
        let c = s.get_char(i);
        let u = c as u32;
        if u < 48 || u > 57 {
            proof {
                assert(whole[i - from] == c);
                assert(!is_digit(c));
            }
            return None;
        }
        let d: u64 = (u - 48) as u64;
        proof {
            assert(is_digit(c));
            assert(d == digit_val(c));
            lemma_digits_val_extend(pref, c);
            assert(s@.subrange(from as int, i + 1 as int) =~= pref.push(c));
        }
        let step = acc.checked_mul(10);
        let next = match step {
            Some(m) => m.checked_add(d),
            None => None,
        };
        match next {
            Some(v) => {
                acc = v;
            },
            None => {
                proof {
                    // The prefix through `c` is already too large, and a
                    // digit string is worth at least any of its prefixes.
                    if all_digits(whole) {
                        assert(pref.push(c) =~= whole.subrange(0, i + 1 - from));
                        lemma_digits_val_prefix(whole, i + 1 - from);
                    }
                }
                return None;
            },
        }
        i = i + 1;
    }
    proof {
        assert(s@.subrange(from as int, i as int) =~= whole);
    }
    Some(acc)
}

/// Multiplies `x` by `10^k`, reporting failure on overflow.
fn mul_pow10(x: u64, k: u64) -> (r: Option<u64>)
    ensures
        r is Some <==> x * pow10(k as nat) <= u64::MAX,
        r is Some ==> r->0 == x * pow10(k as nat),
{
    let mut j: u64 = 0;
    let mut cur: u64 = x;
    proof {
        lemma_pow10_pos(k as nat);
        assert(pow10(0) == 1);
        assert(cur == x * pow10(0));
    }
    while j < k
        invariant
            0 <= j <= k,
            cur == x * pow10(j as nat),
            x * pow10(k as nat) <= u64::MAX ==> cur * pow10((k - j) as nat) <= u64::MAX,
            x * pow10(k as nat) > u64::MAX ==> cur * pow10((k - j) as nat) > u64::MAX,
        decreases k - j,
    {
        proof {
            lemma_pow10_pos((k - j - 1) as nat);
            assert(pow10((k - j) as nat) == 10 * pow10((k - j - 1) as nat));
            assert(cur * pow10((k - j) as nat) == (cur * 10) * pow10((k - j - 1) as nat))
                by (nonlinear_arith)
                requires
                    pow10((k - j) as nat) == 10 * pow10((k - j - 1) as nat),
            ;
        }
        match cur.checked_mul(10) {
            Some(m) => {
                proof {
                    assert(x * pow10(j as nat) * 10 == x * pow10((j + 1) as nat))
                        by (nonlinear_arith)
                        requires
                            pow10((j + 1) as nat) == 10 * pow10(j as nat),
                    ;
                }
                cur = m;
            },
            None => {
                proof {
                    // cur * 10 already exceeds u64::MAX, and the remaining
                    // factor is at least one.
                    let rest = pow10((k - j - 1) as nat);
                    assert((cur * 10) * rest >= cur * 10) by (nonlinear_arith)
                        requires
                            rest >= 1,
                            cur * 10 >= 0,
                    ;
                }
                return None;
            },
        }
        j = j + 1;
    }
    proof {
        assert(pow10(0) == 1);
    }
    Some(cur)
}

/// Parses `s` as a decimal numeral scaled by `10^scale`.
///
/// The result is exactly what [`spec_parse_fixed`] describes: digits with
/// at most one dot, at least one digit, at most `scale` fractional digits,
/// and a scaled value that fits in a `u64`.
pub fn parse_fixed(s: &str, scale: u64) -> (r: Option<u64>)
    ensures
        r == spec_parse_fixed(s@, scale as nat),
{
    proof {
        lemma_dot_pos(s@);
        lemma_pow10_pos(scale as nat);
    }
    let n = s.unicode_len();
    let mut d: usize = 0;
    while d < n && s.get_char(d) != '.'
        invariant
            0 <= d <= n == s@.len(),
            forall|j: int| 0 <= j < d ==> s@[j] != '.',
        decreases n - d,
    {
        d = d + 1;
    }
    proof {
        lemma_dot_pos_unique(s@, d as int);
    }
    let ghost ip = int_part(s@);
    let ghost fp = frac_part(s@);
    let ip_val = match scan_digits(s, 0, d) {
        Some(v) => v,
        None => {
            proof {
                if all_digits(ip) {
                    // Only overflow can have stopped the scan, and the
                    // full scaled value is at least the integer part.
                    if fixed_grammar(s@, scale as nat) {
                        lemma_digits_val_nonneg(ip);
                        lemma_digits_val_nonneg(fp);
                        lemma_pow10_pos((scale - fp.len()) as nat);
                        assert(digits_val(ip) * pow10(scale as nat) >= digits_val(ip))
                            by (nonlinear_arith)
                            requires
                                digits_val(ip) >= 0,
                                pow10(scale as nat) >= 1,
                        ;
                        assert(digits_val(fp) * pow10((scale - fp.len()) as nat) >= 0)
                            by (nonlinear_arith)
                            requires
                                digits_val(fp) >= 0,
                                pow10((scale - fp.len()) as nat) >= 1,
                        ;
                    }
                }
            }
            return None;
        },
    };
    let mut fp_val: u64 = 0;
    let mut fp_len: u64 = 0;
    if d < n {
        fp_len = (n - d - 1) as u64;
        fp_val = match scan_digits(s, d + 1, n) {
            Some(v) => v,
            None => {
                proof {
                    if all_digits(fp) && fixed_grammar(s@, scale as nat) {
                        lemma_digits_val_nonneg(ip);
                        lemma_digits_val_nonneg(fp);
                        lemma_pow10_pos((scale - fp.len()) as nat);
                        assert(digits_val(fp) * pow10((scale - fp.len()) as nat) >= digits_val(
                            fp,
                        )) by (nonlinear_arith)
                            requires
                                digits_val(fp) >= 0,
                                pow10((scale - fp.len()) as nat) >= 1,
                        ;
                        assert(digits_val(ip) * pow10(scale as nat) >= 0) by (nonlinear_arith)
                            requires
                                digits_val(ip) >= 0,
                                pow10(scale as nat) >= 1,
                        ;
                    }
                }
                return None;
            },
        };
    }
    proof {
        assert(ip.len() == d);
        assert(fp.len() == fp_len);
    }
    if d == 0 && fp_len == 0 {
        proof {
            assert(!fixed_grammar(s@, scale as nat));
        }
        return None;
    }
    if fp_len > scale {
        proof {
            assert(!fixed_grammar(s@, scale as nat));
        }
        return None;
    }
    proof {
        assert(fixed_grammar(s@, scale as nat));
        lemma_digits_val_nonneg(ip);
        lemma_digits_val_nonneg(fp);
    }
    let hi = match mul_pow10(ip_val, scale) {
        Some(v) => v,
        None => {
            proof {
                lemma_pow10_pos((scale - fp.len()) as nat);
                assert(digits_val(fp) * pow10((scale - fp.len()) as nat) >= 0)
                    by (nonlinear_arith)
                    requires
                        digits_val(fp) >= 0,
                        pow10((scale - fp.len()) as nat) >= 1,
                ;
            }
            return None;
        },
    };
    let lo = match mul_pow10(fp_val, scale - fp_len) {
        Some(v) => v,
        None => {
            proof {
                lemma_pow10_pos(scale as nat);
                assert(digits_val(ip) * pow10(scale as nat) >= 0) by (nonlinear_arith)
                    requires
                        digits_val(ip) >= 0,
                        pow10(scale as nat) >= 1,
                ;
            }
            return None;
        },
    };
    match hi.checked_add(lo) {
        Some(v) => Some(v),
        None => None,
    }
}

/// Result of parsing `s` as an unsigned 32-bit decimal: the value when
/// `s` is all digits, non-empty and in range, and nothing otherwise.
pub open spec fn spec_parse_checksum(s: Seq<char>) -> Option<u32> {
    if all_digits(s) && s.len() > 0 && digits_val(s) <= u32::MAX {
        Some(digits_val(s) as u32)
    } else {
        None
    }
}

/// Parses `s` as an unsigned 32-bit decimal numeral, exactly as
/// [`spec_parse_checksum`] describes.
pub fn parse_checksum(s: &str) -> (r: Option<u32>)
    ensures
        r == spec_parse_checksum(s@),
{
    let n = s.unicode_len();
    if n == 0 {
        return None;
    }
    proof {
        assert(s@.subrange(0, n as int) =~= s@);
    }
    match scan_digits(s, 0, n) {
        Some(v) => {
            if v <= 0xFFFF_FFFF {
                Some(v as u32)
            } else {
                None
            }
        },
        None => None,
    }
}

/// Decimal digits of `n` as ASCII bytes, with no leading zeros; zero
/// itself yields the empty sequence.
///
/// This is exactly the canonical checksum segment for a scaled value:
/// formatting with all `scale` decimal places, dropping the dot, and then
/// stripping every leading `'0'` leaves the plain decimal digits of the
/// scaled integer, and strips an all-zero rendering down to nothing.
pub open spec fn dec_bytes(n: nat) -> Seq<u8>
    decreases n,
{
    if n == 0 {
        Seq::empty()
    } else {
        dec_bytes(n / 10).push((48 + n % 10) as u8)
    }
}

/// Appends the decimal digits of `n` (none for zero) to `out`.
pub fn push_dec(n: u64, out: &mut Vec<u8>)
    ensures
        final(out)@ == old(out)@ + dec_bytes(n as nat),
    decreases n,
{
    if n == 0 {
        proof {
            assert(old(out)@ + dec_bytes(0) =~= old(out)@);
        }
        return ;
    }
    push_dec(n / 10, out);
    out.push((48 + (n % 10) as u8) as u8);
    proof {
        assert(old(out)@ + dec_bytes(n as nat) =~= (old(out)@ + dec_bytes((n / 10) as nat)).push(
            (48 + n as nat % 10) as u8,
        ));
    }
}

/// A value below `10^k` has at most `k` decimal digits.
proof fn lemma_dec_len(n: nat, k: nat)
    requires
        n < pow10(k),
    ensures
        dec_bytes(n).len() <= k,
    decreases n,
{
    if n > 0 {
        lemma_pow10_pos(k);
        assert(k >= 1) by {
            if k == 0 {
                assert(pow10(0) == 1);
            }
        }
        assert(n / 10 < pow10((k - 1) as nat)) by (nonlinear_arith)
            requires
                n < 10 * pow10((k - 1) as nat),
                pow10((k - 1) as nat) >= 1,
        ;
        lemma_dec_len(n / 10, (k - 1) as nat);
    }
}

/// Decimal digit bytes are ASCII.
proof fn lemma_dec_bytes_ascii(n: nat)
    ensures
        forall|i: int| 0 <= i < dec_bytes(n).len() ==> 48 <= #[trigger] dec_bytes(n)[i] <= 57,
    decreases n,
{
    if n > 0 {
        lemma_dec_bytes_ascii(n / 10);
        assert forall|i: int| 0 <= i < dec_bytes(n).len() implies 48 <= #[trigger] dec_bytes(
            n,
        )[i] <= 57 by {
            if i < dec_bytes(n / 10).len() {
                assert(dec_bytes(n)[i] == dec_bytes(n / 10)[i]);
            } else {
                assert(dec_bytes(n)[i] == (48 + n % 10) as u8);
            }
        }
    }
}

/// Ten to the power of a larger exponent is no smaller.
proof fn lemma_pow10_monotone(a: nat, b: nat)
    requires
        a <= b,
    ensures
        pow10(a) <= pow10(b),
    decreases b,
{
    if a < b {
        lemma_pow10_monotone(a, (b - 1) as nat);
        lemma_pow10_pos((b - 1) as nat);
    }
}

/// The characters the ASCII bytes of `bytes` spell.
pub open spec fn chars_of(bytes: Seq<u8>) -> Seq<char> {
    bytes.map_values(|b: u8| b as char)
}

/// Decimal digits of `n`, with a single zero digit for zero itself.
pub open spec fn whole_bytes(n: nat) -> Seq<u8> {
    if n == 0 {
        seq![48u8]
    } else {
        dec_bytes(n)
    }
}

/// `s` filled with leading zero digits up to width `w`.
pub open spec fn pad_zeros(s: Seq<u8>, w: nat) -> Seq<u8> {
    Seq::new((w - s.len()) as nat, |i: int| 48u8) + s
}

/// The wire text of a value scaled by `10^scale`: the whole part, a dot,
/// and exactly `scale` fractional digits.
pub open spec fn spec_fixed_text(value: u64, scale: nat) -> Seq<char> {
    chars_of(
        whole_bytes(value as nat / pow10(scale)) + seq![46u8] + pad_zeros(
            dec_bytes(value as nat % pow10(scale)),
            scale,
        ),
    )
}

/// Relies on String::from_utf8: bytes that are ASCII decode to exactly
/// those characters.
#[verifier::external_body]
fn ascii_to_string(bytes: Vec<u8>) -> (r: String)
    requires
        forall|i: int| 0 <= i < bytes@.len() ==> bytes@[i] < 128,
    ensures
        r@ == chars_of(bytes@),
{
    String::from_utf8(bytes).unwrap_or_default()
}

/// Renders a fixed-point value as its decimal wire text, exactly as
/// [`spec_fixed_text`] describes: "5711.80000" for 571180000 at five
/// decimal places.
pub fn fixed_text(value: u64, scale: u64) -> (r: String)
    requires
        scale <= 19,
    ensures
        r@ == spec_fixed_text(value, scale as nat),
{
    proof {
        reveal_with_fuel(pow10, 21);
        assert(pow10(19) == 10000000000000000000);
        lemma_pow10_monotone(scale as nat, 19);
    }
    let p = match mul_pow10(1, scale) {
        Some(p) => p,
        None => {
            proof {
                assert(false);
            }
            1
        },
    };
    let whole = value / p;
    let frac = value % p;
    let mut buf: Vec<u8> = Vec::new();
    if whole == 0 {
        buf.push(48);
    } else {
        push_dec(whole, &mut buf);
    }
    buf.push(46);
    let ghost head = buf@;
    let mut frac_digits: Vec<u8> = Vec::new();
    push_dec(frac, &mut frac_digits);
    proof {
        lemma_dec_len(frac as nat, scale as nat);
    }
    let pad = scale - (frac_digits.len() as u64);
    let mut z: u64 = 0;
    while z < pad
        invariant
            0 <= z <= pad,
            buf@ == head + Seq::new(z as nat, |i: int| 48u8),
        decreases pad - z,
    {
        buf.push(48);
        proof {
            assert(buf@ =~= head + Seq::new((z + 1) as nat, |i: int| 48u8));
        }
        z = z + 1;
    }
    let mut tail = frac_digits;
    buf.append(&mut tail);
    proof {
        lemma_dec_bytes_ascii(whole as nat);
        lemma_dec_bytes_ascii(frac as nat);
        assert(buf@ =~= whole_bytes(whole as nat) + seq![46u8] + pad_zeros(
            dec_bytes(frac as nat),
            scale as nat,
        ));
        assert(forall|i: int| 0 <= i < buf@.len() ==> buf@[i] < 128);
    }
    ascii_to_string(buf)
}

} // verus!
