//! Decimal text for the values the bridge emits and reads back.
//!
//! Every variable leaves the parser as its canonical decimal string:
//! unsigned and signed integers in plain decimal, and the two IEEE-754
//! wire types with exactly six fractional digits. The same grammar is
//! read back for bit extraction and for re-encoding, so formatting and
//! parsing are defined against one family of spec functions and proved
//! to round-trip.

use vstd::prelude::*;

verus! {

/// The decimal digit character for `d` in `[0, 10)`.
pub open spec fn digit_char(d: int) -> char {
    if d == 0 {
        '0'
    } else if d == 1 {
        '1'
    } else if d == 2 {
        '2'
    } else if d == 3 {
        '3'
    } else if d == 4 {
        '4'
    } else if d == 5 {
        '5'
    } else if d == 6 {
        '6'
    } else if d == 7 {
        '7'
    } else if d == 8 {
        '8'
    } else {
        '9'
    }
}

/// Canonical decimal form of `n`: no sign, no leading zero (except "0").
pub open spec fn dec_str(n: nat) -> Seq<char>
    decreases n,
{
    if n < 10 {
        seq![digit_char(n as int)]
    } else {
        dec_str(n / 10).push(digit_char((n % 10) as int))
    }
}

/// Canonical decimal form of a signed value: '-' before the magnitude.
pub open spec fn dec_str_signed(v: int) -> Seq<char> {
    if v < 0 {
        seq!['-'] + dec_str((-v) as nat)
    } else {
        dec_str(v as nat)
    }
}

/// A single-character string slice for one decimal digit.
fn digit_literal(d: u8) -> (r: &'static str)
    requires
        d < 10,
    ensures
        r@ == seq![digit_char(d as int)],
{
    let r: &'static str = match d {
        0 => "0",
        1 => "1",
        2 => "2",
        3 => "3",
        4 => "4",
        5 => "5",
        6 => "6",
        7 => "7",
        8 => "8",
        _ => "9",
    };
    proof {
        reveal_strlit("0");
        reveal_strlit("1");
        reveal_strlit("2");
        reveal_strlit("3");
        reveal_strlit("4");
        reveal_strlit("5");
        reveal_strlit("6");
        reveal_strlit("7");
        reveal_strlit("8");
        reveal_strlit("9");
        assert(r@ =~= seq![digit_char(d as int)]);
    }
    r
}

/// The digit characters of `digits` (least significant first), read
/// most significant first, form the decimal string of its value when
/// the leading digit is not zero.
pub open spec fn digits_value(digits: Seq<u8>) -> nat
    decreases digits.len(),
{
    if digits.len() == 0 {
        0
    } else {
        digits[0] as nat + 10 * digits_value(digits.skip(1))
    }
}

/// All entries are decimal digits.
pub open spec fn digits_ok(digits: Seq<u8>) -> bool {
    forall|i: int| 0 <= i < digits.len() ==> digits[i] < 10
}

/// Little-endian digit vector rendered most-significant-first.
pub open spec fn digits_chars(digits: Seq<u8>) -> Seq<char> {
    digits.reverse().map(|_i: int, d: u8| digit_char(d as int))
}

proof fn lemma_digits_value_bound(digits: Seq<u8>)
    requires
        digits_ok(digits),
        digits.len() > 0,
        digits[digits.len() - 1] > 0,
    ensures
        digits_value(digits) >= pow10((digits.len() - 1) as nat),
    decreases digits.len(),
{
    if digits.len() == 1 {
        assert(digits_value(digits) == digits[0] as nat + 10 * digits_value(digits.skip(1)));
    } else {
        let tail = digits.skip(1);
        assert(tail[tail.len() - 1] == digits[digits.len() - 1]);
        lemma_digits_value_bound(tail);
        assert(digits_value(digits) == digits[0] as nat + 10 * digits_value(tail));
    }
}

/// Powers of ten.
pub open spec fn pow10(e: nat) -> nat
    decreases e,
{
    if e == 0 {
        1nat
    } else {
        10 * pow10((e - 1) as nat)
    }
}

/// A canonical digit vector prints as the decimal string of its value.
proof fn lemma_digits_chars_are_dec_str(digits: Seq<u8>)
    requires
        digits_ok(digits),
        digits.len() > 0,
        digits[digits.len() - 1] > 0,
    ensures
        digits_chars(digits) =~= dec_str(digits_value(digits)),
    decreases digits.len(),
{
    let n = digits_value(digits);
    let tail = digits.skip(1);
    if digits.len() == 1 {
        assert(digits_value(tail) == 0);
        assert(n == digits[0] as nat);
        assert(digits_chars(digits) =~= seq![digit_char(digits[0] as int)]);
    } else {
        assert(tail[tail.len() - 1] == digits[digits.len() - 1]);
        lemma_digits_chars_are_dec_str(tail);
        lemma_digits_value_bound(tail);
        assert(pow10((tail.len() - 1) as nat) >= 1) by {
            lemma_pow10_pos((tail.len() - 1) as nat);
        }
        assert(digits_value(tail) >= 1);
        assert(n == digits[0] as nat + 10 * digits_value(tail));
        assert(n >= 10);
        assert(n / 10 == digits_value(tail) && n % 10 == digits[0] as nat) by {
            vstd::arithmetic::div_mod::lemma_fundamental_div_mod_converse(
                n as int,
                10,
                digits_value(tail) as int,
                digits[0] as int,
            );
        }
        assert(dec_str(n) == dec_str(digits_value(tail)).push(digit_char(digits[0] as int)));
        assert(digits_chars(digits) =~= digits_chars(tail).push(digit_char(digits[0] as int)));
    }
}

proof fn lemma_pow10_pos(e: nat)
    ensures
        pow10(e) >= 1,
    decreases e,
{
    if e > 0 {
        lemma_pow10_pos((e - 1) as nat);
    }
}

/// The little-endian decimal digits of `n` (canonical: no leading zero).
fn u64_digits(n: u64) -> (digits: Vec<u8>)
    requires
        n > 0,
    ensures
        digits_ok(digits@),
        digits@.len() > 0,
        digits@[digits@.len() - 1] > 0,
        digits_value(digits@) == n as nat,
{
    let mut digits: Vec<u8> = Vec::new();
    let mut m: u64 = n;
    let ghost mut weight: nat = 1nat;
    proof {
        assert(digits_value(digits@) == 0);
    }
    while m > 0
        invariant
            digits_ok(digits@),
            digits_value(digits@) + weight * (m as nat) == n as nat,
            weight == pow10(digits@.len() as nat),
            m == 0 ==> digits@.len() > 0 && digits@[digits@.len() - 1] > 0,
            m > 0 ==> (digits@.len() == 0 || digits@[digits@.len() - 1] < 10),
            forall|i: int| 0 <= i < digits@.len() ==> digits@[i] < 10,
        decreases m,
    {
        let d: u8 = (m % 10) as u8;
        let ghost old_digits = digits@;
        let ghost old_m = m as nat;
        digits.push(d);
        m = m / 10;
        proof {
            lemma_digits_value_push(old_digits, d);
            assert(old_m == 10 * (m as nat) + d as nat) by {
                vstd::arithmetic::div_mod::lemma_fundamental_div_mod(old_m as int, 10);
            }
            assert(digits_value(digits@) == digits_value(old_digits) + (d as nat) * pow10(
                old_digits.len() as nat,
            ));
            assert(weight * old_m == weight * (10 * (m as nat) + d as nat));
            assert(weight * (10 * (m as nat) + d as nat) == weight * (d as nat) + 10 * weight * (
            m as nat)) by (nonlinear_arith);
            assert(weight * (d as nat) == (d as nat) * weight) by (nonlinear_arith);
            weight = 10 * weight;
            if m == 0 {
                // the digit just pushed is the leading one; it is nonzero
                // because old_m > 0 and old_m == d when old_m < 10
                assert(d > 0);
            }
        }
    }
    digits
}

/// `digits_value` after appending one digit at weight `10^len`.
proof fn lemma_digits_value_push(digits: Seq<u8>, d: u8)
    ensures
        digits_value(digits.push(d)) == digits_value(digits) + (d as nat) * pow10(digits.len()),
    decreases digits.len(),
{
    let pushed = digits.push(d);
    if digits.len() == 0 {
        assert(pushed.skip(1) =~= Seq::<u8>::empty());
        assert(digits_value(pushed) == pushed[0] as nat + 10 * digits_value(pushed.skip(1)));
        assert(digits_value(pushed.skip(1)) == 0);
        assert(pushed[0] == d);
        assert(digits_value(pushed) == d as nat);
        assert(pow10(digits.len()) == 1);
        assert(digits_value(digits) == 0);
        assert((d as nat) * 1 == d as nat);
    } else {
        assert(pushed.skip(1) =~= digits.skip(1).push(d));
        lemma_digits_value_push(digits.skip(1), d);
        assert(digits_value(pushed) == pushed[0] as nat + 10 * digits_value(pushed.skip(1)));
        assert(10 * (digits_value(digits.skip(1)) + (d as nat) * pow10((digits.len() - 1) as nat))
            == 10 * digits_value(digits.skip(1)) + (d as nat) * (10 * pow10(
            (digits.len() - 1) as nat,
        ))) by (nonlinear_arith);
    }
}

/// Append the most-significant-first rendering of `digits` to `out`.
fn append_digits(out: &mut String, digits: &Vec<u8>)
    requires
        digits_ok(digits@),
    ensures
        final(out)@ == old(out)@ + digits_chars(digits@),
{
    let ghost start = out@;
    let mut i: usize = digits.len();
    while i > 0
        invariant
            i <= digits@.len(),
            digits_ok(digits@),
            out@ =~= start + digits_chars(digits@).take((digits@.len() - i) as int),
        decreases i,
    {
        i = i - 1;
        let d = digits[i];
        let ghost before = out@;
        out.append(digit_literal(d));
        proof {
            let k = (digits@.len() - i) as int;
            assert(digits_chars(digits@)[k - 1] == digit_char(digits@[i as int] as int));
            assert(digits_chars(digits@).take(k) =~= digits_chars(digits@).take(k - 1).push(
                digit_char(digits@[i as int] as int),
            ));
        }
    }
    proof {
        assert(digits_chars(digits@).take(digits@.len() as int) =~= digits_chars(digits@));
    }
}

/// Decimal string of an unsigned 64-bit value.
pub fn u64_to_string(n: u64) -> (s: String)
    ensures
        s@ == dec_str(n as nat),
{
    if n == 0 {
        let s = String::from_str("0");
        proof {
            reveal_strlit("0");
            assert(s@ =~= dec_str(0));
        }
        s
    } else {
        let digits = u64_digits(n);
        let mut s = String::new();
        append_digits(&mut s, &digits);
        proof {
            lemma_digits_chars_are_dec_str(digits@);
            assert(s@ =~= dec_str(n as nat));
        }
        s
    }
}

/// `c` is a decimal digit character.
pub open spec fn is_digit(c: char) -> bool {
    '0' <= c && c <= '9'
}

/// Numeric value of a digit character (zero on anything else).
pub open spec fn digit_val(c: char) -> nat {
    if is_digit(c) {
        (c as nat - 48) as nat
    } else {
        0
    }
}

/// Every character of `s` is a decimal digit.
pub open spec fn all_digits(s: Seq<char>) -> bool {
    forall|i: int| 0 <= i < s.len() ==> is_digit(s[i])
}

/// Value of a digit string read in base ten.
pub open spec fn dec_val(s: Seq<char>) -> nat
    decreases s.len(),
{
    if s.len() == 0 {
        0
    } else {
        10 * dec_val(s.drop_last()) + digit_val(s.last())
    }
}

/// What `str::parse::<u64>` accepts: an optional `+`, then one or more
/// digits whose value fits in 64 bits.
pub open spec fn parse_u64_spec(s: Seq<char>) -> Option<u64> {
    let body = if s.len() > 0 && s[0] == '+' {
        s.skip(1)
    } else {
        s
    };
    if body.len() > 0 && all_digits(body) && dec_val(body) <= u64::MAX {
        Some(dec_val(body) as u64)
    } else {
        None
    }
}

/// What `str::parse::<i64>` accepts: an optional sign, then one or more
/// digits whose signed value fits in 64 bits.
pub open spec fn parse_i64_spec(s: Seq<char>) -> Option<i64> {
    let neg = s.len() > 0 && s[0] == '-';
    let body = if s.len() > 0 && (s[0] == '-' || s[0] == '+') {
        s.skip(1)
    } else {
        s
    };
    if body.len() > 0 && all_digits(body) {
        if neg && dec_val(body) <= 0x8000000000000000 {
            Some((-(dec_val(body) as int)) as i64)
        } else if !neg && dec_val(body) <= i64::MAX as nat {
            Some(dec_val(body) as i64)
        } else {
            None
        }
    } else {
        None
    }
}

/// Prefixes of a digit string never exceed its value.
proof fn lemma_dec_val_take_le(s: Seq<char>, i: int)
    requires
        0 <= i <= s.len(),
    ensures
        dec_val(s.take(i)) <= dec_val(s),
    decreases s.len() - i,
{
    if i < s.len() {
        assert(s.take(i + 1).drop_last() =~= s.take(i));
        assert(dec_val(s.take(i + 1)) == 10 * dec_val(s.take(i)) + digit_val(s.take(i + 1).last()));
        lemma_dec_val_take_le(s, i + 1);
    } else {
        assert(s.take(i) =~= s);
    }
}

/// Digits only, no sign: the body grammar shared by the two parsers.
fn parse_digits_u64(s: &str) -> (r: Option<u64>)
    ensures
        r == (if s@.len() > 0 && all_digits(s@) && dec_val(s@) <= u64::MAX {
            Some(dec_val(s@) as u64)
        } else {
            None::<u64>
        }),
{
    let len = s.unicode_len();
    if len == 0 {
        return None;
    }
    let mut acc: u64 = 0;
    let mut i: usize = 0;
    while i < len
        invariant
            0 <= i <= len,
            len == s@.len(),
            all_digits(s@.take(i as int)),
            acc as nat == dec_val(s@.take(i as int)),
        decreases len - i,
    {
        let c = s.get_char(i);
        if !('0' <= c && c <= '9') {
            assert(!is_digit(s@[i as int]));
            return None;
        }
        let d: u64 = (c as u32 - 48) as u64;
        if acc > (u64::MAX - d) / 10 {
            proof {
                assert(s@.take(i as int + 1).drop_last() =~= s@.take(i as int));
                assert(dec_val(s@.take(i as int + 1)) == 10 * (acc as nat) + d as nat);
                assert(10 * (acc as nat) + d as nat > u64::MAX);
                lemma_dec_val_take_le(s@, i as int + 1);
                assert(s@.take(len as int) =~= s@);
            }
            return None;
        }
        proof {
            assert(s@.take(i as int + 1).drop_last() =~= s@.take(i as int));
            assert(all_digits(s@.take(i as int + 1)));
        }
        acc = acc * 10 + d;
        i = i + 1;
    }
    proof {
        assert(s@.take(len as int) =~= s@);
    }
    Some(acc)
}

/// Decimal parse of an unsigned 64-bit value, as `str::parse::<u64>`.
pub fn parse_u64_str(s: &str) -> (r: Option<u64>)
    ensures
        r == parse_u64_spec(s@),
{
    let len = s.unicode_len();
    if len > 0 && s.get_char(0) == '+' {
        let body = s.substring_char(1, len);
        parse_digits_u64(body)
    } else {
        parse_digits_u64(s)
    }
}

/// Decimal parse of a signed 64-bit value, as `str::parse::<i64>`.
pub fn parse_i64_str(s: &str) -> (r: Option<i64>)
    ensures
        r == parse_i64_spec(s@),
{
    let len = s.unicode_len();
    if len > 0 && (s.get_char(0) == '-' || s.get_char(0) == '+') {
        let neg = s.get_char(0) == '-';
        let body = s.substring_char(1, len);
        match parse_digits_u64(body) {
            Some(m) => {
                if neg {
                    if m <= 0x8000000000000000 {
                        Some((-(m as i128)) as i64)
                    } else {
                        None
                    }
                } else {
                    if m <= i64::MAX as u64 {
                        Some(m as i64)
                    } else {
                        None
                    }
                }
            },
            None => None,
        }
    } else {
        match parse_digits_u64(s) {
            Some(m) => {
                if m <= i64::MAX as u64 {
                    Some(m as i64)
                } else {
                    None
                }
            },
            None => None,
        }
    }
}

/// Canonical decimal strings are digit-only.
pub proof fn lemma_dec_str_all_digits(n: nat)
    ensures
        all_digits(dec_str(n)),
        dec_str(n).len() > 0,
    decreases n,
{
    if n >= 10 {
        lemma_dec_str_all_digits(n / 10);
    }
}

/// `digit_val` inverts `digit_char`.
proof fn lemma_digit_char_val(d: int)
    requires
        0 <= d < 10,
    ensures
        is_digit(digit_char(d)),
        digit_val(digit_char(d)) == d,
{
}

/// Parsing the canonical decimal string gives the value back.
proof fn lemma_dec_val_of_dec_str(n: nat)
    ensures
        dec_val(dec_str(n)) == n,
    decreases n,
{
    lemma_digit_char_val((n % 10) as int);
    if n < 10 {
        assert(dec_str(n).drop_last() =~= Seq::<char>::empty());
        assert(dec_str(n).last() == digit_char(n as int));
        assert(n % 10 == n);
        assert(dec_val(dec_str(n)) == 10 * dec_val(Seq::<char>::empty()) + digit_val(
            digit_char(n as int),
        ));
    } else {
        lemma_dec_val_of_dec_str(n / 10);
        assert(dec_str(n).drop_last() =~= dec_str(n / 10));
        assert(dec_str(n).last() == digit_char((n % 10) as int));
        assert(dec_val(dec_str(n)) == 10 * (n / 10) + digit_val(digit_char((n % 10) as int)));
        assert(10 * (n / 10) + n % 10 == n) by {
            vstd::arithmetic::div_mod::lemma_fundamental_div_mod(n as int, 10);
        }
    }
}

/// Formatting then parsing an unsigned value is the identity.
pub proof fn lemma_u64_round_trip(n: u64)
    ensures
        parse_u64_spec(dec_str(n as nat)) == Some(n),
{
    lemma_dec_str_all_digits(n as nat);
    lemma_dec_val_of_dec_str(n as nat);
    assert(dec_str(n as nat)[0] != '+');
}

/// Formatting then parsing a signed value is the identity.
pub proof fn lemma_i64_round_trip(v: i64)
    ensures
        parse_i64_spec(dec_str_signed(v as int)) == Some(v),
{
    if v < 0 {
        let m = (-(v as int)) as nat;
        lemma_dec_str_all_digits(m);
        lemma_dec_val_of_dec_str(m);
        let s = dec_str_signed(v as int);
        assert(s[0] == '-');
        assert(s.skip(1) =~= dec_str(m));
    } else {
        lemma_dec_str_all_digits(v as nat);
        lemma_dec_val_of_dec_str(v as nat);
        let s = dec_str_signed(v as int);
        assert(s == dec_str(v as nat));
        assert(s[0] != '-' && s[0] != '+');
    }
}

/// Decimal string of a signed 64-bit value.
pub fn i64_to_string(v: i64) -> (s: String)
    ensures
        s@ == dec_str_signed(v as int),
{
    if v < 0 {
        let m: u64 = ((-(v as i128)) as u64);
        let mut s = String::from_str("-");
        let mag = u64_to_string(m);
        s.append(mag.as_str());
        proof {
            reveal_strlit("-");
            assert(s@ =~= dec_str_signed(v as int));
        }
        s
    } else {
        u64_to_string(v as u64)
    }
}

/// `num / 2^k` rounded to the nearest integer, ties to even.
pub open spec fn rhe_div_pow2(num: nat, k: nat) -> nat {
    let p = vstd::arithmetic::power2::pow2(k);
    let q = num / p;
    let r = num % p;
    if 2 * r > p || (2 * r == p && q % 2 == 1) {
        q + 1
    } else {
        q
    }
}

/// Exactly `w` decimal digits of `n`, zero padded on the left.
pub open spec fn fixed_width_str(n: nat, w: nat) -> Seq<char>
    decreases w,
{
    if w == 0 {
        Seq::<char>::empty()
    } else {
        fixed_width_str(n / 10, (w - 1) as nat).push(digit_char((n % 10) as int))
    }
}

/// The real number `(-1)^neg * m * 2^e` printed with six fractional
/// digits, rounded to nearest with ties to even: the canonical text of
/// the IEEE-754 wire types.
pub open spec fn fixed6_str(neg: bool, m: nat, e: int) -> Seq<char> {
    let scaled = if e >= 0 {
        m * vstd::arithmetic::power2::pow2(e as nat) * 1000000
    } else {
        rhe_div_pow2(m * 1000000, (-e) as nat)
    };
    let sign: Seq<char> = if neg {
        seq!['-']
    } else {
        Seq::<char>::empty()
    };
    sign + dec_str(scaled / 1000000) + seq!['.'] + fixed_width_str(scaled % 1000000, 6)
}

/// Canonical six-digit text of an IEEE-754 binary32 bit pattern.
pub open spec fn real32_text(bits: u32) -> Seq<char> {
    let neg = bits / 0x80000000 == 1;
    let exp = (bits / 0x800000) % 0x100;
    let mant = bits % 0x800000;
    if exp == 255 {
        if mant != 0 {
            "NaN"@
        } else if neg {
            "-inf"@
        } else {
            "inf"@
        }
    } else if exp == 0 {
        fixed6_str(neg, mant as nat, -149)
    } else {
        fixed6_str(neg, (mant + 0x800000) as nat, exp as int - 150)
    }
}

/// Canonical six-digit text of an IEEE-754 binary64 bit pattern.
pub open spec fn real64_text(bits: u64) -> Seq<char> {
    let neg = bits / 0x8000000000000000 == 1;
    let exp = (bits / 0x10000000000000) % 0x800;
    let mant = bits % 0x10000000000000;
    if exp == 2047 {
        if mant != 0 {
            "NaN"@
        } else if neg {
            "-inf"@
        } else {
            "inf"@
        }
    } else if exp == 0 {
        fixed6_str(neg, mant as nat, -1074)
    } else {
        fixed6_str(neg, (mant + 0x10000000000000) as nat, exp as int - 1075)
    }
}

/// 2^k as a 128-bit value.
fn pow2_u128(k: u64) -> (r: u128)
    requires
        k <= 74,
    ensures
        r == vstd::arithmetic::power2::pow2(k as nat),
{
    proof {
        lemma_pow2_74();
        assert(vstd::arithmetic::power2::pow2(0) == 1) by {
            vstd::arithmetic::power2::lemma2_to64();
        }
    }
    let mut r: u128 = 1;
    let mut j: u64 = 0;
    while j < k
        invariant
            j <= k <= 74,
            r == vstd::arithmetic::power2::pow2(j as nat),
        decreases k - j,
    {
        proof {
            if (j as nat) + 1 < 74 {
                vstd::arithmetic::power2::lemma_pow2_strictly_increases(j as nat + 1, 74);
            }
            lemma_pow2_74();
            vstd::arithmetic::power2::lemma_pow2_unfold(j as nat + 1);
        }
        r = r * 2;
        j = j + 1;
    }
    r
}

/// Concrete value of 2^74 and 2^73.
proof fn lemma_pow2_74()
    ensures
        vstd::arithmetic::power2::pow2(74) == 0x4000000000000000000,
        vstd::arithmetic::power2::pow2(73) == 0x2000000000000000000,
{
    vstd::arithmetic::power2::lemma2_to64();
    vstd::arithmetic::power2::lemma2_to64_rest();
    vstd::arithmetic::power2::lemma_pow2_adds(64, 10);
    vstd::arithmetic::power2::lemma_pow2_adds(64, 9);
}

/// Six zero digits.
proof fn lemma_fixed_width_zero6()
    ensures
        fixed_width_str(0nat, 6) =~= seq!['0', '0', '0', '0', '0', '0'],
{
    reveal_with_fuel(fixed_width_str, 8);
    assert(0nat / 10 == 0 && 0nat % 10 == 0);
}

/// Doubles the value held by a canonical little-endian digit vector.
fn double_digits(digits: &mut Vec<u8>)
    requires
        digits_ok(old(digits)@),
        old(digits)@.len() > 0,
        old(digits)@[old(digits)@.len() - 1] > 0,
    ensures
        digits_ok(final(digits)@),
        final(digits)@.len() > 0,
        final(digits)@[final(digits)@.len() - 1] > 0,
        digits_value(final(digits)@) == 2 * digits_value(old(digits)@),
{
    let ghost orig = digits@;
    let len = digits.len();
    let mut carry: u8 = 0;
    let mut i: usize = 0;
    while i < len
        invariant
            0 <= i <= len,
            len == digits@.len() == orig.len(),
            digits_ok(orig),
            orig.len() > 0,
            orig[orig.len() - 1] > 0,
            carry <= 1,
            digits_ok(digits@.take(i as int)),
            digits@.skip(i as int) =~= orig.skip(i as int),
            digits_value(digits@.take(i as int)) + (carry as nat) * pow10(i as nat) == 2
                * digits_value(orig.take(i as int)),
        decreases len - i,
    {
        proof {
            assert(digits@[i as int] == digits@.skip(i as int)[0]);
            assert(digits@[i as int] == orig[i as int]);
            assert(orig[i as int] < 10);
        }
        let t: u8 = 2 * digits[i] + carry;
        let ghost before = digits@;
        let ghost old_carry = carry;
        digits.set(i, t % 10);
        carry = t / 10;
        proof {
            assert(before[i as int] == orig[i as int]);
            assert(digits@.take(i as int) =~= before.take(i as int));
            assert forall|jj: int| 0 <= jj < digits@.skip(i as int + 1).len() implies #[trigger] (
            digits@.skip(i as int + 1)[jj]) == orig.skip(i as int + 1)[jj] by {
                assert(digits@[i as int + 1 + jj] == before[i as int + 1 + jj]);
                assert(before[i as int + 1 + jj] == before.skip(i as int)[1 + jj]);
                assert(orig[i as int + 1 + jj] == orig.skip(i as int)[1 + jj]);
            }
            assert(digits@.skip(i as int + 1) =~= orig.skip(i as int + 1));
            assert(digits@.take(i as int + 1) =~= digits@.take(i as int).push(t % 10));
            assert(orig.take(i as int + 1) =~= orig.take(i as int).push(orig[i as int]));
            lemma_digits_value_push(digits@.take(i as int), t % 10);
            lemma_digits_value_push(orig.take(i as int), orig[i as int]);
            assert(t == 2 * orig[i as int] + old_carry);
            assert(t as nat == (t / 10) as nat * 10 + (t % 10) as nat);
            assert((t / 10) as nat * pow10(i as nat + 1) == (t / 10) as nat * 10 * pow10(
                i as nat,
            )) by {
                assert(pow10(i as nat + 1) == 10 * pow10(i as nat));
                vstd::arithmetic::mul::lemma_mul_is_associative(
                    (t / 10) as int,
                    10,
                    pow10(i as nat) as int,
                );
            }
            assert(((t % 10) as nat + (t / 10) as nat * 10) * pow10(i as nat) == (t % 10) as nat
                * pow10(i as nat) + (t / 10) as nat * 10 * pow10(i as nat))
                by (nonlinear_arith);
            assert((2 * orig[i as int] as nat + old_carry as nat) * pow10(i as nat) == 2 * (
            orig[i as int] as nat * pow10(i as nat)) + old_carry as nat * pow10(i as nat))
                by (nonlinear_arith);
        }
        i = i + 1;
    }
    proof {
        assert(digits@.take(len as int) =~= digits@);
        assert(orig.take(len as int) =~= orig);
    }
    if carry > 0 {
        let ghost before = digits@;
        digits.push(carry);
        proof {
            lemma_digits_value_push(before, carry);
        }
    } else {
        proof {
            // no carry out of the top digit, so the doubled top digit
            // stayed below ten and is at least two
            let top = digits@[len - 1];
            assert(digits@.take(len as int - 1).push(top) =~= digits@);
            lemma_digits_value_push(digits@.take(len as int - 1), top);
            if top == 0 {
                assert(digits_value(digits@) == digits_value(digits@.take(len as int - 1)));
                lemma_digits_value_small(digits@.take(len as int - 1));
                assert(orig.take(len as int - 1).push(orig[len - 1]) =~= orig);
                lemma_digits_value_push(orig.take(len as int - 1), orig[len - 1]);
                lemma_pow10_pos((len - 1) as nat);
                assert(digits_value(orig) >= (orig[len - 1] as nat) * pow10((len - 1) as nat));
                assert((orig[len - 1] as nat) * pow10((len - 1) as nat) >= pow10(
                    (len - 1) as nat,
                )) by (nonlinear_arith)
                    requires
                        orig[len - 1] >= 1,
                        pow10((len - 1) as nat) >= 1,
                ;
                assert(false);
            }
        }
    }
}

/// A digit vector's value stays under the power of ten of its length.
proof fn lemma_digits_value_small(digits: Seq<u8>)
    requires
        digits_ok(digits),
    ensures
        digits_value(digits) < pow10(digits.len()),
    decreases digits.len(),
{
    if digits.len() == 0 {
    } else {
        lemma_digits_value_small(digits.skip(1));
        assert(digits_value(digits) == digits[0] as nat + 10 * digits_value(digits.skip(1)));
    }
}

/// Little-endian decimal digits of `m * 2^e`, canonical.
fn scaled_int_digits(m: u64, e: u32) -> (digits: Vec<u8>)
    requires
        m > 0,
        e <= 1024,
    ensures
        digits_ok(digits@),
        digits@.len() > 0,
        digits@[digits@.len() - 1] > 0,
        digits_value(digits@) == (m as nat) * vstd::arithmetic::power2::pow2(e as nat),
{
    let mut digits = u64_digits(m);
    let mut j: u32 = 0;
    proof {
        assert((m as nat) * vstd::arithmetic::power2::pow2(0) == m as nat) by {
            vstd::arithmetic::power2::lemma2_to64();
        }
    }
    while j < e
        invariant
            j <= e,
            digits_ok(digits@),
            digits@.len() > 0,
            digits@[digits@.len() - 1] > 0,
            digits_value(digits@) == (m as nat) * vstd::arithmetic::power2::pow2(j as nat),
        decreases e - j,
    {
        double_digits(&mut digits);
        proof {
            vstd::arithmetic::power2::lemma_pow2_unfold(j as nat + 1);
            assert((m as nat) * (2 * vstd::arithmetic::power2::pow2(j as nat)) == 2 * ((m as nat)
                * vstd::arithmetic::power2::pow2(j as nat))) by (nonlinear_arith);
        }
        j = j + 1;
    }
    digits
}

/// Fixed-width digit vectors print as `fixed_width_str` of their value.
proof fn lemma_fixed_width_chars(digits: Seq<u8>)
    requires
        digits_ok(digits),
    ensures
        fixed_width_str(digits_value(digits), digits.len()) =~= digits_chars(digits),
    decreases digits.len(),
{
    if digits.len() > 0 {
        let tail = digits.skip(1);
        lemma_fixed_width_chars(tail);
        let n = digits_value(digits);
        assert(n == digits[0] as nat + 10 * digits_value(tail));
        assert(n / 10 == digits_value(tail) && n % 10 == digits[0] as nat) by {
            vstd::arithmetic::div_mod::lemma_fundamental_div_mod_converse(
                n as int,
                10,
                digits_value(tail) as int,
                digits[0] as int,
            );
        }
        assert(digits_chars(digits) =~= digits_chars(tail).push(digit_char(digits[0] as int)));
    }
}

/// Exactly six zero-padded digits of `f`.
fn pad6(f: u64) -> (s: String)
    requires
        f < 1000000,
    ensures
        s@ == fixed_width_str(f as nat, 6),
{
    let mut digits: Vec<u8> = Vec::new();
    let mut m: u64 = f;
    let ghost mut weight: nat = 1nat;
    let mut w: usize = 0;
    while w < 6
        invariant
            w <= 6,
            digits@.len() == w,
            digits_ok(digits@),
            weight == pow10(w as nat),
            digits_value(digits@) + weight * (m as nat) == f as nat,
        decreases 6 - w,
    {
        let d: u8 = (m % 10) as u8;
        let ghost old_digits = digits@;
        let ghost old_m = m as nat;
        digits.push(d);
        m = m / 10;
        proof {
            lemma_digits_value_push(old_digits, d);
            assert(old_m == 10 * (m as nat) + d as nat) by {
                vstd::arithmetic::div_mod::lemma_fundamental_div_mod(old_m as int, 10);
            }
            assert(weight * old_m == weight * (10 * (m as nat) + d as nat));
            assert(weight * (10 * (m as nat) + d as nat) == weight * (d as nat) + 10 * weight * (
            m as nat)) by (nonlinear_arith);
            assert(weight * (d as nat) == (d as nat) * weight) by (nonlinear_arith);
            weight = 10 * weight;
        }
        w = w + 1;
    }
    proof {
        // after six digits the weight is a million, so m must be zero
        assert(pow10(6) == 1000000) by {
            assert(pow10(0) == 1);
            assert(pow10(1) == 10);
            assert(pow10(2) == 100);
            assert(pow10(3) == 1000);
            assert(pow10(4) == 10000);
            assert(pow10(5) == 100000);
            assert(pow10(6) == 1000000);
        }
        if m as nat > 0 {
            assert(weight * (m as nat) >= weight) by (nonlinear_arith)
                requires
                    weight >= 1,
                    m as nat >= 1,
            ;
            assert(false);
        }
        assert(digits_value(digits@) == f as nat);
        lemma_fixed_width_chars(digits@);
    }
    let mut s = String::new();
    append_digits(&mut s, &digits);
    proof {
        assert(s@ =~= fixed_width_str(f as nat, 6));
    }
    s
}

/// Renders `(-1)^neg * m * 2^e` with six fractional digits.
fn format_fixed6(neg: bool, m: u64, e: i32) -> (s: String)
    requires
        m < 0x20000000000000,
        -1075 <= e <= 1024,
    ensures
        s@ == fixed6_str(neg, m as nat, e as int),
{
    let mut s = String::new();
    if neg {
        s.append("-");
        proof {
            reveal_strlit("-");
        }
    }
    proof {
        assert(s@ =~= (if neg {
            seq!['-']
        } else {
            Seq::<char>::empty()
        }));
    }
    let ghost scaled: nat = if e >= 0 {
        (m as nat) * vstd::arithmetic::power2::pow2(e as nat) * 1000000
    } else {
        rhe_div_pow2((m as nat) * 1000000, (-e) as nat)
    };
    if m == 0 {
        proof {
            if e >= 0 {
                assert(scaled == 0) by (nonlinear_arith)
                    requires
                        scaled == 0nat * vstd::arithmetic::power2::pow2(e as nat) * 1000000,
                ;
            } else {
                let p = vstd::arithmetic::power2::pow2((-e) as nat);
                vstd::arithmetic::power2::lemma_pow2_pos((-e) as nat);
                assert(0nat * 1000000 == 0) by (nonlinear_arith);
                assert(0nat / p == 0 && 0nat % p == 0) by {
                    vstd::arithmetic::div_mod::lemma_fundamental_div_mod_converse(0, p as int, 0, 0);
                }
                assert(scaled == 0);
            }
        }
        s.append("0.000000");
        proof {
            reveal_strlit("0.000000");
            assert(dec_str(0) =~= seq!['0']);
            lemma_fixed_width_zero6();
            assert(s@ =~= fixed6_str(neg, 0, e as int));
        }
        return s;
    }
    if e >= 0 {
        let digits = scaled_int_digits(m, e as u32);
        append_digits(&mut s, &digits);
        s.append(".000000");
        proof {
            lemma_digits_chars_are_dec_str(digits@);
            let iv = (m as nat) * vstd::arithmetic::power2::pow2(e as nat);
            assert(scaled == iv * 1000000);
            assert(scaled / 1000000 == iv && scaled % 1000000 == 0) by {
                vstd::arithmetic::div_mod::lemma_fundamental_div_mod_converse(
                    scaled as int,
                    1000000,
                    iv as int,
                    0,
                );
            }
            reveal_strlit(".000000");
            assert(".000000"@ =~= seq!['.', '0', '0', '0', '0', '0', '0']);
            lemma_fixed_width_zero6();
            assert(s@ =~= fixed6_str(neg, m as nat, e as int));
        }
        s
    } else {
        let k: u64 = (-(e as i64)) as u64;
        let num: u128 = (m as u128) * 1000000;
        proof {
            lemma_pow2_74();
            assert((m as nat) * 1000000 < 0x20000000000000nat * 1000000) by (nonlinear_arith)
                requires
                    m < 0x20000000000000,
            ;
        }
        let t: u128 = if k >= 74 {
            proof {
                let p = vstd::arithmetic::power2::pow2(k as nat);
                if k > 74 {
                    vstd::arithmetic::power2::lemma_pow2_strictly_increases(74, k as nat);
                }
                assert(p >= 0x4000000000000000000);
                vstd::arithmetic::div_mod::lemma_basic_div(num as int, p as int);
                assert(num as nat / p == 0);
                assert(num as nat % p == num as nat) by {
                    vstd::arithmetic::div_mod::lemma_small_mod(num as nat, p);
                }
                assert(2 * (num as nat) < p);
                assert(rhe_div_pow2((m as nat) * 1000000, k as nat) == 0);
            }
            0
        } else {
            let p = pow2_u128(k);
            proof {
                vstd::arithmetic::power2::lemma_pow2_pos(k as nat);
                lemma_pow2_74();
                if (k as nat) < 73 {
                    vstd::arithmetic::power2::lemma_pow2_strictly_increases(k as nat, 73);
                }
                assert(p <= 0x2000000000000000000);
            }
            let q = num / p;
            let r = num % p;
            proof {
                assert(r < p) by {
                    vstd::arithmetic::div_mod::lemma_mod_division_less_than_divisor(
                        num as int,
                        p as int,
                    );
                }
            }
            if 2 * r > p || (2 * r == p && q % 2 == 1) {
                q + 1
            } else {
                q
            }
        };
        proof {
            assert(t as nat == scaled);
            // the rounded value stays within the unrounded bound plus one
            let p = vstd::arithmetic::power2::pow2(k as nat);
            vstd::arithmetic::power2::lemma_pow2_pos(k as nat);
            vstd::arithmetic::div_mod::lemma_div_is_ordered_by_denominator(num as int, 1, p as int);
            assert(t <= num + 1);
        }
        let int_part: u64 = (t / 1000000) as u64;
        let frac: u64 = (t % 1000000) as u64;
        let ip = u64_to_string(int_part);
        s.append(ip.as_str());
        s.append(".");
        let fr = pad6(frac);
        s.append(fr.as_str());
        proof {
            reveal_strlit(".");
            assert(s@ =~= fixed6_str(neg, m as nat, e as int));
        }
        s
    }
}

/// Canonical text of an IEEE-754 binary32 value given as its bits:
/// six fractional digits, `NaN`, `inf` or `-inf`.
pub fn real32_to_string(bits: u32) -> (s: String)
    ensures
        s@ == real32_text(bits),
{
    let neg = bits / 0x80000000 == 1;
    let exp = (bits / 0x800000) % 0x100;
    let mant = bits % 0x800000;
    if exp == 255 {
        if mant != 0 {
            let s = String::from_str("NaN");
            s
        } else if neg {
            let s = String::from_str("-inf");
            s
        } else {
            let s = String::from_str("inf");
            s
        }
    } else if exp == 0 {
        format_fixed6(neg, mant as u64, -149)
    } else {
        format_fixed6(neg, (mant + 0x800000) as u64, exp as i32 - 150)
    }
}

/// Canonical text of an IEEE-754 binary64 value given as its bits:
/// six fractional digits, `NaN`, `inf` or `-inf`.
pub fn real64_to_string(bits: u64) -> (s: String)
    ensures
        s@ == real64_text(bits),
{
    let neg = bits / 0x8000000000000000 == 1;
    let exp = (bits / 0x10000000000000) % 0x800;
    let mant = bits % 0x10000000000000;
    if exp == 2047 {
        if mant != 0 {
            let s = String::from_str("NaN");
            s
        } else if neg {
            let s = String::from_str("-inf");
            s
        } else {
            let s = String::from_str("inf");
            s
        }
    } else if exp == 0 {
        format_fixed6(neg, mant, -1074)
    } else {
        format_fixed6(neg, mant + 0x10000000000000, exp as i32 - 1075)
    }
}

} // verus!
