//! Decimal rendering and parsing of signed 64-bit integers: the wire form is
//! an optional leading `-` followed by one or more ASCII digits, and the
//! canonical rendering has no leading zeros other than a bare `0`.
use vstd::prelude::*;
use vstd::arithmetic::div_mod::{
    lemma_fundamental_div_mod, lemma_fundamental_div_mod_converse_div,
    lemma_fundamental_div_mod_converse_mod, lemma_mod_division_less_than_divisor,
};

verus! {

/// 10 to the power `n`.
pub open spec fn pow10(n: nat) -> int
    decreases n,
{
    if n == 0 {
        1
    } else {
        10 * pow10((n - 1) as nat)
    }
}

/// An ASCII decimal digit.
pub open spec fn is_digit(c: char) -> bool {
    '0' <= c && c <= '9'
}

/// Numeric value of an ASCII decimal digit ('0' has code point 48).
pub open spec fn digit_val(c: char) -> int {
    c as u32 - 48
}

/// The digit character for a value in `[0, 9]`.
pub open spec fn digit_char(d: int) -> char {
    if d == 0 {
        '0'
    } else if d == 1 {
        '1'
    } else if d == 2 {
        '2'
    } else if d == 3 {
        '3'
    } else if d == 4 {
        '4'
    } else if d == 5 {
        '5'
    } else if d == 6 {
        '6'
    } else if d == 7 {
        '7'
    } else if d == 8 {
        '8'
    } else {
        '9'
    }
}

pub open spec fn all_digits(s: Seq<char>) -> bool {
    forall|i: int| 0 <= i < s.len() ==> is_digit(#[trigger] s[i])
}

/// Value of a digit string, most significant digit first.
pub open spec fn dec_val(s: Seq<char>) -> int
    decreases s.len(),
{
    if s.len() == 0 {
        0
    } else {
        dec_val(s.drop_last()) * 10 + digit_val(s.last())
    }
}

/// Canonical digit string of a non-negative integer: no leading zero unless
/// the number is zero itself.
pub open spec fn dec_digits(n: nat) -> Seq<char>
    decreases n,
{
    if n < 10 {
        seq![digit_char(n as int)]
    } else {
        dec_digits(n / 10) + seq![digit_char((n % 10) as int)]
    }
}

/// Canonical decimal rendering of a signed integer: a leading `-` for
/// negative values, then the digits of the magnitude.
pub open spec fn dec_repr(n: int) -> Seq<char> {
    if n < 0 {
        seq!['-'] + dec_digits((-n) as nat)
    } else {
        dec_digits(n as nat)
    }
}

/// The accepted grammar: an optional leading `-`, then one or more digits.
pub open spec fn is_int_literal(s: Seq<char>) -> bool {
    if s.len() == 0 {
        false
    } else if s[0] == '-' {
        s.len() >= 2 && all_digits(s.subrange(1, s.len() as int))
    } else {
        all_digits(s)
    }
}

/// Signed value of a string matching the grammar.
pub open spec fn str_val(s: Seq<char>) -> int {
    if s.len() > 0 && s[0] == '-' {
        -dec_val(s.subrange(1, s.len() as int))
    } else {
        dec_val(s)
    }
}

/// A string that parses as an `i64`: it matches the grammar and its value
/// fits the signed 64-bit range.
pub open spec fn is_valid_i64_str(s: Seq<char>) -> bool {
    is_int_literal(s) && i64::MIN <= str_val(s) <= i64::MAX
}

pub proof fn lemma_pow10_pos(n: nat)
    ensures
        pow10(n) >= 1,
    decreases n,
{
    if n > 0 {
        lemma_pow10_pos((n - 1) as nat);
    }
}

pub proof fn lemma_pow10_increases(m: nat, n: nat)
    requires
        m <= n,
    ensures
        pow10(m) <= pow10(n),
    decreases n,
{
    if m < n {
        lemma_pow10_increases(m, (n - 1) as nat);
        lemma_pow10_pos((n - 1) as nat);
    }
}

pub proof fn lemma_pow10_19()
    ensures
        pow10(19) == 10_000_000_000_000_000_000,
{
    assert(pow10(0) == 1);
    assert(pow10(1) == 10);
    assert(pow10(2) == 100);
    assert(pow10(3) == 1000);
    assert(pow10(4) == 10000);
    assert(pow10(5) == 100000);
    assert(pow10(6) == 1000000);
    assert(pow10(7) == 10000000);
    assert(pow10(8) == 100000000);
    assert(pow10(9) == 1000000000);
    assert(pow10(10) == 10000000000);
    assert(pow10(11) == 100000000000);
    assert(pow10(12) == 1000000000000);
    assert(pow10(13) == 10000000000000);
    assert(pow10(14) == 100000000000000);
    assert(pow10(15) == 1000000000000000);
    assert(pow10(16) == 10000000000000000);
    assert(pow10(17) == 100000000000000000);
    assert(pow10(18) == 1000000000000000000);
    assert(pow10(19) == 10000000000000000000);
}

/// A digit string whose first digit is not `0` is at least `pow10` of one
/// less than its length.
pub proof fn lemma_dec_val_msd(s: Seq<char>)
    requires
        all_digits(s),
        s.len() >= 1,
        s[0] != '0',
    ensures
        dec_val(s) >= pow10((s.len() - 1) as nat),
    decreases s.len(),
{
    if s.len() == 1 {
        assert(is_digit(s[0]));
        assert(digit_val(s[0]) >= 1);
        assert(dec_val(s.drop_last()) == 0);
    } else {
        assert(all_digits(s.drop_last()));
        assert(s.drop_last()[0] == s[0]);
        lemma_dec_val_msd(s.drop_last());
        assert(is_digit(s.last()));
        assert(digit_val(s.last()) >= 0);
    }
}

/// Dropping a leading zero does not change a digit string's value.
pub proof fn lemma_dec_val_strip_zero(s: Seq<char>)
    requires
        all_digits(s),
        s.len() >= 1,
        s[0] == '0',
    ensures
        dec_val(s) == dec_val(s.subrange(1, s.len() as int)),
    decreases s.len(),
{
    if s.len() == 1 {
        assert(dec_val(s.drop_last()) == 0);
        assert(s.last() == '0');
        assert(digit_val('0') == 0);
        assert(dec_val(s) == 0);
        assert(s.subrange(1, 1).len() == 0);
        assert(dec_val(s.subrange(1, 1)) == 0);
    } else {
        let t = s.drop_last();
        assert(all_digits(t));
        assert(t[0] == '0');
        lemma_dec_val_strip_zero(t);
        let u = s.subrange(1, s.len() as int);
        assert(u.len() == s.len() - 1 >= 1);
        assert(u.drop_last() =~= t.subrange(1, t.len() as int));
        assert(u.last() == s.last());
        assert(dec_val(u) == dec_val(u.drop_last()) * 10 + digit_val(u.last()));
        assert(dec_val(s) == dec_val(t) * 10 + digit_val(s.last()));
    }
}

/// The canonical digits of `n` are digits, value back to `n`, and carry no
/// leading zero unless `n` is zero.
pub proof fn lemma_dec_digits(n: nat)
    ensures
        all_digits(dec_digits(n)),
        dec_digits(n).len() >= 1,
        dec_val(dec_digits(n)) == n,
        n >= 1 ==> dec_digits(n)[0] != '0',
        n == 0 ==> dec_digits(n) =~= seq!['0'],
    decreases n,
{
    if n < 10 {
        let s = dec_digits(n);
        assert(s =~= seq![digit_char(n as int)]);
        assert(s.drop_last().len() == 0);
        assert(dec_val(s.drop_last()) == 0);
        assert(s.last() == digit_char(n as int));
        assert(digit_val(digit_char(n as int)) == n);
        assert(dec_val(s) == digit_val(digit_char(n as int)));
        assert(is_digit(digit_char(n as int)));
    } else {
        lemma_dec_digits(n / 10);
        let hi = dec_digits(n / 10);
        let s = dec_digits(n);
        let last = digit_char((n % 10) as int);
        assert(s =~= hi + seq![last]);
        assert(s.drop_last() =~= hi);
        assert(s.last() == last);
        assert(0 <= n % 10 < 10);
        assert(digit_val(last) == n % 10);
        assert(is_digit(last));
        assert(forall|i: int| 0 <= i < s.len() ==> is_digit(#[trigger] s[i]));
        lemma_fundamental_div_mod(n as int, 10);
        assert(dec_val(s) == (n / 10) * 10 + n % 10);
        assert(n / 10 >= 1);
        assert(s[0] == hi[0]);
    }
}

/// The canonical rendering of a value in the signed 64-bit range matches
/// the grammar and parses back to that value.
pub proof fn lemma_repr_val(n: int)
    requires
        i64::MIN <= n <= i64::MAX,
    ensures
        is_valid_i64_str(dec_repr(n)),
        str_val(dec_repr(n)) == n,
{
    if n < 0 {
        lemma_dec_digits((-n) as nat);
        let s = dec_repr(n);
        assert(s[0] == '-');
        assert(s.len() >= 2);
        assert(s.subrange(1, s.len() as int) =~= dec_digits((-n) as nat));
        assert(str_val(s) == -dec_val(dec_digits((-n) as nat)));
    } else {
        lemma_dec_digits(n as nat);
        let s = dec_repr(n);
        assert(is_digit(s[0]));
        assert(s[0] != '-');
        assert(str_val(s) == dec_val(s));
    }
}

/// The digit characters named by a reversed vector of digit values: entry
/// `i` of the result is the character for the digit stored at mirror
/// position `len - 1 - i`.
pub open spec fn rev_digit_chars(v: Seq<u8>) -> Seq<char> {
    Seq::new(v.len(), |i: int| digit_char(v[v.len() - 1 - i] as int))
}

/// The one-character string for a digit value.
fn digit_str(d: u8) -> (r: &'static str)
    requires
        d < 10,
    ensures
        r@ =~= seq![digit_char(d as int)],
{
    proof {
        reveal_strlit("0");
        reveal_strlit("1");
        reveal_strlit("2");
        reveal_strlit("3");
        reveal_strlit("4");
        reveal_strlit("5");
        reveal_strlit("6");
        reveal_strlit("7");
        reveal_strlit("8");
        reveal_strlit("9");
    }
    match d {
        0 => "0",
        1 => "1",
        2 => "2",
        3 => "3",
        4 => "4",
        5 => "5",
        6 => "6",
        7 => "7",
        8 => "8",
        _ => "9",
    }
}

/// The digit values of `m` in base 10, least significant first.
fn magnitude_digits(m0: u64) -> (digits: Vec<u8>)
    ensures
        digits@.len() >= 1,
        forall|i: int| 0 <= i < digits@.len() ==> digits@[i] < 10,
        dec_digits(m0 as nat) =~= rev_digit_chars(digits@),
{
    let mut v: Vec<u8> = Vec::new();
    v.push((m0 % 10) as u8);
    let mut m = m0 / 10;
    proof {
        lemma_fundamental_div_mod(m0 as int, 10);
        if m0 >= 10 {
            assert(dec_digits(m0 as nat) =~= dec_digits((m0 as nat) / 10) + seq![
                digit_char(((m0 as nat) % 10) as int),
            ]);
        }
        assert(rev_digit_chars(v@) =~= seq![digit_char((m0 % 10) as int)]);
    }
    while m > 0
        invariant
            v@.len() >= 1,
            forall|i: int| 0 <= i < v@.len() ==> v@[i] < 10,
            dec_digits(m0 as nat) =~= (if m > 0 {
                dec_digits(m as nat)
            } else {
                Seq::<char>::empty()
            }) + rev_digit_chars(v@),
        decreases m,
    {
        let d = (m % 10) as u8;
        let ghost old_v = v@;
        let ghost old_m = m as nat;
        v.push(d);
        m = m / 10;
        proof {
            lemma_fundamental_div_mod(old_m as int, 10);
            assert(rev_digit_chars(v@) =~= seq![digit_char(d as int)] + rev_digit_chars(old_v));
            if old_m >= 10 {
                assert(dec_digits(old_m) =~= dec_digits(old_m / 10) + seq![
                    digit_char((old_m % 10) as int),
                ]);
                assert(dec_digits(m0 as nat) =~= dec_digits(m as nat) + rev_digit_chars(v@));
            } else {
                assert(dec_digits(old_m) =~= seq![digit_char(old_m as int)]);
                assert(m == 0);
                assert(dec_digits(m0 as nat) =~= rev_digit_chars(v@));
            }
        }
    }
    v
}

/// The canonical decimal string of a signed 64-bit integer.
pub fn to_decimal(value: i64) -> (r: String)
    ensures
        r@ == dec_repr(value as int),
{
    let neg = value < 0;
    let m: u64 = if value >= 0 {
        value as u64
    } else {
        ((-(value + 1)) as u64) + 1
    };
    proof {
        if value < 0 {
            assert(m == -(value as int));
        }
    }
    let digits = magnitude_digits(m);
    let mut r = String::new();
    if neg {
        r.append("-");
        proof {
            reveal_strlit("-");
            assert(r@ =~= seq!['-']);
        }
    }
    let ghost prefix = r@;
    let n = digits.len();
    let mut k: usize = 0;
    while k < n
        invariant
            k <= n,
            n == digits@.len(),
            forall|i: int| 0 <= i < digits@.len() ==> digits@[i] < 10,
            dec_digits(m as nat) =~= rev_digit_chars(digits@),
            r@ =~= prefix + rev_digit_chars(digits@).subrange(0, k as int),
        decreases n - k,
    {
        let d = digits[n - 1 - k];
        r.append(digit_str(d));
        k += 1;
        proof {
            let rc = rev_digit_chars(digits@);
            assert(rc[k - 1] == digit_char(digits@[n - 1 - (k - 1)] as int));
            assert(rc.subrange(0, k as int) =~= rc.subrange(0, k - 1) + seq![rc[k - 1]]);
            assert(r@ =~= prefix + rc.subrange(0, k as int));
        }
    }
    proof {
        let rc = rev_digit_chars(digits@);
        assert(rc.subrange(0, n as int) =~= rc);
        assert(r@ =~= prefix + dec_digits(m as nat));
        if value < 0 {
            assert(r@ =~= seq!['-'] + dec_digits((-(value as int)) as nat));
        } else {
            assert(prefix =~= Seq::<char>::empty());
            assert(r@ =~= dec_digits(value as nat));
        }
    }
    r
}

/// Parses a decimal string as a signed 64-bit integer. Returns `None`
/// exactly when the string breaks the grammar (empty, a stray character, a
/// bare `-`) or its value leaves the signed 64-bit range.
pub fn parse_decimal(s: &str) -> (r: Option<i64>)
    ensures
        r.is_some() <==> is_valid_i64_str(s@),
        r matches Some(v) ==> v as int == str_val(s@),
{
    let n = s.unicode_len();
    if n == 0 {
        return None;
    }
    let neg = s.get_char(0) == '-';
    let z0: usize = if neg {
        1
    } else {
        0
    };
    if n == z0 {
        // the string is a bare `-`
        return None;
    }
    // every character after the sign must be a digit
    let mut i = z0;
    while i < n
        invariant
            z0 <= i <= n,
            n == s@.len(),
            n > z0,
            neg <==> s@[0] == '-',
            z0 == (if neg { 1int } else { 0int }),
            forall|j: int| z0 <= j < i ==> is_digit(#[trigger] s@[j]),
        decreases n - i,
    {
        let c = s.get_char(i);
        if !('0' <= c && c <= '9') {
            proof {
                if neg {
                    let body = s@.subrange(1, s@.len() as int);
                    assert(body[i - 1] == s@[i as int]);
                    assert(!all_digits(body));
                } else {
                    assert(!all_digits(s@));
                }
            }
            return None;
        }
        i += 1;
    }
    proof {
        if neg {
            assert(all_digits(s@.subrange(1, s@.len() as int)));
        }
        assert(is_int_literal(s@));
    }
    // skip leading zeros so that the magnitude's length bounds its value
    let mut z = z0;
    while z < n && s.get_char(z) == '0'
        invariant
            z0 <= z <= n,
            n == s@.len(),
            forall|j: int| z0 <= j < n ==> is_digit(#[trigger] s@[j]),
            forall|j: int| z0 <= j < z ==> s@[j] == '0',
            dec_val(s@.subrange(z0 as int, n as int)) == dec_val(
                s@.subrange(z as int, n as int),
            ),
        decreases n - z,
    {
        proof {
            let cur = s@.subrange(z as int, n as int);
            assert(cur[0] == s@[z as int]);
            assert(all_digits(cur));
            lemma_dec_val_strip_zero(cur);
            assert(cur.subrange(1, cur.len() as int) =~= s@.subrange(z + 1, n as int));
        }
        z += 1;
    }
    let ghost mag = s@.subrange(z0 as int, n as int);
    proof {
        if neg {
            assert(mag =~= s@.subrange(1, s@.len() as int));
            assert(str_val(s@) == -dec_val(mag));
        } else {
            assert(mag =~= s@);
            assert(str_val(s@) == dec_val(mag));
        }
    }
    if z == n {
        // nothing but zeros: the value is zero, whatever the sign
        proof {
            assert(s@.subrange(z as int, n as int).len() == 0);
            assert(dec_val(mag) == 0);
            assert(str_val(s@) == 0);
        }
        return Some(0);
    }
    // `s[z..n]` now starts with a non-zero digit
    let ghost sig = s@.subrange(z as int, n as int);
    if n - z > 19 {
        // at least 20 significant digits: the magnitude is at least 10^19,
        // past either end of the signed 64-bit range
        proof {
            assert(sig[0] == s@[z as int]);
            assert(all_digits(sig));
            lemma_dec_val_msd(sig);
            lemma_pow10_increases(19, (sig.len() - 1) as nat);
            lemma_pow10_19();
            assert(dec_val(mag) >= 10_000_000_000_000_000_000);
        }
        return None;
    }
    let mut acc: u64 = 0;
    let mut i = z;
    while i < n
        invariant
            z <= i <= n,
            n == s@.len(),
            n - z <= 19,
            forall|j: int| z <= j < n ==> is_digit(#[trigger] s@[j]),
            acc as int == dec_val(s@.subrange(z as int, i as int)),
            acc < pow10((i - z) as nat),
        decreases n - i,
    {
        let c = s.get_char(i);
        let u = c as u32;
        let d = (u - 48) as u8;
        proof {
            assert(is_digit(s@[i as int]));
            assert(d == digit_val(s@[i as int]));
            assert(d < 10);
            lemma_pow10_increases((i - z) as nat, 18);
            lemma_pow10_19();
            assert(acc * 10 + d < pow10((i + 1 - z) as nat));
            let pre = s@.subrange(z as int, i as int);
            let cur = s@.subrange(z as int, i + 1);
            assert(cur.drop_last() =~= pre);
            assert(cur.last() == s@[i as int]);
        }
        acc = acc * 10 + (d as u64);
        i += 1;
    }
    proof {
        assert(s@.subrange(z as int, n as int) =~= sig);
        assert(acc as int == dec_val(mag));
    }
    if neg {
        proof {
            assert(s@.subrange(1, s@.len() as int) =~= mag);
            assert(str_val(s@) == -dec_val(mag));
        }
        if acc > 9_223_372_036_854_775_808u64 {
            return None;
        }
        if acc == 9_223_372_036_854_775_808u64 {
            return Some(i64::MIN);
        }
        Some(-(acc as i64))
    } else {
        proof {
            assert(str_val(s@) == dec_val(mag));
        }
        if acc > 9_223_372_036_854_775_807u64 {
            return None;
        }
        Some(acc as i64)
    }
}

} // verus!
