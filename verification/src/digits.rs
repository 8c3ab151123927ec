//! Fixed-width decimal rendering and parsing of unsigned numbers, with a
//! proved round trip. The persistence codec and the short-code formatter are
//! built on these functions.
use vstd::prelude::*;

verus! {

/// The character for one decimal digit.
pub open spec fn digit_char(d: int) -> char {
    if d == 0 {
        '0'
    } else if d == 1 {
        '1'
    } else if d == 2 {
        '2'
    } else if d == 3 {
        '3'
    } else if d == 4 {
        '4'
    } else if d == 5 {
        '5'
    } else if d == 6 {
        '6'
    } else if d == 7 {
        '7'
    } else if d == 8 {
        '8'
    } else {
        '9'
    }
}

/// The value of one digit character, or -1 if it is no digit.
pub open spec fn char_digit(c: char) -> int {
    if c == '0' {
        0
    } else if c == '1' {
        1
    } else if c == '2' {
        2
    } else if c == '3' {
        3
    } else if c == '4' {
        4
    } else if c == '5' {
        5
    } else if c == '6' {
        6
    } else if c == '7' {
        7
    } else if c == '8' {
        8
    } else if c == '9' {
        9
    } else {
        -1
    }
}

pub open spec fn is_digit_char(c: char) -> bool {
    char_digit(c) >= 0
}

pub open spec fn pow10(k: nat) -> nat
    decreases k,
{
    if k == 0 {
        1
    } else {
        10 * pow10((k - 1) as nat)
    }
}

/// `n` written with exactly `k` decimal digits, most significant first,
/// zero-padded on the left.
pub open spec fn spec_digits(n: nat, k: nat) -> Seq<char>
    decreases k,
{
    if k == 0 {
        Seq::empty()
    } else {
        spec_digits(n / 10, (k - 1) as nat) + seq![digit_char((n % 10) as int)]
    }
}

/// The value of a sequence of digit characters, most significant first.
/// Meaningful only when every character is a digit.
pub open spec fn digits_value(s: Seq<char>) -> int
    decreases s.len(),
{
    if s.len() == 0 {
        0
    } else {
        digits_value(s.drop_last()) * 10 + char_digit(s.last())
    }
}

pub open spec fn all_digits(s: Seq<char>) -> bool {
    forall|i: int| 0 <= i < s.len() ==> is_digit_char(#[trigger] s[i])
}

pub proof fn lemma_pow10_increases(j: nat, k: nat)
    requires
        j <= k,
    ensures
        pow10(j) <= pow10(k),
    decreases k,
{
    if j < k {
        lemma_pow10_increases(j, (k - 1) as nat);
    }
}

/// The concrete values of the powers of ten this crate uses.
pub proof fn lemma_pow10_values()
    ensures
        pow10(6) == 1000000,
        pow10(10) == 10000000000,
        pow10(19) == 10000000000000000000,
        pow10(20) == 100000000000000000000,
        u64::MAX < pow10(20),
        u32::MAX < pow10(10),
{
    reveal_with_fuel(pow10, 21);
}

pub proof fn lemma_spec_digits_len(n: nat, k: nat)
    ensures
        spec_digits(n, k).len() == k,
        all_digits(spec_digits(n, k)),
    decreases k,
{
    if k > 0 {
        lemma_spec_digits_len(n / 10, (k - 1) as nat);
        let s = spec_digits(n, k);
        let s0 = spec_digits(n / 10, (k - 1) as nat);
        assert forall|i: int| 0 <= i < s.len() implies is_digit_char(#[trigger] s[i]) by {
            if i < k - 1 {
                assert(s[i] == s0[i]);
            }
        }
    }
}

/// Reading back the fixed-width digits of `n` yields `n` again.
pub proof fn lemma_digits_value_of_spec_digits(n: nat, k: nat)
    requires
        n < pow10(k),
    ensures
        digits_value(spec_digits(n, k)) == n,
    decreases k,
{
    if k == 0 {
        assert(n == 0);
    } else {
        let s = spec_digits(n, k);
        let s0 = spec_digits(n / 10, (k - 1) as nat);
        lemma_spec_digits_len(n / 10, (k - 1) as nat);
        assert(s.drop_last() =~= s0);
        assert(s.last() == digit_char((n % 10) as int));
        assert(n / 10 < pow10((k - 1) as nat)) by {
            assert(pow10(k) == 10 * pow10((k - 1) as nat));
            assert(n < 10 * pow10((k - 1) as nat) ==> n / 10 < pow10((k - 1) as nat))
                by (nonlinear_arith);
        }
        lemma_digits_value_of_spec_digits(n / 10, (k - 1) as nat);
        assert(char_digit(digit_char((n % 10) as int)) == n % 10);
        assert(digits_value(s) == (n / 10) * 10 + n % 10);
        assert((n / 10) * 10 + n % 10 == n) by (nonlinear_arith);
    }
}

/// Appending one digit multiplies the value by ten and adds the digit.
pub proof fn lemma_digits_value_push(s: Seq<char>, c: char)
    ensures
        digits_value(s.push(c)) == digits_value(s) * 10 + char_digit(c),
{
    assert(s.push(c).drop_last() =~= s);
    assert(s.push(c).last() == c);
}

/// The value of a concatenation of digit strings.
pub proof fn lemma_digits_value_concat(a: Seq<char>, b: Seq<char>)
    ensures
        digits_value(a + b) == digits_value(a) * pow10(b.len()) + digits_value(b),
    decreases b.len(),
{
    if b.len() == 0 {
        assert(a + b =~= a);
        assert(pow10(b.len()) == 1);
        assert(digits_value(b) == 0);
        assert(digits_value(a) * pow10(b.len()) == digits_value(a));
    } else {
        let b0 = b.drop_last();
        lemma_digits_value_concat(a, b0);
        assert((a + b).drop_last() =~= a + b0);
        assert((a + b).last() == b.last());
        assert(digits_value(a + b) == digits_value(a + b0) * 10 + char_digit(b.last()));
        let va = digits_value(a);
        let p0 = pow10(b0.len()) as int;
        let p = pow10(b.len()) as int;
        assert(b0.len() == b.len() - 1);
        assert(p == 10 * p0);
        let cd = char_digit(b.last());
        assert(digits_value(a + b) == (va * p0 + digits_value(b0)) * 10 + cd);
        assert((va * p0 + digits_value(b0)) * 10 + cd == va * (10 * p0) + (digits_value(b0) * 10
            + cd)) by (nonlinear_arith);
        assert(va * p == va * (10 * p0));
        assert(digits_value(b) == digits_value(b0) * 10 + cd);
        assert(digits_value(a + b) == va * p + digits_value(b));
    }
}

/// A string of digits has a value below `pow10` of its length, and at least 0.
pub proof fn lemma_digits_value_bounds(s: Seq<char>)
    requires
        all_digits(s),
    ensures
        0 <= digits_value(s) < pow10(s.len()),
    decreases s.len(),
{
    if s.len() > 0 {
        let s0 = s.drop_last();
        assert(all_digits(s0)) by {
            assert(forall|i: int| 0 <= i < s0.len() ==> s0[i] == s[i]);
        }
        lemma_digits_value_bounds(s0);
        assert(0 <= char_digit(s.last()) <= 9);
        let v0 = digits_value(s0);
        let p0 = pow10(s0.len()) as int;
        assert(v0 * 10 + 9 < 10 * p0) by (nonlinear_arith)
            requires 0 <= v0 < p0;
        assert(pow10(s.len()) == 10 * p0);
    }
}

/// Appends the character for the digit `d`.
pub fn append_digit(out: &mut String, d: u64)
    requires
        d < 10,
    ensures
        final(out)@ == old(out)@ + seq![digit_char(d as int)],
{
    let c: &'static str = if d == 0 {
        "0"
    } else if d == 1 {
        "1"
    } else if d == 2 {
        "2"
    } else if d == 3 {
        "3"
    } else if d == 4 {
        "4"
    } else if d == 5 {
        "5"
    } else if d == 6 {
        "6"
    } else if d == 7 {
        "7"
    } else if d == 8 {
        "8"
    } else {
        "9"
    };
    proof {
        reveal_strlit("0");
        reveal_strlit("1");
        reveal_strlit("2");
        reveal_strlit("3");
        reveal_strlit("4");
        reveal_strlit("5");
        reveal_strlit("6");
        reveal_strlit("7");
        reveal_strlit("8");
        reveal_strlit("9");
        assert(c@ =~= seq![digit_char(d as int)]);
    }
    out.append(c);
}

/// Renders `n` with exactly `k` decimal digits, zero-padded.
pub fn digits_string(n: u64, k: usize) -> (r: String)
    requires
        n < pow10(k as nat),
    ensures
        r@ == spec_digits(n as nat, k as nat),
    decreases k,
{
    if k == 0 {
        String::new()
    } else {
        proof {
            assert(pow10(k as nat) == 10 * pow10((k - 1) as nat));
            assert(n < 10 * pow10((k - 1) as nat) ==> n / 10 < pow10((k - 1) as nat))
                by (nonlinear_arith);
        }
        let mut s = digits_string(n / 10, k - 1);
        append_digit(&mut s, n % 10);
        proof {
            assert(s@ =~= spec_digits(n as nat, k as nat));
        }
        s
    }
}

/// The numeric value of a digit character, or 10 for any other character.
pub fn char_value(c: char) -> (r: u64)
    ensures
        is_digit_char(c) ==> r == char_digit(c),
        !is_digit_char(c) ==> r == 10,
{
    if c == '0' {
        0
    } else if c == '1' {
        1
    } else if c == '2' {
        2
    } else if c == '3' {
        3
    } else if c == '4' {
        4
    } else if c == '5' {
        5
    } else if c == '6' {
        6
    } else if c == '7' {
        7
    } else if c == '8' {
        8
    } else if c == '9' {
        9
    } else {
        10
    }
}

/// The value of the `k` characters of `s` at `pos`, if they are all digits
/// and the value fits a `u64`.
pub open spec fn spec_fixed_val(s: Seq<char>, pos: int, k: int) -> Option<u64> {
    let sub = s.subrange(pos, pos + k);
    if all_digits(sub) && digits_value(sub) <= u64::MAX {
        Some(digits_value(sub) as u64)
    } else {
        None
    }
}

/// Parses the `k` characters at `pos` as a fixed-width decimal number.
pub fn parse_fixed_num(s: &str, pos: usize, k: usize) -> (r: Option<u64>)
    requires
        pos + k <= s@.len(),
        pos + k <= usize::MAX,
    ensures
        r == spec_fixed_val(s@, pos as int, k as int),
{
    let ghost sub = s@.subrange(pos as int, pos + k);
    let mut acc: u64 = 0;
    let mut i: usize = 0;
    while i < k
        invariant
            pos + k <= s@.len(),
            pos + k <= usize::MAX,
            i <= k,
            sub == s@.subrange(pos as int, pos + k),
            all_digits(s@.subrange(pos as int, pos + i)),
            acc == digits_value(s@.subrange(pos as int, pos + i)),
        decreases k - i,
    {
        let ghost pre = s@.subrange(pos as int, pos + i);
        let c = s.get_char(pos + i);
        let d = char_value(c);
        if d > 9 {
            proof {
                assert(sub[i as int] == c);
                assert(!all_digits(sub));
            }
            return None;
        }
        let q = (u64::MAX - d) / 10;
        proof {
            vstd::arithmetic::div_mod::lemma_fundamental_div_mod((u64::MAX - d) as int, 10);
            assert(pre.push(c) =~= s@.subrange(pos as int, pos + i + 1));
            lemma_digits_value_push(pre, c);
        }
        if acc > q {
            proof {
                let hi = s@.subrange(pos as int, pos + i + 1);
                assert(digits_value(hi) > u64::MAX);
                if all_digits(sub) {
                    let rest = s@.subrange(pos + i + 1, pos + k);
                    assert(hi + rest =~= sub);
                    lemma_digits_value_concat(hi, rest);
                    assert(all_digits(rest)) by {
                        assert(forall|j: int|
                            0 <= j < rest.len() ==> rest[j] == sub[i + 1 + j]);
                    }
                    lemma_digits_value_bounds(rest);
                    lemma_pow10_increases(0, rest.len());
                    let v = digits_value(hi);
                    let p = pow10(rest.len()) as int;
                    assert(v * p >= v * 1 == v) by (nonlinear_arith)
                        requires v >= 0 && p >= 1;
                    assert(digits_value(sub) > u64::MAX);
                }
            }
            return None;
        }
        acc = acc * 10 + d;
        i += 1;
    }
    proof {
        assert(sub =~= s@.subrange(pos as int, pos + i));
    }
    Some(acc)
}

} // verus!
