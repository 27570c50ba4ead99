//! Numbers read out of text.
use vstd::prelude::*;

use crate::text::{chars_of, decimal, digit, digit_char, hex, push_decimal, signed};

verus! {

/// The value of a digit, in either case.
pub open spec fn digit_value(c: char) -> Option<int> {
    if '0' <= c <= '9' {
        Some(c as int - '0' as int)
    } else if 'a' <= c <= 'f' {
        Some(c as int - 'a' as int + 10)
    } else if 'A' <= c <= 'F' {
        Some(c as int - 'A' as int + 10)
    } else {
        None
    }
}

/// A digit of this radix.
pub open spec fn is_digit(c: char, radix: int) -> bool {
    match digit_value(c) {
        Some(v) => v < radix,
        None => false,
    }
}

/// At least one digit, and nothing else.
pub open spec fn all_digits(s: Seq<char>, radix: int) -> bool {
    s.len() > 0 && forall|i: int| 0 <= i < s.len() ==> is_digit(#[trigger] s[i], radix)
}

/// The number that digits stand for.
pub open spec fn number(s: Seq<char>, radix: int) -> int
    decreases s.len(),
{
    if s.len() == 0 {
        0
    } else {
        number(s.drop_last(), radix) * radix + digit_value(s.last())->Some_0
    }
}

/// The digits behind an optional plus sign.
pub open spec fn unsigned_part(s: Seq<char>) -> Seq<char> {
    if s.len() > 0 && s[0] == '+' {
        s.skip(1)
    } else {
        s
    }
}

/// The number a text stands for, where it is one and no greater than `max`.
pub open spec fn parsed(s: Seq<char>, radix: int, max: int) -> Option<int> {
    let d = unsigned_part(s);
    if all_digits(d, radix) && number(d, radix) <= max {
        Some(number(d, radix))
    } else {
        None
    }
}

/// A number in hexadecimal, without leading zeros.
pub open spec fn hexadecimal(n: nat) -> Seq<char>
    decreases n,
{
    if n < 16 {
        seq![digit(n as int)]
    } else {
        hexadecimal(n / 16).push(digit((n % 16) as int))
    }
}

pub fn digit_of(c: char) -> (r: Option<u32>)
    ensures
        match r {
            Some(v) => digit_value(c) == Some(v as int) && v < 16,
            None => digit_value(c) is None,
        },
{
    if '0' <= c && c <= '9' {
        Some(c as u32 - '0' as u32)
    } else if 'a' <= c && c <= 'f' {
        Some(c as u32 - 'a' as u32 + 10)
    } else if 'A' <= c && c <= 'F' {
        Some(c as u32 - 'A' as u32 + 10)
    } else {
        None
    }
}

pub proof fn lemma_number_grows(s: Seq<char>, radix: int, k: int)
    requires
        radix >= 1,
        all_digits(s, radix),
        0 <= k <= s.len(),
    ensures
        0 <= number(s.take(k), radix) <= number(s, radix),
    decreases s.len(), s.len() - k,
{
    if k == s.len() {
        assert(s.take(k) =~= s);
        if s.len() > 1 {
            assert(s.drop_last() =~= s.take(k - 1));
            assert(all_digits(s.drop_last(), radix)) by {
                assert forall|i: int| 0 <= i < s.drop_last().len() implies is_digit(
                    #[trigger] s.drop_last()[i],
                    radix,
                ) by {
                    assert(is_digit(s[i], radix));
                }
            }
            lemma_number_grows(s.drop_last(), radix, k - 1);
            assert(s.drop_last().take(k - 1) =~= s.drop_last());
            assert(number(s.drop_last(), radix) * radix >= 0) by (nonlinear_arith)
                requires
                    number(s.drop_last(), radix) >= 0,
                    radix >= 1,
            ;
        } else {
            assert(number(s.drop_last(), radix) == 0);
        }
        assert(is_digit(s[s.len() - 1], radix));
    } else if k == 0 {
        assert(s.take(0) =~= seq![]);
        lemma_number_grows(s, radix, s.len() as int);
        assert(s.take(s.len() as int) =~= s);
    } else {
        let less = s.drop_last();
        assert(all_digits(less, radix)) by {
            assert forall|i: int| 0 <= i < less.len() implies is_digit(#[trigger] less[i], radix) by {
                assert(is_digit(s[i], radix));
            }
        }
        lemma_number_grows(less, radix, k);
        assert(less.take(k) =~= s.take(k));
        assert(is_digit(s[s.len() - 1], radix));
        assert(number(less, radix) * radix >= number(less, radix)) by (nonlinear_arith)
            requires
                number(less, radix) >= 0,
                radix >= 1,
        ;
    }
}

/// Reads digits from `from` on, giving up past `max`.
pub fn read_digits(s: &[char], from: usize, radix: u32, max: u32) -> (r: Option<u32>)
    requires
        from <= s@.len(),
        2 <= radix <= 16,
        max <= 0xff_ffff,
    ensures
        ({
            let d = s@.skip(from as int);
            match r {
                Some(v) => all_digits(d, radix as int) && number(d, radix as int) == v && v <= max,
                None => !(all_digits(d, radix as int) && number(d, radix as int) <= max),
            }
        }),
{
    let ghost d = s@.skip(from as int);
    let ghost rad = radix as int;
    let len: usize = s.len();
    if from == len {
        return None;
    }
    let mut v: u32 = 0;
    let mut i: usize = from;
    assert(d.take(0) =~= seq![]);
    while i < len
        invariant
            from <= i <= len == s@.len(),
            from < len,
            d == s@.skip(from as int),
            rad == radix,
            2 <= radix <= 16,
            max <= 0xff_ffff,
            v <= max,
            v == number(d.take(i - from), rad),
            forall|k: int| 0 <= k < i - from ==> is_digit(#[trigger] d[k], rad),
        decreases len - i,
    {
        let ghost k = i - from;
        assert(d[k] == s@[i as int]);
        match digit_of(s[i]) {
            None => {
                return None;
            },
            Some(x) => {
                if x >= radix {
                    assert(!is_digit(d[k], rad));
                    return None;
                }
                proof {
                    assert(d.take(k + 1).drop_last() =~= d.take(k));
                    assert(d.take(k + 1).last() == d[k]);
                    assert(number(d.take(k + 1), rad) == v * rad + x);
                    assert(v * radix <= 0xff_ffff * 16) by (nonlinear_arith)
                        requires
                            0 <= v <= 0xff_ffff,
                            0 <= radix <= 16,
                    ;
                }
                v = v * radix + x;
                if v > max {
                    proof {
                        if all_digits(d, rad) {
                            lemma_number_grows(d, rad, k + 1);
                        }
                    }
                    return None;
                }
            },
        }
        i = i + 1;
    }
    assert(d.take(i - from) =~= d);
    Some(v)
}

/// Reads a number as std's `from_str_radix` does for an unsigned type: digits,
/// behind a plus sign or not.
pub fn parse_number(s: &[char], radix: u32, max: u32) -> (r: Option<u32>)
    requires
        2 <= radix <= 16,
        max <= 0xff_ffff,
    ensures
        match r {
            Some(v) => parsed(s@, radix as int, max as int) == Some(v as int),
            None => parsed(s@, radix as int, max as int) is None,
        },
{
    let from: usize = if s.len() > 0 && s[0] == '+' {
        1
    } else {
        0
    };
    assert(s@.skip(from as int) =~= unsigned_part(s@));
    read_digits(s, from, radix, max)
}

fn push_hexadecimal(out: &mut String, n: u32)
    ensures
        final(out)@ == old(out)@ + hexadecimal(n as nat),
    decreases n,
{
    if n >= 16 {
        push_hexadecimal(out, n / 16);
    }
    out.push(digit_char((n % 16) as u8));
    assert(out@ =~= old(out)@ + hexadecimal(n as nat));
}

/// A number in hexadecimal, as characters.
pub fn hexadecimal_chars(n: u32) -> (out: Vec<char>)
    ensures
        out@ == hexadecimal(n as nat),
{
    let mut s: String = String::new();
    push_hexadecimal(&mut s, n);
    assert(s@ =~= hexadecimal(n as nat));
    chars_of(s.as_str())
}

/// A number in decimal, as characters.
pub fn decimal_chars(n: u64) -> (out: Vec<char>)
    ensures
        out@ == decimal(n as nat),
{
    let mut s: String = String::new();
    push_decimal(&mut s, n);
    assert(s@ =~= decimal(n as nat));
    chars_of(s.as_str())
}

// ---------------------------------------------------------------------------
// What is written can be read.
// ---------------------------------------------------------------------------
proof fn lemma_digit(d: int)
    requires
        0 <= d < 16,
    ensures
        digit_value(digit(d)) == Some(d),
        digit(d) != '+',
{
}

/// One more digit.
proof fn lemma_push_digit(s: Seq<char>, d: int, radix: int)
    requires
        s.len() == 0 || all_digits(s, radix),
        0 <= d < radix <= 16,
    ensures
        all_digits(s.push(digit(d)), radix),
        number(s.push(digit(d)), radix) == number(s, radix) * radix + d,
{
    lemma_digit(d);
    let t = s.push(digit(d));
    assert(t.drop_last() =~= s);
    assert forall|i: int| 0 <= i < t.len() implies is_digit(#[trigger] t[i], radix) by {
        if i < s.len() {
            assert(t[i] == s[i]);
        }
    }
}

pub proof fn law_decimals_read_back(n: nat)
    ensures
        all_digits(decimal(n), 10),
        number(decimal(n), 10) == n,
        unsigned_part(decimal(n)) == decimal(n),
    decreases n,
{
    if n < 10 {
        lemma_push_digit(seq![], n as int, 10);
        assert(seq![].push(digit(n as int)) =~= decimal(n));
    } else {
        law_decimals_read_back(n / 10);
        lemma_push_digit(decimal(n / 10), (n % 10) as int, 10);
    }
    lemma_no_sign(decimal(n), 10);
}

pub proof fn law_hexadecimals_read_back(n: nat)
    ensures
        all_digits(hexadecimal(n), 16),
        number(hexadecimal(n), 16) == n,
        n < 0x1_0000 ==> hexadecimal(n).len() <= 4,
        n < 0x1000 ==> hexadecimal(n).len() <= 3,
        n < 0x100 ==> hexadecimal(n).len() <= 2,
        n < 0x10 ==> hexadecimal(n).len() <= 1,
    decreases n,
{
    if n < 16 {
        lemma_push_digit(seq![], n as int, 16);
        assert(seq![].push(digit(n as int)) =~= hexadecimal(n));
    } else {
        law_hexadecimals_read_back(n / 16);
        lemma_push_digit(hexadecimal(n / 16), (n % 16) as int, 16);
    }
}

/// A text of digits has no sign to drop.
pub proof fn lemma_no_sign(s: Seq<char>, radix: int)
    requires
        all_digits(s, radix),
    ensures
        unsigned_part(s) == s,
{
    assert(is_digit(s[0], radix));
}

/// Two hexadecimal digits read back as the byte they stand for.
pub proof fn law_hex_pairs_read_back(n: nat)
    requires
        n < 256,
    ensures
        hex(n, 2).len() == 2,
        all_digits(hex(n, 2), 16),
        number(hex(n, 2), 16) == n,
{
    reveal_with_fuel(hex, 3);
    let a = digit((n / 16 % 16) as int);
    let b = digit((n % 16) as int);
    lemma_push_digit(seq![], (n / 16 % 16) as int, 16);
    assert(seq![].push(a) =~= seq![a]);
    lemma_push_digit(seq![a], (n % 16) as int, 16);
    assert(hex(n, 2) =~= seq![a].push(b));
    assert(number(seq![], 16) == 0);
}

/// What each digit is worth: those of either case, and nothing else.
pub proof fn law_what_digits_are_worth(c: char)
    ensures
        '0' <= c <= '9' ==> digit_value(c) == Some(c as int - 48),
        'a' <= c <= 'f' ==> digit_value(c) == Some(c as int - 87),
        'A' <= c <= 'F' ==> digit_value(c) == Some(c as int - 55),
        digit_value(c) is Some ==> '0' <= c <= '9' || 'a' <= c <= 'f' || 'A' <= c <= 'F',
{
}

/// One more digit is worth itself, and makes all before it worth the radix
/// times as much.
pub proof fn law_digits_add_up(s: Seq<char>, c: char, radix: int)
    requires
        digit_value(c) is Some,
    ensures
        number(seq![], radix) == 0,
        number(s.push(c), radix) == radix * number(s, radix) + digit_value(c)->Some_0,
{
    assert(s.push(c).drop_last() =~= s);
    let n = number(s, radix);
    assert(n * radix == radix * n) by (nonlinear_arith);
}

/// A text reads as a number exactly if it is digits of the radix, one at least,
/// behind at most one plus sign, and the number is no greater than asked for.
pub proof fn law_what_reads_as_a_number(s: Seq<char>, radix: int, max: int)
    ensures
        s.len() == 0 ==> parsed(s, radix, max) is None,
        s.len() > 0 && s[0] != '+' ==> parsed(s, radix, max) == (if (forall|i: int|
            0 <= i < s.len() ==> is_digit(#[trigger] s[i], radix)) && number(s, radix) <= max {
            Some(number(s, radix))
        } else {
            None
        }),
        s.len() > 0 && s[0] == '+' ==> parsed(s, radix, max) == (if s.len() > 1 && s[1] != '+' {
            parsed(s.skip(1), radix, max)
        } else {
            None
        }),
{
    if s.len() > 1 && s[0] == '+' && s[1] == '+' {
        assert(s.skip(1)[0] == '+');
        assert(!is_digit(s.skip(1)[0], radix));
    }
}

/// A number below nought is written as its opposite behind a minus sign, any
/// other as it is.
pub proof fn law_signed_numbers_read_back(n: int)
    ensures
        n < 0 ==> signed(n).len() > 0 && signed(n)[0] == '-' && parsed(signed(n).skip(1), 10, -n)
            == Some(-n),
        n >= 0 ==> parsed(signed(n), 10, n) == Some(n),
{
    if n < 0 {
        assert(signed(n).skip(1) =~= decimal((-n) as nat));
        law_decimals_read_back((-n) as nat);
        lemma_no_sign(decimal((-n) as nat), 10);
    } else {
        law_decimals_read_back(n as nat);
        lemma_no_sign(decimal(n as nat), 10);
    }
}

/// A number is written without zeros in front.
pub proof fn law_no_zeros_in_front(n: nat)
    requires
        n > 0,
    ensures
        decimal(n).len() > 0,
        decimal(n)[0] != '0',
        hexadecimal(n).len() > 0,
        hexadecimal(n)[0] != '0',
    decreases n,
{
    if n >= 10 {
        law_no_zeros_in_front(n / 10);
    }
    if n >= 16 {
        law_no_zeros_in_front(n / 16);
    }
}

/// Padded digits are as many as asked for, and read back as the number if it
/// fits.
pub proof fn law_padded_digits_read_back(n: nat, width: nat)
    requires
        n < vstd::arithmetic::power::pow(16, width),
    ensures
        hex(n, width).len() == width,
        number(hex(n, width), 16) == n,
        forall|i: int| 0 <= i < width ==> is_digit(#[trigger] hex(n, width)[i], 16),
    decreases width,
{
    vstd::arithmetic::power::lemma_pow0(16);
    if width > 0 {
        let p = vstd::arithmetic::power::pow(16, (width - 1) as nat);
        reveal(vstd::arithmetic::power::pow);
        assert(vstd::arithmetic::power::pow(16, width) == 16 * p);
        law_padded_digits_read_back(n / 16, (width - 1) as nat);
        let front = hex(n / 16, (width - 1) as nat);
        lemma_digit((n % 16) as int);
        lemma_push_digit(front, (n % 16) as int, 16);
        assert forall|i: int| 0 <= i < width implies is_digit(#[trigger] hex(n, width)[i], 16) by {
            if i < width - 1 {
                assert(hex(n, width)[i] == front[i]);
            }
        }
    }
}

} // verus!
