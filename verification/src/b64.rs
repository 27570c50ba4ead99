//! base64url, unpadded.
//!
//! URL-safe alphabet (`-` and `_` instead of `+` and `/`) and no `=` padding,
//! so the result survives being pasted into a URL, a chat window, or a QR
//! code without anything re-encoding it.
use vstd::prelude::*;

use crate::text::chars_of;

verus! {

/// The symbol for six bits.
pub open spec fn symbol(v: int) -> char {
    if v < 26 {
        ('A' as int + v) as char
    } else if v < 52 {
        ('a' as int + (v - 26)) as char
    } else if v < 62 {
        ('0' as int + (v - 52)) as char
    } else if v == 62 {
        '-'
    } else {
        '_'
    }
}

/// The six bits a symbol stands for.
pub open spec fn value(c: char) -> Option<int> {
    if 'A' <= c <= 'Z' {
        Some(c as int - 'A' as int)
    } else if 'a' <= c <= 'z' {
        Some(c as int - 'a' as int + 26)
    } else if '0' <= c <= '9' {
        Some(c as int - '0' as int + 52)
    } else if c == '-' {
        Some(62)
    } else if c == '_' {
        Some(63)
    } else {
        None
    }
}

/// Three bytes are four symbols; what is left over at the end, one more
/// symbol than it has bytes.
pub open spec fn encoded(b: Seq<u8>) -> Seq<char>
    decreases b.len(),
{
    if b.len() == 0 {
        seq![]
    } else if b.len() == 1 {
        seq![symbol(b[0] as int / 4), symbol((b[0] as int % 4) * 16)]
    } else if b.len() == 2 {
        seq![
            symbol(b[0] as int / 4),
            symbol((b[0] as int % 4) * 16 + b[1] as int / 16),
            symbol((b[1] as int % 16) * 4),
        ]
    } else {
        seq![
            symbol(b[0] as int / 4),
            symbol((b[0] as int % 4) * 16 + b[1] as int / 16),
            symbol((b[1] as int % 16) * 4 + b[2] as int / 64),
            symbol(b[2] as int % 64),
        ] + encoded(b.skip(3))
    }
}

/// The bytes of the first symbols: as many whole bytes as their bits fill.
pub open spec fn group(v: Seq<int>) -> Seq<u8> {
    let first = (v[0] * 4 + v[1] / 16) as u8;
    if v.len() == 2 {
        seq![first]
    } else {
        let second = ((v[1] % 16) * 16 + v[2] / 4) as u8;
        if v.len() == 3 {
            seq![first, second]
        } else {
            seq![first, second, ((v[2] % 4) * 64 + v[3]) as u8]
        }
    }
}

/// All of the characters are symbols.
pub open spec fn all_symbols(s: Seq<char>) -> bool {
    forall|i: int| 0 <= i < s.len() ==> value(#[trigger] s[i]) is Some
}

/// The values of symbols.
pub open spec fn values(s: Seq<char>) -> Seq<int> {
    s.map_values(|c: char| value(c)->Some_0)
}

/// What symbols decode to, four at a time; nothing where one of them is no
/// symbol, or where one is left over by itself.
pub open spec fn decoded(s: Seq<char>) -> Option<Seq<u8>>
    decreases s.len(),
{
    if s.len() == 0 {
        Some(seq![])
    } else if s.len() == 1 {
        None
    } else if s.len() <= 4 {
        if all_symbols(s) {
            Some(group(values(s)))
        } else {
            None
        }
    } else if !all_symbols(s.take(4)) {
        None
    } else {
        match decoded(s.skip(4)) {
            None => None,
            Some(rest) => Some(group(values(s.take(4))) + rest),
        }
    }
}

fn symbol_of(v: u8) -> (c: char)
    requires
        v < 64,
    ensures
        c == symbol(v as int),
{
    if v < 26 {
        (65 + v) as char
    } else if v < 52 {
        (97 + (v - 26)) as char
    } else if v < 62 {
        (48 + (v - 52)) as char
    } else if v == 62 {
        '-'
    } else {
        '_'
    }
}

fn value_of(c: char) -> (r: Option<u8>)
    ensures
        match r {
            Some(v) => value(c) == Some(v as int) && v < 64,
            None => value(c) is None,
        },
{
    if 'A' <= c && c <= 'Z' {
        Some((c as u32 - 'A' as u32) as u8)
    } else if 'a' <= c && c <= 'z' {
        Some((c as u32 - 'a' as u32 + 26) as u8)
    } else if '0' <= c && c <= '9' {
        Some((c as u32 - '0' as u32 + 52) as u8)
    } else if c == '-' {
        Some(62)
    } else if c == '_' {
        Some(63)
    } else {
        None
    }
}

pub fn encode(bytes: &[u8]) -> (out: String)
    ensures
        out@ == encoded(bytes@),
{
    let len: usize = bytes.len();
    let mut out: String = String::new();
    let mut i: usize = 0;
    assert(bytes@.skip(0) =~= bytes@);
    assert(out@ + encoded(bytes@) =~= encoded(bytes@));
    while len - i >= 3
        invariant
            i <= len,
            len == bytes@.len(),
            out@ + encoded(bytes@.skip(i as int)) == encoded(bytes@),
        decreases len - i,
    {
        let ghost was = out@;
        let ghost tail = bytes@.skip(i as int);
        let a: u8 = bytes[i];
        let b: u8 = bytes[i + 1];
        let c: u8 = bytes[i + 2];
        out.push(symbol_of(a / 4));
        out.push(symbol_of((a % 4) * 16 + b / 16));
        out.push(symbol_of((b % 16) * 4 + c / 64));
        out.push(symbol_of(c % 64));
        i = i + 3;
        assert(tail.skip(3) =~= bytes@.skip(i as int));
        assert(was + encoded(tail) =~= out@ + encoded(bytes@.skip(i as int)));
    }
    let ghost was = out@;
    let ghost tail = bytes@.skip(i as int);
    if len - i == 1 {
        let a: u8 = bytes[i];
        out.push(symbol_of(a / 4));
        out.push(symbol_of((a % 4) * 16));
    } else if len - i == 2 {
        let a: u8 = bytes[i];
        let b: u8 = bytes[i + 1];
        out.push(symbol_of(a / 4));
        out.push(symbol_of((a % 4) * 16 + b / 16));
        out.push(symbol_of((b % 16) * 4));
    }
    assert(out@ =~= was + encoded(tail));
    out
}

/// `None` for anything that is not valid base64url. This decodes whatever a
/// user pasted, so it must reject rather than guess.
pub fn decode(s: &str) -> (r: Option<Vec<u8>>)
    ensures
        match r {
            Some(out) => decoded(s@) == Some(out@),
            None => decoded(s@) is None,
        },
{
    let chars: Vec<char> = chars_of(s);
    let len: usize = chars.len();
    let mut out: Vec<u8> = Vec::new();
    let mut i: usize = 0;
    proof {
        assert(s@.skip(0) =~= s@);
        if decoded(s@) is Some {
            assert(out@ + decoded(s@)->Some_0 =~= decoded(s@)->Some_0);
        }
    }
    while i < len
        invariant
            i <= len,
            len == chars@.len(),
            chars@ == s@,
            match decoded(s@.skip(i as int)) {
                None => decoded(s@) is None,
                Some(rest) => decoded(s@) == Some(out@ + rest),
            },
        decreases len - i,
    {
        let ghost was = out@;
        let ghost tail = s@.skip(i as int);
        let n: usize = if len - i < 4 {
            len - i
        } else {
            4
        };
        // A lone trailing character cannot encode even one byte.
        if n == 1 {
            return None;
        }
        let ghost head = tail.take(n as int);
        let mut v: Vec<u8> = Vec::new();
        let mut k: usize = 0;
        while k < n
            invariant
                k <= n,
                i + n <= len,
                2 <= n <= 4,
                len == chars@.len(),
                chars@ == s@,
                tail == s@.skip(i as int),
                head == tail.take(n as int),
                v@.len() == k,
                decoded(tail) is None ==> decoded(s@) is None,
                n == 4 || n == tail.len(),
                forall|m: int|
                    0 <= m < k ==> value(#[trigger] head[m]) == Some(v@[m] as int) && v@[m] < 64,
            decreases n - k,
        {
            assert(head[k as int] == chars@[i + k]);
            match value_of(chars[i + k]) {
                None => {
                    proof {
                        assert(!all_symbols(head));
                        if tail.len() <= 4 {
                            assert(head =~= tail);
                        }
                    }
                    return None;
                },
                Some(x) => {
                    v.push(x);
                },
            }
            k = k + 1;
        }
        assert(all_symbols(head));
        assert(v@[0] < 64 && v@[1] < 64 && (n > 2 ==> v@[2] < 64) && (n > 3 ==> v@[3] < 64)) by {
            assert(value(head[0]) is Some && value(head[1]) is Some);
            assert(n > 2 ==> value(head[2]) is Some);
            assert(n > 3 ==> value(head[3]) is Some);
        }
        assert(values(head).len() == n);
        assert(forall|m: int| 0 <= m < n ==> #[trigger] values(head)[m] == v@[m]);
        out.push(v[0] * 4 + v[1] / 16);
        if n > 2 {
            out.push((v[1] % 16) * 16 + v[2] / 4);
        }
        if n > 3 {
            out.push((v[2] % 4) * 64 + v[3]);
        }
        proof {
            assert(out@ =~= was + group(values(head)));
            assert(tail.skip(n as int) =~= s@.skip(i + n));
            if tail.len() <= 4 {
                assert(head =~= tail);
                assert(tail.skip(n as int).len() == 0);
                assert(out@ + seq![] =~= out@);
            } else {
                match decoded(tail.skip(4)) {
                    None => {},
                    Some(rest) => {
                        assert(was + (group(values(head)) + rest) =~= out@ + rest);
                    },
                }
            }
        }
        i = i + n;
    }
    assert(s@.skip(i as int).len() == 0);
    assert(out@ + seq![] =~= out@);
    Some(out)
}

proof fn lemma_symbol(v: int)
    requires
        0 <= v < 64,
    ensures
        value(symbol(v)) == Some(v),
{
}

/// Decoding gives back what was encoded, whatever its length.
pub proof fn law_decoding_gives_back(b: Seq<u8>)
    ensures
        decoded(encoded(b)) == Some(b),
    decreases b.len(),
{
    let s = encoded(b);
    assert forall|v: int| 0 <= v < 64 implies value(#[trigger] symbol(v)) == Some(v) by {
        lemma_symbol(v);
    }
    if b.len() == 0 {
        assert(seq![] =~= b);
    } else if b.len() <= 2 {
        assert(all_symbols(s));
        assert(group(values(s)) =~= b);
    } else {
        let rest = b.skip(3);
        law_decoding_gives_back(rest);
        let head = s.take(4);
        assert(s.skip(4) =~= encoded(rest));
        assert(all_symbols(head));
        assert(group(values(head)) =~= b.take(3));
        assert(b.take(3) + rest =~= b);
        if rest.len() == 0 {
            assert(s =~= head);
            assert(b =~= b.take(3));
        }
    }
}

/// Everything encoded is made of symbols alone, so nothing re-encodes it.
pub proof fn law_the_alphabet_is_url_safe(b: Seq<u8>)
    ensures
        all_symbols(encoded(b)),
    decreases b.len(),
{
    let s = encoded(b);
    assert forall|v: int| 0 <= v < 64 implies value(#[trigger] symbol(v)) == Some(v) by {
        lemma_symbol(v);
    }
    if b.len() > 2 {
        law_the_alphabet_is_url_safe(b.skip(3));
        assert forall|i: int| 0 <= i < s.len() implies value(#[trigger] s[i]) is Some by {
            if i >= 4 {
                assert(s[i] == encoded(b.skip(3))[i - 4]);
            }
        }
    }
}

/// Four symbols for three bytes, and for what is left over one more symbol
/// than it has bytes.
pub proof fn law_encoding_grows_by_a_third(b: Seq<u8>)
    ensures
        encoded(b).len() == (4 * b.len() + 2) / 3,
    decreases b.len(),
{
    if b.len() > 2 {
        law_encoding_grows_by_a_third(b.skip(3));
    }
}

/// A character that is no symbol, wherever it stands, and a lone character
/// left over are refused.
pub proof fn law_junk_is_refused(s: Seq<char>)
    requires
        !all_symbols(s) || s.len() % 4 == 1,
    ensures
        decoded(s) is None,
    decreases s.len(),
{
    if s.len() > 4 {
        let head = s.take(4);
        let rest = s.skip(4);
        if all_symbols(head) {
            if !all_symbols(s) {
                let i = choose|i: int| 0 <= i < s.len() && value(#[trigger] s[i]) is None;
                if i < 4 {
                    assert(head[i] == s[i]);
                } else {
                    assert(rest[i - 4] == s[i]);
                }
            }
            law_junk_is_refused(rest);
        }
    }
}

/// The alphabet: capital letters, small letters, digits, and two signs that a
/// link can carry, in this order, and nothing else.
pub proof fn law_the_alphabet(c: char)
    ensures
        'A' <= c <= 'Z' ==> value(c) == Some(c as int - 65),
        'a' <= c <= 'z' ==> value(c) == Some(c as int - 71),
        '0' <= c <= '9' ==> value(c) == Some(c as int + 4),
        c == '-' ==> value(c) == Some(62int),
        c == '_' ==> value(c) == Some(63int),
        value(c) is Some ==> 'A' <= c <= 'Z' || 'a' <= c <= 'z' || '0' <= c <= '9' || c == '-'
            || c == '_',
        value(c) matches Some(v) ==> 0 <= v < 64,
{
}

/// What a symbol stands for, nought where it is none.
pub open spec fn bits(c: char) -> int {
    match value(c) {
        Some(v) => v,
        None => 0,
    }
}

/// Each four symbols hold the bits of three bytes, the highest first.
pub proof fn law_symbols_hold_six_bits_each(b: Seq<u8>, k: int)
    requires
        0 <= k,
        3 * k + 2 < b.len(),
    ensures
        ({
            let e = encoded(b);
            &&& 4 * k + 3 < e.len()
            &&& bits(e[4 * k]) * 262144 + bits(e[4 * k + 1]) * 4096 + bits(e[4 * k + 2]) * 64
                + bits(e[4 * k + 3]) == b[3 * k] * 65536 + b[3 * k + 1] * 256 + b[3 * k + 2]
        }),
    decreases k,
{
    law_encoding_grows_by_a_third(b);
    assert forall|v: int| 0 <= v < 64 implies value(#[trigger] symbol(v)) == Some(v) by {
        lemma_symbol(v);
    }
    if k > 0 {
        law_symbols_hold_six_bits_each(b.skip(3), k - 1);
    }
}

/// What is left over is held from the highest bit on, with nothing but zeros
/// behind it.
pub proof fn law_the_last_symbols_are_filled_with_zeros(b: Seq<u8>)
    ensures
        ({
            let e = encoded(b);
            let n = b.len() as int;
            let m = e.len() as int;
            &&& n % 3 == 1 ==> m >= 2 && bits(e[m - 2]) * 64 + bits(e[m - 1]) == b[n - 1] * 16
            &&& n % 3 == 2 ==> m >= 3 && bits(e[m - 3]) * 4096 + bits(e[m - 2]) * 64 + bits(
                e[m - 1],
            ) == (b[n - 2] * 256 + b[n - 1]) * 4
        }),
    decreases b.len(),
{
    law_encoding_grows_by_a_third(b);
    assert forall|v: int| 0 <= v < 64 implies value(#[trigger] symbol(v)) == Some(v) by {
        lemma_symbol(v);
    }
    if b.len() >= 3 {
        law_encoding_grows_by_a_third(b.skip(3));
        law_the_last_symbols_are_filled_with_zeros(b.skip(3));
    }
}

/// Symbols decode, unless one is left over by itself: to the bytes that their
/// bits fill, and no more.
pub proof fn law_symbols_decode(s: Seq<char>)
    requires
        all_symbols(s),
        s.len() % 4 != 1,
    ensures
        decoded(s) is Some,
        decoded(s)->Some_0.len() == s.len() * 3 / 4,
    decreases s.len(),
{
    if s.len() > 4 {
        assert(all_symbols(s.take(4)));
        assert(all_symbols(s.skip(4)));
        law_symbols_decode(s.skip(4));
    }
}

/// Each three bytes decoded are the bits of four symbols, the highest first.
pub proof fn law_bytes_are_read_off_the_bits(s: Seq<char>, k: int)
    requires
        decoded(s) is Some,
        0 <= k,
        4 * k + 3 < s.len(),
    ensures
        ({
            let b = decoded(s)->Some_0;
            &&& 3 * k + 2 < b.len()
            &&& b[3 * k] * 65536 + b[3 * k + 1] * 256 + b[3 * k + 2] == bits(s[4 * k])
                * 262144 + bits(s[4 * k + 1]) * 4096 + bits(s[4 * k + 2]) * 64 + bits(s[4 * k + 3])
        }),
    decreases k,
{
    if s.len() == 4 {
        assert(s.take(4) =~= s);
    }
    let head = s.take(4);
    assert(all_symbols(head));
    let v = values(head);
    assert(value(head[0]) == Some(v[0]) && value(head[1]) == Some(v[1]) && value(head[2]) == Some(
        v[2],
    ) && value(head[3]) == Some(v[3]));
    assert(0 <= v[0] < 64 && 0 <= v[1] < 64 && 0 <= v[2] < 64 && 0 <= v[3] < 64);
    if k > 0 {
        law_bytes_are_read_off_the_bits(s.skip(4), k - 1);
    }
}

} // verus!
